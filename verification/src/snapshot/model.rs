//! What a snapshot holds, and how it becomes bytes and comes back.

use super::codec::{compress, compressed, decompress, decompressed, instant_text, pack, packed};
use super::codec::{payload_view, read_instant, refused_value, rfc3339, rfc3339_instant};
use super::codec::{row_views, unpack, unpacked, Payload, PayloadSpec, Row, RowSpec};
use crate::action::model::Timestamp;
use crate::index::{labels, last_at, Index, Key, Label};
use crate::scan::tree::{path_of, Cell, Node, NodeId, NodeKind, Tree};
use crate::scan::walker::ScanResult;
use vstd::prelude::*;

verus! {

/// Bump when the encoded layout changes; older files are ignored by the store.
pub const SNAPSHOT_FORMAT: u32 = 1;

#[derive(Debug, Clone, PartialEq, Eq)]
pub struct SnapshotEntry {
    /// Absolute path.
    pub path: String,
    pub kind: NodeKind,
    pub size: u64,
    pub file_count: u64,
    pub mtime: i64,
}

#[derive(Debug, Clone)]
pub struct Snapshot {
    pub format: u32,
    pub taken_at: Timestamp,
    pub root: String,
    pub total_bytes: u64,
    pub file_count: u64,
    /// Files smaller than this were not recorded.
    pub file_threshold: u64,
    pub entries: Vec<SnapshotEntry>,
}

/// A [`SnapshotEntry`] in specifications.
pub struct EntrySpec {
    pub path: Seq<char>,
    pub kind: NodeKind,
    pub size: u64,
    pub file_count: u64,
    pub mtime: i64,
}

impl View for SnapshotEntry {
    type V = EntrySpec;

    open spec fn view(&self) -> EntrySpec {
        EntrySpec {
            path: self.path@,
            kind: self.kind,
            size: self.size,
            file_count: self.file_count,
            mtime: self.mtime,
        }
    }
}

/// Several entries in specifications.
pub open spec fn entry_views(entries: Seq<SnapshotEntry>) -> Seq<EntrySpec> {
    entries.map_values(|entry: SnapshotEntry| entry@)
}

/// A [`Snapshot`] in specifications.
#[verifier::ext_equal]
pub struct SnapshotSpec {
    pub format: u32,
    pub taken_at: Timestamp,
    pub root: Seq<char>,
    pub total_bytes: u64,
    pub file_count: u64,
    pub file_threshold: u64,
    pub entries: Seq<EntrySpec>,
}

impl View for Snapshot {
    type V = SnapshotSpec;

    open spec fn view(&self) -> SnapshotSpec {
        SnapshotSpec {
            format: self.format,
            taken_at: self.taken_at,
            root: self.root@,
            total_bytes: self.total_bytes,
            file_count: self.file_count,
            file_threshold: self.file_threshold,
            entries: entry_views(self.entries@),
        }
    }
}

/// Why a snapshot could not be made bytes or read from them.
#[derive(Debug)]
pub enum CodecError {
    /// A value could not be packed or read.
    Encode(postcard::Error),
    /// The bytes are no compressed block.
    Decompress(lz4_flex::block::DecompressError),
    /// The snapshot is of another format.
    Format(u32),
    /// More bytes than a compressed block can hold.
    TooLarge,
}

/// Whether a node is recorded: every directory, and what takes at least `threshold`.
pub open spec fn recorded(cell: Cell, threshold: u64) -> bool {
    cell.kind == NodeKind::Dir || cell.size >= threshold
}

/// What is recorded of the first `k` nodes of an arena.
pub open spec fn recorded_of(cells: Seq<Cell>, threshold: u64, k: nat) -> Seq<EntrySpec>
    decreases k,
{
    if k == 0 {
        Seq::empty()
    } else {
        let before = recorded_of(cells, threshold, (k - 1) as nat);
        let cell = cells[k - 1];
        if recorded(cell, threshold) {
            before.push(
                EntrySpec {
                    path: path_of(cells, k - 1),
                    kind: cell.kind,
                    size: cell.size,
                    file_count: cell.file_count as u64,
                    mtime: cell.mtime,
                },
            )
        } else {
            before
        }
    }
}

/// The number a kind is packed as.
pub open spec fn kind_code(kind: NodeKind) -> u32 {
    match kind {
        NodeKind::Dir => 0,
        NodeKind::File => 1,
        NodeKind::Symlink => 2,
        NodeKind::Other => 3,
    }
}

/// The kind a number stands for.
pub open spec fn kind_named(code: u32) -> Option<NodeKind> {
    if code == 0 {
        Some(NodeKind::Dir)
    } else if code == 1 {
        Some(NodeKind::File)
    } else if code == 2 {
        Some(NodeKind::Symlink)
    } else if code == 3 {
        Some(NodeKind::Other)
    } else {
        None
    }
}

/// What an entry is packed as.
pub open spec fn row_of(entry: EntrySpec) -> RowSpec {
    (entry.path, kind_code(entry.kind), entry.size, entry.file_count, entry.mtime)
}

/// What entries are packed as.
pub open spec fn rows_of(entries: Seq<EntrySpec>) -> Seq<RowSpec> {
    entries.map_values(|entry: EntrySpec| row_of(entry))
}

/// What a snapshot is packed as, with the text of its instant.
pub open spec fn payload_of(snapshot: SnapshotSpec, taken_at: Seq<char>) -> PayloadSpec {
    (
        snapshot.format,
        taken_at,
        snapshot.root,
        snapshot.total_bytes,
        snapshot.file_count,
        snapshot.file_threshold,
        rows_of(snapshot.entries),
    )
}

/// Whether every row has a kind.
pub open spec fn kinds_known(rows: Seq<RowSpec>) -> bool {
    forall|i: int| 0 <= i < rows.len() ==> kind_named((#[trigger] rows[i]).1) is Some
}

/// The entries in rows that have a kind.
pub open spec fn entries_in(rows: Seq<RowSpec>) -> Seq<EntrySpec> {
    rows.map_values(
        |row: RowSpec|
            EntrySpec {
                path: row.0,
                kind: kind_named(row.1)->0,
                size: row.2,
                file_count: row.3,
                mtime: row.4,
            },
    )
}

/// What bytes read as.
pub enum Reading {
    /// No compressed block.
    NoBlock,
    /// A block that holds no snapshot.
    NoSnapshot,
    /// A snapshot of another format.
    Format(u32),
    Snapshot(SnapshotSpec),
}

/// What a payload reads as.
pub open spec fn payload_reading(payload: PayloadSpec) -> Reading {
    match rfc3339_instant(payload.1) {
        None => Reading::NoSnapshot,
        Some((secs, nanos)) => if !kinds_known(payload.6) {
            Reading::NoSnapshot
        } else if payload.0 != SNAPSHOT_FORMAT {
            Reading::Format(payload.0)
        } else {
            Reading::Snapshot(
                SnapshotSpec {
                    format: payload.0,
                    taken_at: Timestamp { secs, nanos },
                    root: payload.2,
                    total_bytes: payload.3,
                    file_count: payload.4,
                    file_threshold: payload.5,
                    entries: entries_in(payload.6),
                },
            )
        },
    }
}

/// What bytes read as.
pub open spec fn reading(bytes: Seq<u8>) -> Reading {
    match decompressed(bytes) {
        None => Reading::NoBlock,
        Some(raw) => match unpacked(raw) {
            None => Reading::NoSnapshot,
            Some(payload) => payload_reading(payload),
        },
    }
}

/// What reading gave is what bytes read as.
pub open spec fn reads_as(read: Result<Snapshot, CodecError>, expected: Reading) -> bool {
    match (read, expected) {
        (Ok(snapshot), Reading::Snapshot(expected)) => snapshot@ == expected,
        (Err(CodecError::Decompress(_)), Reading::NoBlock) => true,
        (Err(CodecError::Encode(_)), Reading::NoSnapshot) => true,
        (Err(CodecError::Format(format)), Reading::Format(expected)) => format == expected,
        _ => false,
    }
}

fn code_of(kind: NodeKind) -> (code: u32)
    ensures
        code == kind_code(kind),
{
    match kind {
        NodeKind::Dir => 0,
        NodeKind::File => 1,
        NodeKind::Symlink => 2,
        NodeKind::Other => 3,
    }
}

fn kind_from(code: u32) -> (kind: Option<NodeKind>)
    ensures
        kind == kind_named(code),
{
    match code {
        0 => Some(NodeKind::Dir),
        1 => Some(NodeKind::File),
        2 => Some(NodeKind::Symlink),
        3 => Some(NodeKind::Other),
        _ => None,
    }
}

/// The snapshot in a payload.
pub fn read_payload(payload: Payload) -> (read: Result<Snapshot, CodecError>)
    ensures
        reads_as(read, payload_reading(payload_view(payload))),
{
    let (format, text, root, total_bytes, file_count, file_threshold, rows): Payload = payload;
    let ghost all = row_views(rows@);
    let taken_at: Timestamp = match read_instant(&text) {
        Some((secs, nanos)) => Timestamp { secs, nanos },
        None => {
            return Err(CodecError::Encode(refused_value("not an instant")));
        },
    };
    let mut entries: Vec<SnapshotEntry> = Vec::new();
    let mut i: usize = 0;
    while i < rows.len()
        invariant
            i <= rows.len(),
            all == row_views(rows@),
            all == payload_view(payload).6,
            payload_view(payload).1 == text@,
            rfc3339_instant(text@) is Some,
            entries@.len() == i,
            forall|k: int| 0 <= k < i ==> kind_named((#[trigger] all[k]).1) is Some,
            forall|k: int| 0 <= k < i ==> (#[trigger] entries@[k])@ == entries_in(all)[k],
        decreases rows.len() - i,
    {
        let row: &Row = &rows[i];
        assert(all[i as int] == (row.0@, row.1, row.2, row.3, row.4));
        let kind: NodeKind = match kind_from(row.1) {
            Some(kind) => kind,
            None => {
                assert(!kinds_known(all));
                return Err(CodecError::Encode(refused_value("not a kind")));
            },
        };
        entries.push(
            SnapshotEntry {
                path: row.0.clone(),
                kind,
                size: row.2,
                file_count: row.3,
                mtime: row.4,
            },
        );
        i += 1;
    }
    if format != SNAPSHOT_FORMAT {
        return Err(CodecError::Format(format));
    }
    assert(entry_views(entries@) =~= entries_in(all));
    Ok(Snapshot { format, taken_at, root, total_bytes, file_count, file_threshold, entries })
}

/// The sizes of a snapshot by path.
pub struct SizeIndex {
    index: Index<Label>,
    sizes: Vec<u64>,
}

impl SizeIndex {
    /// The paths.
    pub closed spec fn paths(self) -> Seq<Seq<char>> {
        self.index.list()
    }

    /// The size at each of them.
    pub closed spec fn sizes(self) -> Seq<u64> {
        self.sizes@
    }

    #[verifier::type_invariant]
    spec fn fits(self) -> bool {
        self.index.wf() && self.index.list().len() == self.sizes@.len()
    }

    /// The size at a path.
    pub fn get(&self, path: &str) -> (size: Option<u64>)
        ensures
            size == match last_at(self.paths(), path@) {
                Some(i) => Some(self.sizes()[i]),
                None => None,
            },
            self.paths().len() == self.sizes().len(),
    {
        proof {
            use_type_invariant(self);
            crate::index::last_at_found(self.index.list(), path@);
        }
        match self.index.last(path) {
            Some(i) => Some(self.sizes[i]),
            None => None,
        }
    }
}

/// The paths of several entries.
pub open spec fn entry_paths(entries: Seq<SnapshotEntry>) -> Seq<Seq<char>> {
    entries.map_values(|entry: SnapshotEntry| entry.path@)
}

/// The paths of several entries, to be searched.
pub fn index_paths<'a>(entries: &'a Vec<SnapshotEntry>) -> (index: Index<Key<'a>>)
    ensures
        index.wf(),
        index.list() == entry_paths(entries@),
{
    let mut keys: Vec<Key<'a>> = Vec::new();
    let mut i: usize = 0;
    while i < entries.len()
        invariant
            i <= entries.len(),
            keys@.len() == i,
            forall|k: int| 0 <= k < i ==> (#[trigger] keys@[k]).text@ == entries@[k].path@,
        decreases entries.len() - i,
    {
        keys.push(Key { text: entries[i].path.as_str() });
        i += 1;
    }
    assert(labels(keys@) =~= entry_paths(entries@));
    Index::new(keys)
}

impl Snapshot {
    /// Every directory plus files whose allocated size is at least `file_threshold`.
    pub fn from_result(result: &ScanResult, file_threshold: u64) -> (snapshot: Snapshot)
        requires
            result.tree.cells().len() > 0,
        ensures
            snapshot@ == (SnapshotSpec {
                format: SNAPSHOT_FORMAT,
                taken_at: result.started_at,
                root: result.root@,
                total_bytes: result.tree.cells()[0].size,
                file_count: result.tree.cells()[0].file_count as u64,
                file_threshold,
                entries: recorded_of(
                    result.tree.cells(),
                    file_threshold,
                    result.tree.cells().len(),
                ),
            }),
    {
        let tree: &Tree = &result.tree;
        let ghost cells = tree.cells();
        let nodes: Vec<(NodeId, &Node)> = tree.iter();
        let mut entries: Vec<SnapshotEntry> = Vec::new();
        let mut i: usize = 0;
        assert(entry_views(entries@) =~= Seq::empty());
        while i < nodes.len()
            invariant
                i <= nodes.len(),
                cells == tree.cells(),
                nodes@.len() == cells.len(),
                forall|k: int|
                    0 <= k < nodes@.len() ==> (#[trigger] nodes@[k]).0 == k && *nodes@[k].1
                        == tree.arena()[k],
                entry_views(entries@) == recorded_of(cells, file_threshold, i as nat),
            decreases nodes.len() - i,
        {
            let ghost before = entries@;
            let id: NodeId = nodes[i].0;
            let node: &Node = nodes[i].1;
            assert(*node == tree.arena()[i as int]);
            if node.kind == NodeKind::Dir || node.size >= file_threshold {
                let entry = SnapshotEntry {
                    path: tree.path(id),
                    kind: node.kind,
                    size: node.size,
                    file_count: node.file_count as u64,
                    mtime: node.mtime,
                };
                entries.push(entry);
                assert(entry_views(entries@) =~= entry_views(before).push(entry@));
            }
            i += 1;
        }
        let root: &Node = tree.root();
        Snapshot {
            format: SNAPSHOT_FORMAT,
            taken_at: result.started_at,
            root: result.root.clone(),
            total_bytes: root.size,
            file_count: root.file_count as u64,
            file_threshold,
            entries,
        }
    }

    /// The snapshot as bytes, which read as the same snapshot again.
    ///
    /// An instant outside the calendar cannot be written, and a block holds no more than four
    /// bytes can count. A snapshot of another format reads as the format it has.
    pub fn encode(&self) -> (bytes: Result<Vec<u8>, CodecError>)
        ensures
            match rfc3339(self.taken_at.secs, self.taken_at.nanos) {
                None => bytes matches Err(CodecError::Encode(_)),
                Some(taken_at) => {
                    let raw = packed(payload_of(self@, taken_at));
                    if raw.len() <= u32::MAX {
                        bytes is Ok && bytes->Ok_0@ == compressed(raw)
                    } else {
                        bytes matches Err(CodecError::TooLarge)
                    }
                },
            },
            bytes is Ok ==> reading(bytes->Ok_0@) == if self.format == SNAPSHOT_FORMAT {
                Reading::Snapshot(self@)
            } else {
                Reading::Format(self.format)
            },
    {
        let taken_at: String = match instant_text(self.taken_at.secs, self.taken_at.nanos) {
            Some(text) => text,
            None => {
                return Err(CodecError::Encode(refused_value("not an instant")));
            },
        };
        let ghost text = taken_at@;
        let mut rows: Vec<Row> = Vec::new();
        let mut i: usize = 0;
        while i < self.entries.len()
            invariant
                i <= self.entries.len(),
                rows@.len() == i,
                forall|k: int|
                    0 <= k < i ==> row_views(rows@)[k] == row_of(#[trigger] self.entries@[k]@),
            decreases self.entries.len() - i,
        {
            let ghost before = rows@;
            let entry: &SnapshotEntry = &self.entries[i];
            rows.push(
                (
                    entry.path.clone(),
                    code_of(entry.kind),
                    entry.size,
                    entry.file_count,
                    entry.mtime,
                ),
            );
            assert forall|k: int| 0 <= k < i + 1 implies row_views(rows@)[k] == row_of(
                #[trigger] self.entries@[k]@,
            ) by {
                if k < i {
                    assert(row_views(before)[k] == row_of(self.entries@[k]@));
                    assert(rows@[k] == before[k]);
                }
            }
            i += 1;
        }
        assert(row_views(rows@) =~= rows_of(entry_views(self.entries@)));
        let payload: Payload = (
            self.format,
            taken_at,
            self.root.clone(),
            self.total_bytes,
            self.file_count,
            self.file_threshold,
            rows,
        );
        assert(payload_view(payload) == payload_of(self@, text));
        match pack(&payload) {
            Err(error) => Err(CodecError::Encode(error)),
            Ok(raw) => {
                if raw.len() as u64 > u32::MAX as u64 {
                    return Err(CodecError::TooLarge);
                }
                let bytes: Vec<u8> = compress(raw.as_slice());
                proof {
                    packing_loses_nothing(self@, text);
                }
                Ok(bytes)
            },
        }
    }

    /// The snapshot in bytes.
    pub fn decode(bytes: &[u8]) -> (read: Result<Snapshot, CodecError>)
        ensures
            reads_as(read, reading(bytes@)),
    {
        let raw: Vec<u8> = match decompress(bytes) {
            Ok(raw) => raw,
            Err(error) => {
                return Err(CodecError::Decompress(error));
            },
        };
        match unpack(raw.as_slice()) {
            Ok(payload) => read_payload(payload),
            Err(error) => Err(CodecError::Encode(error)),
        }
    }

    /// The recorded sizes by path. Where a path was recorded twice, the last one counts.
    pub fn size_index(&self) -> (index: SizeIndex)
        ensures
            index.paths() == entry_paths(self.entries@),
            index.sizes() == self.entries@.map_values(|entry: SnapshotEntry| entry.size),
    {
        let mut keys: Vec<Label> = Vec::new();
        let mut sizes: Vec<u64> = Vec::new();
        let mut i: usize = 0;
        while i < self.entries.len()
            invariant
                i <= self.entries.len(),
                keys@.len() == i,
                sizes@.len() == i,
                forall|k: int| 0 <= k < i ==> (#[trigger] keys@[k]).text@ == self.entries@[k].path@,
                forall|k: int| 0 <= k < i ==> #[trigger] sizes@[k] == self.entries@[k].size,
            decreases self.entries.len() - i,
        {
            keys.push(Label { text: self.entries[i].path.clone() });
            sizes.push(self.entries[i].size);
            i += 1;
        }
        assert(labels(keys@) =~= entry_paths(self.entries@));
        assert(sizes@ =~= self.entries@.map_values(|entry: SnapshotEntry| entry.size));
        SizeIndex { index: Index::new(keys), sizes }
    }
}

/// The payload of a snapshot whose instant reads back reads as that snapshot, or as its
/// format where that is not the present one.
pub proof fn packing_loses_nothing(snapshot: SnapshotSpec, taken_at: Seq<char>)
    requires
        rfc3339_instant(taken_at) == Some((snapshot.taken_at.secs, snapshot.taken_at.nanos)),
    ensures
        payload_reading(payload_of(snapshot, taken_at)) == if snapshot.format == SNAPSHOT_FORMAT {
            Reading::Snapshot(snapshot)
        } else {
            Reading::Format(snapshot.format)
        },
{
    let rows = rows_of(snapshot.entries);
    assert forall|i: int| 0 <= i < rows.len() implies kind_named((#[trigger] rows[i]).1) is Some by {
        assert(rows[i] == row_of(snapshot.entries[i]));
    }
    assert(entries_in(rows) =~= snapshot.entries);
}

} // verus!
