//! The directory of snapshots: what a file in it is called, which of them are snapshots, and
//! which of them go.
//!
//! A snapshot is a pair, `<stamp>.snap` (payload) and `<stamp>.json` (meta). Files are
//! written to `*.tmp` and renamed into place, the sidecar last, so a snapshot is listed only
//! once it is complete; damaged files are ignored and removed by [`SnapshotStore::prune`].
//! What the directory holds comes in as [`StoreFile`]s.

use super::codec::{format_instant, formatted};
use super::model::{CodecError, Snapshot, SNAPSHOT_FORMAT};
use crate::action::model::Timestamp;
use crate::order::{arrangement, arrangement_by_rank, arrangement_exists, in_order};
use crate::order::{picked_in_order, sort, sorted, Ranked, Sortable};
use crate::path::{join, joined, same_path, same_paths};
use crate::text::{chars_of, from_chars, opt_text, same, texts};
use vstd::prelude::*;

verus! {

/// Metadata written next to each snapshot so listing never decodes payloads.
#[derive(Debug, Clone)]
pub struct SnapshotMeta {
    pub path: String,
    /// [`Snapshot::format`] of the payload.
    pub format: u32,
    pub taken_at: Timestamp,
    pub root: String,
    pub total_bytes: u64,
    pub file_count: u64,
}

/// A [`SnapshotMeta`] in specifications.
pub struct MetaSpec {
    pub path: Seq<char>,
    pub format: u32,
    pub taken_at: Timestamp,
    pub root: Seq<char>,
    pub total_bytes: u64,
    pub file_count: u64,
}

impl View for SnapshotMeta {
    type V = MetaSpec;

    open spec fn view(&self) -> MetaSpec {
        MetaSpec {
            path: self.path@,
            format: self.format,
            taken_at: self.taken_at,
            root: self.root@,
            total_bytes: self.total_bytes,
            file_count: self.file_count,
        }
    }
}

/// Several metas in specifications.
pub open spec fn meta_views(metas: Seq<SnapshotMeta>) -> Seq<MetaSpec> {
    metas.map_values(|meta: SnapshotMeta| meta@)
}

/// Why a snapshot could not be kept or found.
#[derive(Debug)]
pub enum StoreError {
    /// The disk, in its words.
    Io(String),
    Codec(CodecError),
    /// A sidecar could not be written.
    Meta(String),
}

/// One file of the store directory.
#[derive(Debug, Clone)]
pub struct StoreFile {
    /// Its name in the directory.
    pub name: String,
    /// What the disk answers when it is asked for the payload next to it: whether there is
    /// something at its name with the extension `snap`.
    pub payload: bool,
    /// What it reads as, as a sidecar; `None` when it cannot be read or parsed.
    pub meta: Option<SnapshotMeta>,
}

/// A [`StoreFile`] in specifications.
pub struct FileSpec {
    pub name: Seq<char>,
    pub payload: bool,
    pub meta: Option<MetaSpec>,
}

impl View for StoreFile {
    type V = FileSpec;

    open spec fn view(&self) -> FileSpec {
        FileSpec {
            name: self.name@,
            payload: self.payload,
            meta: match self.meta {
                Some(meta) => Some(meta@),
                None => None,
            },
        }
    }
}

/// Several files in specifications.
pub open spec fn file_views(files: Seq<StoreFile>) -> Seq<FileSpec> {
    files.map_values(|file: StoreFile| file@)
}

/// How much of a name stands before its last dot; none without one.
pub open spec fn before_dot(name: Seq<char>) -> Option<Seq<char>>
    decreases name.len(),
{
    if name.len() == 0 {
        None
    } else if name.last() == '.' {
        Some(name.drop_last())
    } else {
        before_dot(name.drop_last())
    }
}

/// A name without its extension. A dot a name begins with is no extension, and neither is
/// there one in two dots.
pub open spec fn stem_of(name: Seq<char>) -> Seq<char> {
    match before_dot(name) {
        Some(stem) => if stem.len() == 0 || name == ".."@ {
            name
        } else {
            stem
        },
        None => name,
    }
}

/// The extension of a name, if it has one.
pub open spec fn extension_of(name: Seq<char>) -> Option<Seq<char>> {
    match before_dot(name) {
        Some(stem) => if stem.len() == 0 || name == ".."@ {
            None
        } else {
            Some(name.skip(stem.len() as int + 1))
        },
        None => None,
    }
}

/// The payload next to a sidecar with this stem.
pub open spec fn payload_name(stem: Seq<char>) -> Seq<char> {
    stem + ".snap"@
}

/// The sidecar with this stem.
pub open spec fn sidecar_name(stem: Seq<char>) -> Seq<char> {
    stem + ".json"@
}

proof fn dot_splits(name: Seq<char>)
    ensures
        match before_dot(name) {
            Some(stem) => stem.len() < name.len() && stem == name.take(stem.len() as int)
                && name[stem.len() as int] == '.',
            None => true,
        },
    decreases name.len(),
{
    if name.len() > 0 {
        if name.last() == '.' {
            assert(name.drop_last() =~= name.take(name.len() - 1));
        } else {
            dot_splits(name.drop_last());
            match before_dot(name.drop_last()) {
                Some(stem) => {
                    assert(name.drop_last().take(stem.len() as int) =~= name.take(
                        stem.len() as int,
                    ));
                },
                None => {},
            }
        }
    }
}

/// A name with its extension is its stem, a dot and the extension.
proof fn name_is_stem_and_extension(name: Seq<char>)
    requires
        extension_of(name) is Some,
    ensures
        name == stem_of(name) + seq!['.'] + extension_of(name)->0,
{
    dot_splits(name);
    let stem = before_dot(name)->0;
    assert(name =~= stem + seq!['.'] + name.skip(stem.len() as int + 1));
}

/// The stem and the extension of a name.
fn split_name(name: &str) -> (parts: (String, Option<String>))
    ensures
        parts.0@ == stem_of(name@),
        opt_text(parts.1) == extension_of(name@),
{
    let chars: Vec<char> = chars_of(name);
    let mut at: usize = chars.len();
    assert(chars@.take(at as int) =~= chars@);
    while at > 0 && chars[at - 1] != '.'
        invariant
            at <= chars.len(),
            before_dot(chars@) == before_dot(chars@.take(at as int)),
        decreases at,
    {
        assert(chars@.take(at as int).drop_last() =~= chars@.take(at - 1));
        assert(chars@.take(at as int).last() == chars@[at - 1]);
        at -= 1;
    }
    let double: bool = same(name, "..");
    if at <= 1 || double {
        if at >= 1 {
            assert(chars@.take(at as int).last() == chars@[at - 1]);
        }
        (name.to_owned(), None)
    } else {
        assert(chars@.take(at as int).last() == chars@[at - 1]);
        assert(chars@.take(at as int).drop_last() =~= chars@.take(at - 1));
        assert(chars@.subrange(0, at - 1) =~= chars@.take(at - 1));
        assert(chars@.subrange(at as int, chars@.len() as int) =~= chars@.skip(at as int));
        (from_chars(&chars, 0, at - 1), Some(from_chars(&chars, at, chars.len())))
    }
}

/// A name made of a stem and what ends it.
fn ended(stem: &str, end: &str) -> (name: String)
    ensures
        name@ == stem@ + end@,
{
    let mut name: String = stem.to_owned();
    name.append(end);
    name
}

/// Whether a file of this name is there.
pub open spec fn has_name(files: Seq<FileSpec>, name: Seq<char>) -> bool {
    exists|k: int| 0 <= k < files.len() && (#[trigger] files[k]).name == name
}

fn find_name(files: &Vec<StoreFile>, name: &str) -> (r: bool)
    ensures
        r == has_name(file_views(files@), name@),
{
    let ghost all = file_views(files@);
    let mut k: usize = 0;
    while k < files.len()
        invariant
            k <= files.len(),
            all == file_views(files@),
            forall|x: int| 0 <= x < k ==> (#[trigger] all[x]).name != name@,
        decreases files.len() - k,
    {
        assert(all[k as int] == files@[k as int]@);
        if same(&files[k].name, name) {
            return true;
        }
        k += 1;
    }
    false
}

/// A complete snapshot of the store: what its files are called, and its meta.
#[derive(Debug)]
pub struct Listed {
    pub stem: String,
    pub meta: SnapshotMeta,
}

/// A [`Listed`] in specifications.
pub struct ListedSpec {
    pub stem: Seq<char>,
    pub meta: MetaSpec,
}

impl View for Listed {
    type V = ListedSpec;

    open spec fn view(&self) -> ListedSpec {
        ListedSpec { stem: self.stem@, meta: self.meta@ }
    }
}

/// Several snapshots of the store in specifications.
pub open spec fn listed_views(list: Seq<Listed>) -> Seq<ListedSpec> {
    list.map_values(|listed: Listed| listed@)
}

/// Whether `a` is not earlier than `b`.
pub open spec fn not_earlier(a: Timestamp, b: Timestamp) -> bool {
    a.secs > b.secs || (a.secs == b.secs && a.nanos >= b.nanos)
}

impl Ranked for ListedSpec {
    /// Newest first.
    open spec fn le(self, other: Self) -> bool {
        not_earlier(self.meta.taken_at, other.meta.taken_at)
    }

    proof fn le_total(a: Self, b: Self) {
    }

    proof fn le_transitive(a: Self, b: Self, c: Self) {
    }
}

impl Ranked for Listed {
    open spec fn le(self, other: Self) -> bool {
        not_earlier(self.meta.taken_at, other.meta.taken_at)
    }

    proof fn le_total(a: Self, b: Self) {
    }

    proof fn le_transitive(a: Self, b: Self, c: Self) {
    }
}

impl Sortable for Listed {
    fn at_most(&self, other: &Self) -> bool {
        let a: Timestamp = self.meta.taken_at;
        let b: Timestamp = other.meta.taken_at;
        a.secs > b.secs || (a.secs == b.secs && a.nanos >= b.nanos)
    }
}

/// Whether a file is the sidecar of a complete snapshot: its payload is there, it can be
/// read, and it is of the present format.
pub open spec fn is_listed(files: Seq<FileSpec>, k: int) -> bool {
    &&& extension_of(files[k].name) == Some("json"@)
    &&& files[k].payload
    &&& files[k].meta is Some
    &&& files[k].meta->0.format == SNAPSHOT_FORMAT
}

/// The complete snapshots among the first `k` files.
pub open spec fn complete_of(files: Seq<FileSpec>, k: nat) -> Seq<ListedSpec>
    decreases k,
{
    if k == 0 {
        Seq::empty()
    } else {
        let before = complete_of(files, (k - 1) as nat);
        if is_listed(files, k - 1) {
            before.push(
                ListedSpec { stem: stem_of(files[k - 1].name), meta: files[k - 1].meta->0 },
            )
        } else {
            before
        }
    }
}

/// The snapshots of the store, newest first.
pub open spec fn newest_first(files: Seq<FileSpec>) -> Seq<ListedSpec> {
    sorted(complete_of(files, files.len()))
}

/// The meta of a snapshot of the store in `dir`: where its payload is comes from there.
pub open spec fn placed(dir: Seq<char>, listed: ListedSpec) -> MetaSpec {
    MetaSpec { path: joined(dir, payload_name(listed.stem)), ..listed.meta }
}

/// The metas of the snapshots of the store in `dir`.
pub open spec fn placed_all(dir: Seq<char>, list: Seq<ListedSpec>) -> Seq<MetaSpec> {
    list.map_values(|listed: ListedSpec| placed(dir, listed))
}

fn copy_meta(meta: &SnapshotMeta) -> (copy: SnapshotMeta)
    ensures
        copy@ == meta@,
{
    SnapshotMeta {
        path: meta.path.clone(),
        format: meta.format,
        taken_at: meta.taken_at,
        root: meta.root.clone(),
        total_bytes: meta.total_bytes,
        file_count: meta.file_count,
    }
}

/// The snapshots of the store, newest first.
fn find_listed(files: &Vec<StoreFile>) -> (list: Vec<Listed>)
    ensures
        listed_views(list@) == newest_first(file_views(files@)),
{
    let ghost all = file_views(files@);
    let mut found: Vec<Listed> = Vec::new();
    let mut k: usize = 0;
    assert(listed_views(found@) =~= Seq::empty());
    while k < files.len()
        invariant
            k <= files.len(),
            all == file_views(files@),
            listed_views(found@) == complete_of(all, k as nat),
        decreases files.len() - k,
    {
        let ghost before = found@;
        let file: &StoreFile = &files[k];
        assert(all[k as int] == file@);
        let (stem, extension): (String, Option<String>) = split_name(&file.name);
        let sidecar: bool = match &extension {
            Some(extension) => same(extension, "json"),
            None => false,
        };
        if sidecar && file.payload {
            if let Some(meta) = &file.meta {
                if meta.format == SNAPSHOT_FORMAT {
                    let listed = Listed { stem, meta: copy_meta(meta) };
                    found.push(listed);
                    assert(listed_views(found@) =~= listed_views(before).push(listed@));
                }
            }
        }
        k += 1;
    }
    let ghost list = found@;
    let sorted_list: Vec<Listed> = sort(found);
    proof {
        arrangement_by_rank(list, listed_views(list), arrangement(list));
        assert(listed_views(sorted_list@) =~= sorted(listed_views(list)));
    }
    sorted_list
}

/// What a pruning removes: names, in order, and how many snapshots and stray files that is.
#[derive(Debug)]
pub struct Pruned {
    pub remove: Vec<String>,
    pub removed: usize,
}

/// The files of several snapshots.
pub open spec fn pairs_of(list: Seq<ListedSpec>) -> Seq<Seq<char>>
    decreases list.len(),
{
    if list.len() == 0 {
        Seq::empty()
    } else {
        let last = list.last().stem;
        pairs_of(list.drop_last()).push(payload_name(last)).push(sidecar_name(last))
    }
}

/// The snapshots that are too many.
pub open spec fn outdated(files: Seq<FileSpec>, keep: int) -> Seq<ListedSpec> {
    let list = newest_first(files);
    if list.len() <= keep {
        Seq::empty()
    } else {
        list.skip(keep)
    }
}

/// The files that are not among `names`, of the first `k`.
pub open spec fn without(files: Seq<FileSpec>, names: Seq<Seq<char>>, k: nat) -> Seq<FileSpec>
    decreases k,
{
    if k == 0 {
        Seq::empty()
    } else {
        let before = without(files, names, (k - 1) as nat);
        if names.contains(files[k - 1].name) {
            before
        } else {
            before.push(files[k - 1])
        }
    }
}

/// What goes because of a file: nothing, the file, or the file with its payload.
pub open spec fn goes_with(files: Seq<FileSpec>, file: FileSpec) -> Seq<Seq<char>> {
    let stem = stem_of(file.name);
    match extension_of(file.name) {
        None => Seq::empty(),
        Some(extension) => if extension == "tmp"@ {
            seq![file.name]
        } else if extension == "snap"@ {
            if has_name(files, sidecar_name(stem)) {
                Seq::empty()
            } else {
                seq![file.name]
            }
        } else if extension == "json"@ {
            if file.meta is None {
                seq![payload_name(stem), file.name]
            } else if has_name(files, payload_name(stem)) {
                Seq::empty()
            } else {
                seq![file.name]
            }
        } else {
            Seq::empty()
        },
    }
}

/// What goes because of the first `k` files, and how many of them are strays.
pub open spec fn strays_of(files: Seq<FileSpec>, k: nat) -> (Seq<Seq<char>>, nat)
    decreases k,
{
    if k == 0 {
        (Seq::empty(), 0)
    } else {
        let (names, count) = strays_of(files, (k - 1) as nat);
        let more = goes_with(files, files[k - 1]);
        (names + more, if more.len() > 0 {
            count + 1
        } else {
            count
        })
    }
}

/// What is left once the snapshots that are too many are gone.
pub open spec fn left_of(files: Seq<FileSpec>, keep: int) -> Seq<FileSpec> {
    without(files, pairs_of(outdated(files, keep)), files.len())
}

/// What a pruning removes, and how many snapshots and stray files that is, `left` being what
/// is listed once the snapshots that are too many are gone.
pub open spec fn pruning(files: Seq<FileSpec>, keep: int, left: Seq<FileSpec>) -> (
    Seq<Seq<char>>,
    nat,
) {
    let too_many = outdated(files, keep);
    let (names, count) = strays_of(left, left.len());
    (pairs_of(too_many) + names, too_many.len() + count)
}

/// What a pruning removes where a file goes by its own name alone.
pub open spec fn pruned_of(files: Seq<FileSpec>, keep: int) -> (Seq<Seq<char>>, nat) {
    pruning(files, keep, left_of(files, keep))
}

/// What goes because of a file.
fn find_goes_with(files: &Vec<StoreFile>, file: &StoreFile) -> (names: Vec<String>)
    ensures
        texts(names@) == goes_with(file_views(files@), file@),
{
    let (stem, extension): (String, Option<String>) = split_name(&file.name);
    let mut names: Vec<String> = Vec::new();
    assert(texts(names@) =~= Seq::empty());
    let extension: String = match extension {
        Some(extension) => extension,
        None => {
            return names;
        },
    };
    if same(&extension, "tmp") {
        names.push(file.name.clone());
        assert(texts(names@) =~= seq![file.name@]);
    } else if same(&extension, "snap") {
        if !find_name(files, &ended(&stem, ".json")) {
            names.push(file.name.clone());
            assert(texts(names@) =~= seq![file.name@]);
        }
    } else if same(&extension, "json") {
        if file.meta.is_none() {
            // A damaged sidecar takes its payload with it.
            names.push(ended(&stem, ".snap"));
            names.push(file.name.clone());
            assert(texts(names@) =~= seq![payload_name(stem@), file.name@]);
        } else if !find_name(files, &ended(&stem, ".snap")) {
            names.push(file.name.clone());
            assert(texts(names@) =~= seq![file.name@]);
        }
    }
    names
}

proof fn complete_is_few(files: Seq<FileSpec>, k: nat)
    ensures
        complete_of(files, k).len() <= k,
    decreases k,
{
    if k > 0 {
        complete_is_few(files, (k - 1) as nat);
    }
}

/// A directory of snapshots.
#[derive(Debug, Clone)]
pub struct SnapshotStore {
    pub dir: String,
}

impl SnapshotStore {
    pub fn new(dir: String) -> (store: SnapshotStore)
        ensures
            store.dir == dir,
    {
        SnapshotStore { dir }
    }

    pub fn dir(&self) -> (dir: &str)
        ensures
            dir@ == self.dir@,
    {
        self.dir.as_str()
    }

    /// Where the payload of a snapshot taken at an instant goes: a name made of the instant.
    /// None for an instant outside the calendar.
    pub fn payload_path(&self, taken_at: Timestamp) -> (path: Option<String>)
        ensures
            opt_text(path) == match formatted(
                taken_at.secs,
                taken_at.nanos,
                "%Y%m%dT%H%M%S%.3fZ"@,
            ) {
                Some(stamp) => Some(joined(self.dir@, payload_name(stamp))),
                None => None,
            },
    {
        match format_instant(taken_at.secs, taken_at.nanos, "%Y%m%dT%H%M%S%.3fZ") {
            Some(stamp) => Some(self.path_for(&stamp)),
            None => None,
        }
    }

    /// Where the payload with this stamp goes.
    pub fn path_for(&self, stamp: &str) -> (path: String)
        ensures
            path@ == joined(self.dir@, payload_name(stamp@)),
    {
        join(&self.dir, &ended(stamp, ".snap"))
    }

    /// What is written next to the payload of a snapshot.
    pub fn meta_for(path: String, snapshot: &Snapshot) -> (meta: SnapshotMeta)
        ensures
            meta@ == (MetaSpec {
                path: path@,
                format: snapshot.format,
                taken_at: snapshot.taken_at,
                root: snapshot.root@,
                total_bytes: snapshot.total_bytes,
                file_count: snapshot.file_count,
            }),
    {
        SnapshotMeta {
            path,
            format: snapshot.format,
            taken_at: snapshot.taken_at,
            root: snapshot.root.clone(),
            total_bytes: snapshot.total_bytes,
            file_count: snapshot.file_count,
        }
    }

    /// Newest first. Snapshots whose sidecar is missing, damaged or of another format are
    /// left out.
    pub fn list(&self, files: &Vec<StoreFile>) -> (metas: Vec<SnapshotMeta>)
        ensures
            meta_views(metas@) == placed_all(self.dir@, newest_first(file_views(files@))),
    {
        let list: Vec<Listed> = find_listed(files);
        let ghost all = listed_views(list@);
        let mut metas: Vec<SnapshotMeta> = Vec::new();
        let mut i: usize = 0;
        while i < list.len()
            invariant
                i <= list.len(),
                all == listed_views(list@),
                metas@.len() == i,
                forall|k: int| 0 <= k < i ==> (#[trigger] metas@[k])@ == placed(self.dir@, all[k]),
            decreases list.len() - i,
        {
            assert(all[i as int] == list@[i as int]@);
            let mut meta: SnapshotMeta = copy_meta(&list[i].meta);
            meta.path = self.path_for(&list[i].stem);
            metas.push(meta);
            i += 1;
        }
        assert(meta_views(metas@) =~= placed_all(self.dir@, all));
        metas
    }

    /// The newest snapshot of any root; use [`SnapshotStore::latest_for`] to compare scans of
    /// the same folder.
    pub fn latest(&self, files: &Vec<StoreFile>) -> (meta: Option<SnapshotMeta>)
        ensures
            match (meta, first_meta(self.dir@, newest_first(file_views(files@)))) {
                (Some(meta), Some(expected)) => meta@ == expected,
                (None, None) => true,
                _ => false,
            },
    {
        let metas: Vec<SnapshotMeta> = self.list(files);
        let ghost all = placed_all(self.dir@, newest_first(file_views(files@)));
        assert(meta_views(metas@).len() == metas@.len());
        if metas.len() > 0 {
            assert(meta_views(metas@)[0] == metas@[0]@);
            Some(copy_meta(&metas[0]))
        } else {
            None
        }
    }

    /// The newest snapshot taken of `root` (compared as written).
    pub fn latest_for(&self, files: &Vec<StoreFile>, root: &str) -> (meta: Option<SnapshotMeta>)
        ensures
            match (meta, first_of_root(self.dir@, newest_first(file_views(files@)), root@)) {
                (Some(meta), Some(expected)) => meta@ == expected,
                (None, None) => true,
                _ => false,
            },
    {
        let metas: Vec<SnapshotMeta> = self.list(files);
        let ghost list = newest_first(file_views(files@));
        let ghost all = placed_all(self.dir@, list);
        let mut i: usize = 0;
        assert(list.skip(0) =~= list);
        assert(all.len() == list.len());
        assert(meta_views(metas@).len() == metas@.len());
        while i < metas.len()
            invariant
                i <= metas.len(),
                list == newest_first(file_views(files@)),
                all == placed_all(self.dir@, list),
                all == meta_views(metas@),
                list.len() == metas@.len(),
                first_of_root(self.dir@, list, root@) == first_of_root(
                    self.dir@,
                    list.skip(i as int),
                    root@,
                ),
            decreases metas.len() - i,
        {
            assert(all[i as int] == metas@[i as int]@);
            assert(list.skip(i as int)[0] == list[i as int]);
            assert(list.skip(i as int).drop_first() =~= list.skip(i + 1));
            if same_paths(&metas[i].root, root) {
                return Some(copy_meta(&metas[i]));
            }
            i += 1;
        }
        None
    }

    /// The files of the snapshots that are too many: of all but the `keep` newest, counted
    /// across all roots (frequent scans of one folder push out the snapshots of another).
    pub fn outdated_files(&self, files: &Vec<StoreFile>, keep: usize) -> (pruned: Pruned)
        ensures
            texts(pruned.remove@) == pairs_of(outdated(file_views(files@), keep as int)),
            pruned.removed == outdated(file_views(files@), keep as int).len(),
    {
        let ghost all = file_views(files@);
        let list: Vec<Listed> = find_listed(files);
        let ghost listed = listed_views(list@);
        let ghost too_many = outdated(all, keep as int);
        let mut remove: Vec<String> = Vec::new();
        let from: usize = if list.len() <= keep {
            list.len()
        } else {
            keep
        };
        let mut i: usize = from;
        assert(texts(remove@) =~= Seq::empty());
        assert(too_many =~= listed.skip(from as int));
        assert(too_many.take(0) =~= Seq::empty());
        while i < list.len()
            invariant
                from <= i <= list.len(),
                listed == listed_views(list@),
                too_many == listed.skip(from as int),
                texts(remove@) == pairs_of(too_many.take(i - from)),
            decreases list.len() - i,
        {
            let ghost before = remove@;
            let ghost upto = too_many.take(i - from + 1);
            assert(upto.drop_last() =~= too_many.take(i - from));
            assert(upto.last() == list@[i as int]@);
            remove.push(ended(&list[i].stem, ".snap"));
            remove.push(ended(&list[i].stem, ".json"));
            assert(texts(remove@) =~= texts(before).push(payload_name(list@[i as int].stem@)).push(
                sidecar_name(list@[i as int].stem@),
            ));
            i += 1;
        }
        assert(too_many.take(too_many.len() as int) =~= too_many);
        Pruned { remove, removed: list.len() - from }
    }

    /// The damage among the files that are left: payloads without a sidecar, sidecars without
    /// a payload, unparsable sidecars (with their payload) and leftover `*.tmp` files.
    /// Snapshots of another format are no damage.
    pub fn stray_files(&self, left: &Vec<StoreFile>) -> (pruned: Pruned)
        ensures
            texts(pruned.remove@) == strays_of(file_views(left@), left@.len()).0,
            pruned.removed == strays_of(file_views(left@), left@.len()).1,
            pruned.removed <= left@.len(),
    {
        let ghost rest = file_views(left@);
        let mut remove: Vec<String> = Vec::new();
        let mut removed: usize = 0;
        let mut n: usize = 0;
        assert(texts(remove@) =~= Seq::empty());
        while n < left.len()
            invariant
                n <= left.len(),
                rest == file_views(left@),
                texts(remove@) == strays_of(rest, n as nat).0,
                removed == strays_of(rest, n as nat).1,
                removed <= n,
            decreases left.len() - n,
        {
            let ghost before = remove@;
            assert(rest[n as int] == left@[n as int]@);
            let mut more: Vec<String> = find_goes_with(left, &left[n]);
            let ghost added = more@;
            assert(texts(added).len() == added.len());
            if more.len() > 0 {
                removed += 1;
            }
            remove.append(&mut more);
            assert(texts(remove@) =~= texts(before) + texts(added));
            n += 1;
        }
        Pruned { remove, removed }
    }

    /// Everything but the `keep` newest snapshots goes, and so does damage. `left` is what the
    /// directory lists once the files of the snapshots that are too many are gone. Says how
    /// many snapshots and stray files are removed.
    pub fn prune(&self, files: &Vec<StoreFile>, keep: usize, left: &Vec<StoreFile>) -> (pruned:
        Pruned)
        requires
            files@.len() + left@.len() <= usize::MAX,
        ensures
            (texts(pruned.remove@), pruned.removed as nat) == pruning(
                file_views(files@),
                keep as int,
                file_views(left@),
            ),
    {
        let first: Pruned = self.outdated_files(files, keep);
        let second: Pruned = self.stray_files(left);
        let ghost names = texts(first.remove@);
        let ghost more = texts(second.remove@);
        proof {
            let all = file_views(files@);
            complete_is_few(all, all.len());
            arrangement_exists(complete_of(all, all.len()));
        }
        let mut remove: Vec<String> = first.remove;
        let mut strays: Vec<String> = second.remove;
        remove.append(&mut strays);
        assert(texts(remove@) =~= names + more);
        Pruned { remove, removed: first.removed + second.removed }
    }
}

/// The newest snapshot of a list that is in order.
pub open spec fn first_meta(dir: Seq<char>, list: Seq<ListedSpec>) -> Option<MetaSpec> {
    if list.len() == 0 {
        None
    } else {
        Some(placed(dir, list[0]))
    }
}

/// The first snapshot of a list that was taken of `root`.
pub open spec fn first_of_root(dir: Seq<char>, list: Seq<ListedSpec>, root: Seq<char>) -> Option<
    MetaSpec,
>
    decreases list.len(),
{
    if list.len() == 0 {
        None
    } else if same_path(list[0].meta.root, root) {
        Some(placed(dir, list[0]))
    } else {
        first_of_root(dir, list.drop_first(), root)
    }
}

/// Whether no two files have one name.
pub open spec fn distinct(files: Seq<FileSpec>) -> bool {
    forall|i: int, j: int|
        0 <= i < files.len() && 0 <= j < files.len() && (#[trigger] files[i]).name == (
        #[trigger] files[j]).name ==> i == j
}

/// Whether the disk tells files by their names alone: it has the payload next to a sidecar
/// exactly where a file of that name is listed. A volume that folds case does not.
pub open spec fn told_by_name(files: Seq<FileSpec>) -> bool {
    forall|k: int|
        0 <= k < files.len() ==> (#[trigger] files[k]).payload == has_name(
            files,
            payload_name(stem_of(files[k].name)),
        )
}

proof fn payload_parts(stem: Seq<char>)
    requires
        stem.len() > 0,
    ensures
        stem_of(payload_name(stem)) == stem,
        extension_of(payload_name(stem)) == Some("snap"@),
{
    reveal_strlit(".snap");
    reveal_strlit("snap");
    reveal_strlit("..");
    let name = payload_name(stem);
    let a = name.drop_last();
    let b = a.drop_last();
    let c = b.drop_last();
    let d = c.drop_last();
    assert(name.last() == 'p' && a.last() == 'a' && b.last() == 'n' && c.last() == 's');
    assert(d.last() == '.');
    assert(d.drop_last() =~= stem);
    assert(before_dot(d) == Some(stem));
    assert(before_dot(c) == Some(stem));
    assert(before_dot(b) == Some(stem));
    assert(before_dot(a) == Some(stem));
    assert(before_dot(name) == Some(stem));
    assert(name.len() > 2);
    assert(name.skip(stem.len() as int + 1) =~= "snap"@);
}

proof fn sidecar_parts(name: Seq<char>)
    requires
        extension_of(name) == Some("json"@),
    ensures
        name == sidecar_name(stem_of(name)),
        stem_of(name).len() > 0,
{
    name_is_stem_and_extension(name);
    dot_splits(name);
    reveal_strlit(".json");
    reveal_strlit("json");
    assert(seq!['.'] + "json"@ =~= ".json"@);
    assert(name =~= sidecar_name(stem_of(name)));
}

/// The name of a payload is made of its stem.
proof fn payload_of_stem(name: Seq<char>)
    requires
        extension_of(name) == Some("snap"@),
    ensures
        name == payload_name(stem_of(name)),
        stem_of(name).len() > 0,
{
    name_is_stem_and_extension(name);
    dot_splits(name);
    reveal_strlit(".snap");
    reveal_strlit("snap");
    assert(seq!['.'] + "snap"@ =~= ".snap"@);
    assert(name =~= payload_name(stem_of(name)));
}

proof fn sidecar_of_stem(stem: Seq<char>)
    requires
        stem.len() > 0,
    ensures
        stem_of(sidecar_name(stem)) == stem,
        extension_of(sidecar_name(stem)) == Some("json"@),
{
    reveal_strlit(".json");
    reveal_strlit("json");
    reveal_strlit("..");
    let name = sidecar_name(stem);
    let a = name.drop_last();
    let b = a.drop_last();
    let c = b.drop_last();
    let d = c.drop_last();
    assert(name.last() == 'n' && a.last() == 'o' && b.last() == 's' && c.last() == 'j');
    assert(d.last() == '.');
    assert(d.drop_last() =~= stem);
    assert(before_dot(d) == Some(stem));
    assert(before_dot(c) == Some(stem));
    assert(before_dot(b) == Some(stem));
    assert(before_dot(a) == Some(stem));
    assert(before_dot(name) == Some(stem));
    assert(name.len() > 2);
    assert(name.skip(stem.len() as int + 1) =~= "json"@);
}

proof fn names_differ(a: Seq<char>, b: Seq<char>)
    ensures
        payload_name(a) != sidecar_name(b),
        payload_name(a) == payload_name(b) ==> a == b,
        sidecar_name(a) == sidecar_name(b) ==> a == b,
{
    reveal_strlit(".snap");
    reveal_strlit(".json");
    let p = payload_name(a);
    let q = sidecar_name(b);
    assert(p.last() == 'p');
    assert(q.last() == 'n');
    assert(p.take(a.len() as int) =~= a);
    assert(payload_name(b).take(b.len() as int) =~= b);
    assert(sidecar_name(a).take(a.len() as int) =~= a);
    assert(q.take(b.len() as int) =~= b);
}

proof fn in_pairs(list: Seq<ListedSpec>, name: Seq<char>)
    requires
        pairs_of(list).contains(name),
    ensures
        exists|m: int|
            0 <= m < list.len() && (name == payload_name((#[trigger] list[m]).stem) || name
                == sidecar_name(list[m].stem)),
    decreases list.len(),
{
    if list.len() > 0 {
        let less = pairs_of(list.drop_last());
        let last = list.last().stem;
        let all = pairs_of(list);
        let at = choose|at: int| 0 <= at < all.len() && all[at] == name;
        if at < less.len() {
            assert(less[at] == name);
            in_pairs(list.drop_last(), name);
            let m = choose|m: int|
                0 <= m < list.drop_last().len() && (name == payload_name(
                    (#[trigger] list.drop_last()[m]).stem,
                ) || name == sidecar_name(list.drop_last()[m].stem));
            assert(list[m] == list.drop_last()[m]);
        } else {
            assert(list[list.len() - 1].stem == last);
        }
    }
}

proof fn stays_left(files: Seq<FileSpec>, names: Seq<Seq<char>>, k: nat, i: int)
    requires
        0 <= i < k <= files.len(),
        !names.contains(files[i].name),
    ensures
        without(files, names, k).contains(files[i]),
    decreases k,
{
    let before = without(files, names, (k - 1) as nat);
    if i == k - 1 {
        assert(without(files, names, k).last() == files[i]);
    } else {
        stays_left(files, names, (k - 1) as nat, i);
        let at = choose|at: int| 0 <= at < before.len() && before[at] == files[i];
        assert(without(files, names, k)[at] == files[i]);
    }
}

proof fn left_from(files: Seq<FileSpec>, names: Seq<Seq<char>>, k: nat, m: int) -> (i: int)
    requires
        k <= files.len(),
        0 <= m < without(files, names, k).len(),
    ensures
        0 <= i < k,
        files[i] == without(files, names, k)[m],
    decreases k,
{
    let before = without(files, names, (k - 1) as nat);
    if m < before.len() {
        left_from(files, names, (k - 1) as nat, m)
    } else {
        k - 1
    }
}

proof fn stray_from(files: Seq<FileSpec>, k: nat, name: Seq<char>) -> (m: int)
    requires
        k <= files.len(),
        strays_of(files, k).0.contains(name),
    ensures
        0 <= m < k,
        goes_with(files, files[m]).contains(name),
    decreases k,
{
    let names = strays_of(files, (k - 1) as nat).0;
    let more = goes_with(files, files[k - 1]);
    let all = strays_of(files, k).0;
    let at = choose|at: int| 0 <= at < all.len() && all[at] == name;
    if at < names.len() {
        assert(names[at] == name);
        stray_from(files, (k - 1) as nat, name)
    } else {
        assert(more[at - names.len()] == name);
        k - 1
    }
}

/// Neither the sidecar nor the payload of a snapshot is pruned that can be read, is complete
/// and is not one of those that are too many.
pub proof fn what_is_complete_and_not_outdated_stays(files: Seq<FileSpec>, keep: int, k: int)
    requires
        distinct(files),
        0 <= k < files.len(),
        extension_of(files[k].name) == Some("json"@),
        files[k].meta is Some,
        has_name(files, payload_name(stem_of(files[k].name))),
        forall|m: int|
            0 <= m < outdated(files, keep).len() ==> (#[trigger] outdated(files, keep)[m]).stem
                != stem_of(files[k].name),
    ensures
        !pruned_of(files, keep).0.contains(files[k].name),
        !pruned_of(files, keep).0.contains(payload_name(stem_of(files[k].name))),
{
    let too_many = outdated(files, keep);
    let pairs = pairs_of(too_many);
    let left = left_of(files, keep);
    let strays = strays_of(left, left.len()).0;
    let sidecar = files[k].name;
    let stem = stem_of(sidecar);
    let payload = payload_name(stem);
    sidecar_parts(sidecar);
    payload_parts(stem);
    assert forall|name: Seq<char>| name == sidecar || name == payload implies !pairs.contains(name) by {
        if pairs.contains(name) {
            in_pairs(too_many, name);
            let m = choose|m: int|
                0 <= m < too_many.len() && (name == payload_name((#[trigger] too_many[m]).stem)
                    || name == sidecar_name(too_many[m].stem));
            names_differ(stem, too_many[m].stem);
            names_differ(too_many[m].stem, stem);
        }
    }
    let p = choose|p: int| 0 <= p < files.len() && (#[trigger] files[p]).name == payload;
    stays_left(files, pairs, files.len(), k);
    stays_left(files, pairs, files.len(), p);
    let ka = choose|a: int| 0 <= a < left.len() && left[a] == files[k];
    let pa = choose|a: int| 0 <= a < left.len() && left[a] == files[p];
    assert(left[ka].name == sidecar);
    assert(left[pa].name == payload);
    assert(has_name(left, sidecar));
    assert(has_name(left, payload));
    assert forall|name: Seq<char>| name == sidecar || name == payload implies !strays.contains(name) by {
        if strays.contains(name) {
            let m = stray_from(left, left.len(), name);
            let i = left_from(files, pairs, files.len(), m);
            let file = left[m];
            names_differ(stem, stem);
            names_differ(stem_of(file.name), stem);
            reveal_strlit("json");
            reveal_strlit("snap");
            reveal_strlit("tmp");
            assert("json"@[0] != "snap"@[0]);
            assert("json"@.len() != "tmp"@.len());
            assert("snap"@.len() != "tmp"@.len());
            let more = goes_with(left, file);
            let at = choose|at: int| 0 <= at < more.len() && more[at] == name;
            if file.name == sidecar {
                assert(files[i].name == files[k].name);
                assert(i == k);
                assert(more.len() == 0);
            } else if file.name == payload {
                assert(more.len() == 0);
            } else {
                assert(extension_of(file.name) == Some("json"@));
                sidecar_parts(file.name);
                assert(more[at] == payload_name(stem_of(file.name)));
                assert(stem_of(file.name) == stem);
            }
        }
    }
    let all = pruned_of(files, keep).0;
    assert forall|name: Seq<char>| name == sidecar || name == payload implies !all.contains(name) by {
        if all.contains(name) {
            let at = choose|at: int| 0 <= at < all.len() && all[at] == name;
            assert(all =~= pairs + strays);
            if at < pairs.len() {
                assert(pairs[at] == name);
                assert(pairs.contains(name));
            } else {
                assert(strays[at - pairs.len()] == name);
                assert(strays.contains(name));
            }
        }
    }
}

/// Which file stands behind snapshot `m` of those that are complete.
pub open spec fn stands_for(files: Seq<FileSpec>, k: nat, m: int, i: int) -> bool {
    &&& 0 <= i < k
    &&& is_listed(files, i)
    &&& complete_of(files, k)[m] == (ListedSpec {
        stem: stem_of(files[i].name),
        meta: files[i].meta->0,
    })
}

proof fn complete_from(files: Seq<FileSpec>, k: nat, m: int) -> (i: int)
    requires
        k <= files.len(),
        0 <= m < complete_of(files, k).len(),
    ensures
        stands_for(files, k, m, i),
        m <= i,
    decreases k,
{
    let before = complete_of(files, (k - 1) as nat);
    if m < before.len() {
        complete_from(files, (k - 1) as nat, m)
    } else {
        complete_is_few(files, (k - 1) as nat);
        k - 1
    }
}

proof fn complete_rises(files: Seq<FileSpec>, k: nat, m: int, n: int) -> (found: (int, int))
    requires
        k <= files.len(),
        0 <= m < n < complete_of(files, k).len(),
    ensures
        stands_for(files, k, m, found.0),
        stands_for(files, k, n, found.1),
        found.0 < found.1,
    decreases k,
{
    let before = complete_of(files, (k - 1) as nat);
    if n < before.len() {
        complete_rises(files, (k - 1) as nat, m, n)
    } else {
        let i = complete_from(files, (k - 1) as nat, m);
        (i, k - 1)
    }
}

proof fn stems_differ(files: Seq<FileSpec>, m: int, n: int)
    requires
        distinct(files),
        0 <= m < complete_of(files, files.len()).len(),
        0 <= n < complete_of(files, files.len()).len(),
        m != n,
    ensures
        complete_of(files, files.len())[m].stem != complete_of(files, files.len())[n].stem,
{
    let low = if m < n {
        m
    } else {
        n
    };
    let high = if m < n {
        n
    } else {
        m
    };
    let (i, j) = complete_rises(files, files.len(), low, high);
    sidecar_parts(files[i].name);
    sidecar_parts(files[j].name);
    if stem_of(files[i].name) == stem_of(files[j].name) {
        assert(files[i].name == files[j].name);
        assert(i == j);
    }
}

/// The `keep` newest snapshots stay, sidecar and payload, on a disk that tells files by their
/// names alone.
pub proof fn pruning_keeps_the_newest(files: Seq<FileSpec>, keep: int, m: int)
    requires
        distinct(files),
        told_by_name(files),
        files.len() <= usize::MAX,
        0 <= m < newest_first(files).len(),
        m < keep,
    ensures
        !pruned_of(files, keep).0.contains(sidecar_name(newest_first(files)[m].stem)),
        !pruned_of(files, keep).0.contains(payload_name(newest_first(files)[m].stem)),
{
    let complete = complete_of(files, files.len());
    let order = arrangement(complete);
    complete_is_few(files, files.len());
    arrangement_exists(complete);
    let at = order[m] as int;
    let k = complete_from(files, files.len(), at);
    sidecar_parts(files[k].name);
    let too_many = outdated(files, keep);
    assert forall|n: int| 0 <= n < too_many.len() implies (#[trigger] too_many[n]).stem != stem_of(
        files[k].name,
    ) by {
        assert(too_many[n] == complete[order[keep + n] as int]);
        assert(crate::order::comes_first(complete, order[m] as int, order[keep + n] as int));
        stems_differ(files, at, order[keep + n] as int);
    }
    what_is_complete_and_not_outdated_stays(files, keep, k);
}

/// A complete snapshot of another format is left alone.
pub proof fn pruning_leaves_other_formats_alone(files: Seq<FileSpec>, keep: int, k: int)
    requires
        distinct(files),
        files.len() <= usize::MAX,
        0 <= keep,
        0 <= k < files.len(),
        extension_of(files[k].name) == Some("json"@),
        files[k].meta is Some,
        files[k].meta->0.format != SNAPSHOT_FORMAT,
        has_name(files, payload_name(stem_of(files[k].name))),
    ensures
        !pruned_of(files, keep).0.contains(files[k].name),
        !pruned_of(files, keep).0.contains(payload_name(stem_of(files[k].name))),
{
    let complete = complete_of(files, files.len());
    let order = arrangement(complete);
    complete_is_few(files, files.len());
    arrangement_exists(complete);
    let too_many = outdated(files, keep);
    assert forall|n: int| 0 <= n < too_many.len() implies (#[trigger] too_many[n]).stem != stem_of(
        files[k].name,
    ) by {
        let at = order[keep + n] as int;
        assert(too_many[n] == complete[at]);
        let i = complete_from(files, files.len(), at);
        sidecar_parts(files[i].name);
        sidecar_parts(files[k].name);
        if too_many[n].stem == stem_of(files[k].name) {
            assert(files[i].name == files[k].name);
            assert(i == k);
        }
    }
    what_is_complete_and_not_outdated_stays(files, keep, k);
}

/// What is left once everything a pruning removes is gone, before the disk is asked again.
pub open spec fn kept_of(files: Seq<FileSpec>, keep: int) -> Seq<FileSpec> {
    let left = left_of(files, keep);
    without(left, strays_of(left, left.len()).0, left.len())
}

/// The files as a disk that tells files by their names alone shows them now.
pub open spec fn shown(files: Seq<FileSpec>) -> Seq<FileSpec> {
    Seq::new(
        files.len(),
        |k: int|
            FileSpec { payload: has_name(files, payload_name(stem_of(files[k].name))), ..files[k] },
    )
}

proof fn shown_names(files: Seq<FileSpec>, name: Seq<char>)
    ensures
        has_name(shown(files), name) == has_name(files, name),
{
    if has_name(files, name) {
        let k = choose|k: int| 0 <= k < files.len() && (#[trigger] files[k]).name == name;
        assert(shown(files)[k].name == name);
    }
    if has_name(shown(files), name) {
        let k = choose|k: int|
            0 <= k < shown(files).len() && (#[trigger] shown(files)[k]).name == name;
        assert(files[k].name == name);
    }
}

proof fn left_distinct(files: Seq<FileSpec>, names: Seq<Seq<char>>, k: nat)
    requires
        distinct(files),
        k <= files.len(),
    ensures
        distinct(without(files, names, k)),
        without(files, names, k).len() <= k,
        forall|m: int|
            0 <= m < without(files, names, k).len() ==> !names.contains(
                (#[trigger] without(files, names, k)[m]).name,
            ),
    decreases k,
{
    if k > 0 {
        left_distinct(files, names, (k - 1) as nat);
        let before = without(files, names, (k - 1) as nat);
        let now = without(files, names, k);
        assert forall|i: int, j: int|
            0 <= i < now.len() && 0 <= j < now.len() && (#[trigger] now[i]).name == (
            #[trigger] now[j]).name implies i == j by {
            if i < before.len() && j < before.len() {
                assert(before[i].name == before[j].name);
            } else if i != j {
                let m = if i < before.len() {
                    i
                } else {
                    j
                };
                let from = left_from(files, names, (k - 1) as nat, m);
                assert(files[from].name == files[k - 1].name);
            }
        }
    }
}

/// A file that goes takes part in what goes because of it.
proof fn a_stray_goes_itself(files: Seq<FileSpec>, k: nat, m: int)
    requires
        0 <= m < k <= files.len(),
        goes_with(files, files[m]).len() > 0,
    ensures
        strays_of(files, k).0.contains(files[m].name),
    decreases k,
{
    let names = strays_of(files, (k - 1) as nat).0;
    let more = goes_with(files, files[k - 1]);
    let all = strays_of(files, k).0;
    if m == k - 1 {
        assert(more.last() == files[m].name);
        assert(all[names.len() + more.len() - 1] == files[m].name);
    } else {
        a_stray_goes_itself(files, (k - 1) as nat, m);
        let at = choose|at: int| 0 <= at < names.len() && names[at] == files[m].name;
        assert(all[at] == files[m].name);
    }
}

proof fn no_strays(files: Seq<FileSpec>, k: nat)
    requires
        k <= files.len(),
        forall|m: int| 0 <= m < k ==> goes_with(files, #[trigger] files[m]).len() == 0,
    ensures
        strays_of(files, k) == (Seq::<Seq<char>>::empty(), 0nat),
    decreases k,
{
    if k > 0 {
        no_strays(files, (k - 1) as nat);
        assert(goes_with(files, files[k - 1]).len() == 0);
        assert(strays_of(files, k).0 =~= Seq::empty());
    }
}

/// What a file that stays needs next to it stays as well.
proof fn companions_stay(files: Seq<FileSpec>, keep: int, m: int)
    requires
        distinct(files),
        0 <= m < kept_of(files, keep).len(),
    ensures
        goes_with(kept_of(files, keep), kept_of(files, keep)[m]).len() == 0,
{
    let pairs = pairs_of(outdated(files, keep));
    let left = left_of(files, keep);
    let strays = strays_of(left, left.len()).0;
    let kept = kept_of(files, keep);
    left_distinct(files, pairs, files.len());
    left_distinct(left, strays, left.len());
    let at = left_from(left, strays, left.len(), m);
    let file = left[at];
    let stem = stem_of(file.name);
    if goes_with(left, file).len() > 0 {
        a_stray_goes_itself(left, left.len(), at);
        assert(strays.contains(kept[m].name));
    }
    reveal_strlit("json");
    reveal_strlit("snap");
    reveal_strlit("tmp");
    assert("json"@[0] != "snap"@[0]);
    assert("json"@.len() != "tmp"@.len());
    assert("snap"@.len() != "tmp"@.len());
    if extension_of(file.name) == Some("snap"@) {
        let sidecar = sidecar_name(stem);
        let k = choose|k: int| 0 <= k < left.len() && (#[trigger] left[k]).name == sidecar;
        payload_of_stem(file.name);
        sidecar_of_stem(stem);
        if strays.contains(sidecar) {
            let by = stray_from(left, left.len(), sidecar);
            names_differ(stem_of(left[by].name), stem);
            let more = goes_with(left, left[by]);
            let i = choose|i: int| 0 <= i < more.len() && more[i] == sidecar;
            assert(left[by].name == sidecar);
            assert(by == k);
            assert(has_name(left, payload_name(stem))) by {
                assert(left[at].name == payload_name(stem));
            }
            assert(left[k].meta is None);
            // The damaged sidecar takes the payload with it.
            assert(more[0] == file.name);
            stray_member(left, left.len(), by, file.name);
            assert(strays.contains(kept[m].name));
        }
        stays_left(left, strays, left.len(), k);
        let there = choose|x: int| 0 <= x < kept.len() && kept[x] == left[k];
        assert(kept[there].name == sidecar);
    } else if extension_of(file.name) == Some("json"@) {
        let payload = payload_name(stem);
        let k = choose|k: int| 0 <= k < left.len() && (#[trigger] left[k]).name == payload;
        sidecar_parts(file.name);
        payload_parts(stem);
        if strays.contains(payload) {
            let by = stray_from(left, left.len(), payload);
            names_differ(stem, stem_of(left[by].name));
            names_differ(stem_of(left[by].name), stem);
            let more = goes_with(left, left[by]);
            let i = choose|i: int| 0 <= i < more.len() && more[i] == payload;
            if left[by].name == payload {
                assert(has_name(left, sidecar_name(stem))) by {
                    assert(left[at].name == sidecar_name(stem));
                }
            } else {
                sidecar_parts(left[by].name);
                assert(stem_of(left[by].name) == stem);
                assert(left[by].name == left[at].name);
            }
        }
        stays_left(left, strays, left.len(), k);
        let there = choose|x: int| 0 <= x < kept.len() && kept[x] == left[k];
        assert(kept[there].name == payload);
    }
}

proof fn stray_member(files: Seq<FileSpec>, k: nat, m: int, name: Seq<char>)
    requires
        0 <= m < k <= files.len(),
        goes_with(files, files[m]).contains(name),
    ensures
        strays_of(files, k).0.contains(name),
    decreases k,
{
    let names = strays_of(files, (k - 1) as nat).0;
    let more = goes_with(files, files[k - 1]);
    let all = strays_of(files, k).0;
    if m == k - 1 {
        let i = choose|i: int| 0 <= i < more.len() && more[i] == name;
        assert(all[names.len() + i] == name);
    } else {
        stray_member(files, (k - 1) as nat, m, name);
        let at = choose|at: int| 0 <= at < names.len() && names[at] == name;
        assert(all[at] == name);
    }
}

/// The listing is newest first.
pub proof fn the_list_is_newest_first(files: Seq<FileSpec>)
    requires
        files.len() <= usize::MAX,
    ensures
        in_order(newest_first(files)),
{
    let complete = complete_of(files, files.len());
    complete_is_few(files, files.len());
    arrangement_exists(complete);
    picked_in_order(complete, arrangement(complete));
}

/// Whether `listed` is the complete snapshot whose sidecar is file `k`.
spec fn lists(files: Seq<FileSpec>, k: int, listed: ListedSpec) -> bool {
    &&& 0 <= k < files.len()
    &&& is_listed(files, k)
    &&& listed == (ListedSpec { stem: stem_of(files[k].name), meta: files[k].meta->0 })
}

proof fn complete_has(files: Seq<FileSpec>, n: nat, k: int, listed: ListedSpec)
    requires
        n <= files.len(),
        k < n,
        lists(files, k, listed),
    ensures
        complete_of(files, n).contains(listed),
    decreases n,
{
    let before = complete_of(files, (n - 1) as nat);
    if k == n - 1 {
        assert(complete_of(files, n).last() == listed);
    } else {
        complete_has(files, (n - 1) as nat, k, listed);
        let at = choose|at: int| 0 <= at < before.len() && before[at] == listed;
        assert(complete_of(files, n)[at] == listed);
    }
}

proof fn listing_has(files: Seq<FileSpec>, k: int, listed: ListedSpec)
    requires
        files.len() <= usize::MAX,
        lists(files, k, listed),
    ensures
        newest_first(files).contains(listed),
{
    let complete = complete_of(files, files.len());
    complete_has(files, files.len(), k, listed);
    complete_is_few(files, files.len());
    arrangement_exists(complete);
    let order = arrangement(complete);
    let at = choose|at: int| 0 <= at < complete.len() && complete[at] == listed;
    crate::order::arranges_reaches(complete, order, 0, complete.len() as int, at);
    let m = choose|m: int| 0 <= m < order.len() && order[m] == at;
    assert(newest_first(files)[m] == listed);
}

proof fn listing_from(files: Seq<FileSpec>, m: int) -> (k: int)
    requires
        files.len() <= usize::MAX,
        0 <= m < newest_first(files).len(),
    ensures
        lists(files, k, newest_first(files)[m]),
{
    let complete = complete_of(files, files.len());
    complete_is_few(files, files.len());
    arrangement_exists(complete);
    complete_from(files, files.len(), arrangement(complete)[m] as int)
}

/// Whether every snapshot of a list is later than all that follow it.
spec fn descending(list: Seq<ListedSpec>) -> bool {
    forall|i: int, j: int|
        0 <= i < j < list.len() ==> !not_earlier(
            (#[trigger] list[j]).meta.taken_at,
            (#[trigger] list[i]).meta.taken_at,
        )
}

proof fn descending_is_one(a: Seq<ListedSpec>, b: Seq<ListedSpec>)
    requires
        descending(a),
        descending(b),
        forall|x: ListedSpec| a.contains(x) == b.contains(x),
    ensures
        a == b,
    decreases a.len(),
{
    if a.len() == 0 {
        if b.len() > 0 {
            assert(b.contains(b[0]));
        }
    } else {
        assert(a.contains(a[0]));
        let j = choose|j: int| 0 <= j < b.len() && b[j] == a[0];
        assert(b.contains(b[0]));
        let i = choose|i: int| 0 <= i < a.len() && a[i] == b[0];
        assert(a[0] == b[0]);
        let c = a.drop_first();
        let d = b.drop_first();
        assert forall|x: ListedSpec| c.contains(x) == d.contains(x) by {
            if c.contains(x) {
                let at = choose|at: int| 0 <= at < c.len() && c[at] == x;
                assert(a[at + 1] == x);
                assert(a.contains(x));
                let to = choose|to: int| 0 <= to < b.len() && b[to] == x;
                assert(to != 0);
                assert(d[to - 1] == x);
            }
            if d.contains(x) {
                let at = choose|at: int| 0 <= at < d.len() && d[at] == x;
                assert(b[at + 1] == x);
                assert(b.contains(x));
                let to = choose|to: int| 0 <= to < a.len() && a[to] == x;
                assert(to != 0);
                assert(c[to - 1] == x);
            }
        }
        assert(descending(c)) by {
            assert forall|i: int, j: int| 0 <= i < j < c.len() implies !not_earlier(
                (#[trigger] c[j]).meta.taken_at,
                (#[trigger] c[i]).meta.taken_at,
            ) by {
                assert(c[i] == a[i + 1] && c[j] == a[j + 1]);
            }
        }
        assert(descending(d)) by {
            assert forall|i: int, j: int| 0 <= i < j < d.len() implies !not_earlier(
                (#[trigger] d[j]).meta.taken_at,
                (#[trigger] d[i]).meta.taken_at,
            ) by {
                assert(d[i] == b[i + 1] && d[j] == b[j + 1]);
            }
        }
        descending_is_one(c, d);
        assert(a =~= seq![a[0]] + c);
        assert(b =~= seq![b[0]] + d);
    }
}

/// Whether no two snapshots of a list were taken at one instant.
pub open spec fn instants_differ(list: Seq<ListedSpec>) -> bool {
    forall|i: int, j: int|
        0 <= i < j < list.len() ==> (#[trigger] list[i]).meta.taken_at != (
        #[trigger] list[j]).meta.taken_at
}

/// Pruning settles a store: what is listed afterwards are the `keep` newest snapshots that
/// were listed before, and pruning again removes nothing. On a disk that tells files by their
/// names alone, of snapshots taken at different instants.
pub proof fn pruning_settles_the_store(files: Seq<FileSpec>, keep: int)
    requires
        distinct(files),
        told_by_name(files),
        files.len() <= usize::MAX,
        0 <= keep,
        instants_differ(newest_first(files)),
    ensures
        newest_first(shown(kept_of(files, keep))) == newest_first(files).take(
            if keep < newest_first(files).len() {
                keep
            } else {
                newest_first(files).len() as int
            },
        ),
        pruned_of(shown(kept_of(files, keep)), keep) == (Seq::<Seq<char>>::empty(), 0nat),
{
    let pairs = pairs_of(outdated(files, keep));
    let left = left_of(files, keep);
    let strays = strays_of(left, left.len()).0;
    let kept = kept_of(files, keep);
    let now = shown(kept);
    let list = newest_first(files);
    let count = if keep < list.len() {
        keep
    } else {
        list.len() as int
    };
    let most = list.take(count);
    let again = newest_first(now);
    left_distinct(files, pairs, files.len());
    left_distinct(left, strays, left.len());
    assert(distinct(now)) by {
        assert forall|i: int, j: int|
            0 <= i < now.len() && 0 <= j < now.len() && (#[trigger] now[i]).name == (
            #[trigger] now[j]).name implies i == j by {
            assert(kept[i].name == kept[j].name);
        }
    }
    assert forall|x: ListedSpec| again.contains(x) == most.contains(x) by {
        if again.contains(x) {
            let m = choose|m: int| 0 <= m < again.len() && again[m] == x;
            let k = listing_from(now, m);
            listed_before(files, keep, k, x);
        }
        if most.contains(x) {
            let m = choose|m: int| 0 <= m < most.len() && most[m] == x;
            assert(list[m] == x);
            listed_after(files, keep, m);
        }
    }
    the_list_is_newest_first(files);
    the_list_is_newest_first(now);
    assert(descending(most)) by {
        assert forall|i: int, j: int| 0 <= i < j < most.len() implies !not_earlier(
            (#[trigger] most[j]).meta.taken_at,
            (#[trigger] most[i]).meta.taken_at,
        ) by {
            assert(list[i].le(list[j]));
        }
    }
    assert(descending(again)) by {
        assert forall|i: int, j: int| 0 <= i < j < again.len() implies !not_earlier(
            (#[trigger] again[j]).meta.taken_at,
            (#[trigger] again[i]).meta.taken_at,
        ) by {
            assert(again[i].le(again[j]));
            assert(again.contains(again[i]) && again.contains(again[j]));
            let a = choose|a: int| 0 <= a < most.len() && most[a] == again[i];
            let b = choose|b: int| 0 <= b < most.len() && most[b] == again[j];
            rows_differ(now, i, j);
            assert(list[a] == again[i] && list[b] == again[j]);
            if a < b {
                assert(list[a].meta.taken_at != list[b].meta.taken_at);
            } else {
                assert(list[b].meta.taken_at != list[a].meta.taken_at);
            }
        }
    }
    descending_is_one(again, most);
    assert(outdated(now, keep) =~= Seq::empty());
    assert(pairs_of(outdated(now, keep)) =~= Seq::empty());
    nothing_without(now, now.len());
    assert(left_of(now, keep) == now);
    assert forall|m: int| 0 <= m < now.len() implies goes_with(now, #[trigger] now[m]).len() == 0 by {
        companions_stay(files, keep, m);
        shown_names(kept, sidecar_name(stem_of(kept[m].name)));
        shown_names(kept, payload_name(stem_of(kept[m].name)));
        assert(goes_with(now, now[m]) == goes_with(kept, kept[m]));
    }
    no_strays(now, now.len());
    assert(pruned_of(now, keep).0 =~= Seq::empty());
}

proof fn nothing_without(files: Seq<FileSpec>, k: nat)
    requires
        k <= files.len(),
    ensures
        without(files, Seq::empty(), k) == files.take(k as int),
        k == files.len() ==> without(files, Seq::empty(), k) == files,
    decreases k,
{
    if k > 0 {
        nothing_without(files, (k - 1) as nat);
        assert(without(files, Seq::empty(), k) =~= files.take(k as int));
    } else {
        assert(files.take(0) =~= Seq::empty());
    }
    if k == files.len() {
        assert(files.take(k as int) =~= files);
    }
}

proof fn rows_differ(files: Seq<FileSpec>, i: int, j: int)
    requires
        distinct(files),
        files.len() <= usize::MAX,
        0 <= i < j < newest_first(files).len(),
    ensures
        newest_first(files)[i] != newest_first(files)[j],
{
    let complete = complete_of(files, files.len());
    complete_is_few(files, files.len());
    arrangement_exists(complete);
    let order = arrangement(complete);
    crate::order::arrangement_has_no_duplicates(complete, order, 0, complete.len() as int);
    assert(order[i] != order[j]);
    stems_differ(files, order[i] as int, order[j] as int);
}

/// What is listed after a pruning was listed before, among the newest.
proof fn listed_before(files: Seq<FileSpec>, keep: int, k: int, x: ListedSpec)
    requires
        distinct(files),
        told_by_name(files),
        files.len() <= usize::MAX,
        0 <= keep,
        lists(shown(kept_of(files, keep)), k, x),
    ensures
        newest_first(files).take(
            if keep < newest_first(files).len() {
                keep
            } else {
                newest_first(files).len() as int
            },
        ).contains(x),
{
    let pairs = pairs_of(outdated(files, keep));
    let left = left_of(files, keep);
    let strays = strays_of(left, left.len()).0;
    let kept = kept_of(files, keep);
    let list = newest_first(files);
    left_distinct(files, pairs, files.len());
    let l = left_from(left, strays, left.len(), k);
    let i = left_from(files, pairs, files.len(), l);
    let payload = payload_name(stem_of(kept[k].name));
    let p = choose|p: int| 0 <= p < kept.len() && (#[trigger] kept[p]).name == payload;
    let pl = left_from(left, strays, left.len(), p);
    let pi = left_from(files, pairs, files.len(), pl);
    assert(files[pi].name == payload);
    assert(lists(files, i, x));
    listing_has(files, i, x);
    let m = choose|m: int| 0 <= m < list.len() && list[m] == x;
    if m >= keep {
        let too_many = outdated(files, keep);
        assert(too_many[m - keep] == x);
        pairs_have(too_many, m - keep);
        sidecar_parts(files[i].name);
        assert(left[l].name == sidecar_name(x.stem));
        assert(pairs.contains(left[l].name));
    }
    let count = if keep < list.len() {
        keep
    } else {
        list.len() as int
    };
    assert(list.take(count)[m] == x);
}

proof fn pairs_have(list: Seq<ListedSpec>, m: int)
    requires
        0 <= m < list.len(),
    ensures
        pairs_of(list).contains(sidecar_name(list[m].stem)),
    decreases list.len(),
{
    let less = pairs_of(list.drop_last());
    let all = pairs_of(list);
    if m == list.len() - 1 {
        assert(all.last() == sidecar_name(list[m].stem));
    } else {
        pairs_have(list.drop_last(), m);
        let at = choose|at: int| 0 <= at < less.len() && less[at] == sidecar_name(list[m].stem);
        assert(all[at] == less[at]);
    }
}

/// The newest that were listed before a pruning are listed after it.
proof fn listed_after(files: Seq<FileSpec>, keep: int, m: int)
    requires
        distinct(files),
        told_by_name(files),
        files.len() <= usize::MAX,
        0 <= m < newest_first(files).len(),
        m < keep,
    ensures
        newest_first(shown(kept_of(files, keep))).contains(newest_first(files)[m]),
{
    let pairs = pairs_of(outdated(files, keep));
    let left = left_of(files, keep);
    let strays = strays_of(left, left.len()).0;
    let kept = kept_of(files, keep);
    let x = newest_first(files)[m];
    left_distinct(files, pairs, files.len());
    left_distinct(left, strays, left.len());
    let i = listing_from(files, m);
    sidecar_parts(files[i].name);
    let payload = payload_name(x.stem);
    let p = choose|p: int| 0 <= p < files.len() && (#[trigger] files[p]).name == payload;
    pruning_keeps_the_newest(files, keep, m);
    let gone = pruned_of(files, keep).0;
    assert forall|name: Seq<char>| !gone.contains(name) implies !pairs.contains(name)
        && !strays.contains(name) by {
        if pairs.contains(name) {
            let at = choose|at: int| 0 <= at < pairs.len() && pairs[at] == name;
            assert(gone[at] == name);
        }
        if strays.contains(name) {
            let at = choose|at: int| 0 <= at < strays.len() && strays[at] == name;
            assert(gone[pairs.len() + at] == name);
        }
    }
    stays_left(files, pairs, files.len(), i);
    let il = choose|a: int| 0 <= a < left.len() && left[a] == files[i];
    stays_left(left, strays, left.len(), il);
    let ik = choose|a: int| 0 <= a < kept.len() && kept[a] == left[il];
    stays_left(files, pairs, files.len(), p);
    let pl = choose|a: int| 0 <= a < left.len() && left[a] == files[p];
    stays_left(left, strays, left.len(), pl);
    let pk = choose|a: int| 0 <= a < kept.len() && kept[a] == left[pl];
    assert(kept[pk].name == payload);
    assert(lists(shown(kept), ik, x));
    listing_has(shown(kept), ik, x);
}

/// A payload without its sidecar is not listed: a snapshot appears only once it is complete.
pub proof fn nothing_is_listed_without_its_sidecar(files: Seq<FileSpec>, m: int)
    requires
        files.len() <= usize::MAX,
        0 <= m < newest_first(files).len(),
    ensures
        has_name(files, sidecar_name(newest_first(files)[m].stem)),
        exists|k: int|
            0 <= k < files.len() && (#[trigger] files[k]).name == sidecar_name(
                newest_first(files)[m].stem,
            ) && files[k].payload,
{
    let complete = complete_of(files, files.len());
    complete_is_few(files, files.len());
    arrangement_exists(complete);
    let i = complete_from(files, files.len(), arrangement(complete)[m] as int);
    sidecar_parts(files[i].name);
    assert(files[i].name == sidecar_name(newest_first(files)[m].stem));
}

} // verus!
