//! What changed between two snapshots, and which directories grew most.

use super::model::{entry_paths, entry_views, index_paths, EntrySpec, Snapshot, SnapshotEntry};
use crate::index::{labels, last_at, last_at_found, Index, Key};
use crate::order::{arrangement, arrangement_by_rank, arrangement_exists, in_order, picked_in_order};
use crate::order::{sort, sorted, Ranked, Sortable};
use crate::path::{parent, parent_text};
use crate::scan::tree::NodeKind;
use crate::text::{at_most, bytes_le_total, bytes_le_transitive, text_le};
use vstd::prelude::*;
use vstd::utf8::encode_utf8;

verus! {

#[derive(Debug, Clone, PartialEq, Eq)]
pub struct Delta {
    pub path: String,
    pub kind: NodeKind,
    pub before: u64,
    pub after: u64,
    pub delta: i64,
}

/// A [`Delta`] in specifications.
pub struct DeltaSpec {
    pub path: Seq<char>,
    pub kind: NodeKind,
    pub before: u64,
    pub after: u64,
    pub delta: i64,
}

impl View for Delta {
    type V = DeltaSpec;

    open spec fn view(&self) -> DeltaSpec {
        DeltaSpec {
            path: self.path@,
            kind: self.kind,
            before: self.before,
            after: self.after,
            delta: self.delta,
        }
    }
}

/// Several deltas in specifications.
pub open spec fn delta_views(deltas: Seq<Delta>) -> Seq<DeltaSpec> {
    deltas.map_values(|delta: Delta| delta@)
}

/// The paths of several entries.
pub open spec fn paths_of(entries: Seq<EntrySpec>) -> Seq<Seq<char>> {
    entries.map_values(|entry: EntrySpec| entry.path)
}

/// The size a path had before: nothing where it was absent, or is mentioned before.
pub open spec fn size_before(previous: Seq<EntrySpec>, current: Seq<EntrySpec>, k: int) -> u64 {
    if exists|j: int| 0 <= j < k && (#[trigger] current[j]).path == current[k].path {
        0
    } else {
        match last_at(paths_of(previous), current[k].path) {
            Some(i) => previous[i].size,
            None => 0,
        }
    }
}

/// What changed about entry `k` of the current snapshot.
pub open spec fn change_of(previous: Seq<EntrySpec>, current: Seq<EntrySpec>, k: int) -> DeltaSpec {
    let before = size_before(previous, current, k);
    DeltaSpec {
        path: current[k].path,
        kind: current[k].kind,
        before,
        after: current[k].size,
        delta: (current[k].size - before) as i64,
    }
}

/// Whether entry `i` of the previous snapshot is gone: the last word on its path, which the
/// current one does not mention.
pub open spec fn gone(previous: Seq<EntrySpec>, current: Seq<EntrySpec>, i: int) -> bool {
    &&& last_at(paths_of(previous), previous[i].path) == Some(i)
    &&& forall|j: int| 0 <= j < current.len() ==> (#[trigger] current[j]).path != previous[i].path
}

/// What changed about the first `k` entries of the previous snapshot that are gone.
pub open spec fn losses(previous: Seq<EntrySpec>, current: Seq<EntrySpec>, k: nat) -> Seq<DeltaSpec>
    decreases k,
{
    if k == 0 {
        Seq::empty()
    } else {
        let before = losses(previous, current, (k - 1) as nat);
        let entry = previous[k - 1];
        if gone(previous, current, k - 1) {
            before.push(
                DeltaSpec {
                    path: entry.path,
                    kind: entry.kind,
                    before: entry.size,
                    after: 0,
                    delta: -entry.size as i64,
                },
            )
        } else {
            before
        }
    }
}

/// What changed between two snapshots: the entries of the current one in their order, then
/// what is gone in the order it had.
pub open spec fn changes(previous: Seq<EntrySpec>, current: Seq<EntrySpec>) -> Seq<DeltaSpec> {
    Seq::new(current.len(), |k: int| change_of(previous, current, k)) + losses(
        previous,
        current,
        previous.len(),
    )
}

/// Whether every size can be taken the difference of.
pub open spec fn comparable(entries: Seq<SnapshotEntry>) -> bool {
    forall|i: int| 0 <= i < entries.len() ==> (#[trigger] entries[i]).size <= i64::MAX
}

/// One entry per path present in either snapshot; absent paths count as 0.
pub fn deltas(previous: &Snapshot, current: &Snapshot) -> (out: Vec<Delta>)
    requires
        comparable(previous.entries@),
        comparable(current.entries@),
    ensures
        delta_views(out@) == changes(entry_views(previous.entries@), entry_views(current.entries@)),
{
    let ghost old_entries = entry_views(previous.entries@);
    let ghost new_entries = entry_views(current.entries@);
    let index: Index<Key> = index_paths(&previous.entries);
    assert(entry_paths(previous.entries@) =~= paths_of(old_entries));
    let mut used: Vec<bool> = Vec::new();
    let mut u: usize = 0;
    while u < previous.entries.len()
        invariant
            u <= previous.entries.len(),
            used@.len() == u,
            forall|i: int| 0 <= i < u ==> !#[trigger] used@[i],
        decreases previous.entries.len() - u,
    {
        used.push(false);
        u += 1;
    }
    let mut out: Vec<Delta> = Vec::new();
    let ghost kept = Seq::new(
        new_entries.len(),
        |k: int| change_of(old_entries, new_entries, k),
    );
    let mut k: usize = 0;
    while k < current.entries.len()
        invariant
            k <= current.entries.len(),
            comparable(previous.entries@),
            comparable(current.entries@),
            old_entries == entry_views(previous.entries@),
            new_entries == entry_views(current.entries@),
            kept == Seq::new(
                new_entries.len(),
                |k: int| change_of(old_entries, new_entries, k),
            ),
            index.wf(),
            index.list() == paths_of(old_entries),
            used@.len() == old_entries.len(),
            forall|i: int|
                0 <= i < used@.len() ==> #[trigger] used@[i] == (last_at(
                    paths_of(old_entries),
                    old_entries[i].path,
                ) == Some(i) && exists|j: int|
                    0 <= j < k && (#[trigger] new_entries[j]).path == old_entries[i].path),
            out@.len() == k,
            forall|j: int| 0 <= j < k ==> (#[trigger] out@[j])@ == kept[j],
        decreases current.entries.len() - k,
    {
        let entry: &SnapshotEntry = &current.entries[k];
        let ghost path = entry.path@;
        let ghost flags = used@;
        assert(new_entries[k as int] == entry@);
        proof {
            last_at_found(paths_of(old_entries), path);
        }
        let before: u64 = match index.last(&entry.path) {
            Some(i) => {
                assert(old_entries[i as int].path == path);
                assert(old_entries[i as int] == previous.entries@[i as int]@);
                if used[i] {
                    0
                } else {
                    used.set(i, true);
                    assert(!flags[i as int]);
                    previous.entries[i].size
                }
            },
            None => 0,
        };
        proof {
            assert(before == size_before(old_entries, new_entries, k as int)) by {
                match last_at(paths_of(old_entries), path) {
                    Some(i) => {
                        assert(flags[i] == exists|j: int|
                            0 <= j < k && (#[trigger] new_entries[j]).path == path);
                    },
                    None => {},
                }
            }
            assert forall|i: int| 0 <= i < used@.len() implies #[trigger] used@[i] == (last_at(
                paths_of(old_entries),
                old_entries[i].path,
            ) == Some(i) && exists|j: int|
                0 <= j < k + 1 && (#[trigger] new_entries[j]).path == old_entries[i].path) by {
                let earlier = exists|j: int|
                    0 <= j < k && (#[trigger] new_entries[j]).path == old_entries[i].path;
                let now = exists|j: int|
                    0 <= j < k + 1 && (#[trigger] new_entries[j]).path == old_entries[i].path;
                assert(flags[i] == (last_at(paths_of(old_entries), old_entries[i].path) == Some(i)
                    && earlier));
                if old_entries[i].path == path {
                    assert(new_entries[k as int].path == path);
                    assert(now);
                } else {
                    assert(now ==> earlier);
                    if last_at(paths_of(old_entries), path) is Some {
                        assert(last_at(paths_of(old_entries), path)->0 != i);
                    }
                }
            }
        }
        out.push(
            Delta {
                path: entry.path.clone(),
                kind: entry.kind,
                before,
                after: entry.size,
                delta: entry.size as i64 - before as i64,
            },
        );
        k += 1;
    }
    let ghost first = out@;
    assert(delta_views(first) =~= kept);
    assert(losses(old_entries, new_entries, 0) =~= Seq::empty());
    let mut i: usize = 0;
    while i < previous.entries.len()
        invariant
            i <= previous.entries.len(),
            comparable(previous.entries@),
            old_entries == entry_views(previous.entries@),
            index.wf(),
            index.list() == paths_of(old_entries),
            used@.len() == old_entries.len(),
            forall|x: int|
                0 <= x < used@.len() ==> #[trigger] used@[x] == (last_at(
                    paths_of(old_entries),
                    old_entries[x].path,
                ) == Some(x) && exists|j: int|
                    0 <= j < new_entries.len() && (#[trigger] new_entries[j]).path
                        == old_entries[x].path),
            delta_views(out@) == kept + losses(old_entries, new_entries, i as nat),
        decreases previous.entries.len() - i,
    {
        let entry: &SnapshotEntry = &previous.entries[i];
        assert(old_entries[i as int] == entry@);
        let ghost so_far = out@;
        let last: bool = match index.last(&entry.path) {
            Some(at) => at == i,
            None => false,
        };
        assert(gone(old_entries, new_entries, i as int) == (last && !used@[i as int]));
        if last && !used[i] {
            let delta = Delta {
                path: entry.path.clone(),
                kind: entry.kind,
                before: entry.size,
                after: 0,
                delta: -(entry.size as i64),
            };
            out.push(delta);
            assert(delta_views(out@) =~= delta_views(so_far).push(delta@));
            assert(kept + losses(old_entries, new_entries, (i + 1) as nat) =~= (kept + losses(
                old_entries,
                new_entries,
                i as nat,
            )).push(delta@));
        }
        i += 1;
    }
    out
}

/// Whether a delta is a directory that grew.
pub open spec fn grows(delta: DeltaSpec) -> bool {
    delta.kind == NodeKind::Dir && delta.delta > 0
}

/// Whether `child` is a directory right below `dir` that explains at least 80% of its
/// growth.
pub open spec fn explains(child: DeltaSpec, dir: DeltaSpec) -> bool {
    &&& grows(child)
    &&& parent_text(child.path) == Some(dir.path)
    &&& 5 * child.delta >= 4 * dir.delta
}

/// Whether one of the deltas explains number `j` of them.
pub open spec fn explained(deltas: Seq<DeltaSpec>, j: int) -> bool {
    exists|c: int| 0 <= c < deltas.len() && explains(#[trigger] deltas[c], deltas[j])
}

/// The growing directories among the first `k` deltas that no child explains.
pub open spec fn unexplained(deltas: Seq<DeltaSpec>, k: nat) -> Seq<DeltaSpec>
    decreases k,
{
    if k == 0 {
        Seq::empty()
    } else {
        let before = unexplained(deltas, (k - 1) as nat);
        if grows(deltas[k - 1]) && !explained(deltas, k - 1) {
            before.push(deltas[k - 1])
        } else {
            before
        }
    }
}

/// The order of growth: the largest first, and by path where two grew the same.
pub open spec fn grew_more(a: DeltaSpec, b: DeltaSpec) -> bool {
    a.delta > b.delta || (a.delta == b.delta && text_le(a.path, b.path))
}

impl Ranked for DeltaSpec {
    open spec fn le(self, other: Self) -> bool {
        grew_more(self, other)
    }

    proof fn le_total(a: Self, b: Self) {
        bytes_le_total(encode_utf8(a.path), encode_utf8(b.path));
    }

    proof fn le_transitive(a: Self, b: Self, c: Self) {
        if a.delta == b.delta && b.delta == c.delta {
            bytes_le_transitive(encode_utf8(a.path), encode_utf8(b.path), encode_utf8(c.path));
        }
    }
}

impl Ranked for Delta {
    open spec fn le(self, other: Self) -> bool {
        grew_more(self@, other@)
    }

    proof fn le_total(a: Self, b: Self) {
        bytes_le_total(encode_utf8(a.path@), encode_utf8(b.path@));
    }

    proof fn le_transitive(a: Self, b: Self, c: Self) {
        if a.delta == b.delta && b.delta == c.delta {
            bytes_le_transitive(
                encode_utf8(a.path@),
                encode_utf8(b.path@),
                encode_utf8(c.path@),
            );
        }
    }
}

impl Sortable for Delta {
    fn at_most(&self, other: &Self) -> bool {
        self.delta > other.delta || (self.delta == other.delta && at_most(&self.path, &other.path))
    }
}

/// At most the first `limit` of a list.
pub open spec fn at_most_first<T>(list: Seq<T>, limit: int) -> Seq<T> {
    if list.len() <= limit {
        list
    } else {
        list.take(limit)
    }
}

/// Growing directories, largest first, without those one child explains.
pub open spec fn growers_of(deltas: Seq<DeltaSpec>, limit: int) -> Seq<DeltaSpec> {
    at_most_first(sorted(unexplained(deltas, deltas.len())), limit)
}

/// Which deltas a child explains.
fn find_explained(deltas: &Vec<Delta>) -> (flags: Vec<bool>)
    ensures
        flags@.len() == deltas@.len(),
        forall|j: int|
            0 <= j < flags@.len() ==> #[trigger] flags@[j] == explained(delta_views(deltas@), j),
{
    let ghost all = delta_views(deltas@);
    let mut keys: Vec<Key> = Vec::new();
    let mut flags: Vec<bool> = Vec::new();
    let mut i: usize = 0;
    while i < deltas.len()
        invariant
            i <= deltas.len(),
            keys@.len() == i,
            flags@.len() == i,
            forall|k: int| 0 <= k < i ==> !#[trigger] flags@[k],
            forall|k: int| 0 <= k < i ==> (#[trigger] keys@[k]).text@ == deltas@[k].path@,
        decreases deltas.len() - i,
    {
        keys.push(Key { text: deltas[i].path.as_str() });
        flags.push(false);
        i += 1;
    }
    let ghost paths = labels(keys@);
    assert forall|k: int| 0 <= k < paths.len() implies #[trigger] paths[k] == all[k].path by {
        assert(keys@[k].text@ == deltas@[k].path@);
    }
    let index: Index<Key> = Index::new(keys);
    let mut c: usize = 0;
    while c < deltas.len()
        invariant
            c <= deltas.len(),
            all == delta_views(deltas@),
            flags@.len() == deltas@.len(),
            index.wf(),
            index.list() == paths,
            paths.len() == all.len(),
            forall|k: int| 0 <= k < paths.len() ==> #[trigger] paths[k] == all[k].path,
            forall|j: int|
                0 <= j < flags@.len() ==> #[trigger] flags@[j] == exists|x: int|
                    0 <= x < c && explains(#[trigger] all[x], all[j]),
        decreases deltas.len() - c,
    {
        let child: &Delta = &deltas[c];
        assert(all[c as int] == child@);
        let ghost before = flags@;
        let above: Option<String> = if child.kind == NodeKind::Dir && child.delta > 0 {
            parent(&child.path)
        } else {
            None
        };
        if let Some(above) = above {
            let places: Vec<usize> = index.all(&above);
            let mut p: usize = 0;
            while p < places.len()
                invariant
                    p <= places.len(),
                    all == delta_views(deltas@),
                    flags@.len() == deltas@.len() == before.len(),
                    grows(child@),
                    parent_text(child.path@) == Some(above@),
                    paths.len() == all.len(),
                    forall|k: int|
                        0 <= k < places@.len() ==> (#[trigger] places@[k]) < paths.len(),
                    forall|a: int, b: int|
                        0 <= a < b < places@.len() ==> (#[trigger] places@[a]) < (
                        #[trigger] places@[b]),
                    forall|j: int|
                        0 <= j < flags@.len() ==> #[trigger] flags@[j] == (before[j] || (5
                            * child.delta >= 4 * all[j].delta && exists|q: int|
                            0 <= q < p && #[trigger] places@[q] == j)),
                decreases places.len() - p,
            {
                let j: usize = places[p];
                let ghost flags_before = flags@;
                assert(all[j as int] == deltas@[j as int]@);
                if 5 * (child.delta as i128) >= 4 * (deltas[j].delta as i128) {
                    flags.set(j, true);
                }
                assert forall|x: int| 0 <= x < flags@.len() implies #[trigger] flags@[x] == (
                before[x] || (5 * child.delta >= 4 * all[x].delta && exists|q: int|
                    0 <= q < p + 1 && #[trigger] places@[q] == x)) by {
                    let earlier = exists|q: int| 0 <= q < p && #[trigger] places@[q] == x;
                    let now = exists|q: int| 0 <= q < p + 1 && #[trigger] places@[q] == x;
                    assert(flags_before[x] == (before[x] || (5 * child.delta >= 4 * all[x].delta
                        && earlier)));
                    if x == j {
                        assert(places@[p as int] == x);
                        assert(now);
                    } else {
                        assert(now ==> earlier);
                        assert(flags@[x] == flags_before[x]);
                    }
                }
                p += 1;
            }
            proof {
                assert forall|j: int| 0 <= j < flags@.len() implies #[trigger] flags@[j] == exists|
                    x: int,
                |
                    0 <= x < c + 1 && explains(#[trigger] all[x], all[j]) by {
                    let there = exists|q: int| 0 <= q < places@.len() && #[trigger] places@[q] == j;
                    assert(there == (all[j].path == above@)) by {
                        if there {
                            let q = choose|q: int|
                                0 <= q < places@.len() && #[trigger] places@[q] == j;
                            assert(paths[places@[q] as int] == above@);
                        }
                        if all[j].path == above@ {
                            assert(paths[j] == above@);
                            assert(places@.contains(j as usize));
                        }
                    }
                    assert(explains(all[c as int], all[j]) == (5 * child.delta >= 4 * all[j].delta
                        && there));
                    assert(before[j] == exists|x: int|
                        0 <= x < c && explains(#[trigger] all[x], all[j]));
                    if before[j] {
                        let x = choose|x: int|
                            0 <= x < c && explains(#[trigger] all[x], all[j]);
                        assert(explains(all[x], all[j]));
                    }
                }
            }
        } else {
            proof {
                assert forall|j: int| 0 <= j < flags@.len() implies #[trigger] flags@[j] == exists|
                    x: int,
                |
                    0 <= x < c + 1 && explains(#[trigger] all[x], all[j]) by {
                    assert(before[j] == exists|x: int|
                        0 <= x < c && explains(#[trigger] all[x], all[j]));
                    assert(!explains(all[c as int], all[j]));
                    if before[j] {
                        let x = choose|x: int|
                            0 <= x < c && explains(#[trigger] all[x], all[j]);
                        assert(explains(all[x], all[j]));
                    }
                }
            }
        }
        c += 1;
    }
    flags
}

/// Growing directories, largest first, skipping a directory when one child explains at least
/// 80% of its growth (the child is listed instead).
pub fn top_growers(deltas: &Vec<Delta>, limit: usize) -> (growers: Vec<Delta>)
    ensures
        delta_views(growers@) == growers_of(delta_views(deltas@), limit as int),
{
    let ghost all = delta_views(deltas@);
    let flags: Vec<bool> = find_explained(deltas);
    let mut found: Vec<Delta> = Vec::new();
    let mut i: usize = 0;
    assert(delta_views(found@) =~= Seq::empty());
    while i < deltas.len()
        invariant
            i <= deltas.len(),
            all == delta_views(deltas@),
            flags@.len() == deltas@.len(),
            forall|j: int| 0 <= j < flags@.len() ==> #[trigger] flags@[j] == explained(all, j),
            delta_views(found@) == unexplained(all, i as nat),
        decreases deltas.len() - i,
    {
        let ghost before = found@;
        let delta: &Delta = &deltas[i];
        assert(all[i as int] == delta@);
        if delta.kind == NodeKind::Dir && delta.delta > 0 && !flags[i] {
            let copy = Delta {
                path: delta.path.clone(),
                kind: delta.kind,
                before: delta.before,
                after: delta.after,
                delta: delta.delta,
            };
            found.push(copy);
            assert(delta_views(found@) =~= delta_views(before).push(copy@));
        }
        i += 1;
    }
    let ghost list = found@;
    let mut growers: Vec<Delta> = sort(found);
    proof {
        arrangement_by_rank(list, delta_views(list), arrangement(list));
        assert(delta_views(growers@) =~= sorted(delta_views(list)));
    }
    if growers.len() > limit {
        let ghost whole = growers@;
        growers.truncate(limit);
        assert(delta_views(growers@) =~= delta_views(whole).take(limit as int));
    }
    growers
}

proof fn loss_told(previous: Seq<EntrySpec>, current: Seq<EntrySpec>, k: nat, i: int)
    requires
        0 <= i < k <= previous.len(),
        gone(previous, current, i),
    ensures
        exists|m: int|
            0 <= m < losses(previous, current, k).len() && (#[trigger] losses(
                previous,
                current,
                k,
            )[m]).path == previous[i].path,
    decreases k,
{
    let all = losses(previous, current, k);
    let before = losses(previous, current, (k - 1) as nat);
    if i == k - 1 {
        assert(all[before.len() as int].path == previous[i].path);
    } else {
        loss_told(previous, current, (k - 1) as nat, i);
        let m = choose|m: int|
            0 <= m < before.len() && (#[trigger] before[m]).path == previous[i].path;
        assert(all[m].path == previous[i].path);
    }
}

proof fn loss_from(previous: Seq<EntrySpec>, current: Seq<EntrySpec>, k: nat, m: int) -> (i: int)
    requires
        k <= previous.len(),
        0 <= m < losses(previous, current, k).len(),
    ensures
        0 <= i < k,
        gone(previous, current, i),
        losses(previous, current, k)[m].path == previous[i].path,
    decreases k,
{
    let before = losses(previous, current, (k - 1) as nat);
    if m < before.len() {
        loss_from(previous, current, (k - 1) as nat, m)
    } else {
        k - 1
    }
}

/// No path of either snapshot is left out of what changed.
pub proof fn every_path_is_told(
    previous: Seq<EntrySpec>,
    current: Seq<EntrySpec>,
    path: Seq<char>,
)
    requires
        paths_of(previous).contains(path) || paths_of(current).contains(path),
    ensures
        exists|m: int|
            0 <= m < changes(previous, current).len() && (#[trigger] changes(
                previous,
                current,
            )[m]).path == path,
{
    let told = changes(previous, current);
    if exists|j: int| 0 <= j < current.len() && (#[trigger] current[j]).path == path {
        let j = choose|j: int| 0 <= j < current.len() && (#[trigger] current[j]).path == path;
        assert(told[j].path == path);
    } else {
        if paths_of(current).contains(path) {
            let j = choose|j: int| 0 <= j < current.len() && paths_of(current)[j] == path;
            assert(current[j].path == path);
        }
        last_at_found(paths_of(previous), path);
        let i = last_at(paths_of(previous), path)->0;
        assert(gone(previous, current, i));
        loss_told(previous, current, previous.len(), i);
        let lost = losses(previous, current, previous.len());
        let m = choose|m: int| 0 <= m < lost.len() && (#[trigger] lost[m]).path == path;
        assert(told[current.len() + m].path == path);
    }
}

/// What changed mentions no path the snapshots do not have, and says of a path that is gone
/// that nothing is left of it.
pub proof fn nothing_else_is_told(previous: Seq<EntrySpec>, current: Seq<EntrySpec>, m: int)
    requires
        0 <= m < changes(previous, current).len(),
    ensures
        ({
            let told = changes(previous, current)[m];
            if m < current.len() {
                told.path == current[m].path && told.after == current[m].size
            } else {
                paths_of(previous).contains(told.path) && !paths_of(current).contains(told.path)
                    && told.after == 0
            }
        }),
{
    if m >= current.len() {
        let i = loss_from(previous, current, previous.len(), m - current.len());
        assert(paths_of(previous)[i] == previous[i].path);
        loss_is_total(previous, current, previous.len(), m - current.len());
        let told = changes(previous, current)[m];
        if paths_of(current).contains(told.path) {
            let j = choose|j: int| 0 <= j < current.len() && paths_of(current)[j] == told.path;
            assert(current[j].path == told.path);
        }
    }
}

proof fn loss_is_total(previous: Seq<EntrySpec>, current: Seq<EntrySpec>, k: nat, m: int)
    requires
        0 <= m < losses(previous, current, k).len(),
    ensures
        losses(previous, current, k)[m].after == 0,
    decreases k,
{
    if k > 0 {
        let before = losses(previous, current, (k - 1) as nat);
        if m < before.len() {
            loss_is_total(previous, current, (k - 1) as nat, m);
        }
    }
}

proof fn kept_grower(deltas: Seq<DeltaSpec>, k: nat, m: int)
    requires
        k <= deltas.len(),
        0 <= m < unexplained(deltas, k).len(),
    ensures
        grows(unexplained(deltas, k)[m]),
    decreases k,
{
    if k > 0 {
        let before = unexplained(deltas, (k - 1) as nat);
        if m < before.len() {
            kept_grower(deltas, (k - 1) as nat, m);
        }
    }
}

proof fn kept_few(deltas: Seq<DeltaSpec>, k: nat)
    ensures
        unexplained(deltas, k).len() <= k,
    decreases k,
{
    if k > 0 {
        kept_few(deltas, (k - 1) as nat);
    }
}

/// The growers are directories that grew, no more than asked for, the largest first.
pub proof fn growers_grew_and_stand_in_order(deltas: Seq<DeltaSpec>, limit: int)
    requires
        deltas.len() <= usize::MAX,
        limit >= 0,
    ensures
        growers_of(deltas, limit).len() <= limit,
        in_order(growers_of(deltas, limit)),
        forall|m: int|
            0 <= m < growers_of(deltas, limit).len() ==> grows(
                #[trigger] growers_of(deltas, limit)[m],
            ),
{
    let found = unexplained(deltas, deltas.len());
    let list = growers_of(deltas, limit);
    kept_few(deltas, deltas.len());
    arrangement_exists(found);
    picked_in_order(found, arrangement(found));
    assert forall|m: int| 0 <= m < list.len() implies grows(#[trigger] list[m]) by {
        assert(list[m] == found[arrangement(found)[m] as int]);
        kept_grower(deltas, deltas.len(), arrangement(found)[m] as int);
    }
    assert forall|i: int, j: int| 0 <= i < j < list.len() implies (#[trigger] list[i]).le(
        #[trigger] list[j],
    ) by {
        assert(sorted(found)[i].le(sorted(found)[j]));
    }
}

} // verus!
