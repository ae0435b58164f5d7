//! What snapshots record, what the growth between two of them says, and which of them are kept.

use super::delta::{change_of, changes, explained, explains, gone, grew_more, growers_of, grows};
use super::delta::{losses, size_before, unexplained, DeltaSpec};
use super::codec::{rfc3339_instant, PayloadSpec};
use super::model::{kind_code, kind_named, kinds_known, payload_reading, recorded_of, EntrySpec};
use super::model::{Reading, SNAPSHOT_FORMAT};
use super::store::{before_dot, complete_of, extension_of, first_meta, first_of_root, goes_with};
use super::store::{has_name, newest_first, outdated, placed_all, stem_of, FileSpec, ListedSpec};
use super::store::MetaSpec;
use crate::index::{last_at, last_at_found, last_at_is, last_at_none};
use crate::order::{arrangement, arrangement_exists, multiset_sorted, picked_in_order, sorted, Ranked};
use crate::path::{joined, parent_text, same_path};
use crate::scan::tree::{path_of, Cell, NodeKind};
use crate::snapshot::delta::paths_of;
use crate::text::text_le;
use vstd::prelude::*;

verus! {

/// Whether the differences in a list are those between the sizes it names.
pub open spec fn add_up(deltas: Seq<DeltaSpec>) -> bool {
    forall|i: int|
        0 <= i < deltas.len() ==> (#[trigger] deltas[i]).delta == deltas[i].after
            - deltas[i].before
}

proof fn unexplained_are(deltas: Seq<DeltaSpec>, k: nat, m: int) -> (j: int)
    requires
        k <= deltas.len(),
        0 <= m < unexplained(deltas, k).len(),
    ensures
        0 <= j < k,
        unexplained(deltas, k)[m] == deltas[j],
        grows(deltas[j]) && !explained(deltas, j),
    decreases k,
{
    let before = unexplained(deltas, (k - 1) as nat);
    if m < before.len() {
        unexplained_are(deltas, (k - 1) as nat, m)
    } else {
        k - 1
    }
}

proof fn unexplained_has(deltas: Seq<DeltaSpec>, k: nat, j: int)
    requires
        0 <= j < k <= deltas.len(),
        grows(deltas[j]) && !explained(deltas, j),
    ensures
        unexplained(deltas, k).contains(deltas[j]),
    decreases k,
{
    let before = unexplained(deltas, (k - 1) as nat);
    let now = unexplained(deltas, k);
    if j == k - 1 {
        assert(now[before.len() as int] == deltas[j]);
    } else {
        unexplained_has(deltas, (k - 1) as nat, j);
        let m = choose|m: int| 0 <= m < before.len() && before[m] == deltas[j];
        assert(now[m] == deltas[j]);
    }
}

proof fn unexplained_are_no_more(deltas: Seq<DeltaSpec>, k: nat)
    requires
        k <= deltas.len(),
    ensures
        unexplained(deltas, k).len() <= k,
    decreases k,
{
    if k > 0 {
        unexplained_are_no_more(deltas, (k - 1) as nat);
    }
}

proof fn sorting_keeps_what_is_there<T: Ranked>(s: Seq<T>, x: T)
    requires
        s.len() <= usize::MAX,
    ensures
        sorted(s).contains(x) == s.contains(x),
        sorted(s).len() == s.len(),
{
    broadcast use vstd::seq_lib::group_to_multiset_ensures;

    arrangement_exists(s);
    multiset_sorted(s);
    assert(sorted(s).contains(x) == (sorted(s).to_multiset().count(x) > 0));
    assert(s.contains(x) == (s.to_multiset().count(x) > 0));
}

/// Whether every directory right below `dir` grew by less than four fifths of what `dir` grew by.
pub open spec fn no_child_accounts_for(deltas: Seq<DeltaSpec>, dir: DeltaSpec) -> bool {
    forall|c: int|
        0 <= c < deltas.len() && (#[trigger] deltas[c]).kind == NodeKind::Dir && parent_text(
            deltas[c].path,
        ) == Some(dir.path) ==> 5 * (deltas[c].after - deltas[c].before) < 4 * (dir.after
            - dir.before)
}

/// A directory is among the growers, where the limit cuts nothing, exactly when it grew and every
/// directory right below it grew by less than four fifths of what it grew by.
pub proof fn a_grower_is_what_no_child_accounts_for(deltas: Seq<DeltaSpec>, limit: int, d: int)
    requires
        add_up(deltas),
        deltas.len() <= usize::MAX,
        limit >= deltas.len(),
        0 <= d < deltas.len(),
    ensures
        growers_of(deltas, limit).contains(deltas[d]) <==> {
            &&& deltas[d].kind == NodeKind::Dir
            &&& deltas[d].after > deltas[d].before
            &&& no_child_accounts_for(deltas, deltas[d])
        },
{
    let found = unexplained(deltas, deltas.len());
    let dir = deltas[d];
    unexplained_are_no_more(deltas, deltas.len());
    sorting_keeps_what_is_there(found, dir);
    assert(growers_of(deltas, limit) == sorted(found));
    assert forall|j: int| 0 <= j < deltas.len() && deltas[j] == dir && grows(dir) implies explained(
        deltas,
        j,
    ) == !no_child_accounts_for(deltas, dir) by {
        if explained(deltas, j) {
            let c = choose|c: int| 0 <= c < deltas.len() && explains(#[trigger] deltas[c], deltas[j]);
            assert(deltas[c].delta == deltas[c].after - deltas[c].before);
        }
        if !no_child_accounts_for(deltas, dir) {
            let c = choose|c: int|
                0 <= c < deltas.len() && (#[trigger] deltas[c]).kind == NodeKind::Dir && parent_text(
                    deltas[c].path,
                ) == Some(dir.path) && 5 * (deltas[c].after - deltas[c].before) >= 4 * (dir.after
                    - dir.before);
            assert(deltas[c].delta == deltas[c].after - deltas[c].before);
            assert(explains(deltas[c], deltas[j]));
        }
    }
    assert(dir.delta == dir.after - dir.before);
    if found.contains(dir) {
        let m = choose|m: int| 0 <= m < found.len() && found[m] == dir;
        let j = unexplained_are(deltas, deltas.len(), m);
        assert(deltas[j] == dir);
    }
    if grows(dir) && !explained(deltas, d) {
        unexplained_has(deltas, deltas.len(), d);
    }
}

/// The growers are directories of the comparison, each grew, and they stand by how much: the one
/// that grew most first, and by path where two grew the same. A limit keeps the first of them.
pub proof fn the_growers_stand_by_how_much_they_grew(deltas: Seq<DeltaSpec>, limit: int)
    requires
        add_up(deltas),
        deltas.len() <= usize::MAX,
        limit >= 0,
    ensures
        ({
            let all = growers_of(deltas, deltas.len() as int);
            let few = growers_of(deltas, limit);
            &&& few.len() == if all.len() <= limit {
                all.len() as int
            } else {
                limit
            }
            &&& forall|a: int| 0 <= a < few.len() ==> #[trigger] few[a] == all[a]
            &&& forall|a: int|
                0 <= a < all.len() ==> deltas.contains(#[trigger] all[a]) && all[a].kind
                    == NodeKind::Dir && all[a].after > all[a].before
            &&& forall|a: int, b: int|
                0 <= a < b < all.len() ==> {
                    let one = #[trigger] all[a];
                    let other = #[trigger] all[b];
                    &&& one.after - one.before >= other.after - other.before
                    &&& one.after - one.before == other.after - other.before ==> text_le(
                        one.path,
                        other.path,
                    )
                }
        }),
{
    let found = unexplained(deltas, deltas.len());
    unexplained_are_no_more(deltas, deltas.len());
    arrangement_exists(found);
    picked_in_order(found, arrangement(found));
    let all = sorted(found);
    assert forall|a: int| 0 <= a < all.len() implies deltas.contains(#[trigger] all[a])
        && all[a].kind == NodeKind::Dir && all[a].after > all[a].before && all[a].delta
        == all[a].after - all[a].before by {
        sorting_keeps_what_is_there(found, all[a]);
        assert(all.contains(all[a]));
        let m = choose|m: int| 0 <= m < found.len() && found[m] == all[a];
        let j = unexplained_are(deltas, deltas.len(), m);
        assert(deltas[j] == all[a]);
    }
    assert forall|a: int, b: int| 0 <= a < b < all.len() implies {
        let one = #[trigger] all[a];
        let other = #[trigger] all[b];
        &&& one.after - one.before >= other.after - other.before
        &&& one.after - one.before == other.after - other.before ==> text_le(one.path, other.path)
    } by {
        assert(all[a].le(all[b]));
        assert(grew_more(all[a], all[b]));
    }
}

/// Whether every size of a snapshot can be taken the difference of.
pub open spec fn sizes_fit(entries: Seq<EntrySpec>) -> bool {
    forall|i: int| 0 <= i < entries.len() ==> (#[trigger] entries[i]).size <= i64::MAX
}

/// Whether no path stands in a snapshot twice.
pub open spec fn paths_differ(entries: Seq<EntrySpec>) -> bool {
    forall|i: int, j: int|
        0 <= i < entries.len() && 0 <= j < entries.len() && i != j ==> (#[trigger] entries[i]).path
            != (#[trigger] entries[j]).path
}

proof fn losses_add_up(previous: Seq<EntrySpec>, current: Seq<EntrySpec>, k: nat, m: int) -> (i: int)
    requires
        k <= previous.len(),
        sizes_fit(previous),
        0 <= m < losses(previous, current, k).len(),
    ensures
        0 <= i < k,
        gone(previous, current, i),
        losses(previous, current, k)[m].path == previous[i].path,
        losses(previous, current, k)[m].kind == previous[i].kind,
        losses(previous, current, k)[m].before == previous[i].size,
        losses(previous, current, k)[m].after == 0,
        losses(previous, current, k)[m].delta == -previous[i].size,
    decreases k,
{
    let before = losses(previous, current, (k - 1) as nat);
    if m < before.len() {
        losses_add_up(previous, current, (k - 1) as nat, m)
    } else {
        assert(previous[k - 1].size <= i64::MAX);
        k - 1
    }
}

/// Every difference that is told is the size after less the size before.
pub proof fn what_changed_adds_up(previous: Seq<EntrySpec>, current: Seq<EntrySpec>)
    requires
        sizes_fit(previous),
        sizes_fit(current),
    ensures
        add_up(changes(previous, current)),
{
    let told = changes(previous, current);
    assert forall|m: int| 0 <= m < told.len() implies (#[trigger] told[m]).delta == told[m].after
        - told[m].before by {
        if m < current.len() {
            assert(told[m] == change_of(previous, current, m));
            assert(current[m].size <= i64::MAX);
            last_at_found(paths_of(previous), current[m].path);
            match last_at(paths_of(previous), current[m].path) {
                Some(i) => {
                    assert(previous[i].size <= i64::MAX);
                },
                None => {},
            }
        } else {
            let i = losses_add_up(previous, current, previous.len(), m - current.len());
        }
    }
}

/// Of two snapshots in which no path stands twice, an entry of the current one is told with its
/// size in the previous one, or with nothing where that does not have its path.
pub proof fn a_path_is_compared_with_itself(
    previous: Seq<EntrySpec>,
    current: Seq<EntrySpec>,
    k: int,
)
    requires
        paths_differ(previous),
        paths_differ(current),
        sizes_fit(previous),
        sizes_fit(current),
        0 <= k < current.len(),
    ensures
        ({
            let told = changes(previous, current)[k];
            &&& told.path == current[k].path
            &&& told.kind == current[k].kind
            &&& told.after == current[k].size
            &&& forall|i: int|
                0 <= i < previous.len() && (#[trigger] previous[i]).path == current[k].path
                    ==> told.before == previous[i].size && told.delta == current[k].size
                    - previous[i].size
            &&& (forall|i: int|
                0 <= i < previous.len() ==> (#[trigger] previous[i]).path != current[k].path)
                ==> told.before == 0 && told.delta == current[k].size
        }),
{
    let told = changes(previous, current)[k];
    what_changed_adds_up(previous, current);
    assert(told == change_of(previous, current, k));
    let paths = paths_of(previous);
    let path = current[k].path;
    assert forall|i: int| 0 <= i < previous.len() && (#[trigger] previous[i]).path == path implies told.before
        == previous[i].size by {
        assert(paths[i] == path);
        assert forall|j: int| i < j < paths.len() implies #[trigger] paths[j] != path by {
            assert(previous[j].path != previous[i].path);
        }
        last_at_is(paths, path, i);
        assert forall|j: int| 0 <= j < k implies (#[trigger] current[j]).path != path by {}
        assert(size_before(previous, current, k) == previous[i].size);
    }
    if forall|i: int| 0 <= i < previous.len() ==> (#[trigger] previous[i]).path != path {
        assert forall|i: int| 0 <= i < paths.len() implies #[trigger] paths[i] != path by {
            assert(previous[i].path != path);
        }
        last_at_none(paths, path);
    }
}

/// A path that only the previous snapshot has is told as gone: nothing is left of what it had.
pub proof fn a_path_that_is_gone_lost_all_it_had(
    previous: Seq<EntrySpec>,
    current: Seq<EntrySpec>,
    m: int,
)
    requires
        sizes_fit(previous),
        current.len() <= m < changes(previous, current).len(),
    ensures
        exists|i: int|
            #![trigger previous[i]]
            {
                let told = changes(previous, current)[m];
                &&& 0 <= i < previous.len()
                &&& told.path == previous[i].path
                &&& told.kind == previous[i].kind
                &&& told.before == previous[i].size
                &&& told.after == 0
                &&& told.delta == -previous[i].size
                &&& forall|j: int| 0 <= j < current.len() ==> (#[trigger] current[j]).path != told.path
            },
{
    let i = losses_add_up(previous, current, previous.len(), m - current.len());
    assert(previous[i].path == changes(previous, current)[m].path);
}

/// A snapshot records every directory, and everything else that takes at least as many bytes as
/// the threshold, in the order of the tree and as the tree has it. Nothing smaller is recorded.
pub proof fn a_snapshot_records_what_is_large(cells: Seq<Cell>, threshold: u64, k: nat) -> (at: Seq<
    int,
>)
    requires
        k <= cells.len(),
    ensures
        at.len() == recorded_of(cells, threshold, k).len(),
        forall|a: int, b: int| 0 <= a < b < at.len() ==> (#[trigger] at[a]) < (#[trigger] at[b]),
        forall|i: int|
            0 <= i < k ==> at.contains(i) == ((#[trigger] cells[i]).kind == NodeKind::Dir
                || cells[i].size >= threshold),
        forall|m: int|
            0 <= m < at.len() ==> {
                let entry = recorded_of(cells, threshold, k)[m];
                &&& 0 <= #[trigger] at[m] < k
                &&& entry.path == path_of(cells, at[m])
                &&& entry.kind == cells[at[m]].kind
                &&& entry.size == cells[at[m]].size
                &&& entry.file_count == cells[at[m]].file_count
                &&& entry.mtime == cells[at[m]].mtime
            },
    decreases k,
{
    if k == 0 {
        Seq::empty()
    } else {
        let before = a_snapshot_records_what_is_large(cells, threshold, (k - 1) as nat);
        let cell = cells[k - 1];
        if cell.kind == NodeKind::Dir || cell.size >= threshold {
            let at = before.push(k - 1);
            assert forall|i: int| 0 <= i < k implies at.contains(i) == ((#[trigger] cells[i]).kind
                == NodeKind::Dir || cells[i].size >= threshold) by {
                if i == k - 1 {
                    assert(at[before.len() as int] == i);
                } else {
                    if before.contains(i) {
                        let m = choose|m: int| 0 <= m < before.len() && before[m] == i;
                        assert(at[m] == i);
                    }
                    if at.contains(i) {
                        let m = choose|m: int| 0 <= m < at.len() && at[m] == i;
                        assert(before[m] == i);
                    }
                }
            }
            at
        } else {
            assert forall|i: int| 0 <= i < k implies before.contains(i) == ((
            #[trigger] cells[i]).kind == NodeKind::Dir || cells[i].size >= threshold) by {
                if i == k - 1 && before.contains(i) {
                    let m = choose|m: int| 0 <= m < before.len() && before[m] == i;
                    assert(before[m] < k - 1);
                }
            }
            before
        }
    }
}

/// The numbers that stand for the kinds in a stored snapshot, and its format, are these: another
/// choice would misread every snapshot there is.
pub proof fn the_numbers_of_a_stored_snapshot()
    ensures
        kind_code(NodeKind::Dir) == 0,
        kind_code(NodeKind::File) == 1,
        kind_code(NodeKind::Symlink) == 2,
        kind_code(NodeKind::Other) == 3,
        kind_named(0) == Some(NodeKind::Dir),
        kind_named(1) == Some(NodeKind::File),
        kind_named(2) == Some(NodeKind::Symlink),
        kind_named(3) == Some(NodeKind::Other),
        forall|code: u32| code > 3 ==> #[trigger] kind_named(code) is None,
        SNAPSHOT_FORMAT == 1,
{
}

/// The extension of a name is what stands behind its last dot, and its stem what stands before.
pub proof fn a_name_splits_at_its_last_dot(stem: Seq<char>, extension: Seq<char>)
    requires
        stem.len() > 0,
        !extension.contains('.'),
        extension.len() > 0,
    ensures
        stem_of(stem + seq!['.'] + extension) == stem,
        extension_of(stem + seq!['.'] + extension) == Some(extension),
{
    let name = stem + seq!['.'] + extension;
    last_dot(stem, extension);
    reveal_strlit("..");
    if name == ".."@ {
        assert(name[name.len() - 1] == extension[extension.len() - 1]);
        assert(extension[extension.len() - 1] == '.');
    }
    assert(name.skip(stem.len() as int + 1) =~= extension);
}

proof fn last_dot(stem: Seq<char>, extension: Seq<char>)
    requires
        !extension.contains('.'),
    ensures
        before_dot(stem + seq!['.'] + extension) == Some(stem),
    decreases extension.len(),
{
    let name = stem + seq!['.'] + extension;
    if extension.len() == 0 {
        assert(name.last() == '.');
        assert(name.drop_last() =~= stem);
    } else {
        let less = extension.drop_last();
        assert(!less.contains('.')) by {
            if less.contains('.') {
                let k = choose|k: int| 0 <= k < less.len() && less[k] == '.';
                assert(extension[k] == '.');
            }
        }
        last_dot(stem, less);
        assert(extension.contains(extension.last()));
        assert(name.last() == extension.last());
        assert(name.drop_last() =~= stem + seq!['.'] + less);
    }
}

/// Whether file `k` of a store is the sidecar of a snapshot that is listed: it is named like one,
/// its payload is there, it can be read, and it is of the present format.
pub open spec fn names_a_snapshot(files: Seq<FileSpec>, k: int) -> bool {
    &&& 0 <= k < files.len()
    &&& extension_of(files[k].name) == Some("json"@)
    &&& files[k].payload
    &&& files[k].meta is Some
    &&& files[k].meta->0.format == 1
}

proof fn complete_holds(files: Seq<FileSpec>, n: nat, k: int)
    requires
        n <= files.len(),
        0 <= k < n,
        names_a_snapshot(files, k),
    ensures
        complete_of(files, n).contains(
            ListedSpec { stem: stem_of(files[k].name), meta: files[k].meta->0 },
        ),
    decreases n,
{
    let one = ListedSpec { stem: stem_of(files[k].name), meta: files[k].meta->0 };
    let before = complete_of(files, (n - 1) as nat);
    let now = complete_of(files, n);
    if k == n - 1 {
        assert(now[before.len() as int] == one);
    } else {
        complete_holds(files, (n - 1) as nat, k);
        let m = choose|m: int| 0 <= m < before.len() && before[m] == one;
        assert(now[m] == one);
    }
}

proof fn complete_comes_from(files: Seq<FileSpec>, n: nat, m: int) -> (k: int)
    requires
        n <= files.len(),
        0 <= m < complete_of(files, n).len(),
    ensures
        0 <= k < n,
        names_a_snapshot(files, k),
        complete_of(files, n)[m] == (ListedSpec {
            stem: stem_of(files[k].name),
            meta: files[k].meta->0,
        }),
    decreases n,
{
    let before = complete_of(files, (n - 1) as nat);
    if m < before.len() {
        complete_comes_from(files, (n - 1) as nat, m)
    } else {
        n - 1
    }
}

proof fn complete_are_few(files: Seq<FileSpec>, n: nat)
    ensures
        complete_of(files, n).len() <= n,
    decreases n,
{
    if n > 0 {
        complete_are_few(files, (n - 1) as nat);
    }
}

/// What a store lists are the snapshots that are complete: every one of them, nothing else, and
/// the one that was taken last first.
pub proof fn a_store_lists_what_is_complete(files: Seq<FileSpec>)
    requires
        files.len() <= usize::MAX,
    ensures
        forall|k: int| #[trigger]
            names_a_snapshot(files, k) ==> newest_first(files).contains(
                ListedSpec { stem: stem_of(files[k].name), meta: files[k].meta->0 },
            ),
        forall|m: int|
            0 <= m < newest_first(files).len() ==> listed_by_some(
                files,
                #[trigger] newest_first(files)[m],
            ),
        forall|a: int, b: int|
            0 <= a < b < newest_first(files).len() ==> {
                let one = (#[trigger] newest_first(files)[a]).meta.taken_at;
                let other = (#[trigger] newest_first(files)[b]).meta.taken_at;
                &&& one.secs >= other.secs
                &&& one.secs == other.secs ==> one.nanos >= other.nanos
            },
{
    let complete = complete_of(files, files.len());
    let list = newest_first(files);
    complete_are_few(files, files.len());
    arrangement_exists(complete);
    picked_in_order(complete, arrangement(complete));
    assert forall|k: int| #[trigger] names_a_snapshot(files, k) implies list.contains(
        ListedSpec { stem: stem_of(files[k].name), meta: files[k].meta->0 },
    ) by {
        let one = ListedSpec { stem: stem_of(files[k].name), meta: files[k].meta->0 };
        complete_holds(files, files.len(), k);
        sorting_keeps_what_is_there(complete, one);
    }
    assert forall|m: int| 0 <= m < list.len() implies listed_by_some(files, #[trigger] list[m]) by {
        assert(list.contains(list[m]));
        sorting_keeps_what_is_there(complete, list[m]);
        let c = choose|c: int| 0 <= c < complete.len() && complete[c] == list[m];
        let k = complete_comes_from(files, files.len(), c);
        assert(names_a_snapshot(files, k));
    }
    assert forall|a: int, b: int| 0 <= a < b < list.len() implies {
        let one = (#[trigger] list[a]).meta.taken_at;
        let other = (#[trigger] list[b]).meta.taken_at;
        &&& one.secs >= other.secs
        &&& one.secs == other.secs ==> one.nanos >= other.nanos
    } by {
        assert(list[a].le(list[b]));
    }
}

/// Whether a snapshot of a listing is that of some sidecar of the store.
pub open spec fn listed_by_some(files: Seq<FileSpec>, listed: ListedSpec) -> bool {
    exists|k: int| #[trigger]
        names_a_snapshot(files, k) && listed == (ListedSpec {
            stem: stem_of(files[k].name),
            meta: files[k].meta->0,
        })
}

/// The snapshot a scan is compared with is the first of the listing that was taken of the same
/// root, found by its payload in the folder of the store; there is none where no snapshot was
/// taken of that root.
pub proof fn a_scan_is_compared_with_the_newest_of_its_root(
    dir: Seq<char>,
    list: Seq<ListedSpec>,
    root: Seq<char>,
)
    ensures
        (forall|i: int| 0 <= i < list.len() ==> !same_path((#[trigger] list[i]).meta.root, root))
            ==> first_of_root(dir, list, root) is None,
        forall|m: int|
            0 <= m < list.len() && same_path((#[trigger] list[m]).meta.root, root) && (forall|i: int|
                0 <= i < m ==> !same_path((#[trigger] list[i]).meta.root, root))
                ==> first_of_root(dir, list, root) == Some(
                MetaSpec { path: joined(dir, list[m].stem + ".snap"@), ..list[m].meta },
            ),
    decreases list.len(),
{
    if list.len() > 0 && !same_path(list[0].meta.root, root) {
        let rest = list.drop_first();
        a_scan_is_compared_with_the_newest_of_its_root(dir, rest, root);
        assert forall|i: int| 0 <= i < rest.len() implies #[trigger] rest[i] == list[i + 1] by {}
        assert forall|m: int|
            0 <= m < list.len() && same_path((#[trigger] list[m]).meta.root, root) && (forall|i: int|
                0 <= i < m ==> !same_path((#[trigger] list[i]).meta.root, root)) implies first_of_root(
            dir,
            list,
            root,
        ) == Some(MetaSpec { path: joined(dir, list[m].stem + ".snap"@), ..list[m].meta }) by {
            assert(rest[m - 1] == list[m]);
            assert forall|i: int| 0 <= i < m - 1 implies !same_path(
                (#[trigger] rest[i]).meta.root,
                root,
            ) by {
                assert(rest[i] == list[i + 1]);
            }
        }
    }
}

/// Of the snapshots of a store those behind the `keep` newest are too many, and no others.
pub proof fn what_is_behind_the_newest_is_too_many(files: Seq<FileSpec>, keep: int)
    requires
        keep >= 0,
    ensures
        newest_first(files).len() <= keep ==> outdated(files, keep).len() == 0,
        newest_first(files).len() > keep ==> outdated(files, keep).len() == newest_first(
            files,
        ).len() - keep,
        forall|m: int|
            0 <= m < outdated(files, keep).len() ==> #[trigger] outdated(files, keep)[m]
                == newest_first(files)[keep + m],
{
}

/// What a pruning clears away besides: a file that was being written, a payload without its
/// sidecar, a sidecar that cannot be read together with its payload, and a sidecar without its
/// payload. A snapshot that is whole, and a file of any other kind, is left alone.
pub proof fn what_is_cleared_away(files: Seq<FileSpec>, file: FileSpec)
    ensures
        ({
            let stem = stem_of(file.name);
            let ends = extension_of(file.name);
            let sidecar = exists|k: int|
                0 <= k < files.len() && (#[trigger] files[k]).name == stem + ".json"@;
            let payload = exists|k: int|
                0 <= k < files.len() && (#[trigger] files[k]).name == stem + ".snap"@;
            &&& ends == Some("tmp"@) ==> goes_with(files, file) == seq![file.name]
            &&& ends == Some("snap"@) && sidecar ==> goes_with(files, file).len() == 0
            &&& ends == Some("snap"@) && !sidecar ==> goes_with(files, file) == seq![file.name]
            &&& ends == Some("json"@) && file.meta is None ==> goes_with(files, file) == seq![
                stem + ".snap"@,
                file.name,
            ]
            &&& ends == Some("json"@) && file.meta is Some && payload ==> goes_with(
                files,
                file,
            ).len() == 0
            &&& ends == Some("json"@) && file.meta is Some && !payload ==> goes_with(files, file)
                == seq![file.name]
            &&& ends != Some("tmp"@) && ends != Some("snap"@) && ends != Some("json"@) ==> goes_with(
                files,
                file,
            ).len() == 0
        }),
{
    extensions_differ();
    let stem = stem_of(file.name);
    assert(has_name(files, stem + ".json"@) == exists|k: int|
        0 <= k < files.len() && (#[trigger] files[k]).name == stem + ".json"@);
    assert(has_name(files, stem + ".snap"@) == exists|k: int|
        0 <= k < files.len() && (#[trigger] files[k]).name == stem + ".snap"@);
}

proof fn extensions_differ()
    ensures
        "tmp"@ != "snap"@,
        "tmp"@ != "json"@,
        "snap"@ != "json"@,
{
    reveal_strlit("tmp");
    reveal_strlit("snap");
    reveal_strlit("json");
    assert("tmp"@.len() == 3 && "snap"@.len() == 4);
    assert("snap"@[0] == 's' && "json"@[0] == 'j');
}

/// A stored snapshot whose instant or whose kinds cannot be read is none. One of another format is
/// told by that format; any other is read number by number.
pub proof fn what_is_read_of_a_stored_snapshot(payload: PayloadSpec)
    ensures
        ({
            let known = rfc3339_instant(payload.1) is Some && forall|i: int|
                0 <= i < payload.6.len() ==> 0 <= (#[trigger] payload.6[i]).1 <= 3;
            let read = payload_reading(payload);
            &&& !known ==> read is NoSnapshot
            &&& known && payload.0 != 1 ==> read == Reading::Format(payload.0)
            &&& known && payload.0 == 1 ==> {
                &&& read is Snapshot
                &&& read->Snapshot_0.format == 1
                &&& rfc3339_instant(payload.1) == Some(
                    (read->Snapshot_0.taken_at.secs, read->Snapshot_0.taken_at.nanos),
                )
                &&& read->Snapshot_0.root == payload.2
                &&& read->Snapshot_0.total_bytes == payload.3
                &&& read->Snapshot_0.file_count == payload.4
                &&& read->Snapshot_0.file_threshold == payload.5
                &&& read->Snapshot_0.entries.len() == payload.6.len()
                &&& forall|i: int|
                    0 <= i < payload.6.len() ==> {
                        let entry = #[trigger] read->Snapshot_0.entries[i];
                        let row = payload.6[i];
                        &&& entry.path == row.0
                        &&& entry.kind == match row.1 {
                            0u32 => NodeKind::Dir,
                            1u32 => NodeKind::File,
                            2u32 => NodeKind::Symlink,
                            _ => NodeKind::Other,
                        }
                        &&& entry.size == row.2
                        &&& entry.file_count == row.3
                        &&& entry.mtime == row.4
                    }
            }
        }),
{
    let rows = payload.6;
    assert forall|i: int| 0 <= i < rows.len() implies (kind_named((#[trigger] rows[i]).1) is Some
        <==> 0 <= rows[i].1 <= 3) by {}
    if forall|i: int| 0 <= i < rows.len() ==> 0 <= (#[trigger] rows[i]).1 <= 3 {
        assert(kinds_known(rows));
    } else {
        let i = choose|i: int| 0 <= i < rows.len() && !(0 <= (#[trigger] rows[i]).1 <= 3);
        assert(kind_named(rows[i].1) is None);
        assert(!kinds_known(rows));
    }
}

/// A snapshot of the list is told with where its payload lies; the rest is what its sidecar says.
/// The newest is the first of the list.
pub proof fn a_listed_snapshot_says_where_it_lies(dir: Seq<char>, list: Seq<ListedSpec>)
    ensures
        first_meta(dir, list) is None <==> list.len() == 0,
        list.len() > 0 ==> {
            let told = first_meta(dir, list)->0;
            &&& told.path == joined(dir, list[0].stem + ".snap"@)
            &&& told == (MetaSpec { path: told.path, ..list[0].meta })
        },
        placed_all(dir, list).len() == list.len(),
        forall|i: int|
            0 <= i < list.len() ==> {
                let told = #[trigger] placed_all(dir, list)[i];
                &&& told.path == joined(dir, list[i].stem + ".snap"@)
                &&& told == (MetaSpec { path: told.path, ..list[i].meta })
            },
{
}

} // verus!
