//! What the window can rely on.

use super::module_manager::{bytes_of, finished, held_items, involved, module_named, names_module};
use super::module_manager::{refreshed, rows_of, safe_bytes_of, shows_module, started_of, Found};
use super::module_manager::{forgetting_drops_these_and_no_others, ModuleManager, Row, Slot, Status};
use super::actions::{plans, refuses_all, skips_all, taken_for, touched_of};
use super::cleanup::{asked_of, changed_targets_of, records_cleanup, removed_of, settled, settles};
use super::cleanup::{spelling_of, Aftermath};
use super::scan_manager::{complete_answers, dirs_among, patches_from, says, snapshot_of, stats_of};
use super::scan_manager::{targeted, targets_exactly, ScanManager};
use super::views::{growth_fits, shows_child, shows_node, ModuleStatus, ModuleView, NodeView};
use super::views::{ScanState, ScanStatus, SizesSpec};
use crate::action::log::{LogEntry, LogResult};
use crate::action::model::{BlockReason, EntryOutcome, EntryResult, EntryResultSpec, EntryStatus};
use crate::action::model::{Mode, Outcome, Plan, Preview, Timestamp};
use crate::cleanup::model::{CleanupEntryOutcome, CleanupOutcome, Request};
use crate::index::{last_at_is, last_at_none};
use crate::module::{Descriptor, Item, Level};
use crate::order::{arrangement, arrangement_exists, multiset_sorted, picked_in_order, sorted, Ranked};
use crate::path::{file_name_of, joined, parts, within, PartSpec};
use crate::scan::progress::ProgressSnapshot;
use crate::scan::tree::laws::{find_inverts_path, names_plain, names_unique};
use crate::scan::tree::{chain_to, found_at, in_group, linked, parent_of, path_of, Cell, NodeId};
use crate::scan::tree::{NodeKind, Tree};
use crate::scan::walker::{ScanResult, ScanStats};
use crate::snapshot::delta::at_most_first;
use crate::snapshot::model::recorded_of;
use crate::text::{opt_text, text_le, texts};
use vstd::prelude::*;

verus! {

/// The bytes of the items that have one level.
pub open spec fn bytes_at(items: Seq<Item>, level: Level) -> nat
    decreases items.len(),
{
    if items.len() == 0 {
        0
    } else {
        bytes_at(items.drop_last(), level) + if items.last().verdict.level == level {
            items.last().size.bytes as nat
        } else {
            0
        }
    }
}

proof fn bytes_split_by_level(items: Seq<Item>, k: nat)
    requires
        k <= items.len(),
    ensures
        safe_bytes_of(items, k) == bytes_at(items.take(k as int), Level::Safe),
        bytes_of(items, k) == bytes_at(items.take(k as int), Level::Safe) + bytes_at(
            items.take(k as int),
            Level::Review,
        ) + bytes_at(items.take(k as int), Level::Keep),
    decreases k,
{
    if k > 0 {
        bytes_split_by_level(items, (k - 1) as nat);
        let now = items.take(k as int);
        assert(now.drop_last() =~= items.take(k - 1));
        assert(now.last() == items[k - 1]);
    }
}

proof fn bytes_with_one_more(items: Seq<Item>, at: int, item: Item, level: Level)
    requires
        0 <= at <= items.len(),
    ensures
        bytes_at(items.insert(at, item), level) == bytes_at(items, level) + if item.verdict.level
            == level {
            item.size.bytes as nat
        } else {
            0
        },
    decreases items.len(),
{
    let more = items.insert(at, item);
    if at == items.len() {
        assert(more.drop_last() =~= items);
        assert(more.last() == item);
    } else {
        assert(more.drop_last() =~= items.drop_last().insert(at, item));
        assert(more.last() == items.last());
        bytes_with_one_more(items.drop_last(), at, item, level);
    }
}

/// The bytes that are safe to go are those of the items whose level is Safe, and of no others:
/// with those to be looked at and those to keep they are all the bytes there are.
pub proof fn every_item_counts_at_its_level(view: ModuleView, descriptor: Descriptor, slot: Slot)
    requires
        shows_module(view, descriptor, slot),
    ensures
        slot.items is None ==> view.item_count == 0 && view.safe_bytes == 0 && view.total_bytes
            == 0,
        slot.items matches Some(items) ==> {
            &&& view.item_count == items@.len()
            &&& view.safe_bytes == bytes_at(items@, Level::Safe)
            &&& view.total_bytes == bytes_at(items@, Level::Safe) + bytes_at(items@, Level::Review)
                + bytes_at(items@, Level::Keep)
        },
{
    let items = held_items(slot);
    bytes_split_by_level(items, items.len());
    assert(items.take(items.len() as int) =~= items);
}

/// One more item, wherever it stands among the others, adds one to the count and its bytes to
/// the total. It adds its bytes to those safe to go if its level is Safe; if it is Review or
/// Keep, those stay as they were.
pub proof fn one_more_item_counts_by_its_level(
    descriptor: Descriptor,
    before: Slot,
    after: Slot,
    shown_before: ModuleView,
    shown_after: ModuleView,
    at: int,
    item: Item,
)
    requires
        shows_module(shown_before, descriptor, before),
        shows_module(shown_after, descriptor, after),
        before.items is Some,
        after.items is Some,
        0 <= at <= before.items->0@.len(),
        after.items->0@ == before.items->0@.insert(at, item),
    ensures
        shown_after.item_count == shown_before.item_count + 1,
        shown_after.total_bytes == shown_before.total_bytes + item.size.bytes,
        item.verdict.level == Level::Safe ==> shown_after.safe_bytes == shown_before.safe_bytes
            + item.size.bytes,
        item.verdict.level == Level::Review ==> shown_after.safe_bytes == shown_before.safe_bytes,
        item.verdict.level == Level::Keep ==> shown_after.safe_bytes == shown_before.safe_bytes,
{
    every_item_counts_at_its_level(shown_before, descriptor, before);
    every_item_counts_at_its_level(shown_after, descriptor, after);
    bytes_with_one_more(before.items->0@, at, item, Level::Safe);
    bytes_with_one_more(before.items->0@, at, item, Level::Review);
    bytes_with_one_more(before.items->0@, at, item, Level::Keep);
}

/// A discovery that finds items replaces what was held: the screen says the module is ready,
/// when that was, and how many items it found.
pub proof fn what_was_found_is_shown(
    descriptor: Descriptor,
    before: Slot,
    after: Slot,
    shown: ModuleView,
    items: Vec<Item>,
    now: Timestamp,
)
    requires
        finished(before, Found::Items(items), now, after),
        shows_module(shown, descriptor, after),
    ensures
        shown.status == ModuleStatus::Ready,
        shown.reason is None,
        shown.item_count == items@.len(),
        shown.safe_bytes == bytes_at(items@, Level::Safe),
        shown.discovered_at == Some(now),
{
    every_item_counts_at_its_level(shown, descriptor, after);
}

/// A refresh that runs, and one that failed, leave the counts and the date of the last discovery
/// on the screen as they were. Only the status changes, and after a failure the reason.
pub proof fn a_refresh_that_failed_does_not_empty_the_screen(
    descriptor: Descriptor,
    before: Slot,
    running: Slot,
    after: Slot,
    shown_before: ModuleView,
    shown_running: ModuleView,
    shown_after: ModuleView,
    message: String,
    now: Timestamp,
)
    requires
        refreshed(before, running, true),
        finished(running, Found::Failed(message), now, after),
        shows_module(shown_before, descriptor, before),
        shows_module(shown_running, descriptor, running),
        shows_module(shown_after, descriptor, after),
    ensures
        shown_running.status == ModuleStatus::Discovering,
        shown_running.reason is None,
        shown_running.item_count == shown_before.item_count,
        shown_running.total_bytes == shown_before.total_bytes,
        shown_running.safe_bytes == shown_before.safe_bytes,
        shown_running.discovered_at == shown_before.discovered_at,
        shown_after.status == ModuleStatus::Failed,
        opt_text(shown_after.reason) == Some(message@),
        shown_after.item_count == shown_before.item_count,
        shown_after.total_bytes == shown_before.total_bytes,
        shown_after.safe_bytes == shown_before.safe_bytes,
        shown_after.discovered_at == shown_before.discovered_at,
{
}

/// A module that became unavailable holds nothing any more: nothing could act on it.
pub proof fn an_unavailable_module_shows_nothing(
    descriptor: Descriptor,
    before: Slot,
    after: Slot,
    shown: ModuleView,
    reason: String,
    now: Timestamp,
)
    requires
        finished(before, Found::Unavailable(reason), now, after),
        shows_module(shown, descriptor, after),
    ensures
        shown.status == ModuleStatus::Unavailable,
        opt_text(shown.reason) == Some(reason@),
        shown.item_count == 0,
        shown.total_bytes == 0,
        shown.safe_bytes == 0,
        shown.discovered_at is None,
{
    every_item_counts_at_its_level(shown, descriptor, after);
}

/// The items on the screen are the largest of those that are held: they stand largest first, by
/// title where two are the same size, and none that the limit cuts off is larger than one that
/// is shown.
pub proof fn the_screen_lists_the_largest_first(slots: Seq<Slot>, limit: int)
    requires
        rows_of(slots, slots.len()).len() <= usize::MAX,
        limit >= 0,
    ensures
        ({
            let held = rows_of(slots, slots.len());
            let all = sorted(held);
            let shown = at_most_first(all, limit);
            &&& all.to_multiset() == held.to_multiset()
            &&& all.len() == held.len()
            &&& shown.len() == if held.len() <= limit {
                held.len() as int
            } else {
                limit
            }
            &&& forall|a: int| 0 <= a < shown.len() ==> #[trigger] shown[a] == all[a]
            &&& forall|a: int, b: int|
                0 <= a < b < all.len() ==> {
                    let one = (#[trigger] all[a]).item;
                    let other = (#[trigger] all[b]).item;
                    &&& one.size.bytes >= other.size.bytes
                    &&& one.size.bytes == other.size.bytes ==> text_le(one.title@, other.title@)
                }
        }),
{
    let held = rows_of(slots, slots.len());
    let all = sorted(held);
    arrangement_exists(held);
    picked_in_order(held, arrangement(held));
    multiset_sorted(held);
    assert forall|a: int, b: int| 0 <= a < b < all.len() implies {
        let one = (#[trigger] all[a]).item;
        let other = (#[trigger] all[b]).item;
        &&& one.size.bytes >= other.size.bytes
        &&& one.size.bytes == other.size.bytes ==> text_le(one.title@, other.title@)
    } by {
        assert(all[a].le(all[b]));
    }
}

/// Every held item is a row, and every row is an item that some module holds.
pub proof fn every_held_item_has_a_row(slots: Seq<Slot>, k: nat, s: int, i: int)
    requires
        k <= slots.len(),
        0 <= s < k,
        slots[s].items is Some,
        0 <= i < slots[s].items->0@.len(),
    ensures
        exists|m: int|
            0 <= m < rows_of(slots, k).len() && *(#[trigger] rows_of(slots, k)[m]).item
                == slots[s].items->0@[i],
    decreases k,
{
    let before = rows_of(slots, (k - 1) as nat);
    let now = rows_of(slots, k);
    if s == k - 1 {
        let more = held_items(slots[s]).map_values(|item: Item| Row { item: &item });
        assert(now[before.len() + i] == more[i]);
    } else {
        every_held_item_has_a_row(slots, (k - 1) as nat, s, i);
        let m = choose|m: int|
            0 <= m < before.len() && *(#[trigger] before[m]).item == slots[s].items->0@[i];
        assert(now[m] == before[m]);
    }
}

/// An item belongs to the module whose id stands before the first colon of the item's own id.
pub proof fn an_item_names_its_module(module: Seq<char>, rest: Seq<char>)
    requires
        !module.contains(':'),
    ensures
        module_named(module + seq![':'] + rest) == Some(module),
        module_named(module) is None,
    decreases module.len(),
{
    let id = module + seq![':'] + rest;
    if module.len() == 0 {
        assert(id[0] == ':');
        assert(module =~= Seq::empty());
    } else {
        let fewer = module.drop_first();
        assert(!fewer.contains(':')) by {
            if fewer.contains(':') {
                let k = choose|k: int| 0 <= k < fewer.len() && fewer[k] == ':';
                assert(module[k + 1] == ':');
            }
        }
        assert(module[0] != ':');
        an_item_names_its_module(fewer, rest);
        assert(id.drop_first() =~= fewer + seq![':'] + rest);
        assert(seq![module[0]] + fewer =~= module);
    }
}

/// The modules a batch touched are those that one of its items names: each of them, and no
/// other.
pub proof fn a_module_is_involved_when_an_item_names_it(
    registry: Seq<Descriptor>,
    items: Seq<Seq<char>>,
    k: nat,
    m: int,
)
    requires
        k <= registry.len(),
        0 <= m < k,
        !registry[m].id@.contains(':'),
    ensures
        involved(registry, items, k).contains(registry[m].id@) <==> exists|i: int|
            0 <= i < items.len() && begins_with_module(#[trigger] items[i], registry[m].id@),
    decreases k,
{
    let id = registry[m].id@;
    assert forall|i: int| 0 <= i < items.len() implies begins_with_module(#[trigger] items[i], id)
        == (module_named(items[i]) == Some(id)) by {
        naming_is_beginning(items[i], id);
    }
    involved_names(registry, items, k, m);
}

/// Whether the id of an item is that of a module, a colon and something.
pub open spec fn begins_with_module(item: Seq<char>, module: Seq<char>) -> bool {
    &&& module.len() < item.len()
    &&& item.take(module.len() as int) == module
    &&& item[module.len() as int] == ':'
}

proof fn naming_is_beginning(item: Seq<char>, id: Seq<char>)
    requires
        !id.contains(':'),
    ensures
        begins_with_module(item, id) == (module_named(item) == Some(id)),
{
    if begins_with_module(item, id) {
        let rest = item.skip((id.len() + 1) as int);
        assert(item =~= id + seq![':'] + rest);
        an_item_names_its_module(id, rest);
    }
    if module_named(item) == Some(id) {
        named_is_a_prefix(item);
    }
}

proof fn named_is_a_prefix(item: Seq<char>)
    requires
        module_named(item) is Some,
    ensures
        begins_with_module(item, module_named(item)->0),
    decreases item.len(),
{
    let name = module_named(item)->0;
    if item[0] == ':' {
        assert(item.take(0) =~= Seq::empty());
    } else {
        named_is_a_prefix(item.drop_first());
        let fewer = module_named(item.drop_first())->0;
        assert(name =~= seq![item[0]] + fewer);
        assert(item.drop_first().take(fewer.len() as int) == fewer);
        assert forall|k: int| 0 <= k < name.len() implies item.take(name.len() as int)[k]
            == name[k] by {
            if k > 0 {
                assert(item.drop_first().take(fewer.len() as int)[k - 1] == fewer[k - 1]);
            }
        }
        assert(item.take(name.len() as int) =~= name);
    }
}

proof fn involved_names(registry: Seq<Descriptor>, items: Seq<Seq<char>>, k: nat, m: int)
    requires
        k <= registry.len(),
        0 <= m < k,
    ensures
        involved(registry, items, k).contains(registry[m].id@) == names_module(
            items,
            registry[m].id@,
        ),
    decreases k,
{
    let id = registry[m].id@;
    involved_are_named(registry, items, k);
    let now = involved(registry, items, k);
    if names_module(items, id) {
        let before = involved(registry, items, (k - 1) as nat);
        if m == k - 1 {
            assert(now[before.len() as int] == id);
        } else {
            involved_names(registry, items, (k - 1) as nat, m);
            let at = choose|at: int| 0 <= at < before.len() && before[at] == id;
            assert(now[at] == id);
        }
    }
}

proof fn involved_are_named(registry: Seq<Descriptor>, items: Seq<Seq<char>>, k: nat)
    requires
        k <= registry.len(),
    ensures
        forall|a: int|
            0 <= a < involved(registry, items, k).len() ==> names_module(
                items,
                #[trigger] involved(registry, items, k)[a],
            ),
    decreases k,
{
    if k > 0 {
        involved_are_named(registry, items, (k - 1) as nat);
        let before = involved(registry, items, (k - 1) as nat);
        let now = involved(registry, items, k);
        assert forall|a: int| 0 <= a < now.len() implies names_module(items, #[trigger] now[a]) by {
            if a < before.len() {
                assert(now[a] == before[a]);
            }
        }
    }
}

/// A refresh starts every module it names, every module when it names none, and no other. Each
/// is started once, in the registry's order.
pub proof fn a_refresh_starts_what_it_names(
    registry: Seq<Descriptor>,
    slots: Seq<Slot>,
    ids: Seq<Seq<char>>,
    k: nat,
    m: int,
)
    requires
        k <= registry.len() <= usize::MAX,
        0 <= m < k,
    ensures
        (exists|a: int|
            0 <= a < started_of(registry, slots, ids, k).len() && (#[trigger] started_of(
                registry,
                slots,
                ids,
                k,
            )[a]).0 == m) <==> (ids.len() == 0 || ids.contains(registry[m].id@)),
        forall|a: int, b: int|
            0 <= a < b < started_of(registry, slots, ids, k).len() ==> (#[trigger] started_of(
                registry,
                slots,
                ids,
                k,
            )[a]).0 < (#[trigger] started_of(registry, slots, ids, k)[b]).0,
{
    started_in_order(registry, slots, ids, k);
    if ids.len() == 0 || ids.contains(registry[m].id@) {
        started_when_named(registry, slots, ids, k, m);
    }
}

proof fn started_in_order(registry: Seq<Descriptor>, slots: Seq<Slot>, ids: Seq<Seq<char>>, k: nat)
    requires
        k <= registry.len() <= usize::MAX,
    ensures
        ({
            let started = started_of(registry, slots, ids, k);
            &&& forall|a: int|
                0 <= a < started.len() ==> (#[trigger] started[a]).0 < k && (ids.len() == 0
                    || ids.contains(registry[started[a].0 as int].id@))
            &&& forall|a: int, b: int|
                0 <= a < b < started.len() ==> (#[trigger] started[a]).0 < (#[trigger] started[b]).0
        }),
    decreases k,
{
    if k > 0 {
        started_in_order(registry, slots, ids, (k - 1) as nat);
        let before = started_of(registry, slots, ids, (k - 1) as nat);
        let now = started_of(registry, slots, ids, k);
        assert forall|a: int| 0 <= a < now.len() implies (#[trigger] now[a]).0 < k && (ids.len()
            == 0 || ids.contains(registry[now[a].0 as int].id@)) by {
            if a < before.len() {
                assert(now[a] == before[a]);
            }
        }
        assert forall|a: int, b: int| 0 <= a < b < now.len() implies (#[trigger] now[a]).0 < (
        #[trigger] now[b]).0 by {
            assert(now[a] == before[a]);
            if b < before.len() {
                assert(now[b] == before[b]);
            }
        }
    }
}

proof fn started_when_named(
    registry: Seq<Descriptor>,
    slots: Seq<Slot>,
    ids: Seq<Seq<char>>,
    k: nat,
    m: int,
)
    requires
        k <= registry.len() <= usize::MAX,
        0 <= m < k,
        ids.len() == 0 || ids.contains(registry[m].id@),
    ensures
        exists|a: int|
            0 <= a < started_of(registry, slots, ids, k).len() && (#[trigger] started_of(
                registry,
                slots,
                ids,
                k,
            )[a]).0 == m,
    decreases k,
{
    let before = started_of(registry, slots, ids, (k - 1) as nat);
    let now = started_of(registry, slots, ids, k);
    if m == k - 1 {
        assert(now[before.len() as int].0 == m);
    } else {
        started_when_named(registry, slots, ids, (k - 1) as nat, m);
        let a = choose|a: int| 0 <= a < before.len() && (#[trigger] before[a]).0 == m;
        assert(now[a].0 == m);
    }
}

/// A row of a page says of a child what the child's own page says of it: its name, what it is and
/// takes, its error and its growth. It has children exactly where that page has any, and the
/// crumbs of that page are those of this one and the child.
pub proof fn a_row_says_what_the_page_behind_it_says(
    cells: Seq<Cell>,
    id: NodeId,
    limit: int,
    previous: Option<SizesSpec>,
    page: NodeView,
    k: int,
    behind: NodeView,
    other_limit: int,
)
    requires
        linked(cells),
        id < cells.len(),
        limit >= 0,
        other_limit >= 0,
        shows_node(page, cells, id, limit, previous),
        0 <= k < page.children@.len(),
        shows_node(behind, cells, page.children@[k].id, other_limit, previous),
    ensures
        ({
            let row = page.children@[k];
            &&& row.id < cells.len()
            &&& row.name@ == behind.name@
            &&& row.kind == behind.kind
            &&& row.size == behind.size
            &&& row.logical_size == behind.logical_size
            &&& row.file_count == behind.file_count
            &&& row.mtime == behind.mtime
            &&& opt_text(row.error) == opt_text(behind.error)
            &&& row.delta == behind.delta
            &&& row.has_children == (behind.children_total > 0)
            &&& behind.path@ == joined(page.path@, row.name@)
            &&& behind.breadcrumbs@.len() == page.breadcrumbs@.len() + 1
            &&& forall|c: int|
                0 <= c < page.breadcrumbs@.len() ==> (#[trigger] behind.breadcrumbs@[c]).id
                    == page.breadcrumbs@[c].id
            &&& behind.breadcrumbs@.last().id == row.id
        }),
{
    let row = page.children@[k];
    assert(shows_child(row, cells, id, k, previous));
    let at = cells[id as int].first + k;
    assert(k < cells[id as int].count);
    assert(in_group(cells, id as int, at));
    assert(cells[at].parent == id);
    assert(id < cells[id as int].first);
    assert(row.id == at);
    assert(parent_of(cells, at) == Some(id));
    let chain = chain_to(cells, id);
    assert(chain_to(cells, row.id) == chain.push(row.id));
    assert(behind.breadcrumbs@.len() == chain.len() + 1);
    assert forall|c: int| 0 <= c < page.breadcrumbs@.len() implies (
    #[trigger] behind.breadcrumbs@[c]).id == page.breadcrumbs@[c].id by {
        assert(chain.push(row.id)[c] == chain[c]);
        assert(page.breadcrumbs@[c].id == chain[c]);
    }
    assert(behind.breadcrumbs@[chain.len() as int].id == chain.push(row.id)[chain.len() as int]);
}

/// The growth of a page is its size less the one the previous snapshot has at its path, the last
/// where that has several. There is none where the snapshot has no such path, and none without a
/// snapshot.
pub proof fn growth_is_what_a_path_gained(
    cells: Seq<Cell>,
    id: NodeId,
    limit: int,
    previous: Option<SizesSpec>,
    page: NodeView,
)
    requires
        shows_node(page, cells, id, limit, previous),
        growth_fits(cells, previous),
        id < cells.len(),
        previous matches Some(known) ==> known.paths.len() == known.sizes.len(),
    ensures
        previous is None ==> page.delta is None,
        previous matches Some(known) ==> {
            &&& (forall|i: int|
                0 <= i < known.paths.len() ==> #[trigger] known.paths[i] != page.path@)
                ==> page.delta is None
            &&& forall|i: int|
                0 <= i < known.paths.len() && #[trigger] known.paths[i] == page.path@ && (forall|
                    j: int,
                |
                    i < j < known.paths.len() ==> #[trigger] known.paths[j] != page.path@)
                    ==> page.delta is Some && page.delta->0 == page.size - known.sizes[i]
        },
{
    if let Some(known) = previous {
        assert(cells[id as int].size <= i64::MAX);
        if forall|i: int| 0 <= i < known.paths.len() ==> #[trigger] known.paths[i] != page.path@ {
            last_at_none(known.paths, page.path@);
        }
        assert forall|i: int|
            0 <= i < known.paths.len() && #[trigger] known.paths[i] == page.path@ && (forall|j: int|
                i < j < known.paths.len() ==> #[trigger] known.paths[j] != page.path@) implies page.delta is Some
            && page.delta->0 == page.size - known.sizes[i] by {
            last_at_is(known.paths, page.path@, i);
            assert(known.sizes[i] <= i64::MAX);
        }
    }
}

/// The root of a scan is shown by the last name of its path, and everything else by its own name.
pub proof fn the_root_is_shown_by_its_last_name(
    cells: Seq<Cell>,
    id: NodeId,
    limit: int,
    previous: Option<SizesSpec>,
    page: NodeView,
)
    requires
        shows_node(page, cells, id, limit, previous),
        id < cells.len(),
    ensures
        id != 0 ==> page.name@ == cells[id as int].name,
        id == 0 && parts(cells[0].name).len() > 0 ==> match parts(cells[0].name).last() {
            PartSpec::Name(name) => page.name@ == name,
            _ => page.name@ == cells[0].name,
        },
{
}

/// While a scan runs its status follows the walk. Once there is a result the counts are those of
/// the result, whatever the walk said last, and a scan that does not run says nothing of a place
/// it is at and how long it took does not change any more.
pub proof fn a_status_follows_the_walk_while_it_runs(
    manager: ScanManager,
    one: ScanStatus,
    live: ProgressSnapshot,
    elapsed_ms: u64,
    other: ScanStatus,
    later: ProgressSnapshot,
    later_ms: u64,
)
    requires
        says(one, manager, live, elapsed_ms),
        says(other, manager, later, later_ms),
    ensures
        one.state == manager.state,
        one.has_previous == manager.previous_sizes is Some,
        one.previous_taken_at == manager.previous_taken_at,
        manager.result is None ==> one.files == live.files && one.dirs == live.dirs && one.bytes
            == live.bytes && one.errors == live.errors,
        manager.result matches Some(result) ==> one.files == result.stats.files && one.dirs
            == result.stats.dirs && one.bytes == result.stats.bytes && one.errors
            == result.stats.errors,
        manager.state == ScanState::Running ==> one.current_path@ == live.current_path@
            && one.duration_ms == elapsed_ms,
        manager.state != ScanState::Running ==> one.current_path@.len() == 0 && one.duration_ms
            == other.duration_ms == manager.duration_ms,
        manager.result is Some ==> one.files == other.files && one.dirs == other.dirs && one.bytes
            == other.bytes && one.errors == other.errors,
        opt_text(one.root) == opt_text(manager.root),
        opt_text(one.error) == opt_text(manager.error),
{
}

/// The directories of a tree that was patched are counted anew, all of them and nothing else; its
/// files and bytes are those of its root, and what the walk met on the way stays as it was.
pub proof fn a_patched_tree_is_counted_anew(stats: ScanStats, cells: Seq<Cell>)
    requires
        0 < cells.len() <= u32::MAX,
    ensures
        stats_of(stats, cells).dirs == cells.filter(|cell: Cell| cell.kind == NodeKind::Dir).len(),
        stats_of(stats, cells).files == cells[0].file_count,
        stats_of(stats, cells).bytes == cells[0].size,
        stats_of(stats, cells).errors == stats.errors,
        stats_of(stats, cells).hardlinks_skipped == stats.hardlinks_skipped,
{
    dirs_are_filtered(cells, cells.len());
    assert(cells.take(cells.len() as int) =~= cells);
}

proof fn dirs_are_filtered(cells: Seq<Cell>, k: nat)
    requires
        k <= cells.len(),
    ensures
        dirs_among(cells, k) == cells.take(k as int).filter(
            |cell: Cell| cell.kind == NodeKind::Dir,
        ).len(),
        dirs_among(cells, k) <= k,
    decreases k,
{
    let is_dir = |cell: Cell| cell.kind == NodeKind::Dir;
    reveal(Seq::filter);
    let now = cells.take(k as int);
    if k > 0 {
        dirs_are_filtered(cells, (k - 1) as nat);
        assert(now.drop_last() =~= cells.take(k - 1));
        assert(now.last() == cells[k - 1]);
    }
}

/// A path the user picked in the tree is planned as what the tree has there.
pub proof fn a_picked_path_is_planned_as_the_tree_has_it(result: ScanResult, id: NodeId)
    requires
        result.tree.wf(),
        names_plain(result.tree.cells()),
        names_unique(result.tree.cells()),
        id < result.tree.cells().len(),
    ensures
        taken_for(Some(result), path_of(result.tree.cells(), id as int)) == (
            result.tree.cells()[id as int].kind,
            result.tree.cells()[id as int].size,
        ),
        taken_for(None, path_of(result.tree.cells(), id as int)) == (NodeKind::Other, 0u64),
{
    find_inverts_path(result.tree, id);
}

/// The tree has to be looked at again where an entry was removed or failed, and nowhere else.
pub proof fn what_was_tried_may_have_changed(
    paths: Seq<Seq<char>>,
    entries: Seq<EntryOutcome>,
    k: nat,
) -> (at: Seq<int>)
    requires
        k <= paths.len(),
        k <= entries.len(),
    ensures
        at.len() == touched_of(paths, entries, k).len(),
        forall|a: int, b: int| 0 <= a < b < at.len() ==> (#[trigger] at[a]) < (#[trigger] at[b]),
        forall|m: int|
            0 <= m < at.len() ==> 0 <= #[trigger] at[m] < k && touched_of(paths, entries, k)[m]
                == paths[at[m]],
        forall|i: int|
            0 <= i < k ==> at.contains(i) == match (#[trigger] entries[i]).result {
                EntryResult::Removed { bytes } => true,
                EntryResult::Failed { message } => true,
                EntryResult::Skipped { reason } => false,
            },
    decreases k,
{
    if k == 0 {
        Seq::empty()
    } else {
        let before = what_was_tried_may_have_changed(paths, entries, (k - 1) as nat);
        let tried = match entries[k - 1].result {
            EntryResult::Removed { bytes } => true,
            EntryResult::Failed { message } => true,
            EntryResult::Skipped { reason } => false,
        };
        let at = if tried {
            before.push(k - 1)
        } else {
            before
        };
        assert forall|i: int| 0 <= i < k implies at.contains(i) == match (
        #[trigger] entries[i]).result {
            EntryResult::Removed { bytes } => true,
            EntryResult::Failed { message } => true,
            EntryResult::Skipped { reason } => false,
        } by {
            if i < k - 1 {
                if before.contains(i) {
                    let m = choose|m: int| 0 <= m < before.len() && before[m] == i;
                    assert(at[m] == i);
                }
                if at.contains(i) {
                    let m = choose|m: int| 0 <= m < at.len() && at[m] == i;
                    assert(before[m] == i);
                }
            } else if tried {
                assert(at[before.len() as int] == i);
            } else if at.contains(i) {
                let m = choose|m: int| 0 <= m < at.len() && at[m] == i;
                assert(at[m] < k - 1);
            }
        }
        at
    }
}

/// A rescan patches every node it got an answer for, with that answer, and no other; the tree is
/// complete when none is left without an answer.
pub proof fn every_answer_is_a_patch(
    ids: Seq<NodeId>,
    answers: Seq<Option<Option<Tree>>>,
    k: nat,
) -> (at: Seq<int>)
    requires
        k <= ids.len(),
        k <= answers.len(),
    ensures
        at.len() == patches_from(ids, answers, k).len(),
        forall|a: int, b: int| 0 <= a < b < at.len() ==> (#[trigger] at[a]) < (#[trigger] at[b]),
        forall|m: int|
            0 <= m < at.len() ==> 0 <= #[trigger] at[m] < k && answers[at[m]] is Some
                && patches_from(ids, answers, k)[m] == (ids[at[m]], answers[at[m]]->0),
        forall|i: int| 0 <= i < k && (#[trigger] answers[i]) is Some ==> at.contains(i),
        complete_answers(answers) <==> forall|i: int|
            0 <= i < answers.len() ==> !((#[trigger] answers[i]) is None),
    decreases k,
{
    if k == 0 {
        Seq::empty()
    } else {
        let before = every_answer_is_a_patch(ids, answers, (k - 1) as nat);
        if answers[k - 1] is Some {
            let at = before.push(k - 1);
            assert forall|i: int| 0 <= i < k && (#[trigger] answers[i]) is Some implies at.contains(
            i) by {
                if i < k - 1 {
                    let m = choose|m: int| 0 <= m < before.len() && before[m] == i;
                    assert(at[m] == i);
                } else {
                    assert(at[before.len() as int] == i);
                }
            }
            at
        } else {
            before
        }
    }
}

/// What a batch removed are the items of the entries that were removed, and no others.
pub proof fn only_what_was_removed_is_forgotten(
    entries: Seq<CleanupEntryOutcome>,
    k: nat,
    item: Seq<char>,
)
    requires
        k <= entries.len(),
    ensures
        removed_of(entries, k).contains(item) <==> exists|i: int|
            0 <= i < k && (#[trigger] entries[i]).item@ == item && entries[i].result is Removed,
    decreases k,
{
    let now = removed_of(entries, k);
    if k == 0 {
        assert(!now.contains(item));
    } else {
        only_what_was_removed_is_forgotten(entries, (k - 1) as nat, item);
        let before = removed_of(entries, (k - 1) as nat);
        let last = entries[k - 1];
        if now.contains(item) {
            let m = choose|m: int| 0 <= m < now.len() && now[m] == item;
            if m < before.len() {
                assert(before[m] == item);
            } else {
                assert(last.item@ == item && last.result is Removed);
            }
        }
        if before.contains(item) {
            let m = choose|m: int| 0 <= m < before.len() && before[m] == item;
            assert(now[m] == item);
        }
        if last.item@ == item && last.result is Removed {
            assert(now[before.len() as int] == item);
        }
    }
}

/// What the tree is looked at again for are the targets of the entries that were removed or
/// failed: a step that failed may have deleted something, and a skipped entry has not.
pub proof fn every_target_that_was_tried_is_looked_at_again(
    entries: Seq<CleanupEntryOutcome>,
    k: nat,
    path: Seq<char>,
)
    requires
        k <= entries.len(),
    ensures
        changed_targets_of(entries, k).contains(path) <==> exists|i: int|
            0 <= i < k && texts((#[trigger] entries[i]).targets@).contains(path) && !(
            entries[i].result is Skipped),
    decreases k,
{
    let now = changed_targets_of(entries, k);
    if k == 0 {
        assert(!now.contains(path));
    } else {
        every_target_that_was_tried_is_looked_at_again(entries, (k - 1) as nat, path);
        let before = changed_targets_of(entries, (k - 1) as nat);
        let last = entries[k - 1];
        let more = texts(last.targets@);
        if now.contains(path) {
            let m = choose|m: int| 0 <= m < now.len() && now[m] == path;
            if m < before.len() {
                assert(before[m] == path);
            } else {
                assert(more[m - before.len()] == path);
                assert(more.contains(path));
            }
        }
        if before.contains(path) {
            let m = choose|m: int| 0 <= m < before.len() && before[m] == path;
            assert(now[m] == path);
        }
        if more.contains(path) && !(last.result is Skipped) {
            let m = choose|m: int| 0 <= m < more.len() && more[m] == path;
            assert(now[before.len() + m] == path);
        }
    }
}

/// Once a batch is over no module holds an item that it removed, every module holds everything
/// else it held, and exactly the modules that an item of the batch names are looked through again.
pub proof fn a_batch_leaves_the_rest_held(
    before: ModuleManager,
    after: ModuleManager,
    requests: Seq<Request>,
    outcome: CleanupOutcome,
    rest: Aftermath,
    m: int,
)
    requires
        before.wf(),
        settles(before, after, requests, outcome, rest),
        0 <= m < before.registry@.len(),
        !before.registry@[m].id@.contains(':'),
    ensures
        forall|i: int, e: int|
            0 <= i < held_items(after.slots@[m]).len() && 0 <= e < outcome.entries@.len() ==> !((
            #[trigger] outcome.entries@[e]).result is Removed && outcome.entries@[e].item@ == (
            #[trigger] held_items(after.slots@[m])[i]).id@),
        forall|i: int|
            0 <= i < held_items(before.slots@[m]).len() && (forall|e: int|
                0 <= e < outcome.entries@.len() ==> !((#[trigger] outcome.entries@[e]).result is Removed
                    && outcome.entries@[e].item@ == held_items(before.slots@[m])[i].id@))
                ==> held_items(after.slots@[m]).contains(
                #[trigger] held_items(before.slots@[m])[i],
            ),
        ({
            let named = exists|r: int|
                0 <= r < requests.len() && begins_with_module(
                    (#[trigger] requests[r]).item@,
                    before.registry@[m].id@,
                );
            &&& named ==> after.slots@[m].status == Status::Discovering
                && after.slots@[m].generation == before.slots@[m].generation + 1
            &&& !named ==> after.slots@[m].status == before.slots@[m].status
                && after.slots@[m].generation == before.slots@[m].generation
        }),
{
    let gone = removed_of(outcome.entries@, outcome.entries@.len());
    let was = held_items(before.slots@[m]);
    let is = held_items(after.slots@[m]);
    let registry = before.registry@;
    let asked = asked_of(requests);
    let about = involved(registry, asked, registry.len());
    assert(settled(before.slots@[m], after.slots@[m], gone, about.contains(registry[m].id@)));
    if was.len() > 0 {
        forgetting_drops_these_and_no_others(was, gone, was.len(), 0);
    }
    assert forall|i: int, e: int|
        0 <= i < is.len() && 0 <= e < outcome.entries@.len() implies !((
    #[trigger] outcome.entries@[e]).result is Removed && outcome.entries@[e].item@ == (
    #[trigger] is[i]).id@) by {
        only_what_was_removed_is_forgotten(
            outcome.entries@,
            outcome.entries@.len(),
            is[i].id@,
        );
    }
    assert forall|i: int|
        0 <= i < was.len() && (forall|e: int|
            0 <= e < outcome.entries@.len() ==> !((#[trigger] outcome.entries@[e]).result is Removed
                && outcome.entries@[e].item@ == was[i].id@)) implies is.contains(
        #[trigger] was[i],
    ) by {
        only_what_was_removed_is_forgotten(
            outcome.entries@,
            outcome.entries@.len(),
            was[i].id@,
        );
        forgetting_drops_these_and_no_others(was, gone, was.len(), i);
    }
    a_module_is_involved_when_an_item_names_it(registry, asked, registry.len(), m);
    let id = registry[m].id@;
    if exists|r: int| 0 <= r < requests.len() && begins_with_module((#[trigger] requests[r]).item@, id) {
        let r = choose|r: int|
            0 <= r < requests.len() && begins_with_module((#[trigger] requests[r]).item@, id);
        assert(begins_with_module(asked[r], id));
    }
    if exists|i: int| 0 <= i < asked.len() && begins_with_module(#[trigger] asked[i], id) {
        let i = choose|i: int| 0 <= i < asked.len() && begins_with_module(#[trigger] asked[i], id);
        assert(begins_with_module(requests[i].item@, id));
    }
}

/// A line of the record says of a cleaned item where it was, or what it is called where it has no
/// path, how it left, and what that came to.
pub proof fn a_line_says_what_became_of_an_item(
    line: LogEntry,
    entry: CleanupEntryOutcome,
    at: Timestamp,
)
    requires
        records_cleanup(line, entry, at),
    ensures
        line.at == at,
        line.mode == entry.mode,
        entry.path matches Some(path) ==> line.path@ == path@,
        entry.path is None ==> line.path@ == entry.title@,
        entry.kind matches Some(kind) ==> line.kind == kind,
        entry.kind is None ==> line.kind == NodeKind::Other,
        entry.result matches EntryResult::Removed { bytes } ==> line.result == LogResult::Removed
            && line.bytes == bytes && line.detail is None,
        entry.result matches EntryResult::Failed { message } ==> line.result == LogResult::Failed
            && line.bytes == 0 && opt_text(line.detail) == Some(message@),
        entry.result is Skipped ==> line.result == LogResult::Skipped && line.bytes == 0
            && line.detail is Some,
{
}

/// A target of a batch is looked for in the tree the way the scan spelled its root: as it is where
/// it stands below that, and not at all where it is below neither that nor what that resolves to.
pub proof fn a_target_is_spelled_as_the_scan_spelled_it(
    target: Seq<char>,
    root: Seq<char>,
    resolved_root: Seq<char>,
    resolved_parent: Option<Seq<char>>,
)
    ensures
        within(target, root) ==> spelling_of(target, root, resolved_root, resolved_parent) == Some(
            target,
        ),
        !within(target, root) && resolved_parent is None ==> spelling_of(
            target,
            root,
            resolved_root,
            resolved_parent,
        ) is None,
        !within(target, root) && resolved_parent is Some && file_name_of(target) is Some && !within(
            joined(resolved_parent->0, file_name_of(target)->0),
            resolved_root,
        ) ==> spelling_of(target, root, resolved_root, resolved_parent) is None,
{
}

/// The limits the window works with.
pub proof fn the_limits_of_the_window()
    ensures
        super::commands::DEFAULT_CHILDREN_LIMIT == 500,
        super::commands::DEFAULT_GROWERS_LIMIT == 10,
        super::scan_manager::GROWERS_KEPT == 50,
        super::scan_manager::PROGRESS_INTERVAL == 250,
        super::cleanup::DEFAULT_ITEMS_LIMIT == 2000,
        crate::snapshot::DEFAULT_KEEP == 10,
        crate::snapshot::DEFAULT_FILE_THRESHOLD == 10 * 1024 * 1024,
{
}

/// A batch is planned path by path, in the order in which they were picked.
pub proof fn a_batch_is_planned_path_by_path(
    plan: Plan,
    result: ScanResult,
    paths: Seq<Seq<char>>,
    mode: Mode,
    i: int,
    id: NodeId,
)
    requires
        plans(plan, Some(result), paths, mode),
        result.tree.wf(),
        names_plain(result.tree.cells()),
        names_unique(result.tree.cells()),
        id < result.tree.cells().len(),
        0 <= i < paths.len(),
        paths[i] == path_of(result.tree.cells(), id as int),
    ensures
        plan.mode == mode,
        plan.entries@.len() == paths.len(),
        plan.entries@[i].path@ == paths[i],
        plan.entries@[i].kind == result.tree.cells()[id as int].kind,
        plan.entries@[i].size == result.tree.cells()[id as int].size,
{
    find_inverts_path(result.tree, id);
}

/// Where no scan says what may go, a batch promises nothing and removes nothing: every entry of it
/// is refused as outside of what was scanned, under its own path.
pub proof fn without_a_scan_nothing_goes(plan: Plan, shown: Preview, outcome: Outcome, at: Timestamp, i: int)
    requires
        refuses_all(shown, plan),
        skips_all(outcome, plan, at),
        0 <= i < plan.entries@.len(),
    ensures
        shown.mode == plan.mode,
        shown.total_bytes == 0,
        shown.entries@.len() == plan.entries@.len(),
        shown.entries@[i].path@ == plan.entries@[i].path@,
        shown.entries@[i].kind == plan.entries@[i].kind,
        shown.entries@[i].size == plan.entries@[i].size,
        shown.entries@[i].status == EntryStatus::Blocked(BlockReason::OutsideRoots),
        outcome.at == at,
        outcome.mode == plan.mode,
        outcome.freed_bytes == 0,
        outcome.entries@.len() == plan.entries@.len(),
        outcome.entries@[i].path@ == plan.entries@[i].path@,
        outcome.entries@[i].kind == plan.entries@[i].kind,
        outcome.entries@[i].result@ == EntryResultSpec::Skipped(BlockReason::OutsideRoots),
{
}

/// The snapshot of a scan is of the instant at which the scan began, of its root and with the
/// totals of the whole tree. It records files from ten mebibytes on.
pub proof fn a_snapshot_is_of_its_scan(result: ScanResult)
    ensures
        snapshot_of(result).format == 1,
        snapshot_of(result).taken_at == result.started_at,
        snapshot_of(result).root == result.root@,
        snapshot_of(result).total_bytes == result.tree.cells()[0].size,
        snapshot_of(result).file_count == result.tree.cells()[0].file_count,
        snapshot_of(result).file_threshold == 10 * 1024 * 1024,
        snapshot_of(result).entries == recorded_of(
            result.tree.cells(),
            10_485_760,
            result.tree.cells().len(),
        ),
{
}

/// A node whose path is asked for is looked at again, the root alone excepted, and no node of
/// which no path asks.
pub proof fn what_is_asked_for_is_looked_at_again(
    tree: Tree,
    paths: Seq<Seq<char>>,
    ids: Seq<NodeId>,
    id: NodeId,
)
    requires
        tree.wf(),
        names_plain(tree.cells()),
        names_unique(tree.cells()),
        id < tree.cells().len(),
        targets_exactly(ids, tree.cells(), paths),
    ensures
        !ids.contains(0),
        id != 0 && paths.contains(path_of(tree.cells(), id as int)) ==> ids.contains(id),
        ids.contains(id) ==> exists|k: int|
            0 <= k < paths.len() && found_at(tree.cells(), #[trigger] paths[k]) == Some(id),
        ids.no_duplicates(),
{
    find_inverts_path(tree, id);
    let path = path_of(tree.cells(), id as int);
    if id != 0 && paths.contains(path) {
        let k = choose|k: int| 0 <= k < paths.len() && paths[k] == path;
        assert(found_at(tree.cells(), paths[k]) == Some(id));
        assert(targeted(tree.cells(), paths, id));
    }
    assert(!targeted(tree.cells(), paths, 0));
    assert forall|a: int, b: int|
        0 <= a < ids.len() && 0 <= b < ids.len() && a != b implies ids[a] != ids[b] by {
        if a < b {
            assert(ids[a] < ids[b]);
        } else {
            assert(ids[b] < ids[a]);
        }
    }
}

} // verus!
