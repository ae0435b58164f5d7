//! The cleanup modules of the window: at most one discovery per module at a time, and the
//! items of every module's last discovery that succeeded, kept for the Cleanup screen and
//! for the batches. Nothing here is persisted: a launch starts with every module idle.

use super::scan_manager::{panic_text, panic_text_of};
use super::views::{ModuleStatus, ModuleView};
use crate::action::model::Timestamp;
use crate::module::{module_error_text, Descriptor, Item, Level, ModuleError};
use crate::order::{sort, sorted, Ranked, Sortable};
use crate::snapshot::delta::at_most_first;
use crate::text::{at_most, bytes_le_total, bytes_le_transitive, chars_of, from_chars, opt_text};
use crate::text::{same, text_le, texts};
use vstd::prelude::*;
use vstd::utf8::encode_utf8;

verus! {

pub const MODULES_STATE_EVENT: &'static str = "modules:state";

/// Where a module stands, with the words for it.
#[derive(Debug, Clone, PartialEq, Eq)]
pub enum Status {
    Idle,
    Discovering,
    Ready,
    Unavailable(String),
    Failed(String),
}

/// What is held of one module.
#[derive(Debug)]
pub struct Slot {
    pub status: Status,
    /// The items of the last discovery that succeeded. Kept while a refresh runs and when one
    /// fails, since a refresh that failed does not empty the screen, and dropped when the
    /// module becomes unavailable, since nothing could act on them then.
    pub items: Option<Vec<Item>>,
    pub discovered_at: Option<Timestamp>,
    /// Bumped by every refresh, so that a discovery that finishes after a newer one started
    /// is dropped rather than installed over it.
    pub generation: u64,
}

/// What one discovery found.
#[derive(Debug)]
pub enum Found {
    Items(Vec<Item>),
    Unavailable(String),
    Failed(String),
}

impl Found {
    /// What a discovery on a machine without a home folder comes to.
    pub fn without_home() -> (found: Found)
        ensures
            found matches Found::Failed(message) && message@ == "cannot determine the home folder"@,
    {
        Found::Failed("cannot determine the home folder".to_owned())
    }

    /// What the answer of a module that is available comes to.
    pub fn of(answer: Result<Vec<Item>, ModuleError>) -> (found: Found)
        ensures
            match (answer, found) {
                (Ok(items), Found::Items(expected)) => items == expected,
                (Err(error), Found::Failed(message)) => message@ == module_error_text(error),
                _ => false,
            },
    {
        match answer {
            Ok(items) => Found::Items(items),
            Err(error) => Found::Failed(error.message()),
        }
    }
}

/// What is said of a module that panicked.
pub fn panicked(said: Option<&str>) -> (text: String)
    ensures
        text@ == "the module panicked: "@ + panic_text_of(crate::paths::opt_str(said)),
{
    let mut text: String = "the module panicked: ".to_owned();
    text.append(&panic_text(said));
    text
}

/// The items a slot holds.
pub open spec fn held_items(slot: Slot) -> Seq<Item> {
    match slot.items {
        Some(items) => items@,
        None => Seq::empty(),
    }
}

/// The bytes of the first `k` items.
pub open spec fn bytes_of(items: Seq<Item>, k: nat) -> nat
    decreases k,
{
    if k == 0 {
        0
    } else {
        bytes_of(items, (k - 1) as nat) + items[k - 1].size.bytes as nat
    }
}

/// The bytes of the first `k` items that are safe to go.
pub open spec fn safe_bytes_of(items: Seq<Item>, k: nat) -> nat
    decreases k,
{
    if k == 0 {
        0
    } else {
        safe_bytes_of(items, (k - 1) as nat) + if items[k - 1].verdict.level == Level::Safe {
            items[k - 1].size.bytes as nat
        } else {
            0
        }
    }
}

/// Whether the bytes of what a slot holds can be counted.
pub open spec fn countable(slot: Slot) -> bool {
    bytes_of(held_items(slot), held_items(slot).len()) <= u64::MAX
}

proof fn bytes_rise(items: Seq<Item>, k: nat, n: nat)
    requires
        k <= n,
    ensures
        bytes_of(items, k) <= bytes_of(items, n),
        safe_bytes_of(items, k) <= bytes_of(items, k),
    decreases n,
{
    if k < n {
        bytes_rise(items, k, (n - 1) as nat);
    } else if n > 0 {
        bytes_rise(items, (n - 1) as nat, (n - 1) as nat);
    }
}

/// The status that is shown, and the words for it.
pub open spec fn status_shown(status: Status) -> (ModuleStatus, Option<Seq<char>>) {
    match status {
        Status::Idle => (ModuleStatus::Idle, None),
        Status::Discovering => (ModuleStatus::Discovering, None),
        Status::Ready => (ModuleStatus::Ready, None),
        Status::Unavailable(reason) => (ModuleStatus::Unavailable, Some(reason@)),
        Status::Failed(message) => (ModuleStatus::Failed, Some(message@)),
    }
}

/// Whether `view` is how a module is shown.
pub open spec fn shows_module(view: ModuleView, descriptor: Descriptor, slot: Slot) -> bool {
    let items = held_items(slot);
    &&& view.id@ == descriptor.id@
    &&& view.name@ == descriptor.name@
    &&& view.description@ == descriptor.description@
    &&& view.status == status_shown(slot.status).0
    &&& opt_text(view.reason) == status_shown(slot.status).1
    &&& view.item_count == items.len()
    &&& view.total_bytes == bytes_of(items, items.len())
    &&& view.safe_bytes == safe_bytes_of(items, items.len())
    &&& view.discovered_at == slot.discovered_at
}

/// A module as the screen shows it. The totals are over the items it holds, which is what the
/// screen lists, also while a refresh runs and after one failed.
pub fn view(descriptor: &Descriptor, slot: &Slot) -> (shown: ModuleView)
    requires
        countable(*slot),
    ensures
        shows_module(shown, *descriptor, *slot),
{
    let (status, reason): (ModuleStatus, Option<String>) = match &slot.status {
        Status::Idle => (ModuleStatus::Idle, None),
        Status::Discovering => (ModuleStatus::Discovering, None),
        Status::Ready => (ModuleStatus::Ready, None),
        Status::Unavailable(reason) => (ModuleStatus::Unavailable, Some(reason.clone())),
        Status::Failed(message) => (ModuleStatus::Failed, Some(message.clone())),
    };
    let (item_count, total_bytes, safe_bytes): (usize, u64, u64) = match &slot.items {
        Some(items) => count(items),
        None => (0, 0, 0),
    };
    ModuleView {
        id: descriptor.id.clone(),
        name: descriptor.name.clone(),
        description: descriptor.description.clone(),
        status,
        reason,
        item_count,
        total_bytes,
        safe_bytes,
        discovered_at: slot.discovered_at,
    }
}

fn count(items: &Vec<Item>) -> (counted: (usize, u64, u64))
    requires
        bytes_of(items@, items@.len()) <= u64::MAX,
    ensures
        counted.0 == items@.len(),
        counted.1 == bytes_of(items@, items@.len()),
        counted.2 == safe_bytes_of(items@, items@.len()),
{
    let mut total: u64 = 0;
    let mut safe: u64 = 0;
    let mut i: usize = 0;
    while i < items.len()
        invariant
            i <= items.len(),
            bytes_of(items@, items@.len()) <= u64::MAX,
            total == bytes_of(items@, i as nat),
            safe == safe_bytes_of(items@, i as nat),
        decreases items.len() - i,
    {
        proof {
            bytes_rise(items@, (i + 1) as nat, items@.len());
            bytes_rise(items@, i as nat, items@.len());
        }
        total = total + items[i].size.bytes;
        if items[i].verdict.level == Level::Safe {
            safe = safe + items[i].size.bytes;
        }
        i += 1;
    }
    (items.len(), total, safe)
}

/// An item on the screen.
pub struct Row<'a> {
    pub item: &'a Item,
}

/// The order of the screen: the largest first, and by title where two are the same size.
pub open spec fn larger_then_title(a: Item, b: Item) -> bool {
    a.size.bytes > b.size.bytes || (a.size.bytes == b.size.bytes && text_le(a.title@, b.title@))
}

impl<'a> Ranked for Row<'a> {
    open spec fn le(self, other: Self) -> bool {
        larger_then_title(*self.item, *other.item)
    }

    proof fn le_total(a: Self, b: Self) {
        bytes_le_total(encode_utf8(a.item.title@), encode_utf8(b.item.title@));
    }

    proof fn le_transitive(a: Self, b: Self, c: Self) {
        if a.item.size.bytes == b.item.size.bytes && b.item.size.bytes == c.item.size.bytes {
            bytes_le_transitive(
                encode_utf8(a.item.title@),
                encode_utf8(b.item.title@),
                encode_utf8(c.item.title@),
            );
        }
    }
}

impl<'a> Sortable for Row<'a> {
    fn at_most(&self, other: &Self) -> bool {
        self.item.size.bytes > other.item.size.bytes || (self.item.size.bytes
            == other.item.size.bytes && at_most(&self.item.title, &other.item.title))
    }
}

/// The rows of the first `k` slots, in their order.
pub open spec fn rows_of(slots: Seq<Slot>, k: nat) -> Seq<Row<'static>>
    decreases k,
{
    if k == 0 {
        Seq::empty()
    } else {
        rows_of(slots, (k - 1) as nat) + held_items(slots[k - 1]).map_values(
            |item: Item| Row { item: &item },
        )
    }
}

/// The items of a batch that do not have one of these ids, of the first `k`.
pub open spec fn kept_items(items: Seq<Item>, ids: Seq<Seq<char>>, k: nat) -> Seq<Item>
    decreases k,
{
    if k == 0 {
        Seq::empty()
    } else {
        let before = kept_items(items, ids, (k - 1) as nat);
        if ids.contains(items[k - 1].id@) {
            before
        } else {
            before.push(items[k - 1])
        }
    }
}

/// The module an item belongs to: what stands before the first colon of its id.
pub open spec fn module_named(item: Seq<char>) -> Option<Seq<char>>
    decreases item.len(),
{
    if item.len() == 0 {
        None
    } else if item[0] == ':' {
        Some(Seq::empty())
    } else {
        match module_named(item.drop_first()) {
            Some(rest) => Some(seq![item[0]] + rest),
            None => None,
        }
    }
}

/// The modules these items belong to, of the first `k`.
pub open spec fn involved(registry: Seq<Descriptor>, items: Seq<Seq<char>>, k: nat) -> Seq<Seq<char>>
    decreases k,
{
    if k == 0 {
        Seq::empty()
    } else {
        let before = involved(registry, items, (k - 1) as nat);
        let id = registry[k - 1].id@;
        if names_module(items, id) {
            before.push(id)
        } else {
            before
        }
    }
}

/// Whether one of the items belongs to the module.
pub open spec fn names_module(items: Seq<Seq<char>>, id: Seq<char>) -> bool {
    exists|i: int| 0 <= i < items.len() && module_named(#[trigger] items[i]) == Some(id)
}

/// Whether a refresh of `ids` is of this module: no ids at all mean every module.
pub open spec fn refreshes(ids: Seq<Seq<char>>, id: Seq<char>) -> bool {
    ids.len() == 0 || ids.contains(id)
}

/// The modules a refresh starts, of the first `k`, each with the generation it starts under.
pub open spec fn started_of(
    registry: Seq<Descriptor>,
    slots: Seq<Slot>,
    ids: Seq<Seq<char>>,
    k: nat,
) -> Seq<(usize, u64)>
    decreases k,
{
    if k == 0 {
        Seq::empty()
    } else {
        let before = started_of(registry, slots, ids, (k - 1) as nat);
        if refreshes(ids, registry[k - 1].id@) {
            before.push(((k - 1) as usize, (slots[k - 1].generation + 1) as u64))
        } else {
            before
        }
    }
}

/// Whether a refresh makes `after` of the slot `before`.
pub open spec fn refreshed(before: Slot, after: Slot, starts: bool) -> bool {
    if starts {
        &&& after.generation == before.generation + 1
        &&& after.status == Status::Discovering
        &&& after.items == before.items
        &&& after.discovered_at == before.discovered_at
    } else {
        after == before
    }
}

/// Whether finishing a discovery makes `after` of the slot `before`.
pub open spec fn finished(before: Slot, found: Found, now: Timestamp, after: Slot) -> bool {
    &&& after.generation == before.generation
    &&& match found {
        Found::Items(items) => {
            &&& after.status == Status::Ready
            &&& after.items == Some(items)
            &&& after.discovered_at == Some(now)
        },
        Found::Unavailable(reason) => {
            &&& after.status == Status::Unavailable(reason)
            &&& after.items is None
            &&& after.discovered_at is None
        },
        Found::Failed(message) => {
            &&& after.status == Status::Failed(message)
            &&& after.items == before.items
            &&& after.discovered_at == before.discovered_at
        },
    }
}

/// The registry of the build, and where each module stands.
#[derive(Debug)]
pub struct ModuleManager {
    pub registry: Vec<Descriptor>,
    /// `None` only on a machine where the home folder cannot be determined: every discovery
    /// then fails with that sentence, and no batch runs.
    pub home: Option<String>,
    /// One per module of `registry`, in the same order.
    pub slots: Vec<Slot>,
}

fn find_in(ids: &Vec<String>, id: &str) -> (r: bool)
    ensures
        r == texts(ids@).contains(id@),
{
    let mut k: usize = 0;
    while k < ids.len()
        invariant
            k <= ids.len(),
            forall|x: int| 0 <= x < k ==> (#[trigger] texts(ids@)[x]) != id@,
        decreases ids.len() - k,
    {
        assert(texts(ids@)[k as int] == ids@[k as int]@);
        if same(&ids[k], id) {
            return true;
        }
        k += 1;
    }
    false
}

/// The module an item belongs to.
fn name_module(item: &str) -> (module: Option<String>)
    ensures
        opt_text(module) == module_named(item@),
{
    let chars: Vec<char> = chars_of(item);
    let mut i: usize = 0;
    assert(chars@.skip(0) =~= chars@);
    while i < chars.len() && chars[i] != ':'
        invariant
            i <= chars.len(),
            module_named(chars@) == match module_named(chars@.skip(i as int)) {
                Some(rest) => Some(chars@.take(i as int) + rest),
                None => None,
            },
        decreases chars.len() - i,
    {
        let ghost here = chars@.skip(i as int);
        assert(here.drop_first() =~= chars@.skip(i + 1));
        assert(here[0] == chars@[i as int]);
        proof {
            match module_named(chars@.skip(i + 1)) {
                Some(rest) => {
                    assert(chars@.take(i as int) + (seq![chars@[i as int]] + rest) =~= chars@.take(
                        i + 1,
                    ) + rest);
                },
                None => {},
            }
        }
        i += 1;
    }
    if i < chars.len() {
        assert(chars@.skip(i as int)[0] == ':');
        assert(chars@.take(i as int) + Seq::<char>::empty() =~= chars@.take(i as int));
        assert(chars@.subrange(0, i as int) =~= chars@.take(i as int));
        Some(from_chars(&chars, 0, i))
    } else {
        assert(chars@.skip(i as int).len() == 0);
        None
    }
}

impl ModuleManager {
    /// One slot per module.
    pub open spec fn wf(self) -> bool {
        self.slots@.len() == self.registry@.len()
    }

    pub fn new(registry: Vec<Descriptor>, home: Option<String>) -> (manager: ModuleManager)
        ensures
            manager.wf(),
            manager.registry == registry,
            manager.home == home,
            forall|i: int|
                0 <= i < manager.slots@.len() ==> {
                    &&& (#[trigger] manager.slots@[i]).status == Status::Idle
                    &&& manager.slots@[i].items is None
                    &&& manager.slots@[i].discovered_at is None
                    &&& manager.slots@[i].generation == 0
                },
    {
        let mut slots: Vec<Slot> = Vec::new();
        let mut i: usize = 0;
        while i < registry.len()
            invariant
                i <= registry.len(),
                slots@.len() == i,
                forall|k: int|
                    0 <= k < i ==> {
                        &&& (#[trigger] slots@[k]).status == Status::Idle
                        &&& slots@[k].items is None
                        &&& slots@[k].discovered_at is None
                        &&& slots@[k].generation == 0
                    },
            decreases registry.len() - i,
        {
            slots.push(
                Slot { status: Status::Idle, items: None, discovered_at: None, generation: 0 },
            );
            i += 1;
        }
        ModuleManager { registry, home, slots }
    }

    /// The home folder the guards of a cleanup batch are built from.
    pub fn home(&self) -> (home: Option<&str>)
        ensures
            crate::paths::opt_str(home) == opt_text(self.home),
    {
        match &self.home {
            Some(home) => Some(home.as_str()),
            None => None,
        }
    }

    /// Every module, in the registry's order.
    pub fn list(&self) -> (views: Vec<ModuleView>)
        requires
            self.wf(),
            forall|i: int| 0 <= i < self.slots@.len() ==> countable(#[trigger] self.slots@[i]),
        ensures
            views@.len() == self.registry@.len(),
            forall|i: int|
                0 <= i < views@.len() ==> shows_module(
                    #[trigger] views@[i],
                    self.registry@[i],
                    self.slots@[i],
                ),
    {
        let mut views: Vec<ModuleView> = Vec::new();
        let mut i: usize = 0;
        while i < self.registry.len()
            invariant
                i <= self.registry.len(),
                self.wf(),
                forall|i: int| 0 <= i < self.slots@.len() ==> countable(#[trigger] self.slots@[i]),
                views@.len() == i,
                forall|k: int|
                    0 <= k < i ==> shows_module(
                        #[trigger] views@[k],
                        self.registry@[k],
                        self.slots@[k],
                    ),
            decreases self.registry.len() - i,
        {
            views.push(view(&self.registry[i], &self.slots[i]));
            i += 1;
        }
        views
    }

    /// Marks every module named in `ids`, every module when `ids` is empty, as discovering:
    /// which they are, and the generation each discovery runs under. An id no module has is
    /// ignored. A module already discovering is started again: its older discovery is dropped
    /// when it finishes, whatever it found.
    pub fn refresh(&mut self, ids: &Vec<String>) -> (started: Vec<(usize, u64)>)
        requires
            old(self).wf(),
            forall|i: int|
                0 <= i < old(self).slots@.len() ==> (#[trigger] old(self).slots@[i]).generation
                    < u64::MAX,
        ensures
            final(self).wf(),
            final(self).registry == old(self).registry,
            final(self).home == old(self).home,
            forall|i: int|
                0 <= i < final(self).slots@.len() ==> refreshed(
                    old(self).slots@[i],
                    #[trigger] final(self).slots@[i],
                    refreshes(texts(ids@), final(self).registry@[i].id@),
                ),
            started@ == started_of(
                old(self).registry@,
                old(self).slots@,
                texts(ids@),
                old(self).registry@.len(),
            ),
    {
        let mut started: Vec<(usize, u64)> = Vec::new();
        let ghost before = self.slots@;
        let ghost asked = texts(ids@);
        let count: usize = self.registry.len();
        let mut i: usize = 0;
        while i < count
            invariant
                i <= count,
                count == self.registry@.len(),
                self.registry == old(self).registry,
                self.home == old(self).home,
                self.wf(),
                before.len() == self.slots@.len(),
                before == old(self).slots@,
                asked == texts(ids@),
                forall|k: int| 0 <= k < before.len() ==> (#[trigger] before[k]).generation < u64::MAX,
                forall|k: int|
                    0 <= k < i ==> refreshed(
                        before[k],
                        #[trigger] self.slots@[k],
                        refreshes(asked, self.registry@[k].id@),
                    ),
                forall|k: int| i <= k < before.len() ==> #[trigger] self.slots@[k] == before[k],
                started@ == started_of(self.registry@, before, asked, i as nat),
            decreases count - i,
        {
            assert(self.slots@[i as int] == before[i as int]);
            assert(asked.len() == ids@.len());
            if ids.len() == 0 || find_in(ids, &self.registry[i].id) {
                let generation: u64 = self.slots[i].generation + 1;
                self.slots[i].generation = generation;
                self.slots[i].status = Status::Discovering;
                started.push((i, generation));
            }
            i += 1;
        }
        started
    }

    /// Installs what a discovery found, unless a newer refresh has started since, and says
    /// whether it did.
    pub fn finish(&mut self, index: usize, generation: u64, found: Found, now: Timestamp) -> (installed:
        bool)
        requires
            old(self).wf(),
            index < old(self).slots@.len(),
        ensures
            final(self).wf(),
            final(self).registry == old(self).registry,
            final(self).home == old(self).home,
            installed == (old(self).slots@[index as int].generation == generation),
            !installed ==> final(self).slots@ == old(self).slots@,
            installed ==> finished(
                old(self).slots@[index as int],
                found,
                now,
                final(self).slots@[index as int],
            ),
            forall|i: int|
                0 <= i < old(self).slots@.len() && i != index ==> #[trigger] final(self).slots@[i]
                    == old(self).slots@[i],
    {
        if self.slots[index].generation != generation {
            return false;
        }
        match found {
            Found::Items(items) => {
                self.slots[index].status = Status::Ready;
                self.slots[index].items = Some(items);
                self.slots[index].discovered_at = Some(now);
            },
            Found::Unavailable(reason) => {
                self.slots[index].status = Status::Unavailable(reason);
                self.slots[index].items = None;
                self.slots[index].discovered_at = None;
            },
            Found::Failed(message) => {
                self.slots[index].status = Status::Failed(message);
            },
        }
        true
    }

    /// Every held item, largest first, at most `limit` of them, and how many there are.
    pub fn items<'a>(&'a self, limit: usize) -> (shown: (Vec<Row<'a>>, usize))
        ensures
            shown.0@ == at_most_first(
                sorted(rows_of(self.slots@, self.slots@.len())),
                limit as int,
            ),
            shown.1 == rows_of(self.slots@, self.slots@.len()).len(),
    {
        let mut rows: Vec<Row<'a>> = Vec::new();
        let mut i: usize = 0;
        while i < self.slots.len()
            invariant
                i <= self.slots.len(),
                rows@ == rows_of(self.slots@, i as nat),
            decreases self.slots.len() - i,
        {
            let ghost before = rows@;
            let ghost more = held_items(self.slots@[i as int]).map_values(
                |item: Item| Row { item: &item },
            );
            match &self.slots[i].items {
                Some(items) => {
                    let mut k: usize = 0;
                    assert(before + more.take(0) =~= before);
                    while k < items.len()
                        invariant
                            k <= items.len(),
                            more == items@.map_values(|item: Item| Row { item: &item }),
                            rows@ == before + more.take(k as int),
                        decreases items.len() - k,
                    {
                        rows.push(Row { item: &items[k] });
                        assert(more.take(k + 1) =~= more.take(k as int).push(more[k as int]));
                        assert(rows@ =~= before + more.take(k + 1));
                        k += 1;
                    }
                    assert(more.take(more.len() as int) =~= more);
                },
                None => {
                    assert(before + more =~= before);
                },
            }
            i += 1;
        }
        let total: usize = rows.len();
        let mut shown: Vec<Row<'a>> = sort(rows);
        if shown.len() > limit {
            shown.truncate(limit);
        }
        (shown, total)
    }

    /// What each module holds, by its place in the registry: what a batch is planned against.
    pub fn held<'a>(&'a self) -> (held: Vec<(usize, &'a Vec<Item>)>)
        ensures
            forall|k: int|
                0 <= k < held@.len() ==> (#[trigger] held@[k]).0 < self.slots@.len()
                    && self.slots@[held@[k].0 as int].items == Some(*held@[k].1),
            forall|a: int, b: int|
                0 <= a < b < held@.len() ==> (#[trigger] held@[a]).0 < (#[trigger] held@[b]).0,
            forall|i: int|
                0 <= i < self.slots@.len() && (#[trigger] self.slots@[i]).items is Some ==> exists|
                    k: int,
                |
                    0 <= k < held@.len() && (#[trigger] held@[k]).0 == i,
    {
        let mut held: Vec<(usize, &'a Vec<Item>)> = Vec::new();
        let mut i: usize = 0;
        while i < self.slots.len()
            invariant
                i <= self.slots.len(),
                forall|k: int|
                    0 <= k < held@.len() ==> (#[trigger] held@[k]).0 < i
                        && self.slots@[held@[k].0 as int].items == Some(*held@[k].1),
                forall|a: int, b: int|
                    0 <= a < b < held@.len() ==> (#[trigger] held@[a]).0 < (#[trigger] held@[b]).0,
                forall|x: int|
                    0 <= x < i && (#[trigger] self.slots@[x]).items is Some ==> exists|k: int|
                        0 <= k < held@.len() && (#[trigger] held@[k]).0 == x,
            decreases self.slots.len() - i,
        {
            let ghost before = held@;
            if let Some(items) = &self.slots[i].items {
                held.push((i, items));
                assert(held@[before.len() as int].0 == i);
            }
            assert forall|x: int|
                0 <= x < i + 1 && (#[trigger] self.slots@[x]).items is Some implies exists|k: int|
                0 <= k < held@.len() && (#[trigger] held@[k]).0 == x by {
                if x < i {
                    let k = choose|k: int| 0 <= k < before.len() && (#[trigger] before[k]).0 == x;
                    assert(held@[k].0 == x);
                } else {
                    assert(held@[before.len() as int].0 == x);
                }
            }
            i += 1;
        }
        held
    }

    /// Drops the items with these ids until the next discovery: what a batch removed is not
    /// on the screen any more, even before the rediscovery that follows it has finished.
    pub fn forget(&mut self, item_ids: &Vec<String>)
        requires
            old(self).wf(),
        ensures
            final(self).wf(),
            final(self).registry == old(self).registry,
            final(self).home == old(self).home,
            forall|i: int|
                0 <= i < final(self).slots@.len() ==> {
                    let before = old(self).slots@[i];
                    let after = #[trigger] final(self).slots@[i];
                    &&& after.status == before.status
                    &&& after.discovered_at == before.discovered_at
                    &&& after.generation == before.generation
                    &&& after.items is Some == before.items is Some
                    &&& held_items(after) == kept_items(
                        held_items(before),
                        texts(item_ids@),
                        held_items(before).len(),
                    )
                },
    {
        let ghost before = self.slots@;
        let ghost ids = texts(item_ids@);
        let count: usize = self.slots.len();
        let mut i: usize = 0;
        while i < count
            invariant
                i <= count,
                count == self.slots@.len() == before.len(),
                self.registry == old(self).registry,
                self.home == old(self).home,
                ids == texts(item_ids@),
                forall|k: int| i <= k < count ==> #[trigger] self.slots@[k] == before[k],
                forall|k: int|
                    0 <= k < i ==> {
                        let after = #[trigger] self.slots@[k];
                        &&& after.status == before[k].status
                        &&& after.discovered_at == before[k].discovered_at
                        &&& after.generation == before[k].generation
                        &&& after.items is Some == before[k].items is Some
                        &&& held_items(after) == kept_items(
                            held_items(before[k]),
                            ids,
                            held_items(before[k]).len(),
                        )
                    },
            decreases count - i,
        {
            assert(self.slots@[i as int] == before[i as int]);
            let mut taken: Option<Vec<Item>> = None;
            core::mem::swap(&mut taken, &mut self.slots[i].items);
            if let Some(items) = taken {
                let kept: Vec<Item> = keep_others(items, item_ids);
                self.slots[i].items = Some(kept);
            } else {
                assert(held_items(self.slots@[i as int]) =~= Seq::empty());
            }
            i += 1;
        }
    }

    /// The ids of the modules these items belong to, in the registry's order.
    pub fn modules_of(&self, item_ids: &Vec<String>) -> (modules: Vec<String>)
        ensures
            texts(modules@) == involved(self.registry@, texts(item_ids@), self.registry@.len()),
    {
        let ghost items = texts(item_ids@);
        let mut modules: Vec<String> = Vec::new();
        let mut i: usize = 0;
        assert(texts(modules@) =~= Seq::empty());
        while i < self.registry.len()
            invariant
                i <= self.registry.len(),
                items == texts(item_ids@),
                texts(modules@) == involved(self.registry@, items, i as nat),
            decreases self.registry.len() - i,
        {
            let ghost before = modules@;
            if find_module(item_ids, &self.registry[i].id) {
                let id: String = self.registry[i].id.clone();
                modules.push(id);
                assert(texts(modules@) =~= texts(before).push(id@));
            }
            i += 1;
        }
        modules
    }
}

fn find_module(item_ids: &Vec<String>, id: &str) -> (r: bool)
    ensures
        r == names_module(texts(item_ids@), id@),
{
    let ghost items = texts(item_ids@);
    let mut k: usize = 0;
    while k < item_ids.len()
        invariant
            k <= item_ids.len(),
            items == texts(item_ids@),
            forall|x: int| 0 <= x < k ==> module_named(#[trigger] items[x]) != Some(id@),
        decreases item_ids.len() - k,
    {
        assert(items[k as int] == item_ids@[k as int]@);
        let belongs: bool = match name_module(&item_ids[k]) {
            Some(module) => same(&module, id),
            None => false,
        };
        if belongs {
            assert(module_named(items[k as int]) == Some(id@));
            return true;
        }
        k += 1;
    }
    false
}

fn keep_others(items: Vec<Item>, ids: &Vec<String>) -> (kept: Vec<Item>)
    ensures
        kept@ == kept_items(items@, texts(ids@), items@.len()),
{
    let ghost all = items@;
    let mut kept: Vec<Item> = Vec::new();
    for item in it: items
        invariant
            it.seq() == all,
            kept@ == kept_items(all, texts(ids@), it.index() as nat),
    {
        if !find_in(ids, &item.id) {
            kept.push(item);
        }
    }
    kept
}

/// What a refresh starts, it starts under the next generation of the slot.
proof fn started_next(
    registry: Seq<Descriptor>,
    slots: Seq<Slot>,
    ids: Seq<Seq<char>>,
    k: nat,
    m: int,
)
    requires
        k <= registry.len(),
        slots.len() == registry.len(),
        slots.len() <= usize::MAX,
        forall|i: int| 0 <= i < slots.len() ==> (#[trigger] slots[i]).generation < u64::MAX,
        0 <= m < started_of(registry, slots, ids, k).len(),
    ensures
        ({
            let (index, generation) = started_of(registry, slots, ids, k)[m];
            &&& index < k
            &&& refreshes(ids, registry[index as int].id@)
            &&& generation == slots[index as int].generation + 1
        }),
    decreases k,
{
    if k > 0 {
        let before = started_of(registry, slots, ids, (k - 1) as nat);
        assert(slots[k - 1].generation < u64::MAX);
        if m < before.len() {
            started_next(registry, slots, ids, (k - 1) as nat, m);
        }
    }
}

/// A discovery that finishes after a newer refresh started is dropped, and the one that
/// refresh started is not: of the generations up to the present the slot has the new one
/// alone, which is what finishing asks for.
pub proof fn an_older_discovery_is_dropped(
    registry: Seq<Descriptor>,
    before: Seq<Slot>,
    after: Seq<Slot>,
    ids: Seq<Seq<char>>,
    m: int,
    older: u64,
)
    requires
        before.len() == registry.len(),
        after.len() == registry.len(),
        before.len() <= usize::MAX,
        forall|i: int| 0 <= i < before.len() ==> (#[trigger] before[i]).generation < u64::MAX,
        forall|i: int|
            0 <= i < after.len() ==> refreshed(
                before[i],
                #[trigger] after[i],
                refreshes(ids, registry[i].id@),
            ),
        0 <= m < started_of(registry, before, ids, registry.len()).len(),
        older <= before[started_of(registry, before, ids, registry.len())[m].0 as int].generation,
    ensures
        ({
            let (index, generation) = started_of(registry, before, ids, registry.len())[m];
            &&& index < after.len()
            &&& after[index as int].generation == generation
            &&& after[index as int].generation != older
        }),
{
    started_next(registry, before, ids, registry.len(), m);
    let index = started_of(registry, before, ids, registry.len())[m].0 as int;
    assert(refreshed(before[index], after[index], refreshes(ids, registry[index].id@)));
}

/// What a batch removed is not held any more, and everything else still is.
pub proof fn forgetting_drops_these_and_no_others(
    items: Seq<Item>,
    ids: Seq<Seq<char>>,
    k: nat,
    i: int,
)
    requires
        0 <= i < k <= items.len(),
    ensures
        !ids.contains(items[i].id@) ==> kept_items(items, ids, k).contains(items[i]),
        forall|m: int|
            0 <= m < kept_items(items, ids, k).len() ==> !ids.contains(
                (#[trigger] kept_items(items, ids, k)[m]).id@,
            ),
    decreases k,
{
    let before = kept_items(items, ids, (k - 1) as nat);
    let now = kept_items(items, ids, k);
    if k - 1 > 0 {
        let at = if i < k - 1 {
            i
        } else {
            0
        };
        forgetting_drops_these_and_no_others(items, ids, (k - 1) as nat, at);
    }
    if !ids.contains(items[i].id@) {
        if i == k - 1 {
            assert(now[before.len() as int] == items[i]);
        } else {
            let at = choose|at: int| 0 <= at < before.len() && before[at] == items[i];
            assert(now[at] == items[i]);
        }
    }
}

} // verus!
