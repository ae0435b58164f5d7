//! Stable sorting: the arrangement of a sequence under a total preorder, and the merge sort
//! that finds it.

use vstd::prelude::*;

verus! {

/// Values with a place in a listing. Two values may share a place; which of them comes
/// first is then decided by where they stood before.
pub trait Ranked: Sized {
    /// Whether `self` may stand before `other`.
    spec fn le(self, other: Self) -> bool;

    proof fn le_total(a: Self, b: Self)
        ensures
            a.le(b) || b.le(a),
    ;

    proof fn le_transitive(a: Self, b: Self, c: Self)
        requires
            a.le(b),
            b.le(c),
        ensures
            a.le(c),
    ;
}

/// Ranked values that can be compared.
pub trait Sortable: Ranked {
    fn at_most(&self, other: &Self) -> (r: bool)
        ensures
            r == self.le(*other),
    ;
}

impl Ranked for u32 {
    open spec fn le(self, other: Self) -> bool {
        self <= other
    }

    proof fn le_total(a: Self, b: Self) {
    }

    proof fn le_transitive(a: Self, b: Self, c: Self) {
    }
}

impl Sortable for u32 {
    fn at_most(&self, other: &Self) -> bool {
        *self <= *other
    }
}

/// Whether position `i` of `s` comes before position `j` in the arrangement of `s`: by rank,
/// and by position where the ranks agree.
pub open spec fn comes_first<T: Ranked>(s: Seq<T>, i: int, j: int) -> bool {
    s[i].le(s[j]) && (i < j || !s[j].le(s[i]))
}

/// `order` lists positions of `s` within `lo..hi`, each coming before the next.
pub open spec fn arranges<T: Ranked>(s: Seq<T>, order: Seq<usize>, lo: int, hi: int) -> bool {
    &&& order.len() == hi - lo
    &&& forall|k: int| 0 <= k < order.len() ==> lo <= #[trigger] order[k] < hi
    &&& forall|a: int, b: int|
        0 <= a < b < order.len() ==> #[trigger] comes_first(s, order[a] as int, order[b] as int)
}

/// The positions of `s`, each exactly once, in the order a stable sort puts them.
pub open spec fn arrangement<T: Ranked>(s: Seq<T>) -> Seq<usize> {
    choose|order: Seq<usize>| arranges(s, order, 0, s.len() as int)
}

/// `s` picked in the given order.
pub open spec fn picked<T>(s: Seq<T>, order: Seq<usize>) -> Seq<T> {
    Seq::new(order.len(), |k: int| s[order[k] as int])
}

/// `s` sorted: every item comes no later than those it ranks before, and items of one rank
/// keep the order they had.
pub open spec fn sorted<T: Ranked>(s: Seq<T>) -> Seq<T> {
    picked(s, arrangement(s))
}

/// Whether `s` is in order already.
pub open spec fn in_order<T: Ranked>(s: Seq<T>) -> bool {
    forall|i: int, j: int| 0 <= i < j < s.len() ==> (#[trigger] s[i]).le(#[trigger] s[j])
}

pub proof fn comes_first_asymmetric<T: Ranked>(s: Seq<T>, i: int, j: int)
    requires
        comes_first(s, i, j),
    ensures
        i != j,
        !comes_first(s, j, i),
{
}

pub proof fn comes_first_total<T: Ranked>(s: Seq<T>, i: int, j: int)
    requires
        i != j,
    ensures
        comes_first(s, i, j) || comes_first(s, j, i),
{
    T::le_total(s[i], s[j]);
}

pub proof fn comes_first_transitive<T: Ranked>(s: Seq<T>, i: int, j: int, k: int)
    requires
        comes_first(s, i, j),
        comes_first(s, j, k),
    ensures
        comes_first(s, i, k),
{
    T::le_transitive(s[i], s[j], s[k]);
    if s[k].le(s[i]) {
        T::le_transitive(s[k], s[i], s[j]);
        T::le_transitive(s[j], s[k], s[i]);
    }
}

/// Whether `i` is among the positions of `order`.
pub open spec fn reaches(order: Seq<usize>, i: int) -> bool {
    exists|k: int| 0 <= k < order.len() && order[k] == i
}

/// An arrangement reaches every position.
pub proof fn arranges_reaches<T: Ranked>(s: Seq<T>, order: Seq<usize>, lo: int, hi: int, i: int)
    requires
        arranges(s, order, lo, hi),
        lo <= i < hi,
        0 <= lo,
        hi <= usize::MAX,
    ensures
        reaches(order, i),
{
    let ints = order.map_values(|x: usize| x as int);
    assert(ints.no_duplicates()) by {
        assert forall|a: int, b: int| 0 <= a < ints.len() && 0 <= b < ints.len() && a != b implies ints[a]
            != ints[b] by {
            if a < b {
                assert(comes_first(s, order[a] as int, order[b] as int));
            } else {
                assert(comes_first(s, order[b] as int, order[a] as int));
            }
        }
    }
    ints.unique_seq_to_set();
    let range = vstd::set_lib::set_int_range(lo, hi);
    vstd::set_lib::lemma_int_range(lo, hi);
    assert(ints.to_set().subset_of(range));
    vstd::set_lib::lemma_subset_equality(ints.to_set(), range);
    assert(range.contains(i));
    assert(ints.to_set().contains(i));
    let k = choose|k: int| 0 <= k < ints.len() && ints[k] == i;
    assert(order[k] == i);
}

/// There is only one arrangement.
pub proof fn arrangement_unique<T: Ranked>(s: Seq<T>, a: Seq<usize>, b: Seq<usize>, lo: int, hi: int)
    requires
        arranges(s, a, lo, hi),
        arranges(s, b, lo, hi),
        0 <= lo,
        hi <= usize::MAX,
    ensures
        a == b,
{
    assert forall|n: int| 0 <= n <= a.len() implies a.take(n) == #[trigger] b.take(n) by {
        arrangement_unique_prefix(s, a, b, lo, hi, n);
    }
    assert(a.take(a.len() as int) =~= a);
    assert(b.take(a.len() as int) =~= b);
}

proof fn arrangement_unique_prefix<T: Ranked>(
    s: Seq<T>,
    a: Seq<usize>,
    b: Seq<usize>,
    lo: int,
    hi: int,
    n: int,
)
    requires
        arranges(s, a, lo, hi),
        arranges(s, b, lo, hi),
        0 <= lo,
        hi <= usize::MAX,
        0 <= n <= a.len(),
    ensures
        a.take(n) == b.take(n),
    decreases n,
{
    if n == 0 {
        assert(a.take(0) =~= b.take(0));
    } else {
        arrangement_unique_prefix(s, a, b, lo, hi, n - 1);
        let k = n - 1;
        assert forall|i: int| 0 <= i < k implies a[i] == b[i] by {
            assert(a.take(k)[i] == b.take(k)[i]);
        }
        arranges_reaches(s, b, lo, hi, a[k] as int);
        arranges_reaches(s, a, lo, hi, b[k] as int);
        let p = choose|p: int| 0 <= p < b.len() && b[p] == a[k] as int;
        let q = choose|q: int| 0 <= q < a.len() && a[q] == b[k] as int;
        if p < k {
            assert(a[p] == a[k]);
            assert(comes_first(s, a[p] as int, a[k] as int));
            assert(false);
        }
        if q < k {
            assert(b[q] == b[k]);
            assert(comes_first(s, b[q] as int, b[k] as int));
            assert(false);
        }
        if p > k && q > k {
            assert(comes_first(s, b[k] as int, b[p] as int));
            assert(comes_first(s, a[k] as int, a[q] as int));
            comes_first_asymmetric(s, a[k] as int, a[q] as int);
            assert(false);
        }
        assert(a[k] == b[k]);
        assert(a.take(n) =~= a.take(k).push(a[k]));
        assert(b.take(n) =~= b.take(k).push(b[k]));
    }
}

/// Whatever arranges `s` is its arrangement.
pub proof fn arrangement_is<T: Ranked>(s: Seq<T>, order: Seq<usize>)
    requires
        arranges(s, order, 0, s.len() as int),
        s.len() <= usize::MAX,
    ensures
        arrangement(s) == order,
{
    arrangement_unique(s, arrangement(s), order, 0, s.len() as int);
}

/// Where position `s.len() - 1` goes in the arrangement of the positions before it.
proof fn place_of_last<T: Ranked>(s: Seq<T>, order: Seq<usize>, k: int) -> (p: int)
    requires
        0 <= k <= order.len(),
        forall|a: int| 0 <= a < k ==> comes_first(s, #[trigger] order[a] as int, s.len() - 1),
    ensures
        k <= p <= order.len(),
        forall|a: int| 0 <= a < p ==> comes_first(s, #[trigger] order[a] as int, s.len() - 1),
        p < order.len() ==> !comes_first(s, order[p] as int, s.len() - 1),
    decreases order.len() - k,
{
    if k < order.len() && comes_first(s, order[k] as int, s.len() - 1) {
        place_of_last(s, order, k + 1)
    } else {
        k
    }
}

proof fn arrangement_found<T: Ranked>(s: Seq<T>) -> (order: Seq<usize>)
    requires
        s.len() <= usize::MAX,
    ensures
        arranges(s, order, 0, s.len() as int),
    decreases s.len(),
{
    if s.len() == 0 {
        Seq::empty()
    } else {
        let n = s.len() - 1;
        let less = s.drop_last();
        let before = arrangement_found(less);
        assert forall|a: int, b: int| 0 <= a < b < before.len() implies #[trigger] comes_first(
            s,
            before[a] as int,
            before[b] as int,
        ) by {
            assert(comes_first(less, before[a] as int, before[b] as int));
        }
        let p = place_of_last(s, before, 0);
        assert forall|b: int| p <= b < before.len() implies comes_first(s, n, #[trigger] before[b] as int) by {
            comes_first_total(s, n, before[p] as int);
            if b > p {
                assert(comes_first(s, before[p] as int, before[b] as int));
                comes_first_transitive(s, n, before[p] as int, before[b] as int);
            }
        }
        let order = before.insert(p, n as usize);
        assert forall|a: int, b: int| 0 <= a < b < order.len() implies #[trigger] comes_first(
            s,
            order[a] as int,
            order[b] as int,
        ) by {
            let x = if a < p { a } else { a - 1 };
            let y = if b < p { b } else { b - 1 };
            if a == p {
                assert(order[b] == before[y]);
            } else if b == p {
                assert(order[a] == before[x]);
            } else {
                assert(order[a] == before[x] && order[b] == before[y]);
                assert(comes_first(s, before[x] as int, before[y] as int));
            }
        }
        order
    }
}

/// Every sequence has an arrangement.
pub proof fn arrangement_exists<T: Ranked>(s: Seq<T>)
    requires
        s.len() <= usize::MAX,
    ensures
        arranges(s, arrangement(s), 0, s.len() as int),
{
    let order = arrangement_found(s);
}

/// A sorted sequence is its own sorting.
pub proof fn sorted_of_in_order<T: Ranked>(s: Seq<T>)
    requires
        in_order(s),
        s.len() <= usize::MAX,
    ensures
        sorted(s) == s,
{
    let order = Seq::new(s.len(), |k: int| k as usize);
    assert(arranges(s, order, 0, s.len() as int)) by {
        assert forall|a: int, b: int| 0 <= a < b < order.len() implies #[trigger] comes_first(
            s,
            order[a] as int,
            order[b] as int,
        ) by {
            assert(s[a].le(s[b]));
        }
    }
    arrangement_is(s, order);
    assert(sorted(s) =~= s);
}

/// Sequences whose items rank alike have one arrangement.
pub proof fn arrangement_by_rank<T: Ranked, U: Ranked>(s: Seq<T>, t: Seq<U>, order: Seq<usize>)
    requires
        arranges(s, order, 0, s.len() as int),
        s.len() == t.len(),
        s.len() <= usize::MAX,
        forall|i: int, j: int|
            0 <= i < s.len() && 0 <= j < s.len() ==> (#[trigger] s[i]).le(#[trigger] s[j]) == t[i].le(t[j]),
    ensures
        arranges(t, order, 0, t.len() as int),
        arrangement(t) == order,
{
    assert forall|a: int, b: int| 0 <= a < b < order.len() implies #[trigger] comes_first(
        t,
        order[a] as int,
        order[b] as int,
    ) by {
        assert(comes_first(s, order[a] as int, order[b] as int));
        let i = order[a] as int;
        let j = order[b] as int;
        assert(s[i].le(s[j]) == t[i].le(t[j]));
        assert(s[j].le(s[i]) == t[j].le(t[i]));
    }
    arrangement_is(t, order);
}

/// What a sorting yields is in order.
pub proof fn picked_in_order<T: Ranked>(s: Seq<T>, order: Seq<usize>)
    requires
        arranges(s, order, 0, s.len() as int),
    ensures
        in_order(picked(s, order)),
{
    let p = picked(s, order);
    assert forall|i: int, j: int| 0 <= i < j < p.len() implies (#[trigger] p[i]).le(#[trigger] p[j]) by {
        assert(comes_first(s, order[i] as int, order[j] as int));
    }
}

/// The positions `lo..hi` of `items` in the order a stable sort puts them.
pub fn arrange_range<T: Sortable>(items: &Vec<T>, lo: usize, hi: usize) -> (order: Vec<usize>)
    requires
        lo <= hi <= items.len(),
    ensures
        arranges(items@, order@, lo as int, hi as int),
    decreases hi - lo,
{
    if hi - lo <= 1 {
        let mut order: Vec<usize> = Vec::new();
        if lo < hi {
            order.push(lo);
        }
        return order;
    }
    let mid: usize = lo + (hi - lo) / 2;
    let left: Vec<usize> = arrange_range(items, lo, mid);
    let right: Vec<usize> = arrange_range(items, mid, hi);
    merge(items, &left, &right, Ghost(lo as int), Ghost(mid as int), Ghost(hi as int))
}

fn merge<T: Sortable>(
    items: &Vec<T>,
    left: &Vec<usize>,
    right: &Vec<usize>,
    Ghost(lo): Ghost<int>,
    Ghost(mid): Ghost<int>,
    Ghost(hi): Ghost<int>,
) -> (order: Vec<usize>)
    requires
        0 <= lo <= mid <= hi <= items.len(),
        arranges(items@, left@, lo, mid),
        arranges(items@, right@, mid, hi),
    ensures
        arranges(items@, order@, lo, hi),
{
    let mut order: Vec<usize> = Vec::new();
    let mut l: usize = 0;
    let mut r: usize = 0;
    while l < left.len() || r < right.len()
        invariant
            0 <= lo <= mid <= hi <= items.len(),
            arranges(items@, left@, lo, mid),
            arranges(items@, right@, mid, hi),
            l <= left.len(),
            r <= right.len(),
            order.len() == l + r,
            forall|k: int| 0 <= k < order.len() ==> lo <= #[trigger] order[k] < hi,
            forall|a: int, b: int|
                0 <= a < b < order.len() ==> #[trigger] comes_first(
                    items@,
                    order[a] as int,
                    order[b] as int,
                ),
            l < left.len() ==> forall|a: int|
                0 <= a < order.len() ==> #[trigger] comes_first(
                    items@,
                    order[a] as int,
                    left[l as int] as int,
                ),
            r < right.len() ==> forall|a: int|
                0 <= a < order.len() ==> #[trigger] comes_first(
                    items@,
                    order[a] as int,
                    right[r as int] as int,
                ),
        decreases left.len() + right.len() - l - r,
    {
        let from_left: bool = r == right.len() || (l < left.len()
            && items[left[l]].at_most(&items[right[r]]));
        let ghost before = order@;
        if from_left {
            let next: usize = left[l];
            order.push(next);
            l += 1;
            proof {
                if l < left.len() {
                    assert forall|a: int| 0 <= a < order.len() implies #[trigger] comes_first(
                        items@,
                        order@[a] as int,
                        left[l as int] as int,
                    ) by {
                        assert(comes_first(items@, left[l - 1] as int, left[l as int] as int));
                        if a < before.len() {
                            assert(comes_first(items@, before[a] as int, next as int));
                            comes_first_transitive(
                                items@,
                                before[a] as int,
                                next as int,
                                left[l as int] as int,
                            );
                        }
                    }
                }
                if r < right.len() {
                    assert forall|a: int| 0 <= a < order.len() implies #[trigger] comes_first(
                        items@,
                        order@[a] as int,
                        right[r as int] as int,
                    ) by {
                        if a < before.len() {
                            assert(comes_first(items@, before[a] as int, right[r as int] as int));
                        }
                    }
                }
            }
        } else {
            let next: usize = right[r];
            order.push(next);
            r += 1;
            proof {
                if r < right.len() {
                    assert forall|a: int| 0 <= a < order.len() implies #[trigger] comes_first(
                        items@,
                        order@[a] as int,
                        right[r as int] as int,
                    ) by {
                        assert(comes_first(items@, right[r - 1] as int, right[r as int] as int));
                        if a < before.len() {
                            assert(comes_first(items@, before[a] as int, next as int));
                            comes_first_transitive(
                                items@,
                                before[a] as int,
                                next as int,
                                right[r as int] as int,
                            );
                        }
                    }
                }
                if l < left.len() {
                    comes_first_total(items@, next as int, left[l as int] as int);
                    assert forall|a: int| 0 <= a < order.len() implies #[trigger] comes_first(
                        items@,
                        order@[a] as int,
                        left[l as int] as int,
                    ) by {
                        if a < before.len() {
                            assert(comes_first(items@, before[a] as int, left[l as int] as int));
                        }
                    }
                }
            }
        }
        assert forall|a: int, b: int| 0 <= a < b < order.len() implies #[trigger] comes_first(
            items@,
            order@[a] as int,
            order@[b] as int,
        ) by {
            if b < before.len() {
                assert(comes_first(items@, before[a] as int, before[b] as int));
            } else {
                assert(comes_first(items@, before[a] as int, order@[b] as int));
            }
        }
    }
    order
}

/// The arrangement of a whole list.
pub fn arrange<T: Sortable>(items: &Vec<T>) -> (order: Vec<usize>)
    ensures
        arranges(items@, order@, 0, items.len() as int),
        order@ == arrangement(items@),
{
    let order: Vec<usize> = arrange_range(items, 0, items.len());
    proof {
        arrangement_is(items@, order@);
    }
    order
}

/// Moves `items` into the given order.
pub fn pick<T>(items: Vec<T>, order: &Vec<usize>) -> (result: Vec<T>)
    requires
        order.len() == items.len(),
        forall|k: int| 0 <= k < order.len() ==> #[trigger] order[k] < items.len(),
        order@.no_duplicates(),
    ensures
        result@ == picked(items@, order@),
{
    let ghost all = items@;
    let mut slots: Vec<Option<T>> = Vec::new();
    for item in it: items
        invariant
            it.seq() == all,
            slots.len() == it.index(),
            forall|k: int| 0 <= k < slots.len() ==> #[trigger] slots[k] == Some(all[k]),
    {
        slots.push(Some(item));
    }
    let mut result: Vec<T> = Vec::new();
    let mut k: usize = 0;
    while k < order.len()
        invariant
            k <= order.len(),
            order.len() == all.len(),
            slots.len() == all.len(),
            forall|j: int| 0 <= j < order.len() ==> #[trigger] order[j] < all.len(),
            order@.no_duplicates(),
            result@ == picked(all, order@).take(k as int),
            forall|j: int| k <= j < order.len() ==> slots[#[trigger] order[j] as int] == Some(all[order[j] as int]),
        decreases order.len() - k,
    {
        let ghost before = slots@;
        let mut taken: Option<T> = None;
        core::mem::swap(&mut taken, &mut slots[order[k]]);
        match taken {
            Some(item) => {
                result.push(item);
            },
            None => {
                assert(false);
            },
        }
        assert(picked(all, order@).take(k + 1) =~= picked(all, order@).take(k as int).push(
            all[order[k as int] as int],
        ));
        assert forall|j: int| k + 1 <= j < order.len() implies slots@[#[trigger] order[j] as int] == Some(
            all[order[j] as int],
        ) by {
            assert(order[j] != order[k as int]);
        }
        k += 1;
    }
    assert(picked(all, order@).take(order.len() as int) =~= picked(all, order@));
    result
}

/// Sorts a list, keeping the order of items of one rank.
pub fn sort<T: Sortable>(items: Vec<T>) -> (result: Vec<T>)
    ensures
        result@ == sorted(items@),
        arranges(items@, arrangement(items@), 0, items.len() as int),
{
    let order: Vec<usize> = arrange(&items);
    proof {
        arrangement_has_no_duplicates(items@, order@, 0, items.len() as int);
    }
    pick(items, &order)
}

pub proof fn arrangement_has_no_duplicates<T: Ranked>(s: Seq<T>, order: Seq<usize>, lo: int, hi: int)
    requires
        arranges(s, order, lo, hi),
    ensures
        order.no_duplicates(),
{
    assert forall|a: int, b: int| 0 <= a < order.len() && 0 <= b < order.len() && a != b implies order[a]
        != order[b] by {
        if a < b {
            assert(comes_first(s, order[a] as int, order[b] as int));
        } else {
            assert(comes_first(s, order[b] as int, order[a] as int));
        }
    }
}

/// The sum of what `f` makes of every item.
pub open spec fn total<T>(s: Seq<T>, f: spec_fn(T) -> nat) -> nat
    decreases s.len(),
{
    if s.len() == 0 {
        0
    } else {
        total(s.drop_last(), f) + f(s.last())
    }
}

pub proof fn total_remove<T>(s: Seq<T>, f: spec_fn(T) -> nat, k: int)
    requires
        0 <= k < s.len(),
    ensures
        total(s, f) == f(s[k]) + total(s.remove(k), f),
    decreases s.len(),
{
    if k == s.len() - 1 {
        assert(s.remove(k) =~= s.drop_last());
    } else {
        total_remove(s.drop_last(), f, k);
        assert(s.remove(k).drop_last() =~= s.drop_last().remove(k));
    }
}

/// Another order of the same items has the same sum.
pub proof fn total_picked<T>(s: Seq<T>, f: spec_fn(T) -> nat, order: Seq<usize>)
    requires
        order.len() == s.len(),
        order.no_duplicates(),
        forall|k: int| 0 <= k < order.len() ==> #[trigger] order[k] < s.len(),
        forall|i: int| 0 <= i < s.len() ==> #[trigger] reaches(order, i),
    ensures
        total(picked(s, order), f) == total(s, f),
    decreases s.len(),
{
    if s.len() == 0 {
        assert(picked(s, order) =~= s);
    } else {
        let last = s.len() - 1;
        assert(reaches(order, last));
        let k = choose|k: int| 0 <= k < order.len() && order[k] == last;
        let less = order.remove(k);
        let fewer = s.drop_last();
        assert forall|a: int, b: int| 0 <= a < less.len() && 0 <= b < less.len() && a != b implies less[a]
            != less[b] by {
            let x = if a < k { a } else { a + 1 };
            let y = if b < k { b } else { b + 1 };
            assert(order[x] != order[y]);
        }
        assert forall|a: int| 0 <= a < less.len() implies #[trigger] less[a] < fewer.len() by {
            let x = if a < k { a } else { a + 1 };
            assert(order[x] < s.len());
            assert(order[x] != order[k]);
        }
        assert forall|i: int| 0 <= i < fewer.len() implies #[trigger] reaches(less, i) by {
            assert(reaches(order, i));
            let x = choose|x: int| 0 <= x < order.len() && order[x] == i;
            let a = if x < k { x } else { x - 1 };
            assert(less[a] == i);
        }
        total_picked(fewer, f, less);
        total_remove(picked(s, order), f, k);
        assert(picked(s, order).remove(k) =~= picked(fewer, less));
    }
}

/// Sorting keeps every sum.
pub proof fn total_sorted<T: Ranked>(s: Seq<T>, f: spec_fn(T) -> nat)
    requires
        s.len() <= usize::MAX,
    ensures
        total(sorted(s), f) == total(s, f),
        sorted(s).len() == s.len(),
{
    let order = arrangement(s);
    arrangement_exists(s);
    arrangement_has_no_duplicates(s, order, 0, s.len() as int);
    assert forall|i: int| 0 <= i < s.len() implies #[trigger] reaches(order, i) by {
        arranges_reaches(s, order, 0, s.len() as int, i);
    }
    total_picked(s, f, order);
}

/// Another order of the same items holds the same items.
pub proof fn multiset_picked<T>(s: Seq<T>, order: Seq<usize>)
    requires
        order.len() == s.len(),
        order.no_duplicates(),
        forall|k: int| 0 <= k < order.len() ==> #[trigger] order[k] < s.len(),
        forall|i: int| 0 <= i < s.len() ==> #[trigger] reaches(order, i),
    ensures
        picked(s, order).to_multiset() == s.to_multiset(),
    decreases s.len(),
{
    broadcast use vstd::seq_lib::group_to_multiset_ensures;

    if s.len() == 0 {
        assert(picked(s, order) =~= s);
    } else {
        let last = s.len() - 1;
        assert(reaches(order, last));
        let k = choose|k: int| 0 <= k < order.len() && order[k] == last;
        let less = order.remove(k);
        let fewer = s.drop_last();
        assert forall|a: int, b: int| 0 <= a < less.len() && 0 <= b < less.len() && a != b implies less[a]
            != less[b] by {
            let x = if a < k { a } else { a + 1 };
            let y = if b < k { b } else { b + 1 };
            assert(order[x] != order[y]);
        }
        assert forall|a: int| 0 <= a < less.len() implies #[trigger] less[a] < fewer.len() by {
            let x = if a < k { a } else { a + 1 };
            assert(order[x] < s.len());
            assert(order[x] != order[k]);
        }
        assert forall|i: int| 0 <= i < fewer.len() implies #[trigger] reaches(less, i) by {
            assert(reaches(order, i));
            let x = choose|x: int| 0 <= x < order.len() && order[x] == i;
            let a = if x < k { x } else { x - 1 };
            assert(less[a] == i);
        }
        multiset_picked(fewer, less);
        let p = picked(s, order);
        assert(p.remove(k) =~= picked(fewer, less));
        assert(p.contains(p[k]));
        assert(p.to_multiset() =~= p.remove(k).to_multiset().insert(p[k]));
        assert(s =~= fewer.push(s.last()));
    }
}

/// Sorting keeps every item.
pub proof fn multiset_sorted<T: Ranked>(s: Seq<T>)
    requires
        s.len() <= usize::MAX,
    ensures
        sorted(s).to_multiset() == s.to_multiset(),
{
    let order = arrangement(s);
    arrangement_exists(s);
    arrangement_has_no_duplicates(s, order, 0, s.len() as int);
    assert forall|i: int| 0 <= i < s.len() implies #[trigger] reaches(order, i) by {
        arranges_reaches(s, order, 0, s.len() as int, i);
    }
    multiset_picked(s, order);
}

} // verus!
