//! Finding texts among many: which of them are equal to a given one.

use crate::order::{arrange, arranges, arranges_reaches, comes_first, Ranked, Sortable};
use crate::text::{at_most, bytes_le_total, bytes_le_transitive, text_le, text_le_antisymmetric};
use vstd::prelude::*;
use vstd::utf8::encode_utf8;

verus! {

/// Something that is found by a text.
pub trait Labeled: Sortable {
    /// The text.
    spec fn label(self) -> Seq<char>;

    /// The order is that of the texts.
    proof fn by_label(a: Self, b: Self)
        ensures
            a.le(b) == text_le(a.label(), b.label()),
    ;

    fn text(&self) -> (text: &str)
        ensures
            text@ == self.label(),
    ;
}

/// A text that is kept elsewhere.
pub struct Key<'a> {
    pub text: &'a str,
}

impl<'a> Ranked for Key<'a> {
    open spec fn le(self, other: Self) -> bool {
        text_le(self.text@, other.text@)
    }

    proof fn le_total(a: Self, b: Self) {
        bytes_le_total(encode_utf8(a.text@), encode_utf8(b.text@));
    }

    proof fn le_transitive(a: Self, b: Self, c: Self) {
        bytes_le_transitive(
            encode_utf8(a.text@),
            encode_utf8(b.text@),
            encode_utf8(c.text@),
        );
    }
}

impl<'a> Sortable for Key<'a> {
    fn at_most(&self, other: &Self) -> bool {
        at_most(self.text, other.text)
    }
}

impl<'a> Labeled for Key<'a> {
    open spec fn label(self) -> Seq<char> {
        self.text@
    }

    proof fn by_label(a: Self, b: Self) {
    }

    fn text(&self) -> &str {
        self.text
    }
}

/// A text of its own.
pub struct Label {
    pub text: String,
}

impl Ranked for Label {
    open spec fn le(self, other: Self) -> bool {
        text_le(self.text@, other.text@)
    }

    proof fn le_total(a: Self, b: Self) {
        bytes_le_total(encode_utf8(a.text@), encode_utf8(b.text@));
    }

    proof fn le_transitive(a: Self, b: Self, c: Self) {
        bytes_le_transitive(
            encode_utf8(a.text@),
            encode_utf8(b.text@),
            encode_utf8(c.text@),
        );
    }
}

impl Sortable for Label {
    fn at_most(&self, other: &Self) -> bool {
        at_most(&self.text, &other.text)
    }
}

impl Labeled for Label {
    open spec fn label(self) -> Seq<char> {
        self.text@
    }

    proof fn by_label(a: Self, b: Self) {
    }

    fn text(&self) -> &str {
        self.text.as_str()
    }
}

/// The texts of several keys.
pub open spec fn labels<K: Labeled>(keys: Seq<K>) -> Seq<Seq<char>> {
    keys.map_values(|key: K| key.label())
}

/// The last place where `text` stands in a list.
pub open spec fn last_at(list: Seq<Seq<char>>, text: Seq<char>) -> Option<int>
    decreases list.len(),
{
    if list.len() == 0 {
        None
    } else if list.last() == text {
        Some(list.len() - 1)
    } else {
        last_at(list.drop_last(), text)
    }
}

/// The last place is known by what it is.
pub proof fn last_at_is(list: Seq<Seq<char>>, text: Seq<char>, i: int)
    requires
        0 <= i < list.len(),
        list[i] == text,
        forall|k: int| i < k < list.len() ==> list[k] != text,
    ensures
        last_at(list, text) == Some(i),
    decreases list.len(),
{
    if i < list.len() - 1 {
        assert(list.last() != text);
        last_at_is(list.drop_last(), text, i);
    }
}

/// There is no last place of what does not occur.
pub proof fn last_at_none(list: Seq<Seq<char>>, text: Seq<char>)
    requires
        forall|k: int| 0 <= k < list.len() ==> list[k] != text,
    ensures
        last_at(list, text) is None,
    decreases list.len(),
{
    if list.len() > 0 {
        assert(list.last() != text);
        last_at_none(list.drop_last(), text);
    }
}

/// What is found is there, and nothing after it is the same.
pub proof fn last_at_found(list: Seq<Seq<char>>, text: Seq<char>)
    ensures
        match last_at(list, text) {
            Some(i) => 0 <= i < list.len() && list[i] == text && forall|k: int|
                i < k < list.len() ==> list[k] != text,
            None => forall|k: int| 0 <= k < list.len() ==> list[k] != text,
        },
    decreases list.len(),
{
    if list.len() > 0 && list.last() != text {
        last_at_found(list.drop_last(), text);
        let less = list.drop_last();
        assert forall|k: int| 0 <= k < list.len() && list[k] == text implies k < less.len() && less[k]
            == text by {}
    }
}

/// Texts in a list that can be searched.
pub struct Index<K: Labeled> {
    keys: Vec<K>,
    order: Vec<usize>,
}

impl<K: Labeled> Index<K> {
    /// The texts.
    pub closed spec fn list(self) -> Seq<Seq<char>> {
        labels(self.keys@)
    }

    /// The order is that of the texts.
    pub closed spec fn wf(self) -> bool {
        arranges(self.keys@, self.order@, 0, self.keys@.len() as int)
    }

    pub fn new(keys: Vec<K>) -> (index: Index<K>)
        ensures
            index.wf(),
            index.list() == labels(keys@),
    {
        let order: Vec<usize> = arrange(&keys);
        Index { keys, order }
    }

    /// The first position in the order whose text comes no earlier than `text`.
    fn lower(&self, text: &str) -> (at: usize)
        requires
            self.wf(),
        ensures
            at <= self.order@.len(),
            forall|p: int|
                0 <= p < at ==> !text_le(
                    text@,
                    #[trigger] self.keys@[self.order@[p] as int].label(),
                ),
            forall|p: int|
                at <= p < self.order@.len() ==> text_le(
                    text@,
                    #[trigger] self.keys@[self.order@[p] as int].label(),
                ),
    {
        let mut lo: usize = 0;
        let mut hi: usize = self.order.len();
        while lo < hi
            invariant
                self.wf(),
                lo <= hi <= self.order@.len(),
                forall|p: int|
                    0 <= p < lo ==> !text_le(
                        text@,
                        #[trigger] self.keys@[self.order@[p] as int].label(),
                    ),
                forall|p: int|
                    hi <= p < self.order@.len() ==> text_le(
                        text@,
                        #[trigger] self.keys@[self.order@[p] as int].label(),
                    ),
            decreases hi - lo,
        {
            let mid: usize = lo + (hi - lo) / 2;
            let key: &K = &self.keys[self.order[mid]];
            if at_most(text, key.text()) {
                assert forall|p: int| mid <= p < self.order@.len() implies text_le(
                    text@,
                    #[trigger] self.keys@[self.order@[p] as int].label(),
                ) by {
                    if p > mid {
                        assert(comes_first(
                            self.keys@,
                            self.order@[mid as int] as int,
                            self.order@[p] as int,
                        ));
                        K::by_label(*key, self.keys@[self.order@[p] as int]);
                        bytes_le_transitive(
                            encode_utf8(text@),
                            encode_utf8(key.label()),
                            encode_utf8(self.keys@[self.order@[p] as int].label()),
                        );
                    }
                }
                hi = mid;
            } else {
                assert forall|p: int| 0 <= p <= mid implies !text_le(
                    text@,
                    #[trigger] self.keys@[self.order@[p] as int].label(),
                ) by {
                    if p < mid {
                        assert(comes_first(
                            self.keys@,
                            self.order@[p] as int,
                            self.order@[mid as int] as int,
                        ));
                        if text_le(text@, self.keys@[self.order@[p] as int].label()) {
                            K::by_label(self.keys@[self.order@[p] as int], *key);
                            bytes_le_transitive(
                                encode_utf8(text@),
                                encode_utf8(self.keys@[self.order@[p] as int].label()),
                                encode_utf8(key.label()),
                            );
                        }
                    }
                }
                lo = mid + 1;
            }
        }
        lo
    }

    /// Every place where `text` stands, in order.
    pub fn all(&self, text: &str) -> (places: Vec<usize>)
        requires
            self.wf(),
        ensures
            forall|k: int|
                0 <= k < places@.len() ==> (#[trigger] places@[k]) < self.list().len()
                    && self.list()[places@[k] as int] == text@,
            forall|i: int|
                0 <= i < self.list().len() && #[trigger] self.list()[i] == text@
                    ==> places@.contains(i as usize),
            forall|a: int, b: int|
                0 <= a < b < places@.len() ==> (#[trigger] places@[a]) < (#[trigger] places@[b]),
            self.list().len() <= usize::MAX,
    {
        let from: usize = self.lower(text);
        let mut places: Vec<usize> = Vec::new();
        let mut p: usize = from;
        while p < self.order.len() && crate::text::same(self.keys[self.order[p]].text(), text)
            invariant
                self.wf(),
                from <= p <= self.order@.len(),
                places@.len() == p - from,
                forall|k: int|
                    0 <= k < places@.len() ==> #[trigger] places@[k] == self.order@[from + k]
                        && self.keys@[places@[k] as int].label() == text@,
            decreases self.order.len() - p,
        {
            places.push(self.order[p]);
            p += 1;
        }
        proof {
            let list = self.list();
            let n = self.keys@.len() as int;
            assert forall|i: int| 0 <= i < list.len() && #[trigger] list[i] == text@ implies places@.contains(
                i as usize,
            ) by {
                arranges_reaches(self.keys@, self.order@, 0, n, i);
                let q = choose|q: int| 0 <= q < self.order@.len() && self.order@[q] == i;
                assert(self.keys@[self.order@[q] as int].label() == text@);
                bytes_le_total(encode_utf8(text@), encode_utf8(text@));
                assert(q >= from);
                if q >= p {
                    let stop = self.keys@[self.order@[p as int] as int];
                    assert(text_le(text@, stop.label()));
                    if q > p {
                        assert(comes_first(
                            self.keys@,
                            self.order@[p as int] as int,
                            self.order@[q] as int,
                        ));
                    }
                    K::by_label(stop, self.keys@[self.order@[q] as int]);
                    assert(text_le(stop.label(), text@));
                    text_le_antisymmetric(stop.label(), text@);
                    assert(false);
                }
                assert(places@[q - from] == i);
            }
            assert forall|a: int, b: int| 0 <= a < b < places@.len() implies (#[trigger] places@[a]) < (
            #[trigger] places@[b]) by {
                assert(comes_first(
                    self.keys@,
                    self.order@[from + a] as int,
                    self.order@[from + b] as int,
                ));
                assert(self.keys@[places@[a] as int].label() == text@);
                assert(self.keys@[places@[b] as int].label() == text@);
                K::by_label(
                    self.keys@[self.order@[from + b] as int],
                    self.keys@[self.order@[from + a] as int],
                );
                bytes_le_total(encode_utf8(text@), encode_utf8(text@));
            }
            assert forall|k: int| 0 <= k < places@.len() implies (#[trigger] places@[k]) < list.len()
                && list[places@[k] as int] == text@ by {
                assert(self.keys@[places@[k] as int].label() == text@);
            }
        }
        places
    }

    /// The last place where `text` stands.
    pub fn last(&self, text: &str) -> (place: Option<usize>)
        requires
            self.wf(),
        ensures
            match (place, last_at(self.list(), text@)) {
                (Some(i), Some(expected)) => i == expected,
                (None, None) => true,
                _ => false,
            },
    {
        let places: Vec<usize> = self.all(text);
        let ghost list = self.list();
        if places.len() == 0 {
            proof {
                assert forall|k: int| 0 <= k < list.len() implies list[k] != text@ by {
                    if list[k] == text@ {
                        assert(places@.contains(k as usize));
                    }
                }
                last_at_none(list, text@);
            }
            None
        } else {
            let last: usize = places[places.len() - 1];
            proof {
                assert forall|k: int| last < k < list.len() implies list[k] != text@ by {
                    if list[k] == text@ {
                        assert(places@.contains(k as usize));
                        let q = choose|q: int| 0 <= q < places@.len() && places@[q] == k as usize;
                        if q < places@.len() - 1 {
                            assert(places@[q] < places@[places@.len() - 1]);
                        }
                    }
                }
                last_at_is(list, text@, last as int);
            }
            Some(last)
        }
    }
}

} // verus!
