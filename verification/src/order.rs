//! Putting things in order, so that two runs over the same code say the same.

use crate::lists::{lemma_count_filtered, lemma_filters_commute};
use crate::text::{precedes, text_before};
use vstd::prelude::*;

verus! {

/// A value with a place in an order. Different values may share a place.
pub trait Ranked: View + Sized {
    /// True when `a` may stand before `b`.
    spec fn ranked(a: Self::V, b: Self::V) -> bool;

    proof fn lemma_total(a: Self::V, b: Self::V)
        ensures
            Self::ranked(a, b) || Self::ranked(b, a),
    ;

    proof fn lemma_chain(a: Self::V, b: Self::V, c: Self::V)
        requires
            Self::ranked(a, b),
            Self::ranked(b, c),
        ensures
            Self::ranked(a, c),
    ;

    fn may_precede(&self, other: &Self) -> (r: bool)
        ensures
            r == Self::ranked(self@, other@),
    ;
}

/// The models of a list of values.
pub open spec fn views<T: View>(items: Seq<T>) -> Seq<T::V> {
    items.map_values(|item: T| item@)
}

/// True when two values share a place in the order.
pub open spec fn level<T: Ranked>(a: T::V, b: T::V) -> bool {
    T::ranked(a, b) && T::ranked(b, a)
}

/// True when no value stands before one that has to precede it.
pub open spec fn in_order<T: Ranked>(items: Seq<T::V>) -> bool {
    forall|i: int, j: int|
        0 <= i < j < items.len() ==> T::ranked(#[trigger] items[i], #[trigger] items[j])
}

/// The values that share a place with `x`, as they follow each other in `items`.
pub open spec fn sharing<T: Ranked>(items: Seq<T::V>, x: T::V) -> Seq<T::V> {
    items.filter(|y: T::V| level::<T>(x, y))
}

/// True when `after` is `before` put in order, values that share a place
/// keeping the order they had.
pub open spec fn arranged<T: Ranked>(before: Seq<T::V>, after: Seq<T::V>) -> bool {
    &&& after.len() == before.len()
    &&& in_order::<T>(after)
    &&& forall|x: T::V| #[trigger] sharing::<T>(after, x) == sharing::<T>(before, x)
}

proof fn lemma_level<T: Ranked>(a: T::V, b: T::V, c: T::V)
    requires
        level::<T>(a, b),
        level::<T>(a, c),
    ensures
        level::<T>(b, c),
{
    T::lemma_chain(b, a, c);
    T::lemma_chain(c, a, b);
}

/// Putting a value before everything it may precede, and behind everything
/// else, keeps a list in order and puts the value first among its equals.
proof fn lemma_placed<T: Ranked>(sorted: Seq<T::V>, x: T::V, at: int, rest: Seq<T::V>)
    requires
        arranged::<T>(rest, sorted),
        0 <= at <= sorted.len(),
        forall|i: int| 0 <= i < at ==> !T::ranked(x, #[trigger] sorted[i]),
        at < sorted.len() ==> T::ranked(x, sorted[at]),
    ensures
        arranged::<T>(seq![x] + rest, sorted.insert(at, x)),
{
    broadcast use vstd::seq_lib::group_seq_properties;

    let placed = sorted.insert(at, x);
    assert forall|i: int, j: int| 0 <= i < j < placed.len() implies T::ranked(
        #[trigger] placed[i],
        #[trigger] placed[j],
    ) by {
        if i < at && j == at {
            T::lemma_total(x, sorted[i]);
        } else if i == at {
            if j - 1 > at {
                T::lemma_chain(x, sorted[at], sorted[j - 1]);
            }
        }
    }
    let left = sorted.take(at);
    let right = sorted.skip(at);
    assert(sorted =~= left + right);
    assert(placed =~= left + (seq![x] + right));
    assert forall|z: T::V| #[trigger] sharing::<T>(placed, z) == sharing::<T>(seq![x] + rest, z) by {
        let p = |y: T::V| level::<T>(z, y);
        Seq::filter_distributes_over_add(left, right, p);
        Seq::filter_distributes_over_add(left, seq![x] + right, p);
        Seq::filter_distributes_over_add(seq![x], right, p);
        Seq::filter_distributes_over_add(seq![x], rest, p);
        assert(sharing::<T>(sorted, z) == sharing::<T>(rest, z));
        reveal_with_fuel(Seq::filter, 2);
        assert(seq![x].drop_last() =~= Seq::<T::V>::empty());
        if level::<T>(z, x) {
            assert forall|i: int| 0 <= i < left.len() implies !p(#[trigger] left[i]) by {
                if level::<T>(z, left[i]) {
                    lemma_level::<T>(z, x, left[i]);
                    assert(left[i] == sorted[i]);
                }
            }
            left.lemma_all_neg_filter_empty(p);
            assert(placed.filter(p) =~= seq![x] + sorted.filter(p));
        } else {
            assert(seq![x].filter(p) =~= Seq::<T::V>::empty());
            assert(placed.filter(p) =~= sorted.filter(p));
            assert((seq![x] + rest).filter(p) =~= rest.filter(p));
        }
    }
}

/// Puts a list in order. Values that share a place keep the order they had.
pub fn arrange<T: Ranked>(items: &mut Vec<T>)
    ensures
        arranged::<T>(views(old(items)@), views(final(items)@)),
{
    let ghost all = items@;
    let mut sorted: Vec<T> = Vec::new();
    assert(all.skip(all.len() as int) =~= Seq::<T>::empty());
    assert(views(sorted@) =~= views(all.skip(all.len() as int)));
    while items.len() > 0
        invariant
            items@.len() <= all.len(),
            items@ == all.take(items@.len() as int),
            arranged::<T>(views(all.skip(items@.len() as int)), views(sorted@)),
        decreases items@.len(),
    {
        let ghost k = items@.len() - 1;
        let ghost rest = views(all.skip(k + 1));
        let x = items.pop().unwrap();
        assert(x == all[k]);
        assert(items@ =~= all.take(k));
        let mut at: usize = 0;
        while at < sorted.len() && !x.may_precede(&sorted[at])
            invariant
                at <= sorted@.len(),
                forall|i: int| 0 <= i < at ==> !T::ranked(x@, #[trigger] views(sorted@)[i]),
            ensures
                at <= sorted@.len(),
                forall|i: int| 0 <= i < at ==> !T::ranked(x@, #[trigger] views(sorted@)[i]),
                at < sorted@.len() ==> T::ranked(x@, views(sorted@)[at as int]),
            decreases sorted@.len() - at,
        {
            at = at + 1;
        }
        proof {
            lemma_placed::<T>(views(sorted@), x@, at as int, rest);
            assert(seq![x@] + rest =~= views(all.skip(k)));
            assert(views(sorted@.insert(at as int, x)) =~= views(sorted@).insert(at as int, x@));
        }
        sorted.insert(at, x);
    }
    assert(all.skip(0) =~= all);
    *items = sorted;
}

/// A list can be put in order in one way only.
pub proof fn law_one_arrangement<T: Ranked>(items: Seq<T::V>, a: Seq<T::V>, b: Seq<T::V>)
    requires
        arranged::<T>(items, a),
        arranged::<T>(items, b),
    ensures
        a == b,
{
    assert forall|x: T::V| #[trigger] sharing::<T>(a, x) == sharing::<T>(b, x) by {
        assert(sharing::<T>(a, x) == sharing::<T>(items, x));
        assert(sharing::<T>(b, x) == sharing::<T>(items, x));
    }
    lemma_same_order::<T>(a, b);
}

proof fn lemma_head_first<T: Ranked>(a: Seq<T::V>, b: Seq<T::V>)
    requires
        in_order::<T>(b),
        forall|x: T::V| #[trigger] sharing::<T>(a, x) == sharing::<T>(b, x),
        a.len() > 0,
    ensures
        b.len() > 0,
        T::ranked(b[0], a[0]),
{
    let x = a[0];
    let p = |y: T::V| level::<T>(x, y);
    T::lemma_total(x, x);
    assert(p(a[0]));
    a.lemma_filter_contains(p, 0);
    assert(sharing::<T>(a, x) == sharing::<T>(b, x));
    assert(b.filter(p).contains(x));
    b.lemma_filter_contains_rev(p, x);
    let j = choose|j: int| 0 <= j < b.len() && b[j] == x;
    if j > 0 {
        assert(T::ranked(b[0], b[j]));
    } else {
        T::lemma_total(x, x);
    }
}

proof fn lemma_same_order<T: Ranked>(a: Seq<T::V>, b: Seq<T::V>)
    requires
        in_order::<T>(a),
        in_order::<T>(b),
        forall|x: T::V| #[trigger] sharing::<T>(a, x) == sharing::<T>(b, x),
    ensures
        a == b,
    decreases a.len(),
{
    if a.len() == 0 {
        if b.len() > 0 {
            lemma_head_first::<T>(b, a);
        }
        assert(a =~= b);
    } else {
        lemma_head_first::<T>(a, b);
        lemma_head_first::<T>(b, a);
        let x = a[0];
        let tail_a = a.drop_first();
        let tail_b = b.drop_first();
        assert(a =~= seq![x] + tail_a);
        assert(b =~= seq![b[0]] + tail_b);
        T::lemma_total(x, x);
        assert forall|z: T::V| #[trigger] sharing::<T>(tail_a, z) == sharing::<T>(tail_b, z) && (
        level::<T>(z, x) ==> x == b[0]) by {
            let p = |y: T::V| level::<T>(z, y);
            Seq::filter_distributes_over_add(seq![x], tail_a, p);
            Seq::filter_distributes_over_add(seq![b[0]], tail_b, p);
            reveal_with_fuel(Seq::filter, 2);
            assert(seq![x].drop_last() =~= Seq::<T::V>::empty());
            assert(seq![b[0]].drop_last() =~= Seq::<T::V>::empty());
            assert(sharing::<T>(a, z) == sharing::<T>(b, z));
            if level::<T>(z, x) {
                lemma_level::<T>(x, z, b[0]);
                assert(a.filter(p) =~= seq![x] + tail_a.filter(p));
                assert(b.filter(p) =~= seq![b[0]] + tail_b.filter(p));
                assert(a.filter(p)[0] == b.filter(p)[0]);
                assert(a.filter(p).drop_first() =~= tail_a.filter(p));
                assert(b.filter(p).drop_first() =~= tail_b.filter(p));
            } else {
                if level::<T>(z, b[0]) {
                    lemma_level::<T>(b[0], z, x);
                }
                assert(a.filter(p) =~= tail_a.filter(p));
                assert(b.filter(p) =~= tail_b.filter(p));
            }
        }
        assert(sharing::<T>(tail_a, x) == sharing::<T>(tail_b, x));
        assert(x == b[0]);
        assert forall|i: int, j: int| 0 <= i < j < tail_a.len() implies T::ranked(
            #[trigger] tail_a[i],
            #[trigger] tail_a[j],
        ) by {
            assert(tail_a[i] == a[i + 1]);
            assert(tail_a[j] == a[j + 1]);
        }
        assert forall|i: int, j: int| 0 <= i < j < tail_b.len() implies T::ranked(
            #[trigger] tail_b[i],
            #[trigger] tail_b[j],
        ) by {
            assert(tail_b[i] == b[i + 1]);
            assert(tail_b[j] == b[j + 1]);
        }
        lemma_same_order::<T>(tail_a, tail_b);
        assert(a =~= b);
    }
}

/// What is already in order is left as it is.
pub proof fn law_order_is_kept<T: Ranked>(items: Seq<T::V>, after: Seq<T::V>)
    requires
        in_order::<T>(items),
        arranged::<T>(items, after),
    ensures
        after == items,
{
    law_one_arrangement::<T>(items, items, after);
}

/// Putting a list in order neither loses a value nor makes one up.
pub proof fn law_arranging_keeps_everything<T: Ranked>(before: Seq<T::V>, after: Seq<T::V>, x: T::V)
    requires
        arranged::<T>(before, after),
    ensures
        before.contains(x) <==> after.contains(x),
{
    let p = |y: T::V| level::<T>(x, y);
    T::lemma_total(x, x);
    assert(p(x));
    assert(sharing::<T>(before, x) == sharing::<T>(after, x));
    if before.contains(x) {
        let i = choose|i: int| 0 <= i < before.len() && before[i] == x;
        before.lemma_filter_contains(p, i);
        after.lemma_filter_contains_rev(p, x);
    }
    if after.contains(x) {
        let i = choose|i: int| 0 <= i < after.len() && after[i] == x;
        after.lemma_filter_contains(p, i);
        before.lemma_filter_contains_rev(p, x);
    }
}

/// Of two texts one stands before the other, unless they are the same.
pub proof fn lemma_text_total(a: Seq<char>, b: Seq<char>)
    ensures
        text_before(a, b) || text_before(b, a) || a == b,
        !(text_before(a, b) && text_before(b, a)),
        a == b ==> !text_before(a, b),
    decreases a.len(),
{
    if a.len() > 0 && b.len() > 0 {
        lemma_text_total(a.drop_first(), b.drop_first());
        if a[0] == b[0] && a.drop_first() == b.drop_first() {
            assert(a =~= seq![a[0]] + a.drop_first());
            assert(b =~= seq![b[0]] + b.drop_first());
        }
    } else if a.len() == 0 && b.len() == 0 {
        assert(a =~= b);
    }
}

/// The order of texts carries over.
pub proof fn lemma_text_chain(a: Seq<char>, b: Seq<char>, c: Seq<char>)
    requires
        text_before(a, b),
        text_before(b, c),
    ensures
        text_before(a, c),
    decreases a.len(),
{
    if a.len() > 0 && a[0] == b[0] && b[0] == c[0] {
        lemma_text_chain(a.drop_first(), b.drop_first(), c.drop_first());
    }
}

/// A text is ordered by its characters.
impl Ranked for &'static str {
    open spec fn ranked(a: Seq<char>, b: Seq<char>) -> bool {
        !text_before(b, a)
    }

    proof fn lemma_total(a: Seq<char>, b: Seq<char>) {
        lemma_text_total(a, b);
    }

    proof fn lemma_chain(a: Seq<char>, b: Seq<char>, c: Seq<char>) {
        if text_before(c, a) {
            lemma_text_total(a, b);
            lemma_text_total(b, c);
            if a == b || b == c {
            } else {
                lemma_text_chain(a, b, c);
                lemma_text_total(a, c);
            }
        }
    }

    fn may_precede(&self, other: &Self) -> (r: bool) {
        !precedes(*other, *self)
    }
}

/// Putting a list in order only moves its values: each occurs as often as before.
pub proof fn law_arranging_only_moves<T: Ranked>(before: Seq<T::V>, after: Seq<T::V>)
    requires
        arranged::<T>(before, after),
    ensures
        before.to_multiset() == after.to_multiset(),
{
    lemma_same_values::<T>(before, after);
}

proof fn lemma_same_values<T: Ranked>(a: Seq<T::V>, b: Seq<T::V>)
    requires
        forall|x: T::V| #[trigger] sharing::<T>(b, x) == sharing::<T>(a, x),
    ensures
        a.to_multiset() == b.to_multiset(),
        a.len() == b.len(),
{
    broadcast use vstd::seq_lib::group_to_multiset_ensures;

    assert forall|x: T::V| #[trigger] a.to_multiset().count(x) == b.to_multiset().count(x) by {
        let p = |y: T::V| level::<T>(x, y);
        T::lemma_total(x, x);
        assert(sharing::<T>(b, x) == sharing::<T>(a, x));
        lemma_count_filtered(a, p, x);
        lemma_count_filtered(b, p, x);
    }
    assert(a.to_multiset() =~= b.to_multiset());
    assert(a.to_multiset().len() == b.to_multiset().len());
}

proof fn lemma_filter_in_order<T: Ranked>(items: Seq<T::V>, keep: spec_fn(T::V) -> bool)
    requires
        in_order::<T>(items),
    ensures
        in_order::<T>(items.filter(keep)),
    decreases items.len(),
{
    reveal(Seq::filter);
    if items.len() > 0 {
        let rest = items.drop_last();
        assert(forall|i: int| 0 <= i < rest.len() ==> #[trigger] rest[i] == items[i]);
        lemma_filter_in_order::<T>(rest, keep);
        let kept = rest.filter(keep);
        assert forall|i: int| 0 <= i < kept.len() implies T::ranked(
            #[trigger] kept[i],
            items.last(),
        ) by {
            assert(kept.contains(kept[i]));
            rest.lemma_filter_contains_rev(keep, kept[i]);
            let k = choose|k: int| 0 <= k < rest.len() && rest[k] == kept[i];
            assert(T::ranked(items[k], items[items.len() - 1]));
        }
    }
}

/// What is taken out of a list before it is put in order is just missing
/// afterwards: the rest stands as it would have stood.
pub proof fn law_taking_out_keeps_the_arrangement<T: Ranked>(
    before: Seq<T::V>,
    after: Seq<T::V>,
    keep: spec_fn(T::V) -> bool,
)
    requires
        arranged::<T>(before, after),
    ensures
        arranged::<T>(before.filter(keep), after.filter(keep)),
{
    lemma_filter_in_order::<T>(after, keep);
    assert forall|x: T::V| #[trigger] sharing::<T>(after.filter(keep), x) == sharing::<T>(
        before.filter(keep),
        x,
    ) by {
        let p = |y: T::V| level::<T>(x, y);
        assert(sharing::<T>(after, x) == sharing::<T>(before, x));
        lemma_filters_commute(before, keep, p);
        lemma_filters_commute(after, keep, p);
    }
    lemma_same_values::<T>(before.filter(keep), after.filter(keep));
}

} // verus!
