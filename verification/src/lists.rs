//! Facts about lists that are built item by item.

use vstd::prelude::*;

verus! {

/// What is gathered from two lists, one behind the other, is what is gathered
/// from the first and then from the second.
pub proof fn lemma_gathered_apart<A, B>(a: Seq<A>, b: Seq<A>, f: spec_fn(A) -> Seq<B>)
    ensures
        (a + b).flat_map(f) == a.flat_map(f) + b.flat_map(f),
    decreases b.len(),
{
    if b.len() == 0 {
        assert(a + b =~= a);
        assert(b.flat_map(f) =~= Seq::empty());
        assert(a.flat_map(f) + Seq::empty() =~= a.flat_map(f));
    } else {
        let rest = b.drop_last();
        lemma_gathered_apart(a, rest, f);
        assert(a + b =~= (a + rest).push(b.last()));
        assert(b =~= rest.push(b.last()));
        (a + rest).lemma_flat_map_push(f, b.last());
        rest.lemma_flat_map_push(f, b.last());
        assert((a + b).flat_map(f) =~= a.flat_map(f) + b.flat_map(f));
    }
}

/// What is gathered comes from some item.
pub proof fn lemma_gathered_from_one<A, B>(s: Seq<A>, f: spec_fn(A) -> Seq<B>, x: B)
    requires
        s.flat_map(f).contains(x),
    ensures
        exists|i: int| 0 <= i < s.len() && f(#[trigger] s[i]).contains(x),
    decreases s.len(),
{
    if s.len() == 0 {
        assert(s.flat_map(f) =~= Seq::empty());
    } else {
        let rest = s.drop_last();
        assert(s =~= rest.push(s.last()));
        rest.lemma_flat_map_push(f, s.last());
        let all = rest.flat_map(f) + f(s.last());
        let k = choose|k: int| 0 <= k < all.len() && all[k] == x;
        if k < rest.flat_map(f).len() {
            assert(rest.flat_map(f)[k] == x);
            lemma_gathered_from_one(rest, f, x);
            let i = choose|i: int| 0 <= i < rest.len() && f(#[trigger] rest[i]).contains(x);
            assert(s[i] == rest[i]);
        } else {
            assert(f(s.last())[k - rest.flat_map(f).len()] == x);
            assert(s[s.len() - 1] == s.last());
        }
    }
}

/// Nothing is gathered from a list whose items have nothing to give.
pub proof fn lemma_gathered_nothing<A, B>(s: Seq<A>, f: spec_fn(A) -> Seq<B>)
    requires
        forall|i: int| 0 <= i < s.len() ==> f(#[trigger] s[i]).len() == 0,
    ensures
        s.flat_map(f) == Seq::<B>::empty(),
{
    if s.flat_map(f).len() > 0 {
        assert(s.flat_map(f).contains(s.flat_map(f)[0]));
        lemma_gathered_from_one(s, f, s.flat_map(f)[0]);
    }
    assert(s.flat_map(f) =~= Seq::empty());
}

/// What is picked from two lists, one behind the other, is what is picked from
/// the first and then from the second.
pub proof fn lemma_picked_apart<A, B>(a: Seq<A>, b: Seq<A>, f: spec_fn(A) -> Option<B>)
    ensures
        (a + b).filter_map(f) == a.filter_map(f) + b.filter_map(f),
    decreases b.len(),
{
    if b.len() == 0 {
        assert(a + b =~= a);
        assert(b.filter_map(f) =~= Seq::empty());
        assert(a.filter_map(f) + Seq::empty() =~= a.filter_map(f));
    } else {
        let rest = b.drop_last();
        lemma_picked_apart(a, rest, f);
        assert((a + b).drop_last() =~= a + rest);
        assert((a + b).filter_map(f) =~= a.filter_map(f) + b.filter_map(f));
    }
}

/// An item that is not picked might as well not be there.
pub proof fn lemma_unpicked_item<A, B>(a: Seq<A>, x: A, b: Seq<A>, f: spec_fn(A) -> Option<B>)
    requires
        f(x) is None,
    ensures
        (a + seq![x] + b).filter_map(f) == (a + b).filter_map(f),
{
    lemma_picked_apart(a + seq![x], b, f);
    lemma_picked_apart(a, seq![x], f);
    lemma_picked_apart(a, b, f);
    Seq::lemma_filter_map_singleton(x, f);
    assert(a.filter_map(f) + Seq::empty() =~= a.filter_map(f));
}

/// Folding over two lists, one behind the other, is folding over the second
/// from where the first led.
pub proof fn lemma_folded_apart<A, B>(a: Seq<A>, b: Seq<A>, start: B, f: spec_fn(B, A) -> B)
    ensures
        (a + b).fold_left(start, f) == b.fold_left(a.fold_left(start, f), f),
    decreases b.len(),
{
    if b.len() == 0 {
        assert(a + b =~= a);
    } else {
        lemma_folded_apart(a, b.drop_last(), start, f);
        assert((a + b).drop_last() =~= a + b.drop_last());
    }
}

/// One more step of a fold.
pub proof fn lemma_fold_step<A, B>(items: Seq<A>, start: B, f: spec_fn(B, A) -> B, i: int)
    requires
        0 <= i < items.len(),
    ensures
        items.take(i + 1).fold_left(start, f) == f(items.take(i).fold_left(start, f), items[i]),
{
    assert(items.take(i + 1).drop_last() =~= items.take(i));
}

/// An item that changes nothing might as well not be there.
pub proof fn lemma_idle_item<A, B>(a: Seq<A>, x: A, b: Seq<A>, start: B, f: spec_fn(B, A) -> B)
    requires
        forall|y: B| #[trigger] f(y, x) == y,
    ensures
        (a + seq![x] + b).fold_left(start, f) == (a + b).fold_left(start, f),
{
    lemma_folded_apart(a + seq![x], b, start, f);
    lemma_folded_apart(a, seq![x], start, f);
    lemma_folded_apart(a, b, start, f);
    reveal_with_fuel(Seq::fold_left, 2);
    assert(seq![x].drop_last() =~= Seq::<A>::empty());
}

/// What an item gives is gathered.
pub proof fn lemma_gathered_item<A, B>(s: Seq<A>, f: spec_fn(A) -> Seq<B>, i: int, x: B)
    requires
        0 <= i < s.len(),
        f(s[i]).contains(x),
    ensures
        s.flat_map(f).contains(x),
{
    let a = s.take(i);
    let b = s.skip(i + 1);
    assert(s =~= a + seq![s[i]] + b);
    lemma_gathered_apart(a + seq![s[i]], b, f);
    lemma_gathered_apart(a, seq![s[i]], f);
    seq![s[i]].lemma_flat_map_singleton(f);
    let given = f(s[i]);
    let k = choose|k: int| 0 <= k < given.len() && given[k] == x;
    assert(s.flat_map(f)[a.flat_map(f).len() + k] == x);
}

/// An item that is picked is among those picked.
pub proof fn lemma_picked_item<A, B>(s: Seq<A>, f: spec_fn(A) -> Option<B>, i: int)
    requires
        0 <= i < s.len(),
        f(s[i]) is Some,
    ensures
        s.filter_map(f).contains(f(s[i]).unwrap()),
{
    let a = s.take(i);
    let b = s.skip(i + 1);
    assert(s =~= a + seq![s[i]] + b);
    lemma_picked_apart(a + seq![s[i]], b, f);
    lemma_picked_apart(a, seq![s[i]], f);
    Seq::lemma_filter_map_singleton(s[i], f);
    assert(s.filter_map(f)[a.filter_map(f).len() as int] == f(s[i]).unwrap());
}

/// What every step of a fold keeps, the fold keeps.
pub proof fn lemma_fold_keeps<A, B>(
    s: Seq<A>,
    start: B,
    f: spec_fn(B, A) -> B,
    p: spec_fn(B) -> bool,
)
    requires
        p(start),
        forall|b: B, a: A| p(b) ==> p(#[trigger] f(b, a)),
    ensures
        p(s.fold_left(start, f)),
    decreases s.len(),
{
    if s.len() > 0 {
        lemma_fold_keeps(s.drop_last(), start, f, p);
    }
}

/// What one step of a fold brings about and every step keeps holds at the end.
pub proof fn lemma_fold_reaches<A, B>(
    s: Seq<A>,
    start: B,
    f: spec_fn(B, A) -> B,
    p: spec_fn(B) -> bool,
    i: int,
)
    requires
        0 <= i < s.len(),
        forall|b: B| p(#[trigger] f(b, s[i])),
        forall|b: B, a: A| p(b) ==> p(#[trigger] f(b, a)),
    ensures
        p(s.fold_left(start, f)),
{
    let a = s.take(i + 1);
    let b = s.skip(i + 1);
    assert(s =~= a + b);
    lemma_folded_apart(a, b, start, f);
    lemma_fold_step(s, start, f, i);
    lemma_fold_keeps(b, a.fold_left(start, f), f, p);
}

/// Where every item is kept, nothing is filtered out.
pub proof fn lemma_nothing_filtered<A>(s: Seq<A>, p: spec_fn(A) -> bool)
    requires
        forall|i: int| 0 <= i < s.len() ==> p(#[trigger] s[i]),
    ensures
        s.filter(p) == s,
    decreases s.len(),
{
    reveal(Seq::filter);
    if s.len() > 0 {
        let rest = s.drop_last();
        assert(forall|i: int| 0 <= i < rest.len() ==> #[trigger] rest[i] == s[i]);
        lemma_nothing_filtered(rest, p);
        assert(p(s[s.len() - 1]));
        assert(s =~= rest.push(s.last()));
    } else {
        assert(s.filter(p) =~= s);
    }
}

/// Two filters can be applied in either order.
pub proof fn lemma_filters_commute<A>(s: Seq<A>, p: spec_fn(A) -> bool, q: spec_fn(A) -> bool)
    ensures
        s.filter(p).filter(q) == s.filter(q).filter(p),
    decreases s.len(),
{
    reveal(Seq::filter);
    if s.len() > 0 {
        let rest = s.drop_last();
        lemma_filters_commute(rest, p, q);
        let by_p = rest.filter(p);
        let by_q = rest.filter(q);
        assert(by_p.push(s.last()).drop_last() =~= by_p);
        assert(by_q.push(s.last()).drop_last() =~= by_q);
    }
}

/// To gather what is left of each item's part is to gather everything and keep
/// what is left of that.
pub proof fn lemma_gathered_filtered<A, B>(
    s: Seq<A>,
    f: spec_fn(A) -> Seq<B>,
    g: spec_fn(A) -> Seq<B>,
    p: spec_fn(B) -> bool,
)
    requires
        forall|i: int| 0 <= i < s.len() ==> g(#[trigger] s[i]) == f(s[i]).filter(p),
    ensures
        s.flat_map(g) == s.flat_map(f).filter(p),
    decreases s.len(),
{
    if s.len() == 0 {
        reveal(Seq::filter);
        assert(s.flat_map(f) =~= Seq::empty());
        assert(s.flat_map(g) =~= Seq::empty());
    } else {
        let rest = s.drop_last();
        let last = s[s.len() - 1];
        assert(forall|i: int| 0 <= i < rest.len() ==> #[trigger] rest[i] == s[i]);
        lemma_gathered_filtered(rest, f, g, p);
        assert(s =~= rest.push(last));
        rest.lemma_flat_map_push(f, last);
        rest.lemma_flat_map_push(g, last);
        Seq::filter_distributes_over_add(rest.flat_map(f), f(last), p);
    }
}

/// To gather what each item's part is turned into is to gather everything and
/// turn that.
pub proof fn lemma_gathered_turned<A, B>(
    s: Seq<A>,
    f: spec_fn(A) -> Seq<B>,
    g: spec_fn(A) -> Seq<B>,
    turn: spec_fn(B) -> B,
)
    requires
        forall|i: int| 0 <= i < s.len() ==> g(#[trigger] s[i]) == f(s[i]).map_values(turn),
    ensures
        s.flat_map(g) == s.flat_map(f).map_values(turn),
    decreases s.len(),
{
    if s.len() == 0 {
        assert(s.flat_map(f) =~= Seq::empty());
        assert(s.flat_map(g) =~= Seq::empty());
    } else {
        let rest = s.drop_last();
        let last = s[s.len() - 1];
        assert(forall|i: int| 0 <= i < rest.len() ==> #[trigger] rest[i] == s[i]);
        lemma_gathered_turned(rest, f, g, turn);
        assert(s =~= rest.push(last));
        rest.lemma_flat_map_push(f, last);
        rest.lemma_flat_map_push(g, last);
        assert((rest.flat_map(f) + f(last)).map_values(turn) =~= rest.flat_map(f).map_values(turn)
            + f(last).map_values(turn));
    }
}

/// To pick what items are turned into is to pick the items and turn them.
pub proof fn lemma_picked_turned<A, B>(
    s: Seq<A>,
    f: spec_fn(A) -> Option<B>,
    g: spec_fn(A) -> Option<B>,
    turn: spec_fn(B) -> B,
)
    requires
        forall|a: A|
            #[trigger] g(a) == (match f(a) {
                Some(b) => Some(turn(b)),
                None => None,
            }),
    ensures
        s.filter_map(g) == s.filter_map(f).map_values(turn),
    decreases s.len(),
{
    if s.len() == 0 {
        assert(s.filter_map(g) =~= s.filter_map(f).map_values(turn));
    } else {
        let rest = s.drop_last();
        lemma_picked_turned(rest, f, g, turn);
        assert(g(s.last()) is Some <==> f(s.last()) is Some);
        assert(s.filter_map(g) =~= s.filter_map(f).map_values(turn));
    }
}

/// A filter that keeps a value keeps it as often as it occurs.
pub proof fn lemma_count_filtered<A>(s: Seq<A>, p: spec_fn(A) -> bool, x: A)
    requires
        p(x),
    ensures
        s.filter(p).to_multiset().count(x) == s.to_multiset().count(x),
    decreases s.len(),
{
    broadcast use vstd::seq_lib::group_to_multiset_ensures;

    reveal(Seq::filter);
    if s.len() > 0 {
        let rest = s.drop_last();
        lemma_count_filtered(rest, p, x);
        assert(s =~= rest.push(s.last()));
    }
}

/// Lists of the same values, each as often, are turned into such lists.
pub proof fn lemma_turned_multiset<A, B>(s: Seq<A>, t: Seq<A>, turn: spec_fn(A) -> B)
    requires
        s.to_multiset() == t.to_multiset(),
    ensures
        s.map_values(turn).to_multiset() == t.map_values(turn).to_multiset(),
    decreases s.len(),
{
    s.to_multiset_ensures();
    t.to_multiset_ensures();
    if s.len() == 0 {
        assert(s.map_values(turn) =~= t.map_values(turn));
    } else {
        let x = s.last();
        assert(s.contains(x));
        vstd::seq_lib::to_multiset_contains(s, x);
        vstd::seq_lib::to_multiset_contains(t, x);
        assert(t.contains(x));
        let k = choose|k: int| 0 <= k < t.len() && t[k] == x;
        assert(s.remove(s.len() - 1) =~= s.drop_last());
        lemma_turned_multiset(s.drop_last(), t.remove(k), turn);
        let turned = t.map_values(turn);
        s.drop_last().map_values(turn).to_multiset_ensures();
        vstd::seq_lib::to_multiset_insert(turned.remove(k), k, turned[k]);
        assert(s.map_values(turn) =~= s.drop_last().map_values(turn).push(turn(x)));
        assert(turned.remove(k) =~= t.remove(k).map_values(turn));
        assert(turned.remove(k).insert(k, turned[k]) =~= turned);
    }
}

} // verus!
