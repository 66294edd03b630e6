//! What is promised of text.

use crate::text::{
    begins, byte_length, ends, first_at, holds, is_space, lemma_split_apart, lemma_split_len,
    lemma_split_whole, lines, lowered, occurs_at, split, text_before, trimmed, trimmed_end,
    trimmed_start, without_return,
};
use vstd::prelude::*;

verus! {

broadcast use vstd::seq_lib::group_seq_properties;

/// True for a text with another one at its start.
pub open spec fn starts(s: Seq<char>, w: Seq<char>) -> bool {
    exists|rest: Seq<char>| s == #[trigger] (w + rest)
}

/// True for a text with another one at its end.
pub open spec fn closes_with(s: Seq<char>, w: Seq<char>) -> bool {
    exists|front: Seq<char>| s == #[trigger] (front + w)
}

/// True for a text with another one somewhere in it.
pub open spec fn has_in_it(s: Seq<char>, w: Seq<char>) -> bool {
    exists|front: Seq<char>, rest: Seq<char>| s == #[trigger] (front + w + rest)
}

/// True for two texts that differ at most in that the first has upper case
/// ASCII letters where the second has lower case ones.
pub open spec fn in_small_letters(s: Seq<char>, small: Seq<char>) -> bool {
    &&& s.len() == small.len()
    &&& forall|i: int|
        0 <= i < s.len() ==> (#[trigger] small[i]) as int == (if 65 <= s[i] as int <= 90 {
            s[i] as int + 32
        } else {
            s[i] as int
        })
}

/// True for a text of which another one is what is left without white space
/// around it.
pub open spec fn bare(s: Seq<char>, inner: Seq<char>) -> bool {
    &&& exists|front: Seq<char>, rest: Seq<char>|
        blank(front) && blank(rest) && s == #[trigger] (front + inner + rest)
    &&& inner.len() > 0 ==> !white(inner[0]) && !white(inner.last())
}

/// True for a text that is all white space.
pub open spec fn blank(s: Seq<char>) -> bool {
    forall|i: int| 0 <= i < s.len() ==> white(#[trigger] s[i])
}

/// The characters that Unicode counts as white space.
pub open spec fn white(c: char) -> bool {
    let n = c as int;
    9 <= n <= 13 || n == 0x20 || n == 0x85 || n == 0xa0 || n == 0x1680 || 0x2000 <= n <= 0x200a || n
        == 0x2028 || n == 0x2029 || n == 0x202f || n == 0x205f || n == 0x3000
}

/// A text stands in another one at a place exactly when the other one is made of
/// so many characters, the text, and something behind it.
pub proof fn law_where_a_text_stands(s: Seq<char>, w: Seq<char>, i: int)
    ensures
        occurs_at(s, w, i) <==> exists|front: Seq<char>, rest: Seq<char>|
            front.len() == i && s == #[trigger] (front + w + rest),
{
    if occurs_at(s, w, i) {
        let front = s.take(i);
        let rest = s.skip(i + w.len());
        assert(s =~= front + w + rest) by {
            assert(s.subrange(i, i + w.len()) == w);
        }
    }
    if exists|front: Seq<char>, rest: Seq<char>|
        front.len() == i && s == #[trigger] (front + w + rest) {
        let (front, rest) = choose|front: Seq<char>, rest: Seq<char>|
            front.len() == i && s == #[trigger] (front + w + rest);
        assert(s.subrange(i, i + w.len()) =~= w);
    }
}

/// To hold a text is to have it somewhere, to begin with it is to have it at the
/// start, and to end with it is to have it at the end.
pub proof fn law_holding_is_having(s: Seq<char>, w: Seq<char>)
    ensures
        holds(s, w) <==> has_in_it(s, w),
        begins(s, w) <==> starts(s, w),
        ends(s, w) <==> closes_with(s, w),
{
    if holds(s, w) {
        let i = choose|i: int| occurs_at(s, w, i);
        law_where_a_text_stands(s, w, i);
    }
    if has_in_it(s, w) {
        let (front, rest) = choose|front: Seq<char>, rest: Seq<char>|
            s == #[trigger] (front + w + rest);
        law_where_a_text_stands(s, w, front.len() as int);
        assert(occurs_at(s, w, front.len() as int));
    }
    law_where_a_text_stands(s, w, 0);
    if begins(s, w) {
        assert(s =~= w + s.skip(w.len() as int)) by {
            assert(s.subrange(0, w.len() as int) == w);
        }
    }
    if starts(s, w) {
        let rest = choose|rest: Seq<char>| s == #[trigger] (w + rest);
        assert(s.subrange(0, w.len() as int) =~= w);
    }
    let at = s.len() - w.len();
    if ends(s, w) {
        assert(s =~= s.take(at) + w) by {
            assert(s.subrange(at, at + w.len()) == w);
        }
    }
    if closes_with(s, w) {
        let front = choose|front: Seq<char>| s == #[trigger] (front + w);
        assert(s.subrange(at, at + w.len()) =~= w);
    }
}

/// The first place at which a text stands is one at which it stands, and it
/// stands at none before; where there is none it stands nowhere from there on.
pub proof fn law_the_first_place(s: Seq<char>, w: Seq<char>, from: int)
    requires
        0 <= from,
    ensures
        match first_at(s, w, from) {
            Some(i) => from <= i && occurs_at(s, w, i) && forall|j: int|
                from <= j < i ==> !occurs_at(s, w, j),
            None => forall|j: int| from <= j ==> !occurs_at(s, w, j),
        },
    decreases s.len() + 1 - from,
{
    if from <= s.len() && !occurs_at(s, w, from) {
        law_the_first_place(s, w, from + 1);
    }
}

/// Lowering changes upper case ASCII letters, and nothing else.
pub proof fn law_lowering(s: Seq<char>)
    ensures
        in_small_letters(s, lowered(s)),
{
    assert('A' as int == 65 && 'Z' as int == 90);
    assert forall|i: int| 0 <= i < s.len() implies (#[trigger] lowered(s)[i]) as int == (if 65
        <= s[i] as int <= 90 {
        s[i] as int + 32
    } else {
        s[i] as int
    }) by {
        let c = s[i];
        if 65 <= c as int <= 90 {
            assert((c as u32 + 32) as char as int == c as int + 32);
        }
    }
}

/// There is one way to lower a text.
pub proof fn lemma_one_lowering(s: Seq<char>, a: Seq<char>)
    requires
        in_small_letters(s, a),
    ensures
        a == lowered(s),
{
    law_lowering(s);
    assert forall|i: int| 0 <= i < s.len() implies a[i] == lowered(s)[i] by {
        assert(a[i] as int == lowered(s)[i] as int);
    }
    assert(a =~= lowered(s));
}

/// White space is what Unicode says it is.
pub proof fn law_white_space(c: char)
    ensures
        is_space(c) <==> white(c),
{
    assert(' ' as int == 0x20);
}

/// Trimming takes white space off the ends, all of it, and nothing else.
pub proof fn law_trimming(s: Seq<char>)
    ensures
        bare(s, trimmed(s)),
{
    lemma_trimmed_front(s);
    let t = trimmed_start(s);
    lemma_trimmed_back(t);
    let inner = trimmed_end(t);
    let front = choose|front: Seq<char>| blank(front) && s == #[trigger] (front + t);
    let rest = choose|rest: Seq<char>| blank(rest) && t == #[trigger] (inner + rest);
    assert(s =~= front + inner + rest);
    if inner.len() > 0 {
        assert(inner[0] == t[0]);
    }
}

/// Trimming the start takes the white space off the start, all of it, and
/// nothing else.
pub proof fn lemma_trimmed_front(s: Seq<char>)
    ensures
        exists|front: Seq<char>| blank(front) && s == #[trigger] (front + trimmed_start(s)),
        trimmed_start(s).len() > 0 ==> !white(trimmed_start(s)[0]),
    decreases s.len(),
{
    if s.len() > 0 {
        law_white_space(s[0]);
    }
    if s.len() > 0 && is_space(s[0]) {
        let tail = s.drop_first();
        lemma_trimmed_front(tail);
        let front = choose|front: Seq<char>|
            blank(front) && tail == #[trigger] (front + trimmed_start(tail));
        let all = seq![s[0]] + front;
        assert(blank(all)) by {
            assert forall|i: int| 0 <= i < all.len() implies white(#[trigger] all[i]) by {
                if i > 0 {
                    assert(white(front[i - 1]));
                }
            }
        }
        assert(s =~= all + trimmed_start(s));
    } else {
        let none = Seq::<char>::empty();
        assert(blank(none));
        assert(s =~= none + trimmed_start(s));
    }
}

/// Trimming the end takes the white space off the end, all of it, and nothing
/// else.
pub proof fn lemma_trimmed_back(s: Seq<char>)
    ensures
        exists|rest: Seq<char>| blank(rest) && s == #[trigger] (trimmed_end(s) + rest),
        trimmed_end(s).len() > 0 ==> !white(trimmed_end(s).last()),
    decreases s.len(),
{
    if s.len() > 0 {
        law_white_space(s.last());
    }
    if s.len() > 0 && is_space(s.last()) {
        let head = s.drop_last();
        lemma_trimmed_back(head);
        let rest = choose|rest: Seq<char>|
            blank(rest) && head == #[trigger] (trimmed_end(head) + rest);
        let all = rest.push(s.last());
        assert(blank(all)) by {
            assert forall|i: int| 0 <= i < all.len() implies white(#[trigger] all[i]) by {
                if i < rest.len() {
                    assert(white(rest[i]));
                }
            }
        }
        assert(trimmed_end(s) == trimmed_end(head));
        assert(s =~= head.push(s.last()));
        assert(s =~= trimmed_end(head) + all);
    } else {
        let none = Seq::<char>::empty();
        assert(blank(none));
        assert(s =~= trimmed_end(s) + none);
    }
}

/// A text stands before another one when they are the same up to a place, and
/// there the first ends or has the smaller character.
pub proof fn law_the_order_of_texts(a: Seq<char>, b: Seq<char>)
    ensures
        text_before(a, b) <==> exists|k: int| #[trigger] parts_ways(a, b, k),
    decreases a.len(),
{
    if text_before(a, b) {
        if a.len() == 0 || a[0] < b[0] {
            assert(a.take(0) =~= b.take(0));
            assert(parts_ways(a, b, 0));
        } else {
            law_the_order_of_texts(a.drop_first(), b.drop_first());
            let k = choose|k: int| #[trigger] parts_ways(a.drop_first(), b.drop_first(), k);
            assert(a.take(k + 1) =~= seq![a[0]] + a.drop_first().take(k));
            assert(b.take(k + 1) =~= seq![b[0]] + b.drop_first().take(k));
            assert(parts_ways(a, b, k + 1));
        }
    }
    if exists|k: int| #[trigger] parts_ways(a, b, k) {
        let k = choose|k: int| #[trigger] parts_ways(a, b, k);
        if k > 0 {
            assert(a.take(k)[0] == b.take(k)[0]);
            assert(a.drop_first().take(k - 1) =~= a.take(k).drop_first());
            assert(b.drop_first().take(k - 1) =~= b.take(k).drop_first());
            assert(parts_ways(a.drop_first(), b.drop_first(), k - 1));
            law_the_order_of_texts(a.drop_first(), b.drop_first());
        }
    }
}

/// True for the place at which one text stops being the same as a greater one.
pub open spec fn parts_ways(a: Seq<char>, b: Seq<char>, k: int) -> bool {
    &&& 0 <= k <= a.len()
    &&& k < b.len()
    &&& a.take(k) == b.take(k)
    &&& k < a.len() ==> (a[k] as int) < (b[k] as int)
}

/// A text is split at every separator and nowhere else.
pub proof fn law_splitting(a: Seq<char>, b: Seq<char>, separator: char)
    ensures
        split(a + seq![separator] + b, separator) == split(a, separator) + split(b, separator),
        !a.contains(separator) ==> split(a, separator) == seq![a],
{
    lemma_split_apart(a, b, separator);
    if !a.contains(separator) {
        lemma_split_whole(a, separator);
    }
}

/// A line ends at a line feed, a carriage return before which is no part of it.
/// What follows the last line feed is a line unless it is empty.
pub proof fn law_lines(a: Seq<char>, b: Seq<char>)
    requires
        !a.contains('\n'),
    ensures
        lines(a + seq!['\n'] + b) == seq![
            if a.len() > 0 && a.last() == '\r' {
                a.drop_last()
            } else {
                a
            },
        ] + lines(b),
        a.len() > 0 ==> lines(a) == seq![a],
        lines(Seq::<char>::empty()) == Seq::<Seq<char>>::empty(),
{
    let feed = '\n';
    let all = a + seq![feed] + b;
    law_splitting(a, b, feed);
    lemma_split_len(b, feed);
    let parts = split(all, feed);
    let tail = split(b, feed);
    assert(parts =~= seq![a] + tail);
    assert(parts.drop_last() =~= seq![a] + tail.drop_last());
    assert(parts.last() == tail.last());
    let trim = |part: Seq<char>| without_return(part);
    assert(parts.drop_last().map_values(trim) =~= seq![without_return(a)]
        + tail.drop_last().map_values(trim));
    assert(lines(all) =~= seq![without_return(a)] + lines(b));
    assert(split(a, feed).drop_last() =~= Seq::<Seq<char>>::empty());
    assert(lines(a) =~= (if a.len() == 0 {
        Seq::<Seq<char>>::empty()
    } else {
        seq![a]
    }));
    let none = Seq::<char>::empty();
    lemma_split_whole(none, feed);
    assert(split(none, feed).drop_last() =~= Seq::<Seq<char>>::empty());
    assert(lines(none) =~= Seq::<Seq<char>>::empty());
}

/// A character takes one byte in UTF-8 up to 7f, two up to 7ff, three up to ffff
/// and four beyond; a text takes what its characters take.
pub proof fn law_bytes(s: Seq<char>, c: char)
    ensures
        byte_length(Seq::<char>::empty()) == 0,
        byte_length(s.push(c)) == byte_length(s) + (if c as int <= 0x7f {
            1nat
        } else if c as int <= 0x7ff {
            2nat
        } else if c as int <= 0xffff {
            3nat
        } else {
            4nat
        }),
{
    assert(s.push(c).drop_last() =~= s);
}

} // verus!
