//! What is promised of reading the Solidity in a contract.

use super::model::lemma_plain;
use super::words::{
    bare, blank, has_in_it, law_holding_is_having, law_trimming, law_white_space, starts, white,
};
use crate::declarations::{
    after_attribute, after_group, declaration_in, declaration_parts, field_in, has_word, identifier,
    last_space, leading_name, method_at, methods_in, name_character, normalised, opens_attribute,
    snake, spellings, storage_in, stripped, word_at, FieldView, MethodView,
};
use crate::text::{
    alphabetic, alphanumeric, first_at, is_space, joined, lemma_split_apart, lemma_split_whole,
    lowercase, occurs_at, replaced, split, trimmed, trimmed_start, uppercase, words,
};
use vstd::prelude::*;

verus! {

/// How many brackets of a text are still open at its end.
pub open spec fn still_open(s: Seq<char>) -> int
    decreases s.len(),
{
    if s.len() == 0 {
        0
    } else {
        still_open(s.drop_last()) + (if s.last() == '[' {
            1int
        } else if s.last() == ']' {
            -1int
        } else {
            0int
        })
    }
}

/// True for a bracket group: it starts with a bracket that is closed by its last
/// character and not before.
pub open spec fn group(s: Seq<char>) -> bool {
    &&& s.len() > 0
    &&& s[0] == '['
    &&& still_open(s) == 0
    &&& never_closed(s.drop_last())
}

/// True for a text in which some bracket is open wherever one looks.
pub open spec fn never_closed(s: Seq<char>) -> bool {
    &&& s.len() > 0
    &&& s[0] == '['
    &&& forall|k: int| 0 < k <= s.len() ==> still_open(#[trigger] s.take(k)) > 0
}

proof fn lemma_group_left(front: Seq<char>, rest: Seq<char>)
    requires
        never_closed(front) || front.len() == 0,
    ensures
        after_group(front + rest, 0) == after_group(rest, still_open(front)),
    decreases front.len(),
{
    if front.len() == 0 {
        assert(front + rest =~= rest);
    } else {
        let head = front.drop_last();
        let more = seq![front.last()] + rest;
        assert(front.take(front.len() as int) =~= front);
        assert(still_open(front) > 0);
        if head.len() > 0 {
            assert forall|k: int| 0 < k <= head.len() implies still_open(
                #[trigger] head.take(k),
            ) > 0 by {
                assert(head.take(k) =~= front.take(k));
            }
        }
        lemma_group_left(head, more);
        assert(head + more =~= front + rest);
        assert(more.drop_first() =~= rest);
        if head.len() == 0 {
            assert(front.last() == front[0]);
            assert(still_open(head) == 0);
        } else {
            assert(head.take(head.len() as int) =~= head);
        }
    }
}

/// An attribute is gone, brackets and all, and a space stands in its place: a
/// hash, perhaps white space, and a bracket group. One that is never closed takes
/// all that follows with it.
pub proof fn law_attributes_are_taken_out(gap: Seq<char>, inner: Seq<char>, rest: Seq<char>)
    requires
        blank(gap),
    ensures
        group(inner) ==> stripped(seq!['#'] + gap + inner + rest) == seq![' '] + stripped(rest),
        never_closed(inner) ==> stripped(seq!['#'] + gap + inner) == seq![' '],
{
    if group(inner) {
        let all = seq!['#'] + gap + inner + rest;
        assert(all.drop_first() =~= gap + (inner + rest));
        lemma_gap(gap, inner + rest);
        let head = inner.drop_last();
        lemma_group_left(head, seq![inner.last()] + rest);
        assert(head + (seq![inner.last()] + rest) =~= inner + rest);
        assert((seq![inner.last()] + rest).drop_first() =~= rest);
        assert(head.take(head.len() as int) =~= head);
        assert(still_open(head) == 1 && inner.last() == ']');
        assert(after_attribute(all) == rest);
    }
    if never_closed(inner) {
        let all = seq!['#'] + gap + inner;
        assert(all.drop_first() =~= gap + inner);
        lemma_gap(gap, inner);
        lemma_group_left(inner, Seq::empty());
        assert(inner + Seq::<char>::empty() =~= inner);
        assert(after_attribute(all) =~= Seq::empty());
        assert(stripped(Seq::<char>::empty()) =~= Seq::<char>::empty());
        assert(seq![' '] + Seq::<char>::empty() =~= seq![' ']);
    }
}

proof fn lemma_gap(gap: Seq<char>, rest: Seq<char>)
    requires
        blank(gap),
        rest.len() > 0 ==> !white(rest[0]),
    ensures
        trimmed_start(gap + rest) == rest,
    decreases gap.len(),
{
    if gap.len() == 0 {
        assert(gap + rest =~= rest);
        if rest.len() > 0 {
            law_white_space(rest[0]);
        }
    } else {
        law_white_space(gap[0]);
        assert(white(gap[0]));
        let tail = gap.drop_first();
        assert forall|i: int| 0 <= i < tail.len() implies white(#[trigger] tail[i]) by {
            assert(white(gap[i + 1]));
        }
        lemma_gap(tail, rest);
        assert((gap + rest).drop_first() =~= tail + rest);
    }
}

/// Nothing else is taken out: what is no hash stays, and so does a hash with no
/// bracket behind it.
pub proof fn law_the_rest_is_kept(c: char, gap: Seq<char>, rest: Seq<char>)
    requires
        blank(gap),
        rest.len() > 0 ==> !white(rest[0]) && rest[0] != '[',
    ensures
        stripped(Seq::<char>::empty()) == Seq::<char>::empty(),
        c != '#' ==> forall|more: Seq<char>| #[trigger]
            stripped(seq![c] + more) == seq![c] + stripped(more),
        stripped(seq!['#'] + gap + rest) == seq!['#'] + stripped(gap + rest),
{
    assert(stripped(Seq::<char>::empty()) =~= Seq::<char>::empty());
    assert forall|more: Seq<char>| c != '#' implies #[trigger] stripped(seq![c] + more) == seq![c]
        + stripped(more) by {
        let all = seq![c] + more;
        assert(all.drop_first() =~= more);
        assert(all[0] == c);
    }
    let all = seq!['#'] + gap + rest;
    assert(all.drop_first() =~= gap + rest);
    lemma_gap(gap, rest);
    assert(!opens_attribute(all));
}

/// A body declares what its parts between semicolons declare, each at most one
/// field, once the attributes are out.
pub proof fn law_semicolons_set_fields_apart(body: Seq<char>)
    ensures
        storage_in(body) == split(stripped(body), ';').filter_map(
            |chunk: Seq<char>| field_in(chunk),
        ),
{
}

/// True for the part of a chunk that can declare a field: what stands behind its
/// last opening brace, closing braces read as spaces, without the white space
/// around it.
pub open spec fn declares(chunk: Seq<char>, decl: Seq<char>) -> bool {
    exists|inner: Seq<char>| #[trigger]
        behind_the_brace(chunk, inner) && bare(
            inner.map_values(
                |c: char|
                    if c == '}' {
                        ' '
                    } else {
                        c
                    },
            ),
            decl,
        )
}

/// True for what stands behind the last opening brace of a chunk, or all of it
/// where there is none.
pub open spec fn behind_the_brace(chunk: Seq<char>, inner: Seq<char>) -> bool {
    &&& !inner.contains('{')
    &&& chunk == inner || exists|header: Seq<char>| chunk == #[trigger] (header + seq!['{'] + inner)
}

proof fn lemma_behind_the_brace(chunk: Seq<char>, inner: Seq<char>)
    requires
        behind_the_brace(chunk, inner),
    ensures
        split(chunk, '{').last() == inner,
{
    lemma_split_whole(inner, '{');
    if chunk != inner {
        let header = choose|header: Seq<char>| chunk == #[trigger] (header + seq!['{'] + inner);
        lemma_split_apart(header, inner, '{');
    }
}

proof fn lemma_braces(s: Seq<char>)
    ensures
        replaced(s, "}"@, " "@) == s.map_values(
            |c: char|
                if c == '}' {
                    ' '
                } else {
                    c
                },
        ),
    decreases s.len(),
{
    let turn = |c: char|
        if c == '}' {
            ' '
        } else {
            c
        };
    reveal_strlit("}");
    reveal_strlit(" ");
    if s.len() > 0 {
        let tail = s.drop_first();
        lemma_braces(tail);
        assert(s.skip(1) =~= tail);
        assert(s.subrange(0, 1)[0] == s[0]);
        if s[0] == '}' {
            assert(s.subrange(0, 1) =~= "}"@);
        }
        assert(replaced(s, "}"@, " "@) =~= seq![turn(s[0])] + tail.map_values(turn));
        assert(s.map_values(turn) =~= seq![turn(s[0])] + tail.map_values(turn));
    } else {
        assert(s.map_values(turn) =~= s);
    }
}

/// There is one part of a chunk that can declare a field.
proof fn lemma_declares(chunk: Seq<char>, decl: Seq<char>)
    requires
        declares(chunk, decl),
    ensures
        declaration_in(chunk) == decl,
{
    let inner = choose|inner: Seq<char>| #[trigger]
        behind_the_brace(chunk, inner) && bare(
            inner.map_values(
                |c: char|
                    if c == '}' {
                        ' '
                    } else {
                        c
                    },
            ),
            decl,
        );
    lemma_behind_the_brace(chunk, inner);
    lemma_braces(inner);
    lemma_plain(
        inner.map_values(
            |c: char|
                if c == '}' {
                    ' '
                } else {
                    c
                },
        ),
        decl,
    );
}

/// True for a word that stands in a text on its own, not inside a longer name.
pub open spec fn says(s: Seq<char>, word: Seq<char>) -> bool {
    exists|front: Seq<char>, rest: Seq<char>|
        {
            &&& s == #[trigger] (front + word + rest)
            &&& front.len() > 0 ==> !in_names(front.last())
            &&& rest.len() > 0 ==> !in_names(rest[0])
        }
}

/// True for a character that names are made of: a letter, a digit or an
/// underscore, and beyond ASCII whatever Unicode counts as alphanumeric.
pub open spec fn in_names(c: char) -> bool {
    let n = c as int;
    if n < 128 {
        97 <= n <= 122 || 65 <= n <= 90 || 48 <= n <= 57 || n == 95
    } else {
        alphanumeric(c)
    }
}

/// True for a character that a name can start with.
pub open spec fn starts_names(c: char) -> bool {
    let n = c as int;
    if n < 128 {
        97 <= n <= 122 || 65 <= n <= 90 || n == 95
    } else {
        alphabetic(c)
    }
}

/// What a name is made of, and what it can start with.
pub proof fn law_what_names_are_made_of(text: Seq<char>)
    ensures
        forall|c: char| #[trigger] name_character(c) <==> in_names(c),
        identifier(text) <==> text.len() > 0 && starts_names(text[0]) && forall|i: int|
            0 <= i < text.len() ==> in_names(#[trigger] text[i]),
{
    assert('a' as int == 97 && 'z' as int == 122 && 'A' as int == 65 && 'Z' as int == 90);
    assert('0' as int == 48 && '9' as int == 57 && '_' as int == 95);
    if identifier(text) {
        assert forall|i: int| 0 <= i < text.len() implies in_names(#[trigger] text[i]) by {
            assert(name_character(text[i]));
        }
    }
}

/// A text says a word exactly where the word stands on its own.
pub proof fn law_a_word_stands_on_its_own(s: Seq<char>, word: Seq<char>)
    ensures
        has_word(s, word) <==> says(s, word),
{
    law_what_names_are_made_of(s);
    if has_word(s, word) {
        let i = choose|i: int| word_at(s, word, i);
        let front = s.take(i);
        let rest = s.skip(i + word.len());
        assert(s =~= front + word + rest) by {
            assert(s.subrange(i, i + word.len()) == word);
        }
        if front.len() > 0 {
            assert(front.last() == s[i - 1]);
        }
        if rest.len() > 0 {
            assert(rest[0] == s[i + word.len()]);
        }
    }
    if says(s, word) {
        let (front, rest) = choose|front: Seq<char>, rest: Seq<char>|
            {
                &&& s == #[trigger] (front + word + rest)
                &&& front.len() > 0 ==> !in_names(front.last())
                &&& rest.len() > 0 ==> !in_names(rest[0])
            };
        let i = front.len() as int;
        assert(s.subrange(i, i + word.len()) =~= word);
        if i > 0 {
            assert(s[i - 1] == front.last());
        }
        if i + word.len() < s.len() {
            assert(s[i + word.len()] == rest[0]);
        }
        assert(word_at(s, word, i));
    }
}

/// True for a text without white space.
pub open spec fn one_piece(s: Seq<char>) -> bool {
    forall|i: int| 0 <= i < s.len() ==> !white(#[trigger] s[i])
}

proof fn lemma_last_gap(front: Seq<char>, c: char, name: Seq<char>)
    requires
        white(c),
        one_piece(name),
    ensures
        last_space(front + seq![c] + name) == Some(front.len() as int),
    decreases name.len(),
{
    let all = front + seq![c] + name;
    law_white_space(all.last());
    if name.len() == 0 {
        assert(all.last() == c);
    } else {
        let shorter = name.drop_last();
        assert forall|i: int| 0 <= i < shorter.len() implies !white(#[trigger] shorter[i]) by {
            assert(!white(name[i]));
        }
        lemma_last_gap(front, c, shorter);
        assert(all.drop_last() =~= front + seq![c] + shorter);
        assert(all.last() == name[name.len() - 1]);
    }
}

proof fn lemma_no_gap(s: Seq<char>)
    requires
        one_piece(s),
    ensures
        last_space(s) is None,
    decreases s.len(),
{
    if s.len() > 0 {
        law_white_space(s.last());
        assert(!white(s[s.len() - 1]));
        let shorter = s.drop_last();
        assert forall|i: int| 0 <= i < shorter.len() implies !white(#[trigger] shorter[i]) by {
            assert(!white(s[i]));
        }
        lemma_no_gap(shorter);
    }
}

proof fn lemma_trimmed_already(s: Seq<char>)
    requires
        s.len() > 0 ==> !white(s[0]) && !white(s.last()),
    ensures
        trimmed(s) == s,
{
    if s.len() > 0 {
        law_white_space(s[0]);
        law_white_space(s.last());
    }
}

proof fn lemma_parts(front: Seq<char>, c: char, ty: Seq<char>, name: Seq<char>)
    requires
        front.len() > 0,
        !white(front[0]),
        white(c),
        name.len() > 0,
        one_piece(name),
        bare(front, ty),
    ensures
        declaration_parts(front + seq![c] + name) == Some((ty, name)),
{
    let decl = front + seq![c] + name;
    assert(decl[0] == front[0]);
    assert(decl.last() == name[name.len() - 1]);
    assert(!white(name[name.len() - 1]) && !white(name[0]));
    lemma_trimmed_already(decl);
    lemma_last_gap(front, c, name);
    assert(decl.take(front.len() as int) =~= front);
    assert(decl.skip(front.len() as int + 1) =~= name);
    lemma_plain(front, ty);
    lemma_trimmed_already(name);
    law_trimming(front);
    if ty.len() == 0 {
        let (a, b) = choose|a: Seq<char>, b: Seq<char>|
            blank(a) && blank(b) && front == #[trigger] (a + ty + b);
        assert((a + ty).len() == a.len());
        if a.len() > 0 {
            assert(front[0] == a[0]);
        } else {
            assert(front[0] == b[0]);
        }
    }
}

/// A declaration is a type and a name, the name being its last word: a field of
/// that name is read, and its type as it is normalised. The name has to be one,
/// and neither a struct header, a line that starts with a hash, nor half a
/// mapping is a field.
pub proof fn law_the_last_word_is_the_name(
    chunk: Seq<char>,
    front: Seq<char>,
    c: char,
    ty: Seq<char>,
    name: Seq<char>,
)
    requires
        declares(chunk, front + seq![c] + name),
        front.len() > 0,
        white(c),
        name.len() > 0,
        one_piece(name),
        bare(front, ty),
    ensures
        ({
            let decl = front + seq![c] + name;
            field_in(chunk) == (if says(decl, "struct"@) || starts(decl, "#"@) || (has_in_it(decl, "=>"@)
                && !has_in_it(decl, ")"@)) || !identifier(name) {
                None
            } else {
                Some(FieldView { name, sol_type: normalised(ty) })
            })
        }),
{
    let decl = front + seq![c] + name;
    lemma_declares(chunk, decl);
    law_trimming(decl);
    let inner = choose|inner: Seq<char>| #[trigger]
        behind_the_brace(chunk, inner) && bare(
            inner.map_values(
                |c: char|
                    if c == '}' {
                        ' '
                    } else {
                        c
                    },
            ),
            decl,
        );
    assert(!white(decl[0]));
    assert(decl[0] == front[0]);
    lemma_parts(front, c, ty, name);
    law_a_word_stands_on_its_own(decl, "struct"@);
    law_holding_is_having(decl, "#"@);
    law_holding_is_having(decl, "=>"@);
    law_holding_is_having(decl, ")"@);
}

/// A single word, or none, declares nothing.
pub proof fn law_one_word_declares_nothing(chunk: Seq<char>, decl: Seq<char>)
    requires
        declares(chunk, decl),
        one_piece(decl),
    ensures
        field_in(chunk) is None,
{
    lemma_declares(chunk, decl);
    if decl.len() > 0 {
        assert(!white(decl[0]) && !white(decl[decl.len() - 1]));
    }
    lemma_trimmed_already(decl);
    lemma_no_gap(decl);
}

/// A type is normalised by putting back the brackets that a token stream sets
/// apart, round ones first, and then one space between words.
pub proof fn law_how_a_type_is_normalised(ty: Seq<char>)
    ensures
        normalised(ty) == joined(
            words(
                replaced(
                    replaced(
                        replaced(
                            replaced(replaced(replaced(ty, " ("@, "("@), "( "@, "("@), " )"@, ")"@),
                            " ["@,
                            "["@,
                        ),
                        "[ "@,
                        "["@,
                    ),
                    " ]"@,
                    "]"@,
                ),
            ),
            seq![' '],
        ),
{
}

/// Replacing goes from the left: where the text to replace stands it is replaced
/// and what follows it is gone on with, and elsewhere a character is kept.
pub proof fn law_replacing_goes_from_the_left(
    c: char,
    rest: Seq<char>,
    from: Seq<char>,
    to: Seq<char>,
)
    requires
        from.len() > 0,
    ensures
        replaced(Seq::<char>::empty(), from, to) == Seq::<char>::empty(),
        replaced(from + rest, from, to) == to + replaced(rest, from, to),
        !starts(seq![c] + rest, from) ==> replaced(seq![c] + rest, from, to) == seq![c] + replaced(
            rest,
            from,
            to,
        ),
{
    let all = from + rest;
    assert(all.subrange(0, from.len() as int) =~= from);
    assert(all.skip(from.len() as int) =~= rest);
    let other = seq![c] + rest;
    law_holding_is_having(other, from);
    assert(other.drop_first() =~= rest);
    assert(other[0] == c);
}

/// Words are what stands between white space: white space sets apart the words
/// before it and those behind it, and what has none in it is one word.
pub proof fn law_words_stand_between_white_space(a: Seq<char>, c: char, b: Seq<char>)
    ensures
        white(c) ==> words(a + seq![c] + b) == words(a) + words(b),
        a.len() > 0 && one_piece(a) ==> words(a) == seq![a],
        words(Seq::<char>::empty()) == Seq::<Seq<char>>::empty(),
{
    if white(c) {
        lemma_words_apart(a, c, b);
    }
    if a.len() > 0 && one_piece(a) {
        assert forall|i: int| 0 <= i < a.len() implies !is_space(#[trigger] a[i]) by {
            law_white_space(a[i]);
            assert(!white(a[i]));
        }
        crate::text::lemma_one_word(a);
    }
    assert(words(Seq::<char>::empty()) =~= Seq::<Seq<char>>::empty());
}

proof fn lemma_words_apart(a: Seq<char>, c: char, b: Seq<char>)
    requires
        white(c),
    ensures
        words(a + seq![c] + b) == words(a) + words(b),
        b.len() > 0 && !white(b.last()) ==> words(b).len() > 0,
    decreases b.len(),
{
    let all = a + seq![c] + b;
    law_white_space(c);
    if b.len() == 0 {
        assert(all.drop_last() =~= a);
        assert(all.last() == c);
        assert(words(b) =~= Seq::empty());
        assert(words(a) + words(b) =~= words(a));
    } else {
        let shorter = b.drop_last();
        lemma_words_apart(a, c, shorter);
        assert(all.drop_last() =~= a + seq![c] + shorter);
        assert(all.last() == b.last());
        law_white_space(b.last());
        if is_space(b.last()) {
        } else {
            assert(all[all.len() - 2] == (if b.len() == 1 {
                c
            } else {
                b[b.len() - 2]
            }));
            if b.len() == 1 || is_space(b[b.len() - 2]) {
                assert(words(all) =~= words(a) + words(b));
            } else {
                law_white_space(b[b.len() - 2]);
                assert(shorter.last() == b[b.len() - 2]);
                assert(words(shorter).len() > 0);
                assert(words(all) =~= words(a) + words(b));
            }
        }
    }
}

/// Parts are joined with the separator between neighbours.
pub proof fn law_joining(parts: Seq<Seq<char>>, part: Seq<char>, separator: Seq<char>)
    ensures
        joined(Seq::<Seq<char>>::empty(), separator) == Seq::<char>::empty(),
        joined(seq![part], separator) == part,
        parts.len() > 0 ==> joined(parts.push(part), separator) == joined(parts, separator)
            + separator + part,
{
    assert(parts.push(part).drop_last() =~= parts);
}

/// The name at the start of a text is all that names are made of there, and no
/// more.
pub proof fn law_the_name_at_the_start(name: Seq<char>, rest: Seq<char>)
    requires
        forall|i: int| 0 <= i < name.len() ==> in_names(#[trigger] name[i]),
        rest.len() > 0 ==> !in_names(rest[0]),
    ensures
        leading_name(name + rest) == name,
    decreases name.len(),
{
    law_what_names_are_made_of(name);
    let all = name + rest;
    if name.len() == 0 {
        assert(all =~= rest);
        assert(leading_name(all) =~= name);
    } else {
        let tail = name.drop_first();
        assert forall|i: int| 0 <= i < tail.len() implies in_names(#[trigger] tail[i]) by {
            assert(in_names(name[i + 1]));
        }
        law_the_name_at_the_start(tail, rest);
        assert(all[0] == name[0]);
        assert(in_names(name[0]));
        assert(all.drop_first() =~= tail + rest);
        assert(seq![name[0]] + tail =~= name);
    }
}

/// True for an upper case letter.
pub open spec fn upper(c: char) -> bool {
    if (c as int) < 128 {
        65 <= c as int <= 90
    } else {
        uppercase(c)
    }
}

/// A character in lower case.
pub open spec fn lower_of(c: char, small: Seq<char>) -> bool {
    if (c as int) < 128 {
        small.len() == 1 && small[0] as int == (if 65 <= c as int <= 90 {
            c as int + 32
        } else {
            c as int
        })
    } else {
        small == lowercase(c)
    }
}

/// The snake case of a name grows with the name. An upper case letter is lowered,
/// behind an underscore unless it comes first or behind one; a digit behind a
/// letter gets an underscore before it; anything else is kept.
pub proof fn law_snake_case(name: Seq<char>, c: char, small: Seq<char>)
    requires
        lower_of(c, small),
    ensures
        snake(Seq::<char>::empty()) == Seq::<char>::empty(),
        snake(name.push(c)) == snake(name) + (if upper(c) {
            if name.len() > 0 && name.last() != '_' {
                seq!['_'] + small
            } else {
                small
            }
        } else if 48 <= c as int <= 57 && name.len() > 0 && (if (name.last() as int) < 128 {
            97 <= name.last() as int <= 122 || 65 <= name.last() as int <= 90
        } else {
            alphabetic(name.last())
        }) {
            seq!['_', c]
        } else {
            seq![c]
        }),
{
    let all = name.push(c);
    assert(all.drop_last() =~= name);
    assert('a' as int == 97 && 'z' as int == 122 && 'A' as int == 65 && 'Z' as int == 90);
    assert('0' as int == 48 && '9' as int == 57 && '\u{7f}' as int == 127);
    if name.len() > 0 {
        assert(all[all.len() - 2] == name.last());
    }
    if (c as int) < 128 {
        let lowered = crate::text::lower_char(c);
        if 65 <= c as int <= 90 {
            assert((c as u32 + 32) as char as int == c as int + 32);
        }
        assert(lowered as int == small[0] as int);
        assert(lowered == small[0]);
        assert(small =~= seq![lowered]);
    }
    assert(crate::text::small(c) == small);
}

/// A function goes by its own name, and by its snake case where that is another.
pub proof fn law_the_names_of_a_function(name: Seq<char>)
    ensures
        snake(name) == name ==> spellings(name) == seq![name],
        snake(name) != name ==> spellings(name) == seq![name, snake(name)],
{
}

/// A function is read behind each `function` and a space: the name is what
/// follows, white space aside, and up to the semicolon `returns` says that it
/// returns something and `view` or `pure` that it does not mutate. Nothing is read
/// where no name follows.
pub proof fn law_what_a_function_declares(
    gap: Seq<char>,
    name: Seq<char>,
    rest: Seq<char>,
    until: Seq<char>,
)
    requires
        blank(gap),
        forall|i: int| 0 <= i < name.len() ==> in_names(#[trigger] name[i]),
        name.len() > 0 ==> !white(name[0]),
        rest.len() > 0 ==> !in_names(rest[0]),
        name.len() == 0 && rest.len() > 0 ==> !white(rest[0]),
        !until.contains(';'),
        rest == until || exists|more: Seq<char>| rest == #[trigger] (until + seq![';'] + more),
    ensures
        method_at(gap + name + rest) == (if name.len() == 0 {
            None
        } else {
            Some(
                MethodView {
                    names: spellings(name),
                    returns: says(until, "returns"@),
                    mutates: !says(until, "view"@) && !says(until, "pure"@),
                },
            )
        }),
{
    let all = gap + name + rest;
    assert(all =~= gap + (name + rest));
    if name.len() > 0 {
        assert((name + rest)[0] == name[0]);
    } else {
        assert(name + rest =~= rest);
    }
    lemma_gap(gap, name + rest);
    law_the_name_at_the_start(name, rest);
    assert((name + rest).skip(name.len() as int) =~= rest);
    lemma_split_whole(until, ';');
    if rest != until {
        let more = choose|more: Seq<char>| rest == #[trigger] (until + seq![';'] + more);
        lemma_split_apart(until, more, ';');
        crate::text::lemma_split_len(more, ';');
        assert((split(until, ';') + split(more, ';'))[0] == until);
    }
    assert(split(rest, ';')[0] == until);
    law_a_word_stands_on_its_own(until, "returns"@);
    law_a_word_stands_on_its_own(until, "view"@);
    law_a_word_stands_on_its_own(until, "pure"@);
}

/// The functions of a body are read one after the other: what stands before the
/// first `function` and a space is passed over, and reading goes on right behind
/// it.
pub proof fn law_functions_are_read_one_after_the_other(front: Seq<char>, rest: Seq<char>)
    ensures
        !has_in_it(front, "function "@) ==> methods_in(front) == Seq::<MethodView>::empty(),
        (forall|i: int| 0 <= i < front.len() ==> !occurs_at(front + "function "@ + rest, "function "@, i))
            ==> methods_in(front + "function "@ + rest) == (match method_at(rest) {
            Some(method) => seq![method],
            None => Seq::empty(),
        }) + methods_in(rest),
{
    let word = "function "@;
    reveal_strlit("function ");
    law_holding_is_having(front, word);
    super::words::law_the_first_place(front, word, 0);
    if !has_in_it(front, word) {
        if let Some(i) = first_at(front, word, 0) {
            assert(occurs_at(front, word, i));
        }
    }
    let all = front + word + rest;
    if forall|i: int| 0 <= i < front.len() ==> !occurs_at(all, word, i) {
        super::words::law_the_first_place(all, word, 0);
        let at = front.len() as int;
        assert(all.subrange(at, at + word.len()) =~= word);
        assert(occurs_at(all, word, at));
        assert(first_at(all, word, 0) == Some(at));
        assert(all.skip(at + word.len()) =~= rest);
        assert(Seq::<MethodView>::empty() + methods_in(rest) =~= methods_in(rest));
    }
}

} // verus!
