//! Text as a sequence of characters: the string operations the checker needs,
//! each with a statement of what it computes.

use vstd::prelude::*;
use vstd::slice::slice_subrange;
use vstd::utf8::*;

verus! {

broadcast use vstd::seq_lib::group_seq_properties;

/// The characters with the Unicode property White_Space.
pub open spec fn is_space(c: char) -> bool {
    ||| '\u{9}' <= c <= '\u{d}'
    ||| c == ' '
    ||| c == '\u{85}'
    ||| c == '\u{a0}'
    ||| c == '\u{1680}'
    ||| '\u{2000}' <= c <= '\u{200a}'
    ||| c == '\u{2028}'
    ||| c == '\u{2029}'
    ||| c == '\u{202f}'
    ||| c == '\u{205f}'
    ||| c == '\u{3000}'
}

pub open spec fn is_digit(c: char) -> bool {
    '0' <= c <= '9'
}

pub open spec fn is_letter(c: char) -> bool {
    'a' <= c <= 'z' || 'A' <= c <= 'Z'
}

/// A character with an upper case ASCII letter made lower case.
pub open spec fn lower_char(c: char) -> char {
    if 'A' <= c <= 'Z' {
        (c as u32 + 32) as char
    } else {
        c
    }
}

pub open spec fn lowered(s: Seq<char>) -> Seq<char> {
    s.map_values(|c: char| lower_char(c))
}

/// What is left once leading white space is gone.
pub open spec fn trimmed_start(s: Seq<char>) -> Seq<char>
    decreases s.len(),
{
    if s.len() > 0 && is_space(s[0]) {
        trimmed_start(s.drop_first())
    } else {
        s
    }
}

/// What is left once trailing white space is gone.
pub open spec fn trimmed_end(s: Seq<char>) -> Seq<char>
    decreases s.len(),
{
    if s.len() > 0 && is_space(s.last()) {
        trimmed_end(s.drop_last())
    } else {
        s
    }
}

pub open spec fn trimmed(s: Seq<char>) -> Seq<char> {
    trimmed_end(trimmed_start(s))
}

/// True when `needle` stands in `s` at index `i`.
pub open spec fn occurs_at(s: Seq<char>, needle: Seq<char>, i: int) -> bool {
    &&& 0 <= i
    &&& i + needle.len() <= s.len()
    &&& s.subrange(i, i + needle.len()) == needle
}

/// True when `needle` stands somewhere in `s`.
pub open spec fn holds(s: Seq<char>, needle: Seq<char>) -> bool {
    exists|i: int| occurs_at(s, needle, i)
}

pub open spec fn begins(s: Seq<char>, prefix: Seq<char>) -> bool {
    occurs_at(s, prefix, 0)
}

pub open spec fn ends(s: Seq<char>, suffix: Seq<char>) -> bool {
    occurs_at(s, suffix, s.len() - suffix.len())
}

/// The first index at or after `from` at which `needle` stands, if there is one.
pub open spec fn first_at(s: Seq<char>, needle: Seq<char>, from: int) -> Option<int>
    decreases s.len() + 1 - from,
{
    if from < 0 || from > s.len() {
        None
    } else if occurs_at(s, needle, from) {
        Some(from)
    } else {
        first_at(s, needle, from + 1)
    }
}

/// The parts of `s` between separators: every separator ends one part and
/// starts the next.
pub open spec fn split(s: Seq<char>, separator: char) -> Seq<Seq<char>>
    decreases s.len(),
{
    if s.len() == 0 {
        seq![Seq::empty()]
    } else {
        let parts = split(s.drop_last(), separator);
        if s.last() == separator {
            parts.push(Seq::empty())
        } else {
            parts.drop_last().push(parts.last().push(s.last()))
        }
    }
}

/// The lines of a text. A line ends at a line feed, or at a carriage return
/// and a line feed; the last line need not end.
pub open spec fn lines(s: Seq<char>) -> Seq<Seq<char>> {
    let parts = split(s, '\n');
    let ended = parts.drop_last().map_values(|part: Seq<char>| without_return(part));
    if parts.last().len() == 0 {
        ended
    } else {
        ended.push(parts.last())
    }
}

pub open spec fn without_return(line: Seq<char>) -> Seq<char> {
    if line.len() > 0 && line.last() == '\r' {
        line.drop_last()
    } else {
        line
    }
}

/// `s` with each `from` replaced by `to`, found from the left and not overlapping.
pub open spec fn replaced(s: Seq<char>, from: Seq<char>, to: Seq<char>) -> Seq<char>
    decreases s.len(),
{
    if s.len() == 0 || from.len() == 0 {
        s
    } else if begins(s, from) {
        to + replaced(s.skip(from.len() as int), from, to)
    } else {
        seq![s[0]] + replaced(s.drop_first(), from, to)
    }
}

/// The runs of characters between white space.
pub open spec fn words(s: Seq<char>) -> Seq<Seq<char>>
    decreases s.len(),
{
    if s.len() == 0 {
        Seq::empty()
    } else {
        let before = words(s.drop_last());
        if is_space(s.last()) {
            before
        } else if s.len() == 1 || is_space(s[s.len() - 2]) {
            before.push(seq![s.last()])
        } else {
            before.drop_last().push(before.last().push(s.last()))
        }
    }
}

/// The parts one after the other, with a separator between neighbours.
pub open spec fn joined(parts: Seq<Seq<char>>, separator: Seq<char>) -> Seq<char>
    decreases parts.len(),
{
    if parts.len() == 0 {
        Seq::empty()
    } else if parts.len() == 1 {
        parts[0]
    } else {
        joined(parts.drop_last(), separator) + separator + parts.last()
    }
}

pub open spec fn digit_char(n: nat) -> char {
    (n + '0' as nat) as char
}

/// A number written in base ten.
pub open spec fn decimal(n: nat) -> Seq<char>
    decreases n,
{
    if n < 10 {
        seq![digit_char(n)]
    } else {
        decimal(n / 10).push(digit_char(n % 10))
    }
}

/// The number that a run of digits writes.
pub open spec fn number(digits: Seq<char>) -> nat
    decreases digits.len(),
{
    if digits.len() == 0 {
        0
    } else {
        number(digits.drop_last()) * 10 + (digits.last() as nat - '0' as nat) as nat
    }
}

/// The digits of a number as text: what follows an optional plus sign.
pub open spec fn unsigned(s: Seq<char>) -> Seq<char> {
    if s.len() > 0 && s[0] == '+' {
        s.drop_first()
    } else {
        s
    }
}

/// The 32 bit number that a text writes, if it writes one and it fits.
pub open spec fn read_number(s: Seq<char>) -> Option<u32> {
    let digits = unsigned(s);
    if digits.len() > 0 && (forall|i: int| 0 <= i < digits.len() ==> is_digit(#[trigger] digits[i]))
        && number(digits) <= u32::MAX {
        Some(number(digits) as u32)
    } else {
        None
    }
}

/// How many bytes a character takes in UTF-8.
pub open spec fn width(c: char) -> nat {
    if c <= '\u{7f}' {
        1
    } else if c <= '\u{7ff}' {
        2
    } else if c <= '\u{ffff}' {
        3
    } else {
        4
    }
}

/// How many bytes a text takes in UTF-8.
pub open spec fn byte_length(s: Seq<char>) -> nat
    decreases s.len(),
{
    if s.len() == 0 {
        0
    } else {
        byte_length(s.drop_last()) + width(s.last())
    }
}

/// True when `a` stands before `b` in the order of their characters.
pub open spec fn text_before(a: Seq<char>, b: Seq<char>) -> bool
    decreases a.len(),
{
    if b.len() == 0 {
        false
    } else if a.len() == 0 {
        true
    } else {
        a[0] < b[0] || (a[0] == b[0] && text_before(a.drop_first(), b.drop_first()))
    }
}

/// Whether a character has the Unicode property Alphabetic.
pub uninterp spec fn alphabetic(c: char) -> bool;

/// Whether a character is alphabetic or numeric in Unicode.
pub uninterp spec fn alphanumeric(c: char) -> bool;

/// Whether a character has the Unicode property Uppercase.
pub uninterp spec fn uppercase(c: char) -> bool;

/// The lower case mapping of a character, which can be several characters.
pub uninterp spec fn lowercase(c: char) -> Seq<char>;

pub open spec fn is_ascii(c: char) -> bool {
    c <= '\u{7f}'
}

/// True for a letter, in any script.
pub open spec fn letter(c: char) -> bool {
    if is_ascii(c) {
        is_letter(c)
    } else {
        alphabetic(c)
    }
}

/// True for a letter or a digit, in any script.
pub open spec fn letter_or_digit(c: char) -> bool {
    if is_ascii(c) {
        is_letter(c) || is_digit(c)
    } else {
        alphanumeric(c)
    }
}

/// True for an upper case letter, in any script.
pub open spec fn capital(c: char) -> bool {
    if is_ascii(c) {
        'A' <= c <= 'Z'
    } else {
        uppercase(c)
    }
}

/// A character in lower case, in any script.
pub open spec fn small(c: char) -> Seq<char> {
    if is_ascii(c) {
        seq![lower_char(c)]
    } else {
        lowercase(c)
    }
}

/// `char::is_alphabetic` decides by the character alone, and of the ASCII
/// characters it accepts the letters.
pub assume_specification[ char::is_alphabetic ](c: char) -> (r: bool)
    ensures
        is_ascii(c) ==> r == is_letter(c),
        !is_ascii(c) ==> r == alphabetic(c),
;

/// `char::is_alphanumeric` decides by the character alone, and of the ASCII
/// characters it accepts the letters and the digits.
pub assume_specification[ char::is_alphanumeric ](c: char) -> (r: bool)
    ensures
        is_ascii(c) ==> r == (is_letter(c) || is_digit(c)),
        !is_ascii(c) ==> r == alphanumeric(c),
;

/// `char::is_uppercase` decides by the character alone, and of the ASCII
/// characters it accepts the upper case letters.
pub assume_specification[ char::is_uppercase ](c: char) -> (r: bool)
    ensures
        is_ascii(c) ==> r == ('A' <= c <= 'Z'),
        !is_ascii(c) ==> r == uppercase(c),
;

/// `char::to_lowercase`, its characters collected. Claimed: they depend on the
/// character alone, and an ASCII character has the one that ASCII gives it.
#[verifier::external_body]
pub(crate) fn to_lowercase(c: char) -> (r: Vec<char>)
    ensures
        is_ascii(c) ==> r@ == seq![lower_char(c)],
        !is_ascii(c) ==> r@ == lowercase(c),
{
    c.to_lowercase().collect()
}

/// `String::push` puts one character behind the text.
pub assume_specification[ String::push ](s: &mut String, c: char)
    ensures
        final(s)@ == old(s)@.push(c),
;

/// The characters of a text.
pub fn chars(text: &str) -> (r: Vec<char>)
    ensures
        r@ == text@,
{
    let mut r: Vec<char> = Vec::new();
    for c in it: text.chars()
        invariant
            it.seq() == text@,
            r@ == text@.take(it.index()),
    {
        r.push(c);
        assert(text@.take(it.index() + 1) =~= text@.take(it.index()).push(c));
    }
    assert(text@.take(text@.len() as int) =~= text@);
    r
}

/// The text that some characters make.
pub fn string(chars: &[char]) -> (r: String)
    ensures
        r@ == chars@,
{
    let mut r = String::new();
    for i in 0..chars.len()
        invariant
            r@ == chars@.take(i as int),
    {
        r.push(chars[i]);
        assert(chars@.take(i + 1) =~= chars@.take(i as int).push(chars@[i as int]));
    }
    assert(chars@.take(chars@.len() as int) =~= chars@);
    r
}

/// Whether two texts are the same.
pub fn same(a: &str, b: &str) -> (r: bool)
    ensures
        r == (a@ == b@),
{
    let x = a.as_bytes();
    let y = b.as_bytes();
    proof {
        encode_utf8_decode_utf8(a@);
        encode_utf8_decode_utf8(b@);
    }
    if x.len() != y.len() {
        return false;
    }
    for i in 0..x.len()
        invariant
            x@ == encode_utf8(a@),
            y@ == encode_utf8(b@),
            x@.len() == y@.len(),
            forall|j: int| 0 <= j < i ==> x@[j] == y@[j],
    {
        if x[i] != y[i] {
            return false;
        }
    }
    assert(x@ =~= y@);
    true
}

/// The part of a text without the white space around it.
pub fn trim(s: &[char]) -> (r: &[char])
    ensures
        r@ == trimmed(s@),
{
    let kept = trim_start(s);
    let mut end: usize = kept.len();
    assert(kept@.take(end as int) =~= kept@);
    while end > 0 && space(kept[end - 1])
        invariant
            end <= kept@.len(),
            trimmed_end(kept@) == trimmed_end(kept@.take(end as int)),
        decreases end,
    {
        end = end - 1;
        assert(kept@.take(end + 1).drop_last() =~= kept@.take(end as int));
    }
    assert(kept@.subrange(0, end as int) =~= kept@.take(end as int));
    slice_subrange(kept, 0, end)
}

/// The part of a text without the white space before it.
pub fn trim_start(s: &[char]) -> (r: &[char])
    ensures
        r@ == trimmed_start(s@),
{
    let mut start: usize = 0;
    assert(s@.skip(0) =~= s@);
    while start < s.len() && space(s[start])
        invariant
            start <= s@.len(),
            trimmed_start(s@) == trimmed_start(s@.skip(start as int)),
        decreases s@.len() - start,
    {
        assert(s@.skip(start as int).drop_first() =~= s@.skip(start + 1));
        start = start + 1;
    }
    assert(s@.subrange(start as int, s@.len() as int) =~= s@.skip(start as int));
    slice_subrange(s, start, s.len())
}

/// Whether a character is white space.
pub fn space(c: char) -> (r: bool)
    ensures
        r == is_space(c),
{
    ('\u{9}' <= c && c <= '\u{d}') || c == ' ' || c == '\u{85}' || c == '\u{a0}' || c == '\u{1680}'
        || ('\u{2000}' <= c && c <= '\u{200a}') || c == '\u{2028}' || c == '\u{2029}'
        || c == '\u{202f}' || c == '\u{205f}' || c == '\u{3000}'
}

/// A text with its upper case ASCII letters made lower case.
pub fn lower(s: &[char]) -> (r: Vec<char>)
    ensures
        r@ == lowered(s@),
{
    let mut r: Vec<char> = Vec::new();
    for i in 0..s.len()
        invariant
            r@ == lowered(s@.take(i as int)),
    {
        let c = s[i];
        r.push(if 'A' <= c && c <= 'Z' { (c as u8 + 32) as char } else { c });
        assert(s@.take(i + 1) =~= s@.take(i as int).push(c));
        assert(r@ =~= lowered(s@.take(i + 1)));
    }
    assert(s@.take(s@.len() as int) =~= s@);
    r
}

/// Whether `needle` stands in `s` at index `at`.
pub fn stands_at(s: &[char], needle: &[char], at: usize) -> (r: bool)
    ensures
        r == occurs_at(s@, needle@, at as int),
{
    if at > s.len() || needle.len() > s.len() - at {
        return false;
    }
    for i in 0..needle.len()
        invariant
            at + needle@.len() <= s@.len() <= usize::MAX,
            forall|j: int| 0 <= j < i ==> s@[at + j] == #[trigger] needle@[j],
    {
        if s[at + i] != needle[i] {
            assert(s@.subrange(at as int, at + needle@.len())[i as int] == s@[at + i]);
            return false;
        }
    }
    assert(s@.subrange(at as int, at + needle@.len()) =~= needle@);
    true
}

/// The first index at or after `from` at which `needle` stands.
pub fn find(s: &[char], needle: &[char], from: usize) -> (r: Option<usize>)
    ensures
        match r {
            Some(i) => first_at(s@, needle@, from as int) == Some(i as int) && i <= s@.len(),
            None => first_at(s@, needle@, from as int) is None,
        },
{
    let mut at: usize = from;
    while at <= s.len()
        invariant
            first_at(s@, needle@, from as int) == first_at(s@, needle@, at as int),
        decreases s@.len() + 1 - at,
    {
        if stands_at(s, needle, at) {
            return Some(at);
        }
        if at == s.len() {
            assert(first_at(s@, needle@, at + 1) is None);
            return None;
        }
        at = at + 1;
    }
    None
}

/// What a search says about where a needle stands.
pub proof fn lemma_first_at(s: Seq<char>, needle: Seq<char>, from: int)
    requires
        0 <= from,
    ensures
        first_at(s, needle, from) matches Some(i) ==> {
            &&& from <= i
            &&& occurs_at(s, needle, i)
            &&& forall|j: int| from <= j < i ==> !occurs_at(s, needle, j)
        },
        first_at(s, needle, from) is None ==> forall|j: int| from <= j ==> !occurs_at(s, needle, j),
    decreases s.len() + 1 - from,
{
    if from <= s.len() && !occurs_at(s, needle, from) {
        lemma_first_at(s, needle, from + 1);
    }
}

/// Whether `needle` stands somewhere in `s`.
pub fn contains(s: &[char], needle: &str) -> (r: bool)
    ensures
        r == holds(s@, needle@),
{
    let needle = chars(needle);
    proof {
        lemma_first_at(s@, needle@, 0);
    }
    match find(s, needle.as_slice(), 0) {
        Some(_) => true,
        None => {
            assert(forall|j: int| 0 <= j ==> !occurs_at(s@, needle@, j));
            false
        },
    }
}

/// Whether `s` starts with `prefix`.
pub fn starts_with(s: &[char], prefix: &str) -> (r: bool)
    ensures
        r == begins(s@, prefix@),
{
    let prefix = chars(prefix);
    stands_at(s, prefix.as_slice(), 0)
}

/// Whether `s` ends with `suffix`.
pub fn ends_with(s: &[char], suffix: &str) -> (r: bool)
    ensures
        r == ends(s@, suffix@),
{
    let suffix = chars(suffix);
    if suffix.len() > s.len() {
        return false;
    }
    stands_at(s, suffix.as_slice(), s.len() - suffix.len())
}

/// The model of a list of texts kept as characters.
pub open spec fn deep(parts: Seq<Vec<char>>) -> Seq<Seq<char>> {
    parts.map_values(|part: Vec<char>| part@)
}

/// The model of a list of texts.
pub open spec fn texts(list: Seq<String>) -> Seq<Seq<char>> {
    list.map_values(|text: String| text@)
}

/// The model of a list of borrowed texts.
pub open spec fn slices(list: Seq<&str>) -> Seq<Seq<char>> {
    list.map_values(|text: &str| text@)
}

/// A text has at least one part, however it is split.
pub proof fn lemma_split_len(s: Seq<char>, separator: char)
    ensures
        split(s, separator).len() >= 1,
    decreases s.len(),
{
    if s.len() > 0 {
        lemma_split_len(s.drop_last(), separator);
    }
}

/// Splits a text at every separator.
pub fn split_at(s: &[char], separator: char) -> (r: Vec<Vec<char>>)
    ensures
        deep(r@) == split(s@, separator),
{
    let mut r: Vec<Vec<char>> = Vec::new();
    let mut part: Vec<char> = Vec::new();
    assert(deep(r@).push(part@) =~= split(s@.take(0), separator));
    for i in 0..s.len()
        invariant
            deep(r@).push(part@) == split(s@.take(i as int), separator),
    {
        let ghost done = deep(r@);
        let ghost grown = part@;
        assert(s@.take(i + 1).drop_last() =~= s@.take(i as int));
        assert(done.push(grown).drop_last() =~= done);
        let c = s[i];
        if c == separator {
            r.push(part);
            part = Vec::new();
            assert(deep(r@) =~= done.push(grown));
        } else {
            part.push(c);
        }
        assert(deep(r@).push(part@) =~= split(s@.take(i + 1), separator));
    }
    assert(s@.take(s@.len() as int) =~= s@);
    let ghost done = deep(r@);
    let ghost grown = part@;
    r.push(part);
    assert(deep(r@) =~= done.push(grown));
    r
}

/// The lines of a text.
pub fn text_lines(text: &str) -> (r: Vec<Vec<char>>)
    ensures
        deep(r@) == lines(text@),
{
    let all = chars(text);
    let mut parts = split_at(all.as_slice(), '\n');
    let ghost pieces = split(text@, '\n');
    proof {
        lemma_split_len(text@, '\n');
    }
    assert(parts@.len() == pieces.len());
    let last = parts.pop().unwrap();
    assert(last@ == deep(parts@.push(last)).last());
    assert(deep(parts@) =~= pieces.drop_last());
    let mut r: Vec<Vec<char>> = Vec::new();
    for i in 0..parts.len()
        invariant
            deep(parts@) == pieces.drop_last(),
            deep(r@) == pieces.drop_last().take(i as int).map_values(
                |part: Seq<char>| without_return(part),
            ),
    {
        let ghost before = r@;
        let part = parts[i].as_slice();
        assert(part@ == deep(parts@)[i as int]);
        let n = part.len();
        let kept = if n > 0 && part[n - 1] == '\r' { slice_subrange(part, 0, n - 1) } else { part };
        assert(kept@ =~= without_return(part@));
        let line = copy(kept);
        let ghost told = line@;
        r.push(line);
        assert(deep(r@) =~= deep(before).push(told));
        assert(pieces.drop_last().take(i + 1) =~= pieces.drop_last().take(i as int).push(part@));
        assert(deep(r@) =~= pieces.drop_last().take(i + 1).map_values(
            |part: Seq<char>| without_return(part),
        ));
    }
    assert(pieces.drop_last().take(parts@.len() as int) =~= pieces.drop_last());
    if last.len() > 0 {
        let ghost ended = deep(r@);
        let ghost tail = last@;
        r.push(last);
        assert(deep(r@) =~= ended.push(tail));
    }
    r
}

/// The same characters again.
pub fn copy(s: &[char]) -> (r: Vec<char>)
    ensures
        r@ == s@,
{
    let mut r: Vec<char> = Vec::new();
    for i in 0..s.len()
        invariant
            r@ == s@.take(i as int),
    {
        r.push(s[i]);
        assert(s@.take(i + 1) =~= s@.take(i as int).push(s@[i as int]));
    }
    assert(s@.take(s@.len() as int) =~= s@);
    r
}

/// Puts some characters behind others.
pub fn extend(r: &mut Vec<char>, more: &[char])
    ensures
        final(r)@ == old(r)@ + more@,
{
    for i in 0..more.len()
        invariant
            r@ == old(r)@ + more@.take(i as int),
    {
        r.push(more[i]);
        assert(r@ =~= old(r)@ + more@.take(i + 1));
    }
    assert(more@.take(more@.len() as int) =~= more@);
}

/// Replaces each `from` by `to`, from the left.
pub fn replace(s: &[char], from: &str, to: &str) -> (r: Vec<char>)
    requires
        from@.len() > 0,
    ensures
        r@ == replaced(s@, from@, to@),
{
    let from = chars(from);
    let to = chars(to);
    let mut r: Vec<char> = Vec::new();
    let mut at: usize = 0;
    assert(s@.skip(0) =~= s@);
    assert(r@ + replaced(s@, from@, to@) =~= replaced(s@, from@, to@));
    while at < s.len()
        invariant
            from@.len() > 0,
            at <= s@.len(),
            r@ + replaced(s@.skip(at as int), from@, to@) == replaced(s@, from@, to@),
        decreases s@.len() - at,
    {
        let ghost rest = s@.skip(at as int);
        if stands_at(s, from.as_slice(), at) {
            assert(rest.subrange(0, from@.len() as int) =~= s@.subrange(at as int, at + from@.len()));
            assert(rest.skip(from@.len() as int) =~= s@.skip(at + from@.len()));
            let ghost done = r@;
            extend(&mut r, to.as_slice());
            at = at + from.len();
            assert(done + (to@ + replaced(s@.skip(at as int), from@, to@)) =~= r@ + replaced(
                s@.skip(at as int),
                from@,
                to@,
            ));
        } else {
            proof {
                if begins(rest, from@) {
                    assert(s@.subrange(at as int, at + from@.len()) =~= rest.subrange(
                        0,
                        from@.len() as int,
                    ));
                }
            }
            assert(rest.drop_first() =~= s@.skip(at + 1));
            let ghost done = r@;
            r.push(s[at]);
            at = at + 1;
            assert(done + (seq![rest[0]] + replaced(s@.skip(at as int), from@, to@)) =~= r@
                + replaced(s@.skip(at as int), from@, to@));
        }
    }
    assert(s@.skip(at as int) =~= Seq::<char>::empty());
    assert(r@ + Seq::<char>::empty() =~= r@);
    r
}

/// A text has words exactly when joining them leaves something, and always
/// when it does not end in white space.
proof fn lemma_words(s: Seq<char>)
    ensures
        forall|k: int| 0 <= k < words(s).len() ==> (#[trigger] words(s)[k]).len() > 0,
        s.len() > 0 && !is_space(s.last()) ==> words(s).len() > 0,
        (joined(words(s), seq![' ']).len() > 0) == (words(s).len() > 0),
    decreases s.len(),
{
    if s.len() > 0 {
        lemma_words(s.drop_last());
    }
}

/// The words of a text with one space between neighbours.
pub fn spaced(s: &[char]) -> (r: Vec<char>)
    ensures
        r@ == joined(words(s@), seq![' ']),
{
    let mut r: Vec<char> = Vec::new();
    for i in 0..s.len()
        invariant
            r@ == joined(words(s@.take(i as int)), seq![' ']),
    {
        proof {
            lemma_words(s@.take(i as int));
        }
        let c = s[i];
        let ghost upto = s@.take(i as int);
        let ghost next = s@.take(i + 1);
        let ghost before = words(upto);
        assert(next.drop_last() =~= upto);
        if !space(c) {
            if i == 0 || space(s[i - 1]) {
                let ghost after = before.push(seq![c]);
                assert(words(next) =~= after);
                assert(after.drop_last() =~= before);
                if r.len() > 0 {
                    r.push(' ');
                    r.push(c);
                    assert(r@ =~= joined(before, seq![' ']) + seq![' '] + seq![c]);
                } else {
                    r.push(c);
                    assert(r@ =~= seq![c]);
                }
                assert(r@ == joined(words(next), seq![' ']));
            } else {
                let ghost after = before.drop_last().push(before.last().push(c));
                assert(words(next) =~= after);
                assert(after.drop_last() =~= before.drop_last());
                r.push(c);
                proof {
                    if before.len() == 1 {
                        assert(r@ =~= before.last().push(c));
                    } else {
                        assert(r@ =~= joined(before.drop_last(), seq![' ']) + seq![' ']
                            + before.last().push(c));
                    }
                }
                assert(r@ == joined(words(next), seq![' ']));
            }
        }
    }
    assert(s@.take(s@.len() as int) =~= s@);
    r
}

/// A number written in base ten.
pub fn number_text(n: usize) -> (r: String)
    ensures
        r@ == decimal(n as nat),
    decreases n,
{
    let last = (n % 10) as u8 + 48;
    assert('0' as u32 == 48);
    if n < 10 {
        let mut r = String::new();
        r.push(last as char);
        assert(r@ =~= seq![digit_char(n as nat)]);
        r
    } else {
        let mut r = number_text(n / 10);
        r.push(last as char);
        r
    }
}

/// More digits never make a smaller number.
pub proof fn lemma_number_grows(digits: Seq<char>, i: int)
    requires
        0 <= i <= digits.len(),
    ensures
        number(digits.take(i)) <= number(digits),
    decreases digits.len(),
{
    if i < digits.len() {
        lemma_number_grows(digits.drop_last(), i);
        assert(digits.drop_last().take(i) =~= digits.take(i));
        assert(number(digits.drop_last()) <= number(digits));
    } else {
        assert(digits.take(i) =~= digits);
    }
}

/// Reads a 32 bit number, with or without a plus sign before it.
pub fn parse_number(s: &[char]) -> (r: Option<u32>)
    ensures
        r == read_number(s@),
{
    let start: usize = if s.len() > 0 && s[0] == '+' { 1 } else { 0 };
    let digits = slice_subrange(s, start, s.len());
    assert(digits@ =~= unsigned(s@));
    if digits.len() == 0 {
        return None;
    }
    let mut value: u64 = 0;
    for i in 0..digits.len()
        invariant
            digits@ == unsigned(s@),
            digits@.len() > 0,
            value <= u32::MAX,
            value == number(digits@.take(i as int)),
            forall|j: int| 0 <= j < i ==> is_digit(#[trigger] digits@[j]),
    {
        let c = digits[i];
        if !('0' <= c && c <= '9') {
            return None;
        }
        assert('0' as u32 == 48);
        value = value * 10 + (c as u64 - 48);
        assert(digits@.take(i + 1).drop_last() =~= digits@.take(i as int));
        if value > u32::MAX as u64 {
            proof {
                lemma_number_grows(digits@, i + 1);
            }
            return None;
        }
    }
    assert(digits@.take(digits@.len() as int) =~= digits@);
    Some(value as u32)
}

/// Whether `a` stands before `b` in the order of their characters.
pub fn precedes(a: &str, b: &str) -> (r: bool)
    ensures
        r == text_before(a@, b@),
{
    let x = chars(a);
    let y = chars(b);
    let mut i: usize = 0;
    assert(x@.skip(0) =~= x@);
    assert(y@.skip(0) =~= y@);
    while i < x.len() && i < y.len()
        invariant
            x@ == a@,
            y@ == b@,
            i <= x@.len(),
            i <= y@.len(),
            text_before(x@, y@) == text_before(x@.skip(i as int), y@.skip(i as int)),
        decreases x@.len() - i,
    {
        if x[i] < y[i] {
            return true;
        }
        if y[i] < x[i] {
            return false;
        }
        assert(x@.skip(i as int).drop_first() =~= x@.skip(i + 1));
        assert(y@.skip(i as int).drop_first() =~= y@.skip(i + 1));
        i = i + 1;
    }
    i < y.len()
}

/// A number written in base ten is read back.
pub proof fn lemma_decimal_is_read_back(n: nat)
    ensures
        number(decimal(n)) == n,
        decimal(n).len() > 0,
        forall|i: int| 0 <= i < decimal(n).len() ==> is_digit(#[trigger] decimal(n)[i]),
    decreases n,
{
    assert('0' as u32 == 48);
    reveal_with_fuel(number, 2);
    if n >= 10 {
        lemma_decimal_is_read_back(n / 10);
        assert(decimal(n).drop_last() =~= decimal(n / 10));
    } else {
        assert(decimal(n).drop_last() =~= Seq::<char>::empty());
    }
}

/// A number as far as a machine word can hold it.
pub open spec fn bounded(n: nat) -> usize {
    if n <= usize::MAX {
        n as usize
    } else {
        usize::MAX
    }
}

/// How many bytes a text takes in UTF-8, as far as a machine word can hold it.
pub fn count_bytes(s: &[char]) -> (r: usize)
    ensures
        r == bounded(byte_length(s@)),
{
    let mut total: usize = 0;
    assert(s@.take(0) =~= Seq::<char>::empty());
    for i in 0..s.len()
        invariant
            total == bounded(byte_length(s@.take(i as int))),
    {
        assert(s@.take(i + 1).drop_last() =~= s@.take(i as int));
        let c = s[i];
        let width: usize = if c <= '\u{7f}' {
            1
        } else if c <= '\u{7ff}' {
            2
        } else if c <= '\u{ffff}' {
            3
        } else {
            4
        };
        total = if usize::MAX - total >= width { total + width } else { usize::MAX };
    }
    assert(s@.take(s@.len() as int) =~= s@);
    total
}

/// A separator splits a text into what splitting both sides gives.
pub proof fn lemma_split_apart(a: Seq<char>, b: Seq<char>, separator: char)
    ensures
        split(a + seq![separator] + b, separator) == split(a, separator) + split(b, separator),
    decreases b.len(),
{
    let all = a + seq![separator] + b;
    if b.len() == 0 {
        assert(all.drop_last() =~= a);
        assert(split(all, separator) =~= split(a, separator) + split(b, separator));
    } else {
        let rest = b.drop_last();
        lemma_split_apart(a, rest, separator);
        lemma_split_len(rest, separator);
        assert(all.drop_last() =~= a + seq![separator] + rest);
        assert(split(all, separator) =~= split(a, separator) + split(b, separator));
    }
}

/// A text without the separator is one part.
pub proof fn lemma_split_whole(s: Seq<char>, separator: char)
    requires
        !s.contains(separator),
    ensures
        split(s, separator) == seq![s],
    decreases s.len(),
{
    if s.len() == 0 {
        assert(s =~= Seq::empty());
    } else {
        let rest = s.drop_last();
        assert forall|c: char| rest.contains(c) implies s.contains(c) by {
            let k = choose|k: int| 0 <= k < rest.len() && rest[k] == c;
            assert(s[k] == c);
        }
        lemma_split_whole(rest, separator);
        assert(s[s.len() - 1] == s.last());
        assert(rest.push(s.last()) =~= s);
        assert(split(s, separator) =~= seq![s]);
    }
}

/// What does not occur is not replaced.
pub proof fn lemma_nothing_replaced(s: Seq<char>, from: Seq<char>, to: Seq<char>, c: char)
    requires
        from.contains(c),
        !s.contains(c),
    ensures
        replaced(s, from, to) == s,
    decreases s.len(),
{
    if s.len() > 0 && from.len() > 0 {
        if begins(s, from) {
            let k = choose|k: int| 0 <= k < from.len() && from[k] == c;
            assert(s.subrange(0, from.len() as int)[k] == s[k]);
            assert(s.contains(c));
        }
        let rest = s.drop_first();
        assert forall|d: char| rest.contains(d) implies s.contains(d) by {
            let k = choose|k: int| 0 <= k < rest.len() && rest[k] == d;
            assert(s[k + 1] == d);
        }
        lemma_nothing_replaced(rest, from, to, c);
        assert(seq![s[0]] + rest =~= s);
    }
}

/// True when no white space stands in a text.
pub open spec fn unspaced(s: Seq<char>) -> bool {
    forall|i: int| 0 <= i < s.len() ==> !is_space(#[trigger] s[i])
}

/// A text without white space is one word.
pub proof fn lemma_one_word(s: Seq<char>)
    requires
        s.len() > 0,
        unspaced(s),
    ensures
        words(s) == seq![s],
    decreases s.len(),
{
    let rest = s.drop_last();
    if rest.len() == 0 {
        assert(words(rest) =~= Seq::empty());
        assert(s =~= seq![s.last()]);
        assert(words(s) =~= seq![s]);
    } else {
        assert forall|i: int| 0 <= i < rest.len() implies !is_space(#[trigger] rest[i]) by {
            assert(rest[i] == s[i]);
        }
        lemma_one_word(rest);
        assert(rest.push(s.last()) =~= s);
        assert(!is_space(s[s.len() - 2]));
        assert(words(s) =~= seq![s]);
    }
}

/// A text that neither starts nor ends in white space is not trimmed.
pub proof fn lemma_not_trimmed(s: Seq<char>)
    requires
        s.len() > 0,
        !is_space(s[0]),
        !is_space(s.last()),
    ensures
        trimmed(s) == s,
{
}

} // verus!
