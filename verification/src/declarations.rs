//! Reading the Solidity that a Stylus contract writes down about itself.
//!
//! The bodies of `sol_storage!` and `sol_interface!` are Solidity, not Rust, so
//! they arrive as text and are read as text.

use crate::lists::lemma_picked_apart;
use crate::order::views;
use crate::text::{
    begins, capital, chars, contains, copy, deep, ends, extend, find, first_at, holds, is_digit,
    is_space, joined, lemma_first_at, lemma_not_trimmed, lemma_nothing_replaced, lemma_one_word,
    lemma_split_apart, lemma_split_len, lemma_split_whole, letter, letter_or_digit, occurs_at,
    replace, replaced, same, small, space, spaced, split, split_at, stands_at, starts_with, string,
    texts, to_lowercase, trim, trim_start, trimmed, trimmed_start, unspaced, words,
};
use vstd::prelude::*;
use vstd::slice::slice_subrange;

verus! {

/// What follows a bracket group: the text after the bracket that closes the
/// group `depth` brackets deep, or nothing if it is never closed.
pub open spec fn after_group(s: Seq<char>, depth: int) -> Seq<char>
    decreases s.len(),
{
    if s.len() == 0 {
        s
    } else if s[0] == '[' {
        after_group(s.drop_first(), depth + 1)
    } else if s[0] == ']' {
        if depth <= 1 {
            s.drop_first()
        } else {
            after_group(s.drop_first(), depth - 1)
        }
    } else {
        after_group(s.drop_first(), depth)
    }
}

/// True when an attribute starts here: a hash, and a bracket behind it with at
/// most white space between them.
pub open spec fn opens_attribute(s: Seq<char>) -> bool {
    &&& s.len() > 0
    &&& s[0] == '#'
    &&& trimmed_start(s.drop_first()).len() > 0
    &&& trimmed_start(s.drop_first())[0] == '['
}

/// What follows the attribute that starts here.
pub open spec fn after_attribute(s: Seq<char>) -> Seq<char> {
    after_group(trimmed_start(s.drop_first()), 0)
}

/// A text with a space in place of each attribute.
pub open spec fn stripped(s: Seq<char>) -> Seq<char>
    decreases s.len(),
{
    if s.len() == 0 {
        s
    } else if opens_attribute(s) {
        proof {
            lemma_after_attribute(s);
        }
        seq![' '] + stripped(after_attribute(s))
    } else {
        seq![s[0]] + stripped(s.drop_first())
    }
}

proof fn lemma_after_group(s: Seq<char>, depth: int)
    ensures
        after_group(s, depth).len() <= s.len(),
        after_group(s, depth) == s.skip(s.len() - after_group(s, depth).len()),
    decreases s.len(),
{
    if s.len() > 0 {
        let tail = s.drop_first();
        let inner = if s[0] == '[' {
            depth + 1
        } else if s[0] == ']' {
            depth - 1
        } else {
            depth
        };
        lemma_after_group(tail, inner);
        let rest = after_group(tail, inner);
        assert(tail.skip(tail.len() - rest.len()) =~= s.skip(s.len() - rest.len()));
        assert(tail =~= s.skip(1));
    }
    assert(s.skip(0) =~= s);
}

proof fn lemma_trimmed_start(s: Seq<char>)
    ensures
        trimmed_start(s).len() <= s.len(),
        trimmed_start(s) == s.skip(s.len() - trimmed_start(s).len()),
    decreases s.len(),
{
    if s.len() > 0 && is_space(s[0]) {
        let tail = s.drop_first();
        lemma_trimmed_start(tail);
        let rest = trimmed_start(tail);
        assert(tail.skip(tail.len() - rest.len()) =~= s.skip(s.len() - rest.len()));
    }
    assert(s.skip(0) =~= s);
}

/// An attribute is at least as long as its hash.
pub proof fn lemma_after_attribute(s: Seq<char>)
    requires
        s.len() > 0,
    ensures
        after_attribute(s).len() < s.len(),
        after_attribute(s) == s.skip(s.len() - after_attribute(s).len()),
{
    let tail = s.drop_first();
    let inner = trimmed_start(tail);
    lemma_trimmed_start(tail);
    lemma_after_group(inner, 0);
    let rest = after_group(inner, 0);
    assert(inner.skip(inner.len() - rest.len()) =~= s.skip(s.len() - rest.len()));
}

/// How much of a text is left behind the bracket group that starts it.
fn rest_after_group(s: &[char]) -> (r: &[char])
    ensures
        r@ == after_group(s@, 0),
{
    let n = s.len();
    let mut at: usize = 0;
    let mut depth: usize = 0;
    assert(s@.skip(0) =~= s@);
    while at < n
        invariant
            at <= n,
            n == s@.len(),
            depth <= at,
            after_group(s@, 0) == after_group(s@.skip(at as int), depth as int),
        decreases s@.len() - at,
    {
        let ghost here = s@.skip(at as int);
        assert(here.drop_first() =~= s@.skip(at + 1));
        let c = s[at];
        if c == '[' {
            depth = depth + 1;
        } else if c == ']' {
            if depth <= 1 {
                assert(s@.subrange(at + 1, s@.len() as int) =~= s@.skip(at + 1));
                return slice_subrange(s, at + 1, n);
            }
            depth = depth - 1;
        }
        at = at + 1;
    }
    assert(s@.subrange(at as int, s@.len() as int) =~= s@.skip(at as int));
    slice_subrange(s, at, n)
}

/// Removes `#[..]` attribute groups, brackets balanced, contents and all.
#[must_use]
pub fn strip_attributes(body: &str) -> (r: String)
    ensures
        r@ == stripped(body@),
{
    let all = chars(body);
    string(without_attributes(all.as_slice()).as_slice())
}

fn without_attributes(s: &[char]) -> (r: Vec<char>)
    ensures
        r@ == stripped(s@),
{
    let mut out: Vec<char> = Vec::new();
    let mut rest: &[char] = s;
    assert(out@ + stripped(rest@) =~= stripped(s@));
    while rest.len() > 0
        invariant
            out@ + stripped(rest@) == stripped(s@),
        decreases rest@.len(),
    {
        let ghost done = out@;
        let ghost here = rest@;
        let tail = slice_subrange(rest, 1, rest.len());
        assert(tail@ =~= here.drop_first());
        let group = trim_start(tail);
        if rest[0] == '#' && group.len() > 0 && group[0] == '[' {
            proof {
                lemma_after_attribute(here);
            }
            out.push(' ');
            rest = rest_after_group(group);
            assert(done + (seq![' '] + stripped(rest@)) =~= out@ + stripped(rest@));
        } else {
            out.push(rest[0]);
            rest = tail;
            assert(done + (seq![here[0]] + stripped(rest@)) =~= out@ + stripped(rest@));
        }
    }
    assert(out@ + Seq::<char>::empty() =~= out@);
    assert(rest@ =~= Seq::<char>::empty());
    out
}

/// A storage field as `sol_storage!` declared it.
#[derive(Debug, PartialEq, Eq)]
pub struct StorageField {
    pub name: String,
    /// The Solidity type verbatim, e.g. `uint256`, `mapping(address => bool)`.
    pub sol_type: String,
}

/// The mathematical model of a [`StorageField`].
pub ghost struct FieldView {
    pub name: Seq<char>,
    pub sol_type: Seq<char>,
}

impl View for StorageField {
    type V = FieldView;

    open spec fn view(&self) -> FieldView {
        FieldView { name: self.name@, sol_type: self.sol_type@ }
    }
}

impl Clone for StorageField {
    fn clone(&self) -> (r: StorageField)
        ensures
            r@ == self@,
    {
        StorageField { name: self.name.clone(), sol_type: self.sol_type.clone() }
    }
}

/// The index of the last white space in a text, if it has any.
pub open spec fn last_space(s: Seq<char>) -> Option<int>
    decreases s.len(),
{
    if s.len() == 0 {
        None
    } else if is_space(s.last()) {
        Some(s.len() - 1)
    } else {
        last_space(s.drop_last())
    }
}

/// A declaration as its type and its name: the last word is the name.
pub open spec fn declaration_parts(decl: Seq<char>) -> Option<(Seq<char>, Seq<char>)> {
    let text = trimmed(decl);
    match last_space(text) {
        None => None,
        Some(i) => {
            let ty = trimmed(text.take(i));
            let name = trimmed(text.skip(i + 1));
            if ty.len() == 0 || name.len() == 0 {
                None
            } else {
                Some((ty, name))
            }
        },
    }
}

/// A type without the spaces that a token stream puts around brackets, and
/// with one space wherever else there was white space.
pub open spec fn normalised(ty: Seq<char>) -> Seq<char> {
    let a = replaced(ty, " ("@, "("@);
    let b = replaced(a, "( "@, "("@);
    let c = replaced(b, " )"@, ")"@);
    let d = replaced(c, " ["@, "["@);
    let e = replaced(d, "[ "@, "["@);
    let f = replaced(e, " ]"@, "]"@);
    joined(words(f), seq![' '])
}

pub open spec fn name_character(c: char) -> bool {
    letter_or_digit(c) || c == '_'
}

/// True when a text can name a field: a letter or an underscore, and then
/// letters, digits and underscores.
pub open spec fn identifier(text: Seq<char>) -> bool {
    &&& text.len() > 0
    &&& letter(text[0]) || text[0] == '_'
    &&& forall|i: int| 0 <= i < text.len() ==> name_character(#[trigger] text[i])
}

/// True when a word stands at a place of a text, not as a part of a longer name.
pub open spec fn word_at(s: Seq<char>, word: Seq<char>, i: int) -> bool {
    &&& occurs_at(s, word, i)
    &&& i > 0 ==> !name_character(s[i - 1])
    &&& i + word.len() < s.len() ==> !name_character(s[i + word.len()])
}

/// True when a text says a word.
pub open spec fn has_word(s: Seq<char>, word: Seq<char>) -> bool {
    exists|i: int| word_at(s, word, i)
}

/// The part of a chunk that can be a declaration: what stands behind its last
/// opening brace, closing braces aside.
pub open spec fn declaration_in(chunk: Seq<char>) -> Seq<char> {
    trimmed(replaced(split(chunk, '{').last(), "}"@, " "@))
}

/// The field that a chunk of a `sol_storage!` body declares, if it declares one.
pub open spec fn field_in(chunk: Seq<char>) -> Option<FieldView> {
    let decl = declaration_in(chunk);
    if decl.len() == 0 || has_word(decl, "struct"@) || begins(decl, "#"@) || (holds(decl, "=>"@)
        && !holds(decl, ")"@)) {
        None
    } else {
        match declaration_parts(decl) {
            Some((ty, name)) => if identifier(name) {
                Some(FieldView { name, sol_type: normalised(ty) })
            } else {
                None
            },
            None => None,
        }
    }
}

/// The fields that a `sol_storage!` body declares, one at most for each
/// semicolon, attributes having been removed.
pub open spec fn storage_in(body: Seq<char>) -> Seq<FieldView> {
    split(stripped(body), ';').filter_map(|chunk: Seq<char>| field_in(chunk))
}

/// Pulls `type name;` pairs out of a `sol_storage!` body.
///
/// The body is Solidity, not Rust, so it arrives as an opaque token stream and
/// is read as text. Declarations are simple enough that this holds up: split on
/// semicolons, and in each declaration the last word is the name and the rest
/// is the type.
#[must_use]
pub fn parse_storage(body: &str) -> (r: Vec<StorageField>)
    ensures
        views(r@) == storage_in(body@),
{
    // Attributes come off first, before anything is split. The text of a doc
    // attribute can hold semicolons and braces of its own.
    let all = chars(body);
    let bare = without_attributes(all.as_slice());
    let chunks = split_at(bare.as_slice(), ';');
    let ghost parts = split(stripped(body@), ';');
    let ghost declared = |chunk: Seq<char>| field_in(chunk);
    let mut fields: Vec<StorageField> = Vec::new();
    assert(views(fields@) =~= parts.take(0).filter_map(declared));
    for i in 0..chunks.len()
        invariant
            deep(chunks@) == parts,
            declared == (|chunk: Seq<char>| field_in(chunk)),
            views(fields@) == parts.take(i as int).filter_map(declared),
    {
        let ghost before = fields@;
        assert(chunks@[i as int]@ == parts[i as int]);
        proof {
            parts.lemma_filter_map_take_succ(declared, i as int);
        }
        match read_field(chunks[i].as_slice()) {
            Some(field) => {
                let ghost told = field@;
                fields.push(field);
                assert(views(fields@) =~= views(before) + seq![told]);
            },
            None => {
                assert(views(fields@) =~= views(before) + Seq::empty());
            },
        }
    }
    assert(parts.take(parts.len() as int) =~= parts);
    fields
}

fn read_field(chunk: &[char]) -> (r: Option<StorageField>)
    ensures
        match r {
            Some(field) => field_in(chunk@) == Some(field@),
            None => field_in(chunk@) is None,
        },
{
    let parts = split_at(chunk, '{');
    proof {
        lemma_split_len(chunk@, '{');
        reveal_strlit("}");
        reveal_strlit("struct");
    }
    assert(parts@.len() == split(chunk@, '{').len());
    let inner = &parts[parts.len() - 1];
    assert(inner@ == deep(parts@).last());
    let spread = replace(inner.as_slice(), "}", " ");
    let decl = trim(spread.as_slice());
    if decl.len() == 0 || says(decl, "struct") || starts_with(decl, "#") || (contains(decl, "=>")
        && !contains(decl, ")")) {
        return None;
    }
    match split_declaration(decl) {
        Some((ty, name)) => if is_identifier(name.as_slice()) {
            Some(
                StorageField {
                    name: string(name.as_slice()),
                    sol_type: string(normalise_type(ty.as_slice()).as_slice()),
                },
            )
        } else {
            None
        },
        None => None,
    }
}

/// Splits `mapping(address => bool) allowed` into its type and its name.
fn split_declaration(decl: &[char]) -> (r: Option<(Vec<char>, Vec<char>)>)
    ensures
        match r {
            Some((ty, name)) => declaration_parts(decl@) == Some((ty@, name@)),
            None => declaration_parts(decl@) is None,
        },
{
    let text = trim(decl);
    let mut at: usize = text.len();
    assert(text@.take(at as int) =~= text@);
    while at > 0
        invariant
            text@ == trimmed(decl@),
            at <= text@.len() <= usize::MAX,
            last_space(text@) == last_space(text@.take(at as int)),
        decreases at,
    {
        let ghost upto = text@.take(at as int);
        if space(text[at - 1]) {
            assert(last_space(upto) == Some(at - 1));
            assert(text@.subrange(0, at - 1) =~= text@.take(at - 1));
            assert(text@.subrange(at as int, text@.len() as int) =~= text@.skip(at as int));
            let ty = trim(slice_subrange(text, 0, at - 1));
            let name = trim(slice_subrange(text, at, text.len()));
            if ty.len() == 0 || name.len() == 0 {
                return None;
            }
            return Some((copy(ty), copy(name)));
        }
        assert(upto.drop_last() =~= text@.take(at - 1));
        at = at - 1;
    }
    None
}

/// Token streams stringify with spaces around punctuation; put them back.
fn normalise_type(ty: &[char]) -> (r: Vec<char>)
    ensures
        r@ == normalised(ty@),
{
    proof {
        reveal_strlit(" (");
        reveal_strlit("( ");
        reveal_strlit(" )");
        reveal_strlit(" [");
        reveal_strlit("[ ");
        reveal_strlit(" ]");
    }
    let a = replace(ty, " (", "(");
    let b = replace(a.as_slice(), "( ", "(");
    let c = replace(b.as_slice(), " )", ")");
    let d = replace(c.as_slice(), " [", "[");
    let e = replace(d.as_slice(), "[ ", "[");
    let f = replace(e.as_slice(), " ]", "]");
    spaced(f.as_slice())
}

fn in_a_name(c: char) -> (r: bool)
    ensures
        r == name_character(c),
{
    c.is_alphanumeric() || c == '_'
}

/// Whether a text says a word, as a word of its own.
fn says(s: &[char], word: &str) -> (r: bool)
    requires
        word@.len() > 0,
    ensures
        r == has_word(s@, word@),
{
    let wanted = chars(word);
    let n = wanted.len();
    for i in 0..s.len()
        invariant
            n == wanted@.len(),
            wanted@ == word@,
            forall|j: int| 0 <= j < i ==> !word_at(s@, word@, j),
    {
        if stands_at(s, wanted.as_slice(), i) && (i == 0 || !in_a_name(s[i - 1])) && (s.len() - i
            == n || !in_a_name(s[i + n])) {
            assert(word_at(s@, word@, i as int));
            return true;
        }
    }
    false
}

fn is_identifier(text: &[char]) -> (r: bool)
    ensures
        r == identifier(text@),
{
    if text.len() == 0 || !(text[0].is_alphabetic() || text[0] == '_') {
        return false;
    }
    for i in 0..text.len()
        invariant
            forall|j: int| 0 <= j < i ==> name_character(#[trigger] text@[j]),
    {
        let c = text[i];
        if !in_a_name(c) {
            assert(!name_character(text@[i as int]));
            return false;
        }
    }
    true
}

/// The characters that can stand in a name, from the start of a text.
pub open spec fn leading_name(s: Seq<char>) -> Seq<char>
    decreases s.len(),
{
    if s.len() > 0 && name_character(s[0]) {
        seq![s[0]] + leading_name(s.drop_first())
    } else {
        Seq::empty()
    }
}

/// The character before the last one, if there is one.
pub open spec fn previous(s: Seq<char>) -> Option<char> {
    if s.len() >= 2 {
        Some(s[s.len() - 2])
    } else {
        None
    }
}

/// What the last character of a name adds to its snake case spelling.
pub open spec fn snake_piece(s: Seq<char>) -> Seq<char> {
    let c = s.last();
    if capital(c) {
        if previous(s) is Some && previous(s) != Some('_') {
            seq!['_'] + small(c)
        } else {
            small(c)
        }
    } else if is_digit(c) && previous(s) is Some && letter(previous(s).unwrap()) {
        seq!['_', c]
    } else {
        seq![c]
    }
}

/// The snake case spelling of a name.
pub open spec fn snake(name: Seq<char>) -> Seq<char>
    decreases name.len(),
{
    if name.len() == 0 {
        name
    } else {
        snake(name.drop_last()) + snake_piece(name)
    }
}

/// The spelling the SDK generates for a Solidity function name.
///
/// `balanceOf` becomes `balance_of` and `verifyEd25519` becomes
/// `verify_ed_25519`, digits splitting from letters the same way the macro does.
#[must_use]
pub fn to_snake_case(name: &str) -> (r: String)
    ensures
        r@ == snake(name@),
{
    let all = chars(name);
    string(snake_spelling(all.as_slice()).as_slice())
}

fn snake_spelling(name: &[char]) -> (r: Vec<char>)
    ensures
        r@ == snake(name@),
{
    let mut out: Vec<char> = Vec::new();
    assert(name@.take(0) =~= Seq::<char>::empty());
    for i in 0..name.len()
        invariant
            out@ == snake(name@.take(i as int)),
    {
        let ghost done = out@;
        let ghost upto = name@.take(i + 1);
        assert(upto.drop_last() =~= name@.take(i as int));
        assert(i > 0 ==> previous(upto) == Some(name@[i - 1]));
        let c = name[i];
        if c.is_uppercase() {
            if i > 0 && name[i - 1] != '_' {
                out.push('_');
            }
            let small = to_lowercase(c);
            extend(&mut out, small.as_slice());
        } else if '0' <= c && c <= '9' && i > 0 && name[i - 1].is_alphabetic() {
            out.push('_');
            out.push(c);
        } else {
            out.push(c);
        }
        assert(out@ =~= done + snake_piece(upto));
    }
    assert(name@.take(name@.len() as int) =~= name@);
    out
}

/// A function on another contract, as `sol_interface!` declared it.
#[derive(Debug, PartialEq, Eq)]
pub struct ExternalMethod {
    /// The Solidity name and the Rust one the SDK generates, when they differ.
    pub names: Vec<String>,
    /// Whether it returns anything. A call whose result is dropped only matters
    /// when there was a result to drop, and plenty of tokens report failure by
    /// returning false rather than by reverting.
    pub returns: bool,
    /// Whether the callee may change state, and so may call back into us.
    /// A `view` or `pure` function is reached by a static call, which cannot
    /// reenter, so ordering rules have nothing to say about it.
    pub mutates: bool,
}

/// The mathematical model of an [`ExternalMethod`].
pub ghost struct MethodView {
    pub names: Seq<Seq<char>>,
    pub returns: bool,
    pub mutates: bool,
}

impl View for ExternalMethod {
    type V = MethodView;

    open spec fn view(&self) -> MethodView {
        MethodView { names: texts(self.names@), returns: self.returns, mutates: self.mutates }
    }
}

/// The spellings of a Solidity name: its own, and the one the SDK generates
/// where that is another.
pub open spec fn spellings(name: Seq<char>) -> Seq<Seq<char>> {
    if snake(name) == name {
        seq![name]
    } else {
        seq![name, snake(name)]
    }
}

/// The function that is declared behind the word `function`, if it has a name.
/// It returns something when what follows its name, up to the semicolon, says
/// `returns`, and it mutates unless that says `view` or `pure`.
pub open spec fn method_at(rest: Seq<char>) -> Option<MethodView> {
    let name = leading_name(trimmed_start(rest));
    let declaration = split(trimmed_start(rest).skip(name.len() as int), ';')[0];
    if name.len() == 0 {
        None
    } else {
        Some(
            MethodView {
                names: spellings(name),
                returns: has_word(declaration, "returns"@),
                mutates: !has_word(declaration, "view"@) && !has_word(declaration, "pure"@),
            },
        )
    }
}

/// The functions that a `sol_interface!` body declares, in order.
pub open spec fn methods_in(body: Seq<char>) -> Seq<MethodView>
    decreases body.len(),
{
    match first_at(body, "function "@, 0) {
        None => Seq::empty(),
        Some(i) => {
            let rest = body.skip(i + "function "@.len());
            proof {
                lemma_first_at(body, "function "@, 0);
                reveal_strlit("function ");
            }
            match method_at(rest) {
                Some(method) => seq![method] + methods_in(rest),
                None => methods_in(rest),
            }
        },
    }
}

/// Pulls function names out of a `sol_interface!` body, in both spellings.
///
/// Every one of these is a call that leaves this contract, which is the single
/// most useful fact a rule can have: it is what makes checks-effects-interactions
/// checkable without knowing any types.
#[must_use]
pub fn parse_interface_methods(body: &str) -> (r: Vec<ExternalMethod>)
    ensures
        views(r@) == methods_in(body@),
{
    let all = chars(body);
    let keyword = chars("function ");
    let mut methods: Vec<ExternalMethod> = Vec::new();
    let mut rest: &[char] = all.as_slice();
    proof {
        reveal_strlit("function ");
    }
    assert(views(methods@) + methods_in(rest@) =~= methods_in(body@));
    loop
        invariant
            keyword@ == "function "@,
            keyword@.len() == 9,
            views(methods@) + methods_in(rest@) == methods_in(body@),
        ensures
            views(methods@) == methods_in(body@),
        decreases rest@.len(),
    {
        let ghost here = rest@;
        let ghost done = views(methods@);
        proof {
            lemma_first_at(here, keyword@, 0);
        }
        match find(rest, keyword.as_slice(), 0) {
            None => {
                assert(done + Seq::<MethodView>::empty() =~= done);
                break ;
            },
            Some(at) => {
                assert(here.subrange(at + 9, here.len() as int) =~= here.skip(at + 9));
                let n = rest.len();
                rest = slice_subrange(rest, at + 9, n);
                match read_method(rest) {
                    Some(method) => {
                        let ghost told = method@;
                        methods.push(method);
                        assert(views(methods@) =~= done.push(told));
                        assert(done + (seq![told] + methods_in(rest@)) =~= views(methods@)
                            + methods_in(rest@));
                    },
                    None => {},
                }
            },
        }
    }
    methods
}

fn read_method(rest: &[char]) -> (r: Option<ExternalMethod>)
    ensures
        match r {
            Some(method) => method_at(rest@) == Some(method@),
            None => method_at(rest@) is None,
        },
{
    let start = trim_start(rest);
    let name = read_name(start);
    if name.len() == 0 {
        return None;
    }
    let behind = slice_subrange(start, name.len(), start.len());
    assert(behind@ =~= start@.skip(name@.len() as int));
    let parts = split_at(behind, ';');
    proof {
        lemma_split_len(behind@, ';');
        reveal_strlit("returns");
        reveal_strlit("view");
        reveal_strlit("pure");
    }
    assert(parts@.len() == split(behind@, ';').len());
    let declaration = parts[0].as_slice();
    assert(declaration@ == deep(parts@)[0]);
    let answers = says(declaration, "returns");
    let mutates = !says(declaration, "view") && !says(declaration, "pure");
    let written = string(name.as_slice());
    let generated = string(snake_spelling(name.as_slice()).as_slice());
    let mut names: Vec<String> = Vec::new();
    if same(generated.as_str(), written.as_str()) {
        names.push(written);
    } else {
        names.push(written);
        names.push(generated);
    }
    assert(texts(names@) =~= spellings(name@));
    Some(ExternalMethod { names, returns: answers, mutates })
}

fn read_name(s: &[char]) -> (r: Vec<char>)
    ensures
        r@ == leading_name(s@),
        r@.len() <= s@.len(),
{
    let mut name: Vec<char> = Vec::new();
    let mut at: usize = 0;
    assert(s@.skip(0) =~= s@);
    assert(name@ + leading_name(s@) =~= leading_name(s@));
    while at < s.len() && in_a_name(s[at])
        invariant
            at <= s@.len(),
            name@.len() == at,
            name@ + leading_name(s@.skip(at as int)) == leading_name(s@),
        decreases s@.len() - at,
    {
        let ghost done = name@;
        assert(s@.skip(at as int).drop_first() =~= s@.skip(at + 1));
        name.push(s[at]);
        at = at + 1;
        assert(done + (seq![s@[at - 1]] + leading_name(s@.skip(at as int))) =~= name@
            + leading_name(s@.skip(at as int)));
    }
    assert(name@ + Seq::<char>::empty() =~= name@);
    name
}

impl Clone for ExternalMethod {
    fn clone(&self) -> (r: ExternalMethod)
        ensures
            r@ == self@,
    {
        let mut names: Vec<String> = Vec::new();
        for i in 0..self.names.len()
            invariant
                names@.len() == i,
                forall|j: int| 0 <= j < i ==> (#[trigger] names@[j])@ == self.names@[j]@,
        {
            names.push(self.names[i].clone());
        }
        assert(texts(names@) =~= texts(self.names@));
        ExternalMethod { names, returns: self.returns, mutates: self.mutates }
    }
}

/// A function of an interface goes by its Solidity name and by the name that
/// the SDK generates for it.
pub proof fn law_both_spellings_are_names(rest: Seq<char>)
    ensures
        method_at(rest) matches Some(method) ==> {
            &&& method.names.contains(leading_name(trimmed_start(rest)))
            &&& method.names.contains(snake(leading_name(trimmed_start(rest))))
        },
{
    let name = leading_name(trimmed_start(rest));
    assert(spellings(name)[0] == name);
    if snake(name) != name {
        assert(spellings(name)[1] == snake(name));
    }
}

/// A name without upper case letters, and without a digit behind a letter, is
/// its own snake case spelling.
pub proof fn law_plain_name_is_kept(name: Seq<char>)
    requires
        forall|i: int| 0 <= i < name.len() ==> !capital(#[trigger] name[i]),
        forall|i: int|
            0 < i < name.len() ==> !(is_digit(#[trigger] name[i]) && letter(name[i - 1])),
    ensures
        snake(name) == name,
    decreases name.len(),
{
    if name.len() > 0 {
        law_plain_name_is_kept(name.drop_last());
        assert(name =~= name.drop_last() + seq![name.last()]);
    }
}

/// True when a bracket group closes with the last character of a text.
pub open spec fn closes(s: Seq<char>, depth: int) -> bool
    decreases s.len(),
{
    if s.len() == 0 {
        false
    } else if s[0] == '[' {
        closes(s.drop_first(), depth + 1)
    } else if s[0] == ']' {
        if depth <= 1 {
            s.len() == 1
        } else {
            closes(s.drop_first(), depth - 1)
        }
    } else {
        closes(s.drop_first(), depth)
    }
}

/// True for a whole attribute: a hash, perhaps white space, and a bracket group.
pub open spec fn attribute(s: Seq<char>) -> bool {
    opens_attribute(s) && closes(trimmed_start(s.drop_first()), 0)
}

proof fn lemma_group_ends(s: Seq<char>, depth: int, after: Seq<char>)
    requires
        closes(s, depth),
    ensures
        after_group(s + after, depth) == after,
    decreases s.len(),
{
    assert((s + after).drop_first() =~= s.drop_first() + after);
    if s[0] == '[' {
        lemma_group_ends(s.drop_first(), depth + 1, after);
    } else if s[0] == ']' {
        if depth <= 1 {
            assert((s + after).drop_first() =~= after);
        } else {
            lemma_group_ends(s.drop_first(), depth - 1, after);
        }
    } else {
        lemma_group_ends(s.drop_first(), depth, after);
    }
}

proof fn lemma_trimmed_start_split(s: Seq<char>, after: Seq<char>)
    requires
        trimmed_start(s).len() > 0,
    ensures
        trimmed_start(s + after) == trimmed_start(s) + after,
    decreases s.len(),
{
    if s.len() > 0 && is_space(s[0]) {
        assert((s + after).drop_first() =~= s.drop_first() + after);
        lemma_trimmed_start_split(s.drop_first(), after);
    }
}

/// What stands before the first hash is left as it is.
proof fn lemma_stripped_prefix(before: Seq<char>, rest: Seq<char>)
    requires
        !before.contains('#'),
    ensures
        stripped(before + rest) == before + stripped(rest),
    decreases before.len(),
{
    if before.len() == 0 {
        assert(before + rest =~= rest);
        assert(before + stripped(rest) =~= stripped(rest));
    } else {
        let tail = before.drop_first();
        assert((before + rest).drop_first() =~= tail + rest);
        assert(before.contains(before[0]));
        assert forall|c: char| tail.contains(c) implies before.contains(c) by {
            let k = choose|k: int| 0 <= k < tail.len() && tail[k] == c;
            assert(before[k + 1] == c);
        }
        lemma_stripped_prefix(tail, rest);
        assert(before + stripped(rest) =~= seq![before[0]] + (tail + stripped(rest)));
    }
}

/// The first attribute of a text is replaced by a space, whatever it holds.
pub proof fn law_attribute_becomes_a_space(before: Seq<char>, attr: Seq<char>, after: Seq<char>)
    requires
        !before.contains('#'),
        attribute(attr),
    ensures
        stripped(before + attr + after) == before + seq![' '] + stripped(after),
{
    let rest = attr + after;
    let inner = trimmed_start(attr.drop_first());
    assert(rest.drop_first() =~= attr.drop_first() + after);
    lemma_trimmed_start_split(attr.drop_first(), after);
    lemma_group_ends(inner, 0, after);
    assert(before + attr + after =~= before + rest);
    lemma_stripped_prefix(before, rest);
    assert(before + (seq![' '] + stripped(after)) =~= before + seq![' '] + stripped(after));
}

/// A documented field is still a field: an attribute in a `sol_storage!` body
/// changes nothing that a space in its place would not.
pub proof fn law_attributes_declare_nothing(before: Seq<char>, attr: Seq<char>, after: Seq<char>)
    requires
        !before.contains('#'),
        attribute(attr),
    ensures
        storage_in(before + attr + after) == storage_in(before + seq![' '] + after),
{
    law_attribute_becomes_a_space(before, attr, after);
    let spaced_out = before + seq![' '];
    assert(!spaced_out.contains('#')) by {
        if spaced_out.contains('#') {
            let k = choose|k: int| 0 <= k < spaced_out.len() && spaced_out[k] == '#';
            if k < before.len() {
                assert(before[k] == '#');
            }
        }
    }
    lemma_stripped_prefix(spaced_out, after);
}

/// Each semicolon stands alone: what two texts declare one behind the other is
/// what the first declares and then what the second declares.
pub proof fn law_each_declaration_stands_alone(a: Seq<char>, b: Seq<char>)
    requires
        !a.contains('#'),
        !b.contains('#'),
    ensures
        storage_in(a + seq![';'] + b) == storage_in(a) + storage_in(b),
{
    let all = a + seq![';'] + b;
    assert(!all.contains('#')) by {
        if all.contains('#') {
            let k = choose|k: int| 0 <= k < all.len() && all[k] == '#';
            if k < a.len() {
                assert(a[k] == '#');
            } else if k > a.len() {
                assert(b[k - a.len() - 1] == '#');
            }
        }
    }
    lemma_nothing_stripped(all);
    lemma_nothing_stripped(a);
    lemma_nothing_stripped(b);
    lemma_split_apart(a, b, ';');
    lemma_picked_apart(split(a, ';'), split(b, ';'), |chunk: Seq<char>| field_in(chunk));
}

proof fn lemma_nothing_stripped(s: Seq<char>)
    requires
        !s.contains('#'),
    ensures
        stripped(s) == s,
{
    lemma_stripped_prefix(s, Seq::empty());
    assert(s + Seq::<char>::empty() =~= s);
}

/// A struct header is no part of the declaration behind its brace.
pub proof fn law_header_is_no_declaration(header: Seq<char>, chunk: Seq<char>)
    ensures
        field_in(header + seq!['{'] + chunk) == field_in(chunk),
{
    lemma_split_apart(header, chunk, '{');
    lemma_split_len(chunk, '{');
}

/// True for a plain word: no white space in it, and none of the characters that
/// set declarations apart.
pub open spec fn plain_word(s: Seq<char>) -> bool {
    &&& s.len() > 0
    &&& unspaced(s)
    &&& !s.contains(';') && !s.contains('{') && !s.contains('}') && !s.contains('#')
}

proof fn lemma_last_space(ty: Seq<char>, name: Seq<char>)
    requires
        unspaced(name),
    ensures
        last_space(ty + seq![' '] + name) == Some(ty.len() as int),
    decreases name.len(),
{
    let all = ty + seq![' '] + name;
    if name.len() > 0 {
        let rest = name.drop_last();
        assert forall|i: int| 0 <= i < rest.len() implies !is_space(#[trigger] rest[i]) by {
            assert(rest[i] == name[i]);
        }
        lemma_last_space(ty, rest);
        assert(all.drop_last() =~= ty + seq![' '] + rest);
        assert(all.last() == name[name.len() - 1]);
    } else {
        assert(all.last() == ' ');
    }
}

proof fn lemma_plain_type(ty: Seq<char>)
    requires
        ty.len() > 0,
        unspaced(ty),
    ensures
        normalised(ty) == ty,
{
    assert(!ty.contains(' ')) by {
        if ty.contains(' ') {
            let k = choose|k: int| 0 <= k < ty.len() && ty[k] == ' ';
            assert(is_space(ty[k]));
        }
    }
    reveal_strlit(" (");
    reveal_strlit("( ");
    reveal_strlit(" )");
    reveal_strlit(" [");
    reveal_strlit("[ ");
    reveal_strlit(" ]");
    assert(" ("@[0] == ' ' && "( "@[1] == ' ' && " )"@[0] == ' ');
    assert(" ["@[0] == ' ' && "[ "@[1] == ' ' && " ]"@[0] == ' ');
    lemma_nothing_replaced(ty, " ("@, "("@, ' ');
    lemma_nothing_replaced(ty, "( "@, "("@, ' ');
    lemma_nothing_replaced(ty, " )"@, ")"@, ' ');
    lemma_nothing_replaced(ty, " ["@, "["@, ' ');
    lemma_nothing_replaced(ty, "[ "@, "["@, ' ');
    lemma_nothing_replaced(ty, " ]"@, "]"@, ' ');
    lemma_one_word(ty);
}

/// A field is read as it is declared: a plain type and a name, with a space
/// between them, declare a field of that type and that name.
pub proof fn law_plain_declaration_is_read_back(ty: Seq<char>, name: Seq<char>)
    requires
        plain_word(ty),
        plain_word(name),
        identifier(name),
        !has_word(ty + seq![' '] + name, "struct"@),
        !holds(ty + seq![' '] + name, "=>"@),
    ensures
        storage_in(ty + seq![' '] + name) == seq![FieldView { name, sol_type: ty }],
{
    let decl = ty + seq![' '] + name;
    assert forall|c: char| #[trigger] decl.contains(c) implies c == ' ' || ty.contains(c)
        || name.contains(c) by {
        let k = choose|k: int| 0 <= k < decl.len() && decl[k] == c;
        if k < ty.len() {
            assert(ty[k] == c);
        } else if k > ty.len() {
            assert(name[k - ty.len() - 1] == c);
        }
    }
    assert(decl[0] == ty[0]);
    assert(decl.last() == name[name.len() - 1]);
    lemma_nothing_stripped(decl);
    lemma_split_whole(decl, ';');
    lemma_split_whole(decl, '{');
    reveal_strlit("}");
    reveal_strlit("#");
    assert("}"@[0] == '}');
    lemma_nothing_replaced(decl, "}"@, " "@, '}');
    lemma_not_trimmed(decl);
    assert(declaration_in(decl) == decl);
    assert(!begins(decl, "#"@)) by {
        if begins(decl, "#"@) {
            assert(decl.subrange(0, 1)[0] == '#');
            assert(ty.contains(ty[0]));
        }
    }
    lemma_last_space(ty, name);
    assert(decl.take(ty.len() as int) =~= ty);
    assert(decl.skip(ty.len() as int + 1) =~= name);
    assert(!is_space(ty[0]) && !is_space(ty[ty.len() - 1]));
    assert(!is_space(name[0]) && !is_space(name[name.len() - 1]));
    lemma_not_trimmed(ty);
    lemma_not_trimmed(name);
    lemma_plain_type(ty);
    Seq::lemma_filter_map_singleton(decl, |chunk: Seq<char>| field_in(chunk));
    assert(field_in(decl) == Some(FieldView { name, sol_type: ty }));
}

proof fn lemma_leading_name(name: Seq<char>, rest: Seq<char>)
    requires
        forall|i: int| 0 <= i < name.len() ==> name_character(#[trigger] name[i]),
        rest.len() > 0 ==> !name_character(rest[0]),
    ensures
        leading_name(name + rest) == name,
    decreases name.len(),
{
    let all = name + rest;
    if name.len() == 0 {
        assert(all =~= rest);
        assert(leading_name(all) =~= name);
    } else {
        assert(all[0] == name[0]);
        assert(all.drop_first() =~= name.drop_first() + rest);
        assert forall|i: int| 0 <= i < name.drop_first().len() implies name_character(
            #[trigger] name.drop_first()[i],
        ) by {
            assert(name.drop_first()[i] == name[i + 1]);
        }
        lemma_leading_name(name.drop_first(), rest);
        assert(seq![name[0]] + name.drop_first() =~= name);
    }
}

/// A function is read as it is declared: behind the word `function` its name is
/// read in both spellings, what follows the name says whether it returns
/// something and whether it mutates, and reading goes on behind it.
pub proof fn law_declared_function_is_read_back(name: Seq<char>, rest: Seq<char>)
    requires
        name.len() > 0,
        !is_space(name[0]),
        forall|i: int| 0 <= i < name.len() ==> name_character(#[trigger] name[i]),
        rest.len() > 0 ==> !name_character(rest[0]),
    ensures
        method_at(name + rest) matches Some(method) && method.names == spellings(name)
            && method.returns == has_word(split(rest, ';')[0], "returns"@) && method.mutates == (
        !has_word(split(rest, ';')[0], "view"@) && !has_word(split(rest, ';')[0], "pure"@))
            && methods_in("function "@ + (name + rest)) == seq![method] + methods_in(name + rest),
{
    let keyword = "function "@;
    let all = keyword + (name + rest);
    lemma_leading_name(name, rest);
    assert((name + rest)[0] == name[0]);
    assert(trimmed_start(name + rest) == name + rest);
    assert((name + rest).skip(name.len() as int) =~= rest);
    assert(all.subrange(0, keyword.len() as int) =~= keyword);
    assert(occurs_at(all, keyword, 0));
    assert(all.skip(keyword.len() as int) =~= name + rest);
}

} // verus!
