//! The rules, and the small amount of shared reading they all depend on.
//!
//! Every rule here is a syntactic pattern. None of them knows a type that the
//! contract did not declare, so each is written to stay silent when it cannot
//! tell rather than to guess. A checker that cries wolf gets uninstalled, and
//! then it catches nothing at all.

use crate::declarations::{FieldView, StorageField};
use crate::finding::{Finding, FindingView, Severity};
use crate::lists::lemma_gathered_from_one;
use crate::model::{Contract, ContractView};
use crate::order::views;
use crate::path::{FilePath, PathView};
use crate::syntax::{
    nodes, text_of, token_views, trees, Form, Kind, KindView, Node, Place, Sort, Token, TokenView,
    Tree,
};
use crate::text::{chars, contains, holds, occurs_at, same, stands_at, texts};
use vstd::prelude::*;

use self::access::{open_function, MissingAccessControl, UnboundedStorageLoop};
use self::calls::{lemma_late_writes_signed, StateWriteAfterCall, UncheckedCallResult};
use self::numbers::LossyIntegerConversion;
use self::traps::UnwrapInEntrypoint;

pub mod access;
pub mod calls;
pub mod numbers;
pub mod traps;

verus! {

/// What a rule is given to work with.
pub struct Ctx<'a> {
    pub file: &'a FilePath,
    pub contract: &'a Contract,
}

/// The mathematical model of a [`Ctx`].
pub ghost struct CtxView {
    pub file: PathView,
    pub contract: ContractView,
}

impl<'a> View for Ctx<'a> {
    type V = CtxView;

    open spec fn view(&self) -> CtxView {
        CtxView { file: self.file@, contract: self.contract@ }
    }
}

/// A line and a column, both counted from one.
pub open spec fn shown_at(at: Place) -> (usize, usize) {
    (
        at.line,
        if at.column < usize::MAX {
            (at.column + 1) as usize
        } else {
            at.column
        },
    )
}

/// One based line and column, so a finding matches what an editor shows.
#[must_use]
pub fn position(at: Place) -> (r: (usize, usize))
    ensures
        r == shown_at(at),
{
    (at.line, if at.column < usize::MAX { at.column + 1 } else { at.column })
}

/// True when an item itself carries an attribute of a name, on whatever path.
pub open spec fn attributed(item: Tree, name: Seq<char>) -> bool {
    exists|i: int|
        0 <= i < item.attributes().len() && (#[trigger] item.attributes()[i]).tail() == Some(name)
}

/// True for a word or a literal of a `cfg` predicate that speaks of tests:
/// `test`, `doctest`, the feature `test-utils`. A test network is no test.
pub open spec fn speaks_of_tests(text: Seq<char>) -> bool {
    exists|i: int| tests_at(text, i)
}

/// True when a text speaks of tests at a place.
pub open spec fn tests_at(text: Seq<char>, i: int) -> bool {
    occurs_at(text, "test"@, i) && !occurs_at(text, "testnet"@, i)
}

/// True when one of the first `n` tokens of a `cfg` predicate asks for tests: a
/// word or a literal that speaks of them, or a group in which one does. Each
/// `not` before a group turns round what the group asks for, and `turned` says
/// that an odd number of them stands before these tokens.
pub open spec fn some_ask_for_tests(tokens: Seq<TokenView>, turned: bool, n: nat) -> bool
    decreases tokens, n,
{
    &&& 0 < n <= tokens.len()
    &&& {
        ||| some_ask_for_tests(tokens, turned, (n - 1) as nat)
        ||| match tokens[n - 1] {
            TokenView::Word(word) => !turned && speaks_of_tests(word),
            TokenView::Literal(text) => !turned && speaks_of_tests(text),
            TokenView::Group(inner) => some_ask_for_tests(
                inner,
                turned != negated(tokens, n - 1),
                inner.len(),
            ),
            TokenView::Mark => false,
        }
    }
}

/// True for a token with the word `not` before it.
pub open spec fn negated(tokens: Seq<TokenView>, i: int) -> bool {
    i > 0 && tokens[i - 1] == TokenView::Word("not"@)
}

/// True when a `cfg` predicate asks for tests.
pub open spec fn asks_for_tests(tokens: Seq<TokenView>) -> bool {
    some_ask_for_tests(tokens, false, tokens.len())
}

/// True for an attribute that keeps an item out of the contract: `test`, or a
/// `cfg` that asks for tests.
pub open spec fn marks_a_test(attribute: Tree) -> bool {
    ||| attribute.tail() == Some("test"@)
    ||| attribute.tail() == Some("cfg"@) && (attribute.kind matches KindView::Attribute {
        arguments: Some(tokens),
    } && asks_for_tests(tokens))
}

/// True when an item is there for tests only, by what it carries itself.
pub open spec fn test_only(item: Tree) -> bool {
    exists|i: int|
        0 <= i < item.attributes().len() && marks_a_test(#[trigger] item.attributes()[i])
}

/// Whether an item itself carries an attribute of a name, on whatever path.
#[must_use]
pub fn has_attribute(item: &Node, name: &str) -> (r: bool)
    ensures
        r == attributed(item@, name@),
{
    let ghost all = item@.attributes();
    let attributes = item.attributes();
    for i in 0..attributes.len()
        invariant
            all == item@.attributes(),
            trees(attributes@) == all,
            forall|j: int| 0 <= j < i ==> (#[trigger] all[j]).tail() != Some(name@),
    {
        assert(all[i as int] == attributes@[i as int]@);
        if let Some(tail) = attributes[i].tail() {
            if same(tail, name) {
                return true;
            }
        }
    }
    false
}

/// Whether an item is there for tests only, by what it carries itself.
#[must_use]
pub fn is_test_only(item: &Node) -> (r: bool)
    ensures
        r == test_only(item@),
{
    let ghost all = item@.attributes();
    let attributes = item.attributes();
    for i in 0..attributes.len()
        invariant
            all == item@.attributes(),
            trees(attributes@) == all,
            forall|j: int| 0 <= j < i ==> !marks_a_test(#[trigger] all[j]),
    {
        assert(all[i as int] == attributes@[i as int]@);
        if is_a_test_mark(attributes[i]) {
            return true;
        }
    }
    false
}

fn is_a_test_mark(attribute: &Node) -> (r: bool)
    ensures
        r == marks_a_test(attribute@),
{
    match attribute.tail() {
        Some(tail) => {
            if same(tail, "test") {
                return true;
            }
            if !same(tail, "cfg") {
                return false;
            }
            match &attribute.kind {
                Kind::Attribute { arguments: Some(tokens) } => wants_tests(tokens, false),
                _ => false,
            }
        },
        None => false,
    }
}

/// Whether some tokens of a `cfg` predicate ask for tests.
fn wants_tests(tokens: &Vec<Token>, turned: bool) -> (r: bool)
    ensures
        r == some_ask_for_tests(token_views(tokens@), turned, tokens@.len()),
    decreases tokens,
{
    let ghost all = token_views(tokens@);
    let mut behind_not = false;
    for i in 0..tokens.len()
        invariant
            all == token_views(tokens@),
            behind_not == negated(all, i as int),
            !some_ask_for_tests(all, turned, i as nat),
        decreases tokens.len() - i,
    {
        let token = &tokens[i];
        assert(all[i as int] == token@);
        let found = match token {
            Token::Word(word) => !turned && is_about_tests(word.as_str()),
            Token::Literal(text) => !turned && is_about_tests(text.as_str()),
            Token::Group(inner) => {
                assert(token@->Group_0 =~= token_views(inner@));
                wants_tests(inner, turned != behind_not)
            },
            Token::Mark => false,
        };
        if found {
            proof {
                lemma_some_ask_stays(all, turned, (i + 1) as nat, all.len());
            }
            return true;
        }
        behind_not = match token {
            Token::Word(word) => same(word.as_str(), "not"),
            _ => false,
        };
    }
    false
}

fn is_about_tests(text: &str) -> (r: bool)
    ensures
        r == speaks_of_tests(text@),
{
    let letters = chars(text);
    let test = chars("test");
    let network = chars("testnet");
    proof {
        reveal_strlit("test");
    }
    for i in 0..letters.len()
        invariant
            letters@ == text@,
            test@ == "test"@,
            test@.len() == 4,
            network@ == "testnet"@,
            forall|j: int| 0 <= j < i ==> !tests_at(text@, j),
    {
        if stands_at(letters.as_slice(), test.as_slice(), i) && !stands_at(
            letters.as_slice(),
            network.as_slice(),
            i,
        ) {
            assert(tests_at(text@, i as int));
            return true;
        }
    }
    false
}

proof fn lemma_some_ask_stays(tokens: Seq<TokenView>, turned: bool, n: nat, m: nat)
    requires
        some_ask_for_tests(tokens, turned, n),
        n <= m <= tokens.len(),
    ensures
        some_ask_for_tests(tokens, turned, m),
    decreases m - n,
{
    if n < m {
        lemma_some_ask_stays(tokens, turned, n, (m - 1) as nat);
    }
}

/// True for code that is never looked at. Test code traps and panics on
/// purpose, and reporting it is the fastest way to teach somebody to ignore
/// the whole tool.
pub open spec fn hidden(t: Tree) -> bool {
    ||| t.sort() == Sort::Module && (test_only(t) || t.name() == Some("tests"@))
    ||| t.sort() == Sort::Implementation && test_only(t)
}

/// The impl blocks in a node, in source order, those in test code aside.
pub open spec fn impl_blocks(t: Tree, only_public: bool) -> Seq<Tree>
    decreases t,
{
    if hidden(t) {
        Seq::empty()
    } else {
        own_block(t, only_public) + impl_blocks_of_all(t.children, only_public)
    }
}

pub open spec fn impl_blocks_of_all(ts: Seq<Tree>, only_public: bool) -> Seq<Tree>
    decreases ts,
{
    if ts.len() == 0 {
        Seq::empty()
    } else {
        impl_blocks_of_all(ts.drop_last(), only_public) + impl_blocks(ts.last(), only_public)
    }
}

/// The node itself, where it is an impl block that is asked for.
pub open spec fn own_block(t: Tree, only_public: bool) -> Seq<Tree> {
    if t.sort() == Sort::Implementation && (!only_public || attributed(t, "public"@)) {
        seq![t]
    } else {
        Seq::empty()
    }
}

fn is_hidden(node: &Node) -> (r: bool)
    ensures
        r == hidden(node@),
{
    let sort = node.sort();
    if sort == Sort::Implementation {
        return is_test_only(node);
    }
    if sort == Sort::Module {
        if is_test_only(node) {
            return true;
        }
        if let Some(name) = node.name() {
            return same(name, "tests");
        }
    }
    false
}

fn collect_impls<'a>(node: &'a Node, only_public: bool, found: &mut Vec<&'a Node>)
    ensures
        trees(final(found)@) == trees(old(found)@) + impl_blocks(node@, only_public),
    decreases node,
{
    let ghost before = trees(found@);
    let ghost all = node@.children;
    if is_hidden(node) {
        assert(trees(found@) =~= before + Seq::empty());
        return ;
    }
    if node.sort() == Sort::Implementation && (!only_public || has_attribute(node, "public")) {
        found.push(node);
    }
    let ghost own = own_block(node@, only_public);
    assert(trees(found@) =~= before + own + impl_blocks_of_all(all.take(0), only_public));
    for i in 0..node.children.len()
        invariant
            all == node@.children,
            all.len() == node.children@.len(),
            trees(found@) == before + own + impl_blocks_of_all(all.take(i as int), only_public),
        decreases node.children.len() - i,
    {
        assert(all[i as int] == node.children@[i as int]@);
        assert(all.take(i + 1).drop_last() =~= all.take(i as int));
        let ghost so_far = impl_blocks_of_all(all.take(i as int), only_public);
        collect_impls(&node.children[i], only_public, found);
        assert(trees(found@) =~= before + own + (so_far + impl_blocks(all[i as int], only_public)));
    }
    assert(all.take(all.len() as int) =~= all);
    assert(trees(found@) =~= before + impl_blocks(node@, only_public));
}

/// The `#[public]` impl blocks, which is where callers get in.
///
/// Use this only for rules that are about the public surface itself, such as
/// who is allowed to call something. For anything about what the code does,
/// use [`contract_impls`]: real contracts keep the part that moves money in a
/// private helper, and a rule that only reads the public block will sit there
/// looking like it ran.
#[must_use]
pub fn public_impls(file: &Node) -> (r: Vec<&Node>)
    ensures
        trees(r@) == impl_blocks(file@, true),
{
    let mut found: Vec<&Node> = Vec::new();
    collect_impls(file, true, &mut found);
    assert(trees(found@) =~= impl_blocks(file@, true));
    found
}

/// Every impl block in the contract, public or not, minus test code.
///
/// A panic in a private helper still traps, and a write after a call is still
/// out of order no matter which function it is written in.
#[must_use]
pub fn contract_impls(file: &Node) -> (r: Vec<&Node>)
    ensures
        trees(r@) == impl_blocks(file@, false),
{
    let mut found: Vec<&Node> = Vec::new();
    collect_impls(file, false, &mut found);
    assert(trees(found@) =~= impl_blocks(file@, false));
    found
}

/// The functions that an impl block holds, those for tests aside.
pub open spec fn functions_in(item: Tree) -> Seq<Tree> {
    item.children.filter(|child: Tree| child.sort() == Sort::Method && !test_only(child))
}

/// The functions a `#[public]` impl exposes.
#[must_use]
pub fn entrypoints(item: &Node) -> (r: Vec<&Node>)
    ensures
        trees(r@) == functions_in(item@),
{
    let ghost all = item@.children;
    let ghost keep = |child: Tree| child.sort() == Sort::Method && !test_only(child);
    let mut r: Vec<&Node> = Vec::new();
    for i in 0..item.children.len()
        invariant
            all == item@.children,
            all.len() == item.children@.len(),
            keep == (|child: Tree| child.sort() == Sort::Method && !test_only(child)),
            trees(r@) == all.take(i as int).filter(keep),
    {
        let child = &item.children[i];
        let ghost before = r@;
        proof {
            assert(all[i as int] == child@);
            assert(all.take(i + 1).drop_last() =~= all.take(i as int));
            assert(all.take(i + 1).last() == child@);
            reveal(Seq::filter);
        }
        if child.sort() == Sort::Method && !is_test_only(child) {
            r.push(child);
            assert(trees(r@) =~= trees(before).push(child@));
        }
    }
    assert(all.take(item.children@.len() as int) =~= all);
    r
}

/// The functions of a file that a rule looks at, in source order.
pub open spec fn functions_of(file: Tree, only_public: bool) -> Seq<Tree> {
    impl_blocks(file, only_public).flat_map(|item: Tree| functions_in(item))
}

/// The functions in some impl blocks, one block after the other.
pub fn functions<'a>(items: &Vec<&'a Node>) -> (r: Vec<&'a Node>)
    ensures
        trees(r@) == trees(items@).flat_map(|item: Tree| functions_in(item)),
{
    let ghost all = trees(items@);
    let ghost inside = |item: Tree| functions_in(item);
    let mut r: Vec<&'a Node> = Vec::new();
    assert(trees(r@) =~= all.take(0).flat_map(inside));
    for i in 0..items.len()
        invariant
            all == trees(items@),
            inside == (|item: Tree| functions_in(item)),
            trees(r@) == all.take(i as int).flat_map(inside),
    {
        let ghost before = r@;
        proof {
            all.lemma_flat_map_take_append(inside, i as int);
        }
        assert(all[i as int] == items@[i as int]@);
        let mut more = entrypoints(items[i]);
        let ghost added = more@;
        r.append(&mut more);
        assert(trees(r@) =~= trees(before) + trees(added));
    }
    assert(all.take(items@.len() as int) =~= all);
    r
}

/// The parameters of a function, `self` included.
pub open spec fn inputs(function: Tree) -> Seq<Tree> {
    function.children.filter(
        |child: Tree| child.sort() == Sort::Receiver || child.sort() == Sort::Parameter,
    )
}

/// True when a function takes `&mut self`.
pub open spec fn changes_self(function: Tree) -> bool {
    inputs(function).len() > 0 && inputs(function)[0].kind == (KindView::Receiver {
        reference: true,
        mutable: true,
    })
}

/// True when a function takes `&mut self`, and so can change storage.
#[must_use]
pub fn mutates_self(function: &Node) -> (r: bool)
    ensures
        r == changes_self(function@),
{
    let ghost all = function@.children;
    let ghost keep = |child: Tree|
        child.sort() == Sort::Receiver || child.sort() == Sort::Parameter;
    assert(all.skip(0) =~= all);
    for i in 0..function.children.len()
        invariant
            all == function@.children,
            all.len() == function.children@.len(),
            keep == (|child: Tree|
                child.sort() == Sort::Receiver || child.sort() == Sort::Parameter),
            all.filter(keep) == all.skip(i as int).filter(keep),
    {
        let child = &function.children[i];
        let ghost rest = all.skip(i + 1);
        proof {
            assert(all[i as int] == child@);
            assert(all.skip(i as int) =~= seq![child@] + rest);
            Seq::filter_distributes_over_add(seq![child@], rest, keep);
            reveal_with_fuel(Seq::filter, 2);
            assert(seq![child@].drop_last() =~= Seq::<Tree>::empty());
            if keep(child@) {
                assert(all.filter(keep) =~= seq![child@] + rest.filter(keep));
                assert(inputs(function@)[0] == child@);
            } else {
                assert(all.filter(keep) =~= rest.filter(keep));
            }
        }
        match &child.kind {
            Kind::Receiver { reference, mutable } => {
                return *reference && *mutable;
            },
            Kind::Parameter { .. } => {
                return false;
            },
            _ => {},
        }
    }
    proof {
        assert(all.skip(all.len() as int) =~= Seq::<Tree>::empty());
        reveal(Seq::filter);
    }
    false
}

/// An operand is a part of the expression it belongs to.
pub proof fn lemma_part(t: Tree, sort: Sort, i: int)
    requires
        0 <= i < t.those(sort).len(),
    ensures
        decreases_to!(t => t.those(sort)[i]),
{
    let keep = |child: Tree| child.sort() == sort;
    let part = t.those(sort)[i];
    assert(t.those(sort).contains(part));
    t.children.lemma_filter_contains_rev(keep, part);
    let k = choose|k: int| 0 <= k < t.children.len() && t.children[k] == part;
    assert(decreases_to!(t => t.children[k]));
}

/// True for the expression `self`.
pub open spec fn is_self(t: Tree) -> bool {
    &&& t.form() == Some(Form::Name)
    &&& t.first(Sort::Path) matches Some(path) && path.kind == (KindView::Path { rooted: false })
        && path.children.len() == 1 && path.children[0].ident() == Some("self"@)
}

/// The field that an expression names, where it is `self.<field>`.
pub open spec fn field_of_self(t: Tree) -> Option<Seq<char>> {
    if t.form() == Some(Form::Field) && t.operands().len() > 0 && is_self(t.operands()[0]) {
        t.name()
    } else {
        None
    }
}

/// The field that a chain of calls and indexing starts from, where it starts
/// from `self.<field>`.
pub open spec fn root_field(t: Tree) -> Option<Seq<char>>
    decreases t,
{
    if t.form() == Some(Form::Field) {
        field_of_self(t)
    } else if (t.form() == Some(Form::MethodCall) || t.form() == Some(Form::Index))
        && t.operands().len() > 0 {
        proof {
            lemma_part(t, Sort::Expression, 0);
        }
        root_field(t.operands()[0])
    } else {
        None
    }
}

/// The methods that change a storage field.
pub open spec fn writes_storage(method: Seq<char>) -> bool {
    ||| method == "set"@
    ||| method == "push"@
    ||| method == "insert"@
    ||| method == "erase"@
    ||| method == "clear"@
    ||| method == "set_word"@
    ||| method == "replace"@
    ||| method == "grow"@
    ||| method == "shrink"@
}

/// The storage field that an expression writes to: a writing method on a chain
/// that starts from a field the contract declares.
pub open spec fn written_field(t: Tree, contract: ContractView) -> Option<FieldView> {
    if t.form() != Some(Form::MethodCall) || t.operands().len() == 0 {
        None
    } else {
        match (t.name(), root_field(t.operands()[0])) {
            (Some(method), Some(field)) => if writes_storage(method) {
                contract.field(field)
            } else {
                None
            },
            _ => None,
        }
    }
}

fn is_the_contract(node: &Node) -> (r: bool)
    ensures
        r == is_self(node@),
{
    if node.form() != Some(Form::Name) {
        return false;
    }
    match node.first(Sort::Path) {
        Some(path) => {
            match &path.kind {
                Kind::Path { rooted } => {
                    if *rooted || path.children.len() != 1 {
                        return false;
                    }
                },
                _ => {
                    return false;
                },
            }
            assert(path@.children[0] == path.children@[0]@);
            match path.children[0].ident() {
                Some(name) => same(name, "self"),
                None => false,
            }
        },
        None => false,
    }
}

/// The field that an expression names, where it is `self.<field>`.
pub fn self_member(node: &Node) -> (r: Option<&str>)
    ensures
        text_of(r) == field_of_self(node@),
{
    if node.form() != Some(Form::Field) {
        return None;
    }
    let operands = node.operands();
    if operands.len() == 0 {
        return None;
    }
    assert(trees(operands@)[0] == operands@[0]@);
    if is_the_contract(operands[0]) {
        node.name()
    } else {
        None
    }
}

/// Walks back through a method chain to the `self.<field>` it started from.
fn self_field(node: &Node) -> (r: Option<&str>)
    ensures
        text_of(r) == root_field(node@),
    decreases node@,
{
    match node.form() {
        Some(Form::Field) => self_member(node),
        Some(Form::MethodCall) | Some(Form::Index) => {
            let operands = node.operands();
            if operands.len() == 0 {
                return None;
            }
            assert(trees(operands@)[0] == operands@[0]@);
            proof {
                lemma_part(node@, Sort::Expression, 0);
            }
            self_field(operands[0])
        },
        _ => None,
    }
}

/// The storage field an expression writes to, if it writes to one.
///
/// Covers the whole family the SDK offers: `set`, `setter(..).set(..)`, `push`,
/// `insert`, `erase`. The field name comes from the innermost `self.<field>`,
/// so a chain through a mapping still reports the mapping.
#[must_use]
pub fn storage_write<'a>(expr: &Node, contract: &'a Contract) -> (r: Option<&'a StorageField>)
    ensures
        match r {
            Some(field) => written_field(expr@, contract@) == Some(field@),
            None => written_field(expr@, contract@) is None,
        },
{
    if expr.form() != Some(Form::MethodCall) {
        return None;
    }
    let operands = expr.operands();
    if operands.len() == 0 {
        return None;
    }
    assert(trees(operands@)[0] == operands@[0]@);
    match expr.name() {
        Some(method) => {
            let writes = same(method, "set") || same(method, "push") || same(method, "insert")
                || same(method, "erase") || same(method, "clear") || same(method, "set_word")
                || same(method, "replace") || same(method, "grow") || same(method, "shrink");
            if !writes {
                return None;
            }
            match self_field(operands[0]) {
                Some(field) => contract.field(field),
                None => None,
            }
        },
        None => None,
    }
}

/// The fields of `self` that a node touches, in source order.
pub open spec fn touched(t: Tree) -> Seq<Seq<char>> {
    nodes(t).filter_map(|node: Tree| field_of_self(node))
}

/// Every `self.<field>` an expression reads or writes.
#[must_use]
pub fn touched_fields(expr: &Node) -> (r: Vec<String>)
    ensures
        texts(r@) == touched(expr@),
{
    let ghost all = nodes(expr@);
    let ghost pick = |node: Tree| field_of_self(node);
    let found = expr.flatten();
    let mut names: Vec<String> = Vec::new();
    assert(texts(names@) =~= all.take(0).filter_map(pick));
    for i in 0..found.len()
        invariant
            all == trees(found@),
            pick == (|node: Tree| field_of_self(node)),
            texts(names@) == all.take(i as int).filter_map(pick),
    {
        let ghost before = texts(names@);
        proof {
            all.lemma_filter_map_take_succ(pick, i as int);
        }
        assert(all[i as int] == found@[i as int]@);
        match self_member(found[i]) {
            Some(name) => {
                names.push(name.to_owned());
                assert(texts(names@) =~= before + seq![name@]);
            },
            None => {
                assert(texts(names@) =~= before + Seq::empty());
            },
        }
    }
    assert(all.take(found@.len() as int) =~= all);
    names
}

/// A call that leaves this contract.
pub struct ExternalCall {
    /// Where the call starts.
    pub at: Place,
    /// The method as written, for the message.
    pub name: String,
    /// Whether the callee hands anything back, when the interface said so.
    pub returns: Option<bool>,
    /// Whether this call can come back into us before it returns.
    ///
    /// A static call cannot: it may not write state and may not make a
    /// state changing call, so nothing it does can reenter. Ordering rules only
    /// have something to say about calls that can.
    pub reenters: bool,
}

/// The mathematical model of an [`ExternalCall`].
pub ghost struct CallView {
    pub at: Place,
    pub name: Seq<char>,
    pub returns: Option<bool>,
    pub reenters: bool,
}

impl View for ExternalCall {
    type V = CallView;

    open spec fn view(&self) -> CallView {
        CallView { at: self.at, name: self.name@, returns: self.returns, reenters: self.reenters }
    }
}

/// True for a path under one of the SDK's call types.
pub open spec fn names_a_call(t: Tree) -> bool {
    t.sort() == Sort::Path && (t.name() == Some("Call"@) || t.name() == Some("RawCall"@))
}

/// True for a path under one of the SDK's call types that ends in a constructor
/// of a mutating context.
pub open spec fn names_a_mutating_call(t: Tree) -> bool {
    names_a_call(t) && (t.last_name() matches Some(constructor) && holds(
        constructor,
        "mutating"@,
    ))
}

/// Whether the call context in an expression can reenter, if the expression
/// holds one. Any mutating context in it settles it.
pub open spec fn context_in(t: Tree) -> Option<bool> {
    if exists|i: int| 0 <= i < nodes(t).len() && names_a_call(#[trigger] nodes(t)[i]) {
        Some(
            exists|i: int|
                0 <= i < nodes(t).len() && names_a_mutating_call(#[trigger] nodes(t)[i]),
        )
    } else {
        None
    }
}

/// The first context among some arguments.
pub open spec fn first_context(arguments: Seq<Tree>) -> Option<bool>
    decreases arguments.len(),
{
    if arguments.len() == 0 {
        None
    } else if context_in(arguments[0]) is Some {
        context_in(arguments[0])
    } else {
        first_context(arguments.drop_first())
    }
}

/// Whether a function of the SDK that makes a raw call can reenter.
pub open spec fn raw_call(name: Seq<char>) -> Option<bool> {
    if name == "static_call"@ {
        Some(false)
    } else if name == "call"@ || name == "delegate_call"@ || name == "transfer_eth"@ || name
        == "raw_call"@ {
        Some(true)
    } else {
        None
    }
}

/// The last name of the path that an expression is.
pub open spec fn path_tail_of(t: Tree) -> Option<Seq<char>> {
    if t.form() == Some(Form::Name) {
        t.tail()
    } else {
        None
    }
}

/// The call out of the contract that an expression makes, if it makes one.
pub open spec fn leaves(t: Tree, contract: ContractView) -> Option<CallView> {
    if t.form() == Some(Form::MethodCall) {
        match t.name() {
            Some(name) => {
                let context = if t.operands().len() > 0 {
                    first_context(t.operands().drop_first())
                } else {
                    None
                };
                match (contract.method(name), context) {
                    (Some(method), Some(reenters)) => Some(
                        CallView {
                            at: t.place(),
                            name,
                            returns: Some(method.returns),
                            reenters,
                        },
                    ),
                    (Some(method), None) => Some(
                        CallView {
                            at: t.place(),
                            name,
                            returns: Some(method.returns),
                            reenters: method.mutates,
                        },
                    ),
                    (None, Some(reenters)) => Some(
                        CallView { at: t.place(), name, returns: None, reenters },
                    ),
                    (None, None) => None,
                }
            },
            None => None,
        }
    } else if t.form() == Some(Form::Call) && t.operands().len() > 0 {
        match path_tail_of(t.operands()[0]) {
            Some(name) => match raw_call(name) {
                Some(reenters) => Some(CallView { at: t.place(), name, returns: None, reenters }),
                None => None,
            },
            None => None,
        }
    } else {
        None
    }
}

/// Reads a `Call::new()` style context, saying whether it can reenter.
///
/// `Call::new()` is a static call and `Call::new_mutating(self)` is not, which
/// is the SDK spelling out at the call site whether the callee is allowed to
/// come back in.
fn call_context(expr: &Node) -> (r: Option<bool>)
    ensures
        r == context_in(expr@),
{
    let ghost all = nodes(expr@);
    let found = expr.flatten();
    let mut any: bool = false;
    let mut mutating: bool = false;
    for i in 0..found.len()
        invariant
            all == nodes(expr@),
            all == trees(found@),
            any == (exists|j: int| 0 <= j < i && names_a_call(#[trigger] all[j])),
            mutating == (exists|j: int| 0 <= j < i && names_a_mutating_call(#[trigger] all[j])),
    {
        assert(all[i as int] == found@[i as int]@);
        let node = found[i];
        if node.sort() == Sort::Path {
            if let Some(head) = node.name() {
                if same(head, "Call") || same(head, "RawCall") {
                    assert(names_a_call(all[i as int]));
                    any = true;
                    if let Some(constructor) = node.last_name() {
                        let letters = chars(constructor);
                        if contains(letters.as_slice(), "mutating") {
                            assert(names_a_mutating_call(all[i as int]));
                            mutating = true;
                        }
                    }
                }
            }
        }
    }
    if any {
        Some(mutating)
    } else {
        None
    }
}

fn argument_context(operands: &Vec<&Node>) -> (r: Option<bool>)
    requires
        operands@.len() > 0,
    ensures
        r == first_context(trees(operands@).drop_first()),
{
    let ghost all = trees(operands@).drop_first();
    assert(all.skip(0) =~= all);
    for i in 1..operands.len()
        invariant
            all == trees(operands@).drop_first(),
            first_context(all) == first_context(all.skip(i - 1)),
    {
        assert(all[i - 1] == operands@[i as int]@);
        assert(all.skip(i - 1).drop_first() =~= all.skip(i as int));
        if let Some(reenters) = call_context(operands[i]) {
            return Some(reenters);
        }
    }
    None
}

fn path_tail(expr: &Node) -> (r: Option<&str>)
    ensures
        text_of(r) == path_tail_of(expr@),
{
    if expr.form() == Some(Form::Name) {
        expr.tail()
    } else {
        None
    }
}

/// Recognises a call to another contract.
///
/// Two signals, either of which is conclusive in stylus-sdk code: the method is
/// one a `sol_interface!` declared, or the call carries a `Call` context, which
/// is how the SDK spells "this leaves the contract". Raw calls are named
/// outright.
#[must_use]
pub fn external_call(expr: &Node, contract: &Contract) -> (r: Option<ExternalCall>)
    ensures
        match r {
            Some(call) => leaves(expr@, contract@) == Some(call@),
            None => leaves(expr@, contract@) is None,
        },
{
    let operands = expr.operands();
    match expr.form() {
        Some(Form::MethodCall) => {
            let name = match expr.name() {
                Some(name) => name,
                None => {
                    return None;
                },
            };
            let context = if operands.len() > 0 { argument_context(&operands) } else { None };
            match (contract.external_method(name), context) {
                // How the call was spelled at the call site wins over what the
                // interface said, because that is what actually decides.
                (Some(method), Some(reenters)) => Some(
                    ExternalCall {
                        at: expr.place(),
                        name: name.to_owned(),
                        returns: Some(method.returns),
                        reenters,
                    },
                ),
                (Some(method), None) => Some(
                    ExternalCall {
                        at: expr.place(),
                        name: name.to_owned(),
                        returns: Some(method.returns),
                        reenters: method.mutates,
                    },
                ),
                (None, Some(reenters)) => Some(
                    ExternalCall { at: expr.place(), name: name.to_owned(), returns: None, reenters },
                ),
                (None, None) => None,
            }
        },
        Some(Form::Call) => {
            if operands.len() == 0 {
                return None;
            }
            assert(trees(operands@)[0] == operands@[0]@);
            let name = match path_tail(operands[0]) {
                Some(name) => name,
                None => {
                    return None;
                },
            };
            let reenters = if same(name, "static_call") {
                false
            } else if same(name, "call") || same(name, "delegate_call") || same(
                name,
                "transfer_eth",
            ) || same(name, "raw_call") {
                true
            } else {
                return None;
            };
            Some(ExternalCall { at: expr.place(), name: name.to_owned(), returns: None, reenters })
        },
        _ => None,
    }
}

/// A rule reads a parsed file and says what it noticed.
pub trait Rule {
    /// The identifier of the rule.
    spec fn named(&self) -> Seq<char>;

    /// What the rule is for.
    spec fn described(&self) -> Seq<char>;

    /// How bad what the rule reports is, as far as it can be said of all of it.
    spec fn weighs(&self) -> Severity;

    /// What the rule reports about a file, in order.
    spec fn reports(&self, file: Tree, ctx: CtxView) -> Seq<FindingView>;

    /// Stable identifier used by config files and by the SARIF output.
    fn id(&self) -> (r: &'static str)
        ensures
            r@ == self.named(),
    ;

    /// What the rule is for, one line, shown by `--explain`.
    fn description(&self) -> (r: &'static str)
        ensures
            r@ == self.described(),
    ;

    fn severity(&self) -> (r: Severity)
        ensures
            r == self.weighs(),
    ;

    fn check(&self, file: &Node, ctx: &Ctx) -> (r: Vec<Finding>)
        ensures
            views(r@) == self.reports(file@, ctx@),
    ;
}

/// A finding about a place in the file at hand.
pub open spec fn finding_at(
    rule: Seq<char>,
    severity: Severity,
    ctx: CtxView,
    at: Place,
    message: Seq<char>,
    suggestion: Seq<char>,
) -> FindingView {
    FindingView {
        rule,
        severity,
        file: ctx.file,
        line: shown_at(at).0,
        column: shown_at(at).1,
        message,
        suggestion,
    }
}

/// Makes a finding about a place in the file at hand.
pub fn report(
    rule: &'static str,
    severity: Severity,
    ctx: &Ctx,
    at: Place,
    message: &str,
    suggestion: &str,
) -> (r: Finding)
    ensures
        r@ == finding_at(rule@, severity, ctx@, at, message@, suggestion@),
{
    let (line, column) = position(at);
    Finding::new(rule, severity, ctx.file, line, column, message, suggestion)
}

/// Something that can be recognised in the body of a function, node by node.
pub trait Pattern {
    /// What there is to say about a node in the body of a function.
    spec fn seen(&self, node: Tree, function: Tree, ctx: CtxView) -> Seq<FindingView>;

    fn see(&self, node: &Node, function: &Node, ctx: &Ctx) -> (r: Vec<Finding>)
        ensures
            views(r@) == self.seen(node@, function@, ctx@),
    ;
}

/// What there is to say about a function: what there is to say about each node
/// of its body, in source order.
pub open spec fn seen_in<P: Pattern>(pattern: P, function: Tree, ctx: CtxView) -> Seq<FindingView> {
    match function.first(Sort::Block) {
        Some(body) => nodes(body).flat_map(|node: Tree| pattern.seen(node, function, ctx)),
        None => Seq::empty(),
    }
}

/// What there is to say about some functions, one after the other.
pub open spec fn seen_in_all<P: Pattern>(
    pattern: P,
    functions: Seq<Tree>,
    ctx: CtxView,
) -> Seq<FindingView> {
    functions.flat_map(|function: Tree| seen_in(pattern, function, ctx))
}

fn look_in<P: Pattern>(pattern: &P, function: &Node, ctx: &Ctx) -> (r: Vec<Finding>)
    ensures
        views(r@) == seen_in(*pattern, function@, ctx@),
{
    let mut r: Vec<Finding> = Vec::new();
    let body = match function.first(Sort::Block) {
        Some(body) => body,
        None => {
            assert(views(r@) =~= Seq::empty());
            return r;
        },
    };
    let ghost all = nodes(body@);
    let ghost tell = |node: Tree| pattern.seen(node, function@, ctx@);
    let found = body.flatten();
    assert(views(r@) =~= all.take(0).flat_map(tell));
    for i in 0..found.len()
        invariant
            all == trees(found@),
            tell == (|node: Tree| pattern.seen(node, function@, ctx@)),
            views(r@) == all.take(i as int).flat_map(tell),
    {
        let ghost before = r@;
        proof {
            all.lemma_flat_map_take_append(tell, i as int);
        }
        assert(all[i as int] == found@[i as int]@);
        let mut more = pattern.see(found[i], function, ctx);
        let ghost added = more@;
        r.append(&mut more);
        assert(views(r@) =~= views(before) + views(added));
    }
    assert(all.take(found@.len() as int) =~= all);
    r
}

/// Looks for a pattern in some functions.
pub fn look_in_all<P: Pattern>(pattern: &P, functions: &Vec<&Node>, ctx: &Ctx) -> (r: Vec<Finding>)
    ensures
        views(r@) == seen_in_all(*pattern, trees(functions@), ctx@),
{
    let ghost all = trees(functions@);
    let ghost tell = |function: Tree| seen_in(*pattern, function, ctx@);
    let mut r: Vec<Finding> = Vec::new();
    assert(views(r@) =~= all.take(0).flat_map(tell));
    for i in 0..functions.len()
        invariant
            all == trees(functions@),
            tell == (|function: Tree| seen_in(*pattern, function, ctx@)),
            views(r@) == all.take(i as int).flat_map(tell),
    {
        let ghost before = r@;
        proof {
            all.lemma_flat_map_take_append(tell, i as int);
        }
        assert(all[i as int] == functions@[i as int]@);
        let mut more = look_in(pattern, functions[i], ctx);
        let ghost added = more@;
        r.append(&mut more);
        assert(views(r@) =~= views(before) + views(added));
    }
    assert(all.take(functions@.len() as int) =~= all);
    r
}

/// The name of a function.
pub open spec fn function_name(function: Tree) -> Seq<char> {
    match function.name() {
        Some(name) => name,
        None => Seq::empty(),
    }
}

/// One of the rules.
pub enum AnyRule {
    UnwrapInEntrypoint(UnwrapInEntrypoint),
    UncheckedCallResult(UncheckedCallResult),
    StateWriteAfterCall(StateWriteAfterCall),
    LossyIntegerConversion(LossyIntegerConversion),
    MissingAccessControl(MissingAccessControl),
    UnboundedStorageLoop(UnboundedStorageLoop),
}

impl Rule for AnyRule {
    open spec fn named(&self) -> Seq<char> {
        match *self {
            AnyRule::UnwrapInEntrypoint(rule) => rule.named(),
            AnyRule::UncheckedCallResult(rule) => rule.named(),
            AnyRule::StateWriteAfterCall(rule) => rule.named(),
            AnyRule::LossyIntegerConversion(rule) => rule.named(),
            AnyRule::MissingAccessControl(rule) => rule.named(),
            AnyRule::UnboundedStorageLoop(rule) => rule.named(),
        }
    }

    open spec fn described(&self) -> Seq<char> {
        match *self {
            AnyRule::UnwrapInEntrypoint(rule) => rule.described(),
            AnyRule::UncheckedCallResult(rule) => rule.described(),
            AnyRule::StateWriteAfterCall(rule) => rule.described(),
            AnyRule::LossyIntegerConversion(rule) => rule.described(),
            AnyRule::MissingAccessControl(rule) => rule.described(),
            AnyRule::UnboundedStorageLoop(rule) => rule.described(),
        }
    }

    open spec fn weighs(&self) -> Severity {
        match *self {
            AnyRule::UnwrapInEntrypoint(rule) => rule.weighs(),
            AnyRule::UncheckedCallResult(rule) => rule.weighs(),
            AnyRule::StateWriteAfterCall(rule) => rule.weighs(),
            AnyRule::LossyIntegerConversion(rule) => rule.weighs(),
            AnyRule::MissingAccessControl(rule) => rule.weighs(),
            AnyRule::UnboundedStorageLoop(rule) => rule.weighs(),
        }
    }

    open spec fn reports(&self, file: Tree, ctx: CtxView) -> Seq<FindingView> {
        match *self {
            AnyRule::UnwrapInEntrypoint(rule) => rule.reports(file, ctx),
            AnyRule::UncheckedCallResult(rule) => rule.reports(file, ctx),
            AnyRule::StateWriteAfterCall(rule) => rule.reports(file, ctx),
            AnyRule::LossyIntegerConversion(rule) => rule.reports(file, ctx),
            AnyRule::MissingAccessControl(rule) => rule.reports(file, ctx),
            AnyRule::UnboundedStorageLoop(rule) => rule.reports(file, ctx),
        }
    }

    fn id(&self) -> (r: &'static str) {
        match self {
            AnyRule::UnwrapInEntrypoint(rule) => rule.id(),
            AnyRule::UncheckedCallResult(rule) => rule.id(),
            AnyRule::StateWriteAfterCall(rule) => rule.id(),
            AnyRule::LossyIntegerConversion(rule) => rule.id(),
            AnyRule::MissingAccessControl(rule) => rule.id(),
            AnyRule::UnboundedStorageLoop(rule) => rule.id(),
        }
    }

    fn description(&self) -> (r: &'static str) {
        match self {
            AnyRule::UnwrapInEntrypoint(rule) => rule.description(),
            AnyRule::UncheckedCallResult(rule) => rule.description(),
            AnyRule::StateWriteAfterCall(rule) => rule.description(),
            AnyRule::LossyIntegerConversion(rule) => rule.description(),
            AnyRule::MissingAccessControl(rule) => rule.description(),
            AnyRule::UnboundedStorageLoop(rule) => rule.description(),
        }
    }

    fn severity(&self) -> (r: Severity) {
        match self {
            AnyRule::UnwrapInEntrypoint(rule) => rule.severity(),
            AnyRule::UncheckedCallResult(rule) => rule.severity(),
            AnyRule::StateWriteAfterCall(rule) => rule.severity(),
            AnyRule::LossyIntegerConversion(rule) => rule.severity(),
            AnyRule::MissingAccessControl(rule) => rule.severity(),
            AnyRule::UnboundedStorageLoop(rule) => rule.severity(),
        }
    }

    fn check(&self, file: &Node, ctx: &Ctx) -> (r: Vec<Finding>) {
        match self {
            AnyRule::UnwrapInEntrypoint(rule) => rule.check(file, ctx),
            AnyRule::UncheckedCallResult(rule) => rule.check(file, ctx),
            AnyRule::StateWriteAfterCall(rule) => rule.check(file, ctx),
            AnyRule::LossyIntegerConversion(rule) => rule.check(file, ctx),
            AnyRule::MissingAccessControl(rule) => rule.check(file, ctx),
            AnyRule::UnboundedStorageLoop(rule) => rule.check(file, ctx),
        }
    }
}

/// Every rule that reads syntax, in the order their findings tend to matter.
pub open spec fn all_rules() -> Seq<AnyRule> {
    seq![
        AnyRule::UnwrapInEntrypoint(UnwrapInEntrypoint),
        AnyRule::UncheckedCallResult(UncheckedCallResult),
        AnyRule::StateWriteAfterCall(StateWriteAfterCall),
        AnyRule::LossyIntegerConversion(LossyIntegerConversion),
        AnyRule::MissingAccessControl(MissingAccessControl),
        AnyRule::UnboundedStorageLoop(UnboundedStorageLoop),
    ]
}

/// Every rule, in the order their findings tend to matter.
#[must_use]
pub fn all() -> (r: Vec<AnyRule>)
    ensures
        r@ == all_rules(),
{
    vec![
        AnyRule::UnwrapInEntrypoint(UnwrapInEntrypoint),
        AnyRule::UncheckedCallResult(UncheckedCallResult),
        AnyRule::StateWriteAfterCall(StateWriteAfterCall),
        AnyRule::LossyIntegerConversion(LossyIntegerConversion),
        AnyRule::MissingAccessControl(MissingAccessControl),
        AnyRule::UnboundedStorageLoop(UnboundedStorageLoop),
    ]
}

/// A context that is spelled out at the call site decides whether a call can
/// come back in, whatever the interface says.
pub proof fn law_call_site_decides(t: Tree, contract: ContractView)
    requires
        t.form() == Some(Form::MethodCall),
        t.operands().len() > 0,
    ensures
        first_context(t.operands().drop_first()) matches Some(reenters) ==> (leaves(
            t,
            contract,
        ) matches Some(call) ==> call.reenters == reenters),
{
}

/// A function that is declared `view` or `pure` is reached by a call that
/// cannot come back in, unless the call site says otherwise.
pub proof fn law_static_call_cannot_reenter(t: Tree, contract: ContractView, name: Seq<char>)
    requires
        t.form() == Some(Form::MethodCall),
        t.name() == Some(name),
        contract.method(name) matches Some(method) && !method.mutates,
        t.operands().len() > 0,
        first_context(t.operands().drop_first()) is None,
    ensures
        leaves(t, contract) matches Some(call) && !call.reenters,
{
}

proof fn lemma_blocks_apart(a: Seq<Tree>, b: Seq<Tree>, only_public: bool)
    ensures
        impl_blocks_of_all(a + b, only_public) == impl_blocks_of_all(a, only_public)
            + impl_blocks_of_all(b, only_public),
    decreases b.len(),
{
    if b.len() == 0 {
        assert(a + b =~= a);
        assert(impl_blocks_of_all(a, only_public) + Seq::empty() =~= impl_blocks_of_all(
            a,
            only_public,
        ));
    } else {
        lemma_blocks_apart(a, b.drop_last(), only_public);
        assert((a + b).drop_last() =~= a + b.drop_last());
        assert(impl_blocks_of_all(a + b, only_public) =~= impl_blocks_of_all(a, only_public)
            + impl_blocks_of_all(b, only_public));
    }
}

/// A file made of some items.
pub open spec fn file_of(items: Seq<Tree>) -> Tree {
    Tree { kind: KindView::File, children: items }
}

/// A module made of some children: the attributes it carries, which are
/// counted, its name and its items.
pub open spec fn module_of(attributes: usize, children: Seq<Tree>) -> Tree {
    Tree { kind: KindView::Module { attributes }, children }
}

proof fn lemma_hidden_item_adds_no_block(
    before: Seq<Tree>,
    item: Tree,
    after: Seq<Tree>,
    only_public: bool,
)
    requires
        hidden(item),
    ensures
        impl_blocks_of_all(before + seq![item] + after, only_public) == impl_blocks_of_all(
            before + after,
            only_public,
        ),
{
    lemma_blocks_apart(before + seq![item], after, only_public);
    lemma_blocks_apart(before, seq![item], only_public);
    lemma_blocks_apart(before, after, only_public);
    reveal_with_fuel(impl_blocks_of_all, 2);
    assert(seq![item].drop_last() =~= Seq::<Tree>::empty());
    assert(impl_blocks_of_all(seq![item], only_public) =~= Seq::<Tree>::empty());
    assert(impl_blocks_of_all(before, only_public) + Seq::<Tree>::empty() =~= impl_blocks_of_all(
        before,
        only_public,
    ));
}

/// Test code is never looked at: to every rule, a file with a test module or a
/// test impl in it is the file without it.
pub proof fn law_test_code_is_never_looked_at(
    rule: AnyRule,
    before: Seq<Tree>,
    item: Tree,
    after: Seq<Tree>,
    ctx: CtxView,
)
    requires
        hidden(item),
    ensures
        rule.reports(file_of(before + seq![item] + after), ctx) == rule.reports(
            file_of(before + after),
            ctx,
        ),
{
    lemma_hidden_item_adds_no_block(before, item, after, true);
    lemma_hidden_item_adds_no_block(before, item, after, false);
    assert(impl_blocks(file_of(before + seq![item] + after), true) == impl_blocks(
        file_of(before + after),
        true,
    ));
    assert(impl_blocks(file_of(before + seq![item] + after), false) == impl_blocks(
        file_of(before + after),
        false,
    ));
}

/// Test code is no more looked at inside a module than at the top of a file.
pub proof fn law_test_code_in_a_module_is_never_looked_at(
    attributes: usize,
    before: Seq<Tree>,
    item: Tree,
    after: Seq<Tree>,
    only_public: bool,
)
    requires
        hidden(item),
        attributes <= before.len(),
    ensures
        impl_blocks(module_of(attributes, before + seq![item] + after), only_public)
            == impl_blocks(module_of(attributes, before + after), only_public),
{
    let with = module_of(attributes, before + seq![item] + after);
    let without = module_of(attributes, before + after);
    assert(with.attributes() =~= without.attributes());
    let keep = |child: Tree| child.sort() == Sort::Ident;
    Seq::filter_distributes_over_add(before + seq![item], after, keep);
    Seq::filter_distributes_over_add(before, seq![item], keep);
    Seq::filter_distributes_over_add(before, after, keep);
    reveal_with_fuel(Seq::filter, 2);
    assert(seq![item].drop_last() =~= Seq::<Tree>::empty());
    assert(seq![item].filter(keep) =~= Seq::<Tree>::empty());
    assert(before.filter(keep) + Seq::<Tree>::empty() =~= before.filter(keep));
    assert(with.those(Sort::Ident) == without.those(Sort::Ident));
    lemma_hidden_item_adds_no_block(before, item, after, only_public);
    assert(own_block(with, only_public) == own_block(without, only_public));
}

/// A predicate behind `not`.
pub open spec fn behind_not(tokens: Seq<TokenView>) -> Seq<TokenView> {
    seq![TokenView::Word("not"@), TokenView::Group(tokens)]
}

/// Two negations cancel: `not(not(..))` asks for tests exactly when what stands
/// inside does.
pub proof fn law_two_negations_cancel(tokens: Seq<TokenView>)
    ensures
        asks_for_tests(behind_not(behind_not(tokens))) == asks_for_tests(tokens),
{
    lemma_negation_turns(behind_not(tokens), false);
    lemma_negation_turns(tokens, true);
}

proof fn lemma_negation_turns(tokens: Seq<TokenView>, turned: bool)
    ensures
        some_ask_for_tests(behind_not(tokens), turned, 2) == some_ask_for_tests(
            tokens,
            !turned,
            tokens.len(),
        ),
{
    reveal_with_fuel(some_ask_for_tests, 3);
    reveal_strlit("not");
    reveal_strlit("test");
    assert forall|i: int| !tests_at("not"@, i) by {
        assert("not"@.len() < "test"@.len());
    }
}

/// What an item holds does not speak for it: whatever stands behind the
/// attributes that it carries, and whatever that carries in turn, the item is
/// for tests or not, and carries an attribute of a name or not, as it would
/// without it.
pub proof fn law_what_an_item_holds_does_not_speak_for_it(
    kind: KindView,
    before: Seq<Tree>,
    held: Tree,
    after: Seq<Tree>,
    name: Seq<char>,
)
    requires
        kind.carries() <= before.len(),
    ensures
        test_only(Tree { kind, children: before + seq![held] + after }) == test_only(
            Tree { kind, children: before + after },
        ),
        attributed(Tree { kind, children: before + seq![held] + after }, name) == attributed(
            Tree { kind, children: before + after },
            name,
        ),
{
    let with = Tree { kind, children: before + seq![held] + after };
    let without = Tree { kind, children: before + after };
    assert(with.attributes() =~= without.attributes());
}

/// Whatever is looked at is an impl block that is not there for tests only, and
/// a function in it that is not either.
pub proof fn law_only_contract_code_is_looked_at(
    file: Tree,
    only_public: bool,
    block: Tree,
    function: Tree,
)
    requires
        impl_blocks(file, only_public).contains(block),
        functions_in(block).contains(function),
    ensures
        block.sort() == Sort::Implementation,
        !test_only(block),
        only_public ==> attributed(block, "public"@),
        function.sort() == Sort::Method,
        !test_only(function),
{
    lemma_blocks_are_contract_code(file, only_public, block);
    let keep = |child: Tree| child.sort() == Sort::Method && !test_only(child);
    let kept = functions_in(block);
    let k = choose|k: int| 0 <= k < kept.len() && kept[k] == function;
    block.children.lemma_filter_pred(keep, k);
}

proof fn lemma_blocks_are_contract_code(t: Tree, only_public: bool, block: Tree)
    requires
        impl_blocks(t, only_public).contains(block),
    ensures
        block.sort() == Sort::Implementation,
        !test_only(block),
        only_public ==> attributed(block, "public"@),
    decreases t,
{
    let own = own_block(t, only_public);
    let inner = impl_blocks_of_all(t.children, only_public);
    let k = choose|k: int| 0 <= k < (own + inner).len() && (own + inner)[k] == block;
    if k >= own.len() {
        assert(inner[k - own.len()] == block);
        lemma_all_blocks_are_contract_code(t.children, only_public, block);
    }
}

proof fn lemma_all_blocks_are_contract_code(ts: Seq<Tree>, only_public: bool, block: Tree)
    requires
        impl_blocks_of_all(ts, only_public).contains(block),
    ensures
        block.sort() == Sort::Implementation,
        !test_only(block),
        only_public ==> attributed(block, "public"@),
    decreases ts,
{
    if ts.len() > 0 {
        let rest = impl_blocks_of_all(ts.drop_last(), only_public);
        let last = impl_blocks(ts.last(), only_public);
        let k = choose|k: int| 0 <= k < (rest + last).len() && (rest + last)[k] == block;
        if k < rest.len() {
            assert(rest[k] == block);
            lemma_all_blocks_are_contract_code(ts.drop_last(), only_public, block);
        } else {
            assert(last[k - rest.len()] == block);
            lemma_blocks_are_contract_code(ts.last(), only_public, block);
        }
    }
}

/// True for a finding that a rule may make: signed by the rule, about the file
/// at hand, at a column counted from one.
pub open spec fn signed(rule: Seq<char>, ctx: CtxView, finding: FindingView) -> bool {
    finding.rule == rule && finding.file == ctx.file && finding.column >= 1
}

proof fn lemma_pattern_signed<P: Pattern>(
    pattern: P,
    rule: Seq<char>,
    functions: Seq<Tree>,
    ctx: CtxView,
    finding: FindingView,
)
    requires
        seen_in_all(pattern, functions, ctx).contains(finding),
        forall|node: Tree, function: Tree, f: FindingView|
            (#[trigger] pattern.seen(node, function, ctx).contains(f)) ==> signed(rule, ctx, f),
    ensures
        signed(rule, ctx, finding),
{
    let tell = |function: Tree| seen_in(pattern, function, ctx);
    lemma_gathered_from_one(functions, tell, finding);
    let i = choose|i: int|
        0 <= i < functions.len() && tell(#[trigger] functions[i]).contains(finding);
    let function = functions[i];
    assert(seen_in(pattern, function, ctx).contains(finding));
    if let Some(body) = function.first(Sort::Block) {
        let look = |node: Tree| pattern.seen(node, function, ctx);
        lemma_gathered_from_one(nodes(body), look, finding);
        let j = choose|j: int|
            0 <= j < nodes(body).len() && look(#[trigger] nodes(body)[j]).contains(finding);
        assert(pattern.seen(nodes(body)[j], function, ctx).contains(finding));
    }
}

/// Every rule signs what it reports, and reports it about the file at hand.
pub proof fn law_findings_are_signed(
    rule: AnyRule,
    file: Tree,
    ctx: CtxView,
    finding: FindingView,
)
    requires
        rule.reports(file, ctx).contains(finding),
    ensures
        signed(rule.named(), ctx, finding),
{
    match rule {
        AnyRule::UnwrapInEntrypoint(r) => {
            lemma_pattern_signed(r, rule.named(), functions_of(file, false), ctx, finding);
        },
        AnyRule::UncheckedCallResult(r) => {
            lemma_pattern_signed(r, rule.named(), functions_of(file, false), ctx, finding);
        },
        AnyRule::StateWriteAfterCall(r) => {
            assert forall|node: Tree, function: Tree, f: FindingView|
                (#[trigger] r.seen(node, function, ctx).contains(f)) implies signed(
                rule.named(),
                ctx,
                f,
            ) by {
                lemma_late_writes_signed(r, node, function, ctx, f);
            }
            lemma_pattern_signed(r, rule.named(), functions_of(file, false), ctx, finding);
        },
        AnyRule::LossyIntegerConversion(r) => {
            lemma_pattern_signed(r, rule.named(), functions_of(file, false), ctx, finding);
        },
        AnyRule::MissingAccessControl(_) => {
            functions_of(file, true).lemma_filter_map_contains(
                |function: Tree| open_function(function, ctx),
                finding,
            );
        },
        AnyRule::UnboundedStorageLoop(r) => {
            lemma_pattern_signed(r, rule.named(), functions_of(file, true), ctx, finding);
        },
    }
}

} // verus!
