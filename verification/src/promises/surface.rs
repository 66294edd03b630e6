//! What is promised of the code that is looked at.

use super::words::law_where_a_text_stands;
use crate::finding::{FindingView, Severity};
use crate::rules::access::{open_function, MissingAccessControl, UnboundedStorageLoop};
use crate::rules::calls::{StateWriteAfterCall, UncheckedCallResult};
use crate::rules::numbers::LossyIntegerConversion;
use crate::rules::traps::UnwrapInEntrypoint;
use crate::rules::{
    all_rules, asks_for_tests, attributed, changes_self, functions_in, functions_of, hidden,
    impl_blocks, impl_blocks_of_all, inputs, marks_a_test, shown_at, some_ask_for_tests,
    speaks_of_tests, test_only, tests_at, CtxView, Pattern, Rule,
};
use crate::syntax::{nodes, KindView, Place, Sort, TokenView, Tree};
use crate::text::occurs_at;
use vstd::prelude::*;

verus! {

/// Lines are shown as they are counted, and columns from one, as far as a machine
/// word can hold them.
pub proof fn law_places_are_shown_from_one(at: Place)
    ensures
        shown_at(at).0 == at.line,
        at.column < usize::MAX ==> shown_at(at).1 == at.column + 1,
        at.column == usize::MAX ==> shown_at(at).1 == usize::MAX,
{
}

/// How many attributes an item says that it carries.
pub open spec fn counted(item: Tree) -> int {
    match item.kind {
        KindView::Module { attributes } => attributes as int,
        KindView::Implementation { attributes } => attributes as int,
        KindView::Method { attributes } => attributes as int,
        _ => 0,
    }
}

/// True for an attribute that an item carries itself: one of so many first
/// children as it counts attributes.
pub open spec fn carries(item: Tree, i: int) -> bool {
    0 <= i < item.children.len() && i < counted(item)
}

/// An item has an attribute of a name exactly when it carries one itself whose
/// path ends in that name.
pub proof fn law_an_item_has_what_it_carries(item: Tree, name: Seq<char>)
    ensures
        attributed(item, name) <==> exists|i: int| #[trigger]
            carries(item, i) && item.children[i].tail() == Some(name),
{
    lemma_carried(item);
    if attributed(item, name) {
        let i = choose|i: int|
            0 <= i < item.attributes().len() && (#[trigger] item.attributes()[i]).tail() == Some(
                name,
            );
        assert(carries(item, i));
    }
    if exists|i: int| #[trigger] carries(item, i) && item.children[i].tail() == Some(name) {
        let i = choose|i: int| #[trigger]
            carries(item, i) && item.children[i].tail() == Some(name);
        assert(item.attributes()[i].tail() == Some(name));
    }
}

proof fn lemma_carried(item: Tree)
    ensures
        forall|i: int| #[trigger]
            carries(item, i) <==> 0 <= i < item.attributes().len(),
        forall|i: int| #[trigger]
            carries(item, i) ==> item.attributes()[i] == item.children[i],
{
}

/// True for a word or a literal that speaks of tests: with `test` in it, not as
/// the start of `testnet`.
pub open spec fn about_tests(text: Seq<char>) -> bool {
    exists|front: Seq<char>, rest: Seq<char>| #[trigger]
        (front + "test"@ + rest) == text && !(exists|more: Seq<char>|
            rest == #[trigger] ("net"@ + more))
}

proof fn lemma_about_tests(text: Seq<char>)
    ensures
        speaks_of_tests(text) <==> about_tests(text),
{
    reveal_strlit("test");
    reveal_strlit("net");
    reveal_strlit("testnet");
    if speaks_of_tests(text) {
        let i = choose|i: int| tests_at(text, i);
        law_where_a_text_stands(text, "test"@, i);
        let front = text.take(i);
        let rest = text.skip(i + 4);
        assert(front + "test"@ + rest =~= text) by {
            assert(text.subrange(i, i + 4) == "test"@);
        }
        if exists|more: Seq<char>| rest == #[trigger] ("net"@ + more) {
            let more = choose|more: Seq<char>| rest == #[trigger] ("net"@ + more);
            assert(text.subrange(i, i + 7) =~= "testnet"@);
            assert(occurs_at(text, "testnet"@, i));
        }
    }
    if about_tests(text) {
        let (front, rest) = choose|front: Seq<char>, rest: Seq<char>| #[trigger]
            (front + "test"@ + rest) == text && !(exists|more: Seq<char>|
                rest == #[trigger] ("net"@ + more));
        let i = front.len() as int;
        assert(text.subrange(i, i + 4) =~= "test"@);
        if occurs_at(text, "testnet"@, i) {
            let more = rest.skip(3);
            let whole = text.subrange(i, i + 7);
            assert(whole == "testnet"@);
            assert(rest =~= "net"@ + more) by {
                assert(rest[0] == whole[4] && rest[1] == whole[5] && rest[2] == whole[6]);
            }
        }
        assert(tests_at(text, i));
    }
}

/// True for a token that asks for tests where it stands: a word or a literal that
/// speaks of them, or a group in which something asks for them. Behind a `not` a
/// group asks for what it would not ask for otherwise, and the other way round.
pub open spec fn asks_here(tokens: Seq<TokenView>, turned: bool, i: int) -> bool {
    &&& 0 <= i < tokens.len()
    &&& match tokens[i] {
        TokenView::Word(text) => !turned && about_tests(text),
        TokenView::Literal(text) => !turned && about_tests(text),
        TokenView::Group(inner) => some_ask_for_tests(
            inner,
            if i > 0 && tokens[i - 1] == TokenView::Word("not"@) {
                !turned
            } else {
                turned
            },
            inner.len(),
        ),
        TokenView::Mark => false,
    }
}

/// Tokens ask for tests exactly when one of them does.
pub proof fn law_tokens_ask_for_tests(tokens: Seq<TokenView>, turned: bool)
    ensures
        some_ask_for_tests(tokens, turned, tokens.len()) <==> exists|i: int|
            asks_here(tokens, turned, i),
        asks_for_tests(tokens) <==> exists|i: int| asks_here(tokens, false, i),
{
    lemma_tokens_ask(tokens, turned, tokens.len());
    lemma_tokens_ask(tokens, false, tokens.len());
}

proof fn lemma_tokens_ask(tokens: Seq<TokenView>, turned: bool, n: nat)
    requires
        n <= tokens.len(),
    ensures
        some_ask_for_tests(tokens, turned, n) <==> exists|i: int|
            i < n && #[trigger] asks_here(tokens, turned, i),
    decreases n,
{
    if n > 0 {
        lemma_tokens_ask(tokens, turned, (n - 1) as nat);
        match tokens[n - 1] {
            TokenView::Word(text) => {
                lemma_about_tests(text);
            },
            TokenView::Literal(text) => {
                lemma_about_tests(text);
            },
            _ => {},
        }
        if some_ask_for_tests(tokens, turned, n) && !some_ask_for_tests(
            tokens,
            turned,
            (n - 1) as nat,
        ) {
            assert(asks_here(tokens, turned, n - 1));
        }
        if exists|i: int| i < n && #[trigger] asks_here(tokens, turned, i) {
            let i = choose|i: int| i < n && #[trigger] asks_here(tokens, turned, i);
            if i < n - 1 {
                assert(i < n - 1 && asks_here(tokens, turned, i));
            }
        }
    }
}

/// An item is for tests exactly when it carries a `test` attribute, on whatever
/// path, or a `cfg` whose predicate asks for tests.
pub proof fn law_what_is_for_tests(item: Tree)
    ensures
        test_only(item) <==> exists|i: int| #[trigger]
            carries(item, i) && for_tests(item.children[i]),
{
    lemma_carried(item);
    if test_only(item) {
        let i = choose|i: int|
            0 <= i < item.attributes().len() && marks_a_test(#[trigger] item.attributes()[i]);
        assert(carries(item, i));
        assert(for_tests(item.children[i]));
    }
    if exists|i: int| #[trigger] carries(item, i) && for_tests(item.children[i]) {
        let i = choose|i: int| #[trigger] carries(item, i) && for_tests(item.children[i]);
        assert(marks_a_test(item.attributes()[i]));
    }
}

/// True for an attribute that says that an item is for tests.
pub open spec fn for_tests(attribute: Tree) -> bool {
    ||| attribute.tail() == Some("test"@)
    ||| attribute.tail() == Some("cfg"@) && attribute.kind is Attribute
        && attribute.kind->arguments is Some && asks_for_tests(
        attribute.kind->arguments.unwrap(),
    )
}

/// What is hidden is a module or an impl block for tests, and a module called
/// `tests`, and nothing else.
pub proof fn law_what_is_hidden(t: Tree)
    ensures
        t.kind is Module ==> (hidden(t) <==> test_only(t) || t.name() == Some("tests"@)),
        t.kind is Implementation ==> (hidden(t) <==> test_only(t)),
        !(t.kind is Module || t.kind is Implementation) ==> !hidden(t),
{
}

/// The impl blocks of a node are the node itself, where it is one, and those of
/// its children, each after the ones before it; a hidden node has none. Where
/// only the public ones are asked for, those are the ones that carry `public`.
pub proof fn law_impl_blocks_are_found_wherever_they_are(t: Tree, only_public: bool)
    ensures
        hidden(t) ==> impl_blocks(t, only_public) == Seq::<Tree>::empty(),
        !hidden(t) ==> impl_blocks(t, only_public) == (if t.kind is Implementation && (only_public
            ==> attributed(t, "public"@)) {
            seq![t]
        } else {
            Seq::empty()
        }) + t.children.flat_map(|child: Tree| impl_blocks(child, only_public)),
{
    lemma_blocks_of_all(t.children, only_public);
}

proof fn lemma_blocks_of_all(ts: Seq<Tree>, only_public: bool)
    ensures
        impl_blocks_of_all(ts, only_public) == ts.flat_map(
            |child: Tree| impl_blocks(child, only_public),
        ),
    decreases ts.len(),
{
    let walk = |child: Tree| impl_blocks(child, only_public);
    if ts.len() == 0 {
        assert(ts.flat_map(walk) =~= Seq::empty());
    } else {
        lemma_blocks_of_all(ts.drop_last(), only_public);
        assert(ts =~= ts.drop_last().push(ts.last()));
        ts.drop_last().lemma_flat_map_push(walk, ts.last());
    }
}

/// The functions of a file are those of its impl blocks, block by block, in the
/// order in which they stand, those for tests aside.
pub proof fn law_every_function_is_looked_at(file: Tree, item: Tree, only_public: bool)
    ensures
        functions_in(item) == item.children.filter(
            |child: Tree| child.kind is Method && !test_only(child),
        ),
        functions_of(file, only_public) == impl_blocks(file, only_public).flat_map(
            |block: Tree| functions_in(block),
        ),
{
    let keep = |child: Tree| child.sort() == Sort::Method && !test_only(child);
    let kept = |child: Tree| child.kind is Method && !test_only(child);
    assert(keep =~= kept);
    let inside = |item: Tree| functions_in(item);
    let within = |block: Tree| functions_in(block);
    assert(inside =~= within);
}

/// A function can change storage exactly when the first of its parameters is
/// `&mut self`.
pub proof fn law_who_can_change_storage(function: Tree)
    ensures
        changes_self(function) <==> exists|i: int|
            {
                &&& 0 <= i < function.children.len()
                &&& (#[trigger] function.children[i]).kind == (KindView::Receiver {
                    reference: true,
                    mutable: true,
                })
                &&& forall|j: int|
                    0 <= j < i ==> (#[trigger] function.children[j]).kind !is Receiver
                        && function.children[j].kind !is Parameter
            },
{
    let keep = |child: Tree| child.sort() == Sort::Receiver || child.sort() == Sort::Parameter;
    let at = super::source::lemma_kept_from(function.children, keep);
    assert(inputs(function) == function.children.filter(keep));
    if changes_self(function) {
        let i = at[0];
        assert forall|j: int| 0 <= j < i implies (#[trigger] function.children[j]).kind !is Receiver
            && function.children[j].kind !is Parameter by {
            if keep(function.children[j]) {
                let k = choose|k: int| 0 <= k < at.len() && at[k] == j;
                if k > 0 {
                    assert(at[0] < at[k]);
                }
            }
        }
        assert(function.children[i].kind == (KindView::Receiver { reference: true, mutable: true }));
    }
    if exists|i: int|
        {
            &&& 0 <= i < function.children.len()
            &&& (#[trigger] function.children[i]).kind == (KindView::Receiver {
                reference: true,
                mutable: true,
            })
            &&& forall|j: int|
                0 <= j < i ==> (#[trigger] function.children[j]).kind !is Receiver
                    && function.children[j].kind !is Parameter
        } {
        let i = choose|i: int|
            {
                &&& 0 <= i < function.children.len()
                &&& (#[trigger] function.children[i]).kind == (KindView::Receiver {
                    reference: true,
                    mutable: true,
                })
                &&& forall|j: int|
                    0 <= j < i ==> (#[trigger] function.children[j]).kind !is Receiver
                        && function.children[j].kind !is Parameter
            };
        assert(keep(function.children[i]));
        let k = choose|k: int| 0 <= k < at.len() && at[k] == i;
        if k > 0 {
            assert(at[0] < at[k]);
            assert(keep(function.children[at[0]]));
        }
    }
}

/// What a rule says of some functions: what it says of each node of each body,
/// one after the other.
pub open spec fn told<P: Pattern>(pattern: P, functions: Seq<Tree>, ctx: CtxView) -> Seq<
    FindingView,
> {
    functions.flat_map(
        |function: Tree|
            match function.first(Sort::Block) {
                Some(body) => nodes(body).flat_map(
                    |node: Tree| pattern.seen(node, function, ctx),
                ),
                None => Seq::empty(),
            },
    )
}

/// Each rule looks at every node of every function: those on what the code does
/// at every impl block, those on the public surface at the public ones. The rule
/// on who may act looks at each public function, and stays silent where the
/// contract declares nobody who may.
pub proof fn law_what_each_rule_looks_at(file: Tree, ctx: CtxView)
    ensures
        UnwrapInEntrypoint.reports(file, ctx) == told(
            UnwrapInEntrypoint,
            functions_of(file, false),
            ctx,
        ),
        UncheckedCallResult.reports(file, ctx) == told(
            UncheckedCallResult,
            functions_of(file, false),
            ctx,
        ),
        StateWriteAfterCall.reports(file, ctx) == told(
            StateWriteAfterCall,
            functions_of(file, false),
            ctx,
        ),
        LossyIntegerConversion.reports(file, ctx) == told(
            LossyIntegerConversion,
            functions_of(file, false),
            ctx,
        ),
        UnboundedStorageLoop.reports(file, ctx) == told(
            UnboundedStorageLoop,
            functions_of(file, true),
            ctx,
        ),
        MissingAccessControl.reports(file, ctx) == (if exists|i: int|
            0 <= i < ctx.contract.storage.len() && (
            #[trigger] ctx.contract.storage[i]).is_authority() {
            functions_of(file, true).filter_map(|function: Tree| open_function(function, ctx))
        } else {
            Seq::empty()
        }),
{
    lemma_told(UnwrapInEntrypoint, functions_of(file, false), ctx);
    lemma_told(UncheckedCallResult, functions_of(file, false), ctx);
    lemma_told(StateWriteAfterCall, functions_of(file, false), ctx);
    lemma_told(LossyIntegerConversion, functions_of(file, false), ctx);
    lemma_told(UnboundedStorageLoop, functions_of(file, true), ctx);
}

proof fn lemma_told<P: Pattern>(pattern: P, functions: Seq<Tree>, ctx: CtxView)
    ensures
        crate::rules::seen_in_all(pattern, functions, ctx) == told(pattern, functions, ctx),
{
    let tell = |function: Tree| crate::rules::seen_in(pattern, function, ctx);
    let retell = |function: Tree|
        match function.first(Sort::Block) {
            Some(body) => nodes(body).flat_map(|node: Tree| pattern.seen(node, function, ctx)),
            None => Seq::empty(),
        };
    assert(tell =~= retell);
}

/// What a rule has to say of a node is said of the file that the node stands in.
pub proof fn law_what_is_seen_is_reported<P: Pattern>(
    pattern: P,
    functions: Seq<Tree>,
    ctx: CtxView,
    function: Tree,
    body: Tree,
    node: Tree,
    finding: FindingView,
)
    requires
        functions.contains(function),
        function.first(Sort::Block) == Some(body),
        nodes(body).contains(node),
        pattern.seen(node, function, ctx).contains(finding),
    ensures
        told(pattern, functions, ctx).contains(finding),
{
    let tell = |function: Tree|
        match function.first(Sort::Block) {
            Some(body) => nodes(body).flat_map(|node: Tree| pattern.seen(node, function, ctx)),
            None => Seq::empty(),
        };
    let see = |node: Tree| pattern.seen(node, function, ctx);
    let k = choose|k: int| 0 <= k < nodes(body).len() && nodes(body)[k] == node;
    crate::lists::lemma_gathered_item(nodes(body), see, k, finding);
    let i = choose|i: int| 0 <= i < functions.len() && functions[i] == function;
    assert(tell(function).contains(finding));
    crate::lists::lemma_gathered_item(functions, tell, i, finding);
}

/// There are six rules that read syntax. Each goes by its name, says what it is
/// for and how bad what it finds is, and stands for itself in the list of all.
pub proof fn law_the_rules(file: Tree, ctx: CtxView)
    ensures
        all_rules().len() == 6,
        forall|i: int| 0 <= i < 6 ==> (#[trigger] all_rules()[i]).named() == seq![
            "unwrap-in-entrypoint"@,
            "unchecked-call-result"@,
            "state-write-after-call"@,
            "lossy-integer-conversion"@,
            "missing-access-control"@,
            "unbounded-storage-loop"@,
        ][i],
        forall|i: int| 0 <= i < 6 ==> (#[trigger] all_rules()[i]).weighs() == (if i < 4 {
            Severity::High
        } else {
            Severity::Medium
        }),
        forall|i: int| 0 <= i < 6 ==> (#[trigger] all_rules()[i]).described() == seq![
            "a panic reachable from a caller, which traps instead of reverting"@,
            "a call to another contract whose return value is thrown away"@,
            "storage changed after an external call, against checks effects interactions"@,
            "a storage value narrowed into a type too small to hold it"@,
            "a public function changes storage without checking who called it"@,
            "a loop over storage that callers can make long enough to run out of gas"@,
        ][i],
        forall|i: int| 0 <= i < 6 ==> (#[trigger] all_rules()[i]).reports(file, ctx) == seq![
            UnwrapInEntrypoint.reports(file, ctx),
            UncheckedCallResult.reports(file, ctx),
            StateWriteAfterCall.reports(file, ctx),
            LossyIntegerConversion.reports(file, ctx),
            MissingAccessControl.reports(file, ctx),
            UnboundedStorageLoop.reports(file, ctx),
        ][i],
{
}

} // verus!
