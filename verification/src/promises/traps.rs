//! What is promised of the rule on panics.

use super::storage::{law_naming_a_field, this_field};
use super::words::{law_holding_is_having, starts};
use crate::finding::{FindingView, Severity};
use crate::model::ContractView;
use crate::rules::traps::{
    can_fail, comes_from_outside, parameters_of, reachable, UnwrapInEntrypoint,
};
use crate::rules::{leaves, shown_at, CtxView, Pattern};
use crate::syntax::{nodes, Form, KindView, Tree};
use vstd::prelude::*;

verus! {

/// True for what can fail while a contract runs: a lookup, arithmetic that checks
/// itself, whatever it computes, or a call out of the contract.
pub open spec fn fails_at_run_time(t: Tree, contract: ContractView) -> bool {
    ||| leaves(t, contract) is Some
    ||| t.form() == Some(Form::MethodCall) && t.name() is Some && {
        let name = t.name().unwrap();
        name == "get"@ || name == "getter"@ || name == "setter"@ || name == "get_mut"@ || name
            == "pop"@ || starts(name, "checked_"@)
    }
}

/// True for a function that takes a parameter of a name.
pub open spec fn takes(function: Tree, name: Seq<char>) -> bool {
    exists|i: int|
        0 <= i < function.children.len() && (#[trigger] function.children[i]).kind == (
        KindView::Parameter { binding: Some(name) })
}

/// True for an expression in which a field of `self` or a parameter of the
/// function is named.
pub open spec fn fed_from_outside(t: Tree, function: Tree) -> bool {
    exists|x: Tree| #[trigger]
        nodes(t).contains(x) && (of_the_contract(x) || x.ident() is Some && takes(
            function,
            x.ident().unwrap(),
        ))
}

/// True for an access to a member of `self`, named or numbered.
pub open spec fn of_the_contract(x: Tree) -> bool {
    x.form() == Some(Form::Field) && x.operands().len() > 0 && super::storage::this(
        x.operands()[0],
    )
}

/// What is reported about a panic, written as `what` in a function.
pub open spec fn panics(node: Tree, what: Seq<char>, function: Tree, ctx: CtxView) -> FindingView {
    FindingView {
        rule: "unwrap-in-entrypoint"@,
        severity: Severity::High,
        file: ctx.file,
        line: shown_at(node.place()).0,
        column: shown_at(node.place()).1,
        message: "`"@ + what + "` in `"@ + (match function.name() {
            Some(name) => name,
            None => Seq::empty(),
        }) + "`"@,
        suggestion: "return an Err with a reason instead. A panic becomes a WASM trap: the caller gets no reason back and loses the gas it sent."@,
    }
}

proof fn lemma_takes(function: Tree, name: Seq<char>)
    ensures
        parameters_of(function).contains(name) <==> takes(function, name),
{
    let pick = |child: Tree|
        match child.kind {
            KindView::Parameter { binding } => binding,
            _ => None,
        };
    if parameters_of(function).contains(name) {
        function.children.lemma_filter_map_contains(pick, name);
        let child = choose|child: Tree| #[trigger]
            function.children.contains(child) && pick(child) == Some(name);
        let i = choose|i: int| 0 <= i < function.children.len() && function.children[i] == child;
        assert(function.children[i].kind == (KindView::Parameter { binding: Some(name) }));
    }
    if takes(function, name) {
        let i = choose|i: int|
            0 <= i < function.children.len() && (#[trigger] function.children[i]).kind == (
            KindView::Parameter { binding: Some(name) });
        crate::lists::lemma_picked_item(function.children, pick, i);
    }
}

proof fn lemma_fed(t: Tree, function: Tree)
    ensures
        reachable(t, parameters_of(function)) <==> fed_from_outside(t, function),
{
    let names = parameters_of(function);
    if reachable(t, names) {
        let i = choose|i: int|
            0 <= i < nodes(t).len() && comes_from_outside(#[trigger] nodes(t)[i], names);
        let x = nodes(t)[i];
        assert(nodes(t).contains(x));
        if x.ident() is Some {
            lemma_takes(function, x.ident().unwrap());
        }
        if x.operands().len() > 0 {
            law_naming_a_field(x.operands()[0], Seq::empty());
        }
    }
    if fed_from_outside(t, function) {
        let x = choose|x: Tree| #[trigger]
            nodes(t).contains(x) && (of_the_contract(x) || x.ident() is Some && takes(
                function,
                x.ident().unwrap(),
            ));
        let i = choose|i: int| 0 <= i < nodes(t).len() && nodes(t)[i] == x;
        if x.ident() is Some {
            lemma_takes(function, x.ident().unwrap());
        }
        if x.operands().len() > 0 {
            law_naming_a_field(x.operands()[0], Seq::empty());
        }
        assert(comes_from_outside(nodes(t)[i], names));
    }
}

proof fn lemma_fails(t: Tree, contract: ContractView)
    ensures
        can_fail(t, contract) <==> fails_at_run_time(t, contract),
{
    if t.name() is Some {
        law_holding_is_having(t.name().unwrap(), "checked_"@);
    }
}

/// An `unwrap` or an `expect` of something that can fail while the contract runs,
/// and that is fed from outside, is reported once, where it stands; of anything
/// else nothing is reported.
pub proof fn law_a_panic_that_a_caller_can_cause_is_reported(
    node: Tree,
    function: Tree,
    ctx: CtxView,
)
    requires
        node.form() == Some(Form::MethodCall),
        node.name() == Some("unwrap"@) || node.name() == Some("expect"@),
        node.operands().len() > 0,
    ensures
        fails_at_run_time(node.operands()[0], ctx.contract) && fed_from_outside(
            node.operands()[0],
            function,
        ) ==> UnwrapInEntrypoint.seen(node, function, ctx) == seq![
            panics(node, node.name().unwrap() + "()"@, function, ctx),
        ],
        !(fails_at_run_time(node.operands()[0], ctx.contract) && fed_from_outside(
            node.operands()[0],
            function,
        )) ==> UnwrapInEntrypoint.seen(node, function, ctx) == Seq::<FindingView>::empty(),
{
    lemma_fails(node.operands()[0], ctx.contract);
    lemma_fed(node.operands()[0], function);
}

/// Arithmetic that checks itself can fail, whatever it computes: to unwrap it is
/// reported once where a parameter or a field of the contract goes into it. So is
/// unwrapping a lookup.
pub proof fn law_checked_arithmetic_and_lookups_can_fail(
    node: Tree,
    function: Tree,
    ctx: CtxView,
    operation: Seq<char>,
    x: Tree,
)
    requires
        node.form() == Some(Form::MethodCall),
        node.name() == Some("unwrap"@) || node.name() == Some("expect"@),
        node.operands().len() > 0,
        node.operands()[0].form() == Some(Form::MethodCall),
        ({
            ||| node.operands()[0].name() == Some("checked_"@ + operation)
            ||| node.operands()[0].name() == Some("get"@)
            ||| node.operands()[0].name() == Some("getter"@)
            ||| node.operands()[0].name() == Some("setter"@)
            ||| node.operands()[0].name() == Some("get_mut"@)
            ||| node.operands()[0].name() == Some("pop"@)
        }),
        nodes(node.operands()[0]).contains(x),
        (exists|field: Seq<char>| this_field(x, field)) || x.ident() is Some && takes(
            function,
            x.ident().unwrap(),
        ),
    ensures
        UnwrapInEntrypoint.seen(node, function, ctx).len() == 1,
        UnwrapInEntrypoint.seen(node, function, ctx)[0].rule == "unwrap-in-entrypoint"@,
        UnwrapInEntrypoint.seen(node, function, ctx)[0].severity == Severity::High,
        UnwrapInEntrypoint.seen(node, function, ctx)[0].line == shown_at(node.place()).0,
        UnwrapInEntrypoint.seen(node, function, ctx)[0].column == shown_at(node.place()).1,
{
    let inner = node.operands()[0];
    assert(fails_at_run_time(inner, ctx.contract));
    assert(fed_from_outside(inner, function));
    law_a_panic_that_a_caller_can_cause_is_reported(node, function, ctx);
}

/// To unwrap a call out of the contract is reported once where a parameter or a
/// field of the contract goes into it.
pub proof fn law_a_call_out_can_fail(node: Tree, function: Tree, ctx: CtxView)
    requires
        node.form() == Some(Form::MethodCall),
        node.name() == Some("unwrap"@) || node.name() == Some("expect"@),
        node.operands().len() > 0,
        leaves(node.operands()[0], ctx.contract) is Some,
        fed_from_outside(node.operands()[0], function),
    ensures
        UnwrapInEntrypoint.seen(node, function, ctx).len() == 1,
        UnwrapInEntrypoint.seen(node, function, ctx)[0].rule == "unwrap-in-entrypoint"@,
        UnwrapInEntrypoint.seen(node, function, ctx)[0].line == shown_at(node.place()).0,
        UnwrapInEntrypoint.seen(node, function, ctx)[0].column == shown_at(node.place()).1,
{
    law_a_panic_that_a_caller_can_cause_is_reported(node, function, ctx);
}

/// The four macros that trap every time are reported once, on whatever path they
/// stand, and no other macro is.
pub proof fn law_four_macros_always_trap(node: Tree, function: Tree, ctx: CtxView)
    requires
        node.kind is Macro,
    ensures
        ({
            let four = seq!["panic"@, "unreachable"@, "todo"@, "unimplemented"@];
            if node.tail() is Some && four.contains(node.tail().unwrap()) {
                UnwrapInEntrypoint.seen(node, function, ctx) == seq![
                    panics(node, node.tail().unwrap() + "!"@, function, ctx),
                ]
            } else {
                UnwrapInEntrypoint.seen(node, function, ctx) == Seq::<FindingView>::empty()
            }
        }),
{
    let four = seq!["panic"@, "unreachable"@, "todo"@, "unimplemented"@];
    assert(four[0] == "panic"@ && four[1] == "unreachable"@ && four[2] == "todo"@ && four[3]
        == "unimplemented"@);
}

/// Nothing else panics as far as this rule can tell.
pub proof fn law_nothing_else_is_a_panic(node: Tree, function: Tree, ctx: CtxView)
    requires
        node.kind !is Macro,
        !(node.form() == Some(Form::MethodCall) && node.operands().len() > 0 && (node.name()
            == Some("unwrap"@) || node.name() == Some("expect"@))),
    ensures
        UnwrapInEntrypoint.seen(node, function, ctx) == Seq::<FindingView>::empty(),
{
}

} // verus!
