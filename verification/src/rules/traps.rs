//! Rules about ways a contract stops dead instead of reverting.

use super::{
    contract_impls, external_call, finding_at, function_name, functions, functions_of, is_self,
    is_the_contract, leaves, look_in_all, report, seen_in_all, Ctx, CtxView, Pattern, Rule,
};
use crate::finding::{Finding, FindingView, Severity};
use crate::model::{Contract, ContractView};
use crate::order::views;
use crate::syntax::{nodes, trees, Form, Kind, KindView, Node, Sort, Tree};
use crate::text::{begins, chars, same, starts_with, texts};
use vstd::prelude::*;

verus! {

/// A panic reachable from a caller.
///
/// On Stylus a panic is a WASM trap. It does not revert with a reason the
/// caller can read, and it consumes the gas the caller sent. The same code in
/// a test is fine, which is why test items are never looked at.
pub struct UnwrapInEntrypoint;

/// True for the methods whose answer can be missing: lookups, and arithmetic
/// that checks itself.
pub open spec fn may_come_up_empty(method: Seq<char>) -> bool {
    ||| method == "get"@
    ||| method == "getter"@
    ||| method == "setter"@
    ||| method == "get_mut"@
    ||| method == "pop"@
    ||| begins(method, "checked_"@)
}

/// True when the operation being unwrapped is one a caller can make fail.
pub open spec fn can_fail(t: Tree, contract: ContractView) -> bool {
    ||| leaves(t, contract) is Some
    ||| t.form() == Some(Form::MethodCall) && (t.name() matches Some(method) && may_come_up_empty(
        method,
    ))
}

/// True for a node through which something from outside comes in: a field of
/// `self`, or the name of a parameter.
pub open spec fn comes_from_outside(t: Tree, parameters: Seq<Seq<char>>) -> bool {
    ||| t.form() == Some(Form::Field) && t.operands().len() > 0 && is_self(t.operands()[0])
    ||| t.ident() matches Some(name) && parameters.contains(name)
}

/// True when anything that a caller controls feeds an expression.
pub open spec fn reachable(t: Tree, parameters: Seq<Seq<char>>) -> bool {
    exists|i: int|
        0 <= i < nodes(t).len() && comes_from_outside(#[trigger] nodes(t)[i], parameters)
}

/// The names a caller supplies.
pub open spec fn parameters_of(function: Tree) -> Seq<Seq<char>> {
    function.children.filter_map(
        |child: Tree|
            match child.kind {
                KindView::Parameter { binding } => binding,
                _ => None,
            },
    )
}

/// True for the macros that trap unconditionally.
pub open spec fn panicking_macro(name: Seq<char>) -> bool {
    name == "panic"@ || name == "unreachable"@ || name == "todo"@ || name == "unimplemented"@
}

/// How the panic that a node can cause is written, if it can cause one.
pub open spec fn panic_at(node: Tree, function: Tree, contract: ContractView) -> Option<Seq<char>> {
    if node.form() == Some(Form::MethodCall) {
        match node.name() {
            Some(name) => if (name == "unwrap"@ || name == "expect"@) && node.operands().len() > 0
                && can_fail(node.operands()[0], contract) && reachable(
                node.operands()[0],
                parameters_of(function),
            ) {
                Some(name + "()"@)
            } else {
                None
            },
            None => None,
        }
    } else if node.sort() == Sort::Macro {
        match node.tail() {
            Some(name) => if panicking_macro(name) {
                Some(name + "!"@)
            } else {
                None
            },
            None => None,
        }
    } else {
        None
    }
}

/// What is said about a panic.
pub open spec fn panic_message(what: Seq<char>, function: Tree) -> Seq<char> {
    "`"@ + what + "` in `"@ + function_name(function) + "`"@
}

/// What is suggested about a panic.
pub open spec fn panic_advice() -> Seq<char> {
    "return an Err with a reason instead. A panic becomes a WASM trap: the caller gets no reason back and loses the gas it sent."@
}

impl Pattern for UnwrapInEntrypoint {
    open spec fn seen(&self, node: Tree, function: Tree, ctx: CtxView) -> Seq<FindingView> {
        match panic_at(node, function, ctx.contract) {
            Some(what) => seq![
                finding_at(
                    "unwrap-in-entrypoint"@,
                    Severity::High,
                    ctx,
                    node.place(),
                    panic_message(what, function),
                    panic_advice(),
                ),
            ],
            None => Seq::empty(),
        }
    }

    fn see(&self, node: &Node, function: &Node, ctx: &Ctx) -> (r: Vec<Finding>) {
        let mut r: Vec<Finding> = Vec::new();
        match panic_written(node, function, ctx.contract) {
            Some(what) => {
                let mut message = "`".to_owned();
                message.append(what.as_str());
                message.append("` in `");
                if let Some(name) = function.name() {
                    message.append(name);
                } else {
                    assert(message@ + Seq::<char>::empty() =~= message@);
                }
                message.append("`");
                r.push(
                    report(
                        "unwrap-in-entrypoint",
                        Severity::High,
                        ctx,
                        node.place(),
                        message.as_str(),
                        "return an Err with a reason instead. A panic becomes a WASM trap: the caller gets no reason back and loses the gas it sent.",
                    ),
                );
                assert(views(r@) =~= self.seen(node@, function@, ctx@));
            },
            None => {
                assert(views(r@) =~= Seq::empty());
            },
        }
        r
    }
}

impl Rule for UnwrapInEntrypoint {
    open spec fn named(&self) -> Seq<char> {
        "unwrap-in-entrypoint"@
    }

    open spec fn described(&self) -> Seq<char> {
        "a panic reachable from a caller, which traps instead of reverting"@
    }

    open spec fn weighs(&self) -> Severity {
        Severity::High
    }

    open spec fn reports(&self, file: Tree, ctx: CtxView) -> Seq<FindingView> {
        seen_in_all(*self, functions_of(file, false), ctx)
    }

    fn id(&self) -> (r: &'static str) {
        "unwrap-in-entrypoint"
    }

    fn description(&self) -> (r: &'static str) {
        "a panic reachable from a caller, which traps instead of reverting"
    }

    fn severity(&self) -> (r: Severity) {
        Severity::High
    }

    fn check(&self, file: &Node, ctx: &Ctx) -> (r: Vec<Finding>) {
        let items = contract_impls(file);
        let all = functions(&items);
        look_in_all(self, &all, ctx)
    }
}

/// Whether the operation being unwrapped is one a caller can actually make fail.
///
/// A lookup fails when the key is not there, arithmetic fails when it overflows,
/// and a call fails when the callee reverts. All three are decided at run time
/// by whoever called. A conversion between types the contract already fixed,
/// like four bytes into `[u8; 4]`, either always works or never does, and
/// reporting it buries the three that matter.
fn can_actually_fail(expr: &Node, contract: &Contract) -> (r: bool)
    ensures
        r == can_fail(expr@, contract@),
{
    if external_call(expr, contract).is_some() {
        return true;
    }
    if expr.form() != Some(Form::MethodCall) {
        return false;
    }
    match expr.name() {
        Some(name) => {
            let letters = chars(name);
            same(name, "get") || same(name, "getter") || same(name, "setter") || same(
                name,
                "get_mut",
            ) || same(name, "pop") || starts_with(letters.as_slice(), "checked_")
        },
        None => false,
    }
}

/// The names a caller supplies, which is what makes a panic reachable.
fn parameter_names(function: &Node) -> (r: Vec<String>)
    ensures
        texts(r@) == parameters_of(function@),
{
    let ghost all = function@.children;
    let ghost pick = |child: Tree|
        match child.kind {
            KindView::Parameter { binding } => binding,
            _ => None,
        };
    let mut names: Vec<String> = Vec::new();
    assert(texts(names@) =~= all.take(0).filter_map(pick));
    for i in 0..function.children.len()
        invariant
            all == function@.children,
            all.len() == function.children@.len(),
            pick == (|child: Tree|
                match child.kind {
                    KindView::Parameter { binding } => binding,
                    _ => None,
                }),
            texts(names@) == all.take(i as int).filter_map(pick),
    {
        let ghost before = texts(names@);
        let child = &function.children[i];
        proof {
            all.lemma_filter_map_take_succ(pick, i as int);
        }
        assert(all[i as int] == child@);
        match &child.kind {
            Kind::Parameter { binding: Some(name) } => {
                names.push(name.clone());
                assert(texts(names@) =~= before + seq![name@]);
            },
            _ => {
                assert(texts(names@) =~= before + Seq::empty());
            },
        }
    }
    assert(all.take(function.children@.len() as int) =~= all);
    names
}

/// Whether anything a caller controls feeds this expression.
///
/// `I256::try_from(20003000).unwrap()` cannot fail: the input is written in
/// the source and either always fits or never does, and it would be caught
/// the first time anyone ran it. `self.arr.get(index).unwrap()` is a
/// different thing entirely, because the index arrives from outside.
/// Reporting both is how a checker teaches people to stop reading it.
fn caller_can_reach(expr: &Node, parameters: &Vec<String>) -> (r: bool)
    ensures
        r == reachable(expr@, texts(parameters@)),
{
    let ghost all = nodes(expr@);
    let found = expr.flatten();
    for i in 0..found.len()
        invariant
            all == nodes(expr@),
            all == trees(found@),
            forall|j: int|
                0 <= j < i ==> !comes_from_outside(#[trigger] all[j], texts(parameters@)),
    {
        assert(all[i as int] == found@[i as int]@);
        if is_from_outside(found[i], parameters) {
            return true;
        }
    }
    false
}

fn is_from_outside(node: &Node, parameters: &Vec<String>) -> (r: bool)
    ensures
        r == comes_from_outside(node@, texts(parameters@)),
{
    if node.form() == Some(Form::Field) {
        let operands = node.operands();
        if operands.len() == 0 {
            return false;
        }
        assert(trees(operands@)[0] == operands@[0]@);
        return is_the_contract(operands[0]);
    }
    let name = match node.ident() {
        Some(name) => name,
        None => {
            return false;
        },
    };
    let ghost listed = texts(parameters@);
    for i in 0..parameters.len()
        invariant
            listed == texts(parameters@),
            node@.ident() == Some(name@),
            forall|j: int| 0 <= j < i ==> (#[trigger] listed[j]) != name@,
    {
        assert(listed[i as int] == parameters@[i as int]@);
        if same(parameters[i].as_str(), name) {
            return true;
        }
    }
    assert(!listed.contains(name@));
    false
}

fn panic_written(node: &Node, function: &Node, contract: &Contract) -> (r: Option<String>)
    ensures
        match r {
            Some(what) => panic_at(node@, function@, contract@) == Some(what@),
            None => panic_at(node@, function@, contract@) is None,
        },
{
    if node.form() == Some(Form::MethodCall) {
        let name = match node.name() {
            Some(name) => name,
            None => {
                return None;
            },
        };
        let operands = node.operands();
        if !(same(name, "unwrap") || same(name, "expect")) || operands.len() == 0 {
            return None;
        }
        assert(trees(operands@)[0] == operands@[0]@);
        if can_actually_fail(operands[0], contract) && caller_can_reach(
            operands[0],
            &parameter_names(function),
        ) {
            let mut what = name.to_owned();
            what.append("()");
            return Some(what);
        }
        None
    } else if node.sort() == Sort::Macro {
        let name = match node.tail() {
            Some(name) => name,
            None => {
                return None;
            },
        };
        if same(name, "panic") || same(name, "unreachable") || same(name, "todo") || same(
            name,
            "unimplemented",
        ) {
            let mut what = name.to_owned();
            what.append("!");
            return Some(what);
        }
        None
    } else {
        None
    }
}

/// An operation that cannot fail, or that nothing from outside feeds, may be
/// unwrapped: it either always works or fails the first time anybody runs it.
pub proof fn law_panic_nobody_can_cause_is_quiet(node: Tree, function: Tree, ctx: CtxView)
    requires
        node.form() == Some(Form::MethodCall),
        node.operands().len() > 0 ==> !can_fail(node.operands()[0], ctx.contract) || !reachable(
            node.operands()[0],
            parameters_of(function),
        ),
    ensures
        UnwrapInEntrypoint.seen(node, function, ctx) == Seq::<FindingView>::empty(),
{
}

/// A macro that traps every single time is reported whatever feeds it.
pub proof fn law_unconditional_panic_is_reported(
    node: Tree,
    function: Tree,
    ctx: CtxView,
    name: Seq<char>,
)
    requires
        node.sort() == Sort::Macro,
        node.tail() == Some(name),
        panicking_macro(name),
    ensures
        UnwrapInEntrypoint.seen(node, function, ctx) == seq![
            finding_at(
                "unwrap-in-entrypoint"@,
                Severity::High,
                ctx,
                node.place(),
                panic_message(name + "!"@, function),
                panic_advice(),
            ),
        ],
{
}

} // verus!
