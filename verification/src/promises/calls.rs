//! What is promised of calls that leave the contract.

use super::words::{has_in_it, law_holding_is_having};
use crate::finding::{FindingView, Severity};
use crate::lists::{lemma_gathered_item, lemma_picked_item};
use crate::model::ContractView;
use crate::rules::calls::{
    after_the_call, has_reentrant_call, late_write, late_writes,
    law_only_what_follows_the_call_is_late, StateWriteAfterCall, UncheckedCallResult,
};
use crate::rules::{
    context_in, first_context, leaves, names_a_call, names_a_mutating_call, shown_at,
    written_field, CallView, CtxView, Pattern,
};
use crate::syntax::{nodes, Form, KindView, Sort, Tree};
use vstd::prelude::*;

verus! {

/// True for an expression in which one of the SDK's call types is named.
pub open spec fn spells_out_a_context(t: Tree) -> bool {
    exists|x: Tree| #[trigger] nodes(t).contains(x) && under_a_call_type(x)
}

/// True for an expression in which a mutating call of the SDK is named.
pub open spec fn spells_out_a_mutating_context(t: Tree) -> bool {
    exists|x: Tree| #[trigger]
        nodes(t).contains(x) && under_a_call_type(x) && x.last_name() is Some && has_in_it(
            x.last_name().unwrap(),
            "mutating"@,
        )
}

/// True for a path that starts with `Call` or `RawCall`.
pub open spec fn under_a_call_type(x: Tree) -> bool {
    x.sort() == Sort::Path && (x.name() == Some("Call"@) || x.name() == Some("RawCall"@))
}

/// True for the first argument of a method call that spells out a context.
pub open spec fn decides(call: Tree, k: int) -> bool {
    &&& 1 <= k < call.operands().len()
    &&& spells_out_a_context(call.operands()[k])
    &&& forall|j: int| 1 <= j < k ==> !spells_out_a_context(#[trigger] call.operands()[j])
}

/// True for a method call none of whose arguments spells out a context.
pub open spec fn leaves_it_open(call: Tree) -> bool {
    forall|k: int|
        1 <= k < call.operands().len() ==> !spells_out_a_context(#[trigger] call.operands()[k])
}

proof fn lemma_context(t: Tree)
    ensures
        context_in(t) is Some <==> spells_out_a_context(t),
        context_in(t) is Some ==> context_in(t) == Some(spells_out_a_mutating_context(t)),
{
    if context_in(t) is Some {
        let i = choose|i: int| 0 <= i < nodes(t).len() && names_a_call(#[trigger] nodes(t)[i]);
        assert(nodes(t).contains(nodes(t)[i]));
        assert(under_a_call_type(nodes(t)[i]));
    }
    if spells_out_a_context(t) {
        let x = choose|x: Tree| #[trigger] nodes(t).contains(x) && under_a_call_type(x);
        let i = choose|i: int| 0 <= i < nodes(t).len() && nodes(t)[i] == x;
        assert(names_a_call(nodes(t)[i]));
    }
    if exists|i: int| 0 <= i < nodes(t).len() && names_a_mutating_call(#[trigger] nodes(t)[i]) {
        let i = choose|i: int|
            0 <= i < nodes(t).len() && names_a_mutating_call(#[trigger] nodes(t)[i]);
        let x = nodes(t)[i];
        law_holding_is_having(x.last_name().unwrap(), "mutating"@);
        assert(nodes(t).contains(x));
        assert(spells_out_a_mutating_context(t));
    }
    if spells_out_a_mutating_context(t) {
        let x = choose|x: Tree| #[trigger]
            nodes(t).contains(x) && under_a_call_type(x) && x.last_name() is Some && has_in_it(
                x.last_name().unwrap(),
                "mutating"@,
            );
        law_holding_is_having(x.last_name().unwrap(), "mutating"@);
        let i = choose|i: int| 0 <= i < nodes(t).len() && nodes(t)[i] == x;
        assert(names_a_mutating_call(nodes(t)[i]));
    }
}

proof fn lemma_first_context(arguments: Seq<Tree>)
    ensures
        forall|k: int|
            0 <= k < arguments.len() && #[trigger] spells_out_a_context(arguments[k]) && (forall|
                j: int,
            |
                0 <= j < k ==> !spells_out_a_context(#[trigger] arguments[j])) ==> first_context(
                arguments,
            ) == Some(spells_out_a_mutating_context(arguments[k])),
        (forall|k: int|
            0 <= k < arguments.len() ==> !spells_out_a_context(#[trigger] arguments[k]))
            ==> first_context(arguments) is None,
    decreases arguments.len(),
{
    if arguments.len() > 0 {
        let rest = arguments.drop_first();
        lemma_context(arguments[0]);
        lemma_first_context(rest);
        assert(forall|i: int| 0 <= i < rest.len() ==> #[trigger] rest[i] == arguments[i + 1]);
        assert forall|k: int|
            0 <= k < arguments.len() && #[trigger] spells_out_a_context(arguments[k]) && (forall|
                j: int,
            |
                0 <= j < k ==> !spells_out_a_context(#[trigger] arguments[j])) implies first_context(
            arguments,
        ) == Some(spells_out_a_mutating_context(arguments[k])) by {
            if k > 0 {
                assert(!spells_out_a_context(arguments[0]));
                assert(spells_out_a_context(rest[k - 1]));
                assert forall|j: int| 0 <= j < k - 1 implies !spells_out_a_context(
                    #[trigger] rest[j],
                ) by {
                    assert(!spells_out_a_context(arguments[j + 1]));
                }
            }
        }
        if forall|k: int|
            0 <= k < arguments.len() ==> !spells_out_a_context(#[trigger] arguments[k]) {
            assert(!spells_out_a_context(arguments[0]));
            assert forall|k: int| 0 <= k < rest.len() implies !spells_out_a_context(
                #[trigger] rest[k],
            ) by {
                assert(!spells_out_a_context(arguments[k + 1]));
            }
        }
    }
}

proof fn lemma_context_of_a_call(call: Tree)
    requires
        call.operands().len() > 0,
    ensures
        forall|k: int| #[trigger]
            decides(call, k) ==> first_context(call.operands().drop_first()) == Some(
                spells_out_a_mutating_context(call.operands()[k]),
            ),
        leaves_it_open(call) ==> first_context(call.operands().drop_first()) is None,
{
    let all = call.operands();
    let arguments = all.drop_first();
    lemma_first_context(arguments);
    assert(forall|i: int| 0 <= i < arguments.len() ==> #[trigger] arguments[i] == all[i + 1]);
    assert forall|k: int| #[trigger] decides(call, k) implies first_context(arguments) == Some(
        spells_out_a_mutating_context(all[k]),
    ) by {
        assert(spells_out_a_context(arguments[k - 1]));
        assert forall|j: int| 0 <= j < k - 1 implies !spells_out_a_context(
            #[trigger] arguments[j],
        ) by {
            assert(!spells_out_a_context(all[j + 1]));
        }
    }
    if leaves_it_open(call) {
        assert forall|k: int| 0 <= k < arguments.len() implies !spells_out_a_context(
            #[trigger] arguments[k],
        ) by {
            assert(!spells_out_a_context(all[k + 1]));
        }
    }
}

/// A call of a declared function is recognised by its name, whatever its
/// arguments are. The declaration says whether there is an answer; whether the
/// call can come back in is said by the first argument that spells out a
/// context, and by the declaration where none does.
pub proof fn law_a_declared_function_is_recognised(
    t: Tree,
    contract: ContractView,
    name: Seq<char>,
    k: int,
)
    requires
        t.form() == Some(Form::MethodCall),
        t.name() == Some(name),
        contract.method(name) is Some,
    ensures
        leaves(t, contract) is Some,
        leaves(t, contract).unwrap().at == t.place(),
        leaves(t, contract).unwrap().name == name,
        leaves(t, contract).unwrap().returns == Some(contract.method(name).unwrap().returns),
        decides(t, k) ==> leaves(t, contract).unwrap().reenters == spells_out_a_mutating_context(
            t.operands()[k],
        ),
        leaves_it_open(t) ==> leaves(t, contract).unwrap().reenters == contract.method(
            name,
        ).unwrap().mutates,
{
    if t.operands().len() > 0 {
        lemma_context_of_a_call(t);
    }
}

/// A method that nobody declared is a call out of the contract exactly when an
/// argument spells out a context, and then nothing is known of its answer.
pub proof fn law_a_context_gives_a_call_away(
    t: Tree,
    contract: ContractView,
    name: Seq<char>,
    k: int,
)
    requires
        t.form() == Some(Form::MethodCall),
        t.name() == Some(name),
        contract.method(name) is None,
    ensures
        decides(t, k) ==> leaves(t, contract) == Some(
            CallView {
                at: t.place(),
                name,
                returns: None,
                reenters: spells_out_a_mutating_context(t.operands()[k]),
            },
        ),
        leaves_it_open(t) ==> leaves(t, contract) is None,
{
    if t.operands().len() > 0 {
        lemma_context_of_a_call(t);
    }
}

/// Of plain function calls five leave the contract, on whatever path: one is
/// static and the others can come back in. Nothing but a method call or a
/// function call leaves the contract.
pub proof fn law_raw_calls_are_named_outright(t: Tree, contract: ContractView, name: Seq<char>)
    ensures
        t.form() == Some(Form::Call) && t.operands().len() > 0 && t.operands()[0].form() == Some(
            Form::Name,
        ) && t.operands()[0].tail() == Some(name) ==> {
            let call = CallView { at: t.place(), name, returns: None, reenters: true };
            if name == "static_call"@ {
                leaves(t, contract) == Some(CallView { reenters: false, ..call })
            } else if seq!["call"@, "delegate_call"@, "transfer_eth"@, "raw_call"@].contains(name) {
                leaves(t, contract) == Some(call)
            } else {
                leaves(t, contract) is None
            }
        },
        t.form() == Some(Form::Call) && (t.operands().len() == 0 || t.operands()[0].form() != Some(
            Form::Name,
        ) || t.operands()[0].tail() is None) ==> leaves(t, contract) is None,
        t.form() != Some(Form::Call) && t.form() != Some(Form::MethodCall) ==> leaves(
            t,
            contract,
        ) is None,
        t.form() == Some(Form::MethodCall) && t.name() is None ==> leaves(t, contract) is None,
{
    let others = seq!["call"@, "delegate_call"@, "transfer_eth"@, "raw_call"@];
    assert(others[0] == "call"@ && others[1] == "delegate_call"@ && others[2] == "transfer_eth"@
        && others[3] == "raw_call"@);
    reveal_strlit("static_call");
    reveal_strlit("call");
    reveal_strlit("delegate_call");
    reveal_strlit("transfer_eth");
    reveal_strlit("raw_call");
}

/// True for a statement that throws away an expression, or what is under a `?`.
pub open spec fn throws_away(stmt: Tree, expr: Tree) -> bool {
    &&& stmt.kind == (KindView::Statement { discarded: true })
    &&& stmt.operands().len() > 0
    &&& if stmt.operands()[0].form() == Some(Form::Try) {
        stmt.operands()[0].operands().len() > 0 && stmt.operands()[0].operands()[0] == expr
    } else {
        stmt.operands()[0] == expr
    }
}

/// What is reported about an answer that is thrown away.
pub open spec fn dropped(call: CallView, ctx: CtxView) -> FindingView {
    FindingView {
        rule: "unchecked-call-result"@,
        severity: Severity::High,
        file: ctx.file,
        line: shown_at(call.at).0,
        column: shown_at(call.at).1,
        message: "the result of `"@ + call.name
            + "` is discarded, and the interface says it returns one"@,
        suggestion: "bind the result and act on it. A token that reports failure by returning false rather than reverting will otherwise look like it paid."@,
    }
}

/// An answer that is thrown away is reported once, where the call leaves the
/// contract and is known to have one.
pub proof fn law_a_dropped_answer_is_reported(
    stmt: Tree,
    expr: Tree,
    function: Tree,
    ctx: CtxView,
)
    requires
        throws_away(stmt, expr),
    ensures
        leaves(expr, ctx.contract) matches Some(call) && call.returns == Some(true)
            ==> UncheckedCallResult.seen(stmt, function, ctx) == seq![
            dropped(leaves(expr, ctx.contract).unwrap(), ctx),
        ],
        !(leaves(expr, ctx.contract) matches Some(call) && call.returns == Some(true))
            ==> UncheckedCallResult.seen(stmt, function, ctx) == Seq::<FindingView>::empty(),
{
}

/// A call of a function that is declared to return something is reported once
/// when its answer is thrown away, with a `?` or without, whatever its arguments.
pub proof fn law_a_declared_answer_is_not_forgotten(
    stmt: Tree,
    call: Tree,
    function: Tree,
    ctx: CtxView,
    name: Seq<char>,
)
    requires
        throws_away(stmt, call),
        call.form() == Some(Form::MethodCall),
        call.name() == Some(name),
        ctx.contract.method(name) matches Some(method) && method.returns,
    ensures
        UncheckedCallResult.seen(stmt, function, ctx).len() == 1,
        UncheckedCallResult.seen(stmt, function, ctx)[0].rule == "unchecked-call-result"@,
        UncheckedCallResult.seen(stmt, function, ctx)[0].line == shown_at(call.place()).0,
        UncheckedCallResult.seen(stmt, function, ctx)[0].column == shown_at(call.place()).1,
        UncheckedCallResult.seen(stmt, function, ctx)[0].message == "the result of `"@ + name
            + "` is discarded, and the interface says it returns one"@,
{
    law_a_declared_function_is_recognised(call, ctx.contract, name, 0);
    law_a_dropped_answer_is_reported(stmt, call, function, ctx);
}

/// Nothing else is reported about answers.
pub proof fn law_only_a_dropped_answer_is_reported(node: Tree, function: Tree, ctx: CtxView)
    requires
        forall|expr: Tree| !throws_away(node, expr),
    ensures
        UncheckedCallResult.seen(node, function, ctx) == Seq::<FindingView>::empty(),
{
    if node.kind == (KindView::Statement { discarded: true }) && node.operands().len() > 0 {
        let expr = node.operands()[0];
        if expr.form() == Some(Form::Try) {
            if expr.operands().len() > 0 {
                assert(throws_away(node, expr.operands()[0]));
            }
        } else {
            assert(throws_away(node, expr));
        }
    }
}

/// True for a statement in which a call is made that can come back in.
pub open spec fn calls_back(stmt: Tree, contract: ContractView) -> bool {
    exists|x: Tree| #[trigger]
        nodes(stmt).contains(x) && leaves(x, contract) is Some && leaves(
            x,
            contract,
        ).unwrap().reenters
}

/// What is reported about a write behind such a call.
pub open spec fn late(node: Tree, field: Seq<char>, ctx: CtxView) -> FindingView {
    FindingView {
        rule: "state-write-after-call"@,
        severity: Severity::High,
        file: ctx.file,
        line: shown_at(node.place()).0,
        column: shown_at(node.place()).1,
        message: "`"@ + field
            + "` is written after this function has already called another contract"@,
        suggestion: "move the write above the call. The storage cache is flushed for you, but the callee can still call back in and will see state that has not been updated yet."@,
    }
}

/// True for the first statement of a block that makes a call which can come back
/// in.
pub open spec fn first_to_call_back(block: Tree, contract: ContractView, i: int) -> bool {
    let stmts = block.those(Sort::Statement);
    &&& 0 <= i < stmts.len()
    &&& calls_back(stmts[i], contract)
    &&& forall|j: int| 0 <= j < i ==> !calls_back(#[trigger] stmts[j], contract)
}

proof fn lemma_calls_back(stmt: Tree, contract: ContractView)
    ensures
        has_reentrant_call(stmt, contract) <==> calls_back(stmt, contract),
{
    if has_reentrant_call(stmt, contract) {
        let i = choose|i: int|
            0 <= i < nodes(stmt).len() && crate::rules::calls::calls_out(
                #[trigger] nodes(stmt)[i],
                contract,
            );
        assert(nodes(stmt).contains(nodes(stmt)[i]));
    }
    if calls_back(stmt, contract) {
        let x = choose|x: Tree| #[trigger]
            nodes(stmt).contains(x) && leaves(x, contract) is Some && leaves(
                x,
                contract,
            ).unwrap().reenters;
        let i = choose|i: int| 0 <= i < nodes(stmt).len() && nodes(stmt)[i] == x;
        assert(crate::rules::calls::calls_out(nodes(stmt)[i], contract));
    }
}

proof fn lemma_behind_the_call(block: Tree, contract: ContractView, i: int)
    requires
        first_to_call_back(block, contract, i),
    ensures
        after_the_call(block.those(Sort::Statement), contract) == block.those(Sort::Statement).skip(
            i + 1,
        ),
{
    let stmts = block.those(Sort::Statement);
    let before = stmts.take(i);
    let after = stmts.skip(i + 1);
    assert(stmts =~= before + seq![stmts[i]] + after);
    lemma_calls_back(stmts[i], contract);
    assert forall|j: int| 0 <= j < before.len() implies !has_reentrant_call(
        #[trigger] before[j],
        contract,
    ) by {
        lemma_calls_back(stmts[j], contract);
        assert(before[j] == stmts[j]);
    }
    law_only_what_follows_the_call_is_late(before, stmts[i], after, contract);
}

/// Every write behind the first call that can come back in is reported, whatever
/// the type of the field, unless what is written is a lock.
pub proof fn law_every_write_behind_the_call_is_reported(
    block: Tree,
    function: Tree,
    ctx: CtxView,
    i: int,
    k: int,
    node: Tree,
)
    requires
        block.kind is Block,
        first_to_call_back(block, ctx.contract, i),
        i < k < block.those(Sort::Statement).len(),
        nodes(block.those(Sort::Statement)[k]).contains(node),
        written_field(node, ctx.contract) is Some,
        !written_field(node, ctx.contract).unwrap().is_guard(),
    ensures
        StateWriteAfterCall.seen(block, function, ctx).contains(
            late(node, written_field(node, ctx.contract).unwrap().name, ctx),
        ),
{
    lemma_behind_the_call(block, ctx.contract, i);
    let stmts = block.those(Sort::Statement);
    let behind = stmts.skip(i + 1);
    let stmt = stmts[k];
    assert(behind[k - i - 1] == stmt);
    let pick = |n: Tree| late_write(n, ctx);
    let m = choose|m: int| 0 <= m < nodes(stmt).len() && nodes(stmt)[m] == node;
    lemma_picked_item(nodes(stmt), pick, m);
    let told = late(node, written_field(node, ctx.contract).unwrap().name, ctx);
    assert(late_write(node, ctx) == Some(told));
    lemma_gathered_item(behind, |s: Tree| late_writes(s, ctx), k - i - 1, told);
}

/// What is reported of a block is its late writes, statement by statement and
/// node by node: the writes to what is no lock, in the statements behind the
/// first that makes a call which can come back in. Where none makes one, nothing
/// is late, and nothing but a block is looked at for this.
pub proof fn law_late_writes_are_reported_in_order(
    block: Tree,
    function: Tree,
    ctx: CtxView,
    i: int,
)
    ensures
        block.kind is Block && first_to_call_back(block, ctx.contract, i)
            ==> StateWriteAfterCall.seen(block, function, ctx) == block.those(Sort::Statement).skip(
            i + 1,
        ).flat_map(
            |stmt: Tree|
                nodes(stmt).filter_map(
                    |node: Tree|
                        match written_field(node, ctx.contract) {
                            Some(field) => if field.is_guard() {
                                None
                            } else {
                                Some(late(node, field.name, ctx))
                            },
                            None => None,
                        },
                ),
        ),
        block.kind is Block && (forall|j: int| !first_to_call_back(block, ctx.contract, j))
            ==> StateWriteAfterCall.seen(block, function, ctx) == Seq::<FindingView>::empty(),
        block.kind !is Block ==> StateWriteAfterCall.seen(block, function, ctx) == Seq::<
            FindingView,
        >::empty(),
{
    let stmts = block.those(Sort::Statement);
    let tell = |stmt: Tree| late_writes(stmt, ctx);
    let retell = |stmt: Tree|
        nodes(stmt).filter_map(
            |node: Tree|
                match written_field(node, ctx.contract) {
                    Some(field) => if field.is_guard() {
                        None
                    } else {
                        Some(late(node, field.name, ctx))
                    },
                    None => None,
                },
        );
    if block.kind is Block && first_to_call_back(block, ctx.contract, i) {
        lemma_behind_the_call(block, ctx.contract, i);
        assert forall|stmt: Tree| tell(stmt) == #[trigger] retell(stmt) by {
            let pick = |node: Tree| late_write(node, ctx);
            let again = |node: Tree|
                match written_field(node, ctx.contract) {
                    Some(field) => if field.is_guard() {
                        None
                    } else {
                        Some(late(node, field.name, ctx))
                    },
                    None => None::<FindingView>,
                };
            assert(pick =~= again);
        }
        assert(tell =~= retell);
    }
    if block.kind is Block && (forall|j: int| !first_to_call_back(block, ctx.contract, j)) {
        lemma_nobody_calls_back(block, ctx.contract, stmts.len() as int);
        assert forall|j: int| 0 <= j < stmts.len() implies !has_reentrant_call(
            #[trigger] stmts[j],
            ctx.contract,
        ) by {
            lemma_calls_back(stmts[j], ctx.contract);
        }
        crate::rules::calls::law_no_write_is_late_without_a_call(block, function, ctx);
    }
}

proof fn lemma_nobody_calls_back(block: Tree, contract: ContractView, n: int)
    requires
        forall|j: int| !first_to_call_back(block, contract, j),
        0 <= n <= block.those(Sort::Statement).len(),
    ensures
        forall|j: int|
            0 <= j < n ==> !calls_back(#[trigger] block.those(Sort::Statement)[j], contract),
    decreases n,
{
    if n > 0 {
        lemma_nobody_calls_back(block, contract, n - 1);
        assert(!first_to_call_back(block, contract, n - 1));
    }
}

} // verus!
