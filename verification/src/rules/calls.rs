//! Rules about calls that leave the contract.

use super::{
    contract_impls, external_call, finding_at, functions, functions_of, leaves, look_in_all,
    report, seen_in_all, signed, storage_write, written_field, CallView, Ctx, CtxView, Pattern, Rule,
};
use crate::finding::{Finding, FindingView, Severity};
use crate::lists::{
    lemma_gathered_from_one, lemma_gathered_item, lemma_gathered_nothing, lemma_picked_item,
};
use crate::model::ContractView;
use crate::order::views;
use crate::syntax::{nodes, trees, Form, Kind, KindView, Node, Sort, Tree};
use vstd::prelude::*;

verus! {

/// A cross contract call whose answer nobody looked at.
pub struct UncheckedCallResult;

/// The expression that a statement throws away, the one under a `?` where there
/// is one: the `?` handles the error, not the answer.
pub open spec fn thrown_away(node: Tree) -> Option<Tree> {
    if node.kind == (KindView::Statement { discarded: true }) && node.operands().len() > 0 {
        let expr = node.operands()[0];
        if expr.form() == Some(Form::Try) {
            if expr.operands().len() > 0 {
                Some(expr.operands()[0])
            } else {
                None
            }
        } else {
            Some(expr)
        }
    } else {
        None
    }
}

/// The call whose answer a statement throws away, where the interface says that
/// there is an answer.
pub open spec fn dropped_call(node: Tree, contract: ContractView) -> Option<CallView> {
    match thrown_away(node) {
        Some(expr) => match leaves(expr, contract) {
            Some(call) => if call.returns == Some(true) {
                Some(call)
            } else {
                None
            },
            None => None,
        },
        None => None,
    }
}

/// What is said about a dropped answer.
pub open spec fn dropped_message(name: Seq<char>) -> Seq<char> {
    "the result of `"@ + name + "` is discarded, and the interface says it returns one"@
}

/// What is suggested about a dropped answer.
pub open spec fn dropped_advice() -> Seq<char> {
    "bind the result and act on it. A token that reports failure by returning false rather than reverting will otherwise look like it paid."@
}

impl Pattern for UncheckedCallResult {
    open spec fn seen(&self, node: Tree, function: Tree, ctx: CtxView) -> Seq<FindingView> {
        match dropped_call(node, ctx.contract) {
            Some(call) => seq![
                finding_at(
                    "unchecked-call-result"@,
                    Severity::High,
                    ctx,
                    call.at,
                    dropped_message(call.name),
                    dropped_advice(),
                ),
            ],
            None => Seq::empty(),
        }
    }

    fn see(&self, node: &Node, function: &Node, ctx: &Ctx) -> (r: Vec<Finding>) {
        let mut r: Vec<Finding> = Vec::new();
        assert(views(r@) =~= Seq::empty());
        // `token.transfer(..)?;` as a statement: the error is handled, the
        // answer is not. That is the shape that loses money, because plenty of
        // tokens report failure by returning false rather than by reverting.
        let inner = match discarded(node) {
            Some(inner) => inner,
            None => {
                return r;
            },
        };
        if let Some(call) = external_call(inner, ctx.contract) {
            if call.returns == Some(true) {
                let mut message = "the result of `".to_owned();
                message.append(call.name.as_str());
                message.append("` is discarded, and the interface says it returns one");
                r.push(
                    report(
                        "unchecked-call-result",
                        Severity::High,
                        ctx,
                        call.at,
                        message.as_str(),
                        "bind the result and act on it. A token that reports failure by returning false rather than reverting will otherwise look like it paid.",
                    ),
                );
                assert(views(r@) =~= self.seen(node@, function@, ctx@));
            }
        }
        r
    }
}

fn discarded(node: &Node) -> (r: Option<&Node>)
    ensures
        match r {
            Some(expr) => thrown_away(node@) == Some(expr@),
            None => thrown_away(node@) is None,
        },
{
    match &node.kind {
        Kind::Statement { discarded: true } => {},
        _ => {
            return None;
        },
    }
    let operands = node.operands();
    if operands.len() == 0 {
        return None;
    }
    assert(trees(operands@)[0] == operands@[0]@);
    let expr = operands[0];
    if expr.form() == Some(Form::Try) {
        let inner = expr.operands();
        if inner.len() == 0 {
            return None;
        }
        assert(trees(inner@)[0] == inner@[0]@);
        Some(inner[0])
    } else {
        Some(expr)
    }
}

impl Rule for UncheckedCallResult {
    open spec fn named(&self) -> Seq<char> {
        "unchecked-call-result"@
    }

    open spec fn described(&self) -> Seq<char> {
        "a call to another contract whose return value is thrown away"@
    }

    open spec fn weighs(&self) -> Severity {
        Severity::High
    }

    open spec fn reports(&self, file: Tree, ctx: CtxView) -> Seq<FindingView> {
        seen_in_all(*self, functions_of(file, false), ctx)
    }

    fn id(&self) -> (r: &'static str) {
        "unchecked-call-result"
    }

    fn description(&self) -> (r: &'static str) {
        "a call to another contract whose return value is thrown away"
    }

    fn severity(&self) -> (r: Severity) {
        Severity::High
    }

    fn check(&self, file: &Node, ctx: &Ctx) -> (r: Vec<Finding>) {
        let items = contract_impls(file);
        let all = functions(&items);
        look_in_all(self, &all, ctx)
    }
}

/// Storage written after the contract has already called out.
pub struct StateWriteAfterCall;

/// True for an expression that makes a call which could come back in.
pub open spec fn calls_out(t: Tree, contract: ContractView) -> bool {
    leaves(t, contract) matches Some(call) && call.reenters
}

/// True when a statement makes a call that could come back into this contract.
pub open spec fn has_reentrant_call(stmt: Tree, contract: ContractView) -> bool {
    exists|i: int| 0 <= i < nodes(stmt).len() && calls_out(#[trigger] nodes(stmt)[i], contract)
}

/// The statements behind the first one that calls out. A statement that both
/// calls out and writes is not among them: the write inside it happens before
/// the call returns.
pub open spec fn after_the_call(stmts: Seq<Tree>, contract: ContractView) -> Seq<Tree>
    decreases stmts.len(),
{
    if stmts.len() == 0 {
        Seq::empty()
    } else if has_reentrant_call(stmts[0], contract) {
        stmts.drop_first()
    } else {
        after_the_call(stmts.drop_first(), contract)
    }
}

/// What is said about a late write.
pub open spec fn late_message(field: Seq<char>) -> Seq<char> {
    "`"@ + field + "` is written after this function has already called another contract"@
}

/// What is suggested about a late write.
pub open spec fn late_advice() -> Seq<char> {
    "move the write above the call. The storage cache is flushed for you, but the callee can still call back in and will see state that has not been updated yet."@
}

/// The finding about a node that writes storage too late. Releasing a hand
/// rolled lock after the call is the correct place for it, and is the one write
/// that has to come last.
pub open spec fn late_write(node: Tree, ctx: CtxView) -> Option<FindingView> {
    match written_field(node, ctx.contract) {
        Some(field) => if field.is_guard() {
            None
        } else {
            Some(
                finding_at(
                    "state-write-after-call"@,
                    Severity::High,
                    ctx,
                    node.place(),
                    late_message(field.name),
                    late_advice(),
                ),
            )
        },
        None => None,
    }
}

/// The findings about the writes in a statement that comes too late.
pub open spec fn late_writes(stmt: Tree, ctx: CtxView) -> Seq<FindingView> {
    nodes(stmt).filter_map(|node: Tree| late_write(node, ctx))
}

impl Pattern for StateWriteAfterCall {
    open spec fn seen(&self, node: Tree, function: Tree, ctx: CtxView) -> Seq<FindingView> {
        if node.sort() == Sort::Block {
            after_the_call(node.those(Sort::Statement), ctx.contract).flat_map(
                |stmt: Tree| late_writes(stmt, ctx),
            )
        } else {
            Seq::empty()
        }
    }

    fn see(&self, node: &Node, function: &Node, ctx: &Ctx) -> (r: Vec<Finding>) {
        let mut r: Vec<Finding> = Vec::new();
        assert(views(r@) =~= Seq::empty());
        if node.sort() != Sort::Block {
            return r;
        }
        let stmts = node.those(Sort::Statement);
        let ghost all = trees(stmts@);
        let ghost tell = |stmt: Tree| late_writes(stmt, ctx@);
        let mut start: usize = 0;
        assert(all.skip(0) =~= all);
        while start < stmts.len() && !contains_reentrant_call(stmts[start], ctx)
            invariant
                all == trees(stmts@),
                start <= all.len(),
                after_the_call(all, ctx@.contract) == after_the_call(
                    all.skip(start as int),
                    ctx@.contract,
                ),
            ensures
                start <= all.len(),
                after_the_call(all, ctx@.contract) == after_the_call(
                    all.skip(start as int),
                    ctx@.contract,
                ),
                start < all.len() ==> has_reentrant_call(all[start as int], ctx@.contract),
            decreases all.len() - start,
        {
            assert(all[start as int] == stmts@[start as int]@);
            assert(all.skip(start as int).drop_first() =~= all.skip(start + 1));
            start = start + 1;
        }
        if start == stmts.len() {
            assert(all.skip(start as int) =~= Seq::<Tree>::empty());
            assert(after_the_call(all, ctx@.contract) =~= Seq::<Tree>::empty());
            assert(Seq::<Tree>::empty().flat_map(tell) =~= Seq::empty());
            return r;
        }
        let ghost late = all.skip(start + 1);
        assert(all.skip(start as int).drop_first() =~= late);
        assert(views(r@) =~= late.take(0).flat_map(tell));
        for i in start + 1..stmts.len()
            invariant
                all == trees(stmts@),
                late == all.skip(start + 1),
                start < stmts@.len(),
                tell == (|stmt: Tree| late_writes(stmt, ctx@)),
                views(r@) == late.take(i - start - 1).flat_map(tell),
        {
            let ghost before = r@;
            proof {
                late.lemma_flat_map_take_append(tell, i - start - 1);
            }
            assert(late[i - start - 1] == stmts@[i as int]@);
            let mut more = writes_in(stmts[i], ctx);
            let ghost added = more@;
            r.append(&mut more);
            assert(views(r@) =~= views(before) + views(added));
        }
        assert(late.take(late.len() as int) =~= late);
        r
    }
}

/// True when a statement makes a call that could come back into this contract.
///
/// A static call is deliberately not one. It cannot write state and cannot make
/// a state changing call, so nothing after it is out of order because of it, and
/// treating it as an interaction reports correct code. Reading a token balance
/// before deciding what to do is the ordinary shape of a payment and must stay
/// quiet.
fn contains_reentrant_call(stmt: &Node, ctx: &Ctx) -> (r: bool)
    ensures
        r == has_reentrant_call(stmt@, ctx@.contract),
{
    let ghost all = nodes(stmt@);
    let found = stmt.flatten();
    for i in 0..found.len()
        invariant
            all == nodes(stmt@),
            all == trees(found@),
            forall|j: int| 0 <= j < i ==> !calls_out(#[trigger] all[j], ctx@.contract),
    {
        assert(all[i as int] == found@[i as int]@);
        if let Some(call) = external_call(found[i], ctx.contract) {
            if call.reenters {
                assert(calls_out(all[i as int], ctx@.contract));
                return true;
            }
        }
    }
    false
}

fn writes_in(stmt: &Node, ctx: &Ctx) -> (r: Vec<Finding>)
    ensures
        views(r@) == late_writes(stmt@, ctx@),
{
    let ghost all = nodes(stmt@);
    let ghost pick = |node: Tree| late_write(node, ctx@);
    let found = stmt.flatten();
    let mut r: Vec<Finding> = Vec::new();
    assert(views(r@) =~= all.take(0).filter_map(pick));
    for i in 0..found.len()
        invariant
            all == trees(found@),
            pick == (|node: Tree| late_write(node, ctx@)),
            views(r@) == all.take(i as int).filter_map(pick),
    {
        let ghost before = views(r@);
        proof {
            all.lemma_filter_map_take_succ(pick, i as int);
        }
        assert(all[i as int] == found@[i as int]@);
        match late_finding(found[i], ctx) {
            Some(finding) => {
                let ghost told = finding@;
                r.push(finding);
                assert(views(r@) =~= before + seq![told]);
            },
            None => {
                assert(views(r@) =~= before + Seq::empty());
            },
        }
    }
    assert(all.take(found@.len() as int) =~= all);
    r
}

fn late_finding(node: &Node, ctx: &Ctx) -> (r: Option<Finding>)
    ensures
        match r {
            Some(finding) => late_write(node@, ctx@) == Some(finding@),
            None => late_write(node@, ctx@) is None,
        },
{
    match storage_write(node, ctx.contract) {
        Some(field) => {
            if field.looks_like_a_guard() {
                return None;
            }
            let mut message = "`".to_owned();
            message.append(field.name.as_str());
            message.append("` is written after this function has already called another contract");
            Some(
                report(
                    "state-write-after-call",
                    Severity::High,
                    ctx,
                    node.place(),
                    message.as_str(),
                    "move the write above the call. The storage cache is flushed for you, but the callee can still call back in and will see state that has not been updated yet.",
                ),
            )
        },
        None => None,
    }
}

impl Rule for StateWriteAfterCall {
    open spec fn named(&self) -> Seq<char> {
        "state-write-after-call"@
    }

    open spec fn described(&self) -> Seq<char> {
        "storage changed after an external call, against checks effects interactions"@
    }

    open spec fn weighs(&self) -> Severity {
        Severity::High
    }

    open spec fn reports(&self, file: Tree, ctx: CtxView) -> Seq<FindingView> {
        seen_in_all(*self, functions_of(file, false), ctx)
    }

    fn id(&self) -> (r: &'static str) {
        "state-write-after-call"
    }

    fn description(&self) -> (r: &'static str) {
        "storage changed after an external call, against checks effects interactions"
    }

    fn severity(&self) -> (r: Severity) {
        Severity::High
    }

    fn check(&self, file: &Node, ctx: &Ctx) -> (r: Vec<Finding>) {
        let items = contract_impls(file);
        let all = functions(&items);
        look_in_all(self, &all, ctx)
    }
}

/// What is said about late writes is signed by the rule that says it.
pub proof fn lemma_late_writes_signed(
    rule: StateWriteAfterCall,
    node: Tree,
    function: Tree,
    ctx: CtxView,
    finding: FindingView,
)
    requires
        rule.seen(node, function, ctx).contains(finding),
    ensures
        signed("state-write-after-call"@, ctx, finding),
{
    let late = after_the_call(node.those(Sort::Statement), ctx.contract);
    let tell = |stmt: Tree| late_writes(stmt, ctx);
    lemma_gathered_from_one(late, tell, finding);
    let i = choose|i: int| 0 <= i < late.len() && tell(#[trigger] late[i]).contains(finding);
    nodes(late[i]).lemma_filter_map_contains(|n: Tree| late_write(n, ctx), finding);
}

/// A call that has nothing to answer is never reported for its answer.
pub proof fn law_void_call_has_no_answer_to_drop(node: Tree, function: Tree, ctx: CtxView)
    requires
        thrown_away(node) matches Some(expr) ==> (leaves(expr, ctx.contract) matches Some(call)
            ==> call.returns != Some(true)),
    ensures
        UncheckedCallResult.seen(node, function, ctx) == Seq::<FindingView>::empty(),
{
}

/// An answer that is bound, or handed on, is never reported: only a statement
/// that throws its expression away is.
pub proof fn law_used_answer_is_quiet(node: Tree, function: Tree, ctx: CtxView)
    requires
        node.kind != (KindView::Statement { discarded: true }),
    ensures
        UncheckedCallResult.seen(node, function, ctx) == Seq::<FindingView>::empty(),
{
}

proof fn lemma_no_call_nothing_late(stmts: Seq<Tree>, contract: ContractView)
    requires
        forall|i: int|
            0 <= i < stmts.len() ==> !has_reentrant_call(#[trigger] stmts[i], contract),
    ensures
        after_the_call(stmts, contract) == Seq::<Tree>::empty(),
    decreases stmts.len(),
{
    if stmts.len() > 0 {
        let rest = stmts.drop_first();
        assert forall|i: int| 0 <= i < rest.len() implies !has_reentrant_call(
            #[trigger] rest[i],
            contract,
        ) by {
            assert(rest[i] == stmts[i + 1]);
        }
        lemma_no_call_nothing_late(rest, contract);
    }
}

/// In a block that makes no call which could come back in, no write is late,
/// however many static calls it makes.
pub proof fn law_no_write_is_late_without_a_call(block: Tree, function: Tree, ctx: CtxView)
    requires
        block.sort() == Sort::Block,
        forall|i: int|
            0 <= i < block.those(Sort::Statement).len() ==> !has_reentrant_call(
                #[trigger] block.those(Sort::Statement)[i],
                ctx.contract,
            ),
    ensures
        StateWriteAfterCall.seen(block, function, ctx) == Seq::<FindingView>::empty(),
{
    lemma_no_call_nothing_late(block.those(Sort::Statement), ctx.contract);
    lemma_gathered_nothing(Seq::<Tree>::empty(), |stmt: Tree| late_writes(stmt, ctx));
}

/// What comes before the first call that could come back in is in order, and
/// so is the statement that makes it; everything behind it is looked at.
pub proof fn law_only_what_follows_the_call_is_late(
    before: Seq<Tree>,
    call: Tree,
    after: Seq<Tree>,
    contract: ContractView,
)
    requires
        forall|i: int|
            0 <= i < before.len() ==> !has_reentrant_call(#[trigger] before[i], contract),
        has_reentrant_call(call, contract),
    ensures
        after_the_call(before + seq![call] + after, contract) == after,
    decreases before.len(),
{
    let all = before + seq![call] + after;
    if before.len() == 0 {
        assert(all[0] == call);
        assert(all.drop_first() =~= after);
    } else {
        let rest = before.drop_first();
        assert forall|i: int| 0 <= i < rest.len() implies !has_reentrant_call(
            #[trigger] rest[i],
            contract,
        ) by {
            assert(rest[i] == before[i + 1]);
        }
        assert(all[0] == before[0]);
        assert(all.drop_first() =~= rest + seq![call] + after);
        law_only_what_follows_the_call_is_late(rest, call, after, contract);
    }
}

/// Every write behind the call is reported, a lock being released aside.
pub proof fn law_late_write_is_reported(
    block: Tree,
    function: Tree,
    ctx: CtxView,
    i: int,
    j: int,
)
    requires
        block.sort() == Sort::Block,
        0 <= i < after_the_call(block.those(Sort::Statement), ctx.contract).len(),
        0 <= j < nodes(after_the_call(block.those(Sort::Statement), ctx.contract)[i]).len(),
        late_write(
            nodes(after_the_call(block.those(Sort::Statement), ctx.contract)[i])[j],
            ctx,
        ) is Some,
    ensures
        StateWriteAfterCall.seen(block, function, ctx).contains(
            late_write(
                nodes(after_the_call(block.those(Sort::Statement), ctx.contract)[i])[j],
                ctx,
            ).unwrap(),
        ),
{
    let late = after_the_call(block.those(Sort::Statement), ctx.contract);
    let pick = |n: Tree| late_write(n, ctx);
    lemma_picked_item(nodes(late[i]), pick, j);
    lemma_gathered_item(
        late,
        |stmt: Tree| late_writes(stmt, ctx),
        i,
        late_write(nodes(late[i])[j], ctx).unwrap(),
    );
}

/// Releasing a hand rolled lock is never late.
pub proof fn law_releasing_a_lock_is_never_late(node: Tree, ctx: CtxView)
    requires
        written_field(node, ctx.contract) matches Some(field) && field.is_guard(),
    ensures
        late_write(node, ctx) is None,
{
}

} // verus!
