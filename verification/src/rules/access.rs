//! Rules about who may act, and about work that grows without a bound.

use super::{
    attributed, changes_self, field_of_self, finding_at, function_name, functions,
    functions_of, has_attribute, look_in_all, mutates_self, path_tail, path_tail_of, public_impls,
    report, seen_in_all, self_member, storage_write, written_field, Ctx, CtxView, Pattern, Rule,
};
use crate::finding::{Finding, FindingView, Severity};
use crate::lists::lemma_picked_item;
use crate::model::{grows, Contract, ContractView};
use crate::order::views;
use crate::syntax::{
    lemma_child_nodes, lemma_node_or_below, nodes, trees, Form, Node, Place, Sort, Tree,
};
use crate::text::{
    begins, chars, contains, ends, ends_with, holds, joined, lower, lowered, same, starts_with,
    texts,
};
use vstd::prelude::*;

verus! {

/// A function that changes storage without asking who is calling.
///
/// This rule stays silent unless the contract itself shows it has a notion of
/// authority. A contract with no owner and no roles is either deliberately open
/// or is a different kind of mistake, and flagging every setter in it would be
/// noise rather than a finding.
pub struct MissingAccessControl;

/// Some names with another one, unless it is among them.
pub open spec fn with_name(names: Seq<Seq<char>>, name: Seq<char>) -> Seq<Seq<char>> {
    if names.contains(name) {
        names
    } else {
        names.push(name)
    }
}

/// The storage fields that a body writes, each once, in the order in which it
/// writes them first.
pub open spec fn written_in(body: Tree, contract: ContractView) -> Seq<Seq<char>> {
    nodes(body).fold_left(
        Seq::empty(),
        |names: Seq<Seq<char>>, node: Tree|
            match written_field(node, contract) {
                Some(field) => with_name(names, field.name),
                None => names,
            },
    )
}

/// True for the name of a function that reads like a check.
pub open spec fn check_name(name: Seq<char>) -> bool {
    let n = lowered(name);
    begins(n, "only_"@) || begins(n, "require_"@) || begins(n, "assert_"@) || begins(n, "ensure_"@)
        || holds(n, "authorize"@) || holds(n, "authorise"@)
}

/// True for a node that asks who is calling: a look at the sender, or a call to
/// something named like a check.
pub open spec fn asks_the_caller(t: Tree) -> bool {
    if t.form() == Some(Form::MethodCall) {
        t.name() matches Some(name) && (name == "msg_sender"@ || name == "sender"@ || check_name(
            name,
        ))
    } else if t.form() == Some(Form::Call) && t.operands().len() > 0 {
        path_tail_of(t.operands()[0]) matches Some(name) && check_name(name)
    } else {
        false
    }
}

/// True for the index of the first expression among a node's children.
pub open spec fn first_operand(t: Tree, i: int) -> bool {
    &&& t.children[i].sort() == Sort::Expression
    &&& forall|j: int| 0 <= j < i ==> (#[trigger] t.children[j]).sort() != Sort::Expression
}

/// True for a step from a field to a place in it that can be written: an index,
/// or a method such as `setter` or `get_mut`. Any other method reads the field.
pub open spec fn hands_out_a_place(t: Tree) -> bool {
    ||| t.form() == Some(Form::Index)
    ||| t.form() == Some(Form::MethodCall) && (t.name() matches Some(name) && (name == "setter"@
        || name == "grow"@ || ends(name, "_mut"@)))
}

/// True for the child that a write goes through: the receiver of the writing
/// method, and what each step of the chain that leads to the place starts from.
pub open spec fn leads_to_target(t: Tree, target: bool, i: int, contract: ContractView) -> bool {
    &&& first_operand(t, i)
    &&& written_field(t, contract) is Some || (target && hands_out_a_place(t))
}

/// True when a node consults one of some fields. Being what a write goes to is
/// not being consulted: `target` says that the node stands where a write is
/// aimed.
pub open spec fn consults(
    t: Tree,
    target: bool,
    names: Seq<Seq<char>>,
    contract: ContractView,
) -> bool
    decreases t, t.children.len() + 1,
{
    ||| !target && (field_of_self(t) matches Some(field) && names.contains(field))
    ||| some_consult(t, target, names, contract, t.children.len())
}

/// True when one of the first `n` children of a node consults one of some fields.
pub open spec fn some_consult(
    t: Tree,
    target: bool,
    names: Seq<Seq<char>>,
    contract: ContractView,
    n: nat,
) -> bool
    decreases t, n,
{
    &&& 0 < n <= t.children.len()
    &&& {
        ||| some_consult(t, target, names, contract, (n - 1) as nat)
        ||| consults(
            t.children[n - 1],
            leads_to_target(t, target, n - 1, contract),
            names,
            contract,
        )
    }
}

/// True when a body does something that could decide who may call it.
///
/// Reading the authority counts even without a visible comparison: a function
/// that loads the owner is doing so for a reason, and guessing that the reason
/// is wrong would report correct code. Writing the authority does not count.
pub open spec fn checks_authority(body: Tree, contract: ContractView) -> bool {
    ||| exists|i: int| 0 <= i < nodes(body).len() && asks_the_caller(#[trigger] nodes(body)[i])
    ||| consults(body, false, contract.authorities(), contract)
}

/// Some names as they stand in a message.
pub open spec fn quoted(names: Seq<Seq<char>>) -> Seq<char> {
    if names.len() == 0 {
        "nothing"@
    } else {
        joined(names.map_values(|name: Seq<char>| "`"@ + name + "`"@), ", "@)
    }
}

/// What is said about an open function.
pub open spec fn open_message(
    name: Seq<char>,
    writes: Seq<Seq<char>>,
    authorities: Seq<Seq<char>>,
) -> Seq<char> {
    "`"@ + name + "` writes "@ + quoted(writes) + " but never reads "@ + quoted(authorities)
}

/// What is suggested about an open function.
pub open spec fn open_advice() -> Seq<char> {
    "anyone can call this. Compare the caller against the authority the contract already declares, or say in a comment that it is meant to be open."@
}

/// Where a function's name stands.
pub open spec fn name_place(function: Tree) -> Place {
    match function.first(Sort::Ident) {
        Some(ident) => ident.place(),
        None => Place { line: 0, column: 0 },
    }
}

/// The finding about a function that changes storage without asking who is
/// calling. A constructor has no caller to ask: the SDK runs it once, at
/// deployment.
pub open spec fn open_function(function: Tree, ctx: CtxView) -> Option<FindingView> {
    match function.first(Sort::Block) {
        Some(body) => {
            let writes = written_in(body, ctx.contract);
            if changes_self(function) && !attributed(function, "constructor"@) && writes.len() > 0
                && !checks_authority(body, ctx.contract) {
                Some(
                    finding_at(
                        "missing-access-control"@,
                        Severity::Medium,
                        ctx,
                        name_place(function),
                        open_message(
                            function_name(function),
                            writes,
                            ctx.contract.authorities(),
                        ),
                        open_advice(),
                    ),
                )
            } else {
                None
            }
        },
        None => None,
    }
}

fn put_name(names: &mut Vec<String>, name: &str)
    ensures
        texts(final(names)@) == with_name(texts(old(names)@), name@),
{
    let ghost all = texts(names@);
    for i in 0..names.len()
        invariant
            all == texts(names@),
            *names == *old(names),
            forall|j: int| 0 <= j < i ==> (#[trigger] all[j]) != name@,
    {
        assert(all[i as int] == names@[i as int]@);
        if same(names[i].as_str(), name) {
            return ;
        }
    }
    assert(!all.contains(name@));
    names.push(name.to_owned());
    assert(texts(names@) =~= all.push(name@));
}

fn writes_of(body: &Node, contract: &Contract) -> (r: Vec<String>)
    ensures
        texts(r@) == written_in(body@, contract@),
{
    let ghost all = nodes(body@);
    let ghost step = |names: Seq<Seq<char>>, node: Tree|
        match written_field(node, contract@) {
            Some(field) => with_name(names, field.name),
            None => names,
        };
    let found = body.flatten();
    let mut names: Vec<String> = Vec::new();
    assert(texts(names@) =~= Seq::empty());
    assert(all.take(0).fold_left(Seq::empty(), step) =~= Seq::<Seq<char>>::empty());
    for i in 0..found.len()
        invariant
            all == trees(found@),
            step == (|names: Seq<Seq<char>>, node: Tree|
                match written_field(node, contract@) {
                    Some(field) => with_name(names, field.name),
                    None => names,
                }),
            texts(names@) == all.take(i as int).fold_left(Seq::empty(), step),
    {
        assert(all[i as int] == found@[i as int]@);
        assert(all.take(i + 1).drop_last() =~= all.take(i as int));
        if let Some(field) = storage_write(found[i], contract) {
            put_name(&mut names, field.name.as_str());
        }
    }
    assert(all.take(found@.len() as int) =~= all);
    names
}

fn is_guard_name(name: &str) -> (r: bool)
    ensures
        r == check_name(name@),
{
    let letters = chars(name);
    let low = lower(letters.as_slice());
    let lower_name = low.as_slice();
    starts_with(lower_name, "only_") || starts_with(lower_name, "require_") || starts_with(
        lower_name,
        "assert_",
    ) || starts_with(lower_name, "ensure_") || contains(lower_name, "authorize") || contains(
        lower_name,
        "authorise",
    )
}

fn asks(node: &Node) -> (r: bool)
    ensures
        r == asks_the_caller(node@),
{
    match node.form() {
        Some(Form::MethodCall) => match node.name() {
            Some(name) => same(name, "msg_sender") || same(name, "sender") || is_guard_name(name),
            None => false,
        },
        Some(Form::Call) => {
            let operands = node.operands();
            if operands.len() == 0 {
                return false;
            }
            assert(trees(operands@)[0] == operands@[0]@);
            match path_tail(operands[0]) {
                Some(name) => is_guard_name(name),
                None => false,
            }
        },
        _ => false,
    }
}

fn is_named(names: &Vec<String>, name: &str) -> (r: bool)
    ensures
        r == texts(names@).contains(name@),
{
    let ghost all = texts(names@);
    for i in 0..names.len()
        invariant
            all == texts(names@),
            forall|j: int| 0 <= j < i ==> (#[trigger] all[j]) != name@,
    {
        assert(all[i as int] == names@[i as int]@);
        if same(names[i].as_str(), name) {
            return true;
        }
    }
    false
}

/// What is consulted by some children is consulted by more of them.
proof fn lemma_one_consults(
    t: Tree,
    target: bool,
    names: Seq<Seq<char>>,
    contract: ContractView,
    n: nat,
    m: nat,
)
    requires
        some_consult(t, target, names, contract, n),
        n <= m <= t.children.len(),
    ensures
        some_consult(t, target, names, contract, m),
    decreases m - n,
{
    if n < m {
        lemma_one_consults(t, target, names, contract, n, (m - 1) as nat);
    }
}

fn is_a_way_in(node: &Node) -> (r: bool)
    ensures
        r == hands_out_a_place(node@),
{
    match node.form() {
        Some(Form::Index) => true,
        Some(Form::MethodCall) => match node.name() {
            Some(name) => same(name, "setter") || same(name, "grow") || ends_with(
                chars(name).as_slice(),
                "_mut",
            ),
            None => false,
        },
        _ => false,
    }
}

fn reads(node: &Node, target: bool, names: &Vec<String>, contract: &Contract) -> (r: bool)
    ensures
        r == consults(node@, target, texts(names@), contract@),
    decreases node,
{
    if !target {
        if let Some(field) = self_member(node) {
            if is_named(names, field) {
                return true;
            }
        }
    }
    let through = storage_write(node, contract).is_some() || (target && is_a_way_in(node));
    let mut seen_operand = false;
    let ghost all = node@.children;
    for i in 0..node.children.len()
        invariant
            all == node@.children,
            all.len() == node.children@.len(),
            !target ==> !(field_of_self(node@) matches Some(field) && texts(names@).contains(
                field,
            )),
            through == (written_field(node@, contract@) is Some || (target && hands_out_a_place(
                node@,
            ))),
            seen_operand == (exists|j: int|
                0 <= j < i && (#[trigger] all[j]).sort() == Sort::Expression),
            !some_consult(node@, target, texts(names@), contract@, i as nat),
        decreases node.children.len() - i,
    {
        let child = &node.children[i];
        assert(all[i as int] == child@);
        let operand = child.sort() == Sort::Expression;
        let aimed = through && operand && !seen_operand;
        assert(aimed == leads_to_target(node@, target, i as int, contract@));
        if reads(child, aimed, names, contract) {
            proof {
                lemma_one_consults(
                    node@,
                    target,
                    texts(names@),
                    contract@,
                    (i + 1) as nat,
                    all.len(),
                );
            }
            return true;
        }
        if operand {
            seen_operand = true;
        }
    }
    false
}

fn decides(body: &Node, authorities: &Vec<String>, contract: &Contract) -> (r: bool)
    requires
        texts(authorities@) == contract@.authorities(),
    ensures
        r == checks_authority(body@, contract@),
{
    let ghost all = nodes(body@);
    let found = body.flatten();
    for i in 0..found.len()
        invariant
            all == nodes(body@),
            all == trees(found@),
            forall|j: int| 0 <= j < i ==> !asks_the_caller(#[trigger] all[j]),
    {
        assert(all[i as int] == found@[i as int]@);
        if asks(found[i]) {
            return true;
        }
    }
    reads(body, false, authorities, contract)
}

fn list(names: &Vec<String>) -> (r: String)
    ensures
        r@ == quoted(texts(names@)),
{
    if names.len() == 0 {
        return "nothing".to_owned();
    }
    let ghost quote = |name: Seq<char>| "`"@ + name + "`"@;
    let ghost all = texts(names@).map_values(quote);
    let mut out = "`".to_owned();
    out.append(names[0].as_str());
    out.append("`");
    assert(texts(names@)[0] == names@[0]@);
    assert(all.take(1) =~= seq![all[0]]);
    for i in 1..names.len()
        invariant
            names@.len() > 0,
            quote == (|name: Seq<char>| "`"@ + name + "`"@),
            all == texts(names@).map_values(quote),
            out@ == joined(all.take(i as int), ", "@),
    {
        let ghost before = out@;
        assert(texts(names@)[i as int] == names@[i as int]@);
        assert(all.take(i + 1).drop_last() =~= all.take(i as int));
        out.append(", ");
        out.append("`");
        out.append(names[i].as_str());
        out.append("`");
        assert(out@ =~= before + ", "@ + all[i as int]);
    }
    assert(all.take(names@.len() as int) =~= all);
    out
}

fn open_finding(function: &Node, authorities: &Vec<String>, ctx: &Ctx) -> (r: Option<Finding>)
    requires
        texts(authorities@) == ctx@.contract.authorities(),
    ensures
        match r {
            Some(finding) => open_function(function@, ctx@) == Some(finding@),
            None => open_function(function@, ctx@) is None,
        },
{
    let body = match function.first(Sort::Block) {
        Some(body) => body,
        None => {
            return None;
        },
    };
    if !mutates_self(function) || has_attribute(function, "constructor") {
        return None;
    }
    let writes = writes_of(body, ctx.contract);
    assert(texts(writes@).len() == writes@.len());
    if writes.len() == 0 || decides(body, authorities, ctx.contract) {
        return None;
    }
    let mut message = "`".to_owned();
    match function.name() {
        Some(name) => {
            message.append(name);
        },
        None => {
            assert(message@ + Seq::<char>::empty() =~= message@);
        },
    }
    message.append("` writes ");
    message.append(list(&writes).as_str());
    message.append(" but never reads ");
    message.append(list(authorities).as_str());
    let at = match function.first(Sort::Ident) {
        Some(ident) => ident.place(),
        None => Place { line: 0, column: 0 },
    };
    Some(
        report(
            "missing-access-control",
            Severity::Medium,
            ctx,
            at,
            message.as_str(),
            "anyone can call this. Compare the caller against the authority the contract already declares, or say in a comment that it is meant to be open.",
        ),
    )
}

impl Rule for MissingAccessControl {
    open spec fn named(&self) -> Seq<char> {
        "missing-access-control"@
    }

    open spec fn described(&self) -> Seq<char> {
        "a public function changes storage without checking who called it"@
    }

    open spec fn weighs(&self) -> Severity {
        Severity::Medium
    }

    open spec fn reports(&self, file: Tree, ctx: CtxView) -> Seq<FindingView> {
        if ctx.contract.has_authority() {
            functions_of(file, true).filter_map(|function: Tree| open_function(function, ctx))
        } else {
            Seq::empty()
        }
    }

    fn id(&self) -> (r: &'static str) {
        "missing-access-control"
    }

    fn description(&self) -> (r: &'static str) {
        "a public function changes storage without checking who called it"
    }

    fn severity(&self) -> (r: Severity) {
        Severity::Medium
    }

    fn check(&self, file: &Node, ctx: &Ctx) -> (r: Vec<Finding>) {
        let mut r: Vec<Finding> = Vec::new();
        if !ctx.contract.has_an_authority() {
            assert(views(r@) =~= Seq::empty());
            return r;
        }
        let authorities = ctx.contract.authorities();
        let items = public_impls(file);
        let all = functions(&items);
        let ghost told = functions_of(file@, true);
        let ghost pick = |function: Tree| open_function(function, ctx@);
        assert(views(r@) =~= told.take(0).filter_map(pick));
        for i in 0..all.len()
            invariant
                told == trees(all@),
                texts(authorities@) == ctx@.contract.authorities(),
                pick == (|function: Tree| open_function(function, ctx@)),
                views(r@) == told.take(i as int).filter_map(pick),
        {
            let ghost before = views(r@);
            proof {
                told.lemma_filter_map_take_succ(pick, i as int);
            }
            assert(told[i as int] == all@[i as int]@);
            match open_finding(all[i], &authorities, ctx) {
                Some(finding) => {
                    let ghost said = finding@;
                    r.push(finding);
                    assert(views(r@) =~= before + seq![said]);
                },
                None => {
                    assert(views(r@) =~= before + Seq::empty());
                },
            }
        }
        assert(told.take(all@.len() as int) =~= told);
        r
    }
}

/// A loop whose length is decided by a collection callers can grow.
pub struct UnboundedStorageLoop;

/// True for a call of `min` on two or more values: as a method, or as a function.
pub open spec fn takes_the_least(t: Tree) -> bool {
    ||| t.form() == Some(Form::MethodCall) && t.name() == Some("min"@) && t.operands().len() >= 2
    ||| t.form() == Some(Form::Call) && t.operands().len() >= 3 && path_tail_of(t.operands()[0])
        == Some("min"@)
}

/// True for a child of a call of `min` that is one of the values compared.
pub open spec fn is_compared(t: Tree, i: int) -> bool {
    &&& t.children[i].sort() == Sort::Expression
    &&& t.form() == Some(Form::MethodCall) || !first_operand(t, i)
}

/// The name of the field that a node names, where callers can grow that field.
pub open spec fn own_growth(t: Tree, contract: ContractView) -> Seq<Seq<char>> {
    match field_of_self(t) {
        Some(name) => match contract.field(name) {
            Some(field) => if grows(field.sol_type) {
                seq![name]
            } else {
                Seq::empty()
            },
            None => Seq::empty(),
        },
        None => Seq::empty(),
    }
}

/// The fields that make what an expression counts longer as callers grow them,
/// in source order. The least of several values does not grow while one of
/// them does not.
pub open spec fn growth(t: Tree, contract: ContractView) -> Seq<Seq<char>>
    decreases t, t.children.len() + 1,
{
    if takes_the_least(t) && some_value_is_fixed(t, contract, t.children.len()) {
        Seq::empty()
    } else {
        own_growth(t, contract) + growth_in(t, contract, t.children.len())
    }
}

/// True when one of the first `n` children of a node is a value compared and
/// does not grow.
pub open spec fn some_value_is_fixed(t: Tree, contract: ContractView, n: nat) -> bool
    decreases t, n,
{
    &&& 0 < n <= t.children.len()
    &&& {
        ||| some_value_is_fixed(t, contract, (n - 1) as nat)
        ||| is_compared(t, n - 1) && growth(t.children[n - 1], contract).len() == 0
    }
}

/// What the first `n` children of a node add to its growth.
pub open spec fn growth_in(t: Tree, contract: ContractView, n: nat) -> Seq<Seq<char>>
    decreases t, n,
{
    if 0 < n <= t.children.len() {
        growth_in(t, contract, (n - 1) as nat) + growth(t.children[n - 1], contract)
    } else {
        Seq::empty()
    }
}

/// What is said about a loop that callers can make long.
pub open spec fn loop_message(field: Seq<char>) -> Seq<char> {
    "this loop is as long as `"@ + field + "`, which callers can grow"@
}

/// What is suggested about a loop that callers can make long.
pub open spec fn loop_advice() -> Seq<char> {
    "once it is long enough the call runs out of gas, and whatever it protects is stuck for everyone. Page through it, or let each caller settle their own entry."@
}

fn is_least(node: &Node) -> (r: bool)
    ensures
        r == takes_the_least(node@),
{
    let operands = node.operands();
    assert(operands@.len() == node@.operands().len());
    match node.form() {
        Some(Form::MethodCall) => match node.name() {
            Some(name) => operands.len() >= 2 && same(name, "min"),
            None => false,
        },
        Some(Form::Call) => {
            if operands.len() < 3 {
                return false;
            }
            assert(trees(operands@)[0] == operands@[0]@);
            match path_tail(operands[0]) {
                Some(name) => same(name, "min"),
                None => false,
            }
        },
        _ => false,
    }
}

fn growing_fields(node: &Node, contract: &Contract) -> (r: Vec<String>)
    ensures
        texts(r@) == growth(node@, contract@),
    decreases node,
{
    let mut names: Vec<String> = Vec::new();
    if let Some(name) = self_member(node) {
        if let Some(field) = contract.field(name) {
            if field.is_dynamic() {
                names.push(name.to_owned());
            }
        }
    }
    let ghost own = own_growth(node@, contract@);
    assert(texts(names@) =~= own);
    let least = is_least(node);
    let method = node.form() == Some(Form::MethodCall);
    let mut capped = false;
    let mut seen_operand = false;
    let ghost all = node@.children;
    assert(texts(names@) =~= own + growth_in(node@, contract@, 0));
    for i in 0..node.children.len()
        invariant
            all == node@.children,
            all.len() == node.children@.len(),
            method == (node@.form() == Some(Form::MethodCall)),
            texts(names@) == own + growth_in(node@, contract@, i as nat),
            seen_operand == (exists|j: int|
                0 <= j < i && (#[trigger] all[j]).sort() == Sort::Expression),
            capped == some_value_is_fixed(node@, contract@, i as nat),
        decreases node.children.len() - i,
    {
        let child = &node.children[i];
        assert(all[i as int] == child@);
        let ghost before = texts(names@);
        let operand = child.sort() == Sort::Expression;
        let mut more = growing_fields(child, contract);
        let ghost added = more@;
        assert(texts(added).len() == added.len());
        let compared = operand && (method || seen_operand);
        assert(compared == is_compared(node@, i as int));
        if compared && more.len() == 0 {
            capped = true;
        }
        if operand {
            seen_operand = true;
        }
        names.append(&mut more);
        assert(texts(names@) =~= before + texts(added));
        assert(texts(names@) =~= own + (growth_in(node@, contract@, i as nat) + growth(
            all[i as int],
            contract@,
        )));
    }
    if least && capped {
        let empty: Vec<String> = Vec::new();
        assert(texts(empty@) =~= Seq::empty());
        return empty;
    }
    names
}

impl Pattern for UnboundedStorageLoop {
    open spec fn seen(&self, node: Tree, function: Tree, ctx: CtxView) -> Seq<FindingView> {
        if node.form() == Some(Form::ForLoop) && node.operands().len() > 0 && growth(
            node.operands()[0],
            ctx.contract,
        ).len() > 0 {
            seq![
                finding_at(
                    "unbounded-storage-loop"@,
                    Severity::Medium,
                    ctx,
                    node.place(),
                    loop_message(growth(node.operands()[0], ctx.contract)[0]),
                    loop_advice(),
                ),
            ]
        } else {
            Seq::empty()
        }
    }

    fn see(&self, node: &Node, function: &Node, ctx: &Ctx) -> (r: Vec<Finding>) {
        let mut r: Vec<Finding> = Vec::new();
        assert(views(r@) =~= Seq::empty());
        if node.form() != Some(Form::ForLoop) {
            return r;
        }
        let operands = node.operands();
        if operands.len() == 0 {
            return r;
        }
        assert(trees(operands@)[0] == operands@[0]@);
        let dynamic = growing_fields(operands[0], ctx.contract);
        assert(texts(dynamic@).len() == dynamic@.len());
        if dynamic.len() > 0 {
            assert(texts(dynamic@)[0] == dynamic@[0]@);
            let mut message = "this loop is as long as `".to_owned();
            message.append(dynamic[0].as_str());
            message.append("`, which callers can grow");
            r.push(
                report(
                    "unbounded-storage-loop",
                    Severity::Medium,
                    ctx,
                    node.place(),
                    message.as_str(),
                    "once it is long enough the call runs out of gas, and whatever it protects is stuck for everyone. Page through it, or let each caller settle their own entry.",
                ),
            );
            assert(views(r@) =~= self.seen(node@, function@, ctx@));
        }
        r
    }
}

impl Rule for UnboundedStorageLoop {
    open spec fn named(&self) -> Seq<char> {
        "unbounded-storage-loop"@
    }

    open spec fn described(&self) -> Seq<char> {
        "a loop over storage that callers can make long enough to run out of gas"@
    }

    open spec fn weighs(&self) -> Severity {
        Severity::Medium
    }

    open spec fn reports(&self, file: Tree, ctx: CtxView) -> Seq<FindingView> {
        seen_in_all(*self, functions_of(file, true), ctx)
    }

    fn id(&self) -> (r: &'static str) {
        "unbounded-storage-loop"
    }

    fn description(&self) -> (r: &'static str) {
        "a loop over storage that callers can make long enough to run out of gas"
    }

    fn severity(&self) -> (r: Severity) {
        Severity::Medium
    }

    fn check(&self, file: &Node, ctx: &Ctx) -> (r: Vec<Finding>) {
        let items = public_impls(file);
        let all = functions(&items);
        look_in_all(self, &all, ctx)
    }
}

/// True for a node that names one of some fields of `self`.
pub open spec fn names_one(t: Tree, names: Seq<Seq<char>>) -> bool {
    field_of_self(t) matches Some(field) && names.contains(field)
}

/// True when one of some fields of `self` is named anywhere in a node.
pub open spec fn touches(t: Tree, names: Seq<Seq<char>>) -> bool {
    exists|x: Tree| #[trigger] nodes(t).contains(x) && names_one(x, names)
}

/// Consulting a field takes naming it.
pub proof fn law_consulting_takes_naming(
    t: Tree,
    target: bool,
    names: Seq<Seq<char>>,
    contract: ContractView,
)
    requires
        consults(t, target, names, contract),
    ensures
        touches(t, names),
    decreases t, t.children.len() + 1,
{
    if !target && names_one(t, names) {
        assert(nodes(t)[0] == t);
        assert(nodes(t).contains(t));
    } else {
        lemma_some_consult_names(t, target, names, contract, t.children.len());
    }
}

proof fn lemma_some_consult_names(
    t: Tree,
    target: bool,
    names: Seq<Seq<char>>,
    contract: ContractView,
    n: nat,
)
    requires
        some_consult(t, target, names, contract, n),
    ensures
        touches(t, names),
    decreases t, n,
{
    if some_consult(t, target, names, contract, (n - 1) as nat) {
        lemma_some_consult_names(t, target, names, contract, (n - 1) as nat);
    } else {
        let child = t.children[n - 1];
        law_consulting_takes_naming(
            child,
            leads_to_target(t, target, n - 1, contract),
            names,
            contract,
        );
        let x = choose|x: Tree| #[trigger] nodes(child).contains(x) && names_one(x, names);
        lemma_child_nodes(t, n - 1, x);
    }
}

/// Where nothing is written, naming a field is consulting it.
pub proof fn law_naming_without_writing_is_consulting(
    t: Tree,
    names: Seq<Seq<char>>,
    contract: ContractView,
)
    requires
        touches(t, names),
        forall|x: Tree| #[trigger] nodes(t).contains(x) ==> written_field(x, contract) is None,
    ensures
        consults(t, false, names, contract),
    decreases t,
{
    assert(nodes(t)[0] == t);
    assert(nodes(t).contains(t));
    if !names_one(t, names) {
        let x = choose|x: Tree| #[trigger] nodes(t).contains(x) && names_one(x, names);
        lemma_node_or_below(t, x);
        let k = choose|k: int|
            0 <= k < t.children.len() && #[trigger] nodes(t.children[k]).contains(x);
        let child = t.children[k];
        assert forall|y: Tree| #[trigger] nodes(child).contains(y) implies written_field(
            y,
            contract,
        ) is None by {
            lemma_child_nodes(t, k, y);
        }
        law_naming_without_writing_is_consulting(child, names, contract);
        assert(!leads_to_target(t, false, k, contract));
        assert(some_consult(t, false, names, contract, (k + 1) as nat));
        lemma_one_consults(t, false, names, contract, (k + 1) as nat, t.children.len());
    }
}

proof fn lemma_nobody_consults(
    t: Tree,
    target: bool,
    names: Seq<Seq<char>>,
    contract: ContractView,
    n: nat,
)
    requires
        n <= t.children.len(),
        forall|i: int|
            0 <= i < n ==> !#[trigger] consults(
                t.children[i],
                leads_to_target(t, target, i, contract),
                names,
                contract,
            ),
    ensures
        !some_consult(t, target, names, contract, n),
    decreases n,
{
    if n > 0 {
        lemma_nobody_consults(t, target, names, contract, (n - 1) as nat);
        assert(!consults(
            t.children[n - 1],
            leads_to_target(t, target, n - 1, contract),
            names,
            contract,
        ));
    }
}

/// Writing the authority is not reading it: a write straight to a field of
/// `self`, whose arguments name no authority, consults none, whichever field it
/// writes.
pub proof fn law_writing_is_not_consulting(
    t: Tree,
    k: int,
    names: Seq<Seq<char>>,
    contract: ContractView,
)
    requires
        written_field(t, contract) is Some,
        0 <= k < t.children.len(),
        first_operand(t, k),
        field_of_self(t.children[k]) is Some,
        forall|i: int|
            0 <= i < t.children[k].children.len() ==> !touches(
                #[trigger] t.children[k].children[i],
                names,
            ),
        forall|i: int|
            0 <= i < t.children.len() && i != k ==> !touches(#[trigger] t.children[i], names),
    ensures
        !consults(t, false, names, contract),
{
    let target = t.children[k];
    assert forall|i: int| 0 <= i < target.children.len() implies !#[trigger] consults(
        target.children[i],
        leads_to_target(target, true, i, contract),
        names,
        contract,
    ) by {
        assert(!touches(target.children[i], names));
        if consults(
            target.children[i],
            leads_to_target(target, true, i, contract),
            names,
            contract,
        ) {
            law_consulting_takes_naming(
                target.children[i],
                leads_to_target(target, true, i, contract),
                names,
                contract,
            );
        }
    }
    lemma_nobody_consults(target, true, names, contract, target.children.len());
    assert forall|i: int| 0 <= i < t.children.len() implies !#[trigger] consults(
        t.children[i],
        leads_to_target(t, false, i, contract),
        names,
        contract,
    ) by {
        if i != k && consults(
            t.children[i],
            leads_to_target(t, false, i, contract),
            names,
            contract,
        ) {
            law_consulting_takes_naming(
                t.children[i],
                leads_to_target(t, false, i, contract),
                names,
                contract,
            );
        }
    }
    lemma_nobody_consults(t, false, names, contract, t.children.len());
}

/// A contract with no notion of authority has no rule to break.
pub proof fn law_no_authority_no_finding(file: Tree, ctx: CtxView)
    requires
        !ctx.contract.has_authority(),
    ensures
        MissingAccessControl.reports(file, ctx) == Seq::<FindingView>::empty(),
{
}

/// A function that only reads is never reported, and neither is a constructor,
/// nor one that writes nothing, nor one that asks who is calling.
pub proof fn law_some_functions_are_never_open(function: Tree, ctx: CtxView)
    requires
        ({
            ||| !changes_self(function)
            ||| attributed(function, "constructor"@)
            ||| function.first(Sort::Block) matches Some(body) && (written_in(
                body,
                ctx.contract,
            ).len() == 0 || checks_authority(body, ctx.contract))
        }),
    ensures
        open_function(function, ctx) is None,
{
}

/// Every other public function that changes storage is reported, as soon as the
/// contract has a notion of authority.
pub proof fn law_open_function_is_reported(file: Tree, ctx: CtxView, i: int, body: Tree)
    requires
        ctx.contract.has_authority(),
        0 <= i < functions_of(file, true).len(),
        changes_self(functions_of(file, true)[i]),
        !attributed(functions_of(file, true)[i], "constructor"@),
        functions_of(file, true)[i].first(Sort::Block) == Some(body),
        written_in(body, ctx.contract).len() > 0,
        !checks_authority(body, ctx.contract),
    ensures
        open_function(functions_of(file, true)[i], ctx) matches Some(finding)
            && MissingAccessControl.reports(file, ctx).contains(finding),
{
    lemma_picked_item(
        functions_of(file, true),
        |function: Tree| open_function(function, ctx),
        i,
    );
}

/// A loop is reported only for a field that the contract declares and that
/// callers can grow.
pub proof fn law_only_growing_fields_make_a_loop_long(
    t: Tree,
    contract: ContractView,
    name: Seq<char>,
)
    requires
        growth(t, contract).contains(name),
    ensures
        contract.field(name) matches Some(field) && grows(field.sol_type),
    decreases t, t.children.len() + 1,
{
    let own = own_growth(t, contract);
    let inner = growth_in(t, contract, t.children.len());
    let k = choose|k: int| 0 <= k < (own + inner).len() && (own + inner)[k] == name;
    if k >= own.len() {
        assert(inner[k - own.len()] == name);
        lemma_growth_in(t, contract, t.children.len(), name);
    }
}

proof fn lemma_growth_in(t: Tree, contract: ContractView, n: nat, name: Seq<char>)
    requires
        growth_in(t, contract, n).contains(name),
    ensures
        contract.field(name) matches Some(field) && grows(field.sol_type),
    decreases t, n,
{
    if 0 < n <= t.children.len() {
        let rest = growth_in(t, contract, (n - 1) as nat);
        let last = growth(t.children[n - 1], contract);
        let k = choose|k: int| 0 <= k < (rest + last).len() && (rest + last)[k] == name;
        if k < rest.len() {
            assert(rest[k] == name);
            lemma_growth_in(t, contract, (n - 1) as nat, name);
        } else {
            assert(last[k - rest.len()] == name);
            law_only_growing_fields_make_a_loop_long(t.children[n - 1], contract, name);
        }
    }
}

/// A loop up to the least of several values is as long as the shortest of them:
/// one value that does not grow keeps the loop bounded.
pub proof fn law_a_cap_bounds_a_loop(t: Tree, contract: ContractView, k: int)
    requires
        takes_the_least(t),
        0 <= k < t.children.len(),
        is_compared(t, k),
        growth(t.children[k], contract).len() == 0,
    ensures
        growth(t, contract) == Seq::<Seq<char>>::empty(),
{
    assert(some_value_is_fixed(t, contract, (k + 1) as nat));
    lemma_fixed_value_stays(t, contract, (k + 1) as nat, t.children.len());
}

proof fn lemma_fixed_value_stays(t: Tree, contract: ContractView, n: nat, m: nat)
    requires
        some_value_is_fixed(t, contract, n),
        n <= m <= t.children.len(),
    ensures
        some_value_is_fixed(t, contract, m),
    decreases m - n,
{
    if n < m {
        lemma_fixed_value_stays(t, contract, n, (m - 1) as nat);
    }
}

} // verus!
