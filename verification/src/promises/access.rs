//! What is promised of the rules on who may act and on loops.

use super::source::first_of;
use super::storage::{law_naming_a_field, this_field};
use super::words::{
    closes_with, has_in_it, in_small_letters, law_holding_is_having, law_lowering,
    lemma_one_lowering, starts,
};
use crate::declarations::FieldView;
use crate::finding::{FindingView, Severity};
use crate::lists::lemma_picked_item;
use crate::model::{grows, ContractView};
use crate::rules::access::{
    asks_the_caller, check_name, checks_authority, consults, first_operand, growth, growth_in,
    hands_out_a_place, is_compared, leads_to_target, open_function, own_growth, quoted,
    some_consult, some_value_is_fixed, takes_the_least, with_name, written_in, MissingAccessControl,
    UnboundedStorageLoop,
};
use crate::rules::{
    attributed, changes_self, field_of_self, functions_of, shown_at, written_field, CtxView,
    Pattern, Rule,
};
use crate::syntax::{nodes, Form, Sort, Tree};
use vstd::prelude::*;

verus! {

/// True for the name of something that reads like a check, in any case.
pub open spec fn check_like(name: Seq<char>) -> bool {
    exists|low: Seq<char>| #[trigger]
        in_small_letters(name, low) && (starts(low, "only_"@) || starts(low, "require_"@) || starts(
            low,
            "assert_"@,
        ) || starts(low, "ensure_"@) || has_in_it(low, "authorize"@) || has_in_it(low, "authorise"@))
}

/// True for a node that asks who is calling: a method called `msg_sender` or
/// `sender`, or a method or a function with a name like a check.
pub open spec fn asks_who(x: Tree) -> bool {
    ||| x.form() == Some(Form::MethodCall) && x.name() is Some && (x.name().unwrap()
        == "msg_sender"@ || x.name().unwrap() == "sender"@ || check_like(x.name().unwrap()))
    ||| x.form() == Some(Form::Call) && x.operands().len() > 0 && x.operands()[0].form() == Some(
        Form::Name,
    ) && x.operands()[0].tail() is Some && check_like(x.operands()[0].tail().unwrap())
}

proof fn lemma_check_like(name: Seq<char>)
    ensures
        check_name(name) <==> check_like(name),
{
    law_lowering(name);
    let low = crate::text::lowered(name);
    law_holding_is_having(low, "only_"@);
    law_holding_is_having(low, "require_"@);
    law_holding_is_having(low, "assert_"@);
    law_holding_is_having(low, "ensure_"@);
    law_holding_is_having(low, "authorize"@);
    law_holding_is_having(low, "authorise"@);
    if check_like(name) {
        let other = choose|low: Seq<char>| #[trigger]
            in_small_letters(name, low) && (starts(low, "only_"@) || starts(low, "require_"@)
                || starts(low, "assert_"@) || starts(low, "ensure_"@) || has_in_it(low, "authorize"@)
                || has_in_it(low, "authorise"@));
        lemma_one_lowering(name, other);
    }
}

/// Who asks is told by the names of what is called, and by nothing else.
pub proof fn law_who_asks_the_caller(x: Tree)
    ensures
        asks_the_caller(x) <==> asks_who(x),
{
    if x.name() is Some {
        lemma_check_like(x.name().unwrap());
    }
    if x.operands().len() > 0 && x.operands()[0].tail() is Some {
        lemma_check_like(x.operands()[0].tail().unwrap());
    }
}

/// True for a step from a field to a place in it that can be written.
pub open spec fn way_in(t: Tree) -> bool {
    ||| t.form() == Some(Form::Index)
    ||| t.form() == Some(Form::MethodCall) && t.name() is Some && (t.name().unwrap() == "setter"@
        || t.name().unwrap() == "grow"@ || closes_with(t.name().unwrap(), "_mut"@))
}

/// True for the child that a write is aimed through: what the writing method is
/// called on, and what each step to the place starts from.
pub open spec fn aimed(t: Tree, target: bool, k: int, contract: ContractView) -> bool {
    first_of(t, Sort::Expression, k) && (written_field(t, contract) is Some || target && way_in(t))
}

proof fn lemma_aimed(t: Tree, target: bool, k: int, contract: ContractView)
    requires
        0 <= k < t.children.len(),
    ensures
        leads_to_target(t, target, k, contract) <==> aimed(t, target, k, contract),
{
    if t.name() is Some {
        law_holding_is_having(t.name().unwrap(), "_mut"@);
    }
    assert(hands_out_a_place(t) <==> way_in(t));
    assert(first_operand(t, k) <==> first_of(t, Sort::Expression, k));
}

/// A node consults some fields exactly when it names one of them and no write is
/// aimed there, or when one of its children does.
pub proof fn law_where_fields_are_consulted(
    t: Tree,
    target: bool,
    names: Seq<Seq<char>>,
    contract: ContractView,
)
    ensures
        consults(t, target, names, contract) <==> {
            ||| !target && exists|field: Seq<char>| #[trigger]
                this_field(t, field) && names.contains(field)
            ||| exists|k: int|
                0 <= k < t.children.len() && #[trigger] consults(
                    t.children[k],
                    aimed(t, target, k, contract),
                    names,
                    contract,
                )
        },
{
    if let Some(field) = field_of_self(t) {
        law_naming_a_field(t, field);
    }
    if exists|field: Seq<char>| #[trigger] this_field(t, field) && names.contains(field) {
        let field = choose|field: Seq<char>| #[trigger]
            this_field(t, field) && names.contains(field);
        law_naming_a_field(t, field);
    }
    lemma_some_child_consults(t, target, names, contract, t.children.len());
}

proof fn lemma_some_child_consults(
    t: Tree,
    target: bool,
    names: Seq<Seq<char>>,
    contract: ContractView,
    n: nat,
)
    requires
        n <= t.children.len(),
    ensures
        some_consult(t, target, names, contract, n) <==> exists|k: int|
            0 <= k < n && #[trigger] consults(
                t.children[k],
                aimed(t, target, k, contract),
                names,
                contract,
            ),
    decreases n,
{
    if n > 0 {
        lemma_some_child_consults(t, target, names, contract, (n - 1) as nat);
        lemma_aimed(t, target, n - 1, contract);
        if some_consult(t, target, names, contract, n) && !some_consult(
            t,
            target,
            names,
            contract,
            (n - 1) as nat,
        ) {
            assert(consults(
                t.children[n - 1],
                aimed(t, target, n - 1, contract),
                names,
                contract,
            ));
        }
    }
}

/// The authorities are the names of the fields that are one, in the order in
/// which the fields stand.
pub proof fn law_the_authorities(contract: ContractView)
    ensures
        contract.authorities() == contract.storage.filter(
            |f: FieldView| f.is_authority(),
        ).map_values(|f: FieldView| f.name),
        contract.has_authority() <==> contract.authorities().len() > 0,
{
    lemma_authorities(contract.storage);
    let keep = |f: FieldView| f.is_authority();
    let all = contract.storage;
    if contract.has_authority() {
        let i = choose|i: int| 0 <= i < all.len() && (#[trigger] all[i]).is_authority();
        assert(keep(all[i]));
        all.lemma_filter_contains(keep, i);
    }
    if contract.authorities().len() > 0 {
        assert(all.filter(keep).len() > 0);
        all.lemma_filter_pred(keep, 0);
        assert(all.filter(keep).contains(all.filter(keep)[0]));
        all.lemma_filter_contains_rev(keep, all.filter(keep)[0]);
        let i = choose|i: int| 0 <= i < all.len() && all[i] == all.filter(keep)[0];
        assert(all[i].is_authority());
    }
}

proof fn lemma_authorities(fields: Seq<FieldView>)
    ensures
        fields.filter_map(
            |f: FieldView|
                if f.is_authority() {
                    Some(f.name)
                } else {
                    None
                },
        ) == fields.filter(|f: FieldView| f.is_authority()).map_values(|f: FieldView| f.name),
    decreases fields.len(),
{
    let pick = |f: FieldView|
        if f.is_authority() {
            Some(f.name)
        } else {
            None
        };
    let keep = |f: FieldView| f.is_authority();
    let name = |f: FieldView| f.name;
    reveal(Seq::filter);
    if fields.len() > 0 {
        lemma_authorities(fields.drop_last());
        assert(fields.filter_map(pick) =~= fields.filter(keep).map_values(name));
    } else {
        assert(fields.filter_map(pick) =~= fields.filter(keep).map_values(name));
    }
}

/// The fields that a body writes are listed each once: exactly those that some
/// node of it writes to.
pub proof fn law_written_fields_are_listed_once(body: Tree, contract: ContractView, name: Seq<char>)
    ensures
        written_in(body, contract).contains(name) <==> exists|i: int|
            0 <= i < nodes(body).len() && written_field(#[trigger] nodes(body)[i], contract) is Some
                && written_field(nodes(body)[i], contract).unwrap().name == name,
        written_in(body, contract).no_duplicates(),
{
    lemma_written_in(nodes(body), contract, name);
}

/// The written fields of some nodes, in the order in which they are first
/// written: another node adds its field behind them, unless it is there.
pub proof fn law_written_fields_keep_their_order(
    body: Tree,
    contract: ContractView,
    i: int,
    j: int,
)
    requires
        0 <= i < j < written_in(body, contract).len(),
    ensures
        exists|k: int|
            {
                &&& 0 <= k < nodes(body).len()
                &&& written_field(#[trigger] nodes(body)[k], contract) is Some
                &&& written_field(nodes(body)[k], contract).unwrap().name == written_in(
                    body,
                    contract,
                )[i]
                &&& forall|m: int|
                    0 <= m <= k && written_field(#[trigger] nodes(body)[m], contract) is Some
                        ==> written_field(nodes(body)[m], contract).unwrap().name != written_in(
                        body,
                        contract,
                    )[j]
            },
{
    lemma_written_order(nodes(body), contract, i, j);
}

spec fn gathered(found: Seq<Tree>, contract: ContractView) -> Seq<Seq<char>> {
    found.fold_left(
        Seq::empty(),
        |names: Seq<Seq<char>>, node: Tree|
            match written_field(node, contract) {
                Some(field) => with_name(names, field.name),
                None => names,
            },
    )
}

proof fn lemma_written_in(found: Seq<Tree>, contract: ContractView, name: Seq<char>)
    ensures
        gathered(found, contract).contains(name) <==> exists|i: int|
            0 <= i < found.len() && written_field(#[trigger] found[i], contract) is Some
                && written_field(found[i], contract).unwrap().name == name,
        gathered(found, contract).no_duplicates(),
    decreases found.len(),
{
    if found.len() > 0 {
        let rest = found.drop_last();
        lemma_written_in(rest, contract, name);
        let before = gathered(rest, contract);
        let after = gathered(found, contract);
        assert(forall|i: int| 0 <= i < rest.len() ==> #[trigger] rest[i] == found[i]);
        if let Some(field) = written_field(found.last(), contract) {
            assert(after == with_name(before, field.name));
            if !before.contains(field.name) {
                assert(after == before.push(field.name));
                assert(after[before.len() as int] == field.name);
                if before.contains(name) {
                    let k = choose|k: int| 0 <= k < before.len() && before[k] == name;
                    assert(after[k] == name);
                }
                if after.contains(name) && name != field.name {
                    let k = choose|k: int| 0 <= k < after.len() && after[k] == name;
                    assert(before[k] == name);
                }
            }
            if field.name == name {
                assert(written_field(found[found.len() - 1], contract) == Some(field));
            }
        }
        if exists|i: int|
            0 <= i < rest.len() && written_field(#[trigger] rest[i], contract) is Some
                && written_field(rest[i], contract).unwrap().name == name {
            let i = choose|i: int|
                0 <= i < rest.len() && written_field(#[trigger] rest[i], contract) is Some
                    && written_field(rest[i], contract).unwrap().name == name;
            assert(written_field(found[i], contract) is Some);
        }
        if exists|i: int|
            0 <= i < found.len() && written_field(#[trigger] found[i], contract) is Some
                && written_field(found[i], contract).unwrap().name == name {
            let i = choose|i: int|
                0 <= i < found.len() && written_field(#[trigger] found[i], contract) is Some
                    && written_field(found[i], contract).unwrap().name == name;
            if i < rest.len() {
                assert(written_field(rest[i], contract) is Some);
            }
        }
    }
}

proof fn lemma_written_order(found: Seq<Tree>, contract: ContractView, i: int, j: int)
    requires
        0 <= i < j < gathered(found, contract).len(),
    ensures
        exists|k: int|
            {
                &&& 0 <= k < found.len()
                &&& written_field(#[trigger] found[k], contract) is Some
                &&& written_field(found[k], contract).unwrap().name == gathered(found, contract)[i]
                &&& forall|m: int|
                    0 <= m <= k && written_field(#[trigger] found[m], contract) is Some
                        ==> written_field(found[m], contract).unwrap().name != gathered(
                        found,
                        contract,
                    )[j]
            },
    decreases found.len(),
{
    let rest = found.drop_last();
    let before = gathered(rest, contract);
    let after = gathered(found, contract);
    assert(forall|x: int| 0 <= x < rest.len() ==> #[trigger] rest[x] == found[x]);
    let a = after[i];
    let b = after[j];
    if j < before.len() {
        assert(after[i] == before[i] && after[j] == before[j]);
        lemma_written_order(rest, contract, i, j);
        let k = choose|k: int|
            {
                &&& 0 <= k < rest.len()
                &&& written_field(#[trigger] rest[k], contract) is Some
                &&& written_field(rest[k], contract).unwrap().name == before[i]
                &&& forall|m: int|
                    0 <= m <= k && written_field(#[trigger] rest[m], contract) is Some
                        ==> written_field(rest[m], contract).unwrap().name != before[j]
            };
        assert(written_field(found[k], contract) is Some);
        assert forall|m: int|
            0 <= m <= k && written_field(#[trigger] found[m], contract) is Some implies written_field(
            found[m],
            contract,
        ).unwrap().name != b by {
            assert(written_field(rest[m], contract) is Some);
        }
    } else {
        // The later name is the last one, so no earlier node writes it.
        assert(after == before.push(b));
        assert(!before.contains(b));
        lemma_written_in(rest, contract, a);
        lemma_written_in(rest, contract, b);
        assert(before[i] == a);
        assert(before.contains(a));
        let k = choose|k: int|
            0 <= k < rest.len() && written_field(#[trigger] rest[k], contract) is Some
                && written_field(rest[k], contract).unwrap().name == a;
        assert(written_field(found[k], contract) is Some);
        assert forall|m: int|
            0 <= m <= k && written_field(#[trigger] found[m], contract) is Some implies written_field(
            found[m],
            contract,
        ).unwrap().name != b by {
            assert(rest[m] == found[m]);
        }
    }
}

/// Some names are quoted one after the other, with commas between them, and no
/// names at all as `nothing`.
pub proof fn law_names_are_quoted(names: Seq<Seq<char>>, name: Seq<char>)
    ensures
        quoted(Seq::<Seq<char>>::empty()) == "nothing"@,
        quoted(seq![name]) == "`"@ + name + "`"@,
        names.len() > 0 ==> quoted(names.push(name)) == quoted(names) + ", "@ + ("`"@ + name
            + "`"@),
{
    let quote = |name: Seq<char>| "`"@ + name + "`"@;
    let one = seq![name].map_values(quote);
    assert(one.len() == 1 && one[0] == "`"@ + name + "`"@);
    let all = names.push(name).map_values(quote);
    assert(all.drop_last() =~= names.map_values(quote));
    assert(all.last() == "`"@ + name + "`"@);
}

/// What is reported about a function that anyone can call.
pub open spec fn open_to_all(function: Tree, body: Tree, ctx: CtxView) -> FindingView {
    let at = match function.first(Sort::Ident) {
        Some(ident) => ident.place(),
        None => crate::syntax::Place { line: 0, column: 0 },
    };
    FindingView {
        rule: "missing-access-control"@,
        severity: Severity::Medium,
        file: ctx.file,
        line: shown_at(at).0,
        column: shown_at(at).1,
        message: "`"@ + (match function.name() {
            Some(name) => name,
            None => Seq::empty(),
        }) + "` writes "@ + quoted(written_in(body, ctx.contract)) + " but never reads "@ + quoted(
            ctx.contract.authorities(),
        ),
        suggestion: "anyone can call this. Compare the caller against the authority the contract already declares, or say in a comment that it is meant to be open."@,
    }
}

/// True for a body in which nothing asks who is calling and no authority is
/// consulted.
pub open spec fn asks_nobody(body: Tree, contract: ContractView) -> bool {
    &&& forall|x: Tree| #[trigger] nodes(body).contains(x) ==> !asks_who(x)
    &&& !consults(body, false, contract.authorities(), contract)
}

proof fn lemma_asks_nobody(body: Tree, contract: ContractView)
    ensures
        !checks_authority(body, contract) <==> asks_nobody(body, contract),
{
    if checks_authority(body, contract) && exists|i: int|
        0 <= i < nodes(body).len() && asks_the_caller(#[trigger] nodes(body)[i]) {
        let i = choose|i: int|
            0 <= i < nodes(body).len() && asks_the_caller(#[trigger] nodes(body)[i]);
        law_who_asks_the_caller(nodes(body)[i]);
        assert(nodes(body).contains(nodes(body)[i]));
    }
    if exists|x: Tree| #[trigger] nodes(body).contains(x) && asks_who(x) {
        let x = choose|x: Tree| #[trigger] nodes(body).contains(x) && asks_who(x);
        law_who_asks_the_caller(x);
        let i = choose|i: int| 0 <= i < nodes(body).len() && nodes(body)[i] == x;
        assert(asks_the_caller(nodes(body)[i]));
    }
}

/// A function is open exactly when it takes `&mut self`, is no constructor,
/// writes a declared field somewhere in its body, and asks nobody there.
pub proof fn law_which_functions_are_open(function: Tree, ctx: CtxView)
    ensures
        open_function(function, ctx) == (if function.first(Sort::Block) is Some && changes_self(
            function,
        ) && !attributed(function, "constructor"@) && (exists|i: int|
            0 <= i < nodes(function.first(Sort::Block).unwrap()).len() && written_field(
                #[trigger] nodes(function.first(Sort::Block).unwrap())[i],
                ctx.contract,
            ) is Some) && asks_nobody(function.first(Sort::Block).unwrap(), ctx.contract) {
            Some(open_to_all(function, function.first(Sort::Block).unwrap(), ctx))
        } else {
            None
        }),
{
    if let Some(body) = function.first(Sort::Block) {
        lemma_asks_nobody(body, ctx.contract);
        let written = written_in(body, ctx.contract);
        if written.len() > 0 {
            assert(written.contains(written[0]));
            lemma_written_in(nodes(body), ctx.contract, written[0]);
            let i = choose|i: int|
                0 <= i < nodes(body).len() && written_field(
                    #[trigger] nodes(body)[i],
                    ctx.contract,
                ) is Some && written_field(nodes(body)[i], ctx.contract).unwrap().name
                    == written[0];
            assert(written_field(nodes(body)[i], ctx.contract) is Some);
        }
        if exists|i: int|
            0 <= i < nodes(body).len() && written_field(#[trigger] nodes(body)[i], ctx.contract)
                is Some {
            let i = choose|i: int|
                0 <= i < nodes(body).len() && written_field(#[trigger] nodes(body)[i], ctx.contract)
                    is Some;
            let name = written_field(nodes(body)[i], ctx.contract).unwrap().name;
            lemma_written_in(nodes(body), ctx.contract, name);
            assert(written.contains(name));
        }
    }
}

/// A public function that takes `&mut self`, is no constructor and writes a
/// declared field is reported, unless something in it is called `msg_sender`,
/// `sender` or like a check, or an authority is consulted. The contract has to
/// declare an authority.
pub proof fn law_asking_nobody_is_reported(
    file: Tree,
    function: Tree,
    body: Tree,
    ctx: CtxView,
    write: Tree,
    authority: int,
)
    requires
        functions_of(file, true).contains(function),
        function.first(Sort::Block) == Some(body),
        changes_self(function),
        !attributed(function, "constructor"@),
        nodes(body).contains(write),
        written_field(write, ctx.contract) is Some,
        0 <= authority < ctx.contract.storage.len(),
        ctx.contract.storage[authority].is_authority(),
        forall|x: Tree| #[trigger]
            nodes(body).contains(x) && x.form() == Some(Form::MethodCall) && x.name() is Some ==> {
                &&& x.name().unwrap() != "msg_sender"@
                &&& x.name().unwrap() != "sender"@
                &&& !check_like(x.name().unwrap())
            },
        forall|x: Tree| #[trigger]
            nodes(body).contains(x) && x.form() == Some(Form::Call) && x.operands().len() > 0
                && x.operands()[0].tail() is Some ==> !check_like(x.operands()[0].tail().unwrap()),
        !consults(body, false, ctx.contract.authorities(), ctx.contract),
    ensures
        MissingAccessControl.reports(file, ctx).contains(open_to_all(function, body, ctx)),
{
    let i = choose|i: int| 0 <= i < nodes(body).len() && nodes(body)[i] == write;
    assert(written_field(nodes(body)[i], ctx.contract) is Some);
    law_which_functions_are_open(function, ctx);
    assert(asks_nobody(body, ctx.contract));
    let k = choose|k: int|
        0 <= k < functions_of(file, true).len() && functions_of(file, true)[k] == function;
    lemma_picked_item(functions_of(file, true), |f: Tree| open_function(f, ctx), k);
    assert(ctx.contract.has_authority());
}

/// True for the least of several values: a method or a function called `min`.
pub open spec fn least(t: Tree) -> bool {
    ||| t.form() == Some(Form::MethodCall) && t.name() == Some("min"@) && t.operands().len() >= 2
    ||| t.form() == Some(Form::Call) && t.operands().len() >= 3 && t.operands()[0].form() == Some(
        Form::Name,
    ) && t.operands()[0].tail() == Some("min"@)
}

/// True for a child that is one of the values of which the least is taken: any
/// expression of a method call, and of a function call any but the function.
pub open spec fn one_of_several(t: Tree, k: int) -> bool {
    &&& 0 <= k < t.children.len()
    &&& t.children[k].kind is Expression
    &&& t.form() == Some(Form::MethodCall) || exists|j: int|
        0 <= j < k && (#[trigger] t.children[j]).kind is Expression
}

/// What an expression counts grows with the fields that callers can grow and that
/// are named in it, in the order in which they are named. The least of several
/// values does not grow where one of them does not.
pub proof fn law_what_makes_a_loop_long(t: Tree, contract: ContractView)
    ensures
        least(t) && (exists|k: int| #[trigger]
            one_of_several(t, k) && growth(t.children[k], contract).len() == 0) ==> growth(
            t,
            contract,
        ) == Seq::<Seq<char>>::empty(),
        !(least(t) && (exists|k: int| #[trigger]
            one_of_several(t, k) && growth(t.children[k], contract).len() == 0)) ==> growth(
            t,
            contract,
        ) == (if exists|name: Seq<char>| #[trigger]
            this_field(t, name) && contract.field(name) is Some && grows(
                contract.field(name).unwrap().sol_type,
            ) {
            seq![t.name().unwrap()]
        } else {
            Seq::empty()
        }) + t.children.flat_map(|child: Tree| growth(child, contract)),
{
    assert(takes_the_least(t) <==> least(t));
    lemma_some_fixed(t, contract, t.children.len());
    lemma_growth_of_all(t, contract, t.children.len());
    assert(t.children.take(t.children.len() as int) =~= t.children);
    if let Some(name) = field_of_self(t) {
        law_naming_a_field(t, name);
        assert(this_field(t, name));
    }
    if exists|name: Seq<char>| #[trigger]
        this_field(t, name) && contract.field(name) is Some && grows(
            contract.field(name).unwrap().sol_type,
        ) {
        let name = choose|name: Seq<char>| #[trigger]
            this_field(t, name) && contract.field(name) is Some && grows(
                contract.field(name).unwrap().sol_type,
            );
        law_naming_a_field(t, name);
        assert(own_growth(t, contract) == seq![name]);
    } else {
        assert(own_growth(t, contract) =~= Seq::empty());
    }
}

proof fn lemma_compared(t: Tree, k: int)
    requires
        0 <= k < t.children.len(),
    ensures
        is_compared(t, k) <==> one_of_several(t, k),
{
    if is_compared(t, k) && t.form() != Some(Form::MethodCall) {
        let j = choose|j: int| 0 <= j < k && (#[trigger] t.children[j]).sort() == Sort::Expression;
        assert(t.children[j].kind is Expression);
    }
}

proof fn lemma_some_fixed(t: Tree, contract: ContractView, n: nat)
    requires
        n <= t.children.len(),
    ensures
        some_value_is_fixed(t, contract, n) <==> exists|k: int|
            k < n && #[trigger] one_of_several(t, k) && growth(t.children[k], contract).len() == 0,
    decreases n,
{
    if n > 0 {
        lemma_some_fixed(t, contract, (n - 1) as nat);
        lemma_compared(t, n - 1);
        if some_value_is_fixed(t, contract, n) && !some_value_is_fixed(
            t,
            contract,
            (n - 1) as nat,
        ) {
            assert(one_of_several(t, n - 1));
        }
        if exists|k: int|
            k < n && #[trigger] one_of_several(t, k) && growth(t.children[k], contract).len()
                == 0 {
            let k = choose|k: int|
                k < n && #[trigger] one_of_several(t, k) && growth(t.children[k], contract).len()
                    == 0;
            if k < n - 1 {
                assert(k < n - 1 && one_of_several(t, k));
            }
        }
    }
}

proof fn lemma_growth_of_all(t: Tree, contract: ContractView, n: nat)
    requires
        n <= t.children.len(),
    ensures
        growth_in(t, contract, n) == t.children.take(n as int).flat_map(
            |child: Tree| growth(child, contract),
        ),
    decreases n,
{
    let grow = |child: Tree| growth(child, contract);
    if n > 0 {
        lemma_growth_of_all(t, contract, (n - 1) as nat);
        t.children.lemma_flat_map_take_append(grow, n - 1);
    } else {
        assert(t.children.take(0).flat_map(grow) =~= Seq::empty());
    }
}

/// A loop is reported once exactly when what it counts grows with something, and
/// the first of what it grows with is named. Nothing but a loop is reported.
pub proof fn law_a_loop_that_callers_can_make_long_is_reported(
    node: Tree,
    function: Tree,
    ctx: CtxView,
)
    ensures
        node.form() == Some(Form::ForLoop) && node.operands().len() > 0 && growth(
            node.operands()[0],
            ctx.contract,
        ).len() > 0 ==> UnboundedStorageLoop.seen(node, function, ctx) == seq![
            FindingView {
                rule: "unbounded-storage-loop"@,
                severity: Severity::Medium,
                file: ctx.file,
                line: shown_at(node.place()).0,
                column: shown_at(node.place()).1,
                message: "this loop is as long as `"@ + growth(
                    node.operands()[0],
                    ctx.contract,
                )[0] + "`, which callers can grow"@,
                suggestion: "once it is long enough the call runs out of gas, and whatever it protects is stuck for everyone. Page through it, or let each caller settle their own entry."@,
            },
        ],
        !(node.form() == Some(Form::ForLoop) && node.operands().len() > 0 && growth(
            node.operands()[0],
            ctx.contract,
        ).len() > 0) ==> UnboundedStorageLoop.seen(node, function, ctx) == Seq::<
            FindingView,
        >::empty(),
{
}

} // verus!
