//! What is promised of what is known about a contract.

use super::words::{
    bare, blank, closes_with, has_in_it, in_small_letters, law_holding_is_having, law_trimming,
    lemma_one_lowering, starts,
};
use crate::declarations::{methods_in, storage_in, FieldView, MethodView};
use crate::model::{
    declared, field_named, grows, learned, learned_from, listed, method_named, no_contract,
    type_width, ContractView,
};
use crate::syntax::{nodes, KindView, Tree};
use crate::text::{begins, read_number, text_before, trimmed};
use vstd::prelude::*;

verus! {

/// True for the first of some fields that has a name.
pub open spec fn first_field(fields: Seq<FieldView>, name: Seq<char>, i: int) -> bool {
    &&& 0 <= i < fields.len()
    &&& fields[i].name == name
    &&& forall|j: int| 0 <= j < i ==> (#[trigger] fields[j]).name != name
}

/// True for the first of some functions that goes by a name.
pub open spec fn first_method(methods: Seq<MethodView>, name: Seq<char>, i: int) -> bool {
    &&& 0 <= i < methods.len()
    &&& methods[i].names.contains(name)
    &&& forall|j: int| 0 <= j < i ==> !(#[trigger] methods[j]).names.contains(name)
}

/// A field is looked up by its name: the first that has it is found, and nothing
/// is found where none has it.
pub proof fn law_fields_are_looked_up_by_name(contract: ContractView, name: Seq<char>)
    ensures
        forall|i: int|
            #[trigger] first_field(contract.storage, name, i) ==> contract.field(name) == Some(
                contract.storage[i],
            ),
        contract.field(name) is Some <==> exists|i: int| first_field(contract.storage, name, i),
{
    lemma_first_field(contract.storage, name);
}

proof fn lemma_first_field(fields: Seq<FieldView>, name: Seq<char>)
    ensures
        forall|i: int|
            #[trigger] first_field(fields, name, i) ==> field_named(fields, name) == Some(fields[i]),
        field_named(fields, name) is Some <==> exists|i: int| first_field(fields, name, i),
    decreases fields.len(),
{
    if fields.len() > 0 {
        let rest = fields.drop_first();
        lemma_first_field(rest, name);
        assert(forall|i: int| 0 <= i < rest.len() ==> #[trigger] rest[i] == fields[i + 1]);
        if fields[0].name == name {
            assert(first_field(fields, name, 0));
            assert forall|i: int| #[trigger] first_field(fields, name, i) implies i == 0 by {
                if i > 0 {
                    assert(fields[0].name != name);
                }
            }
        } else {
            assert forall|i: int| #[trigger] first_field(fields, name, i) implies field_named(
                fields,
                name,
            ) == Some(fields[i]) by {
                assert(first_field(rest, name, i - 1)) by {
                    assert forall|j: int| 0 <= j < i - 1 implies (#[trigger] rest[j]).name
                        != name by {
                        assert(fields[j + 1].name != name);
                    }
                }
            }
            if field_named(rest, name) is Some {
                let k = choose|k: int| first_field(rest, name, k);
                assert(first_field(fields, name, k + 1)) by {
                    assert forall|j: int| 0 <= j < k + 1 implies (#[trigger] fields[j]).name
                        != name by {
                        if j > 0 {
                            assert(rest[j - 1].name != name);
                        }
                    }
                }
            }
        }
    }
}

/// A function is looked up by any of the names it goes by: the first that goes by
/// one is found, and nothing is found where none does.
pub proof fn law_methods_are_looked_up_by_name(contract: ContractView, name: Seq<char>)
    ensures
        forall|i: int|
            #[trigger] first_method(contract.external_methods, name, i) ==> contract.method(name)
                == Some(contract.external_methods[i]),
        contract.method(name) is Some <==> exists|i: int|
            first_method(contract.external_methods, name, i),
{
    lemma_first_method(contract.external_methods, name);
}

proof fn lemma_first_method(methods: Seq<MethodView>, name: Seq<char>)
    ensures
        forall|i: int|
            #[trigger] first_method(methods, name, i) ==> method_named(methods, name) == Some(
                methods[i],
            ),
        method_named(methods, name) is Some <==> exists|i: int| first_method(methods, name, i),
    decreases methods.len(),
{
    if methods.len() > 0 {
        let rest = methods.drop_first();
        lemma_first_method(rest, name);
        assert(forall|i: int| 0 <= i < rest.len() ==> #[trigger] rest[i] == methods[i + 1]);
        if methods[0].names.contains(name) {
            assert(first_method(methods, name, 0));
            assert forall|i: int| #[trigger] first_method(methods, name, i) implies i == 0 by {
                if i > 0 {
                    assert(!methods[0].names.contains(name));
                }
            }
        } else {
            assert forall|i: int| #[trigger] first_method(methods, name, i) implies method_named(
                methods,
                name,
            ) == Some(methods[i]) by {
                assert(first_method(rest, name, i - 1)) by {
                    assert forall|j: int| 0 <= j < i - 1 implies !(
                    #[trigger] rest[j]).names.contains(name) by {
                        assert(!methods[j + 1].names.contains(name));
                    }
                }
            }
            if method_named(rest, name) is Some {
                let k = choose|k: int| first_method(rest, name, k);
                assert(first_method(methods, name, k + 1)) by {
                    assert forall|j: int| 0 <= j < k + 1 implies !(
                    #[trigger] methods[j]).names.contains(name) by {
                        if j > 0 {
                            assert(!rest[j - 1].names.contains(name));
                        }
                    }
                }
            }
        }
    }
}

/// A lock is a `bool` whose name, in any case, speaks of one.
pub proof fn law_a_lock_is_a_flag_named_like_one(field: FieldView, ty: Seq<char>, name: Seq<char>)
    requires
        bare(field.sol_type, ty),
        in_small_letters(field.name, name),
    ensures
        field.is_guard() <==> ty == "bool"@ && (has_in_it(name, "entered"@) || has_in_it(name, "locked"@)
            || has_in_it(name, "lock"@) || has_in_it(name, "guard"@) || has_in_it(name, "reentran"@) || has_in_it(
            name,
            "busy"@,
        )),
{
    lemma_plain(field.sol_type, ty);
    lemma_one_lowering(field.name, name);
    law_holding_is_having(name, "entered"@);
    law_holding_is_having(name, "locked"@);
    law_holding_is_having(name, "lock"@);
    law_holding_is_having(name, "guard"@);
    law_holding_is_having(name, "reentran"@);
    law_holding_is_having(name, "busy"@);
}

/// An authority is an address or a mapping whose name, in any case, speaks of one.
pub proof fn law_an_authority_is_named_like_one(field: FieldView, ty: Seq<char>, name: Seq<char>)
    requires
        bare(field.sol_type, ty),
        in_small_letters(field.name, name),
    ensures
        field.is_authority() <==> (ty == "address"@ || starts(ty, "mapping"@)) && (has_in_it(
            name,
            "owner"@,
        ) || has_in_it(name, "admin"@) || has_in_it(name, "governor"@) || has_in_it(name, "authority"@) || has_in_it(
            name,
            "operator"@,
        ) || has_in_it(name, "manager"@) || has_in_it(name, "role"@)),
{
    lemma_plain(field.sol_type, ty);
    lemma_one_lowering(field.name, name);
    law_holding_is_having(ty, "mapping"@);
    law_holding_is_having(name, "owner"@);
    law_holding_is_having(name, "admin"@);
    law_holding_is_having(name, "governor"@);
    law_holding_is_having(name, "authority"@);
    law_holding_is_having(name, "operator"@);
    law_holding_is_having(name, "manager"@);
    law_holding_is_having(name, "role"@);
}

/// Callers can grow a mapping, a list, `bytes` and `string`, and nothing else.
pub proof fn law_what_callers_can_grow(sol_type: Seq<char>, ty: Seq<char>)
    requires
        bare(sol_type, ty),
    ensures
        grows(sol_type) <==> starts(ty, "mapping"@) || closes_with(ty, "[]"@) || ty == "bytes"@ || ty
            == "string"@,
{
    lemma_plain(sol_type, ty);
    law_holding_is_having(ty, "mapping"@);
    law_holding_is_having(ty, "[]"@);
}

/// The width of a type is the number behind `uint` or `int`, which is 256 where
/// there is none.
pub proof fn law_the_width_of_a_type(sol_type: Seq<char>, ty: Seq<char>, digits: Seq<char>)
    requires
        bare(sol_type, ty),
        ty == "uint"@ + digits || ty == "int"@ + digits,
    ensures
        type_width(sol_type) == (if digits.len() == 0 {
            Some(256u32)
        } else {
            read_number(digits)
        }),
{
    lemma_plain(sol_type, ty);
    if ty == "uint"@ + digits {
        lemma_unsigned_width(ty, digits);
    } else {
        lemma_signed_width(ty, digits);
    }
}

/// What is no integer type has no width.
pub proof fn law_only_integers_have_a_width(sol_type: Seq<char>, ty: Seq<char>)
    requires
        bare(sol_type, ty),
        !starts(ty, "uint"@),
        !starts(ty, "int"@),
    ensures
        type_width(sol_type) is None,
{
    lemma_plain(sol_type, ty);
    law_holding_is_having(ty, "uint"@);
    law_holding_is_having(ty, "int"@);
}

proof fn lemma_unsigned_width(ty: Seq<char>, digits: Seq<char>)
    requires
        ty == "uint"@ + digits,
    ensures
        begins(ty, "uint"@),
        ty.skip(4) == digits,
{
    reveal_strlit("uint");
    assert(ty.subrange(0, 4) =~= "uint"@);
    assert(ty.skip(4) =~= digits);
}

proof fn lemma_signed_width(ty: Seq<char>, digits: Seq<char>)
    requires
        ty == "int"@ + digits,
    ensures
        !begins(ty, "uint"@),
        begins(ty, "int"@),
        ty.skip(3) == digits,
{
    reveal_strlit("uint");
    reveal_strlit("int");
    assert(ty[0] == 'i');
    if begins(ty, "uint"@) {
        assert(ty.subrange(0, 4)[0] == "uint"@[0]);
    }
    assert(ty.subrange(0, 3) =~= "int"@);
    assert(ty.skip(3) =~= digits);
}

/// There is one way to take the white space off a text.
pub proof fn lemma_plain(s: Seq<char>, inner: Seq<char>)
    requires
        bare(s, inner),
    ensures
        inner == trimmed(s),
{
    law_trimming(s);
    lemma_one_inner(s, inner, trimmed(s));
}

proof fn lemma_one_inner(s: Seq<char>, a: Seq<char>, b: Seq<char>)
    requires
        bare(s, a),
        bare(s, b),
    ensures
        a == b,
{
    lemma_something_left(s, a, b);
    lemma_something_left(s, b, a);
    let (fa, ra) = choose|front: Seq<char>, rest: Seq<char>|
        blank(front) && blank(rest) && s == #[trigger] (front + a
            + rest);
    let (fb, rb) = choose|front: Seq<char>, rest: Seq<char>|
        blank(front) && blank(rest) && s == #[trigger] (front + b
            + rest);
    if a.len() > 0 {
        assert(b.len() > 0);
        if fa.len() < fb.len() {
            assert(s[fa.len() as int] == a[0]);
            assert(s[fa.len() as int] == fb[fa.len() as int]);
        }
        if fb.len() < fa.len() {
            assert(s[fb.len() as int] == b[0]);
            assert(s[fb.len() as int] == fa[fb.len() as int]);
        }
        if ra.len() < rb.len() {
            let k = s.len() - ra.len() - 1;
            assert(s[k] == a.last());
            assert(s[k] == rb[k - (fb + b).len()]);
        }
        if rb.len() < ra.len() {
            let k = s.len() - rb.len() - 1;
            assert(s[k] == b.last());
            assert(s[k] == ra[k - (fa + a).len()]);
        }
        assert(a =~= s.subrange(fa.len() as int, s.len() - ra.len()));
        assert(b =~= s.subrange(fb.len() as int, s.len() - rb.len()));
    } else {
        assert(a =~= b);
    }
}

/// What holds something but white space holds something once that is taken off.
proof fn lemma_something_left(s: Seq<char>, a: Seq<char>, b: Seq<char>)
    requires
        bare(s, a),
        bare(s, b),
    ensures
        a.len() > 0 ==> b.len() > 0,
{
    let (fa, ra) = choose|front: Seq<char>, rest: Seq<char>|
        blank(front) && blank(rest) && s == #[trigger] (front + a + rest);
    let (fb, rb) = choose|front: Seq<char>, rest: Seq<char>|
        blank(front) && blank(rest) && s == #[trigger] (front + b + rest);
    if a.len() > 0 && b.len() == 0 {
        let k = fa.len() as int;
        assert((fa + a + ra)[k] == a[0]);
        assert((fa + a + ra).len() == (fb + b + rb).len());
        assert((fb + b).len() == fb.len());
        if k < fb.len() {
            assert((fb + b + rb)[k] == fb[k]);
        } else {
            assert((fb + b + rb)[k] == rb[k - fb.len()]);
        }
    }
}

/// What a node teaches: an invocation of `sol_storage!` its fields, one of
/// `sol_interface!` its functions, on whatever path, and anything else nothing.
pub proof fn law_what_a_node_teaches(contract: ContractView, node: Tree)
    ensures
        match node.kind {
            KindView::Macro { tokens, .. } => if node.tail() == Some("sol_storage"@) {
                &&& learned_from(contract, node).external_methods == contract.external_methods
                &&& learned_from(contract, node).storage == storage_in(tokens).fold_left(
                    contract.storage,
                    |storage: Seq<FieldView>, field: FieldView| declared(storage, field),
                )
            } else if node.tail() == Some("sol_interface"@) {
                &&& learned_from(contract, node).storage == contract.storage
                &&& learned_from(contract, node).external_methods == methods_in(tokens).fold_left(
                    contract.external_methods,
                    |methods: Seq<MethodView>, method: MethodView| listed(methods, method),
                )
            } else {
                learned_from(contract, node) == contract
            },
            _ => learned_from(contract, node) == contract,
        },
{
    let put = |storage: Seq<FieldView>, f: FieldView| declared(storage, f);
    let put_again = |storage: Seq<FieldView>, field: FieldView| declared(storage, field);
    assert(put =~= put_again);
    let list = |methods: Seq<MethodView>, m: MethodView| listed(methods, m);
    let list_again = |methods: Seq<MethodView>, method: MethodView| listed(methods, method);
    assert(list =~= list_again);
}

/// A file teaches what its nodes teach, one after the other.
pub proof fn law_a_file_teaches_node_by_node(contract: ContractView, file: Tree)
    ensures
        learned(contract, file) == nodes(file).fold_left(
            contract,
            |known: ContractView, node: Tree| learned_from(known, node),
        ),
        no_contract().storage.len() == 0,
        no_contract().external_methods.len() == 0,
{
    let step = |c: ContractView, node: Tree| learned_from(c, node);
    let again = |known: ContractView, node: Tree| learned_from(known, node);
    assert(step =~= again);
}

/// A function that is listed already is not listed again, and any other comes
/// last.
pub proof fn law_functions_are_listed_once(methods: Seq<MethodView>, method: MethodView)
    ensures
        methods.contains(method) ==> listed(methods, method) == methods,
        !methods.contains(method) ==> listed(methods, method) == methods.push(method),
{
}

/// A declared field takes its place in the order of the names: the fields with
/// smaller names stand before it, those with greater ones behind it, and one of
/// the same name is gone.
pub proof fn law_a_declared_field_takes_its_place(storage: Seq<FieldView>, field: FieldView)
    ensures
        declared(storage, field) == storage.filter(
            |f: FieldView| text_before(f.name, field.name),
        ) + seq![field] + storage.filter(|f: FieldView| text_before(field.name, f.name)),
{
    let before = storage.filter(|f: FieldView| text_before(f.name, field.name));
    assert(before.push(field) =~= before + seq![field]);
}

} // verus!
