//! What is promised of how storage is named and written.

use crate::declarations::FieldView;
use crate::model::ContractView;
use crate::rules::{field_of_self, is_self, lemma_part, root_field, touched, written_field};
use crate::syntax::{nodes, Form, KindView, Sort, Tree};
use vstd::prelude::*;

verus! {

/// True for the expression `self`: a path that is that one name and no more.
pub open spec fn this(t: Tree) -> bool {
    &&& t.form() == Some(Form::Name)
    &&& t.first(Sort::Path) is Some
    &&& t.first(Sort::Path).unwrap().kind == (KindView::Path { rooted: false })
    &&& t.first(Sort::Path).unwrap().children.len() == 1
    &&& t.first(Sort::Path).unwrap().children[0].ident() == Some("self"@)
}

/// True for the expression `self.<field>`.
pub open spec fn this_field(t: Tree, field: Seq<char>) -> bool {
    &&& t.form() == Some(Form::Field)
    &&& t.operands().len() > 0
    &&& this(t.operands()[0])
    &&& t.name() == Some(field)
}

/// True for a chain of method calls and indexing that leads from an expression
/// down to `self.<field>`, each link being what the one before it works on.
pub open spec fn chain(links: Seq<Tree>, t: Tree, field: Seq<char>) -> bool {
    &&& links.len() > 0
    &&& links[0] == t
    &&& this_field(links.last(), field)
    &&& forall|k: int|
        0 <= k < links.len() - 1 ==> {
            &&& (#[trigger] links[k]).form() == Some(Form::MethodCall) || links[k].form() == Some(
                Form::Index,
            )
            &&& links[k].operands().len() > 0
            &&& links[k].operands()[0] == links[k + 1]
        }
}

/// True for a write to a field: one of the methods that write, called on a chain
/// that leads to the field.
pub open spec fn writes(t: Tree, field: Seq<char>) -> bool {
    &&& t.form() == Some(Form::MethodCall)
    &&& exists|method: Seq<char>|
        t.name() == Some(method) && seq![
            "set"@,
            "push"@,
            "insert"@,
            "erase"@,
            "clear"@,
            "set_word"@,
            "replace"@,
            "grow"@,
            "shrink"@,
        ].contains(method)
    &&& t.operands().len() > 0
    &&& exists|links: Seq<Tree>| chain(links, t.operands()[0], field)
}

/// A field of the contract is named by `self.<field>`, and by nothing else.
pub proof fn law_naming_a_field(t: Tree, field: Seq<char>)
    ensures
        is_self(t) <==> this(t),
        field_of_self(t) == Some(field) <==> this_field(t, field),
{
}

/// A chain of calls and indexing leads to the field that it starts from, however
/// long it is.
pub proof fn law_a_chain_leads_to_its_field(t: Tree, field: Seq<char>)
    ensures
        root_field(t) == Some(field) <==> exists|links: Seq<Tree>| chain(links, t, field),
    decreases t,
{
    law_naming_a_field(t, field);
    if t.form() == Some(Form::Field) {
        if root_field(t) == Some(field) {
            assert(chain(seq![t], t, field));
        }
        if exists|links: Seq<Tree>| chain(links, t, field) {
            let links = choose|links: Seq<Tree>| chain(links, t, field);
            if links.len() > 1 {
                assert(links[0].form() == Some(Form::MethodCall) || links[0].form() == Some(
                    Form::Index,
                ));
            }
        }
    } else {
        if t.operands().len() > 0 {
            lemma_part(t, Sort::Expression, 0);
            let next = t.operands()[0];
            law_a_chain_leads_to_its_field(next, field);
            if root_field(t) == Some(field) {
                let rest = choose|links: Seq<Tree>| chain(links, next, field);
                let links = seq![t] + rest;
                assert(links.last() == rest.last());
                assert forall|k: int| 0 <= k < links.len() - 1 implies {
                    &&& (#[trigger] links[k]).form() == Some(Form::MethodCall) || links[k].form()
                        == Some(Form::Index)
                    &&& links[k].operands().len() > 0
                    &&& links[k].operands()[0] == links[k + 1]
                } by {
                    if k > 0 {
                        assert(links[k] == rest[k - 1]);
                        assert(links[k + 1] == rest[k]);
                    } else {
                        assert(links[1] == rest[0]);
                    }
                }
                assert(chain(links, t, field));
            }
        }
        if exists|links: Seq<Tree>| chain(links, t, field) {
            let links = choose|links: Seq<Tree>| chain(links, t, field);
            assert(links.len() > 1);
            assert(links[0].operands()[0] == links[1]);
            let rest = links.drop_first();
            assert(rest.last() == links.last());
            assert forall|k: int| 0 <= k < rest.len() - 1 implies {
                &&& (#[trigger] rest[k]).form() == Some(Form::MethodCall) || rest[k].form() == Some(
                    Form::Index,
                )
                &&& rest[k].operands().len() > 0
                &&& rest[k].operands()[0] == rest[k + 1]
            } by {
                assert(rest[k] == links[k + 1]);
                assert(rest[k + 1] == links[k + 2]);
            }
            assert(chain(rest, t.operands()[0], field));
        }
    }
}

/// A write is recognised wherever a writing method is called on a chain that
/// leads to a declared field, and the field found is the one declared. Nothing
/// else is a write.
pub proof fn law_every_write_is_recognised(
    t: Tree,
    contract: ContractView,
    name: Seq<char>,
    field: FieldView,
)
    ensures
        writes(t, name) ==> written_field(t, contract) == contract.field(name),
        written_field(t, contract) == Some(field) ==> exists|name: Seq<char>|
            writes(t, name) && contract.field(name) == Some(field),
{
    let methods = seq![
        "set"@,
        "push"@,
        "insert"@,
        "erase"@,
        "clear"@,
        "set_word"@,
        "replace"@,
        "grow"@,
        "shrink"@,
    ];
    assert(methods[0] == "set"@ && methods[1] == "push"@ && methods[2] == "insert"@ && methods[3]
        == "erase"@ && methods[4] == "clear"@ && methods[5] == "set_word"@ && methods[6]
        == "replace"@ && methods[7] == "grow"@ && methods[8] == "shrink"@);
    if writes(t, name) {
        law_a_chain_leads_to_its_field(t.operands()[0], name);
    }
    if written_field(t, contract) == Some(field) {
        let root = root_field(t.operands()[0]).unwrap();
        law_a_chain_leads_to_its_field(t.operands()[0], root);
        let method = t.name().unwrap();
        assert(methods.contains(method));
        assert(writes(t, root));
    }
}

/// The fields that an expression touches are those named in it, each as often as
/// it is named, in the order in which they are.
pub proof fn law_touching_is_naming(t: Tree)
    ensures
        touched(t) == nodes(t).filter_map(
            |x: Tree|
                if exists|field: Seq<char>| this_field(x, field) {
                    x.name()
                } else {
                    None
                },
        ),
{
    let pick = |x: Tree|
        if exists|field: Seq<char>| this_field(x, field) {
            x.name()
        } else {
            None::<Seq<char>>
        };
    let own = |node: Tree| field_of_self(node);
    assert forall|x: Tree| own(x) == #[trigger] pick(x) by {
        if let Some(field) = field_of_self(x) {
            assert(this_field(x, field));
        }
    }
    assert(own =~= pick);
}

} // verus!
