//! What is promised of the tree that a source file is read into.

use crate::syntax::{nodes, nodes_of_all, KindView, Sort, Tree};
use vstd::prelude::*;

verus! {

/// A node is told from others by its kind.
pub proof fn law_sort_tells_the_kind(t: Tree)
    ensures
        t.sort() == Sort::File <==> t.kind is File,
        t.sort() == Sort::Attribute <==> t.kind is Attribute,
        t.sort() == Sort::Module <==> t.kind is Module,
        t.sort() == Sort::Implementation <==> t.kind is Implementation,
        t.sort() == Sort::Method <==> t.kind is Method,
        t.sort() == Sort::Receiver <==> t.kind is Receiver,
        t.sort() == Sort::Parameter <==> t.kind is Parameter,
        t.sort() == Sort::Block <==> t.kind is Block,
        t.sort() == Sort::Statement <==> t.kind is Statement,
        t.sort() == Sort::Expression <==> t.kind is Expression,
        t.sort() == Sort::Macro <==> t.kind is Macro,
        t.sort() == Sort::Type <==> t.kind is Type,
        t.sort() == Sort::Generics <==> t.kind is Generics,
        t.sort() == Sort::GenericArgument <==> t.kind is GenericArgument,
        t.sort() == Sort::Pattern <==> t.kind is Pattern,
        t.sort() == Sort::Path <==> t.kind is Path,
        t.sort() == Sort::Ident <==> t.kind is Ident,
{
}

/// What a node says of itself is what it holds: an expression its form and its
/// place, a macro its place, an identifier its name and its place.
pub proof fn law_a_node_says_what_it_holds(t: Tree)
    ensures
        t.kind matches KindView::Expression { form, at } ==> t.form() == Some(form) && t.place()
            == at,
        t.kind matches KindView::Macro { at, .. } ==> t.place() == at,
        t.kind matches KindView::Ident { name, at } ==> t.ident() == Some(name) && t.place() == at,
        t.kind !is Expression ==> t.form() is None,
        t.kind !is Ident ==> t.ident() is None,
{
}

/// True for the index of the first child of a sort.
pub open spec fn first_of(t: Tree, sort: Sort, i: int) -> bool {
    &&& 0 <= i < t.children.len()
    &&& t.children[i].sort() == sort
    &&& forall|j: int| 0 <= j < i ==> (#[trigger] t.children[j]).sort() != sort
}

/// True for the index of the last child of a sort.
pub open spec fn last_of(t: Tree, sort: Sort, i: int) -> bool {
    &&& 0 <= i < t.children.len()
    &&& t.children[i].sort() == sort
    &&& forall|j: int| i < j < t.children.len() ==> (#[trigger] t.children[j]).sort() != sort
}

/// Where the items that a filter keeps stand in a list.
pub proof fn lemma_kept_from<A>(s: Seq<A>, keep: spec_fn(A) -> bool) -> (at: Seq<int>)
    ensures
        at.len() == s.filter(keep).len(),
        forall|k: int|
            0 <= k < at.len() ==> 0 <= #[trigger] at[k] < s.len() && keep(s[at[k]]) && s.filter(
                keep,
            )[k] == s[at[k]],
        forall|k: int, m: int| 0 <= k < m < at.len() ==> #[trigger] at[k] < #[trigger] at[m],
        forall|i: int| 0 <= i < s.len() && keep(#[trigger] s[i]) ==> at.contains(i),
    decreases s.len(),
{
    reveal(Seq::filter);
    if s.len() == 0 {
        Seq::empty()
    } else {
        let rest = s.drop_last();
        let before = lemma_kept_from(rest, keep);
        assert(forall|i: int| 0 <= i < rest.len() ==> #[trigger] rest[i] == s[i]);
        let n = s.len() - 1;
        if keep(s.last()) {
            let at = before.push(n);
            assert(s.filter(keep) == rest.filter(keep).push(s.last()));
            assert forall|i: int| 0 <= i < s.len() && keep(#[trigger] s[i]) implies at.contains(
                i,
            ) by {
                if i < n {
                    assert(rest[i] == s[i]);
                    let k = choose|k: int| 0 <= k < before.len() && before[k] == i;
                    assert(at[k] == i);
                } else {
                    assert(at[before.len() as int] == i);
                }
            }
            at
        } else {
            assert forall|i: int| 0 <= i < s.len() && keep(#[trigger] s[i]) implies before.contains(
                i,
            ) by {
                assert(i != n);
                assert(rest[i] == s[i]);
            }
            before
        }
    }
}

/// The parts of one sort are the children of that sort, all of them, in the
/// order in which they stand; the operands are the expressions.
pub proof fn law_parts_of_a_sort(t: Tree, sort: Sort) -> (at: Seq<int>)
    ensures
        at.len() == t.those(sort).len(),
        forall|k: int|
            0 <= k < at.len() ==> 0 <= #[trigger] at[k] < t.children.len()
                && t.children[at[k]].sort() == sort && t.those(sort)[k] == t.children[at[k]],
        forall|k: int, m: int| 0 <= k < m < at.len() ==> #[trigger] at[k] < #[trigger] at[m],
        forall|i: int|
            0 <= i < t.children.len() && (#[trigger] t.children[i]).sort() == sort ==> at.contains(
                i,
            ),
        t.operands() == t.those(Sort::Expression),
{
    let keep = |child: Tree| child.sort() == sort;
    let at = lemma_kept_from(t.children, keep);
    assert(t.those(sort) == t.children.filter(keep));
    assert forall|k: int| 0 <= k < at.len() implies 0 <= #[trigger] at[k] < t.children.len()
        && t.children[at[k]].sort() == sort && t.those(sort)[k] == t.children[at[k]] by {
        assert(keep(t.children[at[k]]));
    }
    assert forall|i: int|
        0 <= i < t.children.len() && (#[trigger] t.children[i]).sort() == sort implies at.contains(
        i,
    ) by {
        assert(keep(t.children[i]));
    }
    at
}

/// The first part of a sort is the first child of it, and there is none where no
/// child is of it.
pub proof fn law_first_part(t: Tree, sort: Sort)
    ensures
        forall|i: int| #[trigger] first_of(t, sort, i) ==> t.first(sort) == Some(t.children[i]),
        t.first(sort) is Some ==> exists|i: int| first_of(t, sort, i),
{
    let at = law_parts_of_a_sort(t, sort);
    assert forall|i: int| #[trigger] first_of(t, sort, i) implies t.first(sort) == Some(
        t.children[i],
    ) by {
        assert(at.contains(i));
        let k = choose|k: int| 0 <= k < at.len() && at[k] == i;
        if k > 0 {
            assert(at[0] < at[k]);
            assert(t.children[at[0]].sort() == sort);
        }
    }
    if t.first(sort) is Some {
        let i = at[0];
        assert forall|j: int| 0 <= j < i implies (#[trigger] t.children[j]).sort() != sort by {
            if t.children[j].sort() == sort {
                let k = choose|k: int| 0 <= k < at.len() && at[k] == j;
                if k > 0 {
                    assert(at[0] < at[k]);
                }
            }
        }
        assert(first_of(t, sort, i));
    }
}

/// A node goes by its first identifier, a path by its last one too, and what has
/// a path ends in the last name of its first path.
pub proof fn law_names(t: Tree)
    ensures
        forall|i: int|
            #[trigger] first_of(t, Sort::Ident, i) ==> t.name() == t.children[i].ident(),
        t.name() is Some <==> exists|i: int| first_of(t, Sort::Ident, i),
        forall|i: int|
            #[trigger] last_of(t, Sort::Ident, i) ==> t.last_name() == t.children[i].ident(),
        t.last_name() is Some <==> exists|i: int| last_of(t, Sort::Ident, i),
        forall|i: int|
            #[trigger] first_of(t, Sort::Path, i) ==> t.tail() == t.children[i].last_name(),
        (forall|i: int| !first_of(t, Sort::Path, i)) ==> t.tail() is None,
{
    law_first_part(t, Sort::Ident);
    law_first_part(t, Sort::Path);
    let at = law_parts_of_a_sort(t, Sort::Ident);
    assert forall|i: int| #[trigger] last_of(t, Sort::Ident, i) implies t.last_name()
        == t.children[i].ident() by {
        assert(at.contains(i));
        let k = choose|k: int| 0 <= k < at.len() && at[k] == i;
        if k < at.len() - 1 {
            assert(at[k] < at[at.len() - 1]);
            assert(t.children[at[at.len() - 1]].sort() == Sort::Ident);
        }
    }
    if t.last_name() is Some {
        let n = at.len() - 1;
        let i = at[n];
        assert forall|j: int| i < j < t.children.len() implies (#[trigger] t.children[j]).sort()
            != Sort::Ident by {
            if t.children[j].sort() == Sort::Ident {
                let k = choose|k: int| 0 <= k < at.len() && at[k] == j;
                if k < n {
                    assert(at[k] < at[n]);
                }
            }
        }
        assert(last_of(t, Sort::Ident, i));
    }
    if exists|i: int| last_of(t, Sort::Ident, i) {
        let i = choose|i: int| last_of(t, Sort::Ident, i);
        assert(t.last_name() == t.children[i].ident());
    }
    if exists|i: int| first_of(t, Sort::Ident, i) {
        let i = choose|i: int| first_of(t, Sort::Ident, i);
        assert(t.name() == t.children[i].ident());
    }
    if t.name() is Some {
        assert(t.first(Sort::Ident) is Some);
    }
}

/// The attributes that an item carries are its first children, as many as it
/// counts. Only modules, impl blocks and functions count any.
pub proof fn law_attributes_come_first(t: Tree, i: int)
    requires
        t.kind matches KindView::Module { attributes } ==> attributes <= t.children.len(),
        t.kind matches KindView::Implementation { attributes } ==> attributes <= t.children.len(),
        t.kind matches KindView::Method { attributes } ==> attributes <= t.children.len(),
    ensures
        t.kind matches KindView::Module { attributes } ==> t.attributes().len() == attributes,
        t.kind matches KindView::Implementation { attributes } ==> t.attributes().len()
            == attributes,
        t.kind matches KindView::Method { attributes } ==> t.attributes().len() == attributes,
        !(t.kind is Module || t.kind is Implementation || t.kind is Method)
            ==> t.attributes().len() == 0,
        0 <= i < t.attributes().len() ==> t.attributes()[i] == t.children[i],
{
}

/// A tree is walked from the top, each node before what it holds and each child
/// after the ones before it, and nothing is left out.
pub proof fn law_walking_a_tree(t: Tree)
    ensures
        nodes(t) == seq![t] + t.children.flat_map(|child: Tree| nodes(child)),
{
    lemma_walking_all(t.children);
}

proof fn lemma_walking_all(ts: Seq<Tree>)
    ensures
        nodes_of_all(ts) == ts.flat_map(|child: Tree| nodes(child)),
    decreases ts.len(),
{
    let walk = |child: Tree| nodes(child);
    if ts.len() == 0 {
        assert(ts.flat_map(walk) =~= Seq::empty());
    } else {
        lemma_walking_all(ts.drop_last());
        assert(ts =~= ts.drop_last().push(ts.last()));
        ts.drop_last().lemma_flat_map_push(walk, ts.last());
    }
}

} // verus!
