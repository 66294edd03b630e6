//! What the checker knows about a contract before any rule runs.
//!
//! There is no type inference here and there never will be, but a Stylus
//! contract declares more about itself than plain Rust does. `sol_storage!`
//! names every storage field and its exact Solidity type, and `sol_interface!`
//! names every function that reaches another contract. Reading those two macros
//! buys most of what a rule would otherwise need a type checker for, which is
//! the difference between a rule that stays quiet on correct code and one that
//! guesses.

pub use crate::declarations::{
    parse_interface_methods, parse_storage, strip_attributes, to_snake_case, ExternalMethod,
    StorageField,
};
use crate::declarations::{methods_in, storage_in, FieldView, MethodView};
use crate::lists::{lemma_fold_keeps, lemma_fold_reaches, lemma_fold_step, lemma_folded_apart};
use crate::order::{lemma_text_chain, lemma_text_total, views};
use crate::syntax::{nodes, trees, Kind, KindView, Node, Tree};
use crate::text::{
    begins, chars, contains, decimal, ends, ends_with, holds, is_digit,
    lemma_decimal_is_read_back, lower, lowered, parse_number, precedes, read_number, same,
    starts_with, string, text_before, texts, trim, trimmed,
};
use vstd::prelude::*;
use vstd::slice::slice_subrange;

verus! {

/// The width that a Solidity type names: that of `uintN` and `intN`, the bare
/// ones being 256 bits wide.
pub open spec fn type_width(sol_type: Seq<char>) -> Option<u32> {
    let ty = trimmed(sol_type);
    if begins(ty, "uint"@) {
        width_written(ty.skip(4))
    } else if begins(ty, "int"@) {
        width_written(ty.skip(3))
    } else {
        None
    }
}

pub open spec fn width_written(digits: Seq<char>) -> Option<u32> {
    if digits.len() == 0 {
        Some(256)
    } else {
        read_number(digits)
    }
}

/// True for the Solidity types whose size the contract does not control.
pub open spec fn grows(sol_type: Seq<char>) -> bool {
    let ty = trimmed(sol_type);
    begins(ty, "mapping"@) || ends(ty, "[]"@) || ty == "bytes"@ || ty == "string"@
}

/// True when a name reads like a lock.
pub open spec fn guard_name(name: Seq<char>) -> bool {
    let n = lowered(name);
    holds(n, "entered"@) || holds(n, "locked"@) || holds(n, "lock"@) || holds(n, "guard"@) || holds(
        n,
        "reentran"@,
    ) || holds(n, "busy"@)
}

/// True when a name reads like whoever is allowed to change things.
pub open spec fn authority_name(name: Seq<char>) -> bool {
    let n = lowered(name);
    holds(n, "owner"@) || holds(n, "admin"@) || holds(n, "governor"@) || holds(n, "authority"@)
        || holds(n, "operator"@) || holds(n, "manager"@) || holds(n, "role"@)
}

impl FieldView {
    /// A lock that a human added by hand: a flag named like one.
    pub open spec fn is_guard(self) -> bool {
        trimmed(self.sol_type) == "bool"@ && guard_name(self.name)
    }

    /// Whoever may act: an address or a mapping named like an authority.
    pub open spec fn is_authority(self) -> bool {
        let ty = trimmed(self.sol_type);
        (ty == "address"@ || begins(ty, "mapping"@)) && authority_name(self.name)
    }
}

fn is_text(s: &[char], word: &str) -> (r: bool)
    ensures
        r == (s@ == word@),
{
    let t = string(s);
    same(t.as_str(), word)
}

impl StorageField {
    /// Width in bits for `uintN` and `intN`, otherwise nothing.
    #[must_use]
    pub fn int_bits(&self) -> (r: Option<u32>)
        ensures
            r == type_width(self@.sol_type),
    {
        proof {
            reveal_strlit("uint");
            reveal_strlit("int");
        }
        let all = chars(self.sol_type.as_str());
        let ty = trim(all.as_slice());
        let n = ty.len();
        let skipped: usize = if starts_with(ty, "uint") {
            4
        } else if starts_with(ty, "int") {
            3
        } else {
            return None;
        };
        let digits = slice_subrange(ty, skipped, n);
        assert(digits@ =~= ty@.skip(skipped as int));
        if digits.len() == 0 {
            return Some(256); // bare `uint` and `int` are 256 in Solidity
        }
        parse_number(digits)
    }

    /// True for a collection whose size the contract does not control.
    #[must_use]
    pub fn is_dynamic(&self) -> (r: bool)
        ensures
            r == grows(self@.sol_type),
    {
        let all = chars(self.sol_type.as_str());
        let ty = trim(all.as_slice());
        starts_with(ty, "mapping") || ends_with(ty, "[]") || is_text(ty, "bytes") || is_text(
            ty,
            "string",
        )
    }

    /// True when the name reads like a lock a human added by hand.
    #[must_use]
    pub fn looks_like_a_guard(&self) -> (r: bool)
        ensures
            r == self@.is_guard(),
    {
        let all = chars(self.sol_type.as_str());
        if !is_text(trim(all.as_slice()), "bool") {
            return false;
        }
        let written = chars(self.name.as_str());
        let lowered_name = lower(written.as_slice());
        let name = lowered_name.as_slice();
        contains(name, "entered") || contains(name, "locked") || contains(name, "lock") || contains(
            name,
            "guard",
        ) || contains(name, "reentran") || contains(name, "busy")
    }

    /// True when the name reads like whoever is allowed to change things.
    #[must_use]
    pub fn looks_like_an_authority(&self) -> (r: bool)
        ensures
            r == self@.is_authority(),
    {
        let all = chars(self.sol_type.as_str());
        let ty = trim(all.as_slice());
        if !is_text(ty, "address") && !starts_with(ty, "mapping") {
            return false;
        }
        let written = chars(self.name.as_str());
        let lowered_name = lower(written.as_slice());
        let name = lowered_name.as_slice();
        contains(name, "owner") || contains(name, "admin") || contains(name, "governor")
            || contains(name, "authority") || contains(name, "operator") || contains(
            name,
            "manager",
        ) || contains(name, "role")
    }
}

/// Everything the two macros told us about one crate.
#[derive(Debug)]
pub struct Contract {
    /// Storage fields in the order of their names.
    pub storage: Vec<StorageField>,
    /// Functions that reach another contract.
    pub external_methods: Vec<ExternalMethod>,
}

/// The mathematical model of a [`Contract`].
pub ghost struct ContractView {
    pub storage: Seq<FieldView>,
    pub external_methods: Seq<MethodView>,
}

impl View for Contract {
    type V = ContractView;

    open spec fn view(&self) -> ContractView {
        ContractView {
            storage: views(self.storage@),
            external_methods: views(self.external_methods@),
        }
    }
}

/// The field with a name, if there is one.
pub open spec fn field_named(storage: Seq<FieldView>, name: Seq<char>) -> Option<FieldView>
    decreases storage.len(),
{
    if storage.len() == 0 {
        None
    } else if storage[0].name == name {
        Some(storage[0])
    } else {
        field_named(storage.drop_first(), name)
    }
}

/// The first function that goes by a name, if there is one.
pub open spec fn method_named(methods: Seq<MethodView>, name: Seq<char>) -> Option<MethodView>
    decreases methods.len(),
{
    if methods.len() == 0 {
        None
    } else if methods[0].names.contains(name) {
        Some(methods[0])
    } else {
        method_named(methods.drop_first(), name)
    }
}

impl ContractView {
    /// The storage field with a name.
    pub open spec fn field(self, name: Seq<char>) -> Option<FieldView> {
        field_named(self.storage, name)
    }

    /// The declared function that goes by a name.
    pub open spec fn method(self, name: Seq<char>) -> Option<MethodView> {
        method_named(self.external_methods, name)
    }

    /// True when some field decides who may act.
    pub open spec fn has_authority(self) -> bool {
        exists|i: int| 0 <= i < self.storage.len() && (#[trigger] self.storage[i]).is_authority()
    }

    /// The names of the fields that decide who may act.
    pub open spec fn authorities(self) -> Seq<Seq<char>> {
        self.storage.filter_map(
            |f: FieldView|
                if f.is_authority() {
                    Some(f.name)
                } else {
                    None
                },
        )
    }

    /// No two fields share a name, and they stand in the order of their names.
    pub open spec fn well_formed(self) -> bool {
        rising(self.storage)
    }
}

/// True when the names of some fields rise.
pub open spec fn rising(storage: Seq<FieldView>) -> bool {
    forall|i: int, j: int|
        0 <= i < j < storage.len() ==> text_before(
            (#[trigger] storage[i]).name,
            (#[trigger] storage[j]).name,
        )
}

impl Default for Contract {
    fn default() -> (r: Contract)
        ensures
            r@ == no_contract(),
            r@.well_formed(),
    {
        let r = Contract { storage: Vec::new(), external_methods: Vec::new() };
        assert(r@.storage =~= Seq::empty());
        assert(r@.external_methods =~= Seq::empty());
        r
    }
}

/// A contract of which nothing is known.
pub open spec fn no_contract() -> ContractView {
    ContractView { storage: Seq::empty(), external_methods: Seq::empty() }
}

impl Contract {
    /// The storage field with a name.
    #[must_use]
    pub fn field(&self, name: &str) -> (r: Option<&StorageField>)
        ensures
            match r {
                Some(field) => self@.field(name@) == Some(field@),
                None => self@.field(name@) is None,
            },
    {
        let ghost all = self@.storage;
        assert(all.skip(0) =~= all);
        for i in 0..self.storage.len()
            invariant
                all == views(self.storage@),
                all == self@.storage,
                field_named(all, name@) == field_named(all.skip(i as int), name@),
        {
            assert(all.skip(i as int).drop_first() =~= all.skip(i + 1));
            assert(all.skip(i as int)[0] == self.storage@[i as int]@);
            if same(self.storage[i].name.as_str(), name) {
                return Some(&self.storage[i]);
            }
        }
        None
    }

    /// Looks up a method call name against the declared interfaces.
    #[must_use]
    pub fn external_method(&self, name: &str) -> (r: Option<&ExternalMethod>)
        ensures
            match r {
                Some(method) => self@.method(name@) == Some(method@),
                None => self@.method(name@) is None,
            },
    {
        let ghost all = self@.external_methods;
        assert(all.skip(0) =~= all);
        for i in 0..self.external_methods.len()
            invariant
                all == views(self.external_methods@),
                all == self@.external_methods,
                method_named(all, name@) == method_named(all.skip(i as int), name@),
        {
            assert(all.skip(i as int).drop_first() =~= all.skip(i + 1));
            assert(all.skip(i as int)[0] == self.external_methods@[i as int]@);
            if self.external_methods[i].goes_by(name) {
                return Some(&self.external_methods[i]);
            }
        }
        None
    }

    /// True when this contract declares something that decides who may act.
    #[must_use]
    pub fn has_an_authority(&self) -> (r: bool)
        ensures
            r == self@.has_authority(),
    {
        for i in 0..self.storage.len()
            invariant
                forall|j: int| 0 <= j < i ==> !(#[trigger] self@.storage[j]).is_authority(),
        {
            assert(self@.storage[i as int] == self.storage@[i as int]@);
            if self.storage[i].looks_like_an_authority() {
                return true;
            }
        }
        false
    }

    /// The names of the fields that decide who may act.
    pub fn authorities(&self) -> (r: Vec<String>)
        ensures
            texts(r@) == self@.authorities(),
    {
        let ghost all = self@.storage;
        let ghost pick = |f: FieldView|
            if f.is_authority() {
                Some(f.name)
            } else {
                None
            };
        let mut names: Vec<String> = Vec::new();
        assert(texts(names@) =~= all.take(0).filter_map(pick));
        for i in 0..self.storage.len()
            invariant
                all == views(self.storage@),
                pick == (|f: FieldView|
                    if f.is_authority() {
                        Some(f.name)
                    } else {
                        None
                    }),
                texts(names@) == all.take(i as int).filter_map(pick),
        {
            let ghost before = texts(names@);
            proof {
                all.lemma_filter_map_take_succ(pick, i as int);
            }
            assert(all[i as int] == self.storage@[i as int]@);
            if self.storage[i].looks_like_an_authority() {
                names.push(self.storage[i].name.clone());
                assert(texts(names@) =~= before + seq![all[i as int].name]);
            } else {
                assert(texts(names@) =~= before + Seq::empty());
            }
        }
        assert(all.take(self.storage@.len() as int) =~= all);
        names
    }
}

impl ExternalMethod {
    fn goes_by(&self, name: &str) -> (r: bool)
        ensures
            r == self@.names.contains(name@),
    {
        for i in 0..self.names.len()
            invariant
                forall|j: int| 0 <= j < i ==> (#[trigger] self@.names[j]) != name@,
        {
            assert(self@.names[i as int] == self.names@[i as int]@);
            if same(self.names[i].as_str(), name) {
                return true;
            }
        }
        false
    }

    fn is(&self, other: &ExternalMethod) -> (r: bool)
        ensures
            r == (self@ == other@),
    {
        if self.returns != other.returns || self.mutates != other.mutates || self.names.len()
            != other.names.len() {
            assert(self@.names.len() == self.names@.len());
            assert(other@.names.len() == other.names@.len());
            return false;
        }
        for i in 0..self.names.len()
            invariant
                self.names@.len() == other.names@.len(),
                forall|j: int| 0 <= j < i ==> (#[trigger] self@.names[j]) == other@.names[j],
        {
            assert(self@.names[i as int] == self.names@[i as int]@);
            assert(other@.names[i as int] == other.names@[i as int]@);
            if !same(self.names[i].as_str(), other.names[i].as_str()) {
                return false;
            }
        }
        assert(self@.names =~= other@.names);
        true
    }
}

/// The fields once another one is declared. It takes the place of a field of
/// the same name, and the order of the names is kept.
pub open spec fn declared(storage: Seq<FieldView>, field: FieldView) -> Seq<FieldView> {
    storage.filter(|f: FieldView| text_before(f.name, field.name)).push(field) + storage.filter(
        |f: FieldView| text_before(field.name, f.name),
    )
}

/// The functions once another one is declared. One that is known already is
/// not listed twice.
pub open spec fn listed(methods: Seq<MethodView>, method: MethodView) -> Seq<MethodView> {
    if methods.contains(method) {
        methods
    } else {
        methods.push(method)
    }
}

/// What a contract is known to be once a node has been read: only invocations
/// of the two macros say anything.
pub open spec fn learned_from(contract: ContractView, node: Tree) -> ContractView {
    match node.kind {
        KindView::Macro { tokens, .. } => {
            if node.tail() == Some("sol_storage"@) {
                ContractView {
                    storage: storage_in(tokens).fold_left(
                        contract.storage,
                        |storage: Seq<FieldView>, f: FieldView| declared(storage, f),
                    ),
                    external_methods: contract.external_methods,
                }
            } else if node.tail() == Some("sol_interface"@) {
                ContractView {
                    storage: contract.storage,
                    external_methods: methods_in(tokens).fold_left(
                        contract.external_methods,
                        |methods: Seq<MethodView>, m: MethodView| listed(methods, m),
                    ),
                }
            } else {
                contract
            }
        },
        _ => contract,
    }
}

/// What a contract is known to be once a file has been read, in source order.
pub open spec fn learned(contract: ContractView, file: Tree) -> ContractView {
    nodes(file).fold_left(contract, |c: ContractView, node: Tree| learned_from(c, node))
}

impl Contract {
    fn declare(&mut self, field: StorageField)
        ensures
            final(self)@.storage == declared(old(self)@.storage, field@),
            final(self)@.external_methods == old(self)@.external_methods,
    {
        let ghost told = field@;
        let ghost all = self@.storage;
        let ghost earlier = |f: FieldView| text_before(f.name, told.name);
        let ghost later = |f: FieldView| text_before(told.name, f.name);
        let mut before: Vec<StorageField> = Vec::new();
        let mut after: Vec<StorageField> = Vec::new();
        for i in 0..self.storage.len()
            invariant
                told == field@,
                all == views(self.storage@),
                earlier == (|f: FieldView| text_before(f.name, told.name)),
                later == (|f: FieldView| text_before(told.name, f.name)),
                views(before@) == all.take(i as int).filter(earlier),
                views(after@) == all.take(i as int).filter(later),
        {
            let ghost front = before@;
            let ghost back = after@;
            let known = &self.storage[i];
            proof {
                assert(all.take(i + 1).drop_last() =~= all.take(i as int));
                assert(all.take(i + 1).last() == known@);
                reveal(Seq::filter);
            }
            if precedes(known.name.as_str(), field.name.as_str()) {
                before.push(known.clone());
                assert(views(before@) =~= views(front).push(known@));
            }
            if precedes(field.name.as_str(), known.name.as_str()) {
                after.push(known.clone());
                assert(views(after@) =~= views(back).push(known@));
            }
        }
        assert(all.take(self.storage@.len() as int) =~= all);
        let ghost front = before@;
        before.push(field);
        assert(views(before@) =~= views(front).push(told));
        let ghost front = before@;
        let ghost back = after@;
        before.append(&mut after);
        assert(views(before@) =~= views(front) + views(back));
        self.storage = before;
    }

    fn list(&mut self, method: ExternalMethod)
        ensures
            final(self)@.storage == old(self)@.storage,
            final(self)@.external_methods == listed(old(self)@.external_methods, method@),
    {
        let ghost told = method@;
        let ghost all = self@.external_methods;
        for i in 0..self.external_methods.len()
            invariant
                all == views(self.external_methods@),
                *self == *old(self),
                all == old(self)@.external_methods,
                forall|j: int| 0 <= j < i ==> (#[trigger] all[j]) != method@,
        {
            assert(all[i as int] == self.external_methods@[i as int]@);
            if self.external_methods[i].is(&method) {
                return ;
            }
        }
        assert(!all.contains(told));
        self.external_methods.push(method);
        assert(views(self.external_methods@) =~= all.push(told));
    }

    /// Learns from every file in the crate, since the macros need not share one.
    pub fn absorb(&mut self, file: &Node)
        ensures
            final(self)@ == learned(old(self)@, file@),
            old(self)@.well_formed() ==> final(self)@.well_formed(),
    {
        let ghost start = self@;
        let ghost step = |c: ContractView, node: Tree| learned_from(c, node);
        let ghost all = nodes(file@);
        let found = file.flatten();
        for i in 0..found.len()
            invariant
                trees(found@) == all,
                step == (|c: ContractView, node: Tree| learned_from(c, node)),
                self@ == all.take(i as int).fold_left(start, step),
                start.well_formed() ==> self@.well_formed(),
        {
            assert(all[i as int] == found@[i as int]@);
            proof {
                lemma_fold_step(all, start, step, i as int);
                lemma_learning_keeps_order(self@, all[i as int]);
            }
            self.absorb_node(found[i]);
        }
        assert(all.take(found@.len() as int) =~= all);
    }

    fn absorb_node(&mut self, node: &Node)
        ensures
            final(self)@ == learned_from(old(self)@, node@),
    {
        if let Kind::Macro { tokens, .. } = &node.kind {
            if let Some(name) = node.tail() {
                if same(name, "sol_storage") {
                    self.absorb_storage(tokens.as_str());
                } else if same(name, "sol_interface") {
                    self.absorb_interface(tokens.as_str());
                }
            }
        }
    }

    fn absorb_storage(&mut self, body: &str)
        ensures
            final(self)@.storage == storage_in(body@).fold_left(
                old(self)@.storage,
                |storage: Seq<FieldView>, f: FieldView| declared(storage, f),
            ),
            final(self)@.external_methods == old(self)@.external_methods,
    {
        let ghost start = self@.storage;
        let ghost step = |storage: Seq<FieldView>, f: FieldView| declared(storage, f);
        let ghost all = storage_in(body@);
        let fields = parse_storage(body);
        for i in 0..fields.len()
            invariant
                views(fields@) == all,
                step == (|storage: Seq<FieldView>, f: FieldView| declared(storage, f)),
                self@.storage == all.take(i as int).fold_left(start, step),
                self@.external_methods == old(self)@.external_methods,
        {
            assert(all[i as int] == fields@[i as int]@);
            proof {
                lemma_fold_step(all, start, step, i as int);
            }
            self.declare(fields[i].clone());
        }
        assert(all.take(fields@.len() as int) =~= all);
    }

    fn absorb_interface(&mut self, body: &str)
        ensures
            final(self)@.storage == old(self)@.storage,
            final(self)@.external_methods == methods_in(body@).fold_left(
                old(self)@.external_methods,
                |methods: Seq<MethodView>, m: MethodView| listed(methods, m),
            ),
    {
        let ghost start = self@.external_methods;
        let ghost step = |methods: Seq<MethodView>, m: MethodView| listed(methods, m);
        let ghost all = methods_in(body@);
        let methods = parse_interface_methods(body);
        for i in 0..methods.len()
            invariant
                views(methods@) == all,
                step == (|methods: Seq<MethodView>, m: MethodView| listed(methods, m)),
                self@.external_methods == all.take(i as int).fold_left(start, step),
                self@.storage == old(self)@.storage,
        {
            assert(all[i as int] == methods@[i as int]@);
            proof {
                lemma_fold_step(all, start, step, i as int);
            }
            self.list(methods[i].clone());
        }
        assert(all.take(methods@.len() as int) =~= all);
    }
}

/// Filtering keeps what is left in the order it had.
proof fn lemma_filter_rising(storage: Seq<FieldView>, keep: spec_fn(FieldView) -> bool)
    requires
        rising(storage),
    ensures
        rising(storage.filter(keep)),
    decreases storage.len(),
{
    reveal(Seq::filter);
    if storage.len() > 0 {
        let rest = storage.drop_last();
        assert forall|i: int, j: int| 0 <= i < j < rest.len() implies text_before(
            (#[trigger] rest[i]).name,
            (#[trigger] rest[j]).name,
        ) by {
            assert(rest[i] == storage[i] && rest[j] == storage[j]);
        }
        lemma_filter_rising(rest, keep);
        if keep(storage.last()) {
            let kept = rest.filter(keep);
            assert forall|i: int| 0 <= i < kept.len() implies text_before(
                (#[trigger] kept[i]).name,
                storage.last().name,
            ) by {
                assert(kept.contains(kept[i]));
                rest.lemma_filter_contains_rev(keep, kept[i]);
                let k = choose|k: int| 0 <= k < rest.len() && rest[k] == kept[i];
                assert(text_before(storage[k].name, storage[storage.len() - 1].name));
            }
        }
    }
}

/// Declaring a field keeps the order of the names.
proof fn lemma_declared_rising(storage: Seq<FieldView>, field: FieldView)
    requires
        rising(storage),
    ensures
        rising(declared(storage, field)),
{
    let earlier = |f: FieldView| text_before(f.name, field.name);
    let later = |f: FieldView| text_before(field.name, f.name);
    let front = storage.filter(earlier);
    let back = storage.filter(later);
    lemma_filter_rising(storage, earlier);
    lemma_filter_rising(storage, later);
    let all = declared(storage, field);
    assert forall|i: int, j: int| 0 <= i < j < all.len() implies text_before(
        (#[trigger] all[i]).name,
        (#[trigger] all[j]).name,
    ) by {
        let n = front.len();
        if i < n {
            storage.lemma_filter_pred(earlier, i);
        }
        if j > n {
            storage.lemma_filter_pred(later, j - n - 1);
        }
        if i < n && j > n {
            lemma_text_chain(all[i].name, field.name, all[j].name);
        }
    }
}

proof fn lemma_all_declared_rising(storage: Seq<FieldView>, fields: Seq<FieldView>)
    requires
        rising(storage),
    ensures
        rising(
            fields.fold_left(storage, |s: Seq<FieldView>, f: FieldView| declared(s, f)),
        ),
    decreases fields.len(),
{
    if fields.len() > 0 {
        let step = |s: Seq<FieldView>, f: FieldView| declared(s, f);
        lemma_all_declared_rising(storage, fields.drop_last());
        lemma_declared_rising(fields.drop_last().fold_left(storage, step), fields.last());
    }
}

/// Whatever a node says, no two fields come to share a name and the fields
/// stay in the order of their names.
proof fn lemma_learning_keeps_order(contract: ContractView, node: Tree)
    ensures
        contract.well_formed() ==> learned_from(contract, node).well_formed(),
{
    if contract.well_formed() {
        if let KindView::Macro { tokens, .. } = node.kind {
            lemma_all_declared_rising(contract.storage, storage_in(tokens));
        }
    }
}

proof fn lemma_lookup_filtered(
    storage: Seq<FieldView>,
    keep: spec_fn(FieldView) -> bool,
    name: Seq<char>,
)
    requires
        forall|f: FieldView| #[trigger] keep(f) || f.name != name,
    ensures
        field_named(storage.filter(keep), name) == field_named(storage, name),
    decreases storage.len(),
{
    if storage.len() == 0 {
        reveal(Seq::filter);
    } else {
        let rest = storage.drop_first();
        lemma_lookup_filtered(rest, keep, name);
        assert(storage =~= seq![storage[0]] + rest);
        Seq::filter_distributes_over_add(seq![storage[0]], rest, keep);
        reveal_with_fuel(Seq::filter, 2);
        assert(seq![storage[0]].drop_last() =~= Seq::<FieldView>::empty());
        if keep(storage[0]) {
            assert(storage.filter(keep) =~= seq![storage[0]] + rest.filter(keep));
            assert(storage.filter(keep).drop_first() =~= rest.filter(keep));
        } else {
            assert(storage.filter(keep) =~= rest.filter(keep));
        }
    }
}

proof fn lemma_lookup_split(a: Seq<FieldView>, b: Seq<FieldView>, name: Seq<char>)
    ensures
        field_named(a + b, name) == (if field_named(a, name) is Some {
            field_named(a, name)
        } else {
            field_named(b, name)
        }),
    decreases a.len(),
{
    if a.len() == 0 {
        assert(a + b =~= b);
    } else {
        lemma_lookup_split(a.drop_first(), b, name);
        assert((a + b).drop_first() =~= a.drop_first() + b);
    }
}

proof fn lemma_lookup_absent(storage: Seq<FieldView>, name: Seq<char>)
    requires
        forall|i: int| 0 <= i < storage.len() ==> (#[trigger] storage[i]).name != name,
    ensures
        field_named(storage, name) is None,
    decreases storage.len(),
{
    if storage.len() > 0 {
        assert forall|i: int| 0 <= i < storage.drop_first().len() implies (
        #[trigger] storage.drop_first()[i]).name != name by {
            assert(storage.drop_first()[i] == storage[i + 1]);
        }
        lemma_lookup_absent(storage.drop_first(), name);
    }
}

/// A declared field is found by its name, as it was last declared, and
/// declaring it hides no other field.
pub proof fn law_declared_field_is_found(
    storage: Seq<FieldView>,
    field: FieldView,
    name: Seq<char>,
)
    ensures
        field_named(declared(storage, field), name) == (if name == field.name {
            Some(field)
        } else {
            field_named(storage, name)
        }),
{
    let earlier = |f: FieldView| text_before(f.name, field.name);
    let later = |f: FieldView| text_before(field.name, f.name);
    let front = storage.filter(earlier);
    let back = storage.filter(later);
    assert(declared(storage, field) =~= front + (seq![field] + back));
    lemma_lookup_split(front, seq![field] + back, name);
    lemma_lookup_split(seq![field], back, name);
    reveal_with_fuel(field_named, 2);
    lemma_text_total(name, field.name);
    assert forall|i: int| 0 <= i < front.len() && !text_before(name, field.name) implies (
    #[trigger] front[i]).name != name by {
        storage.lemma_filter_pred(earlier, i);
    }
    assert forall|i: int| 0 <= i < back.len() && !text_before(field.name, name) implies (
    #[trigger] back[i]).name != name by {
        storage.lemma_filter_pred(later, i);
    }
    if name == field.name {
        lemma_lookup_absent(front, name);
    } else if text_before(name, field.name) {
        lemma_lookup_filtered(storage, earlier, name);
        lemma_lookup_absent(back, name);
    } else {
        lemma_lookup_filtered(storage, later, name);
        lemma_lookup_absent(front, name);
    }
}

/// A listed function is found by each of the names it goes by, and listing it
/// changes nothing for a name that was known before.
pub proof fn law_listed_method_is_found(
    methods: Seq<MethodView>,
    method: MethodView,
    name: Seq<char>,
)
    ensures
        method_named(methods, name) is Some ==> method_named(listed(methods, method), name)
            == method_named(methods, name),
        method_named(methods, name) is None && method.names.contains(name) ==> method_named(
            listed(methods, method),
            name,
        ) == Some(method),
        method_named(methods, name) is None && !method.names.contains(name) ==> method_named(
            listed(methods, method),
            name,
        ) is None,
    decreases methods.len(),
{
    reveal_with_fuel(method_named, 2);
    if methods.len() > 0 {
        let rest = methods.drop_first();
        law_listed_method_is_found(rest, method, name);
        assert(methods.push(method).drop_first() =~= rest.push(method));
        if methods.contains(method) && !methods[0].names.contains(name) {
            let k = choose|k: int| 0 <= k < methods.len() && methods[k] == method;
            if k > 0 {
                assert(rest[k - 1] == method);
            }
        } else if rest.contains(method) {
            let k = choose|k: int| 0 <= k < rest.len() && rest[k] == method;
            assert(methods[k + 1] == method);
        }
    }
}

/// A width is read off the type exactly as it is written.
pub proof fn law_declared_width_is_exact(bits: u32)
    ensures
        type_width("uint"@ + decimal(bits as nat)) == Some(bits),
        type_width("int"@ + decimal(bits as nat)) == Some(bits),
{
    reveal_strlit("uint");
    reveal_strlit("int");
    let digits = decimal(bits as nat);
    lemma_decimal_is_read_back(bits as nat);
    assert('0' as u32 == 48);
    assert(is_digit(digits[0]) && is_digit(digits.last()));
    assert(read_number(digits) == Some(bits));
    let wide = "uint"@ + digits;
    assert(trimmed(wide) == wide);
    assert(wide.subrange(0, 4) =~= "uint"@);
    assert(wide.skip(4) =~= digits);
    let signed = "int"@ + digits;
    assert(trimmed(signed) == signed);
    assert(signed.subrange(0, 3) =~= "int"@);
    assert(signed.subrange(0, 4)[0] == 'i');
    assert(signed.skip(3) =~= digits);
}

/// Nothing that is said takes away a field that is known.
pub proof fn law_known_field_stays_known(contract: ContractView, node: Tree, name: Seq<char>)
    requires
        contract.field(name) is Some,
    ensures
        learned_from(contract, node).field(name) is Some,
{
    if let KindView::Macro { tokens, .. } = node.kind {
        let step = |storage: Seq<FieldView>, f: FieldView| declared(storage, f);
        let known = |storage: Seq<FieldView>| field_named(storage, name) is Some;
        assert forall|storage: Seq<FieldView>, f: FieldView| known(storage) implies known(
            #[trigger] step(storage, f),
        ) by {
            law_declared_field_is_found(storage, f, name);
        }
        lemma_fold_keeps(storage_in(tokens), contract.storage, step, known);
    }
}

/// Nothing that is said changes what a name is known to call.
pub proof fn law_known_method_stays_known(contract: ContractView, node: Tree, name: Seq<char>)
    requires
        contract.method(name) is Some,
    ensures
        learned_from(contract, node).method(name) == contract.method(name),
{
    if let KindView::Macro { tokens, .. } = node.kind {
        let step = |methods: Seq<MethodView>, m: MethodView| listed(methods, m);
        let known = |methods: Seq<MethodView>| method_named(methods, name) == contract.method(name);
        assert forall|methods: Seq<MethodView>, m: MethodView| known(methods) implies known(
            #[trigger] step(methods, m),
        ) by {
            law_listed_method_is_found(methods, m, name);
        }
        lemma_fold_keeps(methods_in(tokens), contract.external_methods, step, known);
    }
}

/// A field that `sol_storage!` declares anywhere in a file is known once the
/// file has been read.
pub proof fn law_declared_field_is_learned(
    contract: ContractView,
    file: Tree,
    i: int,
    field: FieldView,
)
    requires
        0 <= i < nodes(file).len(),
        nodes(file)[i].tail() == Some("sol_storage"@),
        nodes(file)[i].kind matches KindView::Macro { tokens, .. } && storage_in(tokens).contains(
            field,
        ),
    ensures
        learned(contract, file).field(field.name) is Some,
{
    let node = nodes(file)[i];
    let name = field.name;
    let step = |c: ContractView, n: Tree| learned_from(c, n);
    let known = |c: ContractView| c.field(name) is Some;
    assert forall|c: ContractView| known(#[trigger] step(c, node)) by {
        if let KindView::Macro { tokens, .. } = node.kind {
            let fields = storage_in(tokens);
            let put = |storage: Seq<FieldView>, f: FieldView| declared(storage, f);
            let found = |storage: Seq<FieldView>| field_named(storage, name) is Some;
            let k = choose|k: int| 0 <= k < fields.len() && fields[k] == field;
            assert forall|storage: Seq<FieldView>| found(#[trigger] put(storage, fields[k])) by {
                law_declared_field_is_found(storage, fields[k], name);
            }
            assert forall|storage: Seq<FieldView>, f: FieldView| found(storage) implies found(
                #[trigger] put(storage, f),
            ) by {
                law_declared_field_is_found(storage, f, name);
            }
            lemma_fold_reaches(fields, c.storage, put, found, k);
        }
    }
    assert forall|c: ContractView, n: Tree| known(c) implies known(#[trigger] step(c, n)) by {
        law_known_field_stays_known(c, n, name);
    }
    lemma_fold_reaches(nodes(file), contract, step, known, i);
}

/// A function that `sol_interface!` declares anywhere in a file is known by
/// each of its names once the file has been read.
pub proof fn law_declared_method_is_learned(
    contract: ContractView,
    file: Tree,
    i: int,
    method: MethodView,
    name: Seq<char>,
)
    requires
        0 <= i < nodes(file).len(),
        nodes(file)[i].tail() == Some("sol_interface"@),
        nodes(file)[i].kind matches KindView::Macro { tokens, .. } && methods_in(tokens).contains(
            method,
        ),
        method.names.contains(name),
    ensures
        learned(contract, file).method(name) is Some,
{
    reveal_strlit("sol_interface");
    reveal_strlit("sol_storage");
    assert("sol_interface"@.len() != "sol_storage"@.len());
    let node = nodes(file)[i];
    let step = |c: ContractView, n: Tree| learned_from(c, n);
    let known = |c: ContractView| c.method(name) is Some;
    assert forall|c: ContractView| known(#[trigger] step(c, node)) by {
        if let KindView::Macro { tokens, .. } = node.kind {
            let all = methods_in(tokens);
            let put = |methods: Seq<MethodView>, m: MethodView| listed(methods, m);
            let found = |methods: Seq<MethodView>| method_named(methods, name) is Some;
            let k = choose|k: int| 0 <= k < all.len() && all[k] == method;
            assert forall|methods: Seq<MethodView>| found(#[trigger] put(methods, all[k])) by {
                law_listed_method_is_found(methods, all[k], name);
            }
            assert forall|methods: Seq<MethodView>, m: MethodView| found(methods) implies found(
                #[trigger] put(methods, m),
            ) by {
                law_listed_method_is_found(methods, m, name);
            }
            lemma_fold_reaches(all, c.external_methods, put, found, k);
        }
    }
    assert forall|c: ContractView, n: Tree| known(c) implies known(#[trigger] step(c, n)) by {
        law_known_method_stays_known(c, n, name);
    }
    lemma_fold_reaches(nodes(file), contract, step, known, i);
}

/// Each field of a contract is found by its name.
pub proof fn law_each_field_is_found_by_its_name(contract: ContractView, i: int)
    requires
        contract.well_formed(),
        0 <= i < contract.storage.len(),
    ensures
        contract.field(contract.storage[i].name) == Some(contract.storage[i]),
{
    let all = contract.storage;
    let front = all.take(i);
    let back = all.skip(i);
    let name = all[i].name;
    assert(all =~= front + back);
    lemma_lookup_split(front, back, name);
    assert forall|j: int| 0 <= j < front.len() implies (#[trigger] front[j]).name != name by {
        assert(text_before(all[j].name, all[i].name));
        lemma_text_total(all[j].name, name);
    }
    lemma_lookup_absent(front, name);
    assert(back[0] == all[i]);
}

/// The fields that a node declares.
pub open spec fn fields_said(node: Tree) -> Seq<FieldView> {
    match node.kind {
        KindView::Macro { tokens, .. } => if node.tail() == Some("sol_storage"@) {
            storage_in(tokens)
        } else {
            Seq::empty()
        },
        _ => Seq::empty(),
    }
}

/// The functions that a node declares.
pub open spec fn methods_said(node: Tree) -> Seq<MethodView> {
    match node.kind {
        KindView::Macro { tokens, .. } => if node.tail() == Some("sol_interface"@) {
            methods_in(tokens)
        } else {
            Seq::empty()
        },
        _ => Seq::empty(),
    }
}

/// The fields once some more are declared, one after the other.
pub open spec fn all_declared(storage: Seq<FieldView>, fields: Seq<FieldView>) -> Seq<FieldView> {
    fields.fold_left(storage, |s: Seq<FieldView>, f: FieldView| declared(s, f))
}

/// The functions once some more are declared, one after the other.
pub open spec fn all_listed(methods: Seq<MethodView>, more: Seq<MethodView>) -> Seq<MethodView> {
    more.fold_left(methods, |s: Seq<MethodView>, m: MethodView| listed(s, m))
}

/// What nodes say is what they declare, fields and functions apart.
proof fn lemma_learned_lists(contract: ContractView, said: Seq<Tree>)
    ensures
        said.fold_left(contract, |c: ContractView, node: Tree| learned_from(c, node)) == (
        ContractView {
            storage: all_declared(
                contract.storage,
                said.flat_map(|node: Tree| fields_said(node)),
            ),
            external_methods: all_listed(
                contract.external_methods,
                said.flat_map(|node: Tree| methods_said(node)),
            ),
        }),
    decreases said.len(),
{
    let fields = |node: Tree| fields_said(node);
    let methods = |node: Tree| methods_said(node);
    if said.len() == 0 {
        assert(said.flat_map(fields) =~= Seq::empty());
        assert(said.flat_map(methods) =~= Seq::empty());
    } else {
        let rest = said.drop_last();
        let node = said.last();
        lemma_learned_lists(contract, rest);
        assert(said =~= rest.push(node));
        rest.lemma_flat_map_push(fields, node);
        rest.lemma_flat_map_push(methods, node);
        lemma_folded_apart(
            rest.flat_map(fields),
            fields_said(node),
            contract.storage,
            |s: Seq<FieldView>, f: FieldView| declared(s, f),
        );
        lemma_folded_apart(
            rest.flat_map(methods),
            methods_said(node),
            contract.external_methods,
            |s: Seq<MethodView>, m: MethodView| listed(s, m),
        );
        reveal_strlit("sol_interface");
        reveal_strlit("sol_storage");
        assert("sol_interface"@.len() != "sol_storage"@.len());
    }
}

/// The last of some fields that has a name, if one has it.
spec fn last_named(fields: Seq<FieldView>, name: Seq<char>) -> Option<FieldView>
    decreases fields.len(),
{
    if fields.len() == 0 {
        None
    } else if fields.last().name == name {
        Some(fields.last())
    } else {
        last_named(fields.drop_last(), name)
    }
}

proof fn lemma_lookup_declared(storage: Seq<FieldView>, fields: Seq<FieldView>, name: Seq<char>)
    ensures
        field_named(all_declared(storage, fields), name) == (match last_named(fields, name) {
            Some(field) => Some(field),
            None => field_named(storage, name),
        }),
    decreases fields.len(),
{
    if fields.len() > 0 {
        let rest = fields.drop_last();
        lemma_lookup_declared(storage, rest, name);
        law_declared_field_is_found(all_declared(storage, rest), fields.last(), name);
    }
}

/// Of fields whose names rise, the first is the first to be found.
proof fn lemma_first_named(a: Seq<FieldView>, b: Seq<FieldView>)
    requires
        rising(b),
        a.len() > 0,
        field_named(a, a[0].name) == field_named(b, a[0].name),
    ensures
        b.len() > 0,
        b[0].name == a[0].name || text_before(b[0].name, a[0].name),
{
    let name = a[0].name;
    if forall|i: int| 0 <= i < b.len() ==> (#[trigger] b[i]).name != name {
        lemma_lookup_absent(b, name);
    }
    let k = choose|k: int| 0 <= k < b.len() && (#[trigger] b[k]).name == name;
    if k > 0 {
        assert(text_before(b[0].name, b[k].name));
    }
}

/// Fields whose names rise are told apart by looking them up.
proof fn lemma_same_lookups(a: Seq<FieldView>, b: Seq<FieldView>)
    requires
        rising(a),
        rising(b),
        forall|name: Seq<char>| #[trigger] field_named(a, name) == field_named(b, name),
    ensures
        a == b,
    decreases a.len(),
{
    if a.len() == 0 {
        if b.len() > 0 {
            assert(field_named(a, b[0].name) == field_named(b, b[0].name));
        }
        assert(a =~= b);
    } else {
        lemma_first_named(a, b);
        assert(field_named(a, b[0].name) == field_named(b, b[0].name));
        lemma_first_named(b, a);
        lemma_text_total(a[0].name, b[0].name);
        assert(field_named(a, a[0].name) == field_named(b, a[0].name));
        assert(a[0] == b[0]);
        let rest_a = a.drop_first();
        let rest_b = b.drop_first();
        assert(forall|i: int| 0 <= i < rest_a.len() ==> #[trigger] rest_a[i] == a[i + 1]);
        assert(forall|i: int| 0 <= i < rest_b.len() ==> #[trigger] rest_b[i] == b[i + 1]);
        assert forall|name: Seq<char>| #[trigger] field_named(rest_a, name) == field_named(
            rest_b,
            name,
        ) by {
            assert(field_named(a, name) == field_named(b, name));
            if name == a[0].name {
                assert forall|i: int| 0 <= i < rest_a.len() implies (#[trigger] rest_a[i]).name
                    != name by {
                    assert(text_before(a[0].name, a[i + 1].name));
                    lemma_text_total(a[0].name, a[i + 1].name);
                }
                assert forall|i: int| 0 <= i < rest_b.len() implies (#[trigger] rest_b[i]).name
                    != name by {
                    assert(text_before(b[0].name, b[i + 1].name));
                    lemma_text_total(b[0].name, b[i + 1].name);
                }
                lemma_lookup_absent(rest_a, name);
                lemma_lookup_absent(rest_b, name);
            }
        }
        lemma_same_lookups(rest_a, rest_b);
        assert(a =~= seq![a[0]] + rest_a);
        assert(b =~= seq![b[0]] + rest_b);
    }
}

/// Functions that are known already change nothing.
proof fn lemma_nothing_listed(methods: Seq<MethodView>, more: Seq<MethodView>)
    requires
        forall|i: int| 0 <= i < more.len() ==> methods.contains(#[trigger] more[i]),
    ensures
        all_listed(methods, more) == methods,
    decreases more.len(),
{
    if more.len() > 0 {
        let rest = more.drop_last();
        assert forall|i: int| 0 <= i < rest.len() implies methods.contains(#[trigger] rest[i]) by {
            assert(rest[i] == more[i]);
        }
        lemma_nothing_listed(methods, rest);
        assert(methods.contains(more[more.len() - 1]));
    }
}

/// What is listed stays where it is, and nothing is listed twice.
proof fn lemma_listed(methods: Seq<MethodView>, more: Seq<MethodView>)
    ensures
        methods.is_prefix_of(all_listed(methods, more)),
        forall|i: int| 0 <= i < more.len() ==> all_listed(methods, more).contains(#[trigger] more[i]),
        forall|i: int, j: int|
            0 <= i < j < all_listed(methods, more).len() && methods.len() <= j ==> #[trigger]
            all_listed(methods, more)[i] != #[trigger] all_listed(methods, more)[j],
    decreases more.len(),
{
    let after = all_listed(methods, more);
    if more.len() == 0 {
        assert(methods.subrange(0, methods.len() as int) =~= methods);
    } else {
        let rest = more.drop_last();
        let before = all_listed(methods, rest);
        let last = more.last();
        lemma_listed(methods, rest);
        assert(after == listed(before, last));
        assert forall|m: MethodView| before.contains(m) || m == last implies after.contains(m) by {
            if before.contains(m) {
                let k = choose|k: int| 0 <= k < before.len() && before[k] == m;
                assert(after[k] == m);
            } else {
                assert(after[before.len() as int] == m);
            }
        }
        assert forall|i: int| 0 <= i < more.len() implies after.contains(#[trigger] more[i]) by {
            if i < rest.len() {
                assert(rest[i] == more[i]);
            }
        }
        assert(after.subrange(0, methods.len() as int) =~= before.subrange(
            0,
            methods.len() as int,
        ));
        assert forall|i: int, j: int| 0 <= i < j < after.len() && methods.len() <= j implies
            #[trigger] after[i] != #[trigger] after[j] by {
            assert(after[i] == before[i]);
            if j < before.len() {
                assert(after[j] == before[j]);
            } else {
                assert(before.contains(before[i]));
            }
        }
    }
}

/// A file that is read again teaches nothing new: it declares the fields and
/// the functions that it has declared already.
pub proof fn law_reading_again_teaches_nothing(contract: ContractView, file: Tree)
    requires
        contract.well_formed(),
    ensures
        learned(learned(contract, file), file) == learned(contract, file),
{
    let fields = nodes(file).flat_map(|node: Tree| fields_said(node));
    let methods = nodes(file).flat_map(|node: Tree| methods_said(node));
    let once = learned(contract, file);
    let twice = learned(once, file);
    lemma_learned_lists(contract, nodes(file));
    lemma_learned_lists(once, nodes(file));
    lemma_all_declared_rising(contract.storage, fields);
    lemma_all_declared_rising(once.storage, fields);
    assert forall|name: Seq<char>| #[trigger] field_named(once.storage, name) == field_named(
        twice.storage,
        name,
    ) by {
        lemma_lookup_declared(contract.storage, fields, name);
        lemma_lookup_declared(once.storage, fields, name);
    }
    lemma_same_lookups(once.storage, twice.storage);
    lemma_listed(contract.external_methods, methods);
    lemma_nothing_listed(once.external_methods, methods);
}

/// Reading a file takes nothing away. Every field is still known by its name,
/// the functions stand where they stood, and of those that come behind them
/// none was known before and none comes twice.
pub proof fn law_reading_takes_nothing_away(contract: ContractView, file: Tree)
    ensures
        forall|name: Seq<char>|
            contract.field(name) is Some ==> #[trigger] learned(contract, file).field(name) is Some,
        contract.external_methods.is_prefix_of(learned(contract, file).external_methods),
        forall|i: int, j: int|
            0 <= i < j < learned(contract, file).external_methods.len()
                && contract.external_methods.len() <= j ==> #[trigger] learned(
                contract,
                file,
            ).external_methods[i] != #[trigger] learned(contract, file).external_methods[j],
{
    let fields = nodes(file).flat_map(|node: Tree| fields_said(node));
    let methods = nodes(file).flat_map(|node: Tree| methods_said(node));
    lemma_learned_lists(contract, nodes(file));
    assert forall|name: Seq<char>| contract.field(name) is Some implies #[trigger] learned(
        contract,
        file,
    ).field(name) is Some by {
        lemma_lookup_declared(contract.storage, fields, name);
    }
    lemma_listed(contract.external_methods, methods);
}

} // verus!
