//! Rules about numbers that quietly stop being the number you meant.

use super::{
    contract_impls, field_of_self, finding_at, functions, functions_of, look_in_all, report,
    seen_in_all, self_member, Ctx, CtxView, Pattern, Rule,
};
use crate::finding::{Finding, FindingView, Severity};
use crate::model::{type_width, Contract, ContractView};
use crate::order::views;
use crate::syntax::{trees, Form, Kind, KindView, Node, Sort, Tree};
use crate::text::{
    begins, chars, decimal, number_text, parse_number, read_number, same, starts_with, string,
};
use vstd::prelude::*;
use vstd::slice::slice_subrange;

verus! {

/// A conversion from a wide storage value into a narrow one.
///
/// This is the rule that most needs to know types, and the one that shows why
/// reading `sol_storage!` was worth it. `self.last_refill.get().to::<u64>()` is
/// exact when the field is a `uint64` and lossy when it is a `uint256`, and the
/// only difference is a declaration the contract already made.
pub struct LossyIntegerConversion;

/// The width that the name of a primitive integer type says, `u64` giving 64.
/// What `usize` is wide depends on the platform, and is never what a contract
/// means.
pub open spec fn primitive_width(name: Seq<char>) -> Option<u32> {
    if begins(name, "u"@) || begins(name, "i"@) {
        if name.skip(1) == "size"@ {
            None
        } else {
            read_number(name.skip(1))
        }
    } else {
        None
    }
}

/// The width of a primitive integer type.
pub open spec fn bits_of_type(t: Tree) -> Option<u32> {
    if t.kind == (KindView::Type { named: true }) {
        match t.tail() {
            Some(name) => primitive_width(name),
            None => None,
        }
    } else {
        None
    }
}

/// The width that an argument in angle brackets names, where it is a type.
pub open spec fn bits_of_argument(argument: Tree) -> Option<u32> {
    if argument.children.len() > 0 && argument.children[0].sort() == Sort::Type {
        bits_of_type(argument.children[0])
    } else {
        None
    }
}

/// The first width that some arguments in angle brackets name.
pub open spec fn first_bits(arguments: Seq<Tree>) -> Option<u32>
    decreases arguments.len(),
{
    if arguments.len() == 0 {
        None
    } else if bits_of_argument(arguments[0]) is Some {
        bits_of_argument(arguments[0])
    } else {
        first_bits(arguments.drop_first())
    }
}

/// The width named in the `::<u64>` of a method call.
pub open spec fn turbofish_width(call: Tree) -> Option<u32> {
    match call.first(Sort::Generics) {
        Some(generics) => first_bits(generics.those(Sort::GenericArgument)),
        None => None,
    }
}

/// The declared storage field that an expression reads, with its width, where
/// it reads one directly: `self.<field>.get()`.
pub open spec fn field_read(t: Tree, contract: ContractView) -> Option<(Seq<char>, u32)> {
    if t.form() == Some(Form::MethodCall) && t.name() == Some("get"@) && t.operands().len() > 0 {
        match field_of_self(t.operands()[0]) {
            Some(name) => match contract.field(name) {
                Some(field) => match type_width(field.sol_type) {
                    Some(bits) => Some((field.name, bits)),
                    None => None,
                },
                None => None,
            },
            None => None,
        }
    } else {
        None
    }
}

/// How a node narrows a storage value: the field, its width, the width it is
/// narrowed to, and the method where it is not a cast.
pub ghost struct Narrowing {
    pub field: Seq<char>,
    pub bits: u32,
    pub target: u32,
    pub method: Option<Seq<char>>,
}

/// The conversion that a node makes from a storage field into a type too
/// narrow for it, if it makes one.
pub open spec fn narrowing(node: Tree, contract: ContractView) -> Option<Narrowing> {
    if node.operands().len() == 0 {
        None
    } else if node.form() == Some(Form::MethodCall) && (node.name() == Some("to"@) || node.name()
        == Some("wrapping_to"@)) {
        match (turbofish_width(node), field_read(node.operands()[0], contract)) {
            (Some(target), Some((field, bits))) => if bits > target {
                Some(Narrowing { field, bits, target, method: node.name() })
            } else {
                None
            },
            _ => None,
        }
    } else if node.form() == Some(Form::Cast) && node.first(Sort::Type) is Some {
        match (
            bits_of_type(node.first(Sort::Type).unwrap()),
            field_read(node.operands()[0], contract),
        ) {
            (Some(target), Some((field, bits))) => if bits > target {
                Some(Narrowing { field, bits, target, method: None })
            } else {
                None
            },
            _ => None,
        }
    } else {
        None
    }
}

impl Narrowing {
    /// `to` panics when the value does not fit, which on Stylus is a trap rather
    /// than a revert. Everything else truncates and says nothing, which is worse.
    pub open spec fn is_silent(self) -> bool {
        self.method != Some("to"@)
    }

    pub open spec fn message(self) -> Seq<char> {
        let declared = "`"@ + self.field + "` is declared uint"@ + decimal(self.bits as nat);
        match self.method {
            Some(method) => declared + " and is being narrowed to u"@ + decimal(self.target as nat)
                + " by `"@ + method + "`"@,
            None => declared + " and is being cast to u"@ + decimal(self.target as nat),
        }
    }

    pub open spec fn advice(self) -> Seq<char> {
        if self.method is None {
            "an `as` cast keeps the low bits and discards the rest without a word. Keep the value wide, or refuse the operation when it does not fit."@
        } else if self.is_silent() {
            "the extra bits are dropped without a word, so the contract carries on with a different number. Keep the value wide, or refuse the operation when it does not fit."@
        } else {
            "this panics when the value does not fit, and on Stylus a panic is a trap rather than a revert. Check the range and return an Err instead."@
        }
    }
}

impl Pattern for LossyIntegerConversion {
    open spec fn seen(&self, node: Tree, function: Tree, ctx: CtxView) -> Seq<FindingView> {
        match narrowing(node, ctx.contract) {
            Some(lossy) => seq![
                finding_at(
                    "lossy-integer-conversion"@,
                    if lossy.is_silent() {
                        Severity::High
                    } else {
                        Severity::Medium
                    },
                    ctx,
                    node.place(),
                    lossy.message(),
                    lossy.advice(),
                ),
            ],
            None => Seq::empty(),
        }
    }

    fn see(&self, node: &Node, function: &Node, ctx: &Ctx) -> (r: Vec<Finding>) {
        let mut r: Vec<Finding> = Vec::new();
        assert(views(r@) =~= Seq::empty());
        let operands = node.operands();
        if operands.len() == 0 {
            return r;
        }
        assert(trees(operands@)[0] == operands@[0]@);
        match node.form() {
            Some(Form::MethodCall) => {
                let method = match node.name() {
                    Some(method) => method,
                    None => {
                        return r;
                    },
                };
                // `to` panics when the value does not fit, which on Stylus is
                // a trap rather than a revert. `wrapping_to` truncates and says
                // nothing, which is worse: the contract carries on with a
                // number that is not the one it read.
                let silent = same(method, "wrapping_to");
                if !silent && !same(method, "to") {
                    return r;
                }
                if let (Some(target), Some((field, bits))) = (
                    turbofish_bits(node),
                    read_field_bits(operands[0], ctx.contract),
                ) {
                    if bits > target {
                        proof {
                            reveal_strlit("to");
                            reveal_strlit("wrapping_to");
                        }
                        let mut message = declared_as(field, bits);
                        message.append(" and is being narrowed to u");
                        message.append(number_text(target as usize).as_str());
                        message.append(" by `");
                        message.append(method);
                        message.append("`");
                        r.push(
                            report(
                                "lossy-integer-conversion",
                                if silent { Severity::High } else { Severity::Medium },
                                ctx,
                                node.place(),
                                message.as_str(),
                                if silent {
                                    "the extra bits are dropped without a word, so the contract carries on with a different number. Keep the value wide, or refuse the operation when it does not fit."
                                } else {
                                    "this panics when the value does not fit, and on Stylus a panic is a trap rather than a revert. Check the range and return an Err instead."
                                },
                            ),
                        );
                        assert(views(r@) =~= self.seen(node@, function@, ctx@));
                    }
                }
            },
            Some(Form::Cast) => {
                let ty = match node.first(Sort::Type) {
                    Some(ty) => ty,
                    None => {
                        return r;
                    },
                };
                if let (Some(target), Some((field, bits))) = (
                    type_bits(ty),
                    read_field_bits(operands[0], ctx.contract),
                ) {
                    if bits > target {
                        let mut message = declared_as(field, bits);
                        message.append(" and is being cast to u");
                        message.append(number_text(target as usize).as_str());
                        r.push(
                            report(
                                "lossy-integer-conversion",
                                Severity::High,
                                ctx,
                                node.place(),
                                message.as_str(),
                                "an `as` cast keeps the low bits and discards the rest without a word. Keep the value wide, or refuse the operation when it does not fit.",
                            ),
                        );
                        assert(views(r@) =~= self.seen(node@, function@, ctx@));
                    }
                }
            },
            _ => {},
        }
        r
    }
}

impl Rule for LossyIntegerConversion {
    open spec fn named(&self) -> Seq<char> {
        "lossy-integer-conversion"@
    }

    open spec fn described(&self) -> Seq<char> {
        "a storage value narrowed into a type too small to hold it"@
    }

    open spec fn weighs(&self) -> Severity {
        Severity::High
    }

    open spec fn reports(&self, file: Tree, ctx: CtxView) -> Seq<FindingView> {
        seen_in_all(*self, functions_of(file, false), ctx)
    }

    fn id(&self) -> (r: &'static str) {
        "lossy-integer-conversion"
    }

    fn description(&self) -> (r: &'static str) {
        "a storage value narrowed into a type too small to hold it"
    }

    fn severity(&self) -> (r: Severity) {
        Severity::High
    }

    fn check(&self, file: &Node, ctx: &Ctx) -> (r: Vec<Finding>) {
        let items = contract_impls(file);
        let all = functions(&items);
        look_in_all(self, &all, ctx)
    }
}

fn declared_as(field: &str, bits: u32) -> (r: String)
    ensures
        r@ == "`"@ + field@ + "` is declared uint"@ + decimal(bits as nat),
{
    let mut message = "`".to_owned();
    message.append(field);
    message.append("` is declared uint");
    message.append(number_text(bits as usize).as_str());
    message
}

/// The width named in a `::<u64>()` turbofish.
fn turbofish_bits(call: &Node) -> (r: Option<u32>)
    ensures
        r == turbofish_width(call@),
{
    let generics = match call.first(Sort::Generics) {
        Some(generics) => generics,
        None => {
            return None;
        },
    };
    let arguments = generics.those(Sort::GenericArgument);
    let ghost all = trees(arguments@);
    assert(all.skip(0) =~= all);
    for i in 0..arguments.len()
        invariant
            all == trees(arguments@),
            turbofish_width(call@) == first_bits(all),
            first_bits(all) == first_bits(all.skip(i as int)),
    {
        let argument = arguments[i];
        assert(all[i as int] == argument@);
        assert(all.skip(i as int).drop_first() =~= all.skip(i + 1));
        if argument.children.len() > 0 {
            assert(argument@.children[0] == argument.children@[0]@);
            if argument.children[0].sort() == Sort::Type {
                if let Some(bits) = type_bits(&argument.children[0]) {
                    return Some(bits);
                }
            }
        }
    }
    None
}

/// The width of a primitive integer type, `u64` giving 64.
fn type_bits(ty: &Node) -> (r: Option<u32>)
    ensures
        r == bits_of_type(ty@),
{
    match &ty.kind {
        Kind::Type { named: true } => {},
        _ => {
            return None;
        },
    }
    let name = match ty.tail() {
        Some(name) => name,
        None => {
            return None;
        },
    };
    proof {
        reveal_strlit("u");
        reveal_strlit("i");
    }
    let letters = chars(name);
    let n = letters.len();
    if !starts_with(letters.as_slice(), "u") && !starts_with(letters.as_slice(), "i") {
        return None;
    }
    let digits = slice_subrange(letters.as_slice(), 1, n);
    assert(digits@ =~= name@.skip(1));
    if same(string(digits).as_str(), "size") {
        return None;
    }
    parse_number(digits)
}

/// If an expression reads a declared storage field, its name and declared width.
///
/// Only a direct read counts. Once a value has been through arithmetic the
/// declaration no longer bounds it, and reporting on it would be a guess.
fn read_field_bits<'a>(expr: &Node, contract: &'a Contract) -> (r: Option<(&'a str, u32)>)
    ensures
        match r {
            Some((field, bits)) => field_read(expr@, contract@) == Some((field@, bits)),
            None => field_read(expr@, contract@) is None,
        },
{
    if expr.form() != Some(Form::MethodCall) {
        return None;
    }
    match expr.name() {
        Some(method) => {
            if !same(method, "get") {
                return None;
            }
        },
        None => {
            return None;
        },
    }
    let operands = expr.operands();
    if operands.len() == 0 {
        return None;
    }
    assert(trees(operands@)[0] == operands@[0]@);
    let name = match self_member(operands[0]) {
        Some(name) => name,
        None => {
            return None;
        },
    };
    match contract.field(name) {
        Some(declared) => match declared.int_bits() {
            Some(bits) => Some((declared.name.as_str(), bits)),
            None => None,
        },
        None => None,
    }
}

/// A conversion is reported only where a direct read of a declared field meets
/// a type narrower than the declaration.
pub proof fn law_only_a_loss_is_reported(node: Tree, function: Tree, ctx: CtxView)
    ensures
        LossyIntegerConversion.seen(node, function, ctx).len() > 0 <==> narrowing(
            node,
            ctx.contract,
        ) is Some,
        narrowing(node, ctx.contract) matches Some(lossy) ==> lossy.bits > lossy.target
            && field_read(node.operands()[0], ctx.contract) == Some((lossy.field, lossy.bits)),
{
}

/// A value that fits is converted without a word: `to`, `wrapping_to` and `as`
/// are quiet on a field that is declared no wider than the type converted to.
pub proof fn law_what_fits_is_quiet(
    node: Tree,
    function: Tree,
    ctx: CtxView,
    field: Seq<char>,
    bits: u32,
)
    requires
        node.operands().len() > 0,
        field_read(node.operands()[0], ctx.contract) == Some((field, bits)),
        turbofish_width(node) matches Some(target) ==> bits <= target,
        node.first(Sort::Type) matches Some(ty) ==> (bits_of_type(ty) matches Some(target) ==> bits
            <= target),
    ensures
        LossyIntegerConversion.seen(node, function, ctx) == Seq::<FindingView>::empty(),
{
}

/// A loss that says nothing outranks one that panics.
pub proof fn law_silent_loss_outranks_a_panic(node: Tree, function: Tree, ctx: CtxView)
    ensures
        narrowing(node, ctx.contract) matches Some(lossy) ==> LossyIntegerConversion.seen(
            node,
            function,
            ctx,
        )[0].severity == (if lossy.is_silent() {
            Severity::High
        } else {
            Severity::Medium
        }),
{
}

} // verus!
