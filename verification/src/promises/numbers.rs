//! What is promised of the rule on narrowing.

use super::model::law_the_width_of_a_type;
use super::storage::{law_naming_a_field, this_field};
use super::words::bare;
use crate::declarations::FieldView;
use crate::finding::{FindingView, Severity};
use crate::model::{type_width, ContractView};
use crate::rules::numbers::{
    bits_of_argument, bits_of_type, field_read, first_bits, turbofish_width, LossyIntegerConversion,
};
use crate::rules::{shown_at, CtxView, Pattern};
use crate::syntax::{Form, KindView, Sort, Tree};
use crate::text::{decimal, is_digit, lemma_decimal_is_read_back, number, read_number, unsigned};
use vstd::prelude::*;

verus! {

/// A run of digits is read as the number it writes in base ten, each digit
/// counting for ten times the one behind it.
pub proof fn law_digits_are_read_in_base_ten(digits: Seq<char>, digit: char)
    requires
        '0' <= digit <= '9',
    ensures
        number(Seq::<char>::empty()) == 0,
        number(digits.push(digit)) == 10 * number(digits) + (digit as nat - 48) as nat,
{
    assert('0' as nat == 48);
    assert(digits.push(digit).drop_last() =~= digits);
}

/// What is read as a number is a run of digits, with a plus sign before it or
/// not, that fits in 32 bits; and every such text is read as its number.
pub proof fn law_what_is_a_number(text: Seq<char>, digits: Seq<char>)
    requires
        text == digits && (text.len() > 0 ==> text[0] != '+') || text == seq!['+'] + digits,
    ensures
        read_number(text) is Some <==> digits.len() > 0 && number(digits) <= u32::MAX && forall|
            i: int,
        |
            0 <= i < digits.len() ==> '0' <= #[trigger] digits[i] <= '9',
        read_number(text) matches Some(n) ==> n == number(digits),
{
    if text == seq!['+'] + digits {
        assert(text.drop_first() =~= digits);
    }
    assert(unsigned(text) == digits);
    if read_number(text) is Some {
        assert forall|i: int| 0 <= i < digits.len() implies '0' <= #[trigger] digits[i] <= '9' by {
            assert(is_digit(digits[i]));
        }
    }
    if digits.len() > 0 && number(digits) <= u32::MAX && forall|i: int|
        0 <= i < digits.len() ==> '0' <= #[trigger] digits[i] <= '9' {
        assert forall|i: int| 0 <= i < digits.len() implies is_digit(#[trigger] digits[i]) by {
            assert('0' <= digits[i] <= '9');
        }
    }
}

/// A number that is written down is read back.
pub proof fn law_numbers_are_read_back(n: u32)
    ensures
        read_number(decimal(n as nat)) == Some(n),
{
    lemma_decimal_is_read_back(n as nat);
    let digits = decimal(n as nat);
    assert(is_digit(digits[0]));
    assert('0' as u32 == 48 && '9' as u32 == 57 && '+' as u32 == 43);
}

/// A number is written in base ten, its last digit last.
pub proof fn law_numbers_are_written_in_base_ten(n: nat)
    ensures
        n < 10 ==> decimal(n).len() == 1 && decimal(n)[0] as nat == 48 + n,
        n >= 10 ==> decimal(n).drop_last() == decimal(n / 10) && decimal(n).last() as nat == 48 + n
            % 10,
{
    assert('0' as nat == 48);
    if n >= 10 {
        assert(decimal(n).drop_last() =~= decimal(n / 10));
    }
}

/// True for a type that is named, on whatever path, by `u` or `i` and a width.
pub open spec fn wide(t: Tree, bits: u32) -> bool {
    &&& t.kind == (KindView::Type { named: true })
    &&& exists|digits: Seq<char>|
        digits != "size"@ && read_number(digits) == Some(bits) && (t.tail() == Some(
            #[trigger] ("u"@ + digits),
        ) || t.tail() == Some("i"@ + digits))
}

proof fn lemma_wide(t: Tree, bits: u32)
    ensures
        bits_of_type(t) == Some(bits) <==> wide(t, bits),
{
    reveal_strlit("u");
    reveal_strlit("i");
    if bits_of_type(t) == Some(bits) {
        let name = t.tail().unwrap();
        let digits = name.skip(1);
        assert(name.subrange(0, 1)[0] == name[0]);
        if name[0] == 'u' {
            assert(name =~= "u"@ + digits);
        } else {
            assert(name =~= "i"@ + digits);
        }
        assert(t.tail() == Some("u"@ + digits) || t.tail() == Some("i"@ + digits));
    }
    if wide(t, bits) {
        let digits = choose|digits: Seq<char>|
            digits != "size"@ && read_number(digits) == Some(bits) && (t.tail() == Some(
                #[trigger] ("u"@ + digits),
            ) || t.tail() == Some("i"@ + digits));
        let name = t.tail().unwrap();
        assert(name.skip(1) =~= digits);
        if name == "u"@ + digits {
            assert(name.subrange(0, 1) =~= "u"@);
        } else {
            assert(name.subrange(0, 1) =~= "i"@);
        }
    }
}

/// True for an argument in angle brackets that is a type with a width.
pub open spec fn wide_argument(argument: Tree, bits: u32) -> bool {
    argument.children.len() > 0 && wide(argument.children[0], bits)
}

/// True for some arguments of which the first with a width has this one.
pub open spec fn first_width(arguments: Seq<Tree>, bits: u32) -> bool {
    exists|k: int|
        {
            &&& 0 <= k < arguments.len()
            &&& wide_argument(#[trigger] arguments[k], bits)
            &&& forall|j: int, other: u32|
                0 <= j < k ==> !(#[trigger] wide_argument(arguments[j], other))
        }
}

/// True for a method call whose first argument in angle brackets with a width has
/// this one.
pub open spec fn turbofish(call: Tree, bits: u32) -> bool {
    &&& call.first(Sort::Generics) is Some
    &&& first_width(call.first(Sort::Generics).unwrap().those(Sort::GenericArgument), bits)
}

proof fn lemma_wide_argument(argument: Tree, bits: u32)
    ensures
        bits_of_argument(argument) == Some(bits) <==> wide_argument(argument, bits),
{
    if argument.children.len() > 0 {
        lemma_wide(argument.children[0], bits);
    }
}

proof fn lemma_first_bits(arguments: Seq<Tree>, bits: u32)
    ensures
        first_bits(arguments) == Some(bits) <==> exists|k: int|
            0 <= k < arguments.len() && bits_of_argument(#[trigger] arguments[k]) == Some(bits) && (
            forall|j: int| 0 <= j < k ==> bits_of_argument(#[trigger] arguments[j]) is None),
    decreases arguments.len(),
{
    if arguments.len() > 0 {
        let rest = arguments.drop_first();
        lemma_first_bits(rest, bits);
        assert(forall|i: int| 0 <= i < rest.len() ==> #[trigger] rest[i] == arguments[i + 1]);
        if bits_of_argument(arguments[0]) is Some {
            if first_bits(arguments) == Some(bits) {
                assert(bits_of_argument(arguments[0]) == Some(bits));
            }
        } else {
            if first_bits(rest) == Some(bits) {
                let k = choose|k: int|
                    0 <= k < rest.len() && bits_of_argument(#[trigger] rest[k]) == Some(bits) && (
                    forall|j: int| 0 <= j < k ==> bits_of_argument(#[trigger] rest[j]) is None);
                assert(bits_of_argument(arguments[k + 1]) == Some(bits));
                assert forall|j: int| 0 <= j < k + 1 implies bits_of_argument(
                    #[trigger] arguments[j],
                ) is None by {
                    if j > 0 {
                        assert(bits_of_argument(rest[j - 1]) is None);
                    }
                }
            }
            if exists|k: int|
                0 <= k < arguments.len() && bits_of_argument(#[trigger] arguments[k]) == Some(bits)
                    && (forall|j: int|
                    0 <= j < k ==> bits_of_argument(#[trigger] arguments[j]) is None) {
                let k = choose|k: int|
                    0 <= k < arguments.len() && bits_of_argument(#[trigger] arguments[k]) == Some(
                        bits,
                    ) && (forall|j: int|
                        0 <= j < k ==> bits_of_argument(#[trigger] arguments[j]) is None);
                assert(bits_of_argument(rest[k - 1]) == Some(bits));
                assert forall|j: int| 0 <= j < k - 1 implies bits_of_argument(
                    #[trigger] rest[j],
                ) is None by {
                    assert(bits_of_argument(arguments[j + 1]) is None);
                }
            }
        }
    }
}

proof fn lemma_turbofish(call: Tree, bits: u32)
    ensures
        turbofish_width(call) == Some(bits) <==> turbofish(call, bits),
{
    if call.first(Sort::Generics) is Some {
        let arguments = call.first(Sort::Generics).unwrap().those(Sort::GenericArgument);
        lemma_first_bits(arguments, bits);
        if turbofish_width(call) == Some(bits) {
            let k = choose|k: int|
                0 <= k < arguments.len() && bits_of_argument(#[trigger] arguments[k]) == Some(bits)
                    && (forall|j: int|
                    0 <= j < k ==> bits_of_argument(#[trigger] arguments[j]) is None);
            lemma_wide_argument(arguments[k], bits);
            assert forall|j: int, other: u32| 0 <= j < k implies !(#[trigger] wide_argument(
                arguments[j],
                other,
            )) by {
                lemma_wide_argument(arguments[j], other);
                assert(bits_of_argument(arguments[j]) is None);
            }
        }
        if turbofish(call, bits) {
            let k = choose|k: int|
                {
                    &&& 0 <= k < arguments.len()
                    &&& wide_argument(#[trigger] arguments[k], bits)
                    &&& forall|j: int, other: u32|
                        0 <= j < k ==> !(#[trigger] wide_argument(arguments[j], other))
                };
            lemma_wide_argument(arguments[k], bits);
            assert forall|j: int| 0 <= j < k implies bits_of_argument(
                #[trigger] arguments[j],
            ) is None by {
                if let Some(other) = bits_of_argument(arguments[j]) {
                    lemma_wide_argument(arguments[j], other);
                }
            }
        }
    }
}

/// True for a direct read of a declared field, `self.<field>.get()`.
pub open spec fn gets(t: Tree, contract: ContractView, field: FieldView) -> bool {
    &&& t.form() == Some(Form::MethodCall)
    &&& t.name() == Some("get"@)
    &&& t.operands().len() > 0
    &&& exists|name: Seq<char>|
        #[trigger] this_field(t.operands()[0], name) && contract.field(name) == Some(field)
}

proof fn lemma_gets(t: Tree, contract: ContractView, field: FieldView)
    requires
        gets(t, contract, field),
    ensures
        field_read(t, contract) == (match type_width(field.sol_type) {
            Some(bits) => Some((field.name, bits)),
            None => None,
        }),
{
    let name = choose|name: Seq<char>|
        #[trigger] this_field(t.operands()[0], name) && contract.field(name) == Some(field);
    law_naming_a_field(t.operands()[0], name);
}

proof fn lemma_got(t: Tree, contract: ContractView)
    requires
        field_read(t, contract) is Some,
    ensures
        exists|field: FieldView| #[trigger]
            gets(t, contract, field) && type_width(field.sol_type) is Some,
{
    let name = crate::rules::field_of_self(t.operands()[0]).unwrap();
    law_naming_a_field(t.operands()[0], name);
    let field = contract.field(name).unwrap();
    assert(gets(t, contract, field));
}

/// What is reported about a storage value that a method narrows.
pub open spec fn narrowed(
    node: Tree,
    field: Seq<char>,
    bits: u32,
    target: u32,
    method: Seq<char>,
    ctx: CtxView,
) -> FindingView {
    let silent = method == "wrapping_to"@;
    FindingView {
        rule: "lossy-integer-conversion"@,
        severity: if silent {
            Severity::High
        } else {
            Severity::Medium
        },
        file: ctx.file,
        line: shown_at(node.place()).0,
        column: shown_at(node.place()).1,
        message: "`"@ + field + "` is declared uint"@ + decimal(bits as nat)
            + " and is being narrowed to u"@ + decimal(target as nat) + " by `"@ + method + "`"@,
        suggestion: if silent {
            "the extra bits are dropped without a word, so the contract carries on with a different number. Keep the value wide, or refuse the operation when it does not fit."@
        } else {
            "this panics when the value does not fit, and on Stylus a panic is a trap rather than a revert. Check the range and return an Err instead."@
        },
    }
}

/// What is reported about a storage value that is cast.
pub open spec fn cast(
    node: Tree,
    field: Seq<char>,
    bits: u32,
    target: u32,
    ctx: CtxView,
) -> FindingView {
    FindingView {
        rule: "lossy-integer-conversion"@,
        severity: Severity::High,
        file: ctx.file,
        line: shown_at(node.place()).0,
        column: shown_at(node.place()).1,
        message: "`"@ + field + "` is declared uint"@ + decimal(bits as nat)
            + " and is being cast to u"@ + decimal(target as nat),
        suggestion: "an `as` cast keeps the low bits and discards the rest without a word. Keep the value wide, or refuse the operation when it does not fit."@,
    }
}

/// A stored value that `to` or `wrapping_to` puts into a narrower type is
/// reported once, for every width that is declared and every narrower one; where
/// the type is wide enough nothing is reported.
pub proof fn law_every_narrowing_is_reported(
    node: Tree,
    function: Tree,
    ctx: CtxView,
    field: FieldView,
    bits: u32,
    target: u32,
)
    requires
        node.form() == Some(Form::MethodCall),
        node.name() == Some("to"@) || node.name() == Some("wrapping_to"@),
        turbofish(node, target),
        node.operands().len() > 0,
        gets(node.operands()[0], ctx.contract, field),
        type_width(field.sol_type) == Some(bits),
    ensures
        bits > target ==> LossyIntegerConversion.seen(node, function, ctx) == seq![
            narrowed(node, field.name, bits, target, node.name().unwrap(), ctx),
        ],
        bits <= target ==> LossyIntegerConversion.seen(node, function, ctx) == Seq::<
            FindingView,
        >::empty(),
{
    lemma_turbofish(node, target);
    lemma_gets(node.operands()[0], ctx.contract, field);
    reveal_strlit("to");
    reveal_strlit("wrapping_to");
    assert("to"@.len() != "wrapping_to"@.len());
}

/// A stored value that is cast to a narrower type is reported once, for every
/// width that is declared and every narrower one; where the type is wide enough
/// nothing is reported.
pub proof fn law_every_narrowing_cast_is_reported(
    node: Tree,
    function: Tree,
    ctx: CtxView,
    field: FieldView,
    bits: u32,
    target: u32,
)
    requires
        node.form() == Some(Form::Cast),
        node.first(Sort::Type) is Some,
        wide(node.first(Sort::Type).unwrap(), target),
        node.operands().len() > 0,
        gets(node.operands()[0], ctx.contract, field),
        type_width(field.sol_type) == Some(bits),
    ensures
        bits > target ==> LossyIntegerConversion.seen(node, function, ctx) == seq![
            cast(node, field.name, bits, target, ctx),
        ],
        bits <= target ==> LossyIntegerConversion.seen(node, function, ctx) == Seq::<
            FindingView,
        >::empty(),
{
    lemma_wide(node.first(Sort::Type).unwrap(), target);
    lemma_gets(node.operands()[0], ctx.contract, field);
}

/// The widths that a contract writes down decide: a field that is declared `uint`
/// or `int` and a number of bits, read directly and put into `u` or `i` and fewer
/// bits, is reported once, whatever the two numbers are.
pub proof fn law_declared_and_named_widths_decide(
    node: Tree,
    function: Tree,
    ctx: CtxView,
    field: FieldView,
    ty: Seq<char>,
    bits: u32,
    target: u32,
)
    requires
        node.form() == Some(Form::MethodCall) && (node.name() == Some("to"@) || node.name() == Some(
            "wrapping_to"@,
        )) && turbofish(node, target) || node.form() == Some(Form::Cast) && node.first(
            Sort::Type,
        ) is Some && wide(node.first(Sort::Type).unwrap(), target),
        node.operands().len() > 0,
        gets(node.operands()[0], ctx.contract, field),
        bare(field.sol_type, ty),
        ty == "uint"@ + decimal(bits as nat) || ty == "int"@ + decimal(bits as nat),
        bits > target,
    ensures
        LossyIntegerConversion.seen(node, function, ctx).len() == 1,
        LossyIntegerConversion.seen(node, function, ctx)[0].rule == "lossy-integer-conversion"@,
        LossyIntegerConversion.seen(node, function, ctx)[0].line == shown_at(node.place()).0,
        LossyIntegerConversion.seen(node, function, ctx)[0].column == shown_at(node.place()).1,
        LossyIntegerConversion.seen(node, function, ctx)[0].severity == (if node.name() == Some(
            "to"@,
        ) && node.form() == Some(Form::MethodCall) {
            Severity::Medium
        } else {
            Severity::High
        }),
{
    law_numbers_are_read_back(bits);
    lemma_decimal_is_read_back(bits as nat);
    law_the_width_of_a_type(field.sol_type, ty, decimal(bits as nat));
    reveal_strlit("to");
    reveal_strlit("wrapping_to");
    assert("to"@.len() != "wrapping_to"@.len());
    if node.form() == Some(Form::MethodCall) {
        law_every_narrowing_is_reported(node, function, ctx, field, bits, target);
    } else {
        law_every_narrowing_cast_is_reported(node, function, ctx, field, bits, target);
    }
}

/// Whatever is reported is such a narrowing: nothing else is.
pub proof fn law_nothing_else_is_a_narrowing(node: Tree, function: Tree, ctx: CtxView)
    requires
        LossyIntegerConversion.seen(node, function, ctx).len() > 0,
    ensures
        node.operands().len() > 0,
        exists|field: FieldView| #[trigger]
            gets(node.operands()[0], ctx.contract, field) && type_width(field.sol_type) is Some,
        node.form() == Some(Form::MethodCall) && (node.name() == Some("to"@) || node.name() == Some(
            "wrapping_to"@,
        )) && (exists|target: u32| turbofish(node, target)) || node.form() == Some(Form::Cast)
            && node.first(Sort::Type) is Some && exists|target: u32|
            wide(node.first(Sort::Type).unwrap(), target),
{
    lemma_got(node.operands()[0], ctx.contract);
    if node.form() == Some(Form::MethodCall) {
        let target = turbofish_width(node).unwrap();
        lemma_turbofish(node, target);
        assert(turbofish(node, target));
    } else {
        let target = bits_of_type(node.first(Sort::Type).unwrap()).unwrap();
        lemma_wide(node.first(Sort::Type).unwrap(), target);
        assert(wide(node.first(Sort::Type).unwrap(), target));
    }
}

} // verus!
