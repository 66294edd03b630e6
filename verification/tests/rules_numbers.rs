//! Numbers that quietly stop being the number you meant.

use stylus_check::finding::{Finding, Severity};
use stylus_check::model::Contract;
use stylus_check::path::{FilePath, Part};
use stylus_check::rules::numbers::LossyIntegerConversion;
use stylus_check::rules::{Ctx, Rule};
use stylus_check::syntax::parse;

fn contract_rs() -> FilePath {
    FilePath {
        shown: "contract.rs".to_string(),
        parts: vec![Part::Normal("contract.rs".to_string())],
    }
}

fn contract_of(source: &str) -> Contract {
    let file = parse(source).expect("test fixture should parse");
    let mut contract = Contract::default();
    contract.absorb(&file);
    contract
}

const PRELUDE: &str = r#"
    sol_storage! {
        #[entrypoint]
        pub struct A { uint256 budget; uint64 last_refill; address owner; }
    }
"#;

fn run(body: &str) -> Vec<Finding> {
    let source = format!("{PRELUDE}\n#[public]\nimpl A {{ pub fn go(&mut self) {{ {body} }} }}");
    let file = parse(&source).expect("test fixture should parse");
    let contract = contract_of(&source);
    let name = contract_rs();
    let ctx = Ctx { file: &name, contract: &contract };
    LossyIntegerConversion.check(&file, &ctx)
}

#[test]
fn flags_a_wide_field_squeezed_into_a_narrow_type() {
    let findings = run("let n = self.budget.get().to::<u64>();");
    assert_eq!(findings.len(), 1);
    assert!(findings[0].message.contains("budget"));
    assert!(findings[0].message.contains("uint256"));
}

#[test]
fn says_nothing_when_the_declaration_says_it_fits() {
    let findings = run("let n = self.last_refill.get().to::<u64>();");
    assert!(
        findings.is_empty(),
        "a uint64 field into a u64 loses nothing, and complaining here is how a checker gets uninstalled"
    );
}

#[test]
fn a_silent_truncation_outranks_one_that_panics() {
    let loud = run("let n = self.budget.get().to::<u64>();");
    let quiet = run("let n = self.budget.get().wrapping_to::<u64>();");
    assert_eq!(loud[0].severity, Severity::Medium);
    assert_eq!(quiet[0].severity, Severity::High);
}

#[test]
fn flags_a_plain_cast_of_a_wide_field() {
    let findings = run("let n = self.budget.get() as u32;");
    assert_eq!(findings.len(), 1);
}

#[test]
fn says_nothing_about_a_value_it_cannot_bound() {
    let findings = run("let n = some_local.to::<u64>();");
    assert!(
        findings.is_empty(),
        "nothing declared its width, so there is nothing to claim"
    );
}

#[test]
fn says_nothing_about_arithmetic_it_can_no_longer_bound() {
    let findings = run("let n = (self.budget.get() * factor).to::<u64>();");
    assert!(
        findings.is_empty(),
        "past the multiply the declaration no longer bounds it"
    );
}

#[test]
fn each_narrowing_is_reported_to_the_letter() {
    let panics = run("self.budget.get().to::<u64>();");
    assert_eq!(
        panics[0].message,
        "`budget` is declared uint256 and is being narrowed to u64 by `to`"
    );
    assert_eq!(
        panics[0].suggestion,
        "this panics when the value does not fit, and on Stylus a panic is a trap \
         rather than a revert. Check the range and return an Err instead."
    );
    let wraps = run("self.budget.get().wrapping_to::<i8>();");
    assert_eq!(
        wraps[0].message,
        "`budget` is declared uint256 and is being narrowed to u8 by `wrapping_to`"
    );
    assert_eq!(
        wraps[0].suggestion,
        "the extra bits are dropped without a word, so the contract carries on with \
         a different number. Keep the value wide, or refuse the operation when it \
         does not fit."
    );
    let cast = run("self.budget.get() as u32;");
    assert_eq!(
        cast[0].message,
        "`budget` is declared uint256 and is being cast to u32"
    );
    assert_eq!(
        cast[0].suggestion,
        "an `as` cast keeps the low bits and discards the rest without a word. Keep the \
         value wide, or refuse the operation when it does not fit."
    );
    assert_eq!(cast[0].severity, Severity::High);
    assert_eq!(cast[0].rule, "lossy-integer-conversion");
}

#[test]
fn only_the_widths_decide() {
    for (expr, lossy) in [
        ("self.last_refill.get().to::<u128>()", false),
        ("self.last_refill.get().to::<u63>()", true),
        ("self.last_refill.get() as u32", true),
        ("self.last_refill.get() as std::u32", true),
        ("self.budget.get() as usize", false),
        ("self.budget.get() as f64", false),
        ("self.budget.get() as [u8; 4]", false),
        ("self.budget.get().to::<'a, T, u8>()", true),
        ("self.budget.get().to::<4>()", false),
        ("self.budget.get().to()", false),
        ("self.budget.get().into::<u8>()", false),
        ("self.owner.get() as u8", false),
        ("self.missing.get() as u8", false),
        ("self.budget as u8", false),
        ("other.budget.get() as u8", false),
        ("self.budget.read() as u8", false),
        ("f(self.budget.get() as u8)", true),
    ] {
        let expected: usize = if lossy { 1 } else { 0 };
        assert_eq!(run(&format!("{expr};")).len(), expected, "{expr}");
    }
}

#[test]
fn only_a_type_that_is_a_path_has_a_width() {
    for (expr, lossy) in [
        ("self.budget.get().to::<core::primitive::u8>()", true),
        ("self.budget.get().to::<<T as Narrow>::u8>()", true),
        ("self.budget.get().to::<&u8>()", false),
        ("self.budget.get().to::<(u8,)>()", false),
        ("self.budget.get().to::<dyn u8>()", false),
        ("self.budget.get().to::<impl u8>()", false),
    ] {
        let expected: usize = if lossy { 1 } else { 0 };
        assert_eq!(run(&format!("{expr};")).len(), expected, "{expr}");
    }
}
