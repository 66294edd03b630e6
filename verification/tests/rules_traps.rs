//! Ways a contract stops dead instead of reverting.

use stylus_check::finding::{Finding, Severity};
use stylus_check::model::Contract;
use stylus_check::path::{FilePath, Part};
use stylus_check::rules::traps::UnwrapInEntrypoint;
use stylus_check::rules::{Ctx, Rule};
use stylus_check::syntax::parse;

fn contract_rs() -> FilePath {
    FilePath {
        shown: "contract.rs".to_string(),
        parts: vec![Part::Normal("contract.rs".to_string())],
    }
}

fn contract_of(source: &str) -> Contract {
    let file = parse(source).expect("test fixture should parse");
    let mut contract = Contract::default();
    contract.absorb(&file);
    contract
}

fn run(source: &str) -> Vec<Finding> {
    let file = parse(source).expect("test fixture should parse");
    let contract = contract_of(source);
    let name = contract_rs();
    let ctx = Ctx { file: &name, contract: &contract };
    UnwrapInEntrypoint.check(&file, &ctx)
}

#[test]
fn flags_an_unwrap_a_caller_can_reach() {
    let findings = run("#[public]
         impl A { pub fn go(&mut self, key: U256) { let x = self.book.get(key).unwrap(); } }");
    assert_eq!(findings.len(), 1);
    assert!(findings[0].message.contains("unwrap()"));
    assert!(findings[0].message.contains("go"));
}

#[test]
fn flags_the_panicking_macros_too() {
    let findings = run("#[public]
         impl A { pub fn go(&mut self) { if bad { panic!(\"no\"); } todo!() } }");
    assert_eq!(findings.len(), 2);
}

#[test]
fn says_nothing_about_test_code() {
    let findings = run("#[cfg(test)]
         mod tests {
            #[public]
            impl A { pub fn go(&mut self, k: U256) { self.book.get(k).unwrap(); } }
         }");
    assert!(findings.is_empty(), "tests panic on purpose");
}

#[test]
fn a_private_helper_traps_just_the_same() {
    // The part that moves money lives in a private helper called from an
    // entrypoint, and a panic there traps exactly as hard as one written in the
    // public function.
    let findings = run("impl A { fn helper(&self, key: U256) { self.book.get(key).unwrap(); } }");
    assert_eq!(findings.len(), 1);
    assert!(findings[0].message.contains("helper"));
}

#[test]
fn flags_the_panic_wherever_the_contract_wrote_it() {
    let findings = run(
        "#[public]
         impl A { pub fn go(&mut self) -> Result<(), Vec<u8>> { self.settle() } }
         impl A { fn settle(&mut self) -> Result<(), Vec<u8>> { self.book.get(k).expect(\"no\"); Ok(()) } }",
    );
    assert_eq!(findings.len(), 1);
    assert!(findings[0].message.contains("settle"));
}

/// An index past the end traps instead of reverting.
#[test]
fn flags_an_unwrap_on_something_the_caller_supplied() {
    let findings = run(
        "#[public]
         impl A { pub fn get_element(&self, index: U256) -> U256 { self.arr.get(index).unwrap() } }",
    );
    assert_eq!(findings.len(), 1);
}

/// The input is a literal, so it either always fits or fails the first time
/// anybody runs it.
#[test]
fn says_nothing_about_an_unwrap_no_caller_can_influence() {
    let findings = run("#[public]
         impl A { pub fn demo(&self) { let a = I256::try_from(20003000).unwrap(); } }");
    assert!(findings.is_empty());
}

#[test]
fn a_constant_parsed_at_startup_is_not_a_caller_problem() {
    let findings = run(
        "#[public]
         impl A { pub fn demo(&self) { let o = Address::parse_checksummed(OWNER, None).expect(\"bad\"); } }",
    );
    assert!(findings.is_empty());
}

#[test]
fn an_unconditional_panic_is_reported_whatever_feeds_it() {
    let findings = run("#[public]\n impl A { pub fn go(&mut self) { todo!() } }");
    assert_eq!(findings.len(), 1, "this one traps every single time");
}

/// Four bytes always fit in four bytes, and saying otherwise buries the lookups
/// that really can fail.
#[test]
fn a_conversion_between_fixed_sizes_is_not_a_risk() {
    let findings = run("#[public]
         impl A {
            pub fn supports(&self, interface: FixedBytes<4>) -> bool {
                let a: [u8; 4] = interface.as_slice().try_into().unwrap();
                true
            }
         }");
    assert!(findings.is_empty());
}

#[test]
fn arithmetic_that_can_overflow_still_counts() {
    let findings = run(
        "#[public]
         impl A { pub fn take(&mut self, amount: U256) { let left = self.total.get().checked_sub(amount).unwrap(); } }",
    );
    assert_eq!(findings.len(), 1);
}

#[test]
fn a_lookup_with_a_key_from_outside_still_counts() {
    let findings = run("#[public]
         impl A { pub fn at(&self, index: U256) -> U256 { self.arr.get(index).unwrap() } }");
    assert_eq!(findings.len(), 1);
}

#[test]
fn a_panic_is_reported_to_the_letter() {
    let findings = run("impl A {\n  fn go(&self, key: U256) {\n    self.book.get(key).expect(\"x\");\n    std::unreachable!();\n  }\n}");
    assert_eq!(findings.len(), 2);
    assert_eq!(findings[0].message, "`expect()` in `go`");
    assert_eq!((findings[0].line, findings[0].column), (3, 5));
    assert_eq!(findings[1].message, "`unreachable!` in `go`");
    assert_eq!((findings[1].line, findings[1].column), (4, 5));
    assert_eq!(findings[0].severity, Severity::High);
    assert_eq!(findings[0].rule, "unwrap-in-entrypoint");
    assert_eq!(
        findings[0].suggestion,
        "return an Err with a reason instead. A panic becomes a WASM trap: the caller gets no \
         reason back and loses the gas it sent."
    );
}

#[test]
fn what_can_fail_and_what_feeds_it_decide_together() {
    let body = |expr: &str| {
        run(&format!(
            "sol_interface! {{ interface I {{ function price() external view returns (uint256); }} }}
             impl A {{ fn go(&self, key: U256, (a, b): Pair) {{ {expr}; }} }}"
        ))
        .len()
    };
    assert_eq!(body("map.get(key).unwrap()"), 1);
    assert_eq!(body("map.get(local).unwrap()"), 0);
    assert_eq!(body("map.get(a).unwrap()"), 0, "only plain names are followed");
    assert_eq!(body("map.get(|| key).unwrap()"), 1);
    assert_eq!(body("self.map.getter(1).unwrap()"), 1);
    assert_eq!(body("self.map.setter(1).unwrap()"), 1);
    assert_eq!(body("self.map.get_mut(1).unwrap()"), 1);
    assert_eq!(body("self.stack.pop().unwrap()"), 1);
    assert_eq!(body("self.map.find(1).unwrap()"), 0);
    assert_eq!(body("oracle.price(key).unwrap()"), 1);
    assert_eq!(body("call(key).unwrap()"), 1);
    assert_eq!(body("self.total.checked_add(1).unwrap_or(0)"), 0);
    assert_eq!(body("self.get(1).unwrap()"), 0, "a method of self is not storage");
    assert_eq!(body("assert!(false)"), 0);
    assert_eq!(body("unimplemented!()"), 1);
}

#[test]
fn a_test_beside_the_contract_does_not_silence_the_rule() {
    let go = "pub fn go(&mut self, k: U256) { self.book.get(k).unwrap(); }";
    for source in [
        format!("mod contract {{ #[cfg(test)] use x; #[public] impl A {{ {go} }} }}"),
        format!("mod contract {{ #[public] impl A {{ {go} }} #[test] fn probe() {{}} }}"),
        format!("impl A {{ #[cfg(test)] const X: u32 = 1; {go} }}"),
        format!("#[cfg(not(test))] impl A {{ {go} }}"),
        format!("#[cfg(feature = \"testnet\")] impl A {{ {go} }}"),
    ] {
        let findings = run(&source);
        assert_eq!(findings.len(), 1, "{source}");
        assert!(findings[0].message.contains("go"));
    }
}
