//! Calls that leave the contract.

use stylus_check::finding::{Finding, Severity};
use stylus_check::model::Contract;
use stylus_check::path::{FilePath, Part};
use stylus_check::rules::calls::{StateWriteAfterCall, UncheckedCallResult};
use stylus_check::rules::{Ctx, Rule};
use stylus_check::syntax::parse;

fn contract_rs() -> FilePath {
    FilePath {
        shown: "contract.rs".to_string(),
        parts: vec![Part::Normal("contract.rs".to_string())],
    }
}

fn contract_of(source: &str) -> Contract {
    let file = parse(source).expect("test fixture should parse");
    let mut contract = Contract::default();
    contract.absorb(&file);
    contract
}

fn run<R: Rule>(rule: &R, source: &str) -> Vec<Finding> {
    let file = parse(source).expect("test fixture should parse");
    let contract = contract_of(source);
    let name = contract_rs();
    let ctx = Ctx { file: &name, contract: &contract };
    rule.check(&file, &ctx)
}

const PRELUDE: &str = r#"
    sol_interface! {
        interface IErc20 {
            function transfer(address to, uint256 amount) external returns (bool);
            function poke(address to) external;
        }
    }
    sol_storage! {
        #[entrypoint]
        pub struct A { address owner; uint256 available; bool entered; }
    }
"#;

#[test]
fn flags_a_transfer_whose_answer_is_thrown_away() {
    let findings = run(
        &UncheckedCallResult,
        &format!(
            "{PRELUDE}
            #[public]
            impl A {{
                pub fn pay(&mut self) -> Result<(), Vec<u8>> {{
                    token.transfer(&vm, ctx, to, amount)?;
                    Ok(())
                }}
            }}"
        ),
    );
    assert_eq!(findings.len(), 1);
    assert_eq!(findings[0].rule, "unchecked-call-result");
}

#[test]
fn says_nothing_when_the_answer_is_used() {
    let findings = run(
        &UncheckedCallResult,
        &format!(
            "{PRELUDE}
            #[public]
            impl A {{
                pub fn pay(&mut self) -> Result<(), Vec<u8>> {{
                    let moved = token.transfer(&vm, ctx, to, amount)?;
                    if !moved {{ return Err(b\"TRANSFER_FAILED\".to_vec()); }}
                    Ok(())
                }}
            }}"
        ),
    );
    assert!(findings.is_empty());
}

#[test]
fn says_nothing_when_there_was_no_answer_to_use() {
    let findings = run(
        &UncheckedCallResult,
        &format!(
            "{PRELUDE}
            #[public]
            impl A {{
                pub fn nudge(&mut self) -> Result<(), Vec<u8>> {{
                    token.poke(&vm, ctx, to)?;
                    Ok(())
                }}
            }}"
        ),
    );
    assert!(findings.is_empty(), "a void call has no result to discard");
}

#[test]
fn flags_storage_written_after_the_contract_called_out() {
    let findings = run(
        &StateWriteAfterCall,
        &format!(
            "{PRELUDE}
            #[public]
            impl A {{
                pub fn pay(&mut self) -> Result<(), Vec<u8>> {{
                    let moved = token.transfer(&vm, ctx, to, amount)?;
                    self.available.set(remaining);
                    Ok(())
                }}
            }}"
        ),
    );
    assert_eq!(findings.len(), 1);
    assert!(findings[0].message.contains("available"));
}

#[test]
fn says_nothing_when_the_write_comes_first() {
    let findings = run(
        &StateWriteAfterCall,
        &format!(
            "{PRELUDE}
            #[public]
            impl A {{
                pub fn pay(&mut self) -> Result<(), Vec<u8>> {{
                    self.available.set(remaining);
                    let moved = token.transfer(&vm, ctx, to, amount)?;
                    Ok(())
                }}
            }}"
        ),
    );
    assert!(findings.is_empty());
}

#[test]
fn releasing_a_lock_after_the_call_is_where_it_belongs() {
    let findings = run(
        &StateWriteAfterCall,
        &format!(
            "{PRELUDE}
            #[public]
            impl A {{
                pub fn pay(&mut self) -> Result<(), Vec<u8>> {{
                    self.entered.set(true);
                    self.available.set(remaining);
                    let moved = token.transfer(&vm, ctx, to, amount)?;
                    self.entered.set(false);
                    Ok(())
                }}
            }}"
        ),
    );
    assert!(
        findings.is_empty(),
        "a guard has to be released after the call, that is the whole point of it"
    );
}

const WITH_A_VIEW: &str = r#"
    sol_interface! {
        interface IErc20 {
            function transfer(address to, uint256 amount) external returns (bool);
            function balanceOf(address who) external view returns (uint256);
        }
    }
    sol_storage! {
        #[entrypoint]
        pub struct A { uint256 available; }
    }
"#;

fn findings(body: &str) -> Vec<Finding> {
    let source =
        format!("{WITH_A_VIEW}\n#[public]\nimpl A {{ pub fn go(&mut self) {{ {body} }} }}");
    run(&StateWriteAfterCall, &source)
}

/// Reading a balance and then recording what is about to be spent is correct
/// code.
#[test]
fn reading_a_balance_before_writing_is_not_an_ordering_mistake() {
    let out = findings(
        "let balance = token.balance_of(self.vm(), Call::new(), this)?;
         self.available.set(remaining);",
    );
    assert!(
        out.is_empty(),
        "a staticcall cannot come back in, so nothing is out of order"
    );
}

#[test]
fn a_mutating_call_still_puts_what_follows_out_of_order() {
    let out = findings(
        "let moved = token.transfer(&vm, Call::new_mutating(self), to, amount)?;
         self.available.set(remaining);",
    );
    assert_eq!(out.len(), 1);
}

#[test]
fn how_the_call_is_spelled_beats_what_the_interface_said() {
    // The interface calls this one mutating, but the call site asked for a
    // static context, and the call site is what the chain acts on.
    let out = findings(
        "let ok = token.transfer(self.vm(), Call::new(), to, amount)?;
         self.available.set(remaining);",
    );
    assert!(out.is_empty());
}

#[test]
fn a_late_write_is_reported_to_the_letter() {
    let out = findings("token.transfer(ctx);\n  self.available.set(x);");
    assert_eq!(out.len(), 1);
    assert_eq!(out[0].rule, "state-write-after-call");
    assert_eq!(out[0].severity, Severity::High);
    assert_eq!(
        out[0].message,
        "`available` is written after this function has already called another contract"
    );
    assert_eq!(
        out[0].suggestion,
        "move the write above the call. The storage cache is flushed for you, but the \
         callee can still call back in and will see state that has not been updated yet."
    );
    assert_eq!(out[0].column, 3);
    assert_eq!(out[0].file.shown, "contract.rs");
}

#[test]
fn a_statement_that_calls_and_writes_is_not_late_itself() {
    assert!(findings("self.available.set(token.transfer(ctx));").is_empty());
    assert_eq!(
        findings("self.available.set(token.transfer(ctx)); self.available.set(1);").len(),
        1
    );
}

#[test]
fn each_block_is_ordered_on_its_own() {
    assert!(findings("if a { token.transfer(ctx); } else { self.available.set(1); }").is_empty());
    assert_eq!(
        findings("if a { token.transfer(ctx); } if b { self.available.set(1); }").len(),
        1
    );
    assert_eq!(
        findings("token.transfer(c); { token.transfer(c); self.available.set(1); }").len(),
        2,
        "late in the outer block and in the inner one"
    );
}

#[test]
fn a_dropped_answer_is_reported_to_the_letter() {
    let source = |stmt: &str| {
        format!("{PRELUDE} impl A {{ fn pay(&mut self) -> R {{ {stmt} }} }}")
    };
    let out = run(&UncheckedCallResult, &source("token.transfer(ctx);"));
    assert_eq!(out.len(), 1);
    assert_eq!(
        out[0].message,
        "the result of `transfer` is discarded, and the interface says it returns one"
    );
    assert_eq!(
        out[0].suggestion,
        "bind the result and act on it. A token that reports failure by returning \
         false rather than reverting will otherwise look like it paid."
    );
    assert_eq!(out[0].severity, Severity::High);
    assert!(run(&UncheckedCallResult, &source("token.transfer(ctx)")).is_empty());
    assert!(run(&UncheckedCallResult, &source("other.go(Call::new());")).is_empty());
    assert!(run(&UncheckedCallResult, &source("(token.transfer(ctx))?;")).is_empty());
    assert_eq!(run(&UncheckedCallResult, &source("if a { token.transfer(c)?; }")).len(), 1);
}

#[test]
fn a_test_beside_the_contract_does_not_silence_the_rule_on_late_writes() {
    for sibling in ["#[cfg(test)] use x;", "#[test] fn probe() {}", "#[cfg(test)] const X: u8 = 1;"] {
        let findings = run(
            &StateWriteAfterCall,
            &format!(
                "{PRELUDE}
                mod contract {{
                    {sibling}
                    impl A {{
                        pub fn pay(&mut self) {{
                            token.transfer(&vm, ctx, to, amount);
                            self.available.set(0);
                        }}
                    }}
                }}"
            ),
        );
        assert_eq!(findings.len(), 1, "{sibling}");
    }
}
