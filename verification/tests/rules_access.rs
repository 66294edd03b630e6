//! Who may act, and loops without a bound.

use stylus_check::finding::{Finding, Severity};
use stylus_check::model::Contract;
use stylus_check::path::{FilePath, Part};
use stylus_check::rules::access::{MissingAccessControl, UnboundedStorageLoop};
use stylus_check::rules::{Ctx, Rule};
use stylus_check::syntax::parse;

fn contract_rs() -> FilePath {
    FilePath {
        shown: "contract.rs".to_string(),
        parts: vec![Part::Normal("contract.rs".to_string())],
    }
}

fn contract_of(source: &str) -> Contract {
    let file = parse(source).expect("test fixture should parse");
    let mut contract = Contract::default();
    contract.absorb(&file);
    contract
}

fn run<R: Rule>(rule: &R, source: &str) -> Vec<Finding> {
    let file = parse(source).expect("test fixture should parse");
    let contract = contract_of(source);
    let name = contract_rs();
    let ctx = Ctx { file: &name, contract: &contract };
    rule.check(&file, &ctx)
}

const OWNED: &str = r#"
    sol_storage! {
        #[entrypoint]
        pub struct A { address owner; uint256 budget; mapping(address => bool) allowed; }
    }
"#;

const OPEN: &str = r#"
    sol_storage! {
        #[entrypoint]
        pub struct A { uint256 counter; }
    }
"#;

#[test]
fn flags_a_setter_anyone_can_call() {
    let findings = run(
        &MissingAccessControl,
        &format!(
            "{OWNED}
             #[public]
             impl A {{ pub fn set_budget(&mut self, v: U256) {{ self.budget.set(v); }} }}"
        ),
    );
    assert_eq!(findings.len(), 1);
    assert!(findings[0].message.contains("set_budget"));
}

#[test]
fn says_nothing_when_the_function_consults_the_owner() {
    let findings = run(
        &MissingAccessControl,
        &format!(
            "{OWNED}
             #[public]
             impl A {{
                 pub fn set_budget(&mut self, v: U256) -> Result<(), Vec<u8>> {{
                     if self.vm().msg_sender() != self.owner.get() {{ return Err(vec![]); }}
                     self.budget.set(v);
                     Ok(())
                 }}
             }}"
        ),
    );
    assert!(findings.is_empty());
}

#[test]
fn says_nothing_when_a_named_guard_does_the_checking() {
    let findings = run(
        &MissingAccessControl,
        &format!(
            "{OWNED}
             #[public]
             impl A {{
                 pub fn set_budget(&mut self, v: U256) -> Result<(), Vec<u8>> {{
                     self.only_owner()?;
                     self.budget.set(v);
                     Ok(())
                 }}
             }}"
        ),
    );
    assert!(findings.is_empty());
}

#[test]
fn stays_quiet_on_a_contract_with_no_notion_of_authority() {
    let findings = run(
        &MissingAccessControl,
        &format!(
            "{OPEN}
             #[public]
             impl A {{ pub fn bump(&mut self) {{ self.counter.set(v); }} }}"
        ),
    );
    assert!(
        findings.is_empty(),
        "nothing here says anyone is privileged, so there is no rule to break"
    );
}

#[test]
fn a_reader_is_not_a_writer() {
    let findings = run(
        &MissingAccessControl,
        &format!(
            "{OWNED}
             #[public]
             impl A {{ pub fn budget(&self) -> U256 {{ self.budget.get() }} }}"
        ),
    );
    assert!(findings.is_empty());
}

#[test]
fn flags_a_loop_over_something_callers_can_grow() {
    let findings = run(
        &UnboundedStorageLoop,
        &format!(
            "{OWNED}
             #[public]
             impl A {{
                 pub fn sweep(&mut self) {{ for who in self.allowed.iter() {{ pay(who); }} }}
             }}"
        ),
    );
    assert_eq!(findings.len(), 1);
    assert!(findings[0].message.contains("allowed"));
}

#[test]
fn says_nothing_about_a_loop_with_a_fixed_bound() {
    let findings = run(
        &UnboundedStorageLoop,
        &format!(
            "{OWNED}
             #[public]
             impl A {{ pub fn sweep(&mut self) {{ for i in 0..8 {{ step(i); }} }} }}"
        ),
    );
    assert!(findings.is_empty());
}

fn access(body: &str) -> Vec<Finding> {
    run(
        &MissingAccessControl,
        &format!("{OWNED} #[public] impl A {{ pub fn go(&mut self, next: Address) {{ {body} }} }}"),
    )
}

#[test]
fn handing_over_the_authority_is_not_consulting_it() {
    let findings = access("self.owner.set(next);");
    assert_eq!(findings.len(), 1, "anyone can walk off with the contract");
    assert_eq!(findings[0].message, "`go` writes `owner` but never reads `owner`");
    assert_eq!(findings[0].rule, "missing-access-control");
    assert_eq!(findings[0].severity, Severity::Medium);
    assert_eq!(
        findings[0].suggestion,
        "anyone can call this. Compare the caller against the authority the contract \
         already declares, or say in a comment that it is meant to be open."
    );
}

#[test]
fn reading_the_authority_anywhere_else_is_consulting_it() {
    assert!(access("self.owner.set(pick(self.owner.get(), next));").is_empty());
    assert!(access("let was = self.owner.get(); self.owner.set(next);").is_empty());
    assert!(access("self.budget.insert(self.owner, next);").is_empty());
    assert!(access("if self.owner == next { self.budget.set(v); }").is_empty());
}

#[test]
fn a_role_mapping_is_written_through_its_setter() {
    let source = |body: &str| {
        format!(
            "sol_storage! {{ pub struct A {{ mapping(address => bool) admins; uint256 n; }} }}
             #[public] impl A {{ pub fn go(&mut self, who: Address) {{ {body} }} }}"
        )
    };
    let grant = run(&MissingAccessControl, &source("self.admins.setter(who).set(true);"));
    assert_eq!(grant.len(), 1);
    assert_eq!(grant[0].message, "`go` writes `admins` but never reads `admins`");
    let indexed = run(&MissingAccessControl, &source("self.admins[who].set(true);"));
    assert_eq!(indexed.len(), 1);
    let nested = run(
        &MissingAccessControl,
        &source("self.admins.setter(self.admins.get(who)).set(true);"),
    );
    assert!(nested.is_empty(), "the key is looked up in the authority");
}

#[test]
fn every_kind_of_check_counts() {
    for check in [
        "self.vm().msg_sender();",
        "ctx.sender();",
        "self.Require_Role();",
        "assert_owner(next);",
        "guards::ensure_admin();",
        "self.isAuthorizedFor(next);",
        "check_AUTHORISED();",
    ] {
        let findings = access(&format!("{check} self.budget.set(v);"));
        assert!(findings.is_empty(), "{check}");
    }
    assert_eq!(access("msg::sender(); self.budget.set(v);").len(), 1);
    assert_eq!(access("self.check(next); self.budget.set(v);").len(), 1);
}

#[test]
fn fields_are_listed_once_in_the_order_they_are_written() {
    let findings = run(
        &MissingAccessControl,
        "sol_storage! { pub struct A { address owner; address admin; uint256 b; uint256 a; } }
         #[public] impl A {
             pub fn go(&mut self) { self.b.set(1); self.a.set(2); if x { self.b.set(3); } }
         }",
    );
    assert_eq!(findings.len(), 1);
    assert_eq!(
        findings[0].message,
        "`go` writes `b`, `a` but never reads `admin`, `owner`"
    );
    assert_eq!((findings[0].line, findings[0].column), (3, 21));
}

#[test]
fn a_constructor_has_no_caller_to_check() {
    let findings = run(
        &MissingAccessControl,
        &format!(
            "{OWNED} #[public] impl A {{
                 #[constructor] pub fn new(&mut self, o: Address) {{ self.owner.set(o); }}
                 pub fn look(&self) {{ self.budget.set(v); }}
                 pub fn idle(&mut self) {{ self.budget.get(); }}
             }}
             impl A {{ fn private(&mut self) {{ self.budget.set(v); }} }}"
        ),
    );
    assert!(findings.is_empty());
}

fn loops(head: &str) -> Vec<Finding> {
    run(
        &UnboundedStorageLoop,
        &format!(
            "sol_storage! {{ pub struct A {{ address[] holders; string label; uint256 n; }} }}
             #[public] impl A {{ pub fn sweep(&mut self, from: usize, count: usize) {{ for i in {head} {{ pay(i); }} }} }}"
        ),
    )
}

#[test]
fn a_page_is_not_the_whole_book() {
    assert!(loops("from..(from + count).min(self.holders.len())").is_empty());
    assert!(loops("0..self.holders.len().min(100)").is_empty());
    assert!(loops("0..core::cmp::min(self.holders.len(), 100)").is_empty());
    assert!(loops("0..min(count, self.holders.len())").is_empty());
}

#[test]
fn the_least_of_two_growing_things_still_grows() {
    let both = loops("0..self.holders.len().min(self.label.len())");
    assert_eq!(both.len(), 1);
    assert_eq!(
        both[0].message,
        "this loop is as long as `holders`, which callers can grow"
    );
    assert_eq!(
        both[0].suggestion,
        "once it is long enough the call runs out of gas, and whatever it protects is stuck \
         for everyone. Page through it, or let each caller settle their own entry."
    );
    assert_eq!(both[0].severity, Severity::Medium);
    let beside = loops("self.n.min(3)..self.label.len()");
    assert!(beside[0].message.contains("label"));
    assert_eq!(loops("self.holders.iter().min()").len(), 1, "an iterator's least is no bound");
    assert_eq!(loops("0..self.holders.len().max(100)").len(), 1);
}

#[test]
fn loops_over_what_nobody_can_grow_are_quiet() {
    assert!(loops("0..self.n.get()").is_empty());
    assert!(loops("0..self.missing.len()").is_empty());
    assert!(loops("0..other.holders.len()").is_empty());
    assert_eq!(loops("0..self.holders.len()").len(), 1);
}

#[test]
fn nested_loops_are_reported_one_by_one() {
    let findings = run(
        &UnboundedStorageLoop,
        "sol_storage! { pub struct A { address[] a; bytes b; } }
         #[public] impl A { fn f(&self) { for x in self.a { for y in self.b { } } } }
         impl A { fn g(&self) { for x in self.a { } } }",
    );
    assert_eq!(findings.len(), 2, "only the public surface is looked at");
    assert!(findings[0].message.contains("`a`"));
    assert!(findings[1].message.contains("`b`"));
}

#[test]
fn a_public_member_does_not_make_the_block_public() {
    for member in ["#[public] const X: u8 = 1;", "#[public] type Y = u8;", "#[public] some_macro! {}"] {
        let findings = run(
            &MissingAccessControl,
            &format!(
                "{OWNED}
                 impl A {{ {member} pub fn set_budget(&mut self, v: U256) {{ self.budget.set(v); }} }}"
            ),
        );
        assert!(findings.is_empty(), "{member}");
    }
}

#[test]
fn a_chain_that_reads_the_authority_consults_it() {
    for (body, open) in [
        ("self.roles.get(who).get_string().replace(old, new);", false),
        ("self.roles.getter(who).set(next);", false),
        ("self.roles.get_string().replace(old, new);", false),
        ("self.roles.pop().set(next);", false),
        ("self.roles.setter(who).set(next);", true),
        ("self.roles.setter(who).setter(what).set(next);", true),
        ("self.roles.get_mut(who).set(next);", true),
        ("self.roles.grow().set(next);", true),
        ("self.roles[who].set(next);", true),
        ("self.roles[self.roles.get(who)].set(next);", false),
        ("self.roles.setter(who).get(what).set(next);", false),
        ("self.roles.get(who).setter(what).set(next);", false),
    ] {
        let findings = run(
            &MissingAccessControl,
            &format!(
                "sol_storage! {{ pub struct A {{ mapping(address => address) roles; }} }}
                 #[public]
                 impl A {{ pub fn go(&mut self) {{ {body} }} }}"
            ),
        );
        assert_eq!(!findings.is_empty(), open, "{body}");
    }
}
