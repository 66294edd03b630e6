//! The reading that the rules share.

use stylus_check::model::Contract;
use stylus_check::rules::{
    all, contract_impls, entrypoints, external_call, has_attribute, is_test_only, mutates_self,
    position, public_impls, storage_write, touched_fields, Rule,
};
use stylus_check::syntax::{parse, Node, Place, Sort};

const SOURCE: &str = r#"
    sol_interface! {
        interface IErc20 {
            function transfer(address to, uint256 amount) external returns (bool);
            function ping(address to) external;
        }
    }
    sol_storage! {
        #[entrypoint]
        pub struct A { address owner; uint256 budget; bool entered; }
    }
    #[public]
    impl A {
        pub fn go(&mut self) {}
        pub fn look(&self) {}
    }
    #[cfg(test)]
    mod tests {
        #[public]
        impl B { pub fn hidden(&mut self) {} }
    }
"#;

fn contract_of(source: &str) -> Contract {
    let file = parse(source).expect("test fixture should parse");
    let mut contract = Contract::default();
    contract.absorb(&file);
    contract
}

/// A file with one function, whose body is an expression.
fn around(expr: &str) -> Node {
    parse(&format!("fn probe() {{ {expr}; }}")).expect("test fixture should parse")
}

/// The expression that a file was put around.
fn inside(file: &Node) -> &Node {
    file.flatten()
        .into_iter()
        .find(|node| node.sort() == Sort::Statement)
        .expect("there is a statement")
        .operands()[0]
}

#[test]
fn finds_the_public_surface_and_ignores_tests() {
    let file = parse(SOURCE).unwrap();
    let impls = public_impls(&file);
    assert_eq!(impls.len(), 1, "the impl behind cfg(test) is not the contract");
    let names: Vec<_> = entrypoints(impls[0])
        .iter()
        .map(|f| f.name().unwrap().to_string())
        .collect();
    assert_eq!(names, vec!["go", "look"]);
}

#[test]
fn knows_which_entrypoints_can_change_storage() {
    let file = parse(SOURCE).unwrap();
    let impls = public_impls(&file);
    let fns = entrypoints(impls[0]);
    assert!(mutates_self(fns[0]));
    assert!(!mutates_self(fns[1]));
}

#[test]
fn recognises_a_call_that_leaves_the_contract() {
    let contract = contract_of(SOURCE);
    let declared = around("token.transfer(&vm, ctx, to, amount)");
    let contextual = around("other.whatever(self.vm(), Call::new_mutating(self), x)");
    let raw = around("static_call(vm, ctx, addr, data)");
    let local = around("self.settle(recipient, amount)");

    assert!(external_call(inside(&declared), &contract).is_some());
    assert!(external_call(inside(&contextual), &contract).is_some());
    assert!(external_call(inside(&raw), &contract).is_some());
    assert!(
        external_call(inside(&local), &contract).is_none(),
        "calling our own method is not leaving the contract"
    );
}

#[test]
fn knows_whether_the_callee_returns_anything() {
    let contract = contract_of(SOURCE);
    let with = around("token.transfer(&vm, ctx, to, amount)");
    let without = around("token.ping(&vm, ctx, to)");
    assert_eq!(external_call(inside(&with), &contract).unwrap().returns, Some(true));
    assert_eq!(external_call(inside(&without), &contract).unwrap().returns, Some(false));
}

#[test]
fn recognises_the_ways_storage_gets_written() {
    let contract = contract_of(SOURCE);
    let direct = around("self.owner.set(next)");
    let through_map = around("self.budget.setter(key).set(value)");
    let read = around("self.owner.get()");
    let unrelated = around("local.set(value)");

    assert_eq!(
        storage_write(inside(&direct), &contract).map(|f| f.name.as_str()),
        Some("owner")
    );
    assert_eq!(
        storage_write(inside(&through_map), &contract).map(|f| f.name.as_str()),
        Some("budget")
    );
    assert!(storage_write(inside(&read), &contract).is_none());
    assert!(
        storage_write(inside(&unrelated), &contract).is_none(),
        "a local variable is not storage"
    );
}

#[test]
fn columns_are_counted_from_one() {
    assert_eq!(position(Place { line: 3, column: 0 }), (3, 1));
    assert_eq!(position(Place { line: 1, column: usize::MAX }), (1, usize::MAX));
}

#[test]
fn a_call_can_or_cannot_come_back_in() {
    let contract = contract_of(SOURCE);
    let cases = [
        ("token.transfer(&vm, ctx, to, amount)", true),
        ("token.transfer(&vm, Call::new(), to, amount)", false),
        ("token.ping(&vm, Call::new(), Call::new_mutating(self))", false),
        ("other.go(Call::new_mutating(self))", true),
        ("other.go(RawCall::new_static())", false),
        ("other.go(wrap(Call::new(), Call::new_mutating(self)))", true),
        ("static_call(vm)", false),
        ("sdk::call(vm)", true),
        ("delegate_call(vm)", true),
        ("transfer_eth(vm)", true),
        ("raw_call(vm)", true),
    ];
    for (source, reenters) in cases {
        let file = around(source);
        let call = external_call(inside(&file), &contract).unwrap();
        assert_eq!(call.reenters, reenters, "{source}");
    }
    for source in ["other.go(x)", "Call::new()", "(call)(vm)", "call", "other.go(sdk::Call::new())"] {
        let file = around(source);
        assert!(external_call(inside(&file), &contract).is_none(), "{source}");
    }
}

#[test]
fn a_call_is_placed_where_it_starts() {
    let contract = contract_of(SOURCE);
    let file = around("token.transfer(a)");
    let call = external_call(inside(&file), &contract).unwrap();
    assert_eq!(call.name, "transfer");
    assert_eq!((call.at.line, call.at.column), (1, 13));
}

#[test]
fn every_writing_method_counts_and_no_other() {
    let contract = contract_of(SOURCE);
    for method in ["set", "push", "insert", "erase", "clear", "set_word", "replace", "grow", "shrink"] {
        let file = around(&format!("self.budget.{method}(x)"));
        assert!(storage_write(inside(&file), &contract).is_some(), "{method}");
    }
    for source in [
        "self.budget.get()",
        "self.missing.set(x)",
        "self.0.set(x)",
        "self.inner.budget.set(x)",
        "other.budget.set(x)",
        "set(self.budget)",
        "self::budget.set(x)",
    ] {
        let file = around(source);
        assert!(storage_write(inside(&file), &contract).is_none(), "{source}");
    }
    let file = around("self.budget[3].setter(k).insert(x)");
    assert!(storage_write(inside(&file), &contract).is_some());
}

#[test]
fn touched_fields_are_listed_in_source_order() {
    let file = around("f(self.b.get(), || self.a[self.c], self.0, other.d, self.b)");
    assert_eq!(touched_fields(inside(&file)), vec!["b", "a", "c", "b"]);
}

#[test]
fn test_code_is_told_by_its_attributes() {
    let file = parse(
        "#[test] impl A {} #[cfg(all(test, unix))] impl B {} #[cfg(feature = \"x\")] impl C {}
         #[cfg] impl D {} #[tokio::test] impl E {} #[a::b::public] impl F { #[cfg(test)] fn t() {} fn u() {} }
         mod tests { impl G {} } mod test { impl H {} }",
    )
    .unwrap();
    let impls = contract_impls(&file);
    assert_eq!(impls.len(), 4);
    assert!(!is_test_only(impls[0]));
    assert!(has_attribute(impls[2], "public"));
    assert!(!has_attribute(impls[2], "a"));
    assert_eq!(entrypoints(impls[2]).len(), 1);
    assert_eq!(public_impls(&file).len(), 1);
}

#[test]
fn only_a_mutable_reference_to_self_can_change_storage() {
    let file = parse(
        "impl A { fn a(&mut self) {} fn b(mut self) {} fn c(self) {} fn d(x: &mut A) {} fn e() {}
                  fn f(&'a mut self, x: u8) {} }",
    )
    .unwrap();
    let impls = contract_impls(&file);
    let found: Vec<bool> = entrypoints(impls[0]).iter().map(|f| mutates_self(f)).collect();
    assert_eq!(found, vec![true, false, false, false, false, true]);
}

#[test]
fn a_block_inside_a_function_is_found_too() {
    let file = parse("impl A { fn a() { impl B { fn b() {} } } }").unwrap();
    assert_eq!(contract_impls(&file).len(), 2);
}

#[test]
fn a_file_that_is_not_rust_says_why() {
    assert!(parse("fn oops( {").is_err());
    assert!(!parse("fn oops( {").unwrap_err().is_empty());
    assert!(parse("").unwrap().children.is_empty());
}

#[test]
fn the_rules_say_who_they_are() {
    let said: Vec<_> = all()
        .iter()
        .map(|r| (r.id(), r.severity().as_str(), r.description()))
        .collect();
    assert_eq!(
        said,
        vec![
            (
                "unwrap-in-entrypoint",
                "high",
                "a panic reachable from a caller, which traps instead of reverting"
            ),
            (
                "unchecked-call-result",
                "high",
                "a call to another contract whose return value is thrown away"
            ),
            (
                "state-write-after-call",
                "high",
                "storage changed after an external call, against checks effects interactions"
            ),
            (
                "lossy-integer-conversion",
                "high",
                "a storage value narrowed into a type too small to hold it"
            ),
            (
                "missing-access-control",
                "medium",
                "a public function changes storage without checking who called it"
            ),
            (
                "unbounded-storage-loop",
                "medium",
                "a loop over storage that callers can make long enough to run out of gas"
            ),
        ]
    );
}

#[test]
fn test_code_is_hidden_at_any_depth() {
    let file = parse(
        "mod a { mod b { #[cfg(test)] mod c { impl A {} } impl B {} } #[test] impl C {} mod tests { impl D {} } }
         mod e { impl E {} }",
    )
    .unwrap();
    assert_eq!(contract_impls(&file).len(), 2);
}

#[test]
fn a_test_beside_the_contract_hides_nothing() {
    for sibling in [
        "#[cfg(test)] use x::y;",
        "#[test] fn probe() {}",
        "#[cfg(test)] const X: u32 = 1;",
        "#[cfg(test)] static Y: u32 = 1;",
        "#[cfg(test)] type Z = u8;",
        "#[cfg(test)] struct S;",
        "#[cfg(test)] trait T { #[test] fn t() {} }",
        "#[cfg(test)] some_macro! {}",
        "struct G<#[cfg(test)] T>(T);",
    ] {
        for source in [
            format!("mod contract {{ {sibling} #[public] impl A {{ fn go() {{}} }} }}"),
            format!("mod contract {{ #[public] impl A {{ fn go() {{}} }} {sibling} }}"),
        ] {
            let file = parse(&source).unwrap();
            assert_eq!(contract_impls(&file).len(), 1, "{source}");
            assert_eq!(public_impls(&file).len(), 1, "{source}");
        }
    }
}

#[test]
fn a_member_does_not_speak_for_its_block() {
    for member in [
        "#[cfg(test)] const X: u32 = 1;",
        "#[cfg(test)] type Y = u8;",
        "#[cfg(test)] some_macro! {}",
        "#[test] fn t() {}",
    ] {
        let source = format!("impl A {{ {member} fn go() {{}} }}");
        let file = parse(&source).unwrap();
        let impls = contract_impls(&file);
        assert_eq!(impls.len(), 1, "{source}");
        assert!(!is_test_only(impls[0]), "{source}");
        let names: Vec<_> = entrypoints(impls[0]).iter().map(|f| f.name().unwrap()).collect();
        assert_eq!(names, vec!["go"], "{source}");
    }
    for member in ["#[public] const X: u32 = 1;", "#[public] type Y = u8;", "#[public] fn t() {}"] {
        let source = format!("impl A {{ {member} fn go() {{}} }}");
        let file = parse(&source).unwrap();
        assert!(public_impls(&file).is_empty(), "{source}");
        assert!(!has_attribute(contract_impls(&file)[0], "public"), "{source}");
    }
}

#[test]
fn a_parameter_does_not_speak_for_its_item() {
    let file = parse(
        "impl<#[cfg(test)] T> A<T> { fn go<#[test] U>(#[cfg(test)] u: U) {} }
         #[cfg(test)] impl<#[unrelated] T> B<T> {}",
    )
    .unwrap();
    let impls = contract_impls(&file);
    assert_eq!(impls.len(), 1);
    assert_eq!(entrypoints(impls[0]).len(), 1);
}

#[test]
fn an_attribute_inside_the_braces_counts_as_well() {
    let file = parse("mod a { #![cfg(test)] impl A {} } impl B { #![cfg(test)] } impl C {}").unwrap();
    assert_eq!(contract_impls(&file).len(), 1);
}

#[test]
fn only_a_predicate_that_asks_for_tests_hides_code() {
    for (predicate, hidden) in [
        ("test", true),
        ("all(test, unix)", true),
        ("any(unix, test)", true),
        ("all(unix, any(feature = \"x\", test))", true),
        ("any(not(unix), test)", true),
        ("not(test)", false),
        ("all(not(test), unix)", false),
        ("not(any(test, unix))", false),
        ("not(not(test))", true),
        ("not(all(unix, not(test)))", true),
        ("not(not(not(test)))", false),
        ("any(not(test), feature = \"test-utils\")", true),
        ("doctest", true),
        ("any(test, doctest)", true),
        ("not(doctest)", false),
        ("testing", true),
        ("feature = \"test\"", true),
        ("feature = \"test-utils\"", true),
        ("feature = \"unit_tests\"", true),
        ("not(feature = \"test-utils\")", false),
        ("feature = \"testnet\"", false),
        ("feature = \"testnet-tests\"", true),
        ("feature = \"tes\"", false),
        ("unix", false),
    ] {
        let source = format!("#[cfg({predicate})] impl A {{}}");
        let file = parse(&source).unwrap();
        assert_eq!(contract_impls(&file).is_empty(), hidden, "{source}");
    }
}
