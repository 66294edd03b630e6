//! What the two macros say about a contract.

use stylus_check::model::{
    parse_interface_methods, parse_storage, strip_attributes, to_snake_case, Contract,
    StorageField,
};
use stylus_check::syntax::parse;

fn storage_of(body: &str) -> Vec<StorageField> {
    parse_storage(body)
}

fn field(name: &str, sol_type: &str) -> StorageField {
    StorageField { name: name.into(), sol_type: sol_type.into() }
}

#[test]
fn reads_the_fields_a_contract_declares() {
    let fields = storage_of(
        "#[entrypoint] pub struct Account { address owner ; uint256 budget ; bool entered ; }",
    );
    let names: Vec<_> = fields.iter().map(|f| f.name.as_str()).collect();
    assert_eq!(names, vec!["owner", "budget", "entered"]);
    assert_eq!(fields[1].sol_type, "uint256");
}

#[test]
fn reads_a_mapping_without_mistaking_the_arrow_for_a_field() {
    let fields = storage_of("pub struct A { mapping ( address => bool ) allowed ; }");
    assert_eq!(fields.len(), 1);
    assert_eq!(fields[0].name, "allowed");
    assert!(fields[0].is_dynamic());
}

#[test]
fn knows_how_wide_a_number_is() {
    let u256 = field("a", "uint256");
    let u64f = field("b", "uint64");
    let addr = field("c", "address");
    assert_eq!(u256.int_bits(), Some(256));
    assert_eq!(u64f.int_bits(), Some(64));
    assert_eq!(addr.int_bits(), None);
}

#[test]
fn recognises_a_hand_rolled_lock_and_an_authority() {
    let guard = field("entered", "bool");
    let owner = field("owner", "address");
    let budget = field("budget", "uint256");
    assert!(guard.looks_like_a_guard());
    assert!(owner.looks_like_an_authority());
    assert!(!budget.looks_like_a_guard());
    assert!(!budget.looks_like_an_authority());
}

#[test]
fn a_bool_named_like_a_flag_is_not_a_lock() {
    let flag = field("paused", "bool");
    assert!(!flag.looks_like_a_guard());
}

#[test]
fn reads_the_functions_an_interface_declares() {
    let methods = parse_interface_methods(
        "interface IErc20 { function transfer (address to , uint256 amount) external returns (bool) ; \
         function balanceOf (address who) external view returns (uint256) ; }",
    );
    let names: Vec<&str> = methods
        .iter()
        .flat_map(|m| m.names.iter().map(String::as_str))
        .collect();
    assert!(names.contains(&"transfer"));
    assert!(names.contains(&"balance_of"));
    assert!(names.contains(&"balanceOf"));
    assert!(methods.iter().all(|m| m.returns));
}

#[test]
fn spells_names_the_way_the_macro_does() {
    assert_eq!(to_snake_case("transfer"), "transfer");
    assert_eq!(to_snake_case("balanceOf"), "balance_of");
    assert_eq!(to_snake_case("verifyEd25519"), "verify_ed_25519");
}

#[test]
fn knows_which_calls_hand_something_back() {
    let methods = parse_interface_methods(
        "interface I { function ping () external ; \
         function balanceOf (address a) external view returns (uint256) ; }",
    );
    let ping = methods.iter().find(|m| m.names[0] == "ping").unwrap();
    let balance = methods.iter().find(|m| m.names[0] == "balanceOf").unwrap();
    assert!(!ping.returns, "a void call has no result to drop");
    assert!(balance.returns);
}

/// The real contract this checker was built against documents every field.
#[test]
fn a_documented_field_is_still_a_field() {
    let body = r###"
        #[entrypoint]
        pub struct Account {
            # [doc = r" Sets policy and rotates the agent; never spends."] address owner ;
            # [doc = r" Spendable per window."] uint256 budget ;
            # [doc = r" Recipients { allowed } without a mandate."] mapping (address => bool) allowed ;
        }
    "###;
    let fields = parse_storage(body);
    let names: Vec<_> = fields.iter().map(|f| f.name.as_str()).collect();
    assert_eq!(names, vec!["owner", "budget", "allowed"]);
    assert_eq!(fields[1].sol_type, "uint256");
}

#[test]
fn attribute_text_never_leaks_into_a_field() {
    let stripped = strip_attributes("# [doc = r\" a; b { c }\"] address owner ;");
    assert!(!stripped.contains("doc"));
    assert!(stripped.contains("address owner"));
}

#[test]
fn a_view_function_is_reached_by_a_call_that_cannot_reenter() {
    let methods = parse_interface_methods(
        "interface I { function transfer (address to, uint256 v) external returns (bool) ; \
         function balanceOf (address a) external view returns (uint256) ; }",
    );
    let transfer = methods.iter().find(|m| m.names[0] == "transfer").unwrap();
    let balance = methods.iter().find(|m| m.names[0] == "balanceOf").unwrap();
    assert!(transfer.mutates);
    assert!(!balance.mutates, "a view call is a staticcall and cannot come back in");
}

#[test]
fn an_attribute_leaves_one_space_behind() {
    assert_eq!(strip_attributes("a#[x]b"), "a b");
    assert_eq!(strip_attributes("a # \n [ x [ y ] z ] b"), "a   b");
    assert_eq!(strip_attributes("##[x]"), "# ");
    assert_eq!(strip_attributes("a # b"), "a # b");
    assert_eq!(strip_attributes("a #[never closed ;"), "a  ");
    assert_eq!(strip_attributes("] #"), "] #");
    assert_eq!(strip_attributes(""), "");
}

#[test]
fn brackets_are_put_back_where_they_belong() {
    let fields = parse_storage("mapping ( address  =>  mapping ( address => uint256 ) ) grid ; address [ ] all ;");
    assert_eq!(fields[0].sol_type, "mapping(address => mapping(address => uint256))");
    assert_eq!(fields[1].sol_type, "address[]");
    assert!(fields[0].is_dynamic());
    assert!(fields[1].is_dynamic());
}

#[test]
fn what_is_not_a_declaration_declares_nothing() {
    assert!(parse_storage("").is_empty());
    assert!(parse_storage("pub struct A {}").is_empty());
    assert!(parse_storage("struct owner ;").is_empty());
    assert!(parse_storage("lonely ;").is_empty());
    assert!(parse_storage("uint256 2fast ;").is_empty());
    assert!(parse_storage("a => b ;").is_empty());
    assert!(parse_storage("uint256 a-b ;").is_empty());
    assert_eq!(parse_storage("uint256 _x1 ;")[0].name, "_x1");
    assert_eq!(parse_storage("uint256 gr\u{f6}\u{df}e ;")[0].name, "gr\u{f6}\u{df}e");
    assert!(parse_storage("uint256 \u{661}a ;").is_empty(), "a digit does not start a name");
}

#[test]
fn widths_are_read_off_the_type() {
    assert_eq!(field("a", "uint").int_bits(), Some(256));
    assert_eq!(field("a", " int ").int_bits(), Some(256));
    assert_eq!(field("a", "int8").int_bits(), Some(8));
    assert_eq!(field("a", "uint+8").int_bits(), Some(8));
    assert_eq!(field("a", "uint4294967295").int_bits(), Some(u32::MAX));
    assert_eq!(field("a", "uint4294967296").int_bits(), None);
    assert_eq!(field("a", "uint8[]").int_bits(), None);
    assert_eq!(field("a", "bool").int_bits(), None);
}

#[test]
fn collections_are_told_from_values() {
    for ty in ["mapping(address => bool)", "address[]", "bytes", "string", " bytes "] {
        assert!(field("a", ty).is_dynamic(), "{ty}");
    }
    for ty in ["bytes32", "address[4]", "uint256"] {
        assert!(!field("a", ty).is_dynamic(), "{ty}");
    }
}

#[test]
fn names_are_read_in_any_case() {
    assert!(field("ReentrancyGuard", "bool").looks_like_a_guard());
    assert!(field("isBUSY", " bool ").looks_like_a_guard());
    assert!(!field("entered", "uint256").looks_like_a_guard());
    assert!(field("MinterRole", "mapping(address => bool)").looks_like_an_authority());
    assert!(!field("owner", "uint256").looks_like_an_authority());
}

#[test]
fn letters_beyond_ascii_are_lowered_as_unicode_says() {
    assert_eq!(to_snake_case("a\u{c9}b"), "a_\u{e9}b");
    assert_eq!(to_snake_case("\u{130}x"), "i\u{307}x");
    assert_eq!(to_snake_case("\u{e9}1"), "\u{e9}_1");
    assert_eq!(to_snake_case("a_B"), "a_b");
    assert_eq!(to_snake_case("ABC"), "a_b_c");
    assert_eq!(to_snake_case("_1"), "_1");
    assert_eq!(to_snake_case(""), "");
}

#[test]
fn a_function_without_a_name_is_not_one() {
    assert!(parse_interface_methods("function () external ;").is_empty());
    assert!(parse_interface_methods("functional").is_empty());
    let methods = parse_interface_methods("function   a_1() pure ; function \u{e9}t\u{e9}() ;");
    assert_eq!(methods.len(), 2);
    assert_eq!(methods[0].names, vec!["a_1"]);
    assert!(!methods[0].mutates);
    assert_eq!(methods[1].names, vec!["\u{e9}t\u{e9}"]);
    assert!(methods[1].mutates);
}

#[test]
fn a_contract_is_learned_from_the_macros_it_invokes() {
    let first = parse(
        "sol_storage! { pub struct A { uint256 zeta; address owner; } }\n\
         sol_interface! { interface I { function balanceOf(address a) external view returns (uint256); } }",
    )
    .unwrap();
    let second = parse(
        "mod inner { sdk::sol_storage! { pub struct B { uint64 zeta; bool alpha; } } }\n\
         other! { uint256 nothing; }\n\
         sol_interface! { interface I { function balanceOf(address a) external view returns (uint256); } }",
    )
    .unwrap();
    let mut contract = Contract::default();
    assert!(!contract.has_an_authority());
    contract.absorb(&first);
    contract.absorb(&second);
    let names: Vec<_> = contract.storage.iter().map(|f| f.name.as_str()).collect();
    assert_eq!(names, vec!["alpha", "owner", "zeta"], "one of each, in order");
    assert_eq!(contract.field("zeta").unwrap().sol_type, "uint64", "the last one counts");
    assert!(contract.field("nothing").is_none());
    assert!(contract.has_an_authority());
    assert_eq!(contract.authorities(), vec!["owner"]);
    assert_eq!(contract.external_methods.len(), 1, "the same function is listed once");
    assert!(contract.external_method("balanceOf").is_some());
    assert!(contract.external_method("balance_of").is_some());
    assert!(contract.external_method("balanceof").is_none());
}

#[test]
fn each_declaration_stands_alone() {
    let both = parse_storage("pub struct A { uint64 first ; bytes32[] second ; }");
    assert_eq!(both, vec![field("first", "uint64"), field("second", "bytes32[]")]);
    assert_eq!(parse_storage("uint64 first"), vec![field("first", "uint64")]);
    assert_eq!(parse_storage("bytes32[] second"), vec![field("second", "bytes32[]")]);
    assert_eq!(
        parse_storage("struct A { address owner"),
        parse_storage("address owner"),
        "what stands before the brace says nothing"
    );
}

#[test]
fn reading_goes_on_behind_a_function() {
    let methods = parse_interface_methods("function aB(uint x) ; function c() ; function d");
    let names: Vec<_> = methods.iter().map(|m| m.names.join("/")).collect();
    assert_eq!(names, vec!["aB/a_b", "c", "d"]);
}

#[test]
fn a_name_may_hold_the_letters_of_a_keyword() {
    assert_eq!(
        parse_storage("pub struct A { uint256 structure ; }"),
        vec![field("structure", "uint256")]
    );
    assert_eq!(
        parse_storage("pub struct A { uint256 my_struct ; Construct plan ; bool unstructured ; }"),
        vec![
            field("my_struct", "uint256"),
            field("plan", "Construct"),
            field("unstructured", "bool"),
        ]
    );
    assert!(parse_storage("struct Empty ;").is_empty());
    assert!(parse_storage("pub struct Empty").is_empty());
    assert!(parse_storage("uint256 struct").is_empty());
}

#[test]
fn only_the_modifiers_of_a_function_say_what_it_does() {
    let methods = parse_interface_methods(
        "interface I { function review (address who) external ; \
         function returnsNothing(uint viewer) external ; \
         function pure_luck() external viewing ; \
         function preview() external view ; \
         function purity() external pure returns(uint256) ; \
         function look()view returns (bool returns_) ; }",
    );
    let told: Vec<_> = methods
        .iter()
        .map(|m| (m.names[0].as_str(), m.returns, m.mutates))
        .collect();
    assert_eq!(
        told,
        vec![
            ("review", false, true),
            ("returnsNothing", false, true),
            ("pure_luck", false, true),
            ("preview", false, false),
            ("purity", true, false),
            ("look", true, false),
        ]
    );
    assert_eq!(methods[0].names, vec!["review"]);
}

#[test]
fn a_function_called_view_is_no_view() {
    let methods = parse_interface_methods("function view() external ; function returns() external ;");
    assert!(methods[0].mutates);
    assert!(!methods[1].returns);
}

#[test]
fn reading_a_file_again_teaches_nothing() {
    let before = parse(
        "sol_storage! { pub struct A { uint256 zeta; address owner; } }\n\
         sol_interface! { interface I { function pay(address a) external; } }",
    )
    .unwrap();
    let file = parse(
        "sol_storage! { pub struct B { uint64 zeta; bool alpha; uint8 alpha; } }\n\
         sol_interface! { interface J { function ask() external view; function pay(address a) external; \
         function ask() external view; function pay(address a) external returns (bool); } }",
    )
    .unwrap();
    let tell = |contract: &Contract| {
        let fields: Vec<_> =
            contract.storage.iter().map(|f| (f.name.clone(), f.sol_type.clone())).collect();
        let methods: Vec<_> = contract
            .external_methods
            .iter()
            .map(|m| (m.names.clone(), m.returns, m.mutates))
            .collect();
        (fields, methods)
    };
    let mut contract = Contract::default();
    contract.absorb(&before);
    let start = tell(&contract);
    contract.absorb(&file);
    let once = tell(&contract);
    contract.absorb(&file);
    assert_eq!(tell(&contract), once);
    assert_eq!(
        once.0,
        vec![
            ("alpha".to_string(), "uint8".to_string()),
            ("owner".to_string(), "address".to_string()),
            ("zeta".to_string(), "uint64".to_string()),
        ]
    );
    assert_eq!(once.1.len(), 3);
    assert_eq!(once.1[..start.1.len()], start.1[..], "what was known stays where it was");
}
