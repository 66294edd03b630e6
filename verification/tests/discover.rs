//! Finding the code to check.

use std::path::{Component, Path};
use stylus_check::discover::{
    collect, declares_a_contract, declares_stylus_sdk, is_a_manifest, is_a_source, is_ignored_dir,
    Entry, NotStylus,
};
use stylus_check::path::{FilePath, Part};
use stylus_check::syntax::parse;

fn path(text: &str) -> FilePath {
    let parts = Path::new(text)
        .components()
        .map(|part| match part {
            Component::Prefix(prefix) => {
                Part::Prefix(prefix.as_os_str().to_string_lossy().into_owned())
            }
            Component::RootDir => Part::Root,
            Component::CurDir => Part::Current,
            Component::ParentDir => Part::Parent,
            Component::Normal(name) => Part::Normal(name.to_string_lossy().into_owned()),
        })
        .collect();
    FilePath { shown: text.to_string(), parts }
}

fn entry(name: &str, text: &str) -> Entry {
    Entry { path: path(name), text: Ok(text.to_string()) }
}

#[test]
fn a_manifest_naming_the_sdk_counts_however_it_is_written() {
    assert!(declares_stylus_sdk("stylus-sdk = \"0.10\""));
    assert!(declares_stylus_sdk("  stylus-sdk = { version = \"0.10\" }"));
    assert!(declares_stylus_sdk("stylus_sdk = \"0.10\""));
}

#[test]
fn a_commented_out_dependency_does_not_count() {
    assert!(!declares_stylus_sdk("# stylus-sdk = \"0.10\""));
}

#[test]
fn an_unrelated_manifest_does_not_count() {
    assert!(!declares_stylus_sdk("serde = \"1\"\ntokio = \"1\""));
    // Naming the checker itself is not the same as depending on the SDK.
    assert!(!declares_stylus_sdk("stylus-check = \"0.1\""));
}

#[test]
fn build_output_is_never_checked() {
    assert!(is_ignored_dir(&path("/x/target")));
    assert!(is_ignored_dir(&path("/x/node_modules")));
    assert!(!is_ignored_dir(&path("/x/src")));
}

#[test]
fn a_missing_path_says_so() {
    let err = collect(&path("/nonexistent/place"), None).unwrap_err();
    assert!(matches!(err, NotStylus::Missing(_)));
}

/// A program that talks about contracts quotes `sol_storage!` and `#[public]`
/// in strings and comments all over.
#[test]
fn merely_naming_the_macros_is_not_declaring_a_contract() {
    let file = parse(
        r##"
        const EXAMPLE: &str = "sol_storage! { pub struct A { address owner; } }";
        /// Recognises a `#[public]` impl block.
        fn describe() -> &'static str { "#[public]" }
        "##,
    )
    .unwrap();
    assert!(!declares_a_contract(&file));
}

#[test]
fn invoking_the_macro_is() {
    let file = parse("sol_storage! { pub struct A { address owner; } }").unwrap();
    assert!(declares_a_contract(&file));
}

#[test]
fn so_is_a_public_impl() {
    let file = parse("#[public] impl A { pub fn go(&mut self) {} }").unwrap();
    assert!(declares_a_contract(&file));
}

#[test]
fn every_refusal_is_a_sentence() {
    let root = path("some/place");
    let missing = collect(&root, None).unwrap_err();
    assert_eq!(missing.message(), "there is nothing at some/place");
    let empty = collect(&root, Some(vec![])).unwrap_err();
    assert!(matches!(empty, NotStylus::NoRustSource(_)));
    assert_eq!(empty.message(), "no Rust source files under some/place");
    let plain = collect(&root, Some(vec![entry("some/place/a.rs", "fn a() {}")])).unwrap_err();
    assert!(matches!(plain, NotStylus::NoSdkDependency(_)));
    assert_eq!(
        plain.message(),
        "no crate under some/place depends on stylus-sdk, so there are no Stylus contracts here.\n\
         This checker only understands stylus-sdk code; for plain Rust use clippy, and for \
         Solidity use slither."
    );
}

#[test]
fn a_manifest_without_rust_is_not_enough() {
    let found = vec![entry("Cargo.toml", "stylus-sdk = \"0.10\"")];
    assert!(matches!(
        collect(&path("."), Some(found)).unwrap_err(),
        NotStylus::NoRustSource(_)
    ));
}

#[test]
fn sources_and_manifests_are_told_apart_and_sorted() {
    let found = vec![
        entry("p/src/b.rs", "fn b() {}"),
        entry("p/src/notes.txt", "stylus-sdk"),
        entry("p/z/Cargo.toml", "stylus_sdk = \"1\""),
        entry("p/Cargo.toml", "[dependencies]\r\n\tstylus-sdk = \"0.10\"\r\n"),
        entry("p/other/Cargo.toml", "serde = \"1\""),
        Entry { path: path("p/gone/Cargo.toml"), text: Err("denied".to_string()) },
        Entry { path: path("p/src/a.rs"), text: Err("denied".to_string()) },
    ];
    let sources = collect(&path("p"), Some(found)).unwrap();
    let files: Vec<_> = sources.files.iter().map(|e| e.path.shown.as_str()).collect();
    let manifests: Vec<_> = sources.manifests.iter().map(|e| e.path.shown.as_str()).collect();
    assert_eq!(files, vec!["p/src/a.rs", "p/src/b.rs"]);
    assert_eq!(manifests, vec!["p/Cargo.toml", "p/z/Cargo.toml"]);
}

#[test]
fn a_single_file_may_say_it_is_stylus_itself() {
    let found = vec![
        entry("broken.rs", "fn oops( {"),
        entry("one.rs", "sol_interface! { interface I {} }"),
    ];
    let sources = collect(&path("."), Some(found)).unwrap();
    assert_eq!(sources.files.len(), 2);
    assert!(sources.manifests.is_empty());
}

#[test]
fn names_decide_what_a_file_is() {
    assert!(is_a_source(&path("a/b.rs")));
    assert!(is_a_source(&path("a.b.rs")));
    assert!(!is_a_source(&path("a/.rs")), "a hidden file has no extension");
    assert!(!is_a_source(&path("a/rs")));
    assert!(!is_a_source(&path("a.rs/..")));
    assert!(is_a_manifest(&path("x/Cargo.toml")));
    assert!(!is_a_manifest(&path("x/cargo.toml")));
    assert!(!is_ignored_dir(&path("/")));
    assert!(is_ignored_dir(&path(".git")));
    assert!(is_ignored_dir(&path("vendor")));
    assert!(is_ignored_dir(&path("a/.cargo")));
}

#[test]
fn a_public_member_is_not_a_public_impl() {
    for member in ["#[public] const X: u8 = 1;", "#[public] type Y = u8;", "#[public] fn go() {}"] {
        let file = parse(&format!("impl A {{ {member} }}")).unwrap();
        assert!(!declares_a_contract(&file), "{member}");
    }
    let file = parse("#[public] mod a { impl A {} } #[public] fn b() {}").unwrap();
    assert!(!declares_a_contract(&file));
    let file = parse("mod a { fn b() { #[sdk::public] impl A {} } }").unwrap();
    assert!(declares_a_contract(&file));
}
