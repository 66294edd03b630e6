//! Whole runs.

use std::path::{Component, Path};
use stylus_check::config::Config;
use stylus_check::discover::{Entry, NotStylus};
use stylus_check::finding::{Finding, Report, Severity};
use stylus_check::path::{FilePath, Part};
use stylus_check::run::{
    check, check_files, crate_root_of, deprecated_guard_in_manifest, deprecated_guard_in_source,
    rule_ids, ParsedFile,
};
use stylus_check::syntax::parse;

fn path(text: &str) -> FilePath {
    let parts = Path::new(text)
        .components()
        .map(|part| match part {
            Component::Prefix(prefix) => {
                Part::Prefix(prefix.as_os_str().to_string_lossy().into_owned())
            }
            Component::RootDir => Part::Root,
            Component::CurDir => Part::Current,
            Component::ParentDir => Part::Parent,
            Component::Normal(name) => Part::Normal(name.to_string_lossy().into_owned()),
        })
        .collect();
    FilePath { shown: text.to_string(), parts }
}

fn entry(name: &str, text: &str) -> Entry {
    Entry { path: path(name), text: Ok(text.to_string()) }
}

fn findings_for(manifest: &str) -> Vec<Finding> {
    deprecated_guard_in_manifest(&path("Cargo.toml"), manifest, &Config::default())
}

#[test]
fn refuses_a_project_that_is_not_stylus() {
    let found = vec![
        entry("p/Cargo.toml", "[package]\nname = \"x\"\n\n[dependencies]\nserde = \"1\"\n"),
        entry("p/src/lib.rs", "pub fn add(a: u8, b: u8) -> u8 { a + b }"),
    ];
    let err = check(&path("p"), Some(found), &Config::default()).unwrap_err();
    assert!(matches!(err, NotStylus::NoSdkDependency(_)));
}

#[test]
fn a_file_that_does_not_parse_is_reported_and_the_rest_still_run() {
    let found = vec![
        entry("p/Cargo.toml", "[dependencies]\nstylus-sdk = \"0.10\"\n"),
        entry("p/src/broken.rs", "pub fn oops( {"),
        entry(
            "p/src/lib.rs",
            "sol_storage! { pub struct A { address owner; uint256 v; } }\n\
             #[public]\n impl A { pub fn go(&mut self, k: U256) { self.book.get(k).unwrap(); } }",
        ),
    ];
    let report = check(&path("p"), Some(found), &Config::default()).unwrap();
    assert_eq!(report.skipped.len(), 1, "the broken file is named");
    assert_eq!(report.skipped[0].file.file_name(), Some("broken.rs"));
    assert!(
        report.findings.iter().any(|f| f.rule == "unwrap-in-entrypoint"),
        "the good file is still checked"
    );
}

#[test]
fn learns_the_contract_from_a_file_other_than_the_one_it_checks() {
    let found = vec![
        entry("p/Cargo.toml", "[dependencies]\nstylus-sdk = \"0.10\"\n"),
        entry(
            "p/src/storage.rs",
            "sol_storage! { pub struct A { uint64 last_refill; uint256 budget; } }",
        ),
        entry(
            "p/src/logic.rs",
            "#[public]\n impl A {\n pub fn go(&mut self) { let a = self.last_refill.get().to::<u64>(); let b = self.budget.get().to::<u64>(); }\n }",
        ),
    ];
    let report = check(&path("p"), Some(found), &Config::default()).unwrap();
    let lossy: Vec<_> = report
        .findings
        .iter()
        .filter(|f| f.rule == "lossy-integer-conversion")
        .collect();
    assert_eq!(lossy.len(), 1, "only the uint256 one is lossy");
    assert!(lossy[0].message.contains("budget"));
}

#[test]
fn a_disabled_rule_says_nothing() {
    let found = vec![
        entry("p/Cargo.toml", "[dependencies]\nstylus-sdk = \"0.10\"\n"),
        entry(
            "p/src/lib.rs",
            "#[public]\n impl A { pub fn go(&mut self, k: U256) { self.book.get(k).unwrap(); } }",
        ),
    ];
    let config = Config {
        disable: vec!["unwrap-in-entrypoint".into()],
        ..Config::default()
    };
    let report = check(&path("p"), Some(found), &config).unwrap();
    assert!(report.findings.is_empty());
}

#[test]
fn flags_the_deprecated_guard_wherever_it_appears() {
    let found = vec![
        entry(
            "p/Cargo.toml",
            "[dependencies]\nstylus-sdk = { version = \"0.10\", features = [\"reentrant\"] }\n",
        ),
        entry("p/src/lib.rs", "#[entrypoint]\n#[deny_reentrant]\npub struct A;"),
    ];
    let report = check(&path("p"), Some(found), &Config::default()).unwrap();
    let guards: Vec<_> = report
        .findings
        .iter()
        .filter(|f| f.rule == "deprecated-reentrancy-guard")
        .collect();
    assert_eq!(guards.len(), 2, "the manifest and the source both say it");
}

/// One contract of a repository has an owner, and another has none.
#[test]
fn one_contract_never_borrows_another_contract_storage() {
    let mut found = Vec::new();
    for name in ["owned", "open"] {
        found.push(entry(
            &format!("p/{name}/Cargo.toml"),
            "[dependencies]\nstylus-sdk = \"0.10\"\n",
        ));
    }
    found.push(entry(
        "p/owned/src/lib.rs",
        "sol_storage! { pub struct A { address owner; uint256 v; } }",
    ));
    found.push(entry(
        "p/open/src/lib.rs",
        "sol_storage! { pub struct B { uint256 counter; } }\n\
         #[public]\n impl B { pub fn bump(&mut self) { self.counter.set(v); } }",
    ));
    let report = check(&path("p"), Some(found), &Config::default()).unwrap();
    assert!(
        !report.findings.iter().any(|f| f.rule == "missing-access-control"),
        "the open contract has no authority of its own, and the neighbour's is not its business"
    );
}

#[test]
fn flags_the_feature_on_the_sdk() {
    let found = findings_for("stylus-sdk = { version = \"0.10\", features = [\"reentrant\"] }");
    assert_eq!(found.len(), 1);
}

/// A crate that happens to have a feature by the same name is not the SDK,
/// and a finding about somebody else's dependency is just noise.
#[test]
fn says_nothing_about_another_crate_with_a_feature_of_the_same_name() {
    let found = findings_for("other-crate = { version = \"1\", features = [\"reentrant\"] }");
    assert!(found.is_empty());
}

#[test]
fn a_commented_line_is_not_a_dependency() {
    let found = findings_for("# stylus-sdk = { version = \"0.10\", features = [\"reentrant\"] }");
    assert!(found.is_empty());
}

#[test]
fn the_rules_are_listed_in_order() {
    assert_eq!(
        rule_ids(),
        vec![
            "deprecated-reentrancy-guard",
            "lossy-integer-conversion",
            "missing-access-control",
            "state-write-after-call",
            "unbounded-storage-loop",
            "unchecked-call-result",
            "unwrap-in-entrypoint",
        ]
    );
}

#[test]
fn the_guard_is_found_where_the_line_names_it() {
    let text = "// deny_reentrant\n  * deny_reentrant\n\u{e9}\u{1f600} #[deny_reentrant]\nok";
    let found = deprecated_guard_in_source(&path("a.rs"), text, &Config::default());
    assert_eq!(found.len(), 1, "comments are not code");
    assert_eq!(found[0].rule, "deprecated-reentrancy-guard");
    assert_eq!(found[0].severity, Severity::Medium);
    assert_eq!(found[0].line, 3);
    assert_eq!(found[0].column, 10, "counted in bytes");
    assert_eq!(found[0].message, "`deny_reentrant` was deprecated in stylus-sdk 0.10.5");
    assert_eq!(
        found[0].suggestion,
        "drop it. The high level call functions flush the storage cache themselves, which \
         is what this guard was for. Reentrancy itself is still yours to handle, by writing \
         state before you call out."
    );
}

#[test]
fn the_feature_is_found_on_its_line() {
    let found = findings_for("[dependencies]\n\n  stylus_sdk = { features = [\"reentrant\"] }");
    assert_eq!(found.len(), 1);
    assert_eq!((found[0].line, found[0].column), (3, 1));
    assert_eq!(
        found[0].message,
        "the stylus-sdk `reentrant` feature was deprecated in 0.10.5"
    );
    assert_eq!(
        found[0].suggestion,
        "drop the feature. It blocks legitimate reentrant calls and the cache flushing it \
         existed for now happens on every high level call."
    );
}

#[test]
fn a_project_can_rank_and_silence_the_guard_rule() {
    let found = || {
        vec![
            entry("p/Cargo.toml", "stylus-sdk = { features = [\"reentrant\"] }"),
            entry("p/src/lib.rs", "#[deny_reentrant]\npub struct A;"),
        ]
    };
    let config = Config {
        severity: vec![("deprecated-reentrancy-guard".into(), "high".into())],
        ..Config::default()
    };
    let report = check(&path("p"), Some(found()), &config).unwrap();
    assert_eq!(report.findings.len(), 2);
    assert!(report.findings.iter().all(|f| f.severity == Severity::High));
    let config = Config {
        disable: vec!["deprecated-reentrancy-guard".into()],
        ..Config::default()
    };
    let report = check(&path("p"), Some(found()), &config).unwrap();
    assert!(report.findings.is_empty());
}

#[test]
fn an_override_ranks_every_finding_of_its_rule() {
    let found = vec![
        entry("p/Cargo.toml", "stylus-sdk = \"0.10\""),
        entry(
            "p/src/lib.rs",
            "#[public]\n impl A { pub fn go(&mut self, k: U256) { self.book.get(k).unwrap(); todo!() } }",
        ),
    ];
    let config = Config {
        severity: vec![("unwrap-in-entrypoint".into(), "low".into())],
        ..Config::default()
    };
    let report = check(&path("p"), Some(found), &config).unwrap();
    assert_eq!(report.findings.len(), 2);
    assert!(report.findings.iter().all(|f| f.severity == Severity::Low));
}

#[test]
fn every_file_is_either_checked_or_skipped() {
    let found = vec![
        entry("p/Cargo.toml", "stylus-sdk = \"0.10\""),
        entry("p/src/a.rs", "fn a() {}"),
        entry("p/src/b.rs", "fn b( {"),
        Entry { path: path("p/src/c.rs"), text: Err("denied".to_string()) },
        entry("p/README.md", "text"),
    ];
    let report = check(&path("p"), Some(found), &Config::default()).unwrap();
    assert_eq!(report.files_checked, 1);
    assert_eq!(report.skipped.len(), 2);
    assert_eq!(report.skipped[1].reason, "denied");
}

#[test]
fn a_file_belongs_to_the_closest_manifest_above_it() {
    let manifests = vec![
        entry("p/Cargo.toml", ""),
        entry("p/inner/Cargo.toml", ""),
        entry("p/inner-two/Cargo.toml", ""),
    ];
    let root = |name: &str| crate_root_of(&path(name), &manifests).len();
    assert_eq!(root("p/src/a.rs"), 1);
    assert_eq!(root("p/inner/src/a.rs"), 2);
    assert_eq!(root("p/innermost/a.rs"), 1, "a shared spelling is not a shared directory");
    assert_eq!(root("q/a.rs"), 0);
}

#[test]
fn the_outcome_does_not_depend_on_the_order_files_were_found_in() {
    let make = |flip: bool| {
        let mut found = vec![
            entry("p/Cargo.toml", "stylus-sdk = { features = [\"reentrant\"] }"),
            entry("p/src/a.rs", "impl A { fn f(&self) { todo!() } }"),
            entry("p/src/b.rs", "impl B { fn f(&self) { panic!() } }"),
            entry("p/src/c.rs", "oops {"),
        ];
        if flip {
            found.reverse();
        }
        let report = check(&path("p"), Some(found), &Config::default()).unwrap();
        report
            .findings
            .iter()
            .map(|f| (f.file.shown.clone(), f.line, f.column, f.message.clone()))
            .collect::<Vec<_>>()
    };
    assert_eq!(make(false), make(true));
    assert_eq!(make(false).len(), 3);
}

#[test]
fn parsed_files_can_be_checked_on_their_own() {
    let text = "impl A { fn f(&self) { todo!() } }";
    let files = vec![ParsedFile {
        path: path("a.rs"),
        text: text.to_string(),
        file: parse(text).unwrap(),
    }];
    let findings = check_files(&files, &vec![], &Config::default());
    assert_eq!(findings.len(), 1);
    assert_eq!(findings[0].rule, "unwrap-in-entrypoint");
    assert_eq!((findings[0].line, findings[0].column), (1, 24));
}

#[test]
fn a_bad_file_changes_nothing_for_the_others() {
    let run = |bad: Option<Entry>| {
        let mut found = vec![
            entry("p/Cargo.toml", "stylus-sdk = \"0.10\""),
            entry("p/src/a.rs", "sol_storage! { pub struct A { uint256 n; } }"),
            entry("p/src/c.rs", "impl A { fn f(&self) { self.n.get() as u8; todo!() } }"),
        ];
        found.extend(bad);
        let report = check(&path("p"), Some(found), &Config::default()).unwrap();
        report
            .findings
            .iter()
            .map(|f| (f.rule, f.line, f.column, f.message.clone()))
            .collect::<Vec<_>>()
    };
    let alone = run(None);
    assert_eq!(alone.len(), 2);
    assert_eq!(alone, run(Some(entry("p/src/b.rs", "impl {"))));
    let unread = Entry { path: path("p/src/b.rs"), text: Err("denied".to_string()) };
    assert_eq!(alone, run(Some(unread)));
}

#[test]
fn every_finding_names_a_rule_that_exists() {
    let found = vec![
        entry("p/Cargo.toml", "stylus-sdk = { features = [\"reentrant\"] }"),
        entry(
            "p/src/lib.rs",
            "sol_storage! { pub struct A { address owner; uint256 n; address[] all; } }
             sol_interface! { interface I { function pay(address a) external returns (bool); } }
             #[deny_reentrant]
             #[public]
             impl A {
                 pub fn go(&mut self, k: U256) {
                     token.pay(k);
                     self.n.set(1);
                     for x in self.all { self.n.get() as u8; }
                     self.all.get(k).unwrap();
                 }
             }",
        ),
    ];
    let report = check(&path("p"), Some(found), &Config::default()).unwrap();
    let mut rules: Vec<_> = report.findings.iter().map(|f| f.rule).collect();
    assert!(report.findings.iter().all(|f| f.column >= 1));
    rules.sort();
    rules.dedup();
    assert_eq!(rules, rule_ids(), "one of each");
}

/// A project in which four rules have something to say.
fn busy_project() -> Vec<Entry> {
    vec![
        entry("p/Cargo.toml", "stylus-sdk = { features = [\"reentrant\"] }"),
        entry("p/src/bad.rs", "impl {"),
        entry("p/src/a.rs", "sol_storage! { pub struct A { address owner; uint256 n; } }"),
        entry(
            "p/src/b.rs",
            "#[deny_reentrant]\n#[public]\nimpl A {\n\
             pub fn go(&mut self, k: U256) { self.n.set(k); self.n.get() as u8; self.m.get(k).unwrap(); }\n\
             pub fn stop(&mut self) { self.n.set(0); todo!() }\n}",
        ),
    ]
}

fn told(report: &Report) -> Vec<(&'static str, Severity, usize, usize, String)> {
    report
        .findings
        .iter()
        .map(|f| (f.rule, f.severity, f.line, f.column, f.message.clone()))
        .collect()
}

#[test]
fn switching_a_rule_off_leaves_the_rest_as_it_was() {
    let all = check(&path("p"), Some(busy_project()), &Config::default()).unwrap();
    let rules: Vec<_> = all.findings.iter().map(|f| f.rule).collect();
    assert!(rules.len() >= 6);
    for rule in rule_ids() {
        let config = Config { disable: vec![rule.into()], ..Config::default() };
        let less = check(&path("p"), Some(busy_project()), &config).unwrap();
        let expected: Vec<_> = told(&all).into_iter().filter(|f| f.0 != rule).collect();
        assert_eq!(told(&less), expected, "{rule}");
        assert_eq!(less.skipped.len(), 1);
        assert_eq!(less.files_checked, all.files_checked);
    }
}

#[test]
fn severities_in_a_config_change_severities_only() {
    let plain = check(&path("p"), Some(busy_project()), &Config::default()).unwrap();
    let config = Config {
        severity: vec![
            ("deprecated-reentrancy-guard".into(), "high".into()),
            ("unwrap-in-entrypoint".into(), "low".into()),
        ],
        ..Config::default()
    };
    let report = check(&path("p"), Some(busy_project()), &config).unwrap();
    let mut expected: Vec<_> = told(&plain)
        .into_iter()
        .map(|f| match f.0 {
            "deprecated-reentrancy-guard" => (f.0, Severity::High, f.2, f.3, f.4),
            "unwrap-in-entrypoint" => (f.0, Severity::Low, f.2, f.3, f.4),
            _ => f,
        })
        .collect();
    let mut got = told(&report);
    assert_ne!(got, told(&plain));
    expected.sort();
    got.sort();
    assert_eq!(got, expected);
    assert_eq!(report.skipped.len(), plain.skipped.len());
    assert_eq!(report.files_checked, plain.files_checked);
}
