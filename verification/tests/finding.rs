//! Severities, findings and reports.

use std::path::{Component, Path};
use stylus_check::finding::{exit_code, Finding, Report, Severity, SkippedFile};
use stylus_check::path::{FilePath, Part};

fn path(text: &str) -> FilePath {
    let parts = Path::new(text)
        .components()
        .map(|part| match part {
            Component::Prefix(prefix) => {
                Part::Prefix(prefix.as_os_str().to_string_lossy().into_owned())
            }
            Component::RootDir => Part::Root,
            Component::CurDir => Part::Current,
            Component::ParentDir => Part::Parent,
            Component::Normal(name) => Part::Normal(name.to_string_lossy().into_owned()),
        })
        .collect();
    FilePath { shown: text.to_string(), parts }
}

#[test]
fn severity_orders_by_consequence() {
    assert!(Severity::High > Severity::Medium);
    assert!(Severity::Medium > Severity::Low);
}

#[test]
fn severity_parses_what_a_human_would_write() {
    assert_eq!(Severity::parse("HIGH"), Some(Severity::High));
    assert_eq!(Severity::parse(" med "), Some(Severity::Medium));
    assert_eq!(Severity::parse("critical"), None);
}

#[test]
fn the_worst_finding_is_reported_first() {
    let file = path("a.rs");
    let mut report = Report::default();
    report.findings.push(Finding::new("b", Severity::Low, &file, 1, 1, "m", "s"));
    report.findings.push(Finding::new("a", Severity::High, &file, 9, 1, "m", "s"));
    report.sort();
    assert_eq!(report.findings[0].rule, "a");
}

#[test]
fn the_threshold_decides_what_counts() {
    let file = path("a.rs");
    let mut report = Report::default();
    report.findings.push(Finding::new("b", Severity::Low, &file, 1, 1, "m", "s"));
    report.findings.push(Finding::new("a", Severity::High, &file, 9, 1, "m", "s"));
    assert_eq!(report.at_or_above(Severity::High).len(), 1);
    assert_eq!(report.at_or_above(Severity::Low).len(), 2);
}

#[test]
fn every_severity_reads_its_own_name_back() {
    for severity in [Severity::Low, Severity::Medium, Severity::High] {
        assert_eq!(Severity::parse(severity.as_str()), Some(severity));
    }
    assert_eq!(Severity::parse("\u{a0}Medium\n"), Some(Severity::Medium));
    assert_eq!(Severity::parse(""), None);
    assert_eq!(Severity::parse("me dium"), None);
}

#[test]
fn ties_are_broken_by_file_then_line_then_column_then_rule() {
    let mut report = Report::default();
    let mut put = |rule: &'static str, file: &str, line: usize, column: usize| {
        report.findings.push(Finding::new(
            rule,
            Severity::Medium,
            &path(file),
            line,
            column,
            "m",
            "s",
        ));
    };
    put("z", "b.rs", 1, 1);
    put("z", "a.rs", 2, 1);
    put("z", "a.rs", 1, 2);
    put("y", "a.rs", 1, 2);
    put("x", "a.rs", 1, 1);
    put("w", "a/z.rs", 9, 9);
    report.sort();
    let order: Vec<_> = report
        .findings
        .iter()
        .map(|f| (f.file.shown.as_str(), f.line, f.column, f.rule))
        .collect();
    assert_eq!(
        order,
        vec![
            ("a/z.rs", 9, 9, "w"),
            ("a.rs", 1, 1, "x"),
            ("a.rs", 1, 2, "y"),
            ("a.rs", 1, 2, "z"),
            ("a.rs", 2, 1, "z"),
            ("b.rs", 1, 1, "z"),
        ],
        "components decide, so the directory `a` comes before the file `a.rs`"
    );
}

#[test]
fn findings_that_share_a_place_keep_their_order() {
    let file = path("a.rs");
    let mut report = Report::default();
    report.findings.push(Finding::new("r", Severity::Low, &file, 1, 1, "first", "s"));
    report.findings.push(Finding::new("r", Severity::Low, &file, 1, 1, "second", "s"));
    report.sort();
    assert_eq!(report.findings[0].message, "first");
    report.sort();
    assert_eq!(report.findings[0].message, "first");
    assert_eq!(report.findings[1].message, "second");
}

#[test]
fn skipped_files_are_sorted_by_path() {
    let mut report = Report::default();
    for name in ["src/b.rs", "src/a.rs", "/abs.rs", "../up.rs"] {
        report
            .skipped
            .push(SkippedFile { file: path(name), reason: "no".to_string() });
    }
    report.sort();
    let order: Vec<_> = report.skipped.iter().map(|s| s.file.shown.as_str()).collect();
    assert_eq!(order, vec!["/abs.rs", "../up.rs", "src/a.rs", "src/b.rs"]);
}

#[test]
fn the_order_of_paths_is_the_one_std_gives() {
    let names = [
        "", ".", "..", "/", "a", "a/b", "a.rs", "a-b/c", "./a", "../a", "/a", "b", "a/b/c",
        "\u{e9}/a", "z/\u{1f600}", "z/\u{ffff}",
    ];
    for left in names {
        for right in names {
            assert_eq!(
                path(left).before(&path(right)),
                Path::new(left) < Path::new(right),
                "{left:?} and {right:?}"
            );
            assert_eq!(
                path(left).is_under(&path(right).parts),
                Path::new(left).starts_with(right),
                "{left:?} under {right:?}"
            );
        }
        assert_eq!(
            path(left).file_name(),
            Path::new(left).file_name().and_then(|n| n.to_str())
        );
        assert_eq!(
            path(left).parent().map(|parts| parts.len()),
            Path::new(left).parent().map(|p| p.components().count())
        );
    }
}

#[test]
fn the_exit_code_says_whether_the_threshold_was_reached() {
    let mut report = Report::default();
    for threshold in [Severity::Low, Severity::Medium, Severity::High] {
        assert_eq!(exit_code(&report, threshold), 0);
    }
    report.findings.push(Finding::new("r", Severity::Medium, &path("a.rs"), 1, 1, "m", "s"));
    assert_eq!(exit_code(&report, Severity::Low), 1);
    assert_eq!(exit_code(&report, Severity::Medium), 1);
    assert_eq!(exit_code(&report, Severity::High), 0);
}
