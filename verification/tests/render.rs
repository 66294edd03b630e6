//! How a report is printed.

use std::path::{Component, Path};
use stylus_check::finding::{Finding, Report, Severity, SkippedFile};
use stylus_check::path::{FilePath, Part};
use stylus_check::render::{sarif, text, Format};

fn path(text: &str) -> FilePath {
    let parts = Path::new(text)
        .components()
        .map(|part| match part {
            Component::Prefix(prefix) => {
                Part::Prefix(prefix.as_os_str().to_string_lossy().into_owned())
            }
            Component::RootDir => Part::Root,
            Component::CurDir => Part::Current,
            Component::ParentDir => Part::Parent,
            Component::Normal(name) => Part::Normal(name.to_string_lossy().into_owned()),
        })
        .collect();
    FilePath { shown: text.to_string(), parts }
}

fn report() -> Report {
    let mut report = Report { files_checked: 2, ..Default::default() };
    report.findings.push(Finding::new(
        "unwrap-in-entrypoint",
        Severity::High,
        &path("src/lib.rs"),
        12,
        9,
        "`unwrap()` is reachable",
        "return an Err instead",
    ));
    report
}

#[test]
fn text_names_the_place_the_rule_and_the_fix() {
    let out = text(&report(), Severity::Low);
    assert!(out.contains("src/lib.rs:12:9"));
    assert!(out.contains("[unwrap-in-entrypoint]"));
    assert!(out.contains("return an Err instead"));
}

#[test]
fn text_never_lets_a_quiet_run_read_as_a_clean_bill_of_health() {
    let out = text(&Report::default(), Severity::Low);
    assert!(out.contains("heuristics, not an audit"));
}

#[test]
fn text_counts_only_what_the_threshold_admits() {
    let out = text(&report(), Severity::High);
    assert!(out.contains("1 finding at or above high"));
    let quiet = text(&report(), Severity::Low);
    assert!(quiet.contains("1 finding at or above low"));
}

#[test]
fn sarif_says_what_code_scanning_needs() {
    let doc = sarif(
        &report(),
        &[("unwrap-in-entrypoint", "a panic reachable from a caller")],
    );
    assert_eq!(doc.version, "2.1.0");
    let result = &doc.results[0];
    assert_eq!(result.rule_id, "unwrap-in-entrypoint");
    assert_eq!(result.level, "error", "high severity has to block a merge");
    assert_eq!(result.start_line, 12);
    assert_eq!(doc.rules[0].id, "unwrap-in-entrypoint");
}

#[test]
fn a_format_is_only_one_of_the_three() {
    assert_eq!(Format::parse("SARIF"), Some(Format::Sarif));
    assert_eq!(Format::parse("xml"), None);
}

#[test]
fn a_format_is_read_in_any_case() {
    assert_eq!(Format::parse(" Text\t"), Some(Format::Text));
    assert_eq!(Format::parse("json"), Some(Format::Json));
    assert_eq!(Format::parse(""), None);
}

#[test]
fn a_whole_report_is_printed_to_the_letter() {
    let mut report = report();
    report.skipped.push(SkippedFile {
        file: path("src/broken.rs"),
        reason: "expected `)`\nand more".to_string(),
    });
    report.skipped.push(SkippedFile { file: path("src/odd.rs"), reason: String::new() });
    assert_eq!(
        text(&report, Severity::High),
        "skipped src/broken.rs: expected `)`\n\
         skipped src/odd.rs: could not be parsed\n\
         \n\
         src/lib.rs:12:9 high [unwrap-in-entrypoint]\n  `unwrap()` is reachable\n  return an Err instead\n\
         \n\
         1 finding at or above high across 2 files.\n\
         These are heuristics, not an audit. A quiet run means these rules found nothing to say.\n"
    );
}

#[test]
fn a_quiet_report_counts_in_the_plural() {
    let report = Report { files_checked: 1, ..Default::default() };
    assert_eq!(
        text(&report, Severity::Medium),
        "0 findings at or above medium across 1 file.\n\
         These are heuristics, not an audit. A quiet run means these rules found nothing to say.\n"
    );
}

#[test]
fn a_sarif_document_carries_every_finding() {
    let mut report = report();
    report.findings.push(Finding::new("r", Severity::Medium, &path("a.rs"), 1, 2, "m", "s"));
    report.findings.push(Finding::new("r", Severity::Low, &path("b.rs"), 3, 4, "m", "s"));
    let doc = sarif(&report, &[("r", "what it is for")]);
    assert_eq!(doc.schema, "https://json.schemastore.org/sarif-2.1.0.json");
    assert_eq!(doc.name, "stylus-check");
    assert_eq!(doc.rules[0].short_description, "what it is for");
    assert_eq!(doc.results[0].text, "`unwrap()` is reachable return an Err instead");
    assert_eq!(doc.results[1].level, "warning");
    assert_eq!(doc.results[2].level, "note");
    assert_eq!(doc.results[2].uri, "b.rs");
    assert_eq!(doc.results[2].start_line, 3);
    assert_eq!(doc.results[2].start_column, 4);
    assert_eq!(doc.results.len(), 3);
}
