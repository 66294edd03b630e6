//! What is promised of how a report is shown.

use super::words::{bare, in_small_letters, lemma_one_lowering};
use crate::finding::{serious, FindingView, ReportView, Severity, SkippedView};
use crate::render::{
    finding_text, format_written, report_text, sarif_view, short_reason, skipped_text, summary,
    Format,
};
use crate::text::{decimal, lines};
use vstd::prelude::*;

verus! {

/// A format is written by its name, in any case and with white space around it or
/// not, and in no other way.
pub proof fn law_how_a_format_is_written(text: Seq<char>, inner: Seq<char>, word: Seq<char>)
    requires
        bare(text, inner),
        in_small_letters(inner, word),
    ensures
        format_written(text) == Some(Format::Text) <==> word == "text"@,
        format_written(text) == Some(Format::Json) <==> word == "json"@,
        format_written(text) == Some(Format::Sarif) <==> word == "sarif"@,
        format_written(text) is None <==> word != "text"@ && word != "json"@ && word != "sarif"@,
{
    super::model::lemma_plain(text, inner);
    lemma_one_lowering(inner, word);
    reveal_strlit("text");
    reveal_strlit("json");
    reveal_strlit("sarif");
    assert("text"@[0] == 't' && "json"@[0] == 'j' && "sarif"@[0] == 's');
}

/// What reaches a threshold is what is as heavy as it or heavier, in the order in
/// which it was found.
pub proof fn law_what_reaches_a_threshold(findings: Seq<FindingView>, threshold: Severity)
    ensures
        serious(findings, threshold) == findings.filter(
            |f: FindingView|
                match threshold {
                    Severity::Low => true,
                    Severity::Medium => f.severity != Severity::Low,
                    Severity::High => f.severity == Severity::High,
                },
        ),
{
    let keep = |f: FindingView|
        crate::finding::weight(f.severity) >= crate::finding::weight(threshold);
    let again = |f: FindingView|
        match threshold {
            Severity::Low => true,
            Severity::Medium => f.severity != Severity::Low,
            Severity::High => f.severity == Severity::High,
        };
    assert(keep =~= again);
}

/// A skipped file is printed with the first line of the reason, and a finding with
/// its place, its severity, its rule, its message and its suggestion.
pub proof fn law_a_line_for_each(skipped: SkippedView, f: FindingView)
    ensures
        short_reason(skipped.reason) == (if lines(skipped.reason).len() > 0 {
            lines(skipped.reason)[0]
        } else {
            "could not be parsed"@
        }),
        skipped_text(skipped) == "skipped "@ + skipped.file.shown + ": "@ + short_reason(
            skipped.reason,
        ) + "\n"@,
        finding_text(f) == f.file.shown + ":"@ + decimal(f.line as nat) + ":"@ + decimal(
            f.column as nat,
        ) + " "@ + (match f.severity {
            Severity::Low => "low"@,
            Severity::Medium => "medium"@,
            Severity::High => "high"@,
        }) + " ["@ + f.rule + "]\n  "@ + f.message + "\n  "@ + f.suggestion + "\n\n"@,
{
}

/// The count says how many findings reach the threshold in how many files, one
/// without an `s`.
pub proof fn law_the_closing_count(counted: nat, threshold: Severity, files: nat)
    ensures
        summary(counted, threshold, files) == decimal(counted) + " finding"@ + (if counted == 1 {
            Seq::empty()
        } else {
            "s"@
        }) + " at or above "@ + (match threshold {
            Severity::Low => "low"@,
            Severity::Medium => "medium"@,
            Severity::High => "high"@,
        }) + " across "@ + decimal(files) + " file"@ + (if files == 1 {
            Seq::empty()
        } else {
            "s"@
        }) + ".\n"@,
{
}

/// A report is printed from what was skipped over what was found to the count and
/// what a quiet run means; nothing is left out.
pub proof fn law_a_report_in_full(report: ReportView, threshold: Severity)
    ensures
        report_text(report, threshold) == report.skipped.flat_map(
            |skipped: SkippedView| skipped_text(skipped),
        ) + (if report.skipped.len() == 0 {
            Seq::empty()
        } else {
            "\n"@
        }) + report.findings.flat_map(|finding: FindingView| finding_text(finding)) + summary(
            serious(report.findings, threshold).len(),
            threshold,
            report.files_checked as nat,
        )
            + "These are heuristics, not an audit. A quiet run means these rules found nothing to say.\n"@,
{
    let pass = |s: SkippedView| skipped_text(s);
    let pass_again = |skipped: SkippedView| skipped_text(skipped);
    assert(pass =~= pass_again);
    let tell = |f: FindingView| finding_text(f);
    let tell_again = |finding: FindingView| finding_text(finding);
    assert(tell =~= tell_again);
}

/// A SARIF document lists every rule it is given and every finding, in order: a
/// finding by its rule, its place, its message and its suggestion, and at a level
/// that blocks a merge where the severity is high.
pub proof fn law_a_sarif_document(report: ReportView, rules: Seq<(&str, &str)>, i: int, k: int)
    ensures
        sarif_view(report, rules).schema == "https://json.schemastore.org/sarif-2.1.0.json"@,
        sarif_view(report, rules).version == "2.1.0"@,
        sarif_view(report, rules).name == "stylus-check"@,
        sarif_view(report, rules).information_uri
            == "https://github.com/mariano-aguero/stylus-check"@,
        sarif_view(report, rules).rules.len() == rules.len(),
        0 <= k < rules.len() ==> sarif_view(report, rules).rules[k].id == rules[k].0@ && sarif_view(
            report,
            rules,
        ).rules[k].short_description == rules[k].1@,
        sarif_view(report, rules).results.len() == report.findings.len(),
        0 <= i < report.findings.len() ==> {
            let shown = sarif_view(report, rules).results[i];
            let f = report.findings[i];
            &&& shown.rule_id == f.rule
            &&& shown.level == (match f.severity {
                Severity::Low => "note"@,
                Severity::Medium => "warning"@,
                Severity::High => "error"@,
            })
            &&& shown.text == f.message + " "@ + f.suggestion
            &&& shown.uri == f.file.shown
            &&& shown.start_line == f.line
            &&& shown.start_column == f.column
        },
{
}

} // verus!
