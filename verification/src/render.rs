//! Turning a report into something a person or a machine reads.

use crate::finding::{
    serious, severity_name, Finding, FindingView, Report, ReportView, Severity, SkippedFile,
    SkippedView,
};
use crate::order::views;
use crate::text::{
    chars, decimal, deep, lines, lower, lowered, number_text, same, string, text_lines, trim,
    trimmed,
};
use vstd::prelude::*;

verus! {

/// How to print a report.
#[derive(Debug, Clone, Copy, PartialEq, Eq, Structural)]
pub enum Format {
    /// For a person at a terminal.
    Text,
    /// For anything that wants to read it back.
    Json,
    /// For code scanning, which annotates pull requests from it.
    Sarif,
}

/// The format that a human wrote, if they wrote one.
pub open spec fn format_written(value: Seq<char>) -> Option<Format> {
    let word = lowered(trimmed(value));
    if word == "text"@ {
        Some(Format::Text)
    } else if word == "json"@ {
        Some(Format::Json)
    } else if word == "sarif"@ {
        Some(Format::Sarif)
    } else {
        None
    }
}

impl Format {
    /// Parses a format written by a human, in any case.
    #[must_use]
    pub fn parse(value: &str) -> (r: Option<Self>)
        ensures
            r == format_written(value@),
    {
        let all = chars(value);
        let word = string(lower(trim(all.as_slice())).as_slice());
        if same(word.as_str(), "text") {
            Some(Format::Text)
        } else if same(word.as_str(), "json") {
            Some(Format::Json)
        } else if same(word.as_str(), "sarif") {
            Some(Format::Sarif)
        } else {
            None
        }
    }
}

/// The first line of a reason, or a stand in for a reason that says nothing.
pub open spec fn short_reason(reason: Seq<char>) -> Seq<char> {
    if lines(reason).len() > 0 {
        lines(reason)[0]
    } else {
        "could not be parsed"@
    }
}

/// How a skipped file is printed.
pub open spec fn skipped_text(skipped: SkippedView) -> Seq<char> {
    "skipped "@ + skipped.file.shown + ": "@ + short_reason(skipped.reason) + "\n"@
}

/// How a finding is printed.
pub open spec fn finding_text(f: FindingView) -> Seq<char> {
    f.file.shown + ":"@ + decimal(f.line as nat) + ":"@ + decimal(f.column as nat) + " "@
        + severity_name(f.severity) + " ["@ + f.rule + "]\n  "@ + f.message + "\n  "@ + f.suggestion
        + "\n\n"@
}

/// What is put behind a word that counts a number of things.
pub open spec fn plural(n: nat) -> Seq<char> {
    if n == 1 {
        Seq::empty()
    } else {
        "s"@
    }
}

/// The closing count.
pub open spec fn summary(counted: nat, threshold: Severity, files: nat) -> Seq<char> {
    decimal(counted) + " finding"@ + plural(counted) + " at or above "@ + severity_name(threshold)
        + " across "@ + decimal(files) + " file"@ + plural(files) + ".\n"@
}

/// What every report says about itself.
pub open spec fn disclaimer() -> Seq<char> {
    "These are heuristics, not an audit. A quiet run means these rules found nothing to say.\n"@
}

/// A report as text: the skipped files, the findings, the count and the
/// disclaimer.
pub open spec fn report_text(report: ReportView, threshold: Severity) -> Seq<char> {
    report.skipped.flat_map(|s: SkippedView| skipped_text(s)) + (if report.skipped.len() > 0 {
        "\n"@
    } else {
        Seq::empty()
    }) + report.findings.flat_map(|f: FindingView| finding_text(f)) + summary(
        serious(report.findings, threshold).len(),
        threshold,
        report.files_checked as nat,
    ) + disclaimer()
}

fn put_skipped(out: &mut String, skipped: &SkippedFile)
    ensures
        final(out)@ == old(out)@ + skipped_text(skipped@),
{
    let ghost before = out@;
    out.append("skipped ");
    out.append(skipped.file.shown.as_str());
    out.append(": ");
    let found = text_lines(skipped.reason.as_str());
    assert(found@.len() == lines(skipped.reason@).len());
    if found.len() > 0 {
        assert(found@[0]@ == deep(found@)[0]);
        out.append(string(found[0].as_slice()).as_str());
    } else {
        out.append("could not be parsed");
    }
    out.append("\n");
    assert(out@ =~= before + skipped_text(skipped@));
}

fn put_finding(out: &mut String, finding: &Finding)
    ensures
        final(out)@ == old(out)@ + finding_text(finding@),
{
    let ghost before = out@;
    out.append(finding.file.shown.as_str());
    out.append(":");
    out.append(number_text(finding.line).as_str());
    out.append(":");
    out.append(number_text(finding.column).as_str());
    out.append(" ");
    out.append(finding.severity.as_str());
    out.append(" [");
    out.append(finding.rule);
    out.append("]\n  ");
    out.append(finding.message.as_str());
    out.append("\n  ");
    out.append(finding.suggestion.as_str());
    out.append("\n\n");
    assert(out@ =~= before + finding_text(finding@));
}

fn put_plural(out: &mut String, n: usize)
    ensures
        final(out)@ == old(out)@ + plural(n as nat),
{
    if n != 1 {
        out.append("s");
    } else {
        assert(out@ + Seq::<char>::empty() =~= out@);
    }
}

fn put_all_skipped(out: &mut String, report: &Report)
    ensures
        final(out)@ == old(out)@ + report@.skipped.flat_map(|s: SkippedView| skipped_text(s)),
{
    let ghost all = report@.skipped;
    let ghost print = |s: SkippedView| skipped_text(s);
    assert(out@ =~= old(out)@ + all.take(0).flat_map(print));
    for i in 0..report.skipped.len()
        invariant
            all == views(report.skipped@),
            print == (|s: SkippedView| skipped_text(s)),
            out@ == old(out)@ + all.take(i as int).flat_map(print),
    {
        let ghost so_far = all.take(i as int).flat_map(print);
        proof {
            all.lemma_flat_map_take_append(print, i as int);
        }
        assert(all[i as int] == report.skipped@[i as int]@);
        put_skipped(out, &report.skipped[i]);
        assert(out@ =~= old(out)@ + (so_far + skipped_text(all[i as int])));
    }
    assert(all.take(report.skipped@.len() as int) =~= all);
}

fn put_all_findings(out: &mut String, report: &Report)
    ensures
        final(out)@ == old(out)@ + report@.findings.flat_map(|f: FindingView| finding_text(f)),
{
    let ghost all = report@.findings;
    let ghost print = |f: FindingView| finding_text(f);
    assert(out@ =~= old(out)@ + all.take(0).flat_map(print));
    for i in 0..report.findings.len()
        invariant
            all == views(report.findings@),
            print == (|f: FindingView| finding_text(f)),
            out@ == old(out)@ + all.take(i as int).flat_map(print),
    {
        let ghost so_far = all.take(i as int).flat_map(print);
        proof {
            all.lemma_flat_map_take_append(print, i as int);
        }
        assert(all[i as int] == report.findings@[i as int]@);
        put_finding(out, &report.findings[i]);
        assert(out@ =~= old(out)@ + (so_far + finding_text(all[i as int])));
    }
    assert(all.take(report.findings@.len() as int) =~= all);
}

fn put_summary(out: &mut String, counted: usize, threshold: Severity, files: usize)
    ensures
        final(out)@ == old(out)@ + summary(counted as nat, threshold, files as nat),
{
    out.append(number_text(counted).as_str());
    out.append(" finding");
    put_plural(out, counted);
    out.append(" at or above ");
    out.append(threshold.as_str());
    out.append(" across ");
    out.append(number_text(files).as_str());
    out.append(" file");
    put_plural(out, files);
    out.append(".\n");
    assert(out@ =~= old(out)@ + summary(counted as nat, threshold, files as nat));
}

/// A line of plain text per finding, worst first, with a closing count.
///
/// The last line says out loud that this is a heuristic tool. A clean run means
/// these rules found nothing, and somebody will otherwise read it as a contract
/// being safe, which is not something any linter can tell them.
#[must_use]
pub fn text(report: &Report, threshold: Severity) -> (r: String)
    ensures
        r@ == report_text(report@, threshold),
{
    let mut out = String::new();
    put_all_skipped(&mut out, report);
    let ghost passed = report@.skipped.flat_map(|s: SkippedView| skipped_text(s));
    assert(out@ =~= passed);
    assert(report@.skipped.len() == report.skipped@.len());
    if report.skipped.len() > 0 {
        out.append("\n");
    } else {
        assert(out@ =~= passed + Seq::empty());
    }
    put_all_findings(&mut out, report);
    let counted = report.at_or_above(threshold);
    assert(counted@.len() == serious(report@.findings, threshold).len());
    put_summary(&mut out, counted.len(), threshold, report.files_checked);
    out.append(
        "These are heuristics, not an audit. A quiet run means these rules found nothing to say.\n",
    );
    out
}

/// A rule as a SARIF document lists it.
#[derive(Debug)]
pub struct SarifRule {
    pub id: String,
    pub short_description: String,
}

/// A finding as a SARIF document lists it.
#[derive(Debug)]
pub struct SarifResult {
    pub rule_id: &'static str,
    pub level: &'static str,
    pub text: String,
    pub uri: String,
    pub start_line: usize,
    pub start_column: usize,
}

/// What a SARIF document says, whatever it is written down as.
#[derive(Debug)]
pub struct SarifDocument {
    pub schema: &'static str,
    pub version: &'static str,
    /// The name of the tool.
    pub name: &'static str,
    /// Where to read about the tool.
    pub information_uri: &'static str,
    pub rules: Vec<SarifRule>,
    pub results: Vec<SarifResult>,
}

/// The mathematical model of a [`SarifRule`].
pub ghost struct SarifRuleView {
    pub id: Seq<char>,
    pub short_description: Seq<char>,
}

/// The mathematical model of a [`SarifResult`].
pub ghost struct SarifResultView {
    pub rule_id: Seq<char>,
    pub level: Seq<char>,
    pub text: Seq<char>,
    pub uri: Seq<char>,
    pub start_line: usize,
    pub start_column: usize,
}

/// The mathematical model of a [`SarifDocument`].
pub ghost struct SarifView {
    pub schema: Seq<char>,
    pub version: Seq<char>,
    pub name: Seq<char>,
    pub information_uri: Seq<char>,
    pub rules: Seq<SarifRuleView>,
    pub results: Seq<SarifResultView>,
}

impl View for SarifRule {
    type V = SarifRuleView;

    open spec fn view(&self) -> SarifRuleView {
        SarifRuleView { id: self.id@, short_description: self.short_description@ }
    }
}

impl View for SarifResult {
    type V = SarifResultView;

    open spec fn view(&self) -> SarifResultView {
        SarifResultView {
            rule_id: self.rule_id@,
            level: self.level@,
            text: self.text@,
            uri: self.uri@,
            start_line: self.start_line,
            start_column: self.start_column,
        }
    }
}

impl View for SarifDocument {
    type V = SarifView;

    open spec fn view(&self) -> SarifView {
        SarifView {
            schema: self.schema@,
            version: self.version@,
            name: self.name@,
            information_uri: self.information_uri@,
            rules: views(self.rules@),
            results: views(self.results@),
        }
    }
}

/// The level of a severity. High severity has to block a merge.
pub open spec fn sarif_level(severity: Severity) -> Seq<char> {
    match severity {
        Severity::High => "error"@,
        Severity::Medium => "warning"@,
        Severity::Low => "note"@,
    }
}

/// A finding as a SARIF document lists it.
pub open spec fn sarif_result(f: FindingView) -> SarifResultView {
    SarifResultView {
        rule_id: f.rule,
        level: sarif_level(f.severity),
        text: f.message + " "@ + f.suggestion,
        uri: f.file.shown,
        start_line: f.line,
        start_column: f.column,
    }
}

/// A rule as a SARIF document lists it.
pub open spec fn sarif_rule(rule: (&str, &str)) -> SarifRuleView {
    SarifRuleView { id: rule.0@, short_description: rule.1@ }
}

/// What a SARIF document says about a report.
pub open spec fn sarif_view(report: ReportView, rules: Seq<(&str, &str)>) -> SarifView {
    SarifView {
        schema: "https://json.schemastore.org/sarif-2.1.0.json"@,
        version: "2.1.0"@,
        name: "stylus-check"@,
        information_uri: "https://github.com/mariano-aguero/stylus-check"@,
        rules: rules.map_values(|rule: (&str, &str)| sarif_rule(rule)),
        results: report.findings.map_values(|f: FindingView| sarif_result(f)),
    }
}

/// SARIF 2.1.0, which is what code scanning ingests to annotate a pull request.
pub fn sarif(report: &Report, rules: &[(&str, &str)]) -> (r: SarifDocument)
    ensures
        r@ == sarif_view(report@, rules@),
{
    let mut listed: Vec<SarifRule> = Vec::new();
    for i in 0..rules.len()
        invariant
            views(listed@) == rules@.take(i as int).map_values(
                |rule: (&str, &str)| sarif_rule(rule),
            ),
    {
        let ghost before = views(listed@);
        let (id, description) = rules[i];
        let rule = SarifRule { id: id.to_owned(), short_description: description.to_owned() };
        let ghost told = rule@;
        listed.push(rule);
        assert(views(listed@) =~= before.push(told));
        assert(told == sarif_rule(rules@[i as int]));
        assert(views(listed@) =~= rules@.take(i + 1).map_values(
            |rule: (&str, &str)| sarif_rule(rule),
        ));
    }
    assert(rules@.take(rules@.len() as int) =~= rules@);
    let ghost all = report@.findings;
    let mut results: Vec<SarifResult> = Vec::new();
    for i in 0..report.findings.len()
        invariant
            all == views(report.findings@),
            views(results@) == all.take(i as int).map_values(|f: FindingView| sarif_result(f)),
    {
        let ghost before = views(results@);
        let finding = &report.findings[i];
        assert(all[i as int] == finding@);
        let mut text = finding.message.clone();
        text.append(" ");
        text.append(finding.suggestion.as_str());
        let result = SarifResult {
            rule_id: finding.rule,
            level: match finding.severity {
                Severity::High => "error",
                Severity::Medium => "warning",
                Severity::Low => "note",
            },
            text,
            uri: finding.file.shown.clone(),
            start_line: finding.line,
            start_column: finding.column,
        };
        let ghost told = result@;
        results.push(result);
        assert(views(results@) =~= before.push(told));
        assert(told == sarif_result(all[i as int]));
        assert(views(results@) =~= all.take(i + 1).map_values(|f: FindingView| sarif_result(f)));
    }
    assert(all.take(report.findings@.len() as int) =~= all);
    SarifDocument {
        schema: "https://json.schemastore.org/sarif-2.1.0.json",
        version: "2.1.0",
        name: "stylus-check",
        information_uri: "https://github.com/mariano-aguero/stylus-check",
        rules: listed,
        results,
    }
}

/// However quiet a run is, its text ends by saying what a quiet run means.
pub proof fn law_no_run_reads_as_a_clean_bill_of_health(report: ReportView, threshold: Severity)
    ensures
        disclaimer().is_suffix_of(report_text(report, threshold)),
{
    let all = report_text(report, threshold);
    assert(all.subrange(all.len() - disclaimer().len(), all.len() as int) =~= disclaimer());
}

} // verus!
