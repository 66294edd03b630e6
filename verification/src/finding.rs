//! What the checker reports, and how badly it wants your attention.

use crate::order::{
    arrange, arranged, law_one_arrangement, law_order_is_kept, lemma_text_chain, lemma_text_total,
    views, Ranked,
};
use crate::path::{lemma_path_chain, lemma_path_total, path_before, FilePath, PathView};
use crate::text::{
    chars, lower, lowered, precedes, same, string, text_before, trim, trimmed, trimmed_end,
    trimmed_start,
};
use std::cmp::Ordering;
use vstd::prelude::*;

verus! {

/// How much a finding should worry you.
///
/// The scale is about consequence, not confidence. A rule only reports at all
/// when it is fairly sure, so a low severity finding is a real observation
/// about code that probably still works, not a guess.
#[derive(Debug, Clone, Copy, PartialEq, Eq, Ord, Structural)]
pub enum Severity {
    /// Worth knowing, unlikely to cost money on its own.
    Low,
    /// Can cost money given the wrong caller or the wrong token.
    Medium,
    /// Can lose funds or brick the contract.
    High,
}

/// The place of a severity on the scale.
pub open spec fn weight(severity: Severity) -> int {
    match severity {
        Severity::Low => 0,
        Severity::Medium => 1,
        Severity::High => 2,
    }
}

/// The name of a severity.
pub open spec fn severity_name(severity: Severity) -> Seq<char> {
    match severity {
        Severity::Low => "low"@,
        Severity::Medium => "medium"@,
        Severity::High => "high"@,
    }
}

/// The severity that a human wrote, if they wrote one.
pub open spec fn severity_written(text: Seq<char>) -> Option<Severity> {
    let word = lowered(trimmed(text));
    if word == "low"@ {
        Some(Severity::Low)
    } else if word == "medium"@ || word == "med"@ {
        Some(Severity::Medium)
    } else if word == "high"@ {
        Some(Severity::High)
    } else {
        None
    }
}

impl Severity {
    /// The name used on the command line and in config files.
    #[must_use]
    pub fn as_str(self) -> (r: &'static str)
        ensures
            r@ == severity_name(self),
    {
        match self {
            Severity::Low => "low",
            Severity::Medium => "medium",
            Severity::High => "high",
        }
    }

    /// Parses a severity written by a human, in any case.
    #[must_use]
    pub fn parse(text: &str) -> (r: Option<Self>)
        ensures
            r == severity_written(text@),
    {
        let all = chars(text);
        let word = string(lower(trim(all.as_slice())).as_slice());
        if same(word.as_str(), "low") {
            Some(Severity::Low)
        } else if same(word.as_str(), "medium") || same(word.as_str(), "med") {
            Some(Severity::Medium)
        } else if same(word.as_str(), "high") {
            Some(Severity::High)
        } else {
            None
        }
    }

    fn level(self) -> (r: u8)
        ensures
            r == weight(self),
    {
        match self {
            Severity::Low => 0,
            Severity::Medium => 1,
            Severity::High => 2,
        }
    }
}

impl PartialOrd for Severity {
    fn partial_cmp(&self, other: &Self) -> (r: Option<Ordering>) {
        let a = self.level();
        let b = other.level();
        if a < b {
            Some(Ordering::Less)
        } else if a == b {
            Some(Ordering::Equal)
        } else {
            Some(Ordering::Greater)
        }
    }
}

impl vstd::std_specs::cmp::PartialOrdSpecImpl for Severity {
    open spec fn obeys_partial_cmp_spec() -> bool {
        true
    }

    open spec fn partial_cmp_spec(&self, other: &Self) -> Option<Ordering> {
        if weight(*self) < weight(*other) {
            Some(Ordering::Less)
        } else if weight(*self) == weight(*other) {
            Some(Ordering::Equal)
        } else {
            Some(Ordering::Greater)
        }
    }
}

/// A single thing worth looking at, always tied to a place in a file.
#[derive(Debug)]
pub struct Finding {
    /// Stable identifier, e.g. `unwrap-in-entrypoint`. Config files key on it.
    pub rule: &'static str,
    pub severity: Severity,
    pub file: FilePath,
    /// One based, so it matches what an editor shows.
    pub line: usize,
    /// One based.
    pub column: usize,
    /// What is wrong, in one sentence, naming the specific code.
    pub message: String,
    /// What to do instead. Never a rewrite, only a direction.
    pub suggestion: String,
}

/// The mathematical model of a [`Finding`].
pub ghost struct FindingView {
    pub rule: Seq<char>,
    pub severity: Severity,
    pub file: PathView,
    pub line: usize,
    pub column: usize,
    pub message: Seq<char>,
    pub suggestion: Seq<char>,
}

impl View for Finding {
    type V = FindingView;

    open spec fn view(&self) -> FindingView {
        FindingView {
            rule: self.rule@,
            severity: self.severity,
            file: self.file@,
            line: self.line,
            column: self.column,
            message: self.message@,
            suggestion: self.suggestion@,
        }
    }
}

impl Finding {
    pub fn new(
        rule: &'static str,
        severity: Severity,
        file: &FilePath,
        line: usize,
        column: usize,
        message: &str,
        suggestion: &str,
    ) -> (r: Self)
        ensures
            r@ == (FindingView {
                rule: rule@,
                severity,
                file: file@,
                line,
                column,
                message: message@,
                suggestion: suggestion@,
            }),
    {
        Finding {
            rule,
            severity,
            file: file.clone(),
            line,
            column,
            message: message.to_owned(),
            suggestion: suggestion.to_owned(),
        }
    }
}

impl Clone for Finding {
    fn clone(&self) -> (r: Finding)
        ensures
            r@ == self@,
    {
        Finding::new(
            self.rule,
            self.severity,
            &self.file,
            self.line,
            self.column,
            self.message.as_str(),
            self.suggestion.as_str(),
        )
    }
}

/// True when `a` is reported before `b`: the worse one first, then by file,
/// by line, by column and by rule.
pub open spec fn reported_before(a: FindingView, b: FindingView) -> bool {
    if weight(a.severity) != weight(b.severity) {
        weight(a.severity) > weight(b.severity)
    } else if a.file.parts != b.file.parts {
        path_before(a.file.parts, b.file.parts)
    } else if a.line != b.line {
        a.line < b.line
    } else if a.column != b.column {
        a.column < b.column
    } else {
        text_before(a.rule, b.rule)
    }
}

/// Findings are ordered by how much they matter, and then by where they are.
impl Ranked for Finding {
    open spec fn ranked(a: FindingView, b: FindingView) -> bool {
        !reported_before(b, a)
    }

    proof fn lemma_total(a: FindingView, b: FindingView) {
        lemma_path_total(a.file.parts, b.file.parts);
        lemma_text_total(a.rule, b.rule);
    }

    proof fn lemma_chain(a: FindingView, b: FindingView, c: FindingView) {
        lemma_path_total(a.file.parts, b.file.parts);
        lemma_path_total(b.file.parts, c.file.parts);
        lemma_path_total(a.file.parts, c.file.parts);
        lemma_text_total(a.rule, b.rule);
        lemma_text_total(b.rule, c.rule);
        lemma_text_total(a.rule, c.rule);
        if path_before(a.file.parts, b.file.parts) && path_before(b.file.parts, c.file.parts) {
            lemma_path_chain(a.file.parts, b.file.parts, c.file.parts);
        }
        if text_before(a.rule, b.rule) && text_before(b.rule, c.rule) {
            lemma_text_chain(a.rule, b.rule, c.rule);
        }
    }

    fn may_precede(&self, other: &Self) -> (r: bool) {
        proof {
            lemma_path_total(self@.file.parts, other@.file.parts);
            lemma_text_total(self@.rule, other@.rule);
        }
        let (a, b) = (self.severity.level(), other.severity.level());
        if a != b {
            a > b
        } else if self.file.before(&other.file) {
            true
        } else if other.file.before(&self.file) {
            false
        } else if self.line != other.line {
            self.line < other.line
        } else if self.column != other.column {
            self.column < other.column
        } else {
            !precedes(other.rule, self.rule)
        }
    }
}

/// A file that could not be parsed, kept so the run can report it and move on.
///
/// One bad file must never stop the others from being checked: a checker that
/// gives up on the first syntax error is a checker nobody runs mid refactor.
#[derive(Debug)]
pub struct SkippedFile {
    pub file: FilePath,
    pub reason: String,
}

/// The mathematical model of a [`SkippedFile`].
pub ghost struct SkippedView {
    pub file: PathView,
    pub reason: Seq<char>,
}

impl View for SkippedFile {
    type V = SkippedView;

    open spec fn view(&self) -> SkippedView {
        SkippedView { file: self.file@, reason: self.reason@ }
    }
}

impl Clone for SkippedFile {
    fn clone(&self) -> (r: SkippedFile)
        ensures
            r@ == self@,
    {
        SkippedFile { file: self.file.clone(), reason: self.reason.clone() }
    }
}

/// Skipped files are ordered by their paths.
impl Ranked for SkippedFile {
    open spec fn ranked(a: SkippedView, b: SkippedView) -> bool {
        FilePath::ranked(a.file, b.file)
    }

    proof fn lemma_total(a: SkippedView, b: SkippedView) {
        FilePath::lemma_total(a.file, b.file);
    }

    proof fn lemma_chain(a: SkippedView, b: SkippedView, c: SkippedView) {
        FilePath::lemma_chain(a.file, b.file, c.file);
    }

    fn may_precede(&self, other: &Self) -> (r: bool) {
        self.file.may_precede(&other.file)
    }
}

/// Everything one run produced.
#[derive(Debug)]
pub struct Report {
    pub findings: Vec<Finding>,
    pub skipped: Vec<SkippedFile>,
    /// How many files were parsed and checked.
    pub files_checked: usize,
}

/// The mathematical model of a [`Report`].
pub ghost struct ReportView {
    pub findings: Seq<FindingView>,
    pub skipped: Seq<SkippedView>,
    pub files_checked: usize,
}

impl View for Report {
    type V = ReportView;

    open spec fn view(&self) -> ReportView {
        ReportView {
            findings: views(self.findings@),
            skipped: views(self.skipped@),
            files_checked: self.files_checked,
        }
    }
}

impl Default for Report {
    fn default() -> (r: Report)
        ensures
            r@ == (ReportView {
                findings: Seq::empty(),
                skipped: Seq::empty(),
                files_checked: 0,
            }),
    {
        let r = Report { findings: Vec::new(), skipped: Vec::new(), files_checked: 0 };
        assert(r@.findings =~= Seq::empty());
        assert(r@.skipped =~= Seq::empty());
        r
    }
}

/// The findings at or above a threshold, in the order they stand in.
pub open spec fn serious(findings: Seq<FindingView>, threshold: Severity) -> Seq<FindingView> {
    findings.filter(|f: FindingView| weight(f.severity) >= weight(threshold))
}

/// The models of some borrowed findings.
pub open spec fn borrowed(findings: Seq<&Finding>) -> Seq<FindingView> {
    findings.map_values(|f: &Finding| f@)
}

/// What sorting makes of a report.
pub open spec fn sorted(before: ReportView, after: ReportView) -> bool {
    &&& arranged::<Finding>(before.findings, after.findings)
    &&& arranged::<SkippedFile>(before.skipped, after.skipped)
    &&& after.files_checked == before.files_checked
}

impl Report {
    /// The findings at or above a threshold, which is what decides the exit code.
    pub fn at_or_above(&self, threshold: Severity) -> (r: Vec<&Finding>)
        ensures
            borrowed(r@) == serious(self@.findings, threshold),
    {
        let mut r: Vec<&Finding> = Vec::new();
        let ghost keep = |f: FindingView| weight(f.severity) >= weight(threshold);
        let ghost all = self@.findings;
        for i in 0..self.findings.len()
            invariant
                all == views(self.findings@),
                keep == (|f: FindingView| weight(f.severity) >= weight(threshold)),
                borrowed(r@) == all.take(i as int).filter(keep),
        {
            let finding = &self.findings[i];
            let ghost before = r@;
            proof {
                assert(all.take(i + 1).drop_last() =~= all.take(i as int));
                assert(all.take(i + 1).last() == finding@);
                reveal(Seq::filter);
            }
            if finding.severity.level() >= threshold.level() {
                r.push(finding);
                assert(borrowed(r@) =~= borrowed(before).push(finding@));
            }
        }
        assert(all.take(self.findings@.len() as int) =~= all);
        r
    }

    /// Sorts by severity first, then by position, so the worst is read first
    /// and two runs over unchanged code print the same thing.
    pub fn sort(&mut self)
        ensures
            sorted(old(self)@, final(self)@),
    {
        arrange(&mut self.findings);
        arrange(&mut self.skipped);
    }
}

/// What a run ends with, for a script to read: one where some finding reaches
/// the threshold, and zero where none does.
pub fn exit_code(report: &Report, threshold: Severity) -> (r: u8)
    ensures
        r == (if serious(report@.findings, threshold).len() > 0 {
            1u8
        } else {
            0u8
        }),
{
    let reached = report.at_or_above(threshold);
    assert(borrowed(reached@).len() == reached@.len());
    if reached.len() > 0 {
        1
    } else {
        0
    }
}

/// Any severity can be written by its name, in any of the cases ASCII has and
/// with white space around it or not.
pub proof fn law_severity_is_read_by_its_name(severity: Severity, text: Seq<char>)
    requires
        lowered(trimmed(text)) == severity_name(severity),
    ensures
        severity_written(text) == Some(severity),
{
    reveal_strlit("low");
    reveal_strlit("medium");
    reveal_strlit("med");
    reveal_strlit("high");
    assert("low"@.len() == 3 && "med"@.len() == 3 && "high"@.len() == 4 && "medium"@.len() == 6);
    assert("low"@[0] == 'l' && "med"@[0] == 'm');
}

/// The name of a severity is read back as that severity.
pub proof fn law_severity_name_is_read_back(severity: Severity)
    ensures
        severity_written(severity_name(severity)) == Some(severity),
{
    reveal_strlit("low");
    reveal_strlit("medium");
    reveal_strlit("high");
    let name = severity_name(severity);
    assert(trimmed_start(name) == name);
    assert(trimmed_end(name) == name);
    assert(lowered(name) =~= name);
    law_severity_is_read_by_its_name(severity, name);
}

/// A higher threshold admits a part of what a lower one admits.
pub proof fn law_higher_threshold_admits_no_more(
    findings: Seq<FindingView>,
    low: Severity,
    high: Severity,
)
    requires
        weight(low) <= weight(high),
    ensures
        serious(serious(findings, low), high) == serious(findings, high),
        serious(findings, high).len() <= serious(findings, low).len() <= findings.len(),
    decreases findings.len(),
{
    reveal(Seq::filter);
    if findings.len() > 0 {
        let rest = findings.drop_last();
        law_higher_threshold_admits_no_more(rest, low, high);
        if weight(findings.last().severity) >= weight(low) {
            let kept = serious(rest, low).push(findings.last());
            assert(kept.drop_last() =~= serious(rest, low));
            assert(serious(findings, low) == kept);
        }
    }
}

/// What a threshold admits is at or above it, and was found.
pub proof fn law_threshold_admits_what_reaches_it(
    findings: Seq<FindingView>,
    threshold: Severity,
    finding: FindingView,
)
    ensures
        serious(findings, threshold).contains(finding) <==> findings.contains(finding) && weight(
            finding.severity,
        ) >= weight(threshold),
{
    let keep = |f: FindingView| weight(f.severity) >= weight(threshold);
    if findings.contains(finding) && keep(finding) {
        let i = choose|i: int| 0 <= i < findings.len() && findings[i] == finding;
        findings.lemma_filter_contains(keep, i);
    }
    if serious(findings, threshold).contains(finding) {
        findings.lemma_filter_contains_rev(keep, finding);
        let kept = findings.filter(keep);
        let j = choose|j: int| 0 <= j < kept.len() && kept[j] == finding;
        findings.lemma_filter_pred(keep, j);
    }
}

/// In a sorted report no finding stands before a worse one.
pub proof fn law_worst_is_read_first(before: ReportView, after: ReportView, i: int, j: int)
    requires
        sorted(before, after),
        0 <= i < j < after.findings.len(),
    ensures
        weight(after.findings[i].severity) >= weight(after.findings[j].severity),
{
    assert(Finding::ranked(after.findings[i], after.findings[j]));
}

/// A report is sorted in one way only, so two runs over the same code print
/// the same thing.
pub proof fn law_sorting_has_one_outcome(before: ReportView, a: ReportView, b: ReportView)
    requires
        sorted(before, a),
        sorted(before, b),
    ensures
        a == b,
{
    law_one_arrangement::<Finding>(before.findings, a.findings, b.findings);
    law_one_arrangement::<SkippedFile>(before.skipped, a.skipped, b.skipped);
}

/// Sorting a sorted report changes nothing.
pub proof fn law_sorting_again_changes_nothing(
    before: ReportView,
    after: ReportView,
    again: ReportView,
)
    requires
        sorted(before, after),
        sorted(after, again),
    ensures
        again == after,
{
    law_order_is_kept::<Finding>(after.findings, again.findings);
    law_order_is_kept::<SkippedFile>(after.skipped, again.skipped);
}

} // verus!
