//! What is promised of whole runs.

use super::words::{
    blank, has_in_it, law_holding_is_having, law_the_first_place, lemma_trimmed_front, starts,
};
use crate::config::ConfigView;
use crate::discover::{Entry, EntryView};
use crate::finding::{sorted, Finding, FindingView, ReportView, Severity, SkippedFile, SkippedView};
use crate::model::{learned, no_contract, ContractView};
use crate::order::{arranged, level, sharing, Ranked};
use crate::path::{PartView, PathView};
use crate::rules::{all_rules, AnyRule, CtxView, Rule};
use crate::run::{
    all_findings, asks_for_the_guard, contract_of, crate_root, findings_in_file,
    findings_in_manifest, findings_of, guard_column, guard_in_dependency, guard_in_line,
    guards_in_manifest, guards_in_source, ids, indices, parsed_entry, parsed_files, reports_on,
    skipped_entry, skipped_files, unsorted_report, uses_the_guard, ParsedView,
};
use crate::syntax::parsed;
use crate::text::{byte_length, first_at, lines, occurs_at, trimmed_start};
use vstd::prelude::*;

verus! {

/// True for a line that is no comment: not `//` and not `*` behind the white space
/// it starts with.
pub open spec fn is_code(line: Seq<char>, inner: Seq<char>) -> bool {
    &&& exists|front: Seq<char>| blank(front) && line == #[trigger] (front + inner)
    &&& inner.len() > 0 ==> !super::words::white(inner[0])
    &&& !starts(inner, "//"@)
    &&& !starts(inner, "*"@)
}

proof fn lemma_one_start(line: Seq<char>, inner: Seq<char>)
    requires
        exists|front: Seq<char>| blank(front) && line == #[trigger] (front + inner),
        inner.len() > 0 ==> !super::words::white(inner[0]),
    ensures
        inner == trimmed_start(line),
{
    lemma_trimmed_front(line);
    let other = trimmed_start(line);
    let a = choose|front: Seq<char>| blank(front) && line == #[trigger] (front + inner);
    let b = choose|front: Seq<char>| blank(front) && line == #[trigger] (front + other);
    if a.len() < b.len() {
        assert((a + inner)[a.len() as int] == inner[0]);
        assert((b + other)[a.len() as int] == b[a.len() as int]);
    }
    if b.len() < a.len() {
        assert((b + other)[b.len() as int] == other[0]);
        assert((a + inner)[b.len() as int] == a[b.len() as int]);
    }
    assert(inner =~= line.skip(a.len() as int));
    assert(other =~= line.skip(b.len() as int));
}

/// A line uses the deprecated guard exactly when it is code that names it.
pub proof fn law_which_lines_use_the_guard(line: Seq<char>)
    ensures
        uses_the_guard(line) <==> has_in_it(line, "deny_reentrant"@) && exists|inner: Seq<char>|
            is_code(line, inner),
{
    let inner = trimmed_start(line);
    lemma_trimmed_front(line);
    law_holding_is_having(inner, "//"@);
    law_holding_is_having(inner, "*"@);
    law_holding_is_having(line, "deny_reentrant"@);
    if uses_the_guard(line) {
        assert(is_code(line, inner));
    }
    if exists|inner: Seq<char>| is_code(line, inner) {
        let other = choose|inner: Seq<char>| is_code(line, inner);
        lemma_one_start(line, other);
    }
}

/// True for the wanted severity of the findings about the guard.
pub open spec fn wanted(config: ConfigView) -> Severity {
    match config.overrides("deprecated-reentrancy-guard"@) {
        Some(severity) => severity,
        None => Severity::Medium,
    }
}

/// Every line of a source file that uses the guard is reported once, in order, at
/// the first place where the line names it, and no other line is.
pub proof fn law_the_guard_in_source(path: PathView, text: Seq<char>, config: ConfigView, i: int)
    ensures
        guards_in_source(path, text, config) == indices(lines(text).len()).filter_map(
            |k: int| guard_in_line(path, text, k, config),
        ),
        guard_in_line(path, text, i, config) == (if uses_the_guard(lines(text)[i]) {
            Some(
                FindingView {
                    rule: "deprecated-reentrancy-guard"@,
                    severity: wanted(config),
                    file: path,
                    line: (i + 1) as usize,
                    column: guard_column(lines(text)[i]),
                    message: "`deny_reentrant` was deprecated in stylus-sdk 0.10.5"@,
                    suggestion: "drop it. The high level call functions flush the storage cache themselves, which is what this guard was for. Reentrancy itself is still yours to handle, by writing state before you call out."@,
                },
            )
        } else {
            None
        }),
        indices(lines(text).len()).len() == lines(text).len(),
        0 <= i < lines(text).len() ==> indices(lines(text).len())[i] == i,
{
    let pick = |i: int| guard_in_line(path, text, i, config);
    let again = |k: int| guard_in_line(path, text, k, config);
    assert(pick =~= again);
}

/// The guard is found at the first place where a line names it, counted in bytes
/// from one.
pub proof fn law_where_the_guard_stands(front: Seq<char>, rest: Seq<char>)
    requires
        forall|k: int|
            0 <= k < front.len() ==> !occurs_at(
                front + "deny_reentrant"@ + rest,
                "deny_reentrant"@,
                k,
            ),
        byte_length(front) < usize::MAX,
    ensures
        guard_column(front + "deny_reentrant"@ + rest) == byte_length(front) + 1,
{
    let word = "deny_reentrant"@;
    let line = front + word + rest;
    law_the_first_place(line, word, 0);
    let at = front.len() as int;
    assert(line.subrange(at, at + word.len()) =~= word);
    assert(occurs_at(line, word, at));
    assert(first_at(line, word, 0) == Some(at));
    assert(line.take(at) =~= front);
}

/// A line of a manifest asks for the guard exactly when it is no comment, names
/// the feature in quotes and names the SDK.
pub proof fn law_which_lines_ask_for_the_guard(line: Seq<char>, text: Seq<char>)
    requires
        super::words::bare(line, text),
    ensures
        asks_for_the_guard(line) <==> !starts(text, "#"@) && has_in_it(text, "\"reentrant\""@) && (
        has_in_it(text, "stylus-sdk"@) || has_in_it(text, "stylus_sdk"@)),
{
    super::model::lemma_plain(line, text);
    law_holding_is_having(text, "#"@);
    law_holding_is_having(text, "\"reentrant\""@);
    law_holding_is_having(text, "stylus-sdk"@);
    law_holding_is_having(text, "stylus_sdk"@);
}

/// Every line of a manifest that asks for the guard is reported once, in order,
/// and no other line is.
pub proof fn law_the_guard_in_a_manifest(
    path: PathView,
    text: Seq<char>,
    config: ConfigView,
    i: int,
)
    ensures
        guards_in_manifest(path, text, config) == indices(lines(text).len()).filter_map(
            |k: int| guard_in_dependency(path, text, k, config),
        ),
        guard_in_dependency(path, text, i, config) == (if asks_for_the_guard(lines(text)[i]) {
            Some(
                FindingView {
                    rule: "deprecated-reentrancy-guard"@,
                    severity: wanted(config),
                    file: path,
                    line: (i + 1) as usize,
                    column: 1,
                    message: "the stylus-sdk `reentrant` feature was deprecated in 0.10.5"@,
                    suggestion: "drop the feature. It blocks legitimate reentrant calls and the cache flushing it existed for now happens on every high level call."@,
                },
            )
        } else {
            None
        }),
{
    let pick = |i: int| guard_in_dependency(path, text, i, config);
    let again = |k: int| guard_in_dependency(path, text, k, config);
    assert(pick =~= again);
}

/// A rule that is switched off adds nothing; any other adds all that it reports,
/// in order, each finding as it is but for the severity that the project wants.
pub proof fn law_what_a_rule_adds(
    rule: AnyRule,
    file: crate::syntax::Tree,
    ctx: CtxView,
    config: ConfigView,
    i: int,
)
    ensures
        config.disable.contains(rule.named()) ==> findings_of(rule, file, ctx, config).len() == 0,
        !config.disable.contains(rule.named()) ==> findings_of(rule, file, ctx, config).len()
            == rule.reports(file, ctx).len(),
        !config.disable.contains(rule.named()) && 0 <= i < rule.reports(file, ctx).len() ==> {
            let found = rule.reports(file, ctx)[i];
            let added = findings_of(rule, file, ctx, config)[i];
            &&& added.rule == found.rule && added.file == found.file && added.line == found.line
            &&& added.column == found.column && added.message == found.message && added.suggestion
                == found.suggestion
            &&& added.severity == (match config.overrides(rule.named()) {
                Some(severity) => severity,
                None => found.severity,
            })
        },
{
}

/// A file is told of by each rule in turn, against what is known of its crate, and
/// then line by line; a manifest that can be read line by line. Files come first
/// and manifests after them.
pub proof fn law_a_run_tells_of_everything(
    files: Seq<ParsedView>,
    manifests: Seq<EntryView>,
    config: ConfigView,
    file: ParsedView,
    contract: ContractView,
    manifest: EntryView,
)
    ensures
        all_findings(files, manifests, config) == files.flat_map(
            |f: ParsedView|
                findings_in_file(
                    f,
                    contract_of(crate_root(f.path.parts, manifests), files, manifests),
                    config,
                ),
        ) + manifests.flat_map(|m: EntryView| findings_in_manifest(m, config)),
        findings_in_file(file, contract, config) == all_rules().flat_map(
            |rule: AnyRule|
                findings_of(rule, file.file, CtxView { file: file.path, contract }, config),
        ) + (if config.disable.contains("deprecated-reentrancy-guard"@) {
            Seq::empty()
        } else {
            guards_in_source(file.path, file.text, config)
        }),
        findings_in_manifest(manifest, config) == (if manifest.text is Err
            || config.disable.contains("deprecated-reentrancy-guard"@) {
            Seq::empty()
        } else {
            guards_in_manifest(manifest.path, manifest.text->Ok_0, config)
        }),
{
    let tell = |file: ParsedView|
        findings_in_file(
            file,
            contract_of(crate_root(file.path.parts, manifests), files, manifests),
            config,
        );
    let retell = |f: ParsedView|
        findings_in_file(
            f,
            contract_of(crate_root(f.path.parts, manifests), files, manifests),
            config,
        );
    assert(tell =~= retell);
    let inspect = |manifest: EntryView| findings_in_manifest(manifest, config);
    let again = |m: EntryView| findings_in_manifest(m, config);
    assert(inspect =~= again);
}

/// What is known of a crate is what its files teach, one after the other, and
/// files of other crates teach nothing about it.
pub proof fn law_a_crate_is_taught_by_its_files(
    root: Seq<PartView>,
    files: Seq<ParsedView>,
    file: ParsedView,
    manifests: Seq<EntryView>,
)
    ensures
        contract_of(root, Seq::<ParsedView>::empty(), manifests) == no_contract(),
        crate_root(file.path.parts, manifests) == root ==> contract_of(
            root,
            files.push(file),
            manifests,
        ) == learned(contract_of(root, files, manifests), file.file),
        crate_root(file.path.parts, manifests) != root ==> contract_of(
            root,
            files.push(file),
            manifests,
        ) == contract_of(root, files, manifests),
{
    assert(files.push(file).drop_last() =~= files);
}

/// What can be read and parsed is checked, with its text and its tree; what
/// cannot is skipped, with the reason. Nothing is both, and nothing is neither.
pub proof fn law_checked_or_skipped(entry: EntryView, files: Seq<EntryView>)
    ensures
        entry.text matches Ok(text) ==> (parsed(text) matches Ok(file) ==> parsed_entry(entry)
            == Some(ParsedView { path: entry.path, text, file }) && skipped_entry(entry) is None),
        entry.text matches Ok(text) ==> (parsed(text) matches Err(reason) ==> parsed_entry(entry)
            is None && skipped_entry(entry) == Some(SkippedView { file: entry.path, reason })),
        entry.text matches Err(reason) ==> parsed_entry(entry) is None && skipped_entry(entry)
            == Some(SkippedView { file: entry.path, reason }),
        parsed_files(files) == files.filter_map(|e: EntryView| parsed_entry(e)),
        skipped_files(files) == files.filter_map(|e: EntryView| skipped_entry(e)),
{
    let take_in = |entry: EntryView| parsed_entry(entry);
    let take_again = |e: EntryView| parsed_entry(e);
    assert(take_in =~= take_again);
    let pass = |entry: EntryView| skipped_entry(entry);
    let pass_again = |e: EntryView| skipped_entry(e);
    assert(pass =~= pass_again);
}

/// A report holds everything that was found, everything that was skipped and how
/// many files were checked.
pub proof fn law_what_a_report_holds(
    files: Seq<EntryView>,
    manifests: Seq<EntryView>,
    config: ConfigView,
)
    requires
        files.len() <= usize::MAX,
    ensures
        unsorted_report(files, manifests, config).findings == all_findings(
            parsed_files(files),
            manifests,
            config,
        ),
        unsorted_report(files, manifests, config).skipped == skipped_files(files),
        unsorted_report(files, manifests, config).files_checked == parsed_files(files).len(),
{
    lemma_no_more(files);
}

proof fn lemma_no_more(files: Seq<EntryView>)
    ensures
        parsed_files(files).len() <= files.len(),
    decreases files.len(),
{
    if files.len() > 0 {
        lemma_no_more(files.drop_last());
    }
}

/// Findings are told in order: the worse ones first, then by file, by line, by
/// column and by rule. Each is told as often as it was found, and those that share
/// all of that stand as they were found. Skipped files stand in the order of
/// their paths, and nothing else of a report changes.
pub proof fn law_a_sorted_report(
    before: ReportView,
    after: ReportView,
    x: FindingView,
    i: int,
    j: int,
)
    requires
        sorted(before, after),
    ensures
        before.findings.to_multiset() == after.findings.to_multiset(),
        before.skipped.to_multiset() == after.skipped.to_multiset(),
        after.files_checked == before.files_checked,
        0 <= i < j < after.findings.len() ==> !goes_before(after.findings[j], after.findings[i]),
        0 <= i < j < after.skipped.len() ==> !crate::path::path_before(
            after.skipped[j].file.parts,
            after.skipped[i].file.parts,
        ),
        after.findings.filter(|f: FindingView| shares(x, f)) == before.findings.filter(
            |f: FindingView| shares(x, f),
        ),
{
    crate::order::law_arranging_only_moves::<Finding>(before.findings, after.findings);
    crate::order::law_arranging_only_moves::<SkippedFile>(before.skipped, after.skipped);
    if 0 <= i < j < after.findings.len() {
        assert(Finding::ranked(after.findings[i], after.findings[j]));
        lemma_goes_before(after.findings[j], after.findings[i]);
    }
    if 0 <= i < j < after.skipped.len() {
        assert(SkippedFile::ranked(after.skipped[i], after.skipped[j]));
    }
    let same = |f: FindingView| shares(x, f);
    let equal = |y: FindingView| level::<Finding>(x, y);
    assert forall|f: FindingView| same(f) == #[trigger] equal(f) by {
        lemma_goes_before(x, f);
        lemma_goes_before(f, x);
        crate::path::lemma_path_total(x.file.parts, f.file.parts);
        crate::order::lemma_text_total(x.rule, f.rule);
    }
    assert(same =~= equal);
    assert(sharing::<Finding>(after.findings, x) == sharing::<Finding>(
        before.findings,
        x,
    ));
}

/// How much a severity weighs.
pub open spec fn heavier(a: Severity, b: Severity) -> bool {
    ||| a == Severity::High && b != Severity::High
    ||| a == Severity::Medium && b == Severity::Low
}

/// True for a finding that is told before another one.
pub open spec fn goes_before(a: FindingView, b: FindingView) -> bool {
    ||| heavier(a.severity, b.severity)
    ||| a.severity == b.severity && {
        ||| crate::path::path_before(a.file.parts, b.file.parts)
        ||| a.file.parts == b.file.parts && {
            ||| a.line < b.line
            ||| a.line == b.line && a.column < b.column
            ||| a.line == b.line && a.column == b.column && crate::text::text_before(a.rule, b.rule)
        }
    }
}

/// True for findings that share their severity, their place and their rule.
pub open spec fn shares(a: FindingView, b: FindingView) -> bool {
    &&& a.severity == b.severity
    &&& a.file.parts == b.file.parts
    &&& a.line == b.line
    &&& a.column == b.column
    &&& a.rule == b.rule
}

proof fn lemma_goes_before(a: FindingView, b: FindingView)
    ensures
        goes_before(a, b) <==> !Finding::ranked(b, a),
{
    crate::path::lemma_path_total(a.file.parts, b.file.parts);
}

/// What is reported is a sorted report of the sources and manifests that were
/// found, each taken in the order of its path.
pub proof fn law_what_is_reported(report: ReportView, found: Seq<EntryView>, config: ConfigView)
    ensures
        reports_on(report, found, config) <==> exists|files: Seq<EntryView>, manifests: Seq<
            EntryView,
        >|
            {
                &&& #[trigger] arranged::<Entry>(crate::discover::sources_among(found), files)
                &&& #[trigger] arranged::<Entry>(crate::discover::manifests_among(found), manifests)
                &&& sorted(unsorted_report(files, manifests, config), report)
            },
{
}

/// True for what the order puts on one level with another value.
pub open spec fn tied<T: Ranked>(x: T::V) -> spec_fn(T::V) -> bool {
    |y: T::V| T::ranked(x, y) && T::ranked(y, x)
}

/// To put a list in order is to move its items so that none stands before one that
/// goes first, and to keep the order of those between which the order does not
/// decide.
pub proof fn law_putting_in_order<T: Ranked>(before: Seq<T::V>, after: Seq<T::V>)
    ensures
        arranged::<T>(before, after) <==> {
            &&& after.len() == before.len()
            &&& forall|i: int, j: int|
                0 <= i < j < after.len() ==> T::ranked(#[trigger] after[i], #[trigger] after[j])
            &&& forall|x: T::V|
                after.filter(#[trigger] tied::<T>(x)) == before.filter(tied::<T>(x))
        },
{
    assert forall|x: T::V|
        #![trigger sharing::<T>(after, x)]
        #![trigger tied::<T>(x)]
        sharing::<T>(after, x) == after.filter(tied::<T>(x)) && sharing::<T>(before, x)
            == before.filter(tied::<T>(x)) by {
        let equal = |y: T::V| level::<T>(x, y);
        assert(equal =~= tied::<T>(x));
    }
}

/// There are seven rules to name: the six that read syntax and the one that reads
/// text.
pub proof fn law_the_ids_of_the_rules()
    ensures
        ids() == seq![
            "unwrap-in-entrypoint"@,
            "unchecked-call-result"@,
            "state-write-after-call"@,
            "lossy-integer-conversion"@,
            "missing-access-control"@,
            "unbounded-storage-loop"@,
            "deprecated-reentrancy-guard"@,
        ],
{
    assert(all_rules().map_values(|rule: AnyRule| rule.named()) =~= seq![
        "unwrap-in-entrypoint"@,
        "unchecked-call-result"@,
        "state-write-after-call"@,
        "lossy-integer-conversion"@,
        "missing-access-control"@,
        "unbounded-storage-loop"@,
    ]);
    assert(ids() =~= seq![
        "unwrap-in-entrypoint"@,
        "unchecked-call-result"@,
        "state-write-after-call"@,
        "lossy-integer-conversion"@,
        "missing-access-control"@,
        "unbounded-storage-loop"@,
        "deprecated-reentrancy-guard"@,
    ]);
}

} // verus!
