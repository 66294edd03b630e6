//! What holds of whole runs.

use crate::config::ConfigView;
use crate::declarations::{storage_in, FieldView};
use crate::discover::{
    is_manifest, is_source, manifests_among, names_the_sdk, sources_among, Entry, EntryView,
};
use crate::finding::{
    law_sorting_has_one_outcome, sorted, Finding, FindingView, ReportView, Severity, SkippedFile,
};
use crate::lists::{
    lemma_fold_reaches, lemma_gathered_filtered, lemma_gathered_from_one, lemma_gathered_turned,
    lemma_idle_item, lemma_nothing_filtered, lemma_picked_item, lemma_picked_turned,
    lemma_turned_multiset, lemma_unpicked_item,
};
use crate::model::{
    law_declared_field_is_learned, law_reading_takes_nothing_away, no_contract, ContractView,
};
use crate::order::{
    arranged, law_arranging_keeps_everything, law_arranging_only_moves, law_one_arrangement,
    law_taking_out_keeps_the_arrangement,
};
use crate::path::{lies_under, parent, PartView};
use crate::rules::{all_rules, law_findings_are_signed, AnyRule, CtxView, Rule};
use crate::run::{
    all_findings, asks_for_the_guard, closer, contract_of, crate_root, deprecated_guard,
    findings_in_file, findings_in_manifest, findings_of, guard_in_dependency, guard_in_line,
    guard_severity, guards_in_manifest, guards_in_source, ids, indices, parsed_entry, parsed_files,
    ranked_as, reports_on, skipped_entry, skipped_files, taught, unsorted_report, uses_the_guard,
    ParsedView,
};
use crate::syntax::{nodes, KindView, Tree};
use crate::text::{begins, lines, trimmed, trimmed_start};
use vstd::prelude::*;

verus! {

/// True for a finding that a run may report, given what a project asked for: by
/// a rule that exists and is not switched off, at the severity that the project
/// wants for the rule if it wants one, at a column counted from one.
pub open spec fn admissible(finding: FindingView, config: ConfigView) -> bool {
    &&& ids().contains(finding.rule)
    &&& !config.disables(finding.rule)
    &&& config.overrides(finding.rule) matches Some(severity) ==> finding.severity == severity
    &&& finding.column >= 1
}

proof fn lemma_rule_findings(
    rule: AnyRule,
    file: Tree,
    ctx: CtxView,
    config: ConfigView,
    finding: FindingView,
    k: int,
)
    requires
        0 <= k < all_rules().len(),
        rule == all_rules()[k],
        findings_of(rule, file, ctx, config).contains(finding),
    ensures
        admissible(finding, config),
{
    let said = rule.reports(file, ctx);
    let turned = findings_of(rule, file, ctx, config);
    let j = choose|j: int| 0 <= j < turned.len() && turned[j] == finding;
    assert(turned[j] == ranked_as(said[j], config.overrides(rule.named())));
    assert(said.contains(said[j]));
    law_findings_are_signed(rule, file, ctx, said[j]);
    assert(ids()[k] == rule.named());
}

proof fn lemma_guard_findings(
    findings: Seq<FindingView>,
    config: ConfigView,
    finding: FindingView,
    pick: spec_fn(int) -> Option<FindingView>,
    n: nat,
)
    requires
        findings == indices(n).filter_map(pick),
        findings.contains(finding),
        !config.disables(deprecated_guard()),
        forall|i: int|
            (#[trigger] pick(i)) matches Some(f) ==> f.rule == deprecated_guard() && f.severity
                == guard_severity(config) && f.column >= 1,
    ensures
        admissible(finding, config),
{
    indices(n).lemma_filter_map_contains(pick, finding);
    assert(ids()[all_rules().len() as int] == deprecated_guard());
}

proof fn lemma_file_findings(
    file: ParsedView,
    contract: ContractView,
    config: ConfigView,
    finding: FindingView,
)
    requires
        findings_in_file(file, contract, config).contains(finding),
    ensures
        admissible(finding, config),
{
    let ctx = CtxView { file: file.path, contract };
    let run = |rule: AnyRule| findings_of(rule, file.file, ctx, config);
    let from_rules = all_rules().flat_map(run);
    let all = findings_in_file(file, contract, config);
    let k = choose|k: int| 0 <= k < all.len() && all[k] == finding;
    if k < from_rules.len() {
        assert(from_rules[k] == finding);
        lemma_gathered_from_one(all_rules(), run, finding);
        let i = choose|i: int|
            0 <= i < all_rules().len() && run(#[trigger] all_rules()[i]).contains(finding);
        lemma_rule_findings(all_rules()[i], file.file, ctx, config, finding, i);
    } else {
        let guards = guards_in_source(file.path, file.text, config);
        assert(guards[k - from_rules.len()] == finding);
        lemma_guard_findings(
            guards,
            config,
            finding,
            |i: int| guard_in_line(file.path, file.text, i, config),
            lines(file.text).len(),
        );
    }
}

proof fn lemma_manifest_findings(manifest: EntryView, config: ConfigView, finding: FindingView)
    requires
        findings_in_manifest(manifest, config).contains(finding),
    ensures
        admissible(finding, config),
{
    if let Ok(text) = manifest.text {
        lemma_guard_findings(
            guards_in_manifest(manifest.path, text, config),
            config,
            finding,
            |i: int| guard_in_dependency(manifest.path, text, i, config),
            lines(text).len(),
        );
    }
}

/// Whatever is found in some files and manifests is admissible.
pub proof fn law_every_finding_is_admissible(
    files: Seq<ParsedView>,
    manifests: Seq<EntryView>,
    config: ConfigView,
    finding: FindingView,
)
    requires
        all_findings(files, manifests, config).contains(finding),
    ensures
        admissible(finding, config),
{
    let tell = |file: ParsedView|
        findings_in_file(
            file,
            contract_of(crate_root(file.path.parts, manifests), files, manifests),
            config,
        );
    let inspect = |manifest: EntryView| findings_in_manifest(manifest, config);
    let from_files = files.flat_map(tell);
    let all = all_findings(files, manifests, config);
    let k = choose|k: int| 0 <= k < all.len() && all[k] == finding;
    if k < from_files.len() {
        assert(from_files[k] == finding);
        lemma_gathered_from_one(files, tell, finding);
        let i = choose|i: int| 0 <= i < files.len() && tell(#[trigger] files[i]).contains(finding);
        lemma_file_findings(
            files[i],
            contract_of(crate_root(files[i].path.parts, manifests), files, manifests),
            config,
            finding,
        );
    } else {
        let from_manifests = manifests.flat_map(inspect);
        assert(from_manifests[k - from_files.len()] == finding);
        lemma_gathered_from_one(manifests, inspect, finding);
        let i = choose|i: int|
            0 <= i < manifests.len() && inspect(#[trigger] manifests[i]).contains(finding);
        lemma_manifest_findings(manifests[i], config, finding);
    }
}

/// The sources that a report is about, in the order in which they are reported.
proof fn lemma_reported_sources(
    report: ReportView,
    found: Seq<EntryView>,
    config: ConfigView,
) -> (r: (Seq<EntryView>, Seq<EntryView>))
    requires
        reports_on(report, found, config),
    ensures
        arranged::<Entry>(sources_among(found), r.0),
        arranged::<Entry>(manifests_among(found), r.1),
        sorted(unsorted_report(r.0, r.1, config), report),
{
    choose|files: Seq<EntryView>, manifests: Seq<EntryView>|
        {
            &&& #[trigger] arranged::<Entry>(sources_among(found), files)
            &&& #[trigger] arranged::<Entry>(manifests_among(found), manifests)
            &&& sorted(unsorted_report(files, manifests, config), report)
        }
}

/// There is one order only in which the sources can be reported.
proof fn lemma_reported_in_one_order(
    report: ReportView,
    found: Seq<EntryView>,
    config: ConfigView,
    files: Seq<EntryView>,
    manifests: Seq<EntryView>,
)
    requires
        reports_on(report, found, config),
        arranged::<Entry>(sources_among(found), files),
        arranged::<Entry>(manifests_among(found), manifests),
    ensures
        sorted(unsorted_report(files, manifests, config), report),
{
    let (others, lists) = lemma_reported_sources(report, found, config);
    law_one_arrangement::<Entry>(sources_among(found), files, others);
    law_one_arrangement::<Entry>(manifests_among(found), manifests, lists);
}

/// A report holds nothing of a rule that is switched off, gives every finding of
/// a rule the severity that a project wants for it, and names rules that exist.
pub proof fn law_report_respects_the_config(
    report: ReportView,
    found: Seq<EntryView>,
    config: ConfigView,
    finding: FindingView,
)
    requires
        reports_on(report, found, config),
        report.findings.contains(finding),
    ensures
        admissible(finding, config),
{
    let (files, manifests) = lemma_reported_sources(report, found, config);
    let before = unsorted_report(files, manifests, config);
    law_arranging_keeps_everything::<Finding>(before.findings, report.findings, finding);
    law_every_finding_is_admissible(parsed_files(files), manifests, config, finding);
}

/// Two runs over the same code, asked for the same, report the same.
pub proof fn law_runs_agree(
    a: ReportView,
    b: ReportView,
    found: Seq<EntryView>,
    config: ConfigView,
)
    requires
        reports_on(a, found, config),
        reports_on(b, found, config),
    ensures
        a == b,
{
    let (files, manifests) = lemma_reported_sources(a, found, config);
    lemma_reported_in_one_order(b, found, config, files, manifests);
    law_sorting_has_one_outcome(unsorted_report(files, manifests, config), a, b);
}

proof fn lemma_checked_or_skipped(files: Seq<EntryView>)
    ensures
        parsed_files(files).len() + skipped_files(files).len() == files.len(),
    decreases files.len(),
{
    if files.len() > 0 {
        lemma_checked_or_skipped(files.drop_last());
    }
}

/// Every Rust file is either checked or named as skipped.
pub proof fn law_every_file_is_accounted_for(
    report: ReportView,
    found: Seq<EntryView>,
    config: ConfigView,
)
    requires
        reports_on(report, found, config),
        found.len() <= usize::MAX,
    ensures
        report.files_checked + report.skipped.len() == sources_among(found).len(),
{
    let (files, manifests) = lemma_reported_sources(report, found, config);
    lemma_checked_or_skipped(files);
    found.lemma_filter_len(|e: EntryView| !is_manifest(e.path) && is_source(e.path));
}

/// A file that cannot be read or parsed changes nothing for the others: what is
/// found is what would be found without it.
pub proof fn law_bad_file_stops_nothing(
    before: Seq<EntryView>,
    bad: EntryView,
    after: Seq<EntryView>,
    manifests: Seq<EntryView>,
    config: ConfigView,
)
    requires
        skipped_entry(bad) is Some,
    ensures
        all_findings(parsed_files(before + seq![bad] + after), manifests, config) == all_findings(
            parsed_files(before + after),
            manifests,
            config,
        ),
        skipped_files(before + seq![bad] + after).contains(skipped_entry(bad).unwrap()),
{
    lemma_unpicked_item(before, bad, after, |entry: EntryView| parsed_entry(entry));
    let all = before + seq![bad] + after;
    assert(all[before.len() as int] == bad);
    lemma_picked_item(
        all,
        |entry: EntryView| skipped_entry(entry),
        before.len() as int,
    );
}

/// A contract never borrows from another crate: a file of another crate changes
/// nothing about what is known of it.
pub proof fn law_crates_share_nothing(
    root: Seq<PartView>,
    before: Seq<ParsedView>,
    other: ParsedView,
    after: Seq<ParsedView>,
    manifests: Seq<EntryView>,
)
    requires
        crate_root(other.path.parts, manifests) != root,
    ensures
        contract_of(root, before + seq![other] + after, manifests) == contract_of(
            root,
            before + after,
            manifests,
        ),
{
    lemma_idle_item(
        before,
        other,
        after,
        no_contract(),
        |contract: ContractView, file: ParsedView| taught(root, contract, file, manifests),
    );
}

/// A field is known to every file of the crate that declares it, whichever file
/// of the crate declares it.
pub proof fn law_any_file_of_a_crate_can_declare(
    files: Seq<ParsedView>,
    manifests: Seq<EntryView>,
    k: int,
    i: int,
    field: FieldView,
)
    requires
        0 <= k < files.len(),
        0 <= i < nodes(files[k].file).len(),
        nodes(files[k].file)[i].tail() == Some("sol_storage"@),
        nodes(files[k].file)[i].kind matches KindView::Macro { tokens, .. } && storage_in(
            tokens,
        ).contains(field),
    ensures
        contract_of(crate_root(files[k].path.parts, manifests), files, manifests).field(
            field.name,
        ) is Some,
{
    let root = crate_root(files[k].path.parts, manifests);
    let step = |contract: ContractView, file: ParsedView| taught(root, contract, file, manifests);
    let known = |contract: ContractView| contract.field(field.name) is Some;
    assert forall|c: ContractView| known(#[trigger] step(c, files[k])) by {
        law_declared_field_is_learned(c, files[k].file, i, field);
    }
    assert forall|c: ContractView, file: ParsedView| known(c) implies known(
        #[trigger] step(c, file),
    ) by {
        law_reading_takes_nothing_away(c, file.file);
    }
    lemma_fold_reaches(files, no_contract(), step, known, k);
}

proof fn lemma_closest(
    file: Seq<PartView>,
    manifests: Seq<EntryView>,
    manifest: EntryView,
)
    ensures
        lies_under(file, crate_root(file, manifests)),
        manifests.contains(manifest) ==> (parent(manifest.path.parts) matches Some(directory)
            ==> lies_under(file, directory) ==> directory.len() <= crate_root(file, manifests).len()),
        crate_root(file, manifests).len() > 0 ==> exists|i: int|
            0 <= i < manifests.len() && parent((#[trigger] manifests[i]).path.parts) == Some(
                crate_root(file, manifests),
            ),
    decreases manifests.len(),
{
    if manifests.len() == 0 {
        assert(crate_root(file, manifests) =~= Seq::empty());
        assert(file.subrange(0, 0) =~= Seq::empty());
    } else {
        let rest = manifests.drop_last();
        let last = manifests.last();
        lemma_closest(file, rest, manifest);
        let before = crate_root(file, rest);
        let after = crate_root(file, manifests);
        assert(after == closer(file, before, last));
        if manifests.contains(manifest) && manifest != last {
            let k = choose|k: int| 0 <= k < manifests.len() && manifests[k] == manifest;
            assert(rest[k] == manifest);
        }
        if after.len() > 0 {
            if after == before {
                let i = choose|i: int|
                    0 <= i < rest.len() && parent((#[trigger] rest[i]).path.parts) == Some(before);
                assert(manifests[i] == rest[i]);
            } else {
                assert(manifests[manifests.len() - 1] == last);
            }
        }
    }
}

/// A file belongs to the closest manifest above it: no manifest above it lies
/// closer, and where there is none it belongs to no directory.
pub proof fn law_closest_manifest_above(
    file: Seq<PartView>,
    manifests: Seq<EntryView>,
    manifest: EntryView,
)
    requires
        manifests.contains(manifest),
    ensures
        lies_under(file, crate_root(file, manifests)),
        parent(manifest.path.parts) matches Some(directory) ==> lies_under(file, directory)
            ==> directory.len() <= crate_root(file, manifests).len(),
        crate_root(file, manifests).len() > 0 ==> exists|i: int|
            0 <= i < manifests.len() && parent((#[trigger] manifests[i]).path.parts) == Some(
                crate_root(file, manifests),
            ),
{
    lemma_closest(file, manifests, manifest);
}

/// A comment that names the guard is not a use of it.
pub proof fn law_comments_are_not_code(line: Seq<char>)
    requires
        begins(trimmed_start(line), "//"@) || begins(trimmed_start(line), "*"@),
    ensures
        !uses_the_guard(line),
{
}

/// A line of a manifest that is commented out asks for nothing and depends on
/// nothing.
pub proof fn law_commented_dependency_does_not_count(line: Seq<char>)
    requires
        begins(trimmed(line), "#"@),
    ensures
        !asks_for_the_guard(line),
        !names_the_sdk(line),
{
}

/// Every rule can be named in a config: the list of the ids leaves none out.
pub proof fn law_every_rule_is_listed(listed: Seq<Seq<char>>, id: Seq<char>)
    requires
        arranged::<&'static str>(ids(), listed),
    ensures
        ids().contains(id) <==> listed.contains(id),
{
    law_arranging_keeps_everything::<&'static str>(ids(), listed, id);
}

/// True for the findings that a config with one more rule switched off keeps.
spec fn by_others(rule: Seq<char>) -> spec_fn(FindingView) -> bool {
    |f: FindingView| f.rule != rule
}

proof fn lemma_rule_without(
    rule: AnyRule,
    file: Tree,
    ctx: CtxView,
    config: ConfigView,
    off: Seq<char>,
)
    ensures
        findings_of(rule, file, ctx, config.without(off)) == findings_of(
            rule,
            file,
            ctx,
            config,
        ).filter(by_others(off)),
{
    let all = findings_of(rule, file, ctx, config);
    lemma_disables(config, off, rule.named());
    assert forall|i: int| 0 <= i < all.len() implies (#[trigger] all[i]).rule == rule.named() by {
        let said = rule.reports(file, ctx);
        assert(said.contains(said[i]));
        law_findings_are_signed(rule, file, ctx, said[i]);
    }
    lemma_kept_or_dropped(all, rule.named(), off);
}

proof fn lemma_disables(config: ConfigView, off: Seq<char>, rule: Seq<char>)
    ensures
        config.without(off).disables(rule) == (config.disables(rule) || rule == off),
{
    let more = config.disable.push(off);
    assert(more[config.disable.len() as int] == off);
    if config.disables(rule) {
        let k = choose|k: int| 0 <= k < config.disable.len() && config.disable[k] == rule;
        assert(more[k] == rule);
    }
}

proof fn lemma_kept_or_dropped(findings: Seq<FindingView>, rule: Seq<char>, off: Seq<char>)
    requires
        forall|i: int| 0 <= i < findings.len() ==> (#[trigger] findings[i]).rule == rule,
    ensures
        findings.filter(by_others(off)) == (if rule == off {
            Seq::empty()
        } else {
            findings
        }),
{
    if rule == off {
        findings.lemma_all_neg_filter_empty(by_others(off));
        assert(findings.filter(by_others(off)) =~= Seq::empty());
    } else {
        lemma_nothing_filtered(findings, by_others(off));
    }
}

proof fn lemma_guards_without(
    findings: Seq<FindingView>,
    pick: spec_fn(int) -> Option<FindingView>,
    n: nat,
    off: Seq<char>,
)
    requires
        findings == indices(n).filter_map(pick),
        forall|i: int| (#[trigger] pick(i)) matches Some(f) ==> f.rule == deprecated_guard(),
    ensures
        findings.filter(by_others(off)) == (if deprecated_guard() == off {
            Seq::empty()
        } else {
            findings
        }),
{
    assert forall|i: int| 0 <= i < findings.len() implies (#[trigger] findings[i]).rule
        == deprecated_guard() by {
        assert(findings.contains(findings[i]));
        indices(n).lemma_filter_map_contains(pick, findings[i]);
    }
    lemma_kept_or_dropped(findings, deprecated_guard(), off);
}

proof fn lemma_file_without(
    file: ParsedView,
    contract: ContractView,
    config: ConfigView,
    off: Seq<char>,
)
    ensures
        findings_in_file(file, contract, config.without(off)) == findings_in_file(
            file,
            contract,
            config,
        ).filter(by_others(off)),
{
    let ctx = CtxView { file: file.path, contract };
    let run = |rule: AnyRule| findings_of(rule, file.file, ctx, config);
    let rerun = |rule: AnyRule| findings_of(rule, file.file, ctx, config.without(off));
    assert forall|i: int| 0 <= i < all_rules().len() implies rerun(#[trigger] all_rules()[i])
        == run(all_rules()[i]).filter(by_others(off)) by {
        lemma_rule_without(all_rules()[i], file.file, ctx, config, off);
    }
    lemma_gathered_filtered(all_rules(), run, rerun, by_others(off));
    let pick = |i: int| guard_in_line(file.path, file.text, i, config);
    let again = |i: int| guard_in_line(file.path, file.text, i, config.without(off));
    assert(pick =~= again);
    let guards = guards_in_source(file.path, file.text, config);
    lemma_guards_without(guards, pick, lines(file.text).len(), off);
    lemma_disables(config, off, deprecated_guard());
    let told = if config.disables(deprecated_guard()) {
        Seq::empty()
    } else {
        guards
    };
    lemma_kept_or_dropped(Seq::empty(), deprecated_guard(), off);
    Seq::filter_distributes_over_add(all_rules().flat_map(run), told, by_others(off));
}

proof fn lemma_manifest_without(manifest: EntryView, config: ConfigView, off: Seq<char>)
    ensures
        findings_in_manifest(manifest, config.without(off)) == findings_in_manifest(
            manifest,
            config,
        ).filter(by_others(off)),
{
    lemma_disables(config, off, deprecated_guard());
    lemma_kept_or_dropped(Seq::empty(), deprecated_guard(), off);
    if let Ok(text) = manifest.text {
        let pick = |i: int| guard_in_dependency(manifest.path, text, i, config);
        let again = |i: int| guard_in_dependency(manifest.path, text, i, config.without(off));
        assert(pick =~= again);
        lemma_guards_without(
            guards_in_manifest(manifest.path, text, config),
            pick,
            lines(text).len(),
            off,
        );
    }
}

proof fn lemma_findings_without(
    files: Seq<ParsedView>,
    manifests: Seq<EntryView>,
    config: ConfigView,
    off: Seq<char>,
)
    ensures
        all_findings(files, manifests, config.without(off)) == all_findings(
            files,
            manifests,
            config,
        ).filter(by_others(off)),
{
    let less = config.without(off);
    let known = |file: ParsedView|
        contract_of(crate_root(file.path.parts, manifests), files, manifests);
    let tell = |file: ParsedView|
        findings_in_file(
            file,
            contract_of(crate_root(file.path.parts, manifests), files, manifests),
            config,
        );
    let retell = |file: ParsedView|
        findings_in_file(
            file,
            contract_of(crate_root(file.path.parts, manifests), files, manifests),
            less,
        );
    assert forall|i: int| 0 <= i < files.len() implies retell(#[trigger] files[i]) == tell(
        files[i],
    ).filter(by_others(off)) by {
        lemma_file_without(files[i], known(files[i]), config, off);
    }
    lemma_gathered_filtered(files, tell, retell, by_others(off));
    let inspect = |manifest: EntryView| findings_in_manifest(manifest, config);
    let again = |manifest: EntryView| findings_in_manifest(manifest, less);
    assert forall|i: int| 0 <= i < manifests.len() implies again(#[trigger] manifests[i])
        == inspect(manifests[i]).filter(by_others(off)) by {
        lemma_manifest_without(manifests[i], config, off);
    }
    lemma_gathered_filtered(manifests, inspect, again, by_others(off));
    Seq::filter_distributes_over_add(
        files.flat_map(tell),
        manifests.flat_map(inspect),
        by_others(off),
    );
}

/// Switching one more rule off takes the findings of that rule out of the
/// report, and changes nothing else in it.
pub proof fn law_switching_off_takes_out_one_rule(
    report: ReportView,
    shorter: ReportView,
    found: Seq<EntryView>,
    config: ConfigView,
    rule: Seq<char>,
)
    requires
        reports_on(report, found, config),
        reports_on(shorter, found, config.without(rule)),
    ensures
        shorter.findings == report.findings.filter(|f: FindingView| f.rule != rule),
        shorter.skipped == report.skipped,
        shorter.files_checked == report.files_checked,
{
    let less = config.without(rule);
    let (files, manifests) = lemma_reported_sources(report, found, config);
    lemma_reported_in_one_order(shorter, found, less, files, manifests);
    lemma_findings_without(parsed_files(files), manifests, config, rule);
    let before = unsorted_report(files, manifests, config);
    let after = unsorted_report(files, manifests, less);
    law_taking_out_keeps_the_arrangement::<Finding>(
        before.findings,
        report.findings,
        by_others(rule),
    );
    law_one_arrangement::<Finding>(
        after.findings,
        shorter.findings,
        report.findings.filter(by_others(rule)),
    );
    assert(by_others(rule) =~= (|f: FindingView| f.rule != rule));
    law_one_arrangement::<SkippedFile>(before.skipped, report.skipped, shorter.skipped);
}

/// A finding with the severity that a project wants for the rule that made it.
pub open spec fn reweighted(finding: FindingView, config: ConfigView) -> FindingView {
    ranked_as(finding, config.overrides(finding.rule))
}

/// A finding with its severity set aside.
pub open spec fn weightless(finding: FindingView) -> FindingView {
    FindingView { severity: Severity::Low, ..finding }
}

proof fn lemma_rule_reweighted(rule: AnyRule, file: Tree, ctx: CtxView, config: ConfigView)
    ensures
        findings_of(rule, file, ctx, config) == findings_of(
            rule,
            file,
            ctx,
            config.unweighted(),
        ).map_values(|f: FindingView| reweighted(f, config)),
{
    let turn = |f: FindingView| reweighted(f, config);
    let plain = findings_of(rule, file, ctx, config.unweighted());
    let turned = findings_of(rule, file, ctx, config);
    let said = rule.reports(file, ctx);
    assert forall|i: int| 0 <= i < turned.len() implies #[trigger] turned[i] == turn(plain[i]) by {
        assert(said.contains(said[i]));
        law_findings_are_signed(rule, file, ctx, said[i]);
    }
    assert(turned =~= plain.map_values(turn));
}

proof fn lemma_file_reweighted(file: ParsedView, contract: ContractView, config: ConfigView)
    ensures
        findings_in_file(file, contract, config) == findings_in_file(
            file,
            contract,
            config.unweighted(),
        ).map_values(|f: FindingView| reweighted(f, config)),
{
    let plain = config.unweighted();
    let turn = |f: FindingView| reweighted(f, config);
    let ctx = CtxView { file: file.path, contract };
    let run = |rule: AnyRule| findings_of(rule, file.file, ctx, plain);
    let rerun = |rule: AnyRule| findings_of(rule, file.file, ctx, config);
    assert forall|i: int| 0 <= i < all_rules().len() implies rerun(#[trigger] all_rules()[i])
        == run(all_rules()[i]).map_values(turn) by {
        lemma_rule_reweighted(all_rules()[i], file.file, ctx, config);
    }
    lemma_gathered_turned(all_rules(), run, rerun, turn);
    lemma_picked_turned(
        indices(lines(file.text).len()),
        |i: int| guard_in_line(file.path, file.text, i, plain),
        |i: int| guard_in_line(file.path, file.text, i, config),
        turn,
    );
    assert(findings_in_file(file, contract, config) =~= findings_in_file(
        file,
        contract,
        plain,
    ).map_values(turn));
}

proof fn lemma_manifest_reweighted(manifest: EntryView, config: ConfigView)
    ensures
        findings_in_manifest(manifest, config) == findings_in_manifest(
            manifest,
            config.unweighted(),
        ).map_values(|f: FindingView| reweighted(f, config)),
{
    let plain = config.unweighted();
    let turn = |f: FindingView| reweighted(f, config);
    if let Ok(text) = manifest.text {
        lemma_picked_turned(
            indices(lines(text).len()),
            |i: int| guard_in_dependency(manifest.path, text, i, plain),
            |i: int| guard_in_dependency(manifest.path, text, i, config),
            turn,
        );
    }
    assert(findings_in_manifest(manifest, config) =~= findings_in_manifest(
        manifest,
        plain,
    ).map_values(turn));
}

proof fn lemma_findings_reweighted(
    files: Seq<ParsedView>,
    manifests: Seq<EntryView>,
    config: ConfigView,
)
    ensures
        all_findings(files, manifests, config) == all_findings(
            files,
            manifests,
            config.unweighted(),
        ).map_values(|f: FindingView| reweighted(f, config)),
{
    let plain = config.unweighted();
    let turn = |f: FindingView| reweighted(f, config);
    let known = |file: ParsedView|
        contract_of(crate_root(file.path.parts, manifests), files, manifests);
    let tell = |file: ParsedView|
        findings_in_file(
            file,
            contract_of(crate_root(file.path.parts, manifests), files, manifests),
            plain,
        );
    let retell = |file: ParsedView|
        findings_in_file(
            file,
            contract_of(crate_root(file.path.parts, manifests), files, manifests),
            config,
        );
    assert forall|i: int| 0 <= i < files.len() implies retell(#[trigger] files[i]) == tell(
        files[i],
    ).map_values(turn) by {
        lemma_file_reweighted(files[i], known(files[i]), config);
    }
    lemma_gathered_turned(files, tell, retell, turn);
    let inspect = |manifest: EntryView| findings_in_manifest(manifest, plain);
    let again = |manifest: EntryView| findings_in_manifest(manifest, config);
    assert forall|i: int| 0 <= i < manifests.len() implies again(#[trigger] manifests[i])
        == inspect(manifests[i]).map_values(turn) by {
        lemma_manifest_reweighted(manifests[i], config);
    }
    lemma_gathered_turned(manifests, inspect, again, turn);
    assert(all_findings(files, manifests, config) =~= all_findings(
        files,
        manifests,
        plain,
    ).map_values(turn));
}

/// Severities in a config change severities only: the findings are those of a
/// run without them, each as often, with the severity that the project wants
/// for the rule. What they are about and how many there are stays the same.
pub proof fn law_severities_change_nothing_else(
    report: ReportView,
    plain: ReportView,
    found: Seq<EntryView>,
    config: ConfigView,
)
    requires
        reports_on(report, found, config),
        reports_on(plain, found, config.unweighted()),
    ensures
        report.findings.to_multiset() == plain.findings.map_values(
            |f: FindingView| reweighted(f, config),
        ).to_multiset(),
        report.findings.map_values(|f: FindingView| weightless(f)).to_multiset()
            == plain.findings.map_values(|f: FindingView| weightless(f)).to_multiset(),
        report.findings.len() == plain.findings.len(),
        report.skipped == plain.skipped,
        report.files_checked == plain.files_checked,
{
    let turn = |f: FindingView| reweighted(f, config);
    let bare = |f: FindingView| weightless(f);
    let (files, manifests) = lemma_reported_sources(report, found, config);
    lemma_reported_in_one_order(plain, found, config.unweighted(), files, manifests);
    lemma_findings_reweighted(parsed_files(files), manifests, config);
    let before = unsorted_report(files, manifests, config.unweighted());
    let after = unsorted_report(files, manifests, config);
    law_arranging_only_moves::<Finding>(before.findings, plain.findings);
    law_arranging_only_moves::<Finding>(after.findings, report.findings);
    lemma_turned_multiset(before.findings, plain.findings, turn);
    lemma_turned_multiset(report.findings, plain.findings.map_values(turn), bare);
    assert(plain.findings.map_values(turn).map_values(bare) =~= plain.findings.map_values(bare));
    law_one_arrangement::<SkippedFile>(before.skipped, plain.skipped, report.skipped);
}

} // verus!
