//! Putting it together: read what was found, learn the contracts, run the rules.

use crate::config::{Config, ConfigView};
use crate::discover::{
    collect, found_view, manifests_among, refusal, sources_among, Entry, EntryView, NotStylus,
};
use crate::finding::{
    sorted, Finding, FindingView, Report, ReportView, Severity, SkippedFile, SkippedView,
};
use crate::lists::lemma_fold_step;
use crate::model::{learned, no_contract, Contract, ContractView};
use crate::order::{arrange, arranged, views};
use crate::path::{
    copy_parts, lies_under, parent, parts_view, same_parts, FilePath, Part, PartView, PathView,
};
use crate::rules::{all, all_rules, AnyRule, Ctx, CtxView, Rule};
use crate::syntax::{parse, parsed, Node, Tree};
use crate::text::{
    begins, bounded, byte_length, chars, contains, count_bytes, deep, find, first_at, holds,
    lines, starts_with, text_lines, trim, trim_start, trimmed,
    trimmed_start,
};
use vstd::prelude::*;
use vstd::slice::slice_subrange;

verus! {

/// The id of the rule that reads text rather than syntax.
pub open spec fn deprecated_guard() -> Seq<char> {
    "deprecated-reentrancy-guard"@
}

/// The severity of a finding of the rule that reads text, unless a project
/// wants another one.
pub open spec fn guard_severity(config: ConfigView) -> Severity {
    match config.overrides(deprecated_guard()) {
        Some(severity) => severity,
        None => Severity::Medium,
    }
}

/// True for a line of code that uses the guard. A rule that reads text has to
/// ignore text that is not code, or it reports the comment explaining why the
/// guard was removed.
pub open spec fn uses_the_guard(line: Seq<char>) -> bool {
    let text = trimmed_start(line);
    !begins(text, "//"@) && !begins(text, "*"@) && holds(line, "deny_reentrant"@)
}

/// The column at which a line names the guard, counted in bytes from one.
pub open spec fn guard_column(line: Seq<char>) -> usize {
    match first_at(line, "deny_reentrant"@, 0) {
        Some(at) => bounded(byte_length(line.take(at)) + 1),
        None => 1,
    }
}

/// The finding about a line of source, counted from zero.
pub open spec fn guard_in_line(
    path: PathView,
    text: Seq<char>,
    index: int,
    config: ConfigView,
) -> Option<FindingView> {
    let line = lines(text)[index];
    if uses_the_guard(line) {
        Some(
            FindingView {
                rule: deprecated_guard(),
                severity: guard_severity(config),
                file: path,
                line: (index + 1) as usize,
                column: guard_column(line),
                message: "`deny_reentrant` was deprecated in stylus-sdk 0.10.5"@,
                suggestion: "drop it. The high level call functions flush the storage cache themselves, which is what this guard was for. Reentrancy itself is still yours to handle, by writing state before you call out."@,
            },
        )
    } else {
        None
    }
}

/// True for a line of a manifest that asks the SDK for the guard. The line has
/// to name the SDK: a feature of the same name on another crate is somebody
/// else's business.
pub open spec fn asks_for_the_guard(line: Seq<char>) -> bool {
    let text = trimmed(line);
    !begins(text, "#"@) && holds(text, "\"reentrant\""@) && (holds(text, "stylus-sdk"@) || holds(
        text,
        "stylus_sdk"@,
    ))
}

/// The finding about a line of a manifest, counted from zero.
pub open spec fn guard_in_dependency(
    path: PathView,
    text: Seq<char>,
    index: int,
    config: ConfigView,
) -> Option<FindingView> {
    if asks_for_the_guard(lines(text)[index]) {
        Some(
            FindingView {
                rule: deprecated_guard(),
                severity: guard_severity(config),
                file: path,
                line: (index + 1) as usize,
                column: 1,
                message: "the stylus-sdk `reentrant` feature was deprecated in 0.10.5"@,
                suggestion: "drop the feature. It blocks legitimate reentrant calls and the cache flushing it existed for now happens on every high level call."@,
            },
        )
    } else {
        None
    }
}

/// The numbers from zero up to one.
pub open spec fn indices(n: nat) -> Seq<int> {
    Seq::new(n, |i: int| i)
}

/// What there is to say about the guard in a source file, line by line.
pub open spec fn guards_in_source(path: PathView, text: Seq<char>, config: ConfigView) -> Seq<
    FindingView,
> {
    indices(lines(text).len()).filter_map(|i: int| guard_in_line(path, text, i, config))
}

/// What there is to say about the guard in a manifest, line by line.
pub open spec fn guards_in_manifest(path: PathView, text: Seq<char>, config: ConfigView) -> Seq<
    FindingView,
> {
    indices(lines(text).len()).filter_map(|i: int| guard_in_dependency(path, text, i, config))
}

fn severity_of(config: &Config, default: Severity) -> (r: Severity)
    ensures
        r == (match config@.overrides(deprecated_guard()) {
            Some(severity) => severity,
            None => default,
        }),
{
    match config.severity_for("deprecated-reentrancy-guard") {
        Some(severity) => severity,
        None => default,
    }
}

/// The SDK's own reentrancy guard, which it deprecated in 0.10.5.
///
/// Worth saying because the advice most people carry over from Solidity is to
/// add a guard, and here that means adopting an API on its way out. The high
/// level call functions flush the storage cache themselves now. That is not the
/// same as being safe from reentrancy, which is what the checks effects
/// interactions rule is for.
pub fn deprecated_guard_in_source(path: &FilePath, text: &str, config: &Config) -> (r: Vec<Finding>)
    ensures
        views(r@) == guards_in_source(path@, text@, config@),
{
    let ghost told = lines(text@);
    let ghost pick = |i: int| guard_in_line(path@, text@, i, config@);
    let ghost all = indices(told.len());
    let found = text_lines(text);
    let needle = chars("deny_reentrant");
    let mut r: Vec<Finding> = Vec::new();
    assert(views(r@) =~= all.take(0).filter_map(pick));
    for i in 0..found.len()
        invariant
            told == lines(text@),
            deep(found@) == told,
            needle@ == "deny_reentrant"@,
            all == indices(told.len()),
            pick == (|i: int| guard_in_line(path@, text@, i, config@)),
            views(r@) == all.take(i as int).filter_map(pick),
    {
        let ghost before = views(r@);
        proof {
            all.lemma_filter_map_take_succ(pick, i as int);
        }
        let line = found[i].as_slice();
        assert(told[i as int] == line@);
        let trimmed_line = trim_start(line);
        if !starts_with(trimmed_line, "//") && !starts_with(trimmed_line, "*") && contains(
            line,
            "deny_reentrant",
        ) {
            let column: usize = match find(line, needle.as_slice(), 0) {
                Some(at) => {
                    assert(line@.subrange(0, at as int) =~= line@.take(at as int));
                    let n = count_bytes(slice_subrange(line, 0, at));
                    if n < usize::MAX {
                        n + 1
                    } else {
                        n
                    }
                },
                None => 1,
            };
            let finding = Finding::new(
                "deprecated-reentrancy-guard",
                severity_of(config, Severity::Medium),
                path,
                i + 1,
                column,
                "`deny_reentrant` was deprecated in stylus-sdk 0.10.5",
                "drop it. The high level call functions flush the storage cache themselves, which is what this guard was for. Reentrancy itself is still yours to handle, by writing state before you call out.",
            );
            let ghost said = finding@;
            r.push(finding);
            assert(views(r@) =~= before + seq![said]);
        } else {
            assert(views(r@) =~= before + Seq::empty());
        }
    }
    assert(all.take(found@.len() as int) =~= all);
    r
}

/// The SDK's own reentrancy guard, asked for as a feature.
pub fn deprecated_guard_in_manifest(path: &FilePath, text: &str, config: &Config) -> (r: Vec<
    Finding,
>)
    ensures
        views(r@) == guards_in_manifest(path@, text@, config@),
{
    let ghost told = lines(text@);
    let ghost pick = |i: int| guard_in_dependency(path@, text@, i, config@);
    let ghost all = indices(told.len());
    let found = text_lines(text);
    let mut r: Vec<Finding> = Vec::new();
    assert(views(r@) =~= all.take(0).filter_map(pick));
    for i in 0..found.len()
        invariant
            told == lines(text@),
            deep(found@) == told,
            all == indices(told.len()),
            pick == (|i: int| guard_in_dependency(path@, text@, i, config@)),
            views(r@) == all.take(i as int).filter_map(pick),
    {
        let ghost before = views(r@);
        proof {
            all.lemma_filter_map_take_succ(pick, i as int);
        }
        let line = found[i].as_slice();
        assert(told[i as int] == line@);
        let trimmed_line = trim(line);
        if !starts_with(trimmed_line, "#") && contains(trimmed_line, "\"reentrant\"") && (contains(
            trimmed_line,
            "stylus-sdk",
        ) || contains(trimmed_line, "stylus_sdk")) {
            let finding = Finding::new(
                "deprecated-reentrancy-guard",
                severity_of(config, Severity::Medium),
                path,
                i + 1,
                1,
                "the stylus-sdk `reentrant` feature was deprecated in 0.10.5",
                "drop the feature. It blocks legitimate reentrant calls and the cache flushing it existed for now happens on every high level call.",
            );
            let ghost said = finding@;
            r.push(finding);
            assert(views(r@) =~= before + seq![said]);
        } else {
            assert(views(r@) =~= before + Seq::empty());
        }
    }
    assert(all.take(found@.len() as int) =~= all);
    r
}

/// The directory of the closest manifest above a file, among some manifests;
/// nothing where there is none.
pub open spec fn crate_root(file: Seq<PartView>, manifests: Seq<EntryView>) -> Seq<PartView> {
    manifests.fold_left(
        Seq::empty(),
        |closest: Seq<PartView>, manifest: EntryView| closer(file, closest, manifest),
    )
}

/// The directory of a manifest, where it lies above a file and closer to it
/// than another one; otherwise the other one.
pub open spec fn closer(
    file: Seq<PartView>,
    closest: Seq<PartView>,
    manifest: EntryView,
) -> Seq<PartView> {
    match parent(manifest.path.parts) {
        Some(directory) => if lies_under(file, directory) && directory.len() > closest.len() {
            directory
        } else {
            closest
        },
        None => closest,
    }
}

/// The crate a file belongs to: the closest manifest above it.
///
/// Everything under one manifest shares a contract model, and nothing crosses
/// between them.
pub fn crate_root_of(file: &FilePath, manifests: &Vec<Entry>) -> (r: Vec<Part>)
    ensures
        parts_view(r@) == crate_root(file@.parts, views(manifests@)),
{
    let ghost all = views(manifests@);
    let ghost step = |closest: Seq<PartView>, manifest: EntryView|
        closer(file@.parts, closest, manifest);
    let mut closest: Vec<Part> = Vec::new();
    assert(parts_view(closest@) =~= Seq::empty());
    for i in 0..manifests.len()
        invariant
            all == views(manifests@),
            step == (|closest: Seq<PartView>, manifest: EntryView|
                closer(file@.parts, closest, manifest)),
            parts_view(closest@) == all.take(i as int).fold_left(Seq::empty(), step),
    {
        let manifest = &manifests[i];
        proof {
            lemma_fold_step(all, Seq::empty(), step, i as int);
        }
        assert(all[i as int] == manifest@);
        assert(parts_view(closest@).len() == closest@.len());
        if let Some(directory) = manifest.path.parent() {
            assert(parts_view(directory@).len() == directory@.len());
            if file.is_under(directory) && directory.len() > closest.len() {
                closest = copy_parts(directory);
            }
        }
    }
    assert(all.take(manifests@.len() as int) =~= all);
    closest
}

/// A file that was read and parsed.
#[derive(Debug)]
pub struct ParsedFile {
    pub path: FilePath,
    pub text: String,
    pub file: Node,
}

/// The mathematical model of a [`ParsedFile`].
pub ghost struct ParsedView {
    pub path: PathView,
    pub text: Seq<char>,
    pub file: Tree,
}

impl View for ParsedFile {
    type V = ParsedView;

    open spec fn view(&self) -> ParsedView {
        ParsedView { path: self.path@, text: self.text@, file: self.file@ }
    }
}

/// What is known of the contract of a crate: what the files of the crate, and
/// no others, say about it, one after the other.
pub open spec fn contract_of(
    root: Seq<PartView>,
    files: Seq<ParsedView>,
    manifests: Seq<EntryView>,
) -> ContractView {
    files.fold_left(
        no_contract(),
        |contract: ContractView, file: ParsedView|
            taught(root, contract, file, manifests),
    )
}

/// What is known of the contract of a crate once one more file was read.
pub open spec fn taught(
    root: Seq<PartView>,
    contract: ContractView,
    file: ParsedView,
    manifests: Seq<EntryView>,
) -> ContractView {
    if crate_root(file.path.parts, manifests) == root {
        learned(contract, file.file)
    } else {
        contract
    }
}

/// A crate and what is known of its contract.
struct Crate {
    root: Vec<Part>,
    contract: Contract,
}

ghost struct CrateView {
    root: Seq<PartView>,
    contract: ContractView,
}

impl View for Crate {
    type V = CrateView;

    closed spec fn view(&self) -> CrateView {
        CrateView { root: parts_view(self.root@), contract: self.contract@ }
    }
}

/// What is known of a crate, among some crates.
spec fn known(crates: Seq<CrateView>, root: Seq<PartView>) -> ContractView
    decreases crates.len(),
{
    if crates.len() == 0 {
        no_contract()
    } else if crates[0].root == root {
        crates[0].contract
    } else {
        known(crates.drop_first(), root)
    }
}

/// Changing the first entry for a crate changes what is known of that crate only.
proof fn lemma_known_updated(
    crates: Seq<CrateView>,
    at: int,
    contract: ContractView,
    root: Seq<PartView>,
)
    requires
        0 <= at < crates.len(),
        forall|i: int| 0 <= i < at ==> (#[trigger] crates[i]).root != crates[at].root,
    ensures
        known(
            crates.update(at, CrateView { root: crates[at].root, contract }),
            root,
        ) == (if root == crates[at].root {
            contract
        } else {
            known(crates, root)
        }),
    decreases crates.len(),
{
    let changed = crates.update(at, CrateView { root: crates[at].root, contract });
    if at > 0 {
        let rest = crates.drop_first();
        assert(rest[at - 1] == crates[at]);
        assert forall|i: int| 0 <= i < at - 1 implies (#[trigger] rest[i]).root != rest[at
            - 1].root by {
            assert(rest[i] == crates[i + 1]);
        }
        lemma_known_updated(rest, at - 1, contract, root);
        assert(changed.drop_first() =~= rest.update(
            at - 1,
            CrateView { root: crates[at].root, contract },
        ));
    } else {
        assert(changed.drop_first() =~= crates.drop_first());
    }
}

/// A new entry says what is known of a crate that had none.
proof fn lemma_known_pushed(crates: Seq<CrateView>, fresh: CrateView, root: Seq<PartView>)
    requires
        forall|i: int| 0 <= i < crates.len() ==> (#[trigger] crates[i]).root != fresh.root,
    ensures
        known(crates.push(fresh), root) == (if root == fresh.root {
            fresh.contract
        } else {
            known(crates, root)
        }),
        known(crates, fresh.root) == no_contract(),
    decreases crates.len(),
{
    reveal_with_fuel(known, 2);
    if crates.len() > 0 {
        let rest = crates.drop_first();
        assert forall|i: int| 0 <= i < rest.len() implies (#[trigger] rest[i]).root
            != fresh.root by {
            assert(rest[i] == crates[i + 1]);
        }
        lemma_known_pushed(rest, fresh, root);
        assert(crates.push(fresh).drop_first() =~= rest.push(fresh));
    } else {
        assert(crates.push(fresh).drop_first() =~= crates);
    }
}

/// The first entry for a crate is the one that counts.
proof fn lemma_known_first(crates: Seq<CrateView>, at: int)
    requires
        0 <= at < crates.len(),
        forall|i: int| 0 <= i < at ==> (#[trigger] crates[i]).root != crates[at].root,
    ensures
        known(crates, crates[at].root) == crates[at].contract,
{
    lemma_known_updated(crates, at, crates[at].contract, crates[at].root);
    assert(crates.update(
        at,
        CrateView { root: crates[at].root, contract: crates[at].contract },
    ) =~= crates);
}

fn find_crate(crates: &Vec<Crate>, root: &Vec<Part>) -> (r: usize)
    ensures
        r <= crates@.len(),
        forall|i: int|
            0 <= i < r ==> (#[trigger] views(crates@)[i]).root != parts_view(root@),
        r < crates@.len() ==> views(crates@)[r as int].root == parts_view(root@),
{
    let mut at: usize = 0;
    while at < crates.len()
        invariant
            at <= crates@.len(),
            forall|i: int|
                0 <= i < at ==> (#[trigger] views(crates@)[i]).root != parts_view(root@),
        decreases crates@.len() - at,
    {
        assert(views(crates@)[at as int] == crates@[at as int]@);
        if same_parts(crates[at].root.as_slice(), root.as_slice()) {
            return at;
        }
        at = at + 1;
    }
    at
}

fn teach(crates: &mut Vec<Crate>, root: Vec<Part>, file: &Node)
    ensures
        forall|r: Seq<PartView>| #[trigger]
            known(views(final(crates)@), r) == (if r == parts_view(root@) {
                learned(known(views(old(crates)@), r), file@)
            } else {
                known(views(old(crates)@), r)
            }),
{
    let ghost before = views(crates@);
    let ghost told = parts_view(root@);
    let at = find_crate(crates, &root);
    if at < crates.len() {
        crates[at].contract.absorb(file);
        let ghost after = crates@[at as int].contract@;
        proof {
            assert(views(crates@) =~= before.update(
                at as int,
                CrateView { root: told, contract: after },
            ));
            lemma_known_first(before, at as int);
            assert forall|r: Seq<PartView>| #[trigger]
                known(views(crates@), r) == (if r == told {
                    learned(known(before, r), file@)
                } else {
                    known(before, r)
                }) by {
                lemma_known_updated(before, at as int, after, r);
            }
        }
    } else {
        let mut contract = Contract::default();
        contract.absorb(file);
        let ghost after = contract@;
        crates.push(Crate { root, contract });
        proof {
            let fresh = CrateView { root: told, contract: after };
            assert(views(crates@) =~= before.push(fresh));
            assert forall|r: Seq<PartView>| #[trigger]
                known(views(crates@), r) == (if r == told {
                    learned(known(before, r), file@)
                } else {
                    known(before, r)
                }) by {
                lemma_known_pushed(before, fresh, r);
            }
        }
    }
}

/// A finding with the severity that a project wants for its rule.
pub open spec fn ranked_as(finding: FindingView, severity: Option<Severity>) -> FindingView {
    match severity {
        Some(severity) => FindingView { severity, ..finding },
        None => finding,
    }
}

/// What one rule adds to the report for one file: nothing if it is switched off.
pub open spec fn findings_of(rule: AnyRule, file: Tree, ctx: CtxView, config: ConfigView) -> Seq<
    FindingView,
> {
    if config.disables(rule.named()) {
        Seq::empty()
    } else {
        rule.reports(file, ctx).map_values(
            |finding: FindingView| ranked_as(finding, config.overrides(rule.named())),
        )
    }
}

/// What is reported about one file, given what is known of its contract.
pub open spec fn findings_in_file(
    file: ParsedView,
    contract: ContractView,
    config: ConfigView,
) -> Seq<FindingView> {
    let ctx = CtxView { file: file.path, contract };
    all_rules().flat_map(|rule: AnyRule| findings_of(rule, file.file, ctx, config)) + (
    if config.disables(deprecated_guard()) {
        Seq::empty()
    } else {
        guards_in_source(file.path, file.text, config)
    })
}

/// What is reported about one manifest.
pub open spec fn findings_in_manifest(manifest: EntryView, config: ConfigView) -> Seq<FindingView> {
    match manifest.text {
        Ok(text) => if config.disables(deprecated_guard()) {
            Seq::empty()
        } else {
            guards_in_manifest(manifest.path, text, config)
        },
        Err(_) => Seq::empty(),
    }
}

/// Everything that is reported, file by file and then manifest by manifest.
/// Each file is checked against the contract of the crate it belongs to.
pub open spec fn all_findings(
    files: Seq<ParsedView>,
    manifests: Seq<EntryView>,
    config: ConfigView,
) -> Seq<FindingView> {
    files.flat_map(
        |file: ParsedView|
            findings_in_file(
                file,
                contract_of(crate_root(file.path.parts, manifests), files, manifests),
                config,
            ),
    ) + manifests.flat_map(|manifest: EntryView| findings_in_manifest(manifest, config))
}

fn run_rule(rule: &AnyRule, file: &Node, ctx: &Ctx, config: &Config) -> (r: Vec<Finding>)
    ensures
        views(r@) == findings_of(*rule, file@, ctx@, config@),
{
    let mut r: Vec<Finding> = Vec::new();
    if config.is_disabled(rule.id()) {
        assert(views(r@) =~= Seq::empty());
        return r;
    }
    let severity = config.severity_for(rule.id());
    let ghost all = rule.reports(file@, ctx@);
    let ghost turn = |finding: FindingView| ranked_as(finding, severity);
    for finding in it: rule.check(file, ctx)
        invariant
            all == views(it.seq()),
            turn == (|finding: FindingView| ranked_as(finding, severity)),
            views(r@) == all.take(it.index()).map_values(turn),
    {
        let ghost i = it.index();
        let ghost before = views(r@);
        let ghost said = finding@;
        assert(all[i] == said);
        let wanted = match severity {
            Some(severity) => severity,
            None => finding.severity,
        };
        let kept = Finding { severity: wanted, ..finding };
        assert(kept@ == ranked_as(said, severity));
        r.push(kept);
        assert(views(r@) =~= before.push(ranked_as(said, severity)));
        assert(views(r@) =~= all.take(i + 1).map_values(turn));
    }
    assert(all.take(all.len() as int) =~= all);
    r
}

fn check_file(file: &ParsedFile, contract: &Contract, config: &Config) -> (r: Vec<Finding>)
    ensures
        views(r@) == findings_in_file(file@, contract@, config@),
{
    let ctx = Ctx { file: &file.path, contract };
    let rules = all();
    let ghost told = all_rules();
    let ghost run = |rule: AnyRule| findings_of(rule, file@.file, ctx@, config@);
    let mut r: Vec<Finding> = Vec::new();
    assert(views(r@) =~= told.take(0).flat_map(run));
    for i in 0..rules.len()
        invariant
            rules@ == told,
            ctx@ == (CtxView { file: file@.path, contract: contract@ }),
            run == (|rule: AnyRule| findings_of(rule, file@.file, ctx@, config@)),
            views(r@) == told.take(i as int).flat_map(run),
    {
        let ghost before = r@;
        proof {
            told.lemma_flat_map_take_append(run, i as int);
        }
        let mut more = run_rule(&rules[i], &file.file, &ctx, config);
        let ghost added = more@;
        r.append(&mut more);
        assert(views(r@) =~= views(before) + views(added));
    }
    assert(told.take(rules@.len() as int) =~= told);
    let ghost before = r@;
    if !config.is_disabled("deprecated-reentrancy-guard") {
        let mut more = deprecated_guard_in_source(&file.path, file.text.as_str(), config);
        let ghost added = more@;
        r.append(&mut more);
        assert(views(r@) =~= views(before) + views(added));
    } else {
        assert(views(r@) =~= views(before) + Seq::empty());
    }
    r
}

fn check_manifest(manifest: &Entry, config: &Config) -> (r: Vec<Finding>)
    ensures
        views(r@) == findings_in_manifest(manifest@, config@),
{
    if !config.is_disabled("deprecated-reentrancy-guard") {
        if let Ok(text) = &manifest.text {
            return deprecated_guard_in_manifest(&manifest.path, text.as_str(), config);
        }
    }
    let r: Vec<Finding> = Vec::new();
    assert(views(r@) =~= Seq::empty());
    r
}

/// Checks files that were read and parsed, and the manifests they belong to.
///
/// The contracts are learned from every file first and the rules run
/// afterwards, because `sol_storage!` and `sol_interface!` need not live in the
/// file that uses them, and a rule that has not read them yet would guess.
///
/// There is one model per crate, not one per run. A repository can hold many
/// contracts, and merging their storage produces a model that belongs to none
/// of them: a rule then reports a function for not reading an owner field that
/// lives in somebody else's contract.
pub fn check_files(files: &Vec<ParsedFile>, manifests: &Vec<Entry>, config: &Config) -> (r: Vec<
    Finding,
>)
    ensures
        views(r@) == all_findings(views(files@), views(manifests@), config@),
{
    let ghost all = views(files@);
    let ghost listed = views(manifests@);
    let mut crates: Vec<Crate> = Vec::new();
    assert(views(crates@) =~= Seq::empty());
    for i in 0..files.len()
        invariant
            all == views(files@),
            listed == views(manifests@),
            forall|root: Seq<PartView>| #[trigger]
                known(views(crates@), root) == contract_of(root, all.take(i as int), listed),
    {
        let file = &files[i];
        assert(all[i as int] == file@);
        let ghost before = views(crates@);
        let root = crate_root_of(&file.path, manifests);
        teach(&mut crates, root, &file.file);
        assert forall|root: Seq<PartView>| #[trigger]
            known(views(crates@), root) == contract_of(root, all.take(i + 1), listed) by {
            let step = |contract: ContractView, file: ParsedView|
                taught(root, contract, file, listed);
            lemma_fold_step(all, no_contract(), step, i as int);
            assert(known(before, root) == contract_of(root, all.take(i as int), listed));
        }
    }
    assert(all.take(files@.len() as int) =~= all);

    let fallback = Contract::default();
    let ghost tell = |file: ParsedView|
        findings_in_file(
            file,
            contract_of(crate_root(file.path.parts, listed), all, listed),
            config@,
        );
    let mut r: Vec<Finding> = Vec::new();
    assert(views(r@) =~= all.take(0).flat_map(tell));
    for i in 0..files.len()
        invariant
            all == views(files@),
            listed == views(manifests@),
            fallback@ == no_contract(),
            forall|root: Seq<PartView>| #[trigger]
                known(views(crates@), root) == contract_of(root, all, listed),
            tell == (|file: ParsedView|
                findings_in_file(
                    file,
                    contract_of(crate_root(file.path.parts, listed), all, listed),
                    config@,
                )),
            views(r@) == all.take(i as int).flat_map(tell),
    {
        let file = &files[i];
        let ghost before = r@;
        proof {
            all.lemma_flat_map_take_append(tell, i as int);
        }
        assert(all[i as int] == file@);
        let root = crate_root_of(&file.path, manifests);
        let at = find_crate(&crates, &root);
        let contract = if at < crates.len() { &crates[at].contract } else { &fallback };
        proof {
            if at < crates@.len() {
                lemma_known_first(views(crates@), at as int);
                assert(views(crates@)[at as int] == crates@[at as int]@);
            } else {
                lemma_known_pushed(
                    views(crates@),
                    CrateView { root: parts_view(root@), contract: no_contract() },
                    parts_view(root@),
                );
            }
            assert(contract@ == known(views(crates@), parts_view(root@)));
        }
        let mut more = check_file(file, contract, config);
        let ghost added = more@;
        r.append(&mut more);
        assert(views(r@) =~= views(before) + views(added));
    }
    assert(all.take(files@.len() as int) =~= all);

    let ghost from_files = views(r@);
    let ghost inspect = |manifest: EntryView| findings_in_manifest(manifest, config@);
    assert(views(r@) =~= from_files + listed.take(0).flat_map(inspect));
    for i in 0..manifests.len()
        invariant
            listed == views(manifests@),
            inspect == (|manifest: EntryView| findings_in_manifest(manifest, config@)),
            views(r@) == from_files + listed.take(i as int).flat_map(inspect),
    {
        let ghost before = r@;
        proof {
            listed.lemma_flat_map_take_append(inspect, i as int);
        }
        assert(listed[i as int] == manifests@[i as int]@);
        let mut more = check_manifest(&manifests[i], config);
        let ghost added = more@;
        r.append(&mut more);
        assert(views(r@) =~= views(before) + views(added));
        assert(views(r@) =~= from_files + (listed.take(i as int).flat_map(inspect) + views(added)));
    }
    assert(listed.take(manifests@.len() as int) =~= listed);
    r
}

/// The file that an entry is, where it can be read and parsed.
pub open spec fn parsed_entry(entry: EntryView) -> Option<ParsedView> {
    match entry.text {
        Ok(text) => match parsed(text) {
            Ok(file) => Some(ParsedView { path: entry.path, text, file }),
            Err(_) => None,
        },
        Err(_) => None,
    }
}

/// Why an entry is skipped, where it cannot be read or parsed.
pub open spec fn skipped_entry(entry: EntryView) -> Option<SkippedView> {
    match entry.text {
        Ok(text) => match parsed(text) {
            Ok(_) => None,
            Err(reason) => Some(SkippedView { file: entry.path, reason }),
        },
        Err(reason) => Some(SkippedView { file: entry.path, reason }),
    }
}

/// The files that can be read and parsed, in order.
pub open spec fn parsed_files(files: Seq<EntryView>) -> Seq<ParsedView> {
    files.filter_map(|entry: EntryView| parsed_entry(entry))
}

/// The files that cannot, in order.
pub open spec fn skipped_files(files: Seq<EntryView>) -> Seq<SkippedView> {
    files.filter_map(|entry: EntryView| skipped_entry(entry))
}

/// What is reported about some files and manifests, before it is sorted.
pub open spec fn unsorted_report(
    files: Seq<EntryView>,
    manifests: Seq<EntryView>,
    config: ConfigView,
) -> ReportView {
    ReportView {
        findings: all_findings(parsed_files(files), manifests, config),
        skipped: skipped_files(files),
        files_checked: parsed_files(files).len() as usize,
    }
}

/// True when a report is that of the sources among what was found.
pub open spec fn reports_on(report: ReportView, found: Seq<EntryView>, config: ConfigView) -> bool {
    exists|files: Seq<EntryView>, manifests: Seq<EntryView>|
        {
            &&& #[trigger] arranged::<Entry>(sources_among(found), files)
            &&& #[trigger] arranged::<Entry>(manifests_among(found), manifests)
            &&& sorted(unsorted_report(files, manifests, config), report)
        }
}

/// Checks everything that was found under `root`.
///
/// # Errors
/// Returns [`NotStylus`] when the path holds no Stylus code to check.
pub fn check(root: &FilePath, found: Option<Vec<Entry>>, config: &Config) -> (r: Result<
    Report,
    NotStylus,
>)
    ensures
        match r {
            Ok(report) => refusal(root@, found_view(found)) is None && reports_on(
                report@,
                found_view(found).unwrap(),
                config@,
            ),
            Err(why) => refusal(root@, found_view(found)) == Some(why@),
        },
{
    let ghost given = found_view(found);
    let sources = match collect(root, found) {
        Ok(sources) => sources,
        Err(why) => {
            return Err(why);
        },
    };
    let ghost all = sources@.files;
    let ghost take_in = |entry: EntryView| parsed_entry(entry);
    let ghost pass_over = |entry: EntryView| skipped_entry(entry);
    let mut files: Vec<ParsedFile> = Vec::new();
    let mut skipped: Vec<SkippedFile> = Vec::new();
    assert(views(files@) =~= all.take(0).filter_map(take_in));
    assert(views(skipped@) =~= all.take(0).filter_map(pass_over));
    for entry in it: sources.files
        invariant
            all == views(it.seq()),
            take_in == (|entry: EntryView| parsed_entry(entry)),
            pass_over == (|entry: EntryView| skipped_entry(entry)),
            views(files@) == all.take(it.index()).filter_map(take_in),
            views(skipped@) == all.take(it.index()).filter_map(pass_over),
    {
        let ghost i = it.index();
        let ghost some_files = views(files@);
        let ghost some_skipped = views(skipped@);
        proof {
            all.lemma_filter_map_take_succ(take_in, i);
            all.lemma_filter_map_take_succ(pass_over, i);
        }
        assert(all[i] == entry@);
        match entry.text {
            Ok(text) => {
                match parse(text.as_str()) {
                    Ok(file) => {
                        let kept = ParsedFile { path: entry.path, text, file };
                        let ghost told = kept@;
                        files.push(kept);
                        assert(views(files@) =~= some_files + seq![told]);
                        assert(views(skipped@) =~= some_skipped + Seq::empty());
                    },
                    Err(reason) => {
                        // One unparseable file must not stop the rest. Half a
                        // report beats no report, as long as the gap is stated.
                        let passed = SkippedFile { file: entry.path, reason };
                        let ghost told = passed@;
                        skipped.push(passed);
                        assert(views(skipped@) =~= some_skipped + seq![told]);
                        assert(views(files@) =~= some_files + Seq::empty());
                    },
                }
            },
            Err(reason) => {
                let passed = SkippedFile { file: entry.path, reason };
                let ghost told = passed@;
                skipped.push(passed);
                assert(views(skipped@) =~= some_skipped + seq![told]);
                assert(views(files@) =~= some_files + Seq::empty());
            },
        }
    }
    assert(all.take(all.len() as int) =~= all);
    assert(files@.len() == parsed_files(all).len());
    let findings = check_files(&files, &sources.manifests, config);
    let mut report = Report { findings, skipped, files_checked: files.len() };
    assert(report@ == unsorted_report(all, sources@.manifests, config@));
    report.sort();
    assert(reports_on(report@, given.unwrap(), config@));
    Ok(report)
}

/// The ids of the rules, the one that reads text behind those that read syntax.
pub open spec fn ids() -> Seq<Seq<char>> {
    all_rules().map_values(|rule: AnyRule| rule.named()).push(deprecated_guard())
}

/// The rule ids, including the ones that read manifests rather than syntax.
#[must_use]
pub fn rule_ids() -> (r: Vec<&'static str>)
    ensures
        arranged::<&'static str>(ids(), views(r@)),
{
    let rules = all();
    let mut r: Vec<&'static str> = Vec::new();
    for i in 0..rules.len()
        invariant
            rules@ == all_rules(),
            views(r@) == all_rules().take(i as int).map_values(|rule: AnyRule| rule.named()),
    {
        let ghost before = views(r@);
        let id = rules[i].id();
        r.push(id);
        assert(views(r@) =~= before.push(id@));
        assert(views(r@) =~= all_rules().take(i + 1).map_values(|rule: AnyRule| rule.named()));
    }
    assert(all_rules().take(rules@.len() as int) =~= all_rules());
    let ghost before = views(r@);
    r.push("deprecated-reentrancy-guard");
    assert(views(r@) =~= before.push(deprecated_guard()));
    arrange(&mut r);
    r
}

} // verus!
