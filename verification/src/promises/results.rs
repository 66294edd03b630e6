//! What is promised of what the functions hand back, in terms of what they were
//! given.

use super::source::lemma_kept_from;
use crate::config::{fault, Config, ConfigError, ConfigFile, ErrorView};
use crate::declarations::{
    methods_in, parse_interface_methods, parse_storage, snake, storage_in, strip_attributes,
    stripped, to_snake_case, ExternalMethod, StorageField,
};
use crate::discover::{
    collect, declares_a_contract, declares_stylus_sdk, depends_on_the_sdk, found_view, ignored,
    is_a_contract, is_a_manifest, is_a_source, is_ignored_dir, is_manifest, is_source,
    manifests_among, refusal, sources_among, Entry, NotStylus, Sources,
};
use crate::finding::{
    borrowed, exit_code, serious, severity_name, severity_written, weight, Finding, FindingView,
    Report, Severity,
};
use crate::model::{grows, type_width, Contract};
use crate::order::{arranged, law_arranging_only_moves, views};
use crate::path::{file_name, lies_under, parent, parts_view, path_before, FilePath, Part};
use crate::render::{format_written, report_text, sarif, sarif_view, text, Format, SarifDocument};
use crate::rules::{
    all, all_rules, attributed, changes_self, contract_impls, entrypoints, external_call,
    functions_in, has_attribute, impl_blocks, is_test_only, leaves, mutates_self, position,
    public_impls, storage_write, test_only, touched, touched_fields, written_field, AnyRule, Ctx,
    ExternalCall, Rule,
};
use crate::run::{
    all_findings, check, check_files, crate_root, crate_root_of, deprecated_guard_in_manifest,
    deprecated_guard_in_source, guards_in_manifest, guards_in_source, ids, reports_on, rule_ids,
    ParsedFile,
};
use crate::syntax::{parse, parsed, trees, Node, Place, Tree};
use crate::text::{slices, text_before, texts};
use vstd::prelude::*;

verus! {

/// The exit code is one where something reaches the threshold, and zero where
/// nothing does.
pub proof fn law_the_exit_code(report: &Report, threshold: Severity, code: u8)
    requires
        call_ensures(exit_code, (report, threshold), code),
    ensures
        code == 0 || code == 1,
        code == 1 <==> exists|i: int|
            0 <= i < report@.findings.len() && match threshold {
                Severity::Low => true,
                Severity::Medium => (#[trigger] report@.findings[i]).severity != Severity::Low,
                Severity::High => report@.findings[i].severity == Severity::High,
            },
{
    let all = report@.findings;
    let heavy = |f: FindingView| weight(f.severity) >= weight(threshold);
    let at = lemma_kept_from(all, heavy);
    assert(serious(all, threshold) == all.filter(heavy));
    if code == 1 {
        assert(0 <= at[0] < all.len() && heavy(all[at[0]]));
    }
    if exists|i: int|
        0 <= i < all.len() && match threshold {
            Severity::Low => true,
            Severity::Medium => (#[trigger] all[i]).severity != Severity::Low,
            Severity::High => all[i].severity == Severity::High,
        } {
        let i = choose|i: int|
            0 <= i < all.len() && match threshold {
                Severity::Low => true,
                Severity::Medium => (#[trigger] all[i]).severity != Severity::Low,
                Severity::High => all[i].severity == Severity::High,
            };
        assert(heavy(all[i]));
        assert(at.contains(i));
    }
}

/// A config that is not there asks for nothing, one that cannot be read or parsed
/// is refused with the reason, and one that was read is kept as it is unless
/// something is wrong with it.
pub proof fn law_loading_a_config(
    file: ConfigFile,
    known: &[&'static str],
    r: Result<Config, ConfigError>,
)
    requires
        call_ensures(Config::load, (file, known), r),
    ensures
        file is Absent ==> r is Ok && r->Ok_0@.disable.len() == 0 && r->Ok_0@.severity.len() == 0,
        file matches ConfigFile::Unreadable(why) ==> r is Err && r->Err_0@
            == ErrorView::Unreadable(why@),
        file matches ConfigFile::Malformed(why) ==> r is Err && r->Err_0@ == ErrorView::Malformed(
            why@,
        ),
        file matches ConfigFile::Read(config) ==> {
            &&& r is Ok <==> fault(config@, slices(known@)) is None
            &&& r is Ok ==> r->Ok_0 == config
            &&& r is Err ==> fault(config@, slices(known@)) == Some(r->Err_0@)
        },
{
}

/// A config says which rules it switches off and how it weighs a rule, and is
/// validated by what is wrong with it.
pub proof fn law_asking_a_config(
    config: &Config,
    rule: &str,
    known: &[&'static str],
    off: bool,
    severity: Option<Severity>,
    valid: Result<(), ConfigError>,
)
    requires
        call_ensures(Config::is_disabled, (config, rule), off),
        call_ensures(Config::severity_for, (config, rule), severity),
        call_ensures(Config::validate, (config, known), valid),
    ensures
        off <==> exists|k: int| 0 <= k < config@.disable.len() && config@.disable[k] == rule@,
        severity == config@.overrides(rule@),
        valid is Ok <==> fault(config@, slices(known@)) is None,
        valid is Err ==> fault(config@, slices(known@)) == Some(valid->Err_0@),
{
}

/// What goes wrong is told in the words that belong to it.
pub proof fn law_what_is_told(
    error: &ConfigError,
    why: &NotStylus,
    of_config: String,
    of_path: String,
)
    requires
        call_ensures(ConfigError::message, (error,), of_config),
        call_ensures(NotStylus::message, (why,), of_path),
    ensures
        of_config@ == error@.told(),
        of_path@ == why@.told(),
{
}

/// A text is read as the severity and as the format that it writes, and a
/// severity gives back its name.
pub proof fn law_reading_words(
    word: &str,
    level: Severity,
    severity: Option<Severity>,
    format: Option<Format>,
    name: &'static str,
)
    requires
        call_ensures(Severity::parse, (word,), severity),
        call_ensures(Format::parse, (word,), format),
        call_ensures(Severity::as_str, (level,), name),
    ensures
        severity == severity_written(word@),
        format == format_written(word@),
        name@ == severity_name(level),
{
}

/// What reaches a threshold is handed back in the order in which it was found.
pub proof fn law_reaching_a_threshold(report: &Report, threshold: Severity, r: Vec<&Finding>)
    requires
        call_ensures(Report::at_or_above, (report, threshold), r),
    ensures
        borrowed(r@) == serious(report@.findings, threshold),
{
}

/// A finding holds what it was made of.
pub proof fn law_making_a_finding(
    rule: &'static str,
    severity: Severity,
    file: &FilePath,
    line: usize,
    column: usize,
    message: &str,
    suggestion: &str,
    r: Finding,
)
    requires
        call_ensures(
            Finding::new,
            (rule, severity, file, line, column, message, suggestion),
            r,
        ),
    ensures
        r@.rule == rule@,
        r@.severity == severity,
        r@.file == file@,
        r@.line == line,
        r@.column == column,
        r@.message == message@,
        r@.suggestion == suggestion@,
{
}

/// A path says what it leads to, where that lies, and what it lies under.
pub proof fn law_asking_a_path(
    path: &FilePath,
    other: &FilePath,
    directory: &[Part],
    name: Option<&str>,
    above: Option<&[Part]>,
    under: bool,
    first: bool,
)
    requires
        call_ensures(FilePath::file_name, (path,), name),
        call_ensures(FilePath::parent, (path,), above),
        call_ensures(FilePath::is_under, (path, directory), under),
        call_ensures(FilePath::before, (path, other), first),
    ensures
        name is Some <==> file_name(path@.parts) is Some,
        name is Some ==> file_name(path@.parts) == Some(name.unwrap()@),
        above is Some <==> parent(path@.parts) is Some,
        above is Some ==> parent(path@.parts) == Some(parts_view(above.unwrap()@)),
        under == lies_under(path@.parts, parts_view(directory@)),
        first == path_before(path@.parts, other@.parts),
{
}

/// Paths, manifests and sources are told apart by what they are.
pub proof fn law_telling_files_apart(
    path: &FilePath,
    manifest: &str,
    file: &Node,
    of_manifest: bool,
    of_source: bool,
    skipped: bool,
    depends: bool,
    declares: bool,
)
    requires
        call_ensures(is_a_manifest, (path,), of_manifest),
        call_ensures(is_a_source, (path,), of_source),
        call_ensures(is_ignored_dir, (path,), skipped),
        call_ensures(declares_stylus_sdk, (manifest,), depends),
        call_ensures(declares_a_contract, (file,), declares),
    ensures
        of_manifest == is_manifest(path@),
        of_source == is_source(path@),
        skipped == ignored(path@),
        depends == depends_on_the_sdk(manifest@),
        declares == is_a_contract(file@),
{
}

/// What was found is refused with the reason, or its sources and its manifests
/// are handed back, all of them, in the order of their paths.
pub proof fn law_collecting(
    root: &FilePath,
    found: Option<Vec<Entry>>,
    r: Result<Sources, NotStylus>,
)
    requires
        call_ensures(collect, (root, found), r),
    ensures
        r is Ok <==> refusal(root@, found_view(found)) is None,
        r is Err ==> refusal(root@, found_view(found)) == Some(r->Err_0@),
        r is Ok && found is Some ==> {
            &&& arranged::<Entry>(sources_among(views(found.unwrap()@)), r->Ok_0@.files)
            &&& arranged::<Entry>(manifests_among(views(found.unwrap()@)), r->Ok_0@.manifests)
        },
{
}

/// A run refuses what is to be refused, with the reason, and reports on the rest.
pub proof fn law_checking(
    root: &FilePath,
    found: Option<Vec<Entry>>,
    config: &Config,
    r: Result<Report, NotStylus>,
)
    requires
        call_ensures(check, (root, found, config), r),
    ensures
        r is Ok <==> refusal(root@, found_view(found)) is None,
        r is Err ==> refusal(root@, found_view(found)) == Some(r->Err_0@),
        r is Ok && found is Some ==> reports_on(
            r->Ok_0@,
            views(found.unwrap()@),
            config@,
        ),
{
}

/// The files of a project are checked together, and a file belongs to the
/// directory of the manifest that is closest to it.
pub proof fn law_checking_files(
    files: &Vec<ParsedFile>,
    manifests: &Vec<Entry>,
    config: &Config,
    file: &FilePath,
    r: Vec<Finding>,
    root: Vec<Part>,
)
    requires
        call_ensures(check_files, (files, manifests, config), r),
        call_ensures(crate_root_of, (file, manifests), root),
    ensures
        views(r@) == all_findings(views(files@), views(manifests@), config@),
        parts_view(root@) == crate_root(file@.parts, views(manifests@)),
{
}

/// The deprecated guard is looked for in sources and in manifests.
pub proof fn law_looking_for_the_guard(
    path: &FilePath,
    source: &str,
    config: &Config,
    in_source: Vec<Finding>,
    in_manifest: Vec<Finding>,
)
    requires
        call_ensures(deprecated_guard_in_source, (path, source, config), in_source),
        call_ensures(deprecated_guard_in_manifest, (path, source, config), in_manifest),
    ensures
        views(in_source@) == guards_in_source(path@, source@, config@),
        views(in_manifest@) == guards_in_manifest(path@, source@, config@),
{
}

/// The rules are those that there are, and their ids are given in the order of
/// their characters, each as often as there is a rule of that name.
pub proof fn law_listing_the_rules(rules: Vec<AnyRule>, names: Vec<&'static str>)
    requires
        call_ensures(all, (), rules),
        call_ensures(rule_ids, (), names),
    ensures
        rules@ == all_rules(),
        arranged::<&'static str>(ids(), views(names@)),
        names@.len() == ids().len(),
        forall|i: int, j: int|
            0 <= i < j < names@.len() ==> !text_before(
                (#[trigger] names@[j])@,
                (#[trigger] names@[i])@,
            ),
        views(names@).to_multiset() == ids().to_multiset(),
{
    let shown = views(names@);
    assert forall|i: int, j: int| 0 <= i < j < names@.len() implies !text_before(
        (#[trigger] names@[j])@,
        (#[trigger] names@[i])@,
    ) by {
        assert(shown[i] == names@[i]@ && shown[j] == names@[j]@);
    }
    law_arranging_only_moves::<&'static str>(ids(), shown);
}

/// A rule says what it is called, what it is for and how heavy it is, and reports
/// what it has to report.
pub proof fn law_asking_a_rule<R: Rule>(
    rule: &R,
    file: &Node,
    ctx: &Ctx,
    id: &'static str,
    description: &'static str,
    severity: Severity,
    r: Vec<Finding>,
)
    requires
        call_ensures(R::id, (rule,), id),
        call_ensures(R::description, (rule,), description),
        call_ensures(R::severity, (rule,), severity),
        call_ensures(R::check, (rule, file, ctx), r),
    ensures
        id@ == rule.named(),
        description@ == rule.described(),
        severity == rule.weighs(),
        views(r@) == rule.reports(file@, ctx@),
{
}

/// A report is printed in full, and shown in full as a document.
pub proof fn law_showing_a_report(
    report: &Report,
    threshold: Severity,
    rules: &[(&str, &str)],
    printed: String,
    document: SarifDocument,
)
    requires
        call_ensures(text, (report, threshold), printed),
        call_ensures(sarif, (report, rules), document),
    ensures
        printed@ == report_text(report@, threshold),
        document@ == sarif_view(report@, rules@),
{
}

/// A text is parsed into the tree that it has, or refused with the reason.
pub proof fn law_parsing(source: &str, r: Result<Node, String>)
    requires
        call_ensures(parse, (source,), r),
    ensures
        r is Ok <==> parsed(source@) is Ok,
        r is Ok ==> parsed(source@) == Ok::<Tree, Seq<char>>(r->Ok_0@),
        r is Err ==> parsed(source@) == Err::<Tree, Seq<char>>(r->Err_0@),
{
}

/// What a macro declares is read from its body.
pub proof fn law_reading_declarations(
    body: &str,
    name: &str,
    bare: String,
    fields: Vec<StorageField>,
    methods: Vec<ExternalMethod>,
    spelled: String,
)
    requires
        call_ensures(strip_attributes, (body,), bare),
        call_ensures(parse_storage, (body,), fields),
        call_ensures(parse_interface_methods, (body,), methods),
        call_ensures(to_snake_case, (name,), spelled),
    ensures
        bare@ == stripped(body@),
        views(fields@) == storage_in(body@),
        views(methods@) == methods_in(body@),
        spelled@ == snake(name@),
{
}

/// A field says how wide it is, whether callers can make it grow, and whether it
/// is a lock or an authority.
pub proof fn law_asking_a_field(
    field: &StorageField,
    bits: Option<u32>,
    dynamic: bool,
    guard: bool,
    authority: bool,
)
    requires
        call_ensures(StorageField::int_bits, (field,), bits),
        call_ensures(StorageField::is_dynamic, (field,), dynamic),
        call_ensures(StorageField::looks_like_a_guard, (field,), guard),
        call_ensures(StorageField::looks_like_an_authority, (field,), authority),
    ensures
        bits == type_width(field@.sol_type),
        dynamic == grows(field@.sol_type),
        guard == field@.is_guard(),
        authority == field@.is_authority(),
{
}

/// A contract finds its fields and the functions of its interfaces by their
/// names, and lists its authorities.
pub proof fn law_asking_a_contract(
    contract: &Contract,
    name: &str,
    field: Option<&StorageField>,
    method: Option<&ExternalMethod>,
    guarded: bool,
    names: Vec<String>,
)
    requires
        call_ensures(Contract::field, (contract, name), field),
        call_ensures(Contract::external_method, (contract, name), method),
        call_ensures(Contract::has_an_authority, (contract,), guarded),
        call_ensures(Contract::authorities, (contract,), names),
    ensures
        field is Some <==> contract@.field(name@) is Some,
        field is Some ==> contract@.field(name@) == Some(field.unwrap()@),
        method is Some <==> contract@.method(name@) is Some,
        method is Some ==> contract@.method(name@) == Some(method.unwrap()@),
        guarded == contract@.has_authority(),
        texts(names@) == contract@.authorities(),
{
}

/// The parts of a file that are looked at are handed back in source order.
pub proof fn law_asking_a_file(
    file: &Node,
    name: &str,
    at: Place,
    shown: (usize, usize),
    has: bool,
    for_tests: bool,
    public: Vec<&Node>,
    every: Vec<&Node>,
    functions: Vec<&Node>,
    changes: bool,
)
    requires
        call_ensures(position, (at,), shown),
        call_ensures(has_attribute, (file, name), has),
        call_ensures(is_test_only, (file,), for_tests),
        call_ensures(public_impls, (file,), public),
        call_ensures(contract_impls, (file,), every),
        call_ensures(entrypoints, (file,), functions),
        call_ensures(mutates_self, (file,), changes),
    ensures
        shown.0 == at.line,
        at.column < usize::MAX ==> shown.1 == at.column + 1,
        has == attributed(file@, name@),
        for_tests == test_only(file@),
        trees(public@) == impl_blocks(file@, true),
        trees(every@) == impl_blocks(file@, false),
        trees(functions@) == functions_in(file@),
        changes == changes_self(file@),
{
}

/// An expression is recognised as a write to storage, as a call to another
/// contract, and by the fields that it names.
pub proof fn law_asking_an_expression(
    expr: &Node,
    contract: &Contract,
    written: Option<&StorageField>,
    call: Option<ExternalCall>,
    names: Vec<String>,
)
    requires
        call_ensures(storage_write, (expr, contract), written),
        call_ensures(external_call, (expr, contract), call),
        call_ensures(touched_fields, (expr,), names),
    ensures
        written is Some <==> written_field(expr@, contract@) is Some,
        written is Some ==> written_field(expr@, contract@) == Some(written.unwrap()@),
        call is Some <==> leaves(expr@, contract@) is Some,
        call is Some ==> leaves(expr@, contract@) == Some(call.unwrap()@),
        texts(names@) == touched(expr@),
{
}

} // verus!
