//! What is promised of what a project is and what it asks for.

use super::words::{
    bare, closes_with, in_small_letters, law_holding_is_having, lemma_one_lowering, starts,
};
use crate::config::{
    fault, first_unknown, first_unreadable, no_wishes, setting, ConfigView, ErrorView,
};
use crate::discover::{
    declares, depends_on_the_sdk, holds_a_contract, ignored, is_a_contract, is_manifest, is_source,
    is_stylus, manifests_among, marks_a_contract, names_the_sdk, refusal, sources_among, EntryView,
    RefusalView,
};
use crate::finding::{severity_name, severity_written, weight, Severity};
use crate::path::{
    file_name, lies_under, parent, part_before, path_before, FilePath, PartView, PathView,
};
use crate::order::Ranked;
use crate::rules::attributed;
use crate::syntax::{nodes, parsed, Tree};
use crate::text::{joined, lines, text_before};
use std::cmp::Ordering;
use vstd::prelude::*;
use vstd::std_specs::cmp::PartialOrdSpec;

verus! {

/// A severity is written by its name, or as `med`, in any case and with white
/// space around it or not, and in no other way.
pub proof fn law_how_a_severity_is_written(text: Seq<char>, inner: Seq<char>, word: Seq<char>)
    requires
        bare(text, inner),
        in_small_letters(inner, word),
    ensures
        severity_written(text) == Some(Severity::Low) <==> word == "low"@,
        severity_written(text) == Some(Severity::Medium) <==> word == "medium"@ || word == "med"@,
        severity_written(text) == Some(Severity::High) <==> word == "high"@,
        severity_written(text) is None <==> word != "low"@ && word != "medium"@ && word != "med"@
            && word != "high"@,
{
    super::model::lemma_plain(text, inner);
    lemma_one_lowering(inner, word);
    reveal_strlit("low");
    reveal_strlit("medium");
    reveal_strlit("med");
    reveal_strlit("high");
    assert("low"@.len() == 3 && "med"@.len() == 3 && "high"@.len() == 4 && "medium"@.len() == 6);
    assert("low"@[0] == 'l' && "med"@[0] == 'm');
}

/// Severities are named and weigh as they are called.
pub proof fn law_severities()
    ensures
        severity_name(Severity::Low) == "low"@,
        severity_name(Severity::Medium) == "medium"@,
        severity_name(Severity::High) == "high"@,
        weight(Severity::Low) < weight(Severity::Medium) < weight(Severity::High),
{
}

/// One severity is less than another exactly when it stands before it in `Low`,
/// `Medium`, `High`, and as much as another exactly when it is the same.
pub proof fn law_how_severities_compare(a: Severity, b: Severity)
    ensures
        Severity::obeys_partial_cmp_spec(),
        a.partial_cmp_spec(&b) == Some(Ordering::Less) <==> a is Low && b !is Low || a is Medium
            && b is High,
        a.partial_cmp_spec(&b) == Some(Ordering::Equal) <==> a == b,
        a.partial_cmp_spec(&b) is Some,
{
}

/// True for the first setting of a rule.
pub open spec fn first_setting(
    severity: Seq<(Seq<char>, Seq<char>)>,
    rule: Seq<char>,
    i: int,
) -> bool {
    &&& 0 <= i < severity.len()
    &&& severity[i].0 == rule
    &&& forall|j: int| 0 <= j < i ==> (#[trigger] severity[j]).0 != rule
}

/// A rule has the severity that it is first set to, where that can be read, and
/// none where it is not set. It is switched off exactly when it is listed.
pub proof fn law_what_a_config_asks_for(config: ConfigView, rule: Seq<char>, i: int)
    ensures
        first_setting(config.severity, rule, i) ==> config.overrides(rule) == severity_written(
            config.severity[i].1,
        ),
        (forall|k: int| !first_setting(config.severity, rule, k)) ==> config.overrides(rule)
            is None,
        config.disables(rule) <==> exists|k: int|
            0 <= k < config.disable.len() && config.disable[k] == rule,
        no_wishes().disable.len() == 0,
        no_wishes().severity.len() == 0,
{
    lemma_first_setting(config.severity, rule);
}

proof fn lemma_first_setting(severity: Seq<(Seq<char>, Seq<char>)>, rule: Seq<char>)
    ensures
        forall|i: int| #[trigger]
            first_setting(severity, rule, i) ==> setting(severity, rule) == Some(severity[i].1),
        setting(severity, rule) is Some ==> exists|i: int| first_setting(severity, rule, i),
    decreases severity.len(),
{
    if severity.len() > 0 {
        let rest = severity.drop_first();
        lemma_first_setting(rest, rule);
        assert(forall|i: int| 0 <= i < rest.len() ==> #[trigger] rest[i] == severity[i + 1]);
        if severity[0].0 == rule {
            assert(first_setting(severity, rule, 0));
            assert forall|i: int| #[trigger] first_setting(severity, rule, i) implies i == 0 by {
                if i > 0 {
                    assert(severity[0].0 != rule);
                }
            }
        } else {
            assert forall|i: int| #[trigger] first_setting(severity, rule, i) implies setting(
                severity,
                rule,
            ) == Some(severity[i].1) by {
                assert(first_setting(rest, rule, i - 1)) by {
                    assert forall|j: int| 0 <= j < i - 1 implies (#[trigger] rest[j]).0 != rule by {
                        assert(severity[j + 1].0 != rule);
                    }
                }
            }
            if setting(rest, rule) is Some {
                let k = choose|k: int| first_setting(rest, rule, k);
                assert(first_setting(severity, rule, k + 1)) by {
                    assert forall|j: int| 0 <= j < k + 1 implies (#[trigger] severity[j]).0
                        != rule by {
                        if j > 0 {
                            assert(rest[j - 1].0 != rule);
                        }
                    }
                }
            }
        }
    }
}

/// True for the first rule that a config mentions and that does not exist, those
/// it switches off coming before those it sets.
pub open spec fn first_stranger(
    config: ConfigView,
    known: Seq<Seq<char>>,
    rule: Seq<char>,
) -> bool {
    let n = config.disable.len();
    ||| exists|i: int|
        {
            &&& 0 <= i < n
            &&& #[trigger] config.disable[i] == rule
            &&& !known.contains(rule)
            &&& forall|j: int| 0 <= j < i ==> known.contains(#[trigger] config.disable[j])
        }
    ||| (forall|j: int| 0 <= j < n ==> known.contains(#[trigger] config.disable[j])) && exists|
        i: int,
    |
        {
            &&& 0 <= i < config.severity.len()
            &&& (#[trigger] config.severity[i]).0 == rule
            &&& !known.contains(rule)
            &&& forall|j: int| 0 <= j < i ==> known.contains((#[trigger] config.severity[j]).0)
        }
}

/// A config is refused for the first rule that it mentions and that does not
/// exist, with the rules that do; and where there is none, for the first severity
/// that is not one. Otherwise it is accepted.
pub proof fn law_what_a_config_is_refused_for(
    config: ConfigView,
    known: Seq<Seq<char>>,
    rule: Seq<char>,
    i: int,
)
    ensures
        first_stranger(config, known, rule) ==> fault(config, known) == Some(
            ErrorView::UnknownRule { rule, known },
        ),
        (forall|other: Seq<char>| !first_stranger(config, known, other)) && 0 <= i
            < config.severity.len() && severity_written(config.severity[i].1) is None && (forall|
            j: int,
        |
            0 <= j < i ==> severity_written((#[trigger] config.severity[j]).1) is Some) ==> fault(
            config,
            known,
        ) == Some(
            ErrorView::UnknownSeverity { rule: config.severity[i].0, value: config.severity[i].1 },
        ),
        (forall|other: Seq<char>| !first_stranger(config, known, other)) && (forall|j: int|
            0 <= j < config.severity.len() ==> severity_written((#[trigger] config.severity[j]).1)
                is Some) ==> fault(config, known) is None,
{
    let names = config.mentioned();
    let n = config.disable.len();
    assert(forall|k: int| 0 <= k < n ==> #[trigger] names[k] == config.disable[k]);
    assert(forall|k: int|
        n <= k < names.len() ==> #[trigger] names[k] == config.severity[k - n].0);
    lemma_first_unknown_at(names, known);
    lemma_first_unreadable_at(config.severity);
    if first_stranger(config, known, rule) {
        if exists|i: int|
            {
                &&& 0 <= i < n
                &&& #[trigger] config.disable[i] == rule
                &&& !known.contains(rule)
                &&& forall|j: int| 0 <= j < i ==> known.contains(#[trigger] config.disable[j])
            } {
            let k = choose|i: int|
                {
                    &&& 0 <= i < n
                    &&& #[trigger] config.disable[i] == rule
                    &&& !known.contains(rule)
                    &&& forall|j: int| 0 <= j < i ==> known.contains(#[trigger] config.disable[j])
                };
            assert(names[k] == rule);
            assert forall|j: int| 0 <= j < k implies known.contains(#[trigger] names[j]) by {
                assert(known.contains(config.disable[j]));
            }
        } else {
            let k = choose|i: int|
                {
                    &&& 0 <= i < config.severity.len()
                    &&& (#[trigger] config.severity[i]).0 == rule
                    &&& !known.contains(rule)
                    &&& forall|j: int|
                        0 <= j < i ==> known.contains((#[trigger] config.severity[j]).0)
                };
            assert(names[n + k] == rule);
            assert forall|j: int| 0 <= j < n + k implies known.contains(#[trigger] names[j]) by {
                if j < n {
                    assert(known.contains(config.disable[j]));
                } else {
                    assert(known.contains(config.severity[j - n].0));
                }
            }
        }
    }
    if forall|other: Seq<char>| !first_stranger(config, known, other) {
        if let Some(found) = first_unknown(names, known) {
            let k = choose|k: int|
                0 <= k < names.len() && #[trigger] names[k] == found && !known.contains(found) && (
                forall|j: int| 0 <= j < k ==> known.contains(#[trigger] names[j]));
            if k < n {
                assert(config.disable[k] == found);
                assert forall|j: int| 0 <= j < k implies known.contains(
                    #[trigger] config.disable[j],
                ) by {
                    assert(known.contains(names[j]));
                }
            } else {
                assert(config.severity[k - n].0 == found);
                assert forall|j: int| 0 <= j < n implies known.contains(
                    #[trigger] config.disable[j],
                ) by {
                    assert(known.contains(names[j]));
                }
                assert forall|j: int| 0 <= j < k - n implies known.contains(
                    (#[trigger] config.severity[j]).0,
                ) by {
                    assert(known.contains(names[n + j]));
                }
            }
            assert(first_stranger(config, known, found));
        }
    }
}

proof fn lemma_first_unknown_at(names: Seq<Seq<char>>, known: Seq<Seq<char>>)
    ensures
        forall|i: int|
            0 <= i < names.len() && !known.contains(#[trigger] names[i]) && (forall|j: int|
                0 <= j < i ==> known.contains(#[trigger] names[j])) ==> first_unknown(names, known)
                == Some(names[i]),
        first_unknown(names, known) matches Some(found) ==> exists|k: int|
            0 <= k < names.len() && #[trigger] names[k] == found && !known.contains(found) && (
            forall|j: int| 0 <= j < k ==> known.contains(#[trigger] names[j])),
    decreases names.len(),
{
    if names.len() > 0 {
        let rest = names.drop_first();
        lemma_first_unknown_at(rest, known);
        assert(forall|i: int| 0 <= i < rest.len() ==> #[trigger] rest[i] == names[i + 1]);
        assert forall|i: int|
            0 <= i < names.len() && !known.contains(#[trigger] names[i]) && (forall|j: int|
                0 <= j < i ==> known.contains(#[trigger] names[j])) implies first_unknown(
            names,
            known,
        ) == Some(names[i]) by {
            if i > 0 {
                assert(known.contains(names[0]));
                assert(rest[i - 1] == names[i]);
                assert forall|j: int| 0 <= j < i - 1 implies known.contains(#[trigger] rest[j]) by {
                    assert(known.contains(names[j + 1]));
                }
            }
        }
        if let Some(found) = first_unknown(names, known) {
            if known.contains(names[0]) {
                let k = choose|k: int|
                    0 <= k < rest.len() && #[trigger] rest[k] == found && !known.contains(found)
                        && (forall|j: int| 0 <= j < k ==> known.contains(#[trigger] rest[j]));
                assert(names[k + 1] == found);
                assert forall|j: int| 0 <= j < k + 1 implies known.contains(#[trigger] names[j]) by {
                    if j > 0 {
                        assert(known.contains(rest[j - 1]));
                    }
                }
            } else {
                assert(names[0] == found);
            }
        }
    }
}

proof fn lemma_first_unreadable_at(severity: Seq<(Seq<char>, Seq<char>)>)
    ensures
        forall|i: int|
            0 <= i < severity.len() && severity_written((#[trigger] severity[i]).1) is None && (
            forall|j: int|
                0 <= j < i ==> severity_written((#[trigger] severity[j]).1) is Some)
                ==> first_unreadable(severity) == Some(severity[i]),
        (forall|j: int|
            0 <= j < severity.len() ==> severity_written((#[trigger] severity[j]).1) is Some)
            ==> first_unreadable(severity) is None,
    decreases severity.len(),
{
    if severity.len() > 0 {
        let rest = severity.drop_first();
        lemma_first_unreadable_at(rest);
        assert(forall|i: int| 0 <= i < rest.len() ==> #[trigger] rest[i] == severity[i + 1]);
        assert forall|i: int|
            0 <= i < severity.len() && severity_written((#[trigger] severity[i]).1) is None && (
            forall|j: int|
                0 <= j < i ==> severity_written(
                    (#[trigger] severity[j]).1,
                ) is Some) implies first_unreadable(severity) == Some(severity[i]) by {
            if i > 0 {
                assert(severity_written(severity[0].1) is Some);
                assert(rest[i - 1] == severity[i]);
                assert forall|j: int| 0 <= j < i - 1 implies severity_written(
                    (#[trigger] rest[j]).1,
                ) is Some by {
                    assert(severity_written(severity[j + 1].1) is Some);
                }
            }
        }
        if forall|j: int|
            0 <= j < severity.len() ==> severity_written((#[trigger] severity[j]).1) is Some {
            assert(severity_written(severity[0].1) is Some);
            assert forall|j: int| 0 <= j < rest.len() implies severity_written(
                (#[trigger] rest[j]).1,
            ) is Some by {
                assert(severity_written(severity[j + 1].1) is Some);
            }
        }
    }
}

/// A refused config is told what is wrong with it.
pub proof fn law_what_a_refused_config_is_told(
    why: Seq<char>,
    rule: Seq<char>,
    value: Seq<char>,
    known: Seq<Seq<char>>,
)
    ensures
        ErrorView::Unreadable(why).told() == "could not read stylus-check.toml: "@ + why,
        ErrorView::Malformed(why).told() == "stylus-check.toml is not valid: "@ + why,
        (ErrorView::UnknownRule { rule, known }).told() == "stylus-check.toml mentions the rule `"@
            + rule + "`, which does not exist. The rules are: "@ + joined(known, ", "@),
        (ErrorView::UnknownSeverity { rule, value }).told() == "stylus-check.toml sets `"@ + rule
            + "` to severity `"@ + value + "`, which is not one of low, medium or high"@,
{
}

/// A path leads to what its last component names. It lies in what its other
/// components lead to, unless it ends in a root or leads nowhere, and it lies
/// under whatever its first components lead to.
pub proof fn law_where_a_path_leads(
    parts: Seq<PartView>,
    name: Seq<char>,
    last: PartView,
    more: Seq<PartView>,
)
    ensures
        file_name(parts.push(PartView::Normal(name))) == Some(name),
        last !is Normal ==> file_name(parts.push(last)) is None,
        file_name(Seq::<PartView>::empty()) is None,
        last is Root || last is Prefix ==> parent(parts.push(last)) is None,
        last !is Root && last !is Prefix ==> parent(parts.push(last)) == Some(parts),
        parent(Seq::<PartView>::empty()) is None,
        lies_under(parts + more, parts),
        lies_under(more, parts) ==> exists|rest: Seq<PartView>| more == #[trigger] (parts + rest),
{
    assert(parts.push(last).drop_last() =~= parts);
    assert((parts + more).subrange(0, parts.len() as int) =~= parts);
    if lies_under(more, parts) {
        assert(more =~= parts + more.skip(parts.len() as int)) by {
            assert(more.subrange(0, parts.len() as int) == parts);
        }
    }
}

/// True for the place at which one path stops being the same as a later one.
pub open spec fn paths_part(a: Seq<PartView>, b: Seq<PartView>, k: int) -> bool {
    &&& 0 <= k <= a.len()
    &&& k < b.len()
    &&& a.take(k) == b.take(k)
    &&& k < a.len() ==> earlier(a[k], b[k])
}

/// True for a component that stands before another: a prefix before a root before
/// `.` before `..` before a name, and names in the order of their characters.
pub open spec fn earlier(a: PartView, b: PartView) -> bool {
    match (a, b) {
        (PartView::Prefix(x), PartView::Prefix(y)) => text_before(x, y),
        (PartView::Normal(x), PartView::Normal(y)) => text_before(x, y),
        (PartView::Prefix(_), _) => true,
        (PartView::Root, _) => !(b is Prefix || b is Root),
        (PartView::Current, _) => b is Parent || b is Normal,
        (PartView::Parent, _) => b is Normal,
        (PartView::Normal(_), _) => false,
    }
}

/// A path stands before another one when they are the same up to a component, and
/// there the first ends or has the earlier one.
pub proof fn law_the_order_of_paths(a: Seq<PartView>, b: Seq<PartView>)
    ensures
        path_before(a, b) <==> exists|k: int| #[trigger] paths_part(a, b, k),
    decreases a.len(),
{
    if a.len() > 0 && b.len() > 0 {
        lemma_earlier(a[0], b[0]);
    }
    if path_before(a, b) {
        if a.len() == 0 || earlier(a[0], b[0]) {
            assert(a.take(0) =~= b.take(0));
            assert(paths_part(a, b, 0));
        } else {
            law_the_order_of_paths(a.drop_first(), b.drop_first());
            let k = choose|k: int| #[trigger] paths_part(a.drop_first(), b.drop_first(), k);
            assert(a.take(k + 1) =~= seq![a[0]] + a.drop_first().take(k));
            assert(b.take(k + 1) =~= seq![b[0]] + b.drop_first().take(k));
            assert(paths_part(a, b, k + 1));
        }
    }
    if exists|k: int| #[trigger] paths_part(a, b, k) {
        let k = choose|k: int| #[trigger] paths_part(a, b, k);
        if k > 0 {
            assert(a.take(k)[0] == b.take(k)[0]);
            assert(a.drop_first().take(k - 1) =~= a.take(k).drop_first());
            assert(b.drop_first().take(k - 1) =~= b.take(k).drop_first());
            assert(paths_part(a.drop_first(), b.drop_first(), k - 1));
            law_the_order_of_paths(a.drop_first(), b.drop_first());
        }
    }
}

proof fn lemma_earlier(a: PartView, b: PartView)
    ensures
        part_before(a, b) <==> earlier(a, b),
{
    crate::order::lemma_text_total(Seq::<char>::empty(), Seq::<char>::empty());
}

/// Paths and what was found at them are put in the order of the paths.
pub proof fn law_files_are_ordered_by_their_paths(a: EntryView, b: EntryView)
    ensures
        FilePath::ranked(a.path, b.path) <==> !path_before(b.path.parts, a.path.parts),
        crate::discover::Entry::ranked(a, b) <==> !path_before(b.path.parts, a.path.parts),
{
}

/// A directory is ignored by its name, a manifest is a `Cargo.toml`, and a source
/// is a name with `.rs` behind something.
pub proof fn law_names_decide_what_a_path_is(path: PathView, name: Seq<char>)
    requires
        file_name(path.parts) == Some(name),
    ensures
        ignored(path) <==> seq![
            "target"@,
            ".git"@,
            "node_modules"@,
            ".cargo"@,
            "vendor"@,
        ].contains(name),
        is_manifest(path) <==> name == "Cargo.toml"@,
        is_source(path) <==> closes_with(name, ".rs"@) && name != ".rs"@,
{
    let five = seq!["target"@, ".git"@, "node_modules"@, ".cargo"@, "vendor"@];
    assert(five[0] == "target"@ && five[1] == ".git"@ && five[2] == "node_modules"@ && five[3]
        == ".cargo"@ && five[4] == "vendor"@);
    law_holding_is_having(name, ".rs"@);
    if closes_with(name, ".rs"@) && name.len() <= ".rs"@.len() {
        let front = choose|front: Seq<char>| name == #[trigger] (front + ".rs"@);
        assert(name =~= ".rs"@);
    }
}

/// What ends in no name is nothing of the kind.
pub proof fn law_without_a_name_a_path_is_nothing(path: PathView)
    requires
        file_name(path.parts) is None,
    ensures
        !ignored(path),
        !is_manifest(path),
        !is_source(path),
{
}

/// A line of a manifest names the SDK exactly when it starts with its name, in
/// either spelling, behind the white space.
pub proof fn law_which_lines_name_the_sdk(line: Seq<char>, text: Seq<char>)
    requires
        bare(line, text),
    ensures
        names_the_sdk(line) <==> starts(text, "stylus-sdk"@) || starts(text, "stylus_sdk"@),
{
    super::model::lemma_plain(line, text);
    law_holding_is_having(text, "#"@);
    law_holding_is_having(text, "stylus-sdk"@);
    law_holding_is_having(text, "stylus_sdk"@);
    reveal_strlit("#");
    reveal_strlit("stylus-sdk");
    reveal_strlit("stylus_sdk");
    if starts(text, "#"@) {
        let rest = choose|rest: Seq<char>| text == #[trigger] ("#"@ + rest);
        assert(text[0] == '#');
    }
    if starts(text, "stylus-sdk"@) {
        let rest = choose|rest: Seq<char>| text == #[trigger] ("stylus-sdk"@ + rest);
        assert(text[0] == 's');
    }
    if starts(text, "stylus_sdk"@) {
        let rest = choose|rest: Seq<char>| text == #[trigger] ("stylus_sdk"@ + rest);
        assert(text[0] == 's');
    }
}

/// A manifest depends on the SDK exactly when one of its lines names it.
pub proof fn law_which_manifests_depend_on_the_sdk(manifest: Seq<char>)
    ensures
        depends_on_the_sdk(manifest) <==> exists|line: Seq<char>| #[trigger]
            lines(manifest).contains(line) && names_the_sdk(line),
{
    let all = lines(manifest);
    if depends_on_the_sdk(manifest) {
        let i = choose|i: int| 0 <= i < all.len() && names_the_sdk(#[trigger] all[i]);
        assert(all.contains(all[i]));
    }
    if exists|line: Seq<char>| #[trigger] all.contains(line) && names_the_sdk(line) {
        let line = choose|line: Seq<char>| #[trigger] all.contains(line) && names_the_sdk(line);
        let i = choose|i: int| 0 <= i < all.len() && all[i] == line;
        assert(names_the_sdk(all[i]));
    }
}

/// True for what makes a file a contract: an invocation of one of the two macros,
/// on whatever path, or an impl block that carries `public` itself.
pub open spec fn makes_a_contract(x: Tree) -> bool {
    ||| x.kind is Macro && (x.tail() == Some("sol_storage"@) || x.tail() == Some("sol_interface"@))
    ||| x.kind is Implementation && attributed(x, "public"@)
}

/// A file declares a contract exactly when something in it makes it one.
pub proof fn law_which_files_are_contracts(file: Tree)
    ensures
        is_a_contract(file) <==> exists|x: Tree| #[trigger]
            nodes(file).contains(x) && makes_a_contract(x),
{
    if is_a_contract(file) {
        let i = choose|i: int|
            0 <= i < nodes(file).len() && marks_a_contract(#[trigger] nodes(file)[i]);
        assert(nodes(file).contains(nodes(file)[i]));
        assert(makes_a_contract(nodes(file)[i]));
    }
    if exists|x: Tree| #[trigger] nodes(file).contains(x) && makes_a_contract(x) {
        let x = choose|x: Tree| #[trigger] nodes(file).contains(x) && makes_a_contract(x);
        let i = choose|i: int| 0 <= i < nodes(file).len() && nodes(file)[i] == x;
        assert(marks_a_contract(nodes(file)[i]));
    }
}

/// What was found is taken apart: the Rust files that are no manifests, and the
/// manifests that can be read and depend on the SDK, each in the order found.
pub proof fn law_what_is_taken_in(found: Seq<EntryView>)
    ensures
        sources_among(found) == found.filter(
            |e: EntryView| is_source(e.path) && !is_manifest(e.path),
        ),
        manifests_among(found) == found.filter(
            |e: EntryView|
                is_manifest(e.path) && e.text is Ok && depends_on_the_sdk(e.text->Ok_0),
        ),
{
    let source = |e: EntryView| !is_manifest(e.path) && is_source(e.path);
    let source_again = |e: EntryView| is_source(e.path) && !is_manifest(e.path);
    assert(source =~= source_again);
    let manifest = |e: EntryView| is_manifest(e.path) && declares(e);
    let manifest_again = |e: EntryView|
        is_manifest(e.path) && e.text is Ok && depends_on_the_sdk(e.text->Ok_0);
    assert(manifest =~= manifest_again);
}

/// A path is refused exactly when nothing is there, when there is no Rust source,
/// or when no manifest depends on the SDK and no source that can be read and
/// parsed declares a contract; and the refusal says which.
pub proof fn law_when_a_path_is_refused(root: PathView, found: Seq<EntryView>)
    ensures
        refusal(root, None) == Some(RefusalView::Missing(root)),
        sources_among(found).len() == 0 ==> refusal(root, Some(found)) == Some(
            RefusalView::NoRustSource(root),
        ),
        sources_among(found).len() > 0 ==> refusal(root, Some(found)) == (if manifests_among(
            found,
        ).len() == 0 && (forall|e: EntryView| #[trigger]
            sources_among(found).contains(e) ==> !speaks_for_itself(e)) {
            Some(RefusalView::NoSdkDependency(root))
        } else {
            None
        }),
{
    let sources = sources_among(found);
    if is_stylus(found) && manifests_among(found).len() == 0 {
        let i = choose|i: int| 0 <= i < sources.len() && holds_a_contract(#[trigger] sources[i]);
        assert(sources.contains(sources[i]));
        assert(speaks_for_itself(sources[i]));
    }
    if exists|e: EntryView| #[trigger] sources.contains(e) && speaks_for_itself(e) {
        let e = choose|e: EntryView| #[trigger] sources.contains(e) && speaks_for_itself(e);
        let i = choose|i: int| 0 <= i < sources.len() && sources[i] == e;
        assert(holds_a_contract(sources[i]));
    }
}

/// True for a source that can be read and parsed and declares a contract.
pub open spec fn speaks_for_itself(e: EntryView) -> bool {
    e.text is Ok && parsed(e.text->Ok_0) is Ok && is_a_contract(parsed(e.text->Ok_0)->Ok_0)
}

/// A refusal says what was looked for and where.
pub proof fn law_what_a_refusal_says(path: PathView)
    ensures
        RefusalView::Missing(path).told() == "there is nothing at "@ + path.shown,
        RefusalView::NoRustSource(path).told() == "no Rust source files under "@ + path.shown,
        RefusalView::NoSdkDependency(path).told() == "no crate under "@ + path.shown
            + " depends on stylus-sdk, so there are no Stylus contracts here.\nThis checker only understands stylus-sdk code; for plain Rust use clippy, and for Solidity use slither."@,
{
}

} // verus!
