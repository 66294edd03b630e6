//! `stylus-check.toml`, for when a rule is wrong about your contract.
//!
//! Every rule here is a heuristic, so every rule is sometimes wrong. The way
//! that gets handled decides whether the tool survives contact with a real
//! codebase: either you can turn one rule down in one project, or you turn the
//! whole checker off. This is the first of those.

use crate::finding::{severity_written, Severity};
use crate::order::lemma_text_total;
use crate::text::{joined, same, slices, text_before, texts};
use vstd::prelude::*;

verus! {

/// What a project asked for.
#[derive(Debug)]
pub struct Config {
    /// Rules to switch off entirely, by id.
    pub disable: Vec<String>,
    /// Severity overrides, by rule id, e.g. `state-write-after-call` and `low`,
    /// in the order of the ids.
    pub severity: Vec<(String, String)>,
}

/// The mathematical model of a [`Config`].
pub ghost struct ConfigView {
    pub disable: Seq<Seq<char>>,
    pub severity: Seq<(Seq<char>, Seq<char>)>,
}

/// The models of some pairs of texts.
pub open spec fn pairs(list: Seq<(String, String)>) -> Seq<(Seq<char>, Seq<char>)> {
    list.map_values(|pair: (String, String)| (pair.0@, pair.1@))
}

impl View for Config {
    type V = ConfigView;

    open spec fn view(&self) -> ConfigView {
        ConfigView { disable: texts(self.disable@), severity: pairs(self.severity@) }
    }
}

/// What a rule is set to, if it is set to anything.
pub open spec fn setting(severity: Seq<(Seq<char>, Seq<char>)>, rule: Seq<char>) -> Option<
    Seq<char>,
>
    decreases severity.len(),
{
    if severity.len() == 0 {
        None
    } else if severity[0].0 == rule {
        Some(severity[0].1)
    } else {
        setting(severity.drop_first(), rule)
    }
}

impl ConfigView {
    /// No rule is set twice, and the rules stand in the order of their ids.
    pub open spec fn well_formed(self) -> bool {
        forall|i: int, j: int|
            0 <= i < j < self.severity.len() ==> text_before(
                (#[trigger] self.severity[i]).0,
                (#[trigger] self.severity[j]).0,
            )
    }

    /// True when a rule is switched off.
    pub open spec fn disables(self, rule: Seq<char>) -> bool {
        self.disable.contains(rule)
    }

    /// The severity that a rule is given, if it is given one that can be read.
    pub open spec fn overrides(self, rule: Seq<char>) -> Option<Severity> {
        match setting(self.severity, rule) {
            Some(value) => severity_written(value),
            None => None,
        }
    }

    /// The config with one more rule switched off.
    pub open spec fn without(self, rule: Seq<char>) -> ConfigView {
        ConfigView { disable: self.disable.push(rule), severity: self.severity }
    }

    /// The config with no severity in it.
    pub open spec fn unweighted(self) -> ConfigView {
        ConfigView { disable: self.disable, severity: Seq::empty() }
    }

    /// The rules that the config mentions, those it switches off first.
    pub open spec fn mentioned(self) -> Seq<Seq<char>> {
        self.disable + self.severity.map_values(|pair: (Seq<char>, Seq<char>)| pair.0)
    }
}

/// Why a config file could not be used. Always names the file and the problem,
/// because a config that is silently ignored is worse than one that is missing.
#[derive(Debug)]
pub enum ConfigError {
    Unreadable(String),
    Malformed(String),
    UnknownRule { rule: String, known: Vec<&'static str> },
    UnknownSeverity { rule: String, value: String },
}

/// The mathematical model of a [`ConfigError`].
pub ghost enum ErrorView {
    Unreadable(Seq<char>),
    Malformed(Seq<char>),
    UnknownRule { rule: Seq<char>, known: Seq<Seq<char>> },
    UnknownSeverity { rule: Seq<char>, value: Seq<char> },
}

impl View for ConfigError {
    type V = ErrorView;

    open spec fn view(&self) -> ErrorView {
        match *self {
            ConfigError::Unreadable(why) => ErrorView::Unreadable(why@),
            ConfigError::Malformed(why) => ErrorView::Malformed(why@),
            ConfigError::UnknownRule { rule, known } => ErrorView::UnknownRule {
                rule: rule@,
                known: slices(known@),
            },
            ConfigError::UnknownSeverity { rule, value } => ErrorView::UnknownSeverity {
                rule: rule@,
                value: value@,
            },
        }
    }
}

impl ErrorView {
    /// What a person is told.
    pub open spec fn told(self) -> Seq<char> {
        match self {
            ErrorView::Unreadable(why) => "could not read stylus-check.toml: "@ + why,
            ErrorView::Malformed(why) => "stylus-check.toml is not valid: "@ + why,
            ErrorView::UnknownRule { rule, known } => "stylus-check.toml mentions the rule `"@ + rule
                + "`, which does not exist. The rules are: "@ + joined(known, ", "@),
            ErrorView::UnknownSeverity { rule, value } => "stylus-check.toml sets `"@ + rule
                + "` to severity `"@ + value + "`, which is not one of low, medium or high"@,
        }
    }
}

fn join(parts: &Vec<&'static str>) -> (r: String)
    ensures
        r@ == joined(slices(parts@), ", "@),
{
    let ghost all = slices(parts@);
    let mut out = String::new();
    assert(out@ =~= joined(all.take(0), ", "@));
    for i in 0..parts.len()
        invariant
            all == slices(parts@),
            out@ == joined(all.take(i as int), ", "@),
    {
        let ghost before = out@;
        assert(all[i as int] == parts@[i as int]@);
        assert(all.take(i + 1).drop_last() =~= all.take(i as int));
        if i > 0 {
            out.append(", ");
        }
        out.append(parts[i]);
        proof {
            if i == 0 {
                assert(out@ =~= all.take(1)[0]);
            }
        }
    }
    assert(all.take(parts@.len() as int) =~= all);
    out
}

impl ConfigError {
    /// What a person is told.
    pub fn message(&self) -> (r: String)
        ensures
            r@ == self@.told(),
    {
        match self {
            ConfigError::Unreadable(why) => {
                let mut out = "could not read stylus-check.toml: ".to_owned();
                out.append(why.as_str());
                out
            },
            ConfigError::Malformed(why) => {
                let mut out = "stylus-check.toml is not valid: ".to_owned();
                out.append(why.as_str());
                out
            },
            ConfigError::UnknownRule { rule, known } => {
                let mut out = "stylus-check.toml mentions the rule `".to_owned();
                out.append(rule.as_str());
                out.append("`, which does not exist. The rules are: ");
                out.append(join(known).as_str());
                out
            },
            ConfigError::UnknownSeverity { rule, value } => {
                let mut out = "stylus-check.toml sets `".to_owned();
                out.append(rule.as_str());
                out.append("` to severity `");
                out.append(value.as_str());
                out.append("`, which is not one of low, medium or high");
                out
            },
        }
    }
}

/// The first of some names that is not among those known.
pub open spec fn first_unknown(names: Seq<Seq<char>>, known: Seq<Seq<char>>) -> Option<Seq<char>>
    decreases names.len(),
{
    if names.len() == 0 {
        None
    } else if known.contains(names[0]) {
        first_unknown(names.drop_first(), known)
    } else {
        Some(names[0])
    }
}

/// The first override whose severity cannot be read.
pub open spec fn first_unreadable(severity: Seq<(Seq<char>, Seq<char>)>) -> Option<
    (Seq<char>, Seq<char>),
>
    decreases severity.len(),
{
    if severity.len() == 0 {
        None
    } else if severity_written(severity[0].1) is Some {
        first_unreadable(severity.drop_first())
    } else {
        Some(severity[0])
    }
}

/// What is wrong with a config, if anything is: a rule that does not exist
/// before a severity that is not one.
pub open spec fn fault(config: ConfigView, known: Seq<Seq<char>>) -> Option<ErrorView> {
    match first_unknown(config.mentioned(), known) {
        Some(rule) => Some(ErrorView::UnknownRule { rule, known }),
        None => match first_unreadable(config.severity) {
            Some((rule, value)) => Some(ErrorView::UnknownSeverity { rule, value }),
            None => None,
        },
    }
}

/// What looking for a config file came to.
#[derive(Debug)]
pub enum ConfigFile {
    /// There is none.
    Absent,
    /// It could not be read.
    Unreadable(String),
    /// It is not a config.
    Malformed(String),
    /// It says this.
    Read(Config),
}

impl Default for Config {
    fn default() -> (r: Config)
        ensures
            r@ == no_wishes(),
            r@.well_formed(),
    {
        let r = Config { disable: Vec::new(), severity: Vec::new() };
        assert(r@.disable =~= Seq::empty());
        assert(r@.severity =~= Seq::empty());
        r
    }
}

/// The config of a project that asks for nothing.
pub open spec fn no_wishes() -> ConfigView {
    ConfigView { disable: Seq::empty(), severity: Seq::empty() }
}

fn known_copy(known: &[&'static str]) -> (r: Vec<&'static str>)
    ensures
        slices(r@) == slices(known@),
{
    let mut r: Vec<&'static str> = Vec::new();
    for i in 0..known.len()
        invariant
            r@ == known@.take(i as int),
    {
        r.push(known[i]);
        assert(known@.take(i + 1) =~= known@.take(i as int).push(known@[i as int]));
    }
    assert(known@.take(known@.len() as int) =~= known@);
    r
}

fn is_known(known: &[&'static str], rule: &str) -> (r: bool)
    ensures
        r == slices(known@).contains(rule@),
{
    let ghost all = slices(known@);
    for i in 0..known.len()
        invariant
            all == slices(known@),
            forall|j: int| 0 <= j < i ==> (#[trigger] all[j]) != rule@,
    {
        assert(all[i as int] == known@[i as int]@);
        if same(known[i], rule) {
            return true;
        }
    }
    false
}

impl Config {
    /// What a project asked for, given what looking for its config file came to.
    ///
    /// # Errors
    /// Returns [`ConfigError`] when the file exists but cannot be used.
    pub fn load(file: ConfigFile, known_rules: &[&'static str]) -> (r: Result<Self, ConfigError>)
        ensures
            match file {
                ConfigFile::Absent => r is Ok && r.unwrap()@ == no_wishes(),
                ConfigFile::Unreadable(why) => r is Err && r->Err_0@ == ErrorView::Unreadable(why@),
                ConfigFile::Malformed(why) => r is Err && r->Err_0@ == ErrorView::Malformed(why@),
                ConfigFile::Read(config) => match r {
                    Ok(kept) => kept == config && fault(config@, slices(known_rules@)) is None,
                    Err(error) => fault(config@, slices(known_rules@)) == Some(error@),
                },
            },
    {
        match file {
            ConfigFile::Absent => Ok(Config::default()),
            ConfigFile::Unreadable(why) => Err(ConfigError::Unreadable(why)),
            ConfigFile::Malformed(why) => Err(ConfigError::Malformed(why)),
            ConfigFile::Read(config) => match config.validate(known_rules) {
                Ok(()) => Ok(config),
                Err(error) => Err(error),
            },
        }
    }

    /// Rejects a config that names a rule that does not exist.
    ///
    /// A typo would otherwise disable nothing and say nothing, leaving somebody
    /// believing they had silenced a rule that is still running.
    pub fn validate(&self, known: &[&'static str]) -> (r: Result<(), ConfigError>)
        ensures
            match r {
                Ok(()) => fault(self@, slices(known@)) is None,
                Err(error) => fault(self@, slices(known@)) == Some(error@),
            },
    {
        let ghost names = self@.mentioned();
        let ghost listed = slices(known@);
        assert(names.skip(0) =~= names);
        for i in 0..self.disable.len()
            invariant
                names == self@.mentioned(),
                listed == slices(known@),
                first_unknown(names, listed) == first_unknown(names.skip(i as int), listed),
        {
            let rule = &self.disable[i];
            assert(names[i as int] == rule@);
            assert(names.skip(i as int).drop_first() =~= names.skip(i + 1));
            if !is_known(known, rule.as_str()) {
                return Err(
                    ConfigError::UnknownRule { rule: rule.clone(), known: known_copy(known) },
                );
            }
        }
        let ghost n = self.disable@.len();
        for i in 0..self.severity.len()
            invariant
                names == self@.mentioned(),
                n == self.disable@.len(),
                listed == slices(known@),
                first_unknown(names, listed) == first_unknown(names.skip(n + i), listed),
        {
            let pair = &self.severity[i];
            assert(names[n + i] == pair.0@);
            assert(names.skip(n + i).drop_first() =~= names.skip(n + i + 1));
            if !is_known(known, pair.0.as_str()) {
                return Err(
                    ConfigError::UnknownRule { rule: pair.0.clone(), known: known_copy(known) },
                );
            }
        }
        assert(first_unknown(names, listed) is None);
        let ghost set = self@.severity;
        assert(set.skip(0) =~= set);
        for i in 0..self.severity.len()
            invariant
                set == pairs(self.severity@),
                set == self@.severity,
                first_unknown(self@.mentioned(), slices(known@)) is None,
                first_unreadable(set) == first_unreadable(set.skip(i as int)),
        {
            let pair = &self.severity[i];
            assert(set[i as int] == (pair.0@, pair.1@));
            assert(set.skip(i as int).drop_first() =~= set.skip(i + 1));
            if Severity::parse(pair.1.as_str()).is_none() {
                return Err(
                    ConfigError::UnknownSeverity { rule: pair.0.clone(), value: pair.1.clone() },
                );
            }
        }
        Ok(())
    }

    /// Whether a project switched a rule off.
    #[must_use]
    pub fn is_disabled(&self, rule: &str) -> (r: bool)
        ensures
            r == self@.disables(rule@),
    {
        let ghost all = self@.disable;
        for i in 0..self.disable.len()
            invariant
                all == texts(self.disable@),
                all == self@.disable,
                forall|j: int| 0 <= j < i ==> (#[trigger] all[j]) != rule@,
        {
            assert(all[i as int] == self.disable@[i as int]@);
            if same(self.disable[i].as_str(), rule) {
                return true;
            }
        }
        false
    }

    /// The severity a project wants for a rule, if it asked for a different one.
    #[must_use]
    pub fn severity_for(&self, rule: &str) -> (r: Option<Severity>)
        ensures
            r == self@.overrides(rule@),
    {
        let ghost set = self@.severity;
        assert(set.skip(0) =~= set);
        for i in 0..self.severity.len()
            invariant
                set == pairs(self.severity@),
                set == self@.severity,
                setting(set, rule@) == setting(set.skip(i as int), rule@),
        {
            let pair = &self.severity[i];
            assert(set[i as int] == (pair.0@, pair.1@));
            assert(set.skip(i as int).drop_first() =~= set.skip(i + 1));
            if same(pair.0.as_str(), rule) {
                return Severity::parse(pair.1.as_str());
            }
        }
        None
    }
}

proof fn lemma_first_unknown(names: Seq<Seq<char>>, known: Seq<Seq<char>>)
    ensures
        first_unknown(names, known) is None <==> forall|i: int|
            0 <= i < names.len() ==> known.contains(#[trigger] names[i]),
        first_unknown(names, known) matches Some(rule) ==> names.contains(rule) && !known.contains(
            rule,
        ),
    decreases names.len(),
{
    if names.len() > 0 {
        let rest = names.drop_first();
        lemma_first_unknown(rest, known);
        assert forall|i: int| 0 <= i < rest.len() implies #[trigger] rest[i] == names[i + 1] by {}
        if first_unknown(rest, known) is None {
            assert forall|i: int|
                0 <= i < names.len() && known.contains(names[0]) implies known.contains(
                #[trigger] names[i],
            ) by {
                if i > 0 {
                    assert(rest[i - 1] == names[i]);
                }
            }
        } else {
            let rule = first_unknown(rest, known).unwrap();
            let k = choose|k: int| 0 <= k < rest.len() && rest[k] == rule;
            assert(names[k + 1] == rule);
        }
    }
}

proof fn lemma_first_unreadable(severity: Seq<(Seq<char>, Seq<char>)>)
    ensures
        first_unreadable(severity) is None <==> forall|i: int|
            0 <= i < severity.len() ==> severity_written((#[trigger] severity[i]).1) is Some,
    decreases severity.len(),
{
    if severity.len() > 0 {
        let rest = severity.drop_first();
        lemma_first_unreadable(rest);
        assert forall|i: int| 0 <= i < rest.len() implies #[trigger] rest[i] == severity[i
            + 1] by {}
        if first_unreadable(rest) is None {
            assert forall|i: int|
                0 <= i < severity.len() && severity_written(
                    severity[0].1,
                ) is Some implies severity_written((#[trigger] severity[i]).1) is Some by {
                if i > 0 {
                    assert(rest[i - 1] == severity[i]);
                }
            }
        } else {
            let k = choose|k: int|
                0 <= k < rest.len() && severity_written((#[trigger] rest[k]).1) is None;
            assert(severity[k + 1] == rest[k]);
        }
    }
}

/// A config is accepted exactly when every rule it mentions exists and every
/// severity it sets can be read.
pub proof fn law_config_is_accepted_when_it_makes_sense(
    config: ConfigView,
    known: Seq<Seq<char>>,
)
    ensures
        fault(config, known) is None <==> {
            &&& forall|i: int|
                0 <= i < config.mentioned().len() ==> known.contains(
                    #[trigger] config.mentioned()[i],
                )
            &&& forall|i: int|
                0 <= i < config.severity.len() ==> severity_written(
                    (#[trigger] config.severity[i]).1,
                ) is Some
        },
{
    lemma_first_unknown(config.mentioned(), known);
    lemma_first_unreadable(config.severity);
}

/// A typo is refused: a config that switches off a rule that does not exist is
/// answered with an unknown rule.
pub proof fn law_typo_is_refused(config: ConfigView, known: Seq<Seq<char>>, rule: Seq<char>)
    requires
        config.disables(rule),
        !known.contains(rule),
    ensures
        fault(config, known) matches Some(ErrorView::UnknownRule { rule: named, known: listed })
            && config.mentioned().contains(named) && !known.contains(named) && listed == known,
{
    lemma_first_unknown(config.mentioned(), known);
    let k = choose|k: int| 0 <= k < config.disable.len() && config.disable[k] == rule;
    assert(config.mentioned()[k] == rule);
}

proof fn lemma_setting(severity: Seq<(Seq<char>, Seq<char>)>, rule: Seq<char>)
    ensures
        setting(severity, rule) matches Some(value) ==> exists|i: int|
            0 <= i < severity.len() && #[trigger] severity[i] == (rule, value),
    decreases severity.len(),
{
    if severity.len() > 0 && severity[0].0 != rule {
        let rest = severity.drop_first();
        lemma_setting(rest, rule);
        if let Some(value) = setting(rest, rule) {
            let k = choose|k: int| 0 <= k < rest.len() && #[trigger] rest[k] == (rule, value);
            assert(severity[k + 1] == (rule, value));
        }
    } else if severity.len() > 0 {
        assert(severity[0] == (rule, severity[0].1));
    }
}

/// In an accepted config an override is never lost: a rule that is set to
/// something has a severity.
pub proof fn law_accepted_override_takes_effect(
    config: ConfigView,
    known: Seq<Seq<char>>,
    rule: Seq<char>,
)
    requires
        fault(config, known) is None,
    ensures
        setting(config.severity, rule) is Some <==> config.overrides(rule) is Some,
{
    lemma_first_unreadable(config.severity);
    lemma_setting(config.severity, rule);
}

/// Each override of a config is the one that counts for its rule.
pub proof fn law_each_override_counts(config: ConfigView, i: int)
    requires
        config.well_formed(),
        0 <= i < config.severity.len(),
    ensures
        setting(config.severity, config.severity[i].0) == Some(config.severity[i].1),
{
    lemma_setting_at(config.severity, i);
}

proof fn lemma_setting_at(severity: Seq<(Seq<char>, Seq<char>)>, i: int)
    requires
        forall|a: int, b: int|
            0 <= a < b < severity.len() ==> text_before(
                (#[trigger] severity[a]).0,
                (#[trigger] severity[b]).0,
            ),
        0 <= i < severity.len(),
    ensures
        setting(severity, severity[i].0) == Some(severity[i].1),
    decreases severity.len(),
{
    if i > 0 {
        let rest = severity.drop_first();
        assert(text_before(severity[0].0, severity[i].0));
        lemma_text_total(severity[0].0, severity[i].0);
        assert forall|a: int, b: int| 0 <= a < b < rest.len() implies text_before(
            (#[trigger] rest[a]).0,
            (#[trigger] rest[b]).0,
        ) by {
            assert(rest[a] == severity[a + 1] && rest[b] == severity[b + 1]);
        }
        lemma_setting_at(rest, i - 1);
    }
}

} // verus!
