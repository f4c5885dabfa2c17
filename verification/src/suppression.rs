//! Applying a configuration to findings: lint overrides and diagnostic exclusions suppress the
//! findings they select, and the configuration is checked against the analyzed items.

use std::collections::HashSet;
use vstd::prelude::*;
use crate::frames::{chain, fragment_at};
use crate::identities::{AuditedFragments, audited};
use crate::keys::{set_has_text, string_set_contains};
use crate::model::{Definition, DefinitionKind, Finding, Fragment};
use crate::config::{ConfigDiagnosticKind, ConfigSpan};
use crate::settings::{
    AnalysisTarget, Config, DiagnosticExclusion, ExclusionSelector, LintOverride, OverrideLevel, applies_to, selector_applies,
};
use crate::text::str_equals;

verus! {

/// An item as overrides name it: its package, crate, path and kind.
pub type LogicalItem = (Seq<char>, Seq<char>, Seq<char>, DefinitionKind);

/// An item as exclusions name it: its crate, path, kind and source file.
pub type KnownItem = (Seq<char>, Seq<char>, DefinitionKind, Option<Seq<char>>);

/// Whether fragment `k` is consulted for the items of the configuration: it is compiled for
/// the analysis target, and it is audited when its crate is a candidate.
pub open spec fn consulted(
    frames: Seq<Fragment>,
    k: int,
    target: Seq<char>,
    candidates: Set<String>,
    production: Seq<Fragment>,
    tests: Seq<Fragment>,
) -> bool {
    &&& frames[k].compilation_target@ == target
    &&& (!set_has_text(candidates, frames[k].crate_name@) || audited(production, tests, frames[k]))
}

/// The logical item of definition `j` of fragment `k`.
pub open spec fn logical_at(frames: Seq<Fragment>, k: int, j: int) -> LogicalItem {
    let definition = frames[k].definitions@[j];
    (frames[k].package_name@, definition.crate_name@, definition.name@, definition.kind)
}

/// The known item of definition `j` of fragment `k`.
pub open spec fn known_at(frames: Seq<Fragment>, k: int, j: int) -> KnownItem {
    let definition = frames[k].definitions@[j];
    (
        definition.crate_name@,
        definition.name@,
        definition.kind,
        match definition.span {
            Some(span) => Some(span.file@),
            None => None,
        },
    )
}

/// The analysis that a configuration is applied to: the fragments, which of them are
/// consulted, the candidate crates, and the findings.
pub type Scope<'a> = (Seq<Fragment>, Seq<bool>, Set<String>, Seq<Finding<'a>>);

/// Whether a definition of a consulted fragment has this logical item.
pub open spec fn has_logical_item(scope: Scope, item: LogicalItem) -> bool {
    exists|k: int, j: int|
        0 <= k < scope.0.len() && scope.1[k] && 0 <= j < scope.0[k].definitions@.len() && #[trigger] logical_at(
            scope.0,
            k,
            j,
        ) == item
}

/// Whether a definition of a consulted fragment has this known item.
pub open spec fn has_known_item(scope: Scope, item: KnownItem) -> bool {
    exists|k: int, j: int|
        0 <= k < scope.0.len() && scope.1[k] && 0 <= j < scope.0[k].definitions@.len() && #[trigger] known_at(
            scope.0,
            k,
            j,
        ) == item
}

/// Whether an override names a logical item.
pub open spec fn override_identifies(entry: LintOverride, item: LogicalItem) -> bool {
    &&& entry.crate_name@ == item.1
    &&& entry.item@ == item.2
    &&& (entry.definition_kind matches Some(kind) ==> kind == item.3)
}

/// Whether an override selects a finding.
pub open spec fn override_matches(entry: LintOverride, finding: Finding) -> bool {
    &&& entry.lint == finding.kind
    &&& entry.crate_name@ == finding.definition.crate_name@
    &&& entry.item@ == finding.definition.name@
    &&& (entry.definition_kind matches Some(kind) ==> kind == finding.definition.kind)
}

/// Whether `name` is `module` or a path inside it.
pub open spec fn within_module(name: Seq<char>, module: Seq<char>) -> bool {
    name == module || (name.len() >= module.len() + 2 && name.take(module.len() as int) == module && name[module.len() as int] == ':'
        && name[module.len() as int + 1] == ':')
}

/// Whether an exclusion names a known item.
pub open spec fn exclusion_identifies(entry: DiagnosticExclusion, item: KnownItem) -> bool {
    &&& entry.crate_name@ == item.0
    &&& match entry.selector {
        ExclusionSelector::Module(module) => item.2 == DefinitionKind::Module && item.1 == module@,
        ExclusionSelector::File(_, identity) => item.3 == Some(identity@),
    }
}

/// Whether an exclusion selects a finding.
pub open spec fn exclusion_matches(entry: DiagnosticExclusion, finding: Finding) -> bool {
    &&& entry.crate_name@ == finding.definition.crate_name@
    &&& match entry.selector {
        ExclusionSelector::Module(module) => within_module(finding.definition.name@, module@),
        ExclusionSelector::File(_, identity) => finding.definition.span matches Some(span) && span.file@ == identity@,
    }
}

/// How an override fares against the analysis.
#[derive(Clone, Copy, Debug, PartialEq, Eq, Structural)]
pub enum OverrideStatus {
    /// It does not apply: its target selector does not match, or it names a crate outside the
    /// candidates that has analyzed items.
    Ignored,
    /// No analyzed item has its name.
    Unknown,
    /// Several analyzed items have its name.
    Ambiguous,
    /// Exactly one analyzed item has its name.
    Active,
}

/// How an override fares, given whether its target selector matches.
pub open spec fn override_status(entry: LintOverride, applies: bool, scope: Scope) -> OverrideStatus {
    if !applies || !(set_has_text(scope.2, entry.crate_name@) || !exists|item: LogicalItem|
        has_logical_item(scope, item) && #[trigger] item.1 == entry.crate_name@) {
        OverrideStatus::Ignored
    } else if !exists|item: LogicalItem| has_logical_item(scope, item) && #[trigger] override_identifies(entry, item) {
        OverrideStatus::Unknown
    } else if exists|first: LogicalItem, second: LogicalItem|
        first != second && has_logical_item(scope, first) && has_logical_item(scope, second) && #[trigger] override_identifies(
            entry,
            first,
        ) && #[trigger] override_identifies(entry, second) {
        OverrideStatus::Ambiguous
    } else {
        OverrideStatus::Active
    }
}

/// Whether an exclusion applies and names an analyzed item.
pub open spec fn exclusion_active(entry: DiagnosticExclusion, applies: bool, scope: Scope) -> bool {
    applies && exists|item: KnownItem| has_known_item(scope, item) && #[trigger] exclusion_identifies(entry, item)
}

/// A diagnostic about a configuration entry, by the entry's index.
#[derive(Clone, Copy, Debug, PartialEq, Eq, Structural)]
pub enum ConfigDiagnostic {
    /// Override `i` names no analyzed item.
    UnknownItem(usize),
    /// Override `i` names several analyzed items.
    AmbiguousItem(usize),
    /// Override `i` expects a finding that was not produced.
    UnfulfilledOverride(usize),
    /// Exclusion `i` expects a finding that was not produced.
    UnfulfilledExclusion(usize),
}

/// The diagnostics of the first `n` overrides, in order.
pub open spec fn override_diagnostics(overrides: Seq<LintOverride>, applies: Seq<bool>, scope: Scope, n: int) -> Seq<ConfigDiagnostic>
    decreases n,
{
    if n <= 0 {
        Seq::empty()
    } else {
        let k = n - 1;
        let entry = overrides[k];
        override_diagnostics(overrides, applies, scope, k) + match override_status(entry, applies[k], scope) {
            OverrideStatus::Unknown => seq![ConfigDiagnostic::UnknownItem(k as usize)],
            OverrideStatus::Ambiguous => seq![ConfigDiagnostic::AmbiguousItem(k as usize)],
            OverrideStatus::Active => if entry.level == OverrideLevel::Expect && !exists|i: int|
                0 <= i < scope.3.len() && override_matches(entry, #[trigger] scope.3[i]) {
                seq![ConfigDiagnostic::UnfulfilledOverride(k as usize)]
            } else {
                Seq::empty()
            },
            OverrideStatus::Ignored => Seq::empty(),
        }
    }
}

/// The diagnostics of the first `n` exclusions, in order.
pub open spec fn exclusion_diagnostics(exclusions: Seq<DiagnosticExclusion>, applies: Seq<bool>, scope: Scope, n: int) -> Seq<
    ConfigDiagnostic,
>
    decreases n,
{
    if n <= 0 {
        Seq::empty()
    } else {
        let k = n - 1;
        let entry = exclusions[k];
        exclusion_diagnostics(exclusions, applies, scope, k) + if applies[k] && entry.level == OverrideLevel::Expect && !exists|i: int|
            0 <= i < scope.3.len() && exclusion_matches(entry, #[trigger] scope.3[i]) {
            seq![ConfigDiagnostic::UnfulfilledExclusion(k as usize)]
        } else {
            Seq::empty()
        }
    }
}

/// Whether a finding is suppressed by an active override or an active exclusion.
pub open spec fn suppressed(
    finding: Finding,
    overrides: Seq<LintOverride>,
    override_applies: Seq<bool>,
    exclusions: Seq<DiagnosticExclusion>,
    exclusion_applies: Seq<bool>,
    scope: Scope,
) -> bool {
    ||| exists|k: int|
        0 <= k < overrides.len() && override_status(overrides[k], override_applies[k], scope) == OverrideStatus::Active
            && #[trigger] override_matches(overrides[k], finding)
    ||| exists|k: int|
        0 <= k < exclusions.len() && exclusion_active(exclusions[k], exclusion_applies[k], scope) && #[trigger] exclusion_matches(
            exclusions[k],
            finding,
        )
}

/// The findings that remain, in their order.
pub open spec fn kept_findings<'a>(
    findings: Seq<Finding<'a>>,
    overrides: Seq<LintOverride>,
    override_applies: Seq<bool>,
    exclusions: Seq<DiagnosticExclusion>,
    exclusion_applies: Seq<bool>,
    scope: Scope,
) -> Seq<Finding<'a>> {
    findings.filter(|finding: Finding<'a>| !suppressed(finding, overrides, override_applies, exclusions, exclusion_applies, scope))
}

/// The findings that remain after a configuration is applied, and the diagnostics about the
/// configuration.
pub struct AppliedFindings<'a> {
    pub findings: Vec<Finding<'a>>,
    pub config_diagnostics: Vec<ConfigDiagnostic>,
}

/// A question about the definitions of consulted fragments.
pub enum ItemQuery<'q> {
    /// A definition of this crate.
    Crate(&'q str),
    /// A definition that an override names.
    Named(&'q LintOverride),
    /// A definition that an override names, whose logical item differs from that of this one.
    NamedOtherThan(&'q LintOverride, &'q Fragment, &'q Definition),
    /// A definition that an exclusion names.
    Excluded(&'q DiagnosticExclusion),
}

/// The logical item of a definition of a fragment.
pub open spec fn logical_of(fragment: Fragment, definition: Definition) -> LogicalItem {
    (fragment.package_name@, definition.crate_name@, definition.name@, definition.kind)
}

/// The known item of a definition.
pub open spec fn known_of(definition: Definition) -> KnownItem {
    (
        definition.crate_name@,
        definition.name@,
        definition.kind,
        match definition.span {
            Some(span) => Some(span.file@),
            None => None,
        },
    )
}

/// Whether a definition of a fragment answers a query.
pub open spec fn query_holds(query: ItemQuery, fragment: Fragment, definition: Definition) -> bool {
    match query {
        ItemQuery::Crate(name) => definition.crate_name@ == name@,
        ItemQuery::Named(entry) => override_identifies(*entry, logical_of(fragment, definition)),
        ItemQuery::NamedOtherThan(entry, other_fragment, other) => override_identifies(*entry, logical_of(fragment, definition))
            && logical_of(fragment, definition) != logical_of(*other_fragment, *other),
        ItemQuery::Excluded(entry) => exclusion_identifies(*entry, known_of(definition)),
    }
}

fn identifies_exec(entry: &LintOverride, definition: &Definition) -> (holds: bool)
    ensures
        holds == (entry.crate_name@ == definition.crate_name@ && entry.item@ == definition.name@ && (entry.definition_kind matches Some(
            kind,
        ) ==> kind == definition.kind)),
{
    str_equals(entry.crate_name.as_str(), definition.crate_name.as_str()) && str_equals(entry.item.as_str(), definition.name.as_str())
        && match entry.definition_kind {
        Some(kind) => kind == definition.kind,
        None => true,
    }
}

fn query_holds_at(query: &ItemQuery, fragment: &Fragment, definition: &Definition) -> (holds: bool)
    ensures
        holds == query_holds(*query, *fragment, *definition),
{
    match query {
        ItemQuery::Crate(name) => str_equals(definition.crate_name.as_str(), name),
        ItemQuery::Named(entry) => identifies_exec(entry, definition),
        ItemQuery::NamedOtherThan(entry, other_fragment, other) => identifies_exec(entry, definition) && !(str_equals(
            fragment.package_name.as_str(),
            other_fragment.package_name.as_str(),
        ) && str_equals(definition.crate_name.as_str(), other.crate_name.as_str()) && str_equals(
            definition.name.as_str(),
            other.name.as_str(),
        ) && definition.kind == other.kind),
        ItemQuery::Excluded(entry) => str_equals(entry.crate_name.as_str(), definition.crate_name.as_str()) && match &entry.selector {
            ExclusionSelector::Module(module) => definition.kind == DefinitionKind::Module && str_equals(
                definition.name.as_str(),
                module.as_str(),
            ),
            ExclusionSelector::File(_, identity) => match &definition.span {
                Some(span) => str_equals(span.file.as_str(), identity.as_str()),
                None => false,
            },
        },
    }
}

/// The first definition of a consulted fragment that answers a query.
fn find_item(production: &[Fragment], tests: &[Fragment], consulted: &Vec<bool>, query: &ItemQuery) -> (found: Option<(usize, usize)>)
    requires
        production@.len() + tests@.len() <= usize::MAX,
        consulted@.len() == production@.len() + tests@.len(),
    ensures
        ({
            let frames = chain(production@, tests@);
            &&& found is None ==> forall|k: int, j: int|
                0 <= k < frames.len() && consulted@[k] && 0 <= j < frames[k].definitions@.len() ==> !#[trigger] query_holds(
                    *query,
                    frames[k],
                    frames[k].definitions@[j],
                )
            &&& found matches Some((k, j)) ==> k < frames.len() && consulted@[k as int] && j < frames[k as int].definitions@.len()
                && query_holds(*query, frames[k as int], frames[k as int].definitions@[j as int])
        }),
{
    let ghost frames = chain(production@, tests@);
    let count = production.len() + tests.len();
    let mut k: usize = 0;
    while k < count
        invariant
            frames == chain(production@, tests@),
            count == frames.len(),
            consulted@.len() == count,
            k <= count,
            forall|k2: int, j: int|
                0 <= k2 < k && consulted@[k2] && 0 <= j < frames[k2].definitions@.len() ==> !#[trigger] query_holds(
                    *query,
                    frames[k2],
                    frames[k2].definitions@[j],
                ),
        decreases count - k,
    {
        if consulted[k] {
            let fragment = fragment_at(production, tests, k);
            let mut j: usize = 0;
            while j < fragment.definitions.len()
                invariant
                    frames == chain(production@, tests@),
                    count == frames.len(),
                    consulted@.len() == count,
                    k < count,
                    consulted@[k as int],
                    *fragment == frames[k as int],
                    j <= fragment.definitions@.len(),
                    forall|k2: int, j2: int|
                        0 <= k2 < k && consulted@[k2] && 0 <= j2 < frames[k2].definitions@.len() ==> !#[trigger] query_holds(
                            *query,
                            frames[k2],
                            frames[k2].definitions@[j2],
                        ),
                    forall|j2: int| 0 <= j2 < j ==> !#[trigger] query_holds(*query, frames[k as int], frames[k as int].definitions@[j2]),
                decreases fragment.definitions@.len() - j,
            {
                if query_holds_at(query, fragment, &fragment.definitions[j]) {
                    return Some((k, j));
                }
                j = j + 1;
            }
        }
        k = k + 1;
    }
    None
}

/// How an override fares against the consulted definitions.
fn status_of_override(
    entry: &LintOverride,
    applies: bool,
    production: &[Fragment],
    tests: &[Fragment],
    consulted: &Vec<bool>,
    candidates: &HashSet<String>,
    Ghost(findings): Ghost<Seq<Finding>>,
) -> (status: OverrideStatus)
    requires
        production@.len() + tests@.len() <= usize::MAX,
        consulted@.len() == production@.len() + tests@.len(),
    ensures
        status == override_status(*entry, applies, (chain(production@, tests@), consulted@, candidates@, findings)),
{
    let ghost frames = chain(production@, tests@);
    let ghost scope = (frames, consulted@, candidates@, findings);
    if !applies {
        return OverrideStatus::Ignored;
    }
    if !string_set_contains(candidates, &entry.crate_name) {
        let crate_query = ItemQuery::Crate(entry.crate_name.as_str());
        match find_item(production, tests, consulted, &crate_query) {
            Some((k, j)) => {
                proof {
                    let item = logical_at(frames, k as int, j as int);
                    assert(has_logical_item(scope, item));
                    assert(item.1 == entry.crate_name@);
                }
                return OverrideStatus::Ignored;
            },
            None => {
                proof {
                    assert forall|item: LogicalItem| has_logical_item(scope, item) implies #[trigger] item.1 != entry.crate_name@ by {
                        let (k, j) = choose|k: int, j: int|
                            0 <= k < scope.0.len() && scope.1[k] && 0 <= j < scope.0[k].definitions@.len() && #[trigger] logical_at(
                                scope.0,
                                k,
                                j,
                            ) == item;
                        assert(!query_holds(crate_query, frames[k], frames[k].definitions@[j]));
                    }
                }
            },
        }
    }
    match find_item(production, tests, consulted, &ItemQuery::Named(entry)) {
        None => {
            proof {
                assert forall|item: LogicalItem| has_logical_item(scope, item) implies !#[trigger] override_identifies(*entry, item) by {
                    let (k, j) = choose|k: int, j: int|
                        0 <= k < scope.0.len() && scope.1[k] && 0 <= j < scope.0[k].definitions@.len() && #[trigger] logical_at(
                            scope.0,
                            k,
                            j,
                        ) == item;
                    assert(!query_holds(ItemQuery::Named(entry), frames[k], frames[k].definitions@[j]));
                }
            }
            OverrideStatus::Unknown
        },
        Some((k1, j1)) => {
            let fragment = fragment_at(production, tests, k1);
            let definition = &fragment.definitions[j1];
            let ghost first = logical_at(frames, k1 as int, j1 as int);
            proof {
                assert(has_logical_item(scope, first));
                assert(override_identifies(*entry, first));
            }
            match find_item(production, tests, consulted, &ItemQuery::NamedOtherThan(entry, fragment, definition)) {
                Some((k2, j2)) => {
                    proof {
                        let second = logical_at(frames, k2 as int, j2 as int);
                        assert(has_logical_item(scope, second));
                        assert(override_identifies(*entry, second));
                        assert(first != second);
                    }
                    OverrideStatus::Ambiguous
                },
                None => {
                    proof {
                        assert forall|one: LogicalItem, other: LogicalItem|
                            has_logical_item(scope, one) && has_logical_item(scope, other) && #[trigger] override_identifies(*entry, one)
                                && #[trigger] override_identifies(*entry, other) implies one == other by {
                            let (ka, ja) = choose|k: int, j: int|
                                0 <= k < scope.0.len() && scope.1[k] && 0 <= j < scope.0[k].definitions@.len() && #[trigger] logical_at(
                                    scope.0,
                                    k,
                                    j,
                                ) == one;
                            let (kb, jb) = choose|k: int, j: int|
                                0 <= k < scope.0.len() && scope.1[k] && 0 <= j < scope.0[k].definitions@.len() && #[trigger] logical_at(
                                    scope.0,
                                    k,
                                    j,
                                ) == other;
                            assert(!query_holds(ItemQuery::NamedOtherThan(entry, fragment, definition), frames[ka], frames[ka].definitions@[ja]));
                            assert(!query_holds(ItemQuery::NamedOtherThan(entry, fragment, definition), frames[kb], frames[kb].definitions@[jb]));
                        }
                    }
                    OverrideStatus::Active
                },
            }
        },
    }
}

/// Whether an exclusion applies and names a consulted definition.
fn exclusion_is_active(
    entry: &DiagnosticExclusion,
    applies: bool,
    production: &[Fragment],
    tests: &[Fragment],
    consulted: &Vec<bool>,
    Ghost(scope): Ghost<Scope>,
) -> (active: bool)
    requires
        production@.len() + tests@.len() <= usize::MAX,
        consulted@.len() == production@.len() + tests@.len(),
        scope.0 == chain(production@, tests@),
        scope.1 == consulted@,
    ensures
        active == exclusion_active(*entry, applies, scope),
{
    let ghost frames = scope.0;
    if !applies {
        return false;
    }
    match find_item(production, tests, consulted, &ItemQuery::Excluded(entry)) {
        Some((k, j)) => {
            proof {
                let item = known_at(frames, k as int, j as int);
                assert(has_known_item(scope, item));
                assert(exclusion_identifies(*entry, item));
            }
            true
        },
        None => {
            proof {
                assert forall|item: KnownItem| has_known_item(scope, item) implies !#[trigger] exclusion_identifies(*entry, item) by {
                    let (k, j) = choose|k: int, j: int|
                        0 <= k < scope.0.len() && scope.1[k] && 0 <= j < scope.0[k].definitions@.len() && #[trigger] known_at(
                            scope.0,
                            k,
                            j,
                        ) == item;
                    assert(!query_holds(ItemQuery::Excluded(entry), frames[k], frames[k].definitions@[j]));
                }
            }
            false
        },
    }
}

/// Which fragments are consulted, in chain order.
pub open spec fn consulted_fragments(
    production: Seq<Fragment>,
    tests: Seq<Fragment>,
    target: Seq<char>,
    candidates: Set<String>,
) -> Seq<bool> {
    let frames = chain(production, tests);
    Seq::new(frames.len(), |k: int| consulted(frames, k, target, candidates, production, tests))
}

fn consulted_flags(production: &[Fragment], tests: &[Fragment], target: &str, candidates: &HashSet<String>) -> (flags: Vec<bool>)
    requires
        production@.len() + tests@.len() <= usize::MAX,
    ensures
        flags@ == consulted_fragments(production@, tests@, target@, candidates@),
{
    let ghost frames = chain(production@, tests@);
    let audited_fragments = AuditedFragments::new(production, tests);
    let count = production.len() + tests.len();
    let mut flags: Vec<bool> = Vec::new();
    let mut k: usize = 0;
    while k < count
        invariant
            frames == chain(production@, tests@),
            count == frames.len(),
            audited_fragments.production_fragments() == production@,
            audited_fragments.test_fragments() == tests@,
            k <= count,
            flags@.len() == k,
            forall|i: int| 0 <= i < k ==> #[trigger] flags@[i] == consulted(frames, i, target@, candidates@, production@, tests@),
        decreases count - k,
    {
        let fragment = fragment_at(production, tests, k);
        let flag = str_equals(fragment.compilation_target.as_str(), target) && (!string_set_contains(candidates, &fragment.crate_name)
            || audited_fragments.contains(fragment));
        flags.push(flag);
        k = k + 1;
    }
    proof {
        assert(flags@ =~= consulted_fragments(production@, tests@, target@, candidates@));
    }
    flags
}

fn within_module_exec(name: &str, module: &str) -> (within: bool)
    ensures
        within == within_module(name@, module@),
{
    if str_equals(name, module) {
        return true;
    }
    let name_length = name.unicode_len();
    let module_length = module.unicode_len();
    if name_length < 2 || name_length - 2 < module_length {
        return false;
    }
    let prefix = name.substring_char(0, module_length);
    str_equals(prefix, module) && name.get_char(module_length) == ':' && name.get_char(module_length + 1) == ':'
}

fn override_matches_exec(entry: &LintOverride, finding: &Finding) -> (matched: bool)
    ensures
        matched == override_matches(*entry, *finding),
{
    entry.lint == finding.kind && identifies_exec(entry, finding.definition)
}

fn exclusion_matches_exec(entry: &DiagnosticExclusion, finding: &Finding) -> (matched: bool)
    ensures
        matched == exclusion_matches(*entry, *finding),
{
    str_equals(entry.crate_name.as_str(), finding.definition.crate_name.as_str()) && match &entry.selector {
        ExclusionSelector::Module(module) => within_module_exec(finding.definition.name.as_str(), module.as_str()),
        ExclusionSelector::File(_, identity) => match &finding.definition.span {
            Some(span) => str_equals(span.file.as_str(), identity.as_str()),
            None => false,
        },
    }
}

fn some_finding_matches_override(entry: &LintOverride, findings: &Vec<Finding>) -> (found: bool)
    ensures
        found == exists|i: int| 0 <= i < findings@.len() && override_matches(*entry, #[trigger] findings@[i]),
{
    let mut k: usize = 0;
    while k < findings.len()
        invariant
            k <= findings@.len(),
            forall|i: int| 0 <= i < k ==> !override_matches(*entry, #[trigger] findings@[i]),
        decreases findings@.len() - k,
    {
        if override_matches_exec(entry, &findings[k]) {
            return true;
        }
        k = k + 1;
    }
    false
}

fn some_finding_matches_exclusion(entry: &DiagnosticExclusion, findings: &Vec<Finding>) -> (found: bool)
    ensures
        found == exists|i: int| 0 <= i < findings@.len() && exclusion_matches(*entry, #[trigger] findings@[i]),
{
    let mut k: usize = 0;
    while k < findings.len()
        invariant
            k <= findings@.len(),
            forall|i: int| 0 <= i < k ==> !exclusion_matches(*entry, #[trigger] findings@[i]),
        decreases findings@.len() - k,
    {
        if exclusion_matches_exec(entry, &findings[k]) {
            return true;
        }
        k = k + 1;
    }
    false
}

/// The module a module exclusion selects.
pub open spec fn excluded_module(entry: DiagnosticExclusion) -> Option<Seq<char>> {
    match entry.selector {
        ExclusionSelector::Module(module) => Some(module@),
        ExclusionSelector::File(_, _) => None,
    }
}

/// A module exclusion selects exactly the findings of its crate whose item is the module or a
/// path inside it: the module's name followed by `::` and more.
pub proof fn lemma_module_exclusion_selects_its_subtree(entry: DiagnosticExclusion, finding: Finding, rest: Seq<char>)
    requires
        excluded_module(entry) is Some,
    ensures
        ({
            let module = excluded_module(entry)->0;
            let name = finding.definition.name@;
            &&& (entry.crate_name@ == finding.definition.crate_name@ && (name == module || name == module + seq![':', ':'] + rest))
                ==> exclusion_matches(entry, finding)
            &&& exclusion_matches(entry, finding) ==> entry.crate_name@ == finding.definition.crate_name@ && (name == module
                || exists|tail: Seq<char>| name == module + seq![':', ':'] + tail)
        }),
{
    let module = excluded_module(entry)->0;
    let name = finding.definition.name@;
    let path = module + seq![':', ':'] + rest;
    assert(path.take(module.len() as int) =~= module);
    assert(path[module.len() as int] == ':' && path[module.len() as int + 1] == ':');
    if exclusion_matches(entry, finding) && name != module {
        let tail = name.skip(module.len() as int + 2);
        assert(name =~= module + seq![':', ':'] + tail);
    }
}

/// An active module exclusion removes from the applied findings every finding of its crate
/// whose item is the module or lies inside it.
pub proof fn lemma_active_module_exclusion_removes_its_subtree<'a>(
    config: Config,
    override_applies: Seq<bool>,
    exclusion_applies: Seq<bool>,
    target: Seq<char>,
    production: Seq<Fragment>,
    tests: Seq<Fragment>,
    candidates: Set<String>,
    findings: Seq<Finding<'a>>,
    k: int,
    i: int,
    rest: Seq<char>,
)
    requires
        0 <= k < config.exclusion_entries().len(),
        exclusion_applies.len() == config.exclusion_entries().len(),
        exclusion_active(
            config.exclusion_entries()[k],
            exclusion_applies[k],
            (chain(production, tests), consulted_fragments(production, tests, target, candidates), candidates, findings),
        ),
        excluded_module(config.exclusion_entries()[k]) is Some,
        0 <= i < findings.len(),
        findings[i].definition.crate_name@ == config.exclusion_entries()[k].crate_name@,
        findings[i].definition.name@ == excluded_module(config.exclusion_entries()[k])->0 || findings[i].definition.name@
            == excluded_module(config.exclusion_entries()[k])->0 + seq![':', ':'] + rest,
    ensures
        !application(config, override_applies, exclusion_applies, target, production, tests, candidates, findings).1.contains(findings[i]),
{
    let scope = (chain(production, tests), consulted_fragments(production, tests, target, candidates), candidates, findings);
    let entry = config.exclusion_entries()[k];
    lemma_module_exclusion_selects_its_subtree(entry, findings[i], rest);
    assert(exclusion_matches(config.exclusion_entries()[k], findings[i]));
    let keep = |finding: Finding<'a>| !suppressed(finding, config.override_entries(), override_applies, config.exclusion_entries(), exclusion_applies, scope);
    assert(!keep(findings[i]));
    let kept = findings.filter(keep);
    if kept.contains(findings[i]) {
        let j = choose|j: int| 0 <= j < kept.len() && kept[j] == findings[i];
        findings.lemma_filter_pred(keep, j);
    }
}

/// The diagnostics and the remaining findings of applying a configuration, given which of its
/// overrides and exclusions apply to the analysis target.
pub open spec fn application<'a>(
    config: Config,
    override_applies: Seq<bool>,
    exclusion_applies: Seq<bool>,
    target: Seq<char>,
    production: Seq<Fragment>,
    tests: Seq<Fragment>,
    candidates: Set<String>,
    findings: Seq<Finding<'a>>,
) -> (Seq<ConfigDiagnostic>, Seq<Finding<'a>>) {
    let scope = (chain(production, tests), consulted_fragments(production, tests, target, candidates), candidates, findings);
    (
        override_diagnostics(config.override_entries(), override_applies, scope, config.override_entries().len() as int)
            + exclusion_diagnostics(config.exclusion_entries(), exclusion_applies, scope, config.exclusion_entries().len() as int),
        kept_findings(findings, config.override_entries(), override_applies, config.exclusion_entries(), exclusion_applies, scope),
    )
}

/// Applies a configuration to findings, given which overrides and exclusions apply to the
/// analysis target.
///
/// Overrides and exclusions are checked against the items of the fragments compiled for the
/// target whose crates are audited or are not candidates. An override that names no such item,
/// or several, is reported and suppresses nothing; an expectation that selects no finding is
/// reported. A finding selected by an active override or exclusion is removed.
pub fn apply_with<'a>(
    config: &Config,
    override_applies: &[bool],
    exclusion_applies: &[bool],
    target: &str,
    production: &[Fragment],
    tests: &[Fragment],
    candidates: &HashSet<String>,
    findings: Vec<Finding<'a>>,
) -> (applied: AppliedFindings<'a>)
    requires
        override_applies@.len() == config.override_entries().len(),
        exclusion_applies@.len() == config.exclusion_entries().len(),
        production@.len() + tests@.len() <= usize::MAX,
    ensures
        (applied.config_diagnostics@, applied.findings@) == application(
            *config,
            override_applies@,
            exclusion_applies@,
            target@,
            production@,
            tests@,
            candidates@,
            findings@,
        ),
{
    let consulted = consulted_flags(production, tests, target, candidates);
    let ghost scope = (chain(production@, tests@), consulted@, candidates@, findings@);
    let overrides = config.override_list();
    let exclusions = config.exclusion_list();
    let mut diagnostics: Vec<ConfigDiagnostic> = Vec::new();
    let mut active_overrides: Vec<bool> = Vec::new();
    let mut k: usize = 0;
    while k < overrides.len()
        invariant
            scope == (chain(production@, tests@), consulted@, candidates@, findings@),
            consulted@.len() == production@.len() + tests@.len(),
            production@.len() + tests@.len() <= usize::MAX,
            override_applies@.len() == overrides@.len(),
            k <= overrides@.len(),
            active_overrides@.len() == k,
            forall|i: int| 0 <= i < k ==> #[trigger] active_overrides@[i] == (override_status(overrides@[i], override_applies@[i], scope)
                == OverrideStatus::Active),
            diagnostics@ == override_diagnostics(overrides@, override_applies@, scope, k as int),
        decreases overrides@.len() - k,
    {
        let entry = &overrides[k];
        let status = status_of_override(entry, override_applies[k], production, tests, &consulted, candidates, Ghost(findings@));
        match status {
            OverrideStatus::Unknown => diagnostics.push(ConfigDiagnostic::UnknownItem(k)),
            OverrideStatus::Ambiguous => diagnostics.push(ConfigDiagnostic::AmbiguousItem(k)),
            OverrideStatus::Active => {
                if entry.level == OverrideLevel::Expect && !some_finding_matches_override(entry, &findings) {
                    diagnostics.push(ConfigDiagnostic::UnfulfilledOverride(k));
                }
            },
            OverrideStatus::Ignored => {},
        }
        active_overrides.push(status == OverrideStatus::Active);
        proof {
            assert(override_diagnostics(overrides@, override_applies@, scope, k + 1) == override_diagnostics(overrides@, override_applies@, scope, k as int)
                + match override_status(overrides@[k as int], override_applies@[k as int], scope) {
                OverrideStatus::Unknown => seq![ConfigDiagnostic::UnknownItem(k)],
                OverrideStatus::Ambiguous => seq![ConfigDiagnostic::AmbiguousItem(k)],
                OverrideStatus::Active => if overrides@[k as int].level == OverrideLevel::Expect && !exists|i: int|
                    0 <= i < scope.3.len() && override_matches(overrides@[k as int], #[trigger] scope.3[i]) {
                    seq![ConfigDiagnostic::UnfulfilledOverride(k)]
                } else {
                    Seq::empty()
                },
                OverrideStatus::Ignored => Seq::empty(),
            });
        }
        k = k + 1;
    }
    let ghost override_part = diagnostics@;
    let mut active_exclusions: Vec<bool> = Vec::new();
    let mut k: usize = 0;
    while k < exclusions.len()
        invariant
            scope == (chain(production@, tests@), consulted@, candidates@, findings@),
            consulted@.len() == production@.len() + tests@.len(),
            production@.len() + tests@.len() <= usize::MAX,
            exclusion_applies@.len() == exclusions@.len(),
            k <= exclusions@.len(),
            active_exclusions@.len() == k,
            forall|i: int| 0 <= i < k ==> #[trigger] active_exclusions@[i] == exclusion_active(exclusions@[i], exclusion_applies@[i], scope),
            diagnostics@ == override_part + exclusion_diagnostics(exclusions@, exclusion_applies@, scope, k as int),
        decreases exclusions@.len() - k,
    {
        let entry = &exclusions[k];
        let active = exclusion_is_active(entry, exclusion_applies[k], production, tests, &consulted, Ghost(scope));
        if exclusion_applies[k] && entry.level == OverrideLevel::Expect && !some_finding_matches_exclusion(entry, &findings) {
            diagnostics.push(ConfigDiagnostic::UnfulfilledExclusion(k));
        }
        active_exclusions.push(active);
        proof {
            assert(exclusion_diagnostics(exclusions@, exclusion_applies@, scope, k + 1) == exclusion_diagnostics(exclusions@, exclusion_applies@, scope, k as int)
                + if exclusion_applies@[k as int] && exclusions@[k as int].level == OverrideLevel::Expect && !exists|i: int|
                0 <= i < scope.3.len() && exclusion_matches(exclusions@[k as int], #[trigger] scope.3[i]) {
                seq![ConfigDiagnostic::UnfulfilledExclusion(k)]
            } else {
                Seq::empty()
            });
            assert(diagnostics@ =~= override_part + exclusion_diagnostics(exclusions@, exclusion_applies@, scope, k + 1));
        }
        k = k + 1;
    }
    let kept = keep_findings(&findings, overrides, &active_overrides, exclusions, &active_exclusions, Ghost(override_applies@), Ghost(exclusion_applies@), Ghost(scope));
    AppliedFindings { findings: kept, config_diagnostics: diagnostics }
}

fn is_suppressed<'a>(
    finding: &Finding<'a>,
    overrides: &[LintOverride],
    active_overrides: &Vec<bool>,
    exclusions: &[DiagnosticExclusion],
    active_exclusions: &Vec<bool>,
    Ghost(override_applies): Ghost<Seq<bool>>,
    Ghost(exclusion_applies): Ghost<Seq<bool>>,
    Ghost(scope): Ghost<Scope<'a>>,
) -> (hidden: bool)
    requires
        active_overrides@.len() == overrides@.len(),
        override_applies.len() == overrides@.len(),
        forall|i: int| 0 <= i < overrides@.len() ==> #[trigger] active_overrides@[i] == (override_status(overrides@[i], override_applies[i], scope)
            == OverrideStatus::Active),
        active_exclusions@.len() == exclusions@.len(),
        exclusion_applies.len() == exclusions@.len(),
        forall|i: int| 0 <= i < exclusions@.len() ==> #[trigger] active_exclusions@[i] == exclusion_active(exclusions@[i], exclusion_applies[i], scope),
    ensures
        hidden == suppressed(*finding, overrides@, override_applies, exclusions@, exclusion_applies, scope),
{
    let mut i: usize = 0;
    while i < overrides.len()
        invariant
            active_overrides@.len() == overrides@.len(),
            override_applies.len() == overrides@.len(),
            forall|i: int| 0 <= i < overrides@.len() ==> #[trigger] active_overrides@[i] == (override_status(overrides@[i], override_applies[i], scope)
                == OverrideStatus::Active),
            i <= overrides@.len(),
            forall|i2: int| 0 <= i2 < i && override_status(overrides@[i2], override_applies[i2], scope) == OverrideStatus::Active
                ==> !#[trigger] override_matches(overrides@[i2], *finding),
        decreases overrides@.len() - i,
    {
        if active_overrides[i] && override_matches_exec(&overrides[i], finding) {
            return true;
        }
        i = i + 1;
    }
    let mut i: usize = 0;
    while i < exclusions.len()
        invariant
            active_exclusions@.len() == exclusions@.len(),
            exclusion_applies.len() == exclusions@.len(),
            forall|i: int| 0 <= i < exclusions@.len() ==> #[trigger] active_exclusions@[i] == exclusion_active(exclusions@[i], exclusion_applies[i], scope),
            i <= exclusions@.len(),
            forall|i2: int| 0 <= i2 < overrides@.len() && override_status(overrides@[i2], override_applies[i2], scope) == OverrideStatus::Active
                ==> !#[trigger] override_matches(overrides@[i2], *finding),
            forall|i2: int| 0 <= i2 < i && exclusion_active(exclusions@[i2], exclusion_applies[i2], scope)
                ==> !#[trigger] exclusion_matches(exclusions@[i2], *finding),
        decreases exclusions@.len() - i,
    {
        if active_exclusions[i] && exclusion_matches_exec(&exclusions[i], finding) {
            return true;
        }
        i = i + 1;
    }
    false
}

fn keep_findings<'a>(
    findings: &Vec<Finding<'a>>,
    overrides: &[LintOverride],
    active_overrides: &Vec<bool>,
    exclusions: &[DiagnosticExclusion],
    active_exclusions: &Vec<bool>,
    Ghost(override_applies): Ghost<Seq<bool>>,
    Ghost(exclusion_applies): Ghost<Seq<bool>>,
    Ghost(scope): Ghost<Scope<'a>>,
) -> (kept: Vec<Finding<'a>>)
    requires
        active_overrides@.len() == overrides@.len(),
        override_applies.len() == overrides@.len(),
        forall|i: int| 0 <= i < overrides@.len() ==> #[trigger] active_overrides@[i] == (override_status(overrides@[i], override_applies[i], scope)
            == OverrideStatus::Active),
        active_exclusions@.len() == exclusions@.len(),
        exclusion_applies.len() == exclusions@.len(),
        forall|i: int| 0 <= i < exclusions@.len() ==> #[trigger] active_exclusions@[i] == exclusion_active(exclusions@[i], exclusion_applies[i], scope),
    ensures
        kept@ == kept_findings(findings@, overrides@, override_applies, exclusions@, exclusion_applies, scope),
{
    let ghost keep = |finding: Finding<'a>| !suppressed(finding, overrides@, override_applies, exclusions@, exclusion_applies, scope);
    let mut kept: Vec<Finding<'a>> = Vec::new();
    let mut k: usize = 0;
    while k < findings.len()
        invariant
            keep == (|finding: Finding<'a>| !suppressed(finding, overrides@, override_applies, exclusions@, exclusion_applies, scope)),
            active_overrides@.len() == overrides@.len(),
            override_applies.len() == overrides@.len(),
            forall|i: int| 0 <= i < overrides@.len() ==> #[trigger] active_overrides@[i] == (override_status(overrides@[i], override_applies[i], scope)
                == OverrideStatus::Active),
            active_exclusions@.len() == exclusions@.len(),
            exclusion_applies.len() == exclusions@.len(),
            forall|i: int| 0 <= i < exclusions@.len() ==> #[trigger] active_exclusions@[i] == exclusion_active(exclusions@[i], exclusion_applies[i], scope),
            k <= findings@.len(),
            kept@ == findings@.take(k as int).filter(keep),
        decreases findings@.len() - k,
    {
        let finding = &findings[k];
        let hidden = is_suppressed(finding, overrides, active_overrides, exclusions, active_exclusions, Ghost(override_applies), Ghost(exclusion_applies), Ghost(scope));
        proof {
            reveal(Seq::filter);
            assert(findings@.take(k + 1).drop_last() =~= findings@.take(k as int));
        }
        if !hidden {
            let copy = finding.clone_finding();
            assert(copy == *finding);
            kept.push(copy);
        }
        k = k + 1;
    }
    proof {
        assert(findings@.take(findings@.len() as int) =~= findings@);
    }
    kept
}

impl Config {
    /// Applies this configuration to the findings of an analysis for `target`.
    ///
    /// An override or exclusion takes part when its target selector, if it has one, selects
    /// the target; the result is then what `apply_with` states for those entries.
    pub fn apply<'a>(
        &self,
        target: &AnalysisTarget,
        production: &[Fragment],
        tests: &[Fragment],
        candidates: &HashSet<String>,
        findings: Vec<Finding<'a>>,
    ) -> (applied: AppliedFindings<'a>)
        requires
            self.wf(),
            target.wf(),
            production@.len() + tests@.len() <= usize::MAX,
        ensures
            (applied.config_diagnostics@, applied.findings@) == application(
                *self,
                override_flags(self.override_entries(), *target),
                exclusion_flags(self.exclusion_entries(), *target),
                target.name_text(),
                production@,
                tests@,
                candidates@,
                findings@,
            ),
    {
        proof {
            self.lemma_selectors_parse();
        }
        let overrides = self.override_list();
        let mut override_applies: Vec<bool> = Vec::new();
        let mut k: usize = 0;
        while k < overrides.len()
            invariant
                overrides@ == self.override_entries(),
                forall|i: int| 0 <= i < overrides@.len() ==> crate::settings::selector_parses((#[trigger] overrides@[i]).target),
                target.wf(),
                k <= overrides@.len(),
                override_applies@.len() == k,
                forall|i: int| 0 <= i < k ==> override_applies@[i] == selector_applies(#[trigger] overrides@[i].target, *target),
            decreases overrides@.len() - k,
        {
            let applies = applies_to(&overrides[k].target, target);
            override_applies.push(applies);
            k = k + 1;
        }
        let exclusions = self.exclusion_list();
        let mut exclusion_applies: Vec<bool> = Vec::new();
        let mut k: usize = 0;
        while k < exclusions.len()
            invariant
                exclusions@ == self.exclusion_entries(),
                forall|i: int| 0 <= i < exclusions@.len() ==> crate::settings::selector_parses((#[trigger] exclusions@[i]).target),
                target.wf(),
                k <= exclusions@.len(),
                exclusion_applies@.len() == k,
                forall|i: int| 0 <= i < k ==> exclusion_applies@[i] == selector_applies(#[trigger] exclusions@[i].target, *target),
            decreases exclusions@.len() - k,
        {
            let applies = applies_to(&exclusions[k].target, target);
            exclusion_applies.push(applies);
            k = k + 1;
        }
        proof {
            assert(override_applies@ =~= override_flags(self.override_entries(), *target));
            assert(exclusion_applies@ =~= exclusion_flags(self.exclusion_entries(), *target));
        }
        apply_with(self, override_applies.as_slice(), exclusion_applies.as_slice(), target.name(), production, tests, candidates, findings)
    }
}

/// For each lint override, whether it applies to the analysis target.
pub open spec fn override_flags(entries: Seq<LintOverride>, target: AnalysisTarget) -> Seq<bool> {
    Seq::new(entries.len(), |k: int| selector_applies(entries[k].target, target))
}

/// For each diagnostic exclusion, whether it applies to the analysis target.
pub open spec fn exclusion_flags(entries: Seq<DiagnosticExclusion>, target: AnalysisTarget) -> Seq<bool> {
    Seq::new(entries.len(), |k: int| selector_applies(entries[k].target, target))
}

impl ConfigDiagnostic {
    /// The kind of this diagnostic.
    pub fn kind(self) -> (kind: ConfigDiagnosticKind)
        ensures
            kind == diagnostic_kind_of(self),
    {
        match self {
            ConfigDiagnostic::UnknownItem(_) => ConfigDiagnosticKind::UnknownItem,
            ConfigDiagnostic::AmbiguousItem(_) => ConfigDiagnosticKind::AmbiguousItem,
            ConfigDiagnostic::UnfulfilledOverride(_) | ConfigDiagnostic::UnfulfilledExclusion(_) => ConfigDiagnosticKind::UnfulfilledExpectation,
        }
    }

    /// The position of the entry this diagnostic is about.
    pub fn span(self, config: &Config) -> (span: ConfigSpan)
        requires
            diagnostic_in(self, config),
        ensures
            span == diagnostic_span(self, config),
    {
        match self {
            ConfigDiagnostic::UnknownItem(i) | ConfigDiagnostic::AmbiguousItem(i) | ConfigDiagnostic::UnfulfilledOverride(i) => config.override_list()[i].span,
            ConfigDiagnostic::UnfulfilledExclusion(i) => config.exclusion_list()[i].span,
        }
    }

    /// The reason written for the entry this diagnostic is about.
    pub fn reason(self, config: &Config) -> (reason: &str)
        requires
            diagnostic_in(self, config),
        ensures
            reason@ == diagnostic_reason(self, config),
    {
        match self {
            ConfigDiagnostic::UnknownItem(i) | ConfigDiagnostic::AmbiguousItem(i) | ConfigDiagnostic::UnfulfilledOverride(i) => config.override_list()[i].reason.as_str(),
            ConfigDiagnostic::UnfulfilledExclusion(i) => config.exclusion_list()[i].reason.as_str(),
        }
    }
}

/// The kind of a configuration diagnostic.
pub open spec fn diagnostic_kind_of(diagnostic: ConfigDiagnostic) -> ConfigDiagnosticKind {
    match diagnostic {
        ConfigDiagnostic::UnknownItem(_) => ConfigDiagnosticKind::UnknownItem,
        ConfigDiagnostic::AmbiguousItem(_) => ConfigDiagnosticKind::AmbiguousItem,
        _ => ConfigDiagnosticKind::UnfulfilledExpectation,
    }
}

/// Whether a diagnostic refers to an entry of the configuration.
pub open spec fn diagnostic_in(diagnostic: ConfigDiagnostic, config: &Config) -> bool {
    match diagnostic {
        ConfigDiagnostic::UnknownItem(i) | ConfigDiagnostic::AmbiguousItem(i) | ConfigDiagnostic::UnfulfilledOverride(i) => i < config.override_entries().len(),
        ConfigDiagnostic::UnfulfilledExclusion(i) => i < config.exclusion_entries().len(),
    }
}

/// The position of the entry a diagnostic is about.
pub open spec fn diagnostic_span(diagnostic: ConfigDiagnostic, config: &Config) -> ConfigSpan {
    match diagnostic {
        ConfigDiagnostic::UnknownItem(i) | ConfigDiagnostic::AmbiguousItem(i) | ConfigDiagnostic::UnfulfilledOverride(i) => config.override_entries()[i as int].span,
        ConfigDiagnostic::UnfulfilledExclusion(i) => config.exclusion_entries()[i as int].span,
    }
}

/// The reason of the entry a diagnostic is about.
pub open spec fn diagnostic_reason(diagnostic: ConfigDiagnostic, config: &Config) -> Seq<char> {
    match diagnostic {
        ConfigDiagnostic::UnknownItem(i) | ConfigDiagnostic::AmbiguousItem(i) | ConfigDiagnostic::UnfulfilledOverride(i) => config.override_entries()[i as int].reason@,
        ConfigDiagnostic::UnfulfilledExclusion(i) => config.exclusion_entries()[i as int].reason@,
    }
}

/// Every diagnostic of an application refers to an entry of the configuration.
pub proof fn lemma_diagnostics_refer_to_entries(
    config: &Config,
    override_applies: Seq<bool>,
    exclusion_applies: Seq<bool>,
    scope: Scope,
    n: int,
    m: int,
)
    requires
        0 <= n <= config.override_entries().len(),
        0 <= m <= config.exclusion_entries().len(),
    ensures
        forall|d: int| 0 <= d < (override_diagnostics(config.override_entries(), override_applies, scope, n) + exclusion_diagnostics(
            config.exclusion_entries(),
            exclusion_applies,
            scope,
            m,
        )).len() ==> diagnostic_in(
            #[trigger] (override_diagnostics(config.override_entries(), override_applies, scope, n) + exclusion_diagnostics(
                config.exclusion_entries(),
                exclusion_applies,
                scope,
                m,
            ))[d],
            config,
        ),
    decreases n + m,
{
    if m > 0 {
        lemma_diagnostics_refer_to_entries(config, override_applies, exclusion_applies, scope, n, m - 1);
        let before = override_diagnostics(config.override_entries(), override_applies, scope, n) + exclusion_diagnostics(
            config.exclusion_entries(),
            exclusion_applies,
            scope,
            m - 1,
        );
        let after = override_diagnostics(config.override_entries(), override_applies, scope, n) + exclusion_diagnostics(
            config.exclusion_entries(),
            exclusion_applies,
            scope,
            m,
        );
        assert forall|d: int| 0 <= d < after.len() implies diagnostic_in(#[trigger] after[d], config) by {
            if d < before.len() {
                assert(after[d] == before[d]);
            }
        }
    } else if n > 0 {
        lemma_diagnostics_refer_to_entries(config, override_applies, exclusion_applies, scope, n - 1, 0);
        let before = override_diagnostics(config.override_entries(), override_applies, scope, n - 1);
        let after = override_diagnostics(config.override_entries(), override_applies, scope, n);
        assert(exclusion_diagnostics(config.exclusion_entries(), exclusion_applies, scope, 0) =~= Seq::empty());
        assert(before + Seq::<ConfigDiagnostic>::empty() =~= before);
        assert(after + Seq::<ConfigDiagnostic>::empty() =~= after);
        assert forall|d: int| 0 <= d < after.len() implies diagnostic_in(#[trigger] after[d], config) by {
            if d < before.len() {
                assert(after[d] == before[d]);
            }
        }
    } else {
        assert(override_diagnostics(config.override_entries(), override_applies, scope, 0) + exclusion_diagnostics(
            config.exclusion_entries(),
            exclusion_applies,
            scope,
            0,
        ) =~= Seq::<ConfigDiagnostic>::empty());
    }
}

} // verus!
