//! The decisions of an analysis run: which findings are reported, which are fixed in which
//! round, which products and crates are analyzed, and how lint levels are read in order.

use vstd::prelude::*;
use crate::config::ProductionProduct;
use crate::invocation::{ProductionSelection, crate_name, crate_name_of, selection_applies};
use crate::lints::{DiagnosticKind, LintLevel, LintLevels, LintSelector, OnlyFinding, UnknownLintSelector, level_of, selector_of_text};
use crate::model::{DefinitionId, Finding, FindingKind};
use crate::settings::{ProductionConsumer, texts};
use crate::text::str_equals;

verus! {

/// Whether `--only` keeps findings of a kind.
pub open spec fn only_keeps(only: Option<OnlyFinding>, kind: FindingKind) -> bool {
    match only {
        Some(OnlyFinding::DeadPublic) => kind == FindingKind::DeadPublic,
        Some(OnlyFinding::TestOnly) => kind == FindingKind::TestOnly,
        None => true,
    }
}

/// Whether a finding of `kind` is reported: `--only` keeps it and its level emits it.
pub open spec fn reported(kind: FindingKind, only: Option<OnlyFinding>, overrides: Seq<(LintSelector, LintLevel)>) -> bool {
    only_keeps(only, kind) && level_of(overrides, DiagnosticKind::Finding(kind)) != LintLevel::Allow
}

/// Whether a finding of `kind` is reported.
pub fn is_reported(kind: FindingKind, only: Option<OnlyFinding>, levels: &LintLevels) -> (result: bool)
    ensures
        result == reported(kind, only, levels.overrides@),
{
    let kept = match only {
        Some(only) => only.includes(kind),
        None => true,
    };
    kept && levels.level(DiagnosticKind::Finding(kind)).is_emitted()
}

/// Whether fix round `iteration` changes findings of `kind`: narrowing below the crate in
/// every round, and `pub` to `pub(crate)` only in the first. Narrowing unreachable public
/// surface in later rounds could make the compiler's own dead-code lint fire, which needs
/// removing code rather than changing visibility.
pub open spec fn fixable_in(kind: FindingKind, iteration: nat) -> bool {
    kind == FindingKind::UnnecessaryRestrictedVisibility || kind == FindingKind::UnnecessaryCrateVisibility || (iteration == 0
        && kind == FindingKind::UnnecessaryPublic)
}

/// The findings that fix round `iteration` applies, in order: reported and fixable then.
pub open spec fn fixable_findings_spec<'a>(
    findings: Seq<Finding<'a>>,
    only: Option<OnlyFinding>,
    overrides: Seq<(LintSelector, LintLevel)>,
    iteration: nat,
) -> Seq<Finding<'a>> {
    findings.filter(|finding: Finding<'a>| reported(finding.kind, only, overrides) && fixable_in(finding.kind, iteration))
}

/// The findings that fix round `iteration` applies.
pub fn fixable_findings<'a>(findings: &[Finding<'a>], only: Option<OnlyFinding>, levels: &LintLevels, iteration: usize) -> (fixable: Vec<
    Finding<'a>,
>)
    ensures
        fixable@ == fixable_findings_spec(findings@, only, levels.overrides@, iteration as nat),
{
    let ghost keep = |finding: Finding<'a>| reported(finding.kind, only, levels.overrides@) && fixable_in(finding.kind, iteration as nat);
    let mut fixable: Vec<Finding<'a>> = Vec::new();
    let mut k: usize = 0;
    while k < findings.len()
        invariant
            keep == (|finding: Finding<'a>| reported(finding.kind, only, levels.overrides@) && fixable_in(finding.kind, iteration as nat)),
            k <= findings@.len(),
            fixable@ == findings@.take(k as int).filter(keep),
        decreases findings@.len() - k,
    {
        let finding = &findings[k];
        let kind = finding.kind;
        let narrows = match kind {
            FindingKind::UnnecessaryRestrictedVisibility | FindingKind::UnnecessaryCrateVisibility => true,
            FindingKind::UnnecessaryPublic => iteration == 0,
            _ => false,
        };
        let chosen = narrows && is_reported(kind, only, levels);
        proof {
            reveal(Seq::filter);
            assert(findings@.take(k + 1).drop_last() =~= findings@.take(k as int));
        }
        if chosen {
            let copy = finding.clone_finding();
            assert(copy == *finding);
            fixable.push(copy);
        }
        k = k + 1;
    }
    proof {
        assert(findings@.take(findings@.len() as int) =~= findings@);
    }
    fixable
}

/// Whether a finding concerns declarations compiled for tests.
pub open spec fn for_tests(finding: Finding) -> bool {
    finding.test_only || finding.test_compiled_only
}

/// The findings fixed in the non-production build when `tests` holds, else those fixed in the
/// production build, in order.
pub open spec fn findings_for_mode<'a>(findings: Seq<Finding<'a>>, tests: bool) -> Seq<Finding<'a>> {
    findings.filter(|finding: Finding<'a>| for_tests(finding) == tests)
}

/// The findings fixed in the non-production build when `tests` holds, else those fixed in the
/// production build.
pub fn findings_for_build<'a>(findings: &[Finding<'a>], tests: bool) -> (selected: Vec<Finding<'a>>)
    ensures
        selected@ == findings_for_mode(findings@, tests),
{
    let ghost keep = |finding: Finding<'a>| for_tests(finding) == tests;
    let mut selected: Vec<Finding<'a>> = Vec::new();
    let mut k: usize = 0;
    while k < findings.len()
        invariant
            keep == (|finding: Finding<'a>| for_tests(finding) == tests),
            k <= findings@.len(),
            selected@ == findings@.take(k as int).filter(keep),
        decreases findings@.len() - k,
    {
        let finding = &findings[k];
        proof {
            reveal(Seq::filter);
            assert(findings@.take(k + 1).drop_last() =~= findings@.take(k as int));
        }
        if (finding.test_only || finding.test_compiled_only) == tests {
            let copy = finding.clone_finding();
            assert(copy == *finding);
            selected.push(copy);
        }
        k = k + 1;
    }
    proof {
        assert(findings@.take(findings@.len() as int) =~= findings@);
    }
    selected
}

/// The definitions of the reported findings, in order.
pub open spec fn reported_ids(findings: Seq<Finding>, only: Option<OnlyFinding>, overrides: Seq<(LintSelector, LintLevel)>) -> Seq<DefinitionId>
    decreases findings.len(),
{
    if findings.len() == 0 {
        Seq::empty()
    } else {
        reported_ids(findings.drop_last(), only, overrides) + if reported(findings.last().kind, only, overrides) {
            seq![findings.last().definition.id]
        } else {
            Seq::empty()
        }
    }
}

/// The definitions of the reported findings.
pub fn emitted_finding_ids(findings: &[Finding], only: Option<OnlyFinding>, levels: &LintLevels) -> (ids: Vec<DefinitionId>)
    ensures
        ids@ == reported_ids(findings@, only, levels.overrides@),
{
    let mut ids: Vec<DefinitionId> = Vec::new();
    let mut k: usize = 0;
    while k < findings.len()
        invariant
            k <= findings@.len(),
            ids@ == reported_ids(findings@.take(k as int), only, levels.overrides@),
        decreases findings@.len() - k,
    {
        proof {
            assert(findings@.take(k + 1).drop_last() =~= findings@.take(k as int));
        }
        if is_reported(findings[k].kind, only, levels) {
            ids.push(findings[k].definition.id);
        }
        k = k + 1;
    }
    proof {
        assert(findings@.take(findings@.len() as int) =~= findings@);
    }
    ids
}

/// Whether a run fails: some emitted diagnostic is denied.
pub open spec fn denied_somewhere(levels: Seq<LintLevel>) -> bool {
    exists|i: int| 0 <= i < levels.len() && levels[i] == LintLevel::Deny
}

/// A run fails exactly when some emitted diagnostic is denied, wherever it stands: a denied
/// level anywhere fails the run, the verdict on diagnostics emitted one after the other is
/// whether either part fails, and a run without a denied diagnostic succeeds.
pub proof fn lemma_any_denied_diagnostic_fails(earlier: Seq<LintLevel>, later: Seq<LintLevel>)
    ensures
        denied_somewhere(earlier) == earlier.contains(LintLevel::Deny),
        denied_somewhere(earlier + later) == (denied_somewhere(earlier) || denied_somewhere(later)),
        denied_somewhere(earlier.push(LintLevel::Deny)),
        !denied_somewhere(Seq::<LintLevel>::empty()),
        (forall|i: int| 0 <= i < earlier.len() ==> earlier[i] != LintLevel::Deny) ==> !denied_somewhere(earlier),
{
    let both = earlier + later;
    if denied_somewhere(both) {
        let i = choose|i: int| 0 <= i < both.len() && both[i] == LintLevel::Deny;
        if i < earlier.len() {
            assert(earlier[i] == LintLevel::Deny);
        } else {
            assert(later[i - earlier.len()] == LintLevel::Deny);
        }
    }
    if denied_somewhere(earlier) {
        let i = choose|i: int| 0 <= i < earlier.len() && earlier[i] == LintLevel::Deny;
        assert(both[i] == LintLevel::Deny);
    }
    if denied_somewhere(later) {
        let i = choose|i: int| 0 <= i < later.len() && later[i] == LintLevel::Deny;
        assert(both[earlier.len() + i] == LintLevel::Deny);
    }
    assert(earlier.push(LintLevel::Deny)[earlier.len() as int] == LintLevel::Deny);
}

/// Whether any of the levels of the emitted diagnostics denies.
pub fn any_denied(levels: &[LintLevel]) -> (denied: bool)
    ensures
        denied == denied_somewhere(levels@),
        denied == levels@.contains(LintLevel::Deny),
{
    let mut k: usize = 0;
    while k < levels.len()
        invariant
            k <= levels@.len(),
            forall|i: int| 0 <= i < k ==> levels@[i] != LintLevel::Deny,
        decreases levels@.len() - k,
    {
        if levels[k] == LintLevel::Deny {
            return true;
        }
        k = k + 1;
    }
    false
}

/// A production selection as plain values: package, whether the product is a binary, the
/// product's name, and the feature profiles it is restricted to.
pub type SelectionView = (Seq<char>, bool, Seq<char>, Option<Seq<Seq<char>>>);

/// The plain values of a selection.
pub open spec fn selection_view(selection: ProductionSelection) -> SelectionView {
    (
        selection.package@,
        selection.product is Binary,
        selection.product.product_name(),
        match selection.feature_profiles {
            Some(profiles) => Some(texts(profiles@)),
            None => None,
        },
    )
}

/// The plain values of a configured production consumer.
pub open spec fn consumer_view(consumer: ProductionConsumer) -> SelectionView {
    (
        consumer.package@,
        consumer.product is Binary,
        consumer.product.product_name(),
        match consumer.feature_profiles {
            Some(profiles) => Some(texts(profiles@)),
            None => None,
        },
    )
}

/// Whether the listed selections name a package and product already.
pub open spec fn selected_already(selections: Seq<SelectionView>, selection: SelectionView) -> bool {
    exists|i: int| 0 <= i < selections.len() && (#[trigger] selections[i]).0 == selection.0 && selections[i].1 == selection.1 && selections[i].2 == selection.2
}

/// The configured consumers, each package and product once in order of first mention.
pub open spec fn distinct_selections(consumers: Seq<SelectionView>) -> Seq<SelectionView>
    decreases consumers.len(),
{
    if consumers.len() == 0 {
        Seq::empty()
    } else {
        let earlier = distinct_selections(consumers.drop_last());
        if selected_already(earlier, consumers.last()) {
            earlier
        } else {
            earlier.push(consumers.last())
        }
    }
}

/// The products of an analysis: the configured consumers that apply, each package and product
/// once, then the binaries inferred without a configuration.
pub fn production_selections<'a>(consumers: &[&'a ProductionConsumer], inferred: &[ProductionSelection<'a>]) -> (selections: Vec<
    ProductionSelection<'a>,
>)
    ensures
        selections@.map_values(|selection: ProductionSelection<'a>| selection_view(selection)) == distinct_selections(
            consumers@.map_values(|consumer: &ProductionConsumer| consumer_view(*consumer)),
        ) + inferred@.map_values(|selection: ProductionSelection<'a>| selection_view(selection)),
{
    let ghost wanted = consumers@.map_values(|consumer: &ProductionConsumer| consumer_view(*consumer));
    let mut selections: Vec<ProductionSelection<'a>> = Vec::new();
    let mut k: usize = 0;
    while k < consumers.len()
        invariant
            wanted == consumers@.map_values(|consumer: &ProductionConsumer| consumer_view(*consumer)),
            k <= consumers@.len(),
            selections@.map_values(|selection: ProductionSelection<'a>| selection_view(selection)) == distinct_selections(wanted.take(k as int)),
        decreases consumers@.len() - k,
    {
        let consumer: &'a ProductionConsumer = consumers[k];
        let ghost views = selections@.map_values(|selection: ProductionSelection<'a>| selection_view(selection));
        proof {
            assert(wanted.take(k + 1).drop_last() =~= wanted.take(k as int));
            assert(wanted.take(k + 1).last() == consumer_view(*consumer));
        }
        let mut present = false;
        let mut i: usize = 0;
        while i < selections.len()
            invariant
                views == selections@.map_values(|selection: ProductionSelection<'a>| selection_view(selection)),
                i <= selections@.len(),
                present == exists|j: int| 0 <= j < i && (#[trigger] views[j]).0 == consumer_view(*consumer).0 && views[j].1
                    == consumer_view(*consumer).1 && views[j].2 == consumer_view(*consumer).2,
            decreases selections@.len() - i,
        {
            let listed = selections[i];
            let same_kind = match (listed.product, &consumer.product) {
                (ProductionProduct::Binary(_), ProductionProduct::Binary(_)) => true,
                (ProductionProduct::Library(_), ProductionProduct::Library(_)) => true,
                _ => false,
            };
            proof {
                assert(views[i as int] == selection_view(listed));
            }
            if str_equals(listed.package, consumer.package.as_str()) && same_kind && str_equals(listed.product.name(), consumer.product.name()) {
                present = true;
            }
            i = i + 1;
        }
        if !present {
            let profiles: Option<&'a [String]> = match &consumer.feature_profiles {
                Some(profiles) => Some(profiles.as_slice()),
                None => None,
            };
            let selection = ProductionSelection { package: consumer.package.as_str(), product: &consumer.product, feature_profiles: profiles };
            selections.push(selection);
            proof {
                assert(selections@.map_values(|selection: ProductionSelection<'a>| selection_view(selection)) =~= views.push(selection_view(selection)));
            }
        }
        k = k + 1;
    }
    proof {
        assert(wanted.take(consumers@.len() as int) =~= wanted);
    }
    let ghost head = selections@.map_values(|selection: ProductionSelection<'a>| selection_view(selection));
    let mut k: usize = 0;
    while k < inferred.len()
        invariant
            k <= inferred@.len(),
            selections@.map_values(|selection: ProductionSelection<'a>| selection_view(selection)) == head + inferred@.take(k as int).map_values(
                |selection: ProductionSelection<'a>| selection_view(selection),
            ),
        decreases inferred@.len() - k,
    {
        let ghost before = selections@;
        selections.push(inferred[k]);
        proof {
            assert(selections@ == before.push(inferred@[k as int]));
            assert(inferred@.take(k + 1) =~= inferred@.take(k as int).push(inferred@[k as int]));
            assert(selections@.map_values(|selection: ProductionSelection<'a>| selection_view(selection)) =~= before.map_values(
                |selection: ProductionSelection<'a>| selection_view(selection),
            ).push(selection_view(inferred@[k as int])));
            assert(selections@.map_values(|selection: ProductionSelection<'a>| selection_view(selection)) =~= head + inferred@.take(k + 1).map_values(
                |selection: ProductionSelection<'a>| selection_view(selection),
            ));
        }
        k = k + 1;
    }
    proof {
        assert(inferred@.take(inferred@.len() as int) =~= inferred@);
    }
    selections
}

/// The crates audited when every product is a library: the libraries' crate names; none
/// otherwise, when every workspace library is audited.
pub open spec fn audited_library_crates_spec(selections: Seq<ProductionSelection>) -> Option<Seq<Seq<char>>> {
    if forall|i: int| 0 <= i < selections.len() ==> (#[trigger] selections[i]).product is Library {
        Some(selections.map_values(|selection: ProductionSelection| crate_name_of(selection.product.product_name())))
    } else {
        None
    }
}

/// The crates audited when every product is a library.
pub fn audited_library_crates(selections: &[ProductionSelection]) -> (crates: Option<Vec<String>>)
    ensures
        match crates {
            Some(crates) => audited_library_crates_spec(selections@) == Some(texts(crates@)),
            None => audited_library_crates_spec(selections@) is None,
        },
{
    let mut crates: Vec<String> = Vec::new();
    let mut k: usize = 0;
    while k < selections.len()
        invariant
            k <= selections@.len(),
            forall|i: int| 0 <= i < k ==> (#[trigger] selections@[i]).product is Library,
            texts(crates@) == selections@.take(k as int).map_values(|selection: ProductionSelection| crate_name_of(selection.product.product_name())),
        decreases selections@.len() - k,
    {
        match selections[k].product {
            ProductionProduct::Binary(_) => return None,
            ProductionProduct::Library(name) => {
                let ghost before = crates@;
                let made = crate_name(name.as_str());
                crates.push(made);
                proof {
                    assert(crates@ == before.push(made));
                    assert(texts(crates@) =~= texts(before).push(made@));
                    assert(selections@.take(k + 1) =~= selections@.take(k as int).push(selections@[k as int]));
                    assert(made@ == crate_name_of(selections@[k as int].product.product_name()));
                }
            },
        }
        proof {
            assert(texts(crates@) =~= selections@.take(k + 1).map_values(|selection: ProductionSelection| crate_name_of(selection.product.product_name())));
        }
        k = k + 1;
    }
    proof {
        assert(selections@.take(selections@.len() as int) =~= selections@);
    }
    Some(crates)
}

/// A lint-level selector as written, with its position on the command line.
pub type IndexedSelector = (usize, Seq<char>, LintLevel);

/// `entry` inserted into `sorted` after every entry at or before its position.
pub open spec fn insert_by_position(sorted: Seq<IndexedSelector>, entry: IndexedSelector) -> Seq<IndexedSelector>
    decreases sorted.len(),
{
    if sorted.len() == 0 || sorted.last().0 <= entry.0 {
        sorted.push(entry)
    } else {
        insert_by_position(sorted.drop_last(), entry).push(sorted.last())
    }
}

/// Selectors in command-line order; selectors at the same position keep their given order.
pub open spec fn by_position(entries: Seq<IndexedSelector>) -> Seq<IndexedSelector>
    decreases entries.len(),
{
    if entries.len() == 0 {
        Seq::empty()
    } else {
        insert_by_position(by_position(entries.drop_last()), entries.last())
    }
}

/// The first selector text that names neither `warnings` nor a diagnostic.
pub open spec fn first_unknown_selector(entries: Seq<IndexedSelector>) -> Option<Seq<char>>
    decreases entries.len(),
{
    if entries.len() == 0 {
        None
    } else {
        match first_unknown_selector(entries.drop_last()) {
            Some(text) => Some(text),
            None => if selector_of_text(entries.last().1) is None {
                Some(entries.last().1)
            } else {
                None
            },
        }
    }
}

/// The overrides of selectors in command-line order.
pub open spec fn overrides_of(entries: Seq<IndexedSelector>) -> Seq<(LintSelector, LintLevel)> {
    by_position(entries).map_values(|entry: IndexedSelector| (selector_of_text(entry.1)->0, entry.2))
}

/// The plain values of written selectors.
pub open spec fn indexed_view(entries: Seq<(usize, String, LintLevel)>) -> Seq<IndexedSelector> {
    entries.map_values(|entry: (usize, String, LintLevel)| (entry.0, entry.1@, entry.2))
}

proof fn lemma_insert_sorted(sorted: Seq<IndexedSelector>, entry: IndexedSelector)
    requires
        forall|i: int, j: int| 0 <= i < j < sorted.len() ==> sorted[i].0 <= sorted[j].0,
    ensures
        insert_by_position(sorted, entry).len() == sorted.len() + 1,
        forall|i: int, j: int| 0 <= i < j < sorted.len() + 1 ==> insert_by_position(sorted, entry)[i].0 <= insert_by_position(sorted, entry)[j].0,
    decreases sorted.len(),
{
    if sorted.len() > 0 && sorted.last().0 > entry.0 {
        lemma_insert_sorted(sorted.drop_last(), entry);
        let inner = insert_by_position(sorted.drop_last(), entry);
        assert forall|i: int| 0 <= i < inner.len() implies #[trigger] inner[i].0 <= sorted.last().0 by {
            lemma_insert_members(sorted.drop_last(), entry, i);
        }
    }
}

proof fn lemma_insert_members(sorted: Seq<IndexedSelector>, entry: IndexedSelector, i: int)
    requires
        0 <= i < sorted.len() + 1,
    ensures
        insert_by_position(sorted, entry).len() == sorted.len() + 1,
        insert_by_position(sorted, entry)[i] == entry || exists|j: int| 0 <= j < sorted.len() && insert_by_position(sorted, entry)[i] == sorted[j],
    decreases sorted.len(),
{
    if sorted.len() > 0 && sorted.last().0 > entry.0 {
        if i < sorted.len() {
            lemma_insert_members(sorted.drop_last(), entry, i);
            if insert_by_position(sorted.drop_last(), entry)[i] != entry {
                let j = choose|j: int| 0 <= j < sorted.len() - 1 && insert_by_position(sorted.drop_last(), entry)[i] == sorted.drop_last()[j];
                assert(sorted.drop_last()[j] == sorted[j]);
            }
        } else {
            lemma_insert_members(sorted.drop_last(), entry, 0);
        }
    }
}

/// Reading selectors in command-line order gives overrides in that order: each override comes
/// from a selector at or after the positions of the overrides before it.
pub proof fn lemma_overrides_follow_positions(entries: Seq<IndexedSelector>)
    ensures
        by_position(entries).len() == entries.len(),
        forall|i: int, j: int| 0 <= i < j < entries.len() ==> by_position(entries)[i].0 <= by_position(entries)[j].0,
    decreases entries.len(),
{
    if entries.len() > 0 {
        lemma_overrides_follow_positions(entries.drop_last());
        lemma_insert_sorted(by_position(entries.drop_last()), entries.last());
    }
}

impl LintLevels {
    /// Reads lint-level selectors, each with its position on the command line, and orders the
    /// overrides by those positions. The first selector that names neither `warnings` nor a
    /// diagnostic is refused.
    pub fn from_indexed(entries: Vec<(usize, String, LintLevel)>) -> (levels: Result<Self, UnknownLintSelector>)
        ensures
            match levels {
                Ok(levels) => first_unknown_selector(indexed_view(entries@)) is None && levels.overrides@ == overrides_of(indexed_view(entries@)),
                Err(error) => first_unknown_selector(indexed_view(entries@)) == Some(error.selector@),
            },
    {
        let ghost view = indexed_view(entries@);
        let mut sorted: Vec<(usize, LintSelector, LintLevel)> = Vec::new();
        let mut k: usize = 0;
        while k < entries.len()
            invariant
                view == indexed_view(entries@),
                k <= entries@.len(),
                first_unknown_selector(view.take(k as int)) is None,
                sorted@.len() == k,
                sorted@.map_values(|entry: (usize, LintSelector, LintLevel)| (entry.1, entry.2)) == overrides_of(view.take(k as int)),
                sorted@.map_values(|entry: (usize, LintSelector, LintLevel)| entry.0) == by_position(view.take(k as int)).map_values(
                    |entry: IndexedSelector| entry.0,
                ),
            decreases entries@.len() - k,
        {
            let (position, text, level) = (entries[k].0, entries[k].1.as_str(), entries[k].2);
            proof {
                assert(view.take(k + 1).drop_last() =~= view.take(k as int));
                assert(view.take(k + 1).last() == (position, text@, level));
            }
            let selector = match LintSelector::parse(text) {
                Ok(selector) => selector,
                Err(error) => {
                    proof {
                        lemma_first_unknown_prefix(view, k + 1);
                    }
                    return Err(error);
                },
            };
            let ghost sorted_view = by_position(view.take(k as int));
            proof {
                lemma_overrides_follow_positions(view.take(k as int));
                assert(view.take(k as int).len() == k);
                assert(sorted_view.len() == k);
                assert forall|i: int| 0 <= i < sorted@.len() implies #[trigger] sorted@[i].0 == sorted_view[i].0 by {
                    assert(sorted@.map_values(|entry: (usize, LintSelector, LintLevel)| entry.0)[i] == sorted_view.map_values(
                        |entry: IndexedSelector| entry.0,
                    )[i]);
                }
            }
            let mut at = sorted.len();
            while at > 0 && sorted[at - 1].0 > position
                invariant
                    at <= sorted@.len(),
                    forall|j: int| at <= j < sorted@.len() ==> sorted@[j].0 > position,
                decreases at,
            {
                at = at - 1;
            }
            let ghost before = sorted@;
            proof {
                assert forall|j: int| at <= j < sorted_view.len() implies sorted_view[j].0 > position by {
                    assert(sorted@[j].0 == sorted_view[j].0);
                }
                if at > 0 {
                    assert(sorted@[at - 1].0 == sorted_view[at - 1].0);
                }
            }
            sorted.insert(at, (position, selector, level));
            proof {
                let entry = (position, text@, level);
                lemma_insert_at(sorted_view, entry, at as int);
                lemma_overrides_follow_positions(view.take(k + 1));
                let inserted = by_position(view.take(k + 1));
                assert(inserted == insert_by_position(sorted_view, entry));
                assert(sorted@ =~= before.take(at as int).push((position, selector, level)) + before.skip(at as int));
                assert(selector_of_text(text@) == Some(selector));
                assert forall|i: int| 0 <= i < sorted@.len() implies (#[trigger] sorted@[i]).1 == selector_of_text(inserted[i].1)->0
                    && sorted@[i].2 == inserted[i].2 by {
                    if i < at {
                        assert(sorted@[i] == before[i]);
                        assert(inserted[i] == sorted_view[i]);
                        assert(before.map_values(|entry: (usize, LintSelector, LintLevel)| (entry.1, entry.2))[i] == overrides_of(view.take(k as int))[i]);
                    } else if i > at {
                        assert(sorted@[i] == before[i - 1]);
                        assert(inserted[i] == sorted_view[i - 1]);
                        assert(before.map_values(|entry: (usize, LintSelector, LintLevel)| (entry.1, entry.2))[i - 1] == overrides_of(view.take(k as int))[i - 1]);
                    }
                }
                assert(sorted@.map_values(|entry: (usize, LintSelector, LintLevel)| (entry.1, entry.2)) =~= overrides_of(view.take(k + 1)));
                assert(sorted@.map_values(|entry: (usize, LintSelector, LintLevel)| entry.0) =~= inserted.map_values(|entry: IndexedSelector| entry.0)) by {
                    assert forall|i: int| 0 <= i < sorted@.len() implies #[trigger] sorted@[i].0 == inserted[i].0 by {
                        if i < at {
                            assert(sorted@[i] == before[i]);
                        } else if i > at {
                            assert(sorted@[i] == before[i - 1]);
                        }
                    }
                }
            }
            k = k + 1;
        }
        proof {
            assert(view.take(entries@.len() as int) =~= view);
        }
        Ok(LintLevels { overrides: strip_positions(&sorted) })
    }
}

fn strip_positions(sorted: &Vec<(usize, LintSelector, LintLevel)>) -> (overrides: Vec<(LintSelector, LintLevel)>)
    ensures
        overrides@ == sorted@.map_values(|entry: (usize, LintSelector, LintLevel)| (entry.1, entry.2)),
{
    let mut overrides: Vec<(LintSelector, LintLevel)> = Vec::new();
    let mut k: usize = 0;
    while k < sorted.len()
        invariant
            k <= sorted@.len(),
            overrides@ == sorted@.take(k as int).map_values(|entry: (usize, LintSelector, LintLevel)| (entry.1, entry.2)),
        decreases sorted@.len() - k,
    {
        overrides.push((sorted[k].1, sorted[k].2));
        proof {
            assert(sorted@.take(k + 1).map_values(|entry: (usize, LintSelector, LintLevel)| (entry.1, entry.2)) =~= sorted@.take(k as int).map_values(
                |entry: (usize, LintSelector, LintLevel)| (entry.1, entry.2),
            ).push((sorted@[k as int].1, sorted@[k as int].2)));
        }
        k = k + 1;
    }
    proof {
        assert(sorted@.take(sorted@.len() as int) =~= sorted@);
    }
    overrides
}

proof fn lemma_insert_at(sorted: Seq<IndexedSelector>, entry: IndexedSelector, at: int)
    requires
        0 <= at <= sorted.len(),
        at == 0 || sorted[at - 1].0 <= entry.0,
        forall|j: int| at <= j < sorted.len() ==> sorted[j].0 > entry.0,
    ensures
        insert_by_position(sorted, entry) == sorted.take(at).push(entry) + sorted.skip(at),
    decreases sorted.len(),
{
    if sorted.len() == 0 || sorted.last().0 <= entry.0 {
        assert(at == sorted.len());
        assert(sorted.take(at).push(entry) + sorted.skip(at) =~= sorted.push(entry));
    } else {
        lemma_insert_at(sorted.drop_last(), entry, at);
        assert(sorted.drop_last().take(at) =~= sorted.take(at));
        assert((sorted.take(at).push(entry) + sorted.drop_last().skip(at)).push(sorted.last()) =~= sorted.take(at).push(entry) + sorted.skip(at));
    }
}

proof fn lemma_first_unknown_prefix(entries: Seq<IndexedSelector>, n: int)
    requires
        0 <= n <= entries.len(),
        first_unknown_selector(entries.take(n)) is Some,
    ensures
        first_unknown_selector(entries) == first_unknown_selector(entries.take(n)),
    decreases entries.len(),
{
    if n < entries.len() {
        assert(entries.drop_last().take(n) =~= entries.take(n));
        lemma_first_unknown_prefix(entries.drop_last(), n);
    } else {
        assert(entries.take(n) =~= entries);
    }
}

/// Why a run cannot start its analysis.
#[derive(Clone, Debug)]
pub enum PlanError {
    /// Fixes were asked for under more than one feature profile.
    FixWithFeatureProfiles,
    /// Without a configuration file, the workspace has no binary to analyze.
    NoWorkspaceBinaries,
    /// The configuration file selects no production target for the analysis target.
    NoApplicableProducts { config_path: String },
    /// No production target applies to a feature profile.
    NoProfileProducts { profile: String },
    /// Re-analysis after fixes produced a fix plan that was applied before.
    NoFixProgress { iterations: usize },
}

/// The message that reports a plan error.
pub open spec fn plan_error_text(error: PlanError) -> Seq<char> {
    match error {
        PlanError::FixWithFeatureProfiles => "--fix does not support multiple feature profiles; run analysis without --fix or configure a single `[[feature-profile]]`"@,
        PlanError::NoWorkspaceBinaries => "no binary targets found in this workspace; add a `hawk.toml` with a `[[production]]` library target"@,
        PlanError::NoApplicableProducts { config_path } => "no applicable production targets configured in "@ + config_path@
            + "; add a `[[production]]` entry"@,
        PlanError::NoProfileProducts { profile } => "no production targets apply to feature profile `"@ + profile@
            + "`; select it from at least one `[[production]]` entry"@,
        PlanError::NoFixProgress { iterations } => "visibility fixes made no progress after "@ + crate::text::decimal(iterations as nat)
            + " iteration(s); the same fix plan was produced after re-analysis"@,
    }
}

impl PlanError {
    /// The message that reports the error.
    pub fn message(&self) -> (text: String)
        ensures
            text@ == plan_error_text(*self),
    {
        let mut text = String::new();
        match self {
            PlanError::FixWithFeatureProfiles => {
                text.append("--fix does not support multiple feature profiles; run analysis without --fix or configure a single `[[feature-profile]]`");
            },
            PlanError::NoWorkspaceBinaries => {
                text.append("no binary targets found in this workspace; add a `hawk.toml` with a `[[production]]` library target");
            },
            PlanError::NoApplicableProducts { config_path } => {
                text.append("no applicable production targets configured in ");
                text.append(config_path.as_str());
                text.append("; add a `[[production]]` entry");
            },
            PlanError::NoProfileProducts { profile } => {
                text.append("no production targets apply to feature profile `");
                text.append(profile.as_str());
                text.append("`; select it from at least one `[[production]]` entry");
            },
            PlanError::NoFixProgress { iterations } => {
                text.append("visibility fixes made no progress after ");
                crate::text::push_decimal(&mut text, *iterations);
                text.append(" iteration(s); the same fix plan was produced after re-analysis");
            },
        }
        proof {
            assert(text@ =~= plan_error_text(*self));
        }
        text
    }
}

/// Refuses fixes when more than one feature profile is configured.
pub fn check_fix_profiles(fix: bool, profile_count: usize) -> (result: Result<(), PlanError>)
    ensures
        result is Ok <==> !(fix && profile_count > 1),
        result matches Err(error) ==> error is FixWithFeatureProfiles,
{
    if fix && profile_count > 1 {
        Err(PlanError::FixWithFeatureProfiles)
    } else {
        Ok(())
    }
}

/// Refuses a run with no production target: without a configuration file, for want of
/// workspace binaries; with one, naming the file.
pub fn require_production(selection_count: usize, config_path: Option<&str>) -> (result: Result<(), PlanError>)
    ensures
        result is Ok <==> selection_count > 0,
        result matches Err(error) ==> match config_path {
            None => error is NoWorkspaceBinaries,
            Some(path) => error matches PlanError::NoApplicableProducts { config_path } && config_path@ == path@,
        },
{
    if selection_count > 0 {
        return Ok(());
    }
    match config_path {
        None => Err(PlanError::NoWorkspaceBinaries),
        Some(path) => Err(PlanError::NoApplicableProducts { config_path: path.to_string() }),
    }
}

/// The selections that apply to a feature profile, in order; refused when none does.
pub fn profile_selections<'a>(selections: &[ProductionSelection<'a>], profile: &str) -> (result: Result<Vec<ProductionSelection<'a>>, PlanError>)
    ensures
        match result {
            Ok(selected) => {
                &&& selected@ == selections@.filter(|selection: ProductionSelection<'a>| selection_applies(selection, profile@))
                &&& selected@.len() > 0
            },
            Err(PlanError::NoProfileProducts { profile: named }) => {
                &&& named@ == profile@
                &&& selections@.filter(|selection: ProductionSelection<'a>| selection_applies(selection, profile@)).len() == 0
            },
            Err(_) => false,
        },
{
    let ghost keep = |selection: ProductionSelection<'a>| selection_applies(selection, profile@);
    let mut selected: Vec<ProductionSelection<'a>> = Vec::new();
    let mut k: usize = 0;
    while k < selections.len()
        invariant
            k <= selections@.len(),
            keep == (|selection: ProductionSelection<'a>| selection_applies(selection, profile@)),
            selected@ == selections@.take(k as int).filter(keep),
        decreases selections@.len() - k,
    {
        let applies = selections[k].applies_to_name(profile);
        proof {
            assert(selections@.take(k + 1).drop_last() =~= selections@.take(k as int));
            reveal(Seq::filter);
        }
        if applies {
            selected.push(selections[k]);
        }
        k = k + 1;
    }
    proof {
        assert(selections@.take(selections@.len() as int) =~= selections@);
    }
    if selected.len() == 0 {
        Err(PlanError::NoProfileProducts { profile: profile.to_string() })
    } else {
        Ok(selected)
    }
}

/// Whether two signatures hold the same byte strings in the same order.
fn same_signature(a: &Vec<Vec<u8>>, b: &Vec<Vec<u8>>) -> (same: bool)
    ensures
        same == (a@.map_values(|bytes: Vec<u8>| bytes@) == b@.map_values(|bytes: Vec<u8>| bytes@)),
{
    let ghost av = a@.map_values(|bytes: Vec<u8>| bytes@);
    let ghost bv = b@.map_values(|bytes: Vec<u8>| bytes@);
    if a.len() != b.len() {
        proof {
            assert(av.len() != bv.len());
        }
        return false;
    }
    let mut k: usize = 0;
    while k < a.len()
        invariant
            av == a@.map_values(|bytes: Vec<u8>| bytes@),
            bv == b@.map_values(|bytes: Vec<u8>| bytes@),
            a@.len() == b@.len(),
            k <= a@.len(),
            forall|i: int| 0 <= i < k ==> av[i] == bv[i],
        decreases a@.len() - k,
    {
        let x = &a[k];
        let y = &b[k];
        if x.len() != y.len() {
            proof {
                assert(av[k as int] != bv[k as int]);
            }
            return false;
        }
        let mut j: usize = 0;
        while j < x.len()
            invariant
                av == a@.map_values(|bytes: Vec<u8>| bytes@),
                bv == b@.map_values(|bytes: Vec<u8>| bytes@),
                a@.len() == b@.len(),
                k < a@.len(),
                *x == a@[k as int],
                *y == b@[k as int],
                x@.len() == y@.len(),
                j <= x@.len(),
                forall|i: int| 0 <= i < j ==> x@[i] == y@[i],
            decreases x@.len() - j,
        {
            if x[j] != y[j] {
                proof {
                    assert(x@ != y@);
                    assert(av[k as int] == x@ && bv[k as int] == y@);
                }
                return false;
            }
            j = j + 1;
        }
        proof {
            assert(x@ =~= y@);
            assert(av[k as int] == bv[k as int]);
        }
        k = k + 1;
    }
    proof {
        assert(av =~= bv);
    }
    true
}

/// The views of recorded fix plan signatures.
pub open spec fn signature_views(signatures: Seq<Vec<Vec<u8>>>) -> Seq<Seq<Seq<u8>>> {
    signatures.map_values(|signature: Vec<Vec<u8>>| signature@.map_values(|bytes: Vec<u8>| bytes@))
}

/// Records the signature of a fix plan about to be applied; refused when the same plan was
/// applied before, since re-analysis then makes no progress.
pub fn record_fix_signature(applied: &mut Vec<Vec<Vec<u8>>>, signature: Vec<Vec<u8>>, iterations: usize) -> (result: Result<(), PlanError>)
    ensures
        match result {
            Ok(()) => {
                &&& !signature_views(old(applied)@).contains(signature@.map_values(|bytes: Vec<u8>| bytes@))
                &&& signature_views(final(applied)@) == signature_views(old(applied)@).push(signature@.map_values(|bytes: Vec<u8>| bytes@))
            },
            Err(PlanError::NoFixProgress { iterations: reported }) => {
                &&& reported == iterations
                &&& signature_views(old(applied)@).contains(signature@.map_values(|bytes: Vec<u8>| bytes@))
                &&& final(applied)@ == old(applied)@
            },
            Err(_) => false,
        },
{
    let ghost wanted = signature@.map_values(|bytes: Vec<u8>| bytes@);
    let mut k: usize = 0;
    while k < applied.len()
        invariant
            k <= applied@.len(),
            applied@ == old(applied)@,
            wanted == signature@.map_values(|bytes: Vec<u8>| bytes@),
            forall|i: int| 0 <= i < k ==> #[trigger] signature_views(applied@)[i] != wanted,
        decreases applied@.len() - k,
    {
        if same_signature(&applied[k], &signature) {
            proof {
                assert(signature_views(applied@)[k as int] == wanted);
            }
            return Err(PlanError::NoFixProgress { iterations });
        }
        k = k + 1;
    }
    let ghost before = applied@;
    applied.push(signature);
    proof {
        assert(signature_views(applied@) =~= signature_views(before).push(wanted));
    }
    Ok(())
}

/// A finding that a run reports: where it stands among the findings, its level, and the
/// package of its definition when one is known.
#[derive(Clone, Copy, Debug)]
pub struct ReportedFinding<'p> {
    pub index: usize,
    pub level: LintLevel,
    pub package: Option<&'p str>,
}

/// The positions of the reported findings, in order.
pub open spec fn reported_positions(findings: Seq<Finding>, only: Option<OnlyFinding>, overrides: Seq<(LintSelector, LintLevel)>) -> Seq<int>
    decreases findings.len(),
{
    if findings.len() == 0 {
        Seq::empty()
    } else {
        reported_positions(findings.drop_last(), only, overrides) + if reported(findings.last().kind, only, overrides) {
            seq![findings.len() - 1]
        } else {
            Seq::empty()
        }
    }
}

/// The findings a run reports, in order, each with its level and the package of its
/// definition.
pub fn reported_findings_of<'a, 'p>(
    findings: &[Finding<'a>],
    only: Option<OnlyFinding>,
    levels: &LintLevels,
    packages: &crate::report::DefinitionPackages<'p>,
) -> (reported: Vec<ReportedFinding<'p>>)
    ensures
        reported@.map_values(|entry: ReportedFinding<'p>| entry.index as int) == reported_positions(findings@, only, levels.overrides@),
        forall|i: int| 0 <= i < reported@.len() ==> {
            let entry = #[trigger] reported@[i];
            &&& entry.index < findings@.len()
            &&& entry.level == level_of(levels.overrides@, DiagnosticKind::Finding(findings@[entry.index as int].kind))
            &&& match entry.package {
                Some(package) => packages.package_of(findings@[entry.index as int].definition.id) == Some(package@),
                None => packages.package_of(findings@[entry.index as int].definition.id) is None,
            }
        },
{
    let mut reported: Vec<ReportedFinding<'p>> = Vec::new();
    let mut k: usize = 0;
    while k < findings.len()
        invariant
            k <= findings@.len(),
            reported@.map_values(|entry: ReportedFinding<'p>| entry.index as int) == reported_positions(findings@.take(k as int), only, levels.overrides@),
            forall|i: int| 0 <= i < reported@.len() ==> {
                let entry = #[trigger] reported@[i];
                &&& entry.index < k
                &&& entry.level == level_of(levels.overrides@, DiagnosticKind::Finding(findings@[entry.index as int].kind))
                &&& match entry.package {
                    Some(package) => packages.package_of(findings@[entry.index as int].definition.id) == Some(package@),
                    None => packages.package_of(findings@[entry.index as int].definition.id) is None,
                }
            },
        decreases findings@.len() - k,
    {
        proof {
            assert(findings@.take(k + 1).drop_last() =~= findings@.take(k as int));
            assert(findings@.take(k + 1).last() == findings@[k as int]);
        }
        let ghost before = reported@;
        if is_reported(findings[k].kind, only, levels) {
            let level = levels.level(DiagnosticKind::Finding(findings[k].kind));
            let package = match packages.get(&findings[k].definition.id) {
                Some(package) => Some(*package),
                None => None,
            };
            reported.push(ReportedFinding { index: k, level, package });
            proof {
                assert(reported@.map_values(|entry: ReportedFinding<'p>| entry.index as int) =~= before.map_values(
                    |entry: ReportedFinding<'p>| entry.index as int,
                ).push(k as int));
            }
        }
        k = k + 1;
    }
    proof {
        assert(findings@.take(findings@.len() as int) =~= findings@);
    }
    reported
}

/// The lint code and the package, or else the crate, of each reported finding: what the
/// closing summary counts.
pub fn summary_events(findings: &[Finding], reported: &[ReportedFinding]) -> (events: Vec<(String, String)>)
    requires
        forall|i: int| 0 <= i < reported@.len() ==> (#[trigger] reported@[i]).index < findings@.len(),
    ensures
        events@.len() == reported@.len(),
        forall|i: int| 0 <= i < reported@.len() ==> {
            let finding = findings@[(#[trigger] reported@[i]).index as int];
            &&& events@[i].0@ == crate::model::finding_code(finding.kind)
            &&& events@[i].1@ == match reported@[i].package {
                Some(package) => package@,
                None => finding.definition.crate_name@,
            }
        },
{
    let mut events: Vec<(String, String)> = Vec::new();
    let mut k: usize = 0;
    while k < reported.len()
        invariant
            k <= reported@.len(),
            events@.len() == k,
            forall|i: int| 0 <= i < reported@.len() ==> (#[trigger] reported@[i]).index < findings@.len(),
            forall|i: int| 0 <= i < k ==> {
                let finding = findings@[(#[trigger] reported@[i]).index as int];
                &&& events@[i].0@ == crate::model::finding_code(finding.kind)
                &&& events@[i].1@ == match reported@[i].package {
                    Some(package) => package@,
                    None => finding.definition.crate_name@,
                }
            },
        decreases reported@.len() - k,
    {
        let entry = reported[k];
        let finding = &findings[entry.index];
        let package = match entry.package {
            Some(package) => package.to_string(),
            None => finding.definition.crate_name.clone(),
        };
        events.push((finding.kind.code().to_string(), package));
        k = k + 1;
    }
    events
}

/// The configuration diagnostics a run reports, in order, each with its level.
pub fn reported_config_diagnostics(
    diagnostics: &[crate::suppression::ConfigDiagnostic],
    levels: &LintLevels,
) -> (reported: Vec<(crate::suppression::ConfigDiagnostic, LintLevel)>)
    ensures
        reported@ == diagnostics@.filter(
            |diagnostic: crate::suppression::ConfigDiagnostic| level_of(
                levels.overrides@,
                DiagnosticKind::Config(crate::suppression::diagnostic_kind_of(diagnostic)),
            ) != LintLevel::Allow,
        ).map_values(
            |diagnostic: crate::suppression::ConfigDiagnostic| (
                diagnostic,
                level_of(levels.overrides@, DiagnosticKind::Config(crate::suppression::diagnostic_kind_of(diagnostic))),
            ),
        ),
{
    let ghost keep = |diagnostic: crate::suppression::ConfigDiagnostic| level_of(
        levels.overrides@,
        DiagnosticKind::Config(crate::suppression::diagnostic_kind_of(diagnostic)),
    ) != LintLevel::Allow;
    let ghost pair = |diagnostic: crate::suppression::ConfigDiagnostic| (
        diagnostic,
        level_of(levels.overrides@, DiagnosticKind::Config(crate::suppression::diagnostic_kind_of(diagnostic))),
    );
    let mut reported: Vec<(crate::suppression::ConfigDiagnostic, LintLevel)> = Vec::new();
    let mut k: usize = 0;
    while k < diagnostics.len()
        invariant
            k <= diagnostics@.len(),
            keep == (|diagnostic: crate::suppression::ConfigDiagnostic| level_of(
                levels.overrides@,
                DiagnosticKind::Config(crate::suppression::diagnostic_kind_of(diagnostic)),
            ) != LintLevel::Allow),
            pair == (|diagnostic: crate::suppression::ConfigDiagnostic| (
                diagnostic,
                level_of(levels.overrides@, DiagnosticKind::Config(crate::suppression::diagnostic_kind_of(diagnostic))),
            )),
            reported@ == diagnostics@.take(k as int).filter(keep).map_values(pair),
        decreases diagnostics@.len() - k,
    {
        let diagnostic = diagnostics[k];
        let level = levels.level(DiagnosticKind::Config(diagnostic.kind()));
        proof {
            assert(diagnostics@.take(k + 1).drop_last() =~= diagnostics@.take(k as int));
            reveal(Seq::filter);
        }
        let ghost before = reported@;
        if level.is_emitted() {
            reported.push((diagnostic, level));
            proof {
                assert(diagnostics@.take(k + 1).filter(keep) == diagnostics@.take(k as int).filter(keep).push(diagnostic));
                assert(reported@ =~= diagnostics@.take(k + 1).filter(keep).map_values(pair));
            }
        } else {
            proof {
                assert(diagnostics@.take(k + 1).filter(keep) == diagnostics@.take(k as int).filter(keep));
            }
        }
        k = k + 1;
    }
    proof {
        assert(diagnostics@.take(diagnostics@.len() as int) =~= diagnostics@);
    }
    reported
}

} // verus!
