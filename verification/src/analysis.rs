//! The whole analysis: what it reports, and the facts it computes once to report it.

use std::collections::HashSet;

use vstd::prelude::*;
use crate::model::{finding_views, Definition, DefinitionId, DefinitionKind, Finding, FindingKind, FindingView, Fragment, IdentityView, ProductionTargetKind, identity_of};
use crate::frames::{chain, flat_edges, total_size, defines_at, fragment_mentions, mentions, before};
use crate::nodes::{is_node, node_of, lemma_node_of};
use crate::keys::{KeyIndex, key_index_entries, set_has_text, string_set_contains};
use crate::scope::RequiredScope;
use crate::graph::{Graph, graph_of, build_graph};
use crate::fixpoint::required_scopes;
use crate::live::{test_live, production_live, production_target, target_key, test_liveness, production_liveness, production_targets, is_production_target};
use crate::publicity::{reexport_in, reexport_lists, required_public, required_public_visibility};
use crate::restricted::{restricted_kind, group_kind, group_kinds, restricted_finding_kind};
use crate::identities::{AuditedFragments, audited, DefinitionFilter, has_identity, identity_table, identity_key, identity_key_of, lemma_identity_key_injective};
use crate::findings::{definition_live, is_live, pass, outside_crate, emitted_by, lemma_pass_emits, narrowed_to_other_crates, lemma_pass_without_crate, reported_in};
use crate::fixpoint::required_scope;
use crate::reach::{has_edge, lists_of, well_formed};

verus! {

/// Every fragment of `part` is selected.
pub open spec fn all_selected(part: Seq<Fragment>) -> Seq<bool> {
    Seq::new(part.len(), |k: int| true)
}

/// The test fragments that are product roots outside the test surface.
pub open spec fn root_selection(tests: Seq<Fragment>) -> Seq<bool> {
    Seq::new(tests.len(), |k: int| tests[k].is_product_root && !tests[k].test_surface)
}

/// Some production definition has `identity`.
pub open spec fn in_production(production: Seq<Fragment>, identity: IdentityView) -> bool {
    has_identity(production, all_selected(production), DefinitionFilter::Every, identity)
}

/// Some public production definition has `identity`.
pub open spec fn public_in_production(production: Seq<Fragment>, identity: IdentityView) -> bool {
    has_identity(production, all_selected(production), DefinitionFilter::Public, identity)
}

/// Some production definition with restricted visibility has `identity`.
pub open spec fn restricted_in_production(production: Seq<Fragment>, identity: IdentityView) -> bool {
    has_identity(production, all_selected(production), DefinitionFilter::Restricted, identity)
}

/// Some definition of a non-production product root has `identity`.
pub open spec fn in_product_tests(tests: Seq<Fragment>, identity: IdentityView) -> bool {
    has_identity(tests, root_selection(tests), DefinitionFilter::Every, identity)
}

/// Production code reaches `definition` or one of its copies.
pub open spec fn live_in_production(production: Seq<Fragment>, tests: Seq<Fragment>, definition: Definition) -> bool {
    definition_live(chain(production, tests), flat_edges(production), |x: DefinitionId| production_live(production, tests, x), definition)
}

/// The tests reach `definition` or one of its copies.
pub open spec fn live_in_tests(production: Seq<Fragment>, tests: Seq<Fragment>, definition: Definition) -> bool {
    definition_live(chain(production, tests), flat_edges(tests), |x: DefinitionId| test_live(production, tests, x), definition)
}

/// The crate of `definition` is a candidate and is not excluded.
pub open spec fn selected_crate(candidates: Set<String>, excluded: Set<String>, definition: Definition) -> bool {
    set_has_text(candidates, definition.crate_name@) && !set_has_text(excluded, definition.crate_name@)
}

/// The declarations of `fragment` are audited: its compilation is audited, it builds a
/// production target, and it is not a binary product.
pub open spec fn audited_target(production: Seq<Fragment>, tests: Seq<Fragment>, fragment: Fragment) -> bool {
    &&& audited(production, tests, fragment)
    &&& production_target(production, fragment.compilation_target@)
    &&& fragment.product_root_kind != Some(ProductionTargetKind::Binary)
}

/// A production declaration that the test-only pass judges.
pub open spec fn test_only_eligible(production: Seq<Fragment>, tests: Seq<Fragment>, candidates: Set<String>, excluded: Set<String>) -> spec_fn(Fragment, Definition) -> bool {
    |fragment: Fragment, definition: Definition| {
        &&& audited_target(production, tests, fragment)
        &&& definition.kind != DefinitionKind::Other
        &&& !(definition.kind == DefinitionKind::Reexport && !definition.visible_reexport_api)
        &&& definition.span is Some
        &&& selected_crate(candidates, excluded, definition)
    }
}

/// A declaration that only the tests reach is test-only.
pub open spec fn test_only_emit(production: Seq<Fragment>, tests: Seq<Fragment>) -> spec_fn(Fragment, Definition) -> Option<FindingView> {
    |fragment: Fragment, definition: Definition|
        if !live_in_production(production, tests, definition) && live_in_tests(production, tests, definition) {
            Some(FindingView { kind: FindingKind::TestOnly, definition, test_only: true, test_compiled_only: false })
        } else {
            None
        }
}

/// A public declaration that the public pass judges: audited, not allowed dead, whose
/// identity is public wherever production compiles it, of a selected crate, and not
/// required to stay public.
pub open spec fn public_eligible(production: Seq<Fragment>, tests: Seq<Fragment>, candidates: Set<String>, excluded: Set<String>) -> spec_fn(Fragment, Definition) -> bool {
    |fragment: Fragment, definition: Definition| {
        let identity = identity_of(definition);
        &&& audited_target(production, tests, fragment)
        &&& definition.public_api
        &&& !definition.dead_code_allowed
        &&& !(in_production(production, identity) && !public_in_production(production, identity))
        &&& selected_crate(candidates, excluded, definition)
        &&& !required_public(production, tests, definition.id)
    }
}

/// A public declaration that nothing reaches is dead; one that something reaches, other
/// than an enum variant, is more public than it needs to be.
pub open spec fn public_emit(production: Seq<Fragment>, tests: Seq<Fragment>) -> spec_fn(Fragment, Definition) -> Option<FindingView> {
    |fragment: Fragment, definition: Definition| {
        let production_reached = live_in_production(production, tests, definition);
        let test_reached = live_in_tests(production, tests, definition);
        let test_compiled_only = !in_production(production, identity_of(definition));
        if !production_reached && !test_reached {
            Some(FindingView { kind: FindingKind::DeadPublic, definition, test_only: false, test_compiled_only })
        } else if definition.kind == DefinitionKind::EnumVariant {
            None
        } else {
            Some(FindingView { kind: FindingKind::UnnecessaryPublic, definition, test_only: !production_reached && test_reached, test_compiled_only })
        }
    }
}

/// A restricted-visibility declaration that the restricted pass judges: audited, not
/// allowed dead, restricted wherever production compiles it, of a selected crate, not only
/// a definition of a non-production product root, not reported by the public pass, and
/// with a narrower visibility available.
pub open spec fn restricted_eligible(production: Seq<Fragment>, tests: Seq<Fragment>, candidates: Set<String>, excluded: Set<String>) -> spec_fn(Fragment, Definition) -> bool {
    |fragment: Fragment, definition: Definition| {
        let identity = identity_of(definition);
        &&& audited_target(production, tests, fragment)
        &&& definition.restricted_visible_api
        &&& !definition.dead_code_allowed
        &&& !(in_production(production, identity) && !restricted_in_production(production, identity))
        &&& selected_crate(candidates, excluded, definition)
        &&& !(!in_production(production, identity) && in_product_tests(tests, identity))
        &&& !crate::findings::reported_in(chain(production, tests), public_eligible(production, tests, candidates, excluded), identity)
        &&& restricted_kind(production, tests, definition) is Some
    }
}

/// The narrower visibility a restricted declaration can take.
pub open spec fn restricted_emit(production: Seq<Fragment>, tests: Seq<Fragment>) -> spec_fn(Fragment, Definition) -> Option<FindingView> {
    |fragment: Fragment, definition: Definition| {
        let production_reached = live_in_production(production, tests, definition);
        let test_reached = live_in_tests(production, tests, definition);
        Some(FindingView {
            kind: restricted_kind(production, tests, definition)->0,
            definition,
            test_only: !production_reached && test_reached,
            test_compiled_only: !in_production(production, identity_of(definition)),
        })
    }
}

/// The findings of the three passes, in the order in which they are found.
pub open spec fn found_findings(production: Seq<Fragment>, tests: Seq<Fragment>, candidates: Set<String>, excluded: Set<String>) -> Seq<FindingView> {
    let frames = chain(production, tests);
    pass(production, test_only_eligible(production, tests, candidates, excluded), test_only_emit(production, tests))
        + pass(frames, public_eligible(production, tests, candidates, excluded), public_emit(production, tests))
        + pass(frames, restricted_eligible(production, tests, candidates, excluded), restricted_emit(production, tests))
}

/// What the analysis computes once and then consults for each declaration.
pub(crate) struct Context {
    pub(crate) graph: Graph,
    pub(crate) tests_live: Vec<bool>,
    pub(crate) production_live: Vec<bool>,
    pub(crate) production_reexports: Vec<Vec<usize>>,
    pub(crate) test_reexports: Vec<Vec<usize>>,
    pub(crate) required: Vec<bool>,
    pub(crate) scopes: Vec<RequiredScope>,
    pub(crate) kinds: Vec<Option<FindingKind>>,
    pub(crate) audited: AuditedFragments,
    pub(crate) targets: KeyIndex,
    pub(crate) in_production: KeyIndex,
    pub(crate) public_in_production: KeyIndex,
    pub(crate) restricted_in_production: KeyIndex,
    pub(crate) in_product_tests: KeyIndex,
}

/// `cx` holds the facts of the analysis of `production` and `tests`.
pub(crate) open spec fn context_of(production: Seq<Fragment>, tests: Seq<Fragment>, cx: Context) -> bool {
    let ids = cx.graph.index.ids@;
    let frames = chain(production, tests);
    &&& graph_of(production, tests, cx.graph)
    &&& cx.tests_live@.len() == ids.len()
    &&& forall|n: int| 0 <= n < ids.len() ==> (#[trigger] cx.tests_live@[n] <==> test_live(production, tests, ids[n]))
    &&& cx.production_live@.len() == ids.len()
    &&& forall|n: int| 0 <= n < ids.len() ==> (#[trigger] cx.production_live@[n] <==> production_live(production, tests, ids[n]))
    &&& cx.production_reexports@.len() == ids.len()
    &&& well_formed(lists_of(cx.production_reexports@))
    &&& forall|n: int, m: int| 0 <= n < ids.len() && 0 <= m < ids.len() ==> (#[trigger] has_edge(lists_of(cx.production_reexports@), n, m)
        <==> exists|i: int| #[trigger] reexport_in(flat_edges(production), i, ids[n], ids[m]))
    &&& forall|i: int, x: DefinitionId, to: DefinitionId| #[trigger] reexport_in(flat_edges(production), i, x, to) ==> is_node(ids, x) && is_node(ids, to)
    &&& cx.test_reexports@.len() == ids.len()
    &&& well_formed(lists_of(cx.test_reexports@))
    &&& forall|n: int, m: int| 0 <= n < ids.len() && 0 <= m < ids.len() ==> (#[trigger] has_edge(lists_of(cx.test_reexports@), n, m)
        <==> exists|i: int| #[trigger] reexport_in(flat_edges(tests), i, ids[n], ids[m]))
    &&& forall|i: int, x: DefinitionId, to: DefinitionId| #[trigger] reexport_in(flat_edges(tests), i, x, to) ==> is_node(ids, x) && is_node(ids, to)
    &&& cx.required@.len() == ids.len()
    &&& forall|n: int| 0 <= n < ids.len() ==> (#[trigger] cx.required@[n] <==> required_public(production, tests, ids[n]))
    &&& cx.scopes@.len() == ids.len()
    &&& forall|n: int| 0 <= n < ids.len() ==> #[trigger] cx.scopes@[n].view() == required_scope(production, tests, ids[n])
    &&& cx.kinds@.len() == cx.graph.classes.members@.len()
    &&& forall|n: int| 0 <= n < ids.len() && #[trigger] cx.graph.classes.class_of@[n] is Some
        ==> cx.kinds@[cx.graph.classes.class_of@[n]->0 as int] == group_kind(production, tests, ids[n])
    &&& cx.audited.production_fragments() == production
    &&& cx.audited.test_fragments() == tests
    &&& forall|target: Seq<char>| #[trigger] key_index_entries(cx.targets).contains_key(target_key(target)) <==> production_target(production, target)
    &&& forall|identity: IdentityView| #[trigger] key_index_entries(cx.in_production).contains_key(identity_key(identity)) <==> in_production(production, identity)
    &&& forall|identity: IdentityView| #[trigger] key_index_entries(cx.public_in_production).contains_key(identity_key(identity)) <==> public_in_production(production, identity)
    &&& forall|identity: IdentityView| #[trigger] key_index_entries(cx.restricted_in_production).contains_key(identity_key(identity)) <==> restricted_in_production(production, identity)
    &&& forall|identity: IdentityView| #[trigger] key_index_entries(cx.in_product_tests).contains_key(identity_key(identity)) <==> in_product_tests(tests, identity)
}

/// Each production or test edge joins numbered identifiers.
proof fn lemma_reexports_numbered(ids: Seq<DefinitionId>, edges: Seq<crate::model::Edge>, refs: Seq<crate::frames::EdgeRef>)
    requires
        crate::frames::numbers_edges(ids, edges, refs),
    ensures
        forall|i: int, x: DefinitionId, to: DefinitionId| #[trigger] reexport_in(edges, i, x, to) ==> is_node(ids, x) && is_node(ids, to),
{
    assert forall|i: int, x: DefinitionId, to: DefinitionId| #[trigger] reexport_in(edges, i, x, to) implies is_node(ids, x) && is_node(ids, to) by {
        assert(ids[refs[i].from as int] == x);
        assert(ids[refs[i].to as int] == to);
    }
}

/// Computes the facts of the analysis.
pub(crate) fn build_context(production: &[Fragment], tests: &[Fragment]) -> (cx: Context)
    requires
        total_size(chain(production@, tests@)) < usize::MAX,
    ensures
        context_of(production@, tests@, cx),
{
    let graph = build_graph(production, tests);
    let tests_live = test_liveness(production, tests, &graph);
    let production_live = production_liveness(production, tests, &graph, &tests_live);
    let production_reexports = reexport_lists(production, tests, &graph, &graph.production_edges, Ghost(flat_edges(production@)));
    let test_reexports = reexport_lists(production, tests, &graph, &graph.test_edges, Ghost(flat_edges(tests@)));
    proof {
        lemma_reexports_numbered(graph.index.ids@, flat_edges(production@), graph.production_edges@);
        lemma_reexports_numbered(graph.index.ids@, flat_edges(tests@), graph.test_edges@);
    }
    let required = required_public_visibility(production, tests, &graph);
    let scopes = required_scopes(production, tests, &graph);
    let kinds = group_kinds(production, tests, &graph, &scopes);
    let audited = AuditedFragments::new(production, tests);
    let targets = production_targets(production);
    let mut every: Vec<bool> = Vec::new();
    while every.len() < production.len()
        invariant
            every@.len() <= production@.len(),
            forall|k: int| 0 <= k < every@.len() ==> #[trigger] every@[k],
        decreases production@.len() - every@.len(),
    {
        every.push(true);
    }
    let mut roots: Vec<bool> = Vec::new();
    let mut k: usize = 0;
    while k < tests.len()
        invariant
            k <= tests@.len(),
            roots@.len() == k,
            forall|k2: int| 0 <= k2 < k ==> #[trigger] roots@[k2] == (tests@[k2].is_product_root && !tests@[k2].test_surface),
        decreases tests@.len() - k,
    {
        roots.push(tests[k].is_product_root && !tests[k].test_surface);
        k = k + 1;
    }
    proof {
        assert(every@ =~= all_selected(production@));
        assert(roots@ =~= root_selection(tests@));
    }
    let in_production = identity_table(production, &every, DefinitionFilter::Every);
    let public_in_production = identity_table(production, &every, DefinitionFilter::Public);
    let restricted_in_production = identity_table(production, &every, DefinitionFilter::Restricted);
    let in_product_tests = identity_table(tests, &roots, DefinitionFilter::Every);
    Context {
        graph,
        tests_live,
        production_live,
        production_reexports,
        test_reexports,
        required,
        scopes,
        kinds,
        audited,
        targets,
        in_production,
        public_in_production,
        restricted_in_production,
        in_product_tests,
    }
}

/// The node number of a definition of the analysed fragments.
fn definition_node(cx: &Context, definition: &Definition, Ghost(production): Ghost<Seq<Fragment>>, Ghost(tests): Ghost<Seq<Fragment>>) -> (node: usize)
    requires
        graph_of(production, tests, cx.graph),
        is_node(cx.graph.index.ids@, definition.id),
    ensures
        node < cx.graph.index.ids@.len(),
        cx.graph.index.ids@[node as int] == definition.id,
{
    cx.graph.index.lookup(definition.id).unwrap()
}

/// Whether the declarations of `fragment` are audited.
fn audits(production: &[Fragment], tests: &[Fragment], cx: &Context, fragment: &Fragment) -> (audits: bool)
    requires
        context_of(production@, tests@, *cx),
    ensures
        audits == audited_target(production@, tests@, *fragment),
{
    let binary = match fragment.product_root_kind {
        Some(ProductionTargetKind::Binary) => true,
        _ => false,
    };
    cx.audited.contains(fragment) && is_production_target(&cx.targets, &fragment.compilation_target) && !binary
}

/// Whether the crate of `definition` is a candidate and not excluded.
fn crate_selected(candidates: &HashSet<String>, excluded: &HashSet<String>, definition: &Definition) -> (selected: bool)
    ensures
        selected == selected_crate(candidates@, excluded@, *definition),
{
    string_set_contains(candidates, &definition.crate_name) && !string_set_contains(excluded, &definition.crate_name)
}

/// Whether `table` holds the identity of `definition`.
fn holds_identity(table: &KeyIndex, definition: &Definition) -> (held: bool)
    ensures
        held == key_index_entries(*table).contains_key(identity_key(identity_of(*definition))),
{
    let (texts, numbers) = identity_key_of(definition);
    table.get(&texts, &numbers).is_some()
}

/// Records the identity of `definition`, and reports whether it was new.
fn claim(seen: &mut KeyIndex, definition: &Definition) -> (fresh: bool)
    ensures
        fresh == !key_index_entries(*old(seen)).contains_key(identity_key(identity_of(*definition))),
        forall|x: IdentityView| #[trigger] key_index_entries(*final(seen)).contains_key(identity_key(x))
            <==> (key_index_entries(*old(seen)).contains_key(identity_key(x)) || x == identity_of(*definition)),
{
    let (texts, numbers) = identity_key_of(definition);
    let fresh = seen.get(&texts, &numbers).is_none();
    seen.insert(texts, numbers, 0);
    proof {
        assert forall|x: IdentityView| #[trigger] key_index_entries(*seen).contains_key(identity_key(x))
            <==> (key_index_entries(*old(seen)).contains_key(identity_key(x)) || x == identity_of(*definition)) by {
            lemma_identity_key_injective(x, identity_of(*definition));
        }
    }
    fresh
}

/// Whether production code reaches `definition` or one of its copies.
fn production_reaches(production: &[Fragment], tests: &[Fragment], cx: &Context, definition: &Definition, node: usize) -> (reached: bool)
    requires
        context_of(production@, tests@, *cx),
        node < cx.graph.index.ids@.len(),
        cx.graph.index.ids@[node as int] == definition.id,
    ensures
        reached == live_in_production(production@, tests@, *definition),
{
    is_live(production, tests, &cx.graph, &cx.production_reexports, &cx.production_live, definition, node,
        Ghost(flat_edges(production@)), Ghost(|x: DefinitionId| production_live(production@, tests@, x)))
}

/// Whether the tests reach `definition` or one of its copies.
fn tests_reach(production: &[Fragment], tests: &[Fragment], cx: &Context, definition: &Definition, node: usize) -> (reached: bool)
    requires
        context_of(production@, tests@, *cx),
        node < cx.graph.index.ids@.len(),
        cx.graph.index.ids@[node as int] == definition.id,
    ensures
        reached == live_in_tests(production@, tests@, *definition),
{
    is_live(production, tests, &cx.graph, &cx.test_reexports, &cx.tests_live, definition, node,
        Ghost(flat_edges(tests@)), Ghost(|x: DefinitionId| test_live(production@, tests@, x)))
}

/// Appending a finding appends its view.
proof fn lemma_views_push<'a>(findings: Seq<Finding<'a>>, finding: Finding<'a>)
    ensures
        finding_views(findings.push(finding)) == finding_views(findings).push(finding.view()),
{
    assert(finding_views(findings.push(finding)) =~= finding_views(findings).push(finding.view()));
}

/// The test-only pass.
fn test_only_pass<'a>(
    production: &'a [Fragment],
    tests: &'a [Fragment],
    cx: &Context,
    candidates: &HashSet<String>,
    excluded: &HashSet<String>,
    findings: &mut Vec<Finding<'a>>,
)
    requires
        context_of(production@, tests@, *cx),
    ensures
        finding_views(final(findings)@) == finding_views(old(findings)@)
            + pass(production@, test_only_eligible(production@, tests@, candidates@, excluded@), test_only_emit(production@, tests@)),
{
    let ghost eligible = test_only_eligible(production@, tests@, candidates@, excluded@);
    let ghost emit = test_only_emit(production@, tests@);
    let ghost start = finding_views(findings@);
    proof {
        crate::live::lemma_parts_mentioned(production@, tests@, cx.graph);
    }
    let mut seen = KeyIndex::new();
    let mut k: usize = 0;
    while k < production.len()
        invariant
            context_of(production@, tests@, *cx),
            eligible == test_only_eligible(production@, tests@, candidates@, excluded@),
            emit == test_only_emit(production@, tests@),
            forall|k2: int, j2: int| 0 <= k2 < production@.len() && 0 <= j2 < production@[k2].definitions@.len() ==> is_node(cx.graph.index.ids@, (#[trigger] production@[k2].definitions@[j2]).id),
            k <= production@.len(),
            finding_views(findings@) == start + crate::findings::pass_findings(production@, eligible, emit, k as int),
            forall|x: IdentityView| #[trigger] key_index_entries(seen).contains_key(identity_key(x)) <==> crate::findings::seen_before(production@, eligible, k as int, 0, x),
        decreases production@.len() - k,
    {
        let fragment = &production[k];
        let gate = audits(production, tests, cx, fragment);
        let mut j: usize = 0;
        while j < fragment.definitions.len()
            invariant
                context_of(production@, tests@, *cx),
                eligible == test_only_eligible(production@, tests@, candidates@, excluded@),
                emit == test_only_emit(production@, tests@),
                forall|k2: int, j2: int| 0 <= k2 < production@.len() && 0 <= j2 < production@[k2].definitions@.len() ==> is_node(cx.graph.index.ids@, (#[trigger] production@[k2].definitions@[j2]).id),
                k < production@.len(),
                *fragment == production@[k as int],
                gate == audited_target(production@, tests@, *fragment),
                j <= fragment.definitions@.len(),
                finding_views(findings@) == start + crate::findings::pass_findings(production@, eligible, emit, k as int)
                    + crate::findings::pass_within(production@, eligible, emit, k as int, j as int),
                forall|x: IdentityView| #[trigger] key_index_entries(seen).contains_key(identity_key(x)) <==> crate::findings::seen_before(production@, eligible, k as int, j as int, x),
            decreases fragment.definitions@.len() - j,
        {
            let definition = &fragment.definitions[j];
            let ghost before_views = finding_views(findings@);
            let ghost before_seen = key_index_entries(seen);
            let reexport_hidden = match definition.kind {
                DefinitionKind::Reexport => !definition.visible_reexport_api,
                _ => false,
            };
            let other = match definition.kind {
                DefinitionKind::Other => true,
                _ => false,
            };
            let is_eligible = gate && !other && !reexport_hidden && definition.span.is_some()
                && crate_selected(candidates, excluded, definition);
            proof {
                assert(production@[k as int].definitions@[j as int] == *definition);
                assert(is_eligible == eligible(*fragment, *definition));
                assert(crate::findings::item_at(production@, k as int, j as int));
                assert forall|x: IdentityView| crate::findings::seen_before(production@, eligible, k as int, j + 1, x)
                    <==> (crate::findings::seen_before(production@, eligible, k as int, j as int, x) || (is_eligible && identity_of(*definition) == x)) by {
                    crate::findings::lemma_seen_step(production@, eligible, k as int, j as int, x);
                }
            }
            let mut emitted = false;
            if is_eligible {
                if claim(&mut seen, definition) {
                    let node = definition_node(cx, definition, Ghost(production@), Ghost(tests@));
                    let reached_in_production = production_reaches(production, tests, cx, definition, node);
                    let reached_in_tests = tests_reach(production, tests, cx, definition, node);
                    if !reached_in_production && reached_in_tests {
                        let finding = Finding { kind: FindingKind::TestOnly, definition, test_only: true, test_compiled_only: false };
                        proof {
                            lemma_views_push(findings@, finding);
                        }
                        findings.push(finding);
                        emitted = true;
                    }
                }
            }
            proof {
                let item = crate::findings::pass_item(production@, eligible, emit, k as int, j as int);
                if emitted {
                    assert(item == seq![emit(*fragment, *definition)->0]);
                    assert(finding_views(findings@) == before_views.push(emit(*fragment, *definition)->0));
                } else {
                    assert(item == Seq::<FindingView>::empty());
                    assert(finding_views(findings@) == before_views);
                }
                assert(finding_views(findings@) =~= start + crate::findings::pass_findings(production@, eligible, emit, k as int)
                    + crate::findings::pass_within(production@, eligible, emit, k as int, j + 1));
            }
            j = j + 1;
        }
        proof {
            assert forall|x: IdentityView| #[trigger] key_index_entries(seen).contains_key(identity_key(x)) <==> crate::findings::seen_before(production@, eligible, k + 1, 0, x) by {
                crate::findings::lemma_seen_next_fragment(production@, eligible, k as int, x);
            }
            assert(finding_views(findings@) =~= start + crate::findings::pass_findings(production@, eligible, emit, k + 1));
        }
        k = k + 1;
    }
}

/// The public pass.
fn public_pass<'a>(
    production: &'a [Fragment],
    tests: &'a [Fragment],
    cx: &Context,
    candidates: &HashSet<String>,
    excluded: &HashSet<String>,
    findings: &mut Vec<Finding<'a>>,
) -> (seen: KeyIndex)
    requires
        context_of(production@, tests@, *cx),
    ensures
        finding_views(final(findings)@) == finding_views(old(findings)@)
            + pass(chain(production@, tests@), public_eligible(production@, tests@, candidates@, excluded@), public_emit(production@, tests@)),
        forall|x: IdentityView| #[trigger] key_index_entries(seen).contains_key(identity_key(x))
            <==> crate::findings::reported_in(chain(production@, tests@), public_eligible(production@, tests@, candidates@, excluded@), x),
{
    let ghost frames = chain(production@, tests@);
    let ghost eligible = public_eligible(production@, tests@, candidates@, excluded@);
    let ghost emit = public_emit(production@, tests@);
    let ghost start = finding_views(findings@);
    proof {
        crate::live::lemma_parts_mentioned(production@, tests@, cx.graph);
        crate::frames::lemma_total_size_counts_fragments(frames);
        assert forall|k2: int, j2: int| 0 <= k2 < frames.len() && 0 <= j2 < frames[k2].definitions@.len() implies is_node(cx.graph.index.ids@, (#[trigger] frames[k2].definitions@[j2]).id) by {
            if k2 < production@.len() {
                assert(frames[k2] == production@[k2]);
                assert(is_node(cx.graph.index.ids@, production@[k2].definitions@[j2].id));
            } else {
                assert(frames[k2] == tests@[k2 - production@.len()]);
                assert(is_node(cx.graph.index.ids@, tests@[k2 - production@.len()].definitions@[j2].id));
            }
        }
    }
    let count = production.len() + tests.len();
    let mut seen = KeyIndex::new();
    let mut k: usize = 0;
    while k < count
        invariant
            context_of(production@, tests@, *cx),
            frames == chain(production@, tests@),
            count == frames.len(),
            eligible == public_eligible(production@, tests@, candidates@, excluded@),
            emit == public_emit(production@, tests@),
            forall|k2: int, j2: int| 0 <= k2 < frames.len() && 0 <= j2 < frames[k2].definitions@.len() ==> is_node(cx.graph.index.ids@, (#[trigger] frames[k2].definitions@[j2]).id),
            k <= count,
            finding_views(findings@) == start + crate::findings::pass_findings(frames, eligible, emit, k as int),
            forall|x: IdentityView| #[trigger] key_index_entries(seen).contains_key(identity_key(x)) <==> crate::findings::seen_before(frames, eligible, k as int, 0, x),
        decreases count - k,
    {
        let fragment = crate::frames::fragment_at(production, tests, k);
        let gate = audits(production, tests, cx, fragment);
        let mut j: usize = 0;
        while j < fragment.definitions.len()
            invariant
                context_of(production@, tests@, *cx),
                frames == chain(production@, tests@),
                eligible == public_eligible(production@, tests@, candidates@, excluded@),
                emit == public_emit(production@, tests@),
                forall|k2: int, j2: int| 0 <= k2 < frames.len() && 0 <= j2 < frames[k2].definitions@.len() ==> is_node(cx.graph.index.ids@, (#[trigger] frames[k2].definitions@[j2]).id),
                k < frames.len(),
                *fragment == frames[k as int],
                gate == audited_target(production@, tests@, *fragment),
                j <= fragment.definitions@.len(),
                finding_views(findings@) == start + crate::findings::pass_findings(frames, eligible, emit, k as int)
                    + crate::findings::pass_within(frames, eligible, emit, k as int, j as int),
                forall|x: IdentityView| #[trigger] key_index_entries(seen).contains_key(identity_key(x)) <==> crate::findings::seen_before(frames, eligible, k as int, j as int, x),
            decreases fragment.definitions@.len() - j,
        {
            let definition = &fragment.definitions[j];
            let ghost before_views = finding_views(findings@);
            proof {
                assert(frames[k as int].definitions@[j as int] == *definition);
                assert(is_node(cx.graph.index.ids@, definition.id));
            }
            let node = definition_node(cx, definition, Ghost(production@), Ghost(tests@));
            let is_eligible = gate && definition.public_api && !definition.dead_code_allowed
                && !(holds_identity(&cx.in_production, definition) && !holds_identity(&cx.public_in_production, definition))
                && crate_selected(candidates, excluded, definition)
                && !cx.required[node];
            proof {
                assert(is_eligible == eligible(*fragment, *definition));
                assert(crate::findings::item_at(frames, k as int, j as int));
                assert forall|x: IdentityView| crate::findings::seen_before(frames, eligible, k as int, j + 1, x)
                    <==> (crate::findings::seen_before(frames, eligible, k as int, j as int, x) || (is_eligible && identity_of(*definition) == x)) by {
                    crate::findings::lemma_seen_step(frames, eligible, k as int, j as int, x);
                }
            }
            let mut emitted = false;
            if is_eligible {
                if claim(&mut seen, definition) {
                    let reached_in_production = production_reaches(production, tests, cx, definition, node);
                    let reached_in_tests = tests_reach(production, tests, cx, definition, node);
                    let test_compiled_only = !holds_identity(&cx.in_production, definition);
                    if !reached_in_production && !reached_in_tests {
                        let finding = Finding { kind: FindingKind::DeadPublic, definition, test_only: false, test_compiled_only };
                        proof {
                            lemma_views_push(findings@, finding);
                        }
                        findings.push(finding);
                        emitted = true;
                    } else {
                        let variant = match definition.kind {
                            DefinitionKind::EnumVariant => true,
                            _ => false,
                        };
                        if !variant {
                            let finding = Finding {
                                kind: FindingKind::UnnecessaryPublic,
                                definition,
                                test_only: !reached_in_production && reached_in_tests,
                                test_compiled_only,
                            };
                            proof {
                                lemma_views_push(findings@, finding);
                            }
                            findings.push(finding);
                            emitted = true;
                        }
                    }
                }
            }
            proof {
                let item = crate::findings::pass_item(frames, eligible, emit, k as int, j as int);
                if emitted {
                    assert(item == seq![emit(*fragment, *definition)->0]);
                    assert(finding_views(findings@) == before_views.push(emit(*fragment, *definition)->0));
                } else {
                    assert(item == Seq::<FindingView>::empty());
                    assert(finding_views(findings@) == before_views);
                }
                assert(finding_views(findings@) =~= start + crate::findings::pass_findings(frames, eligible, emit, k as int)
                    + crate::findings::pass_within(frames, eligible, emit, k as int, j + 1));
            }
            j = j + 1;
        }
        proof {
            assert forall|x: IdentityView| #[trigger] key_index_entries(seen).contains_key(identity_key(x)) <==> crate::findings::seen_before(frames, eligible, k + 1, 0, x) by {
                crate::findings::lemma_seen_next_fragment(frames, eligible, k as int, x);
            }
            assert(finding_views(findings@) =~= start + crate::findings::pass_findings(frames, eligible, emit, k + 1));
        }
        k = k + 1;
    }
    proof {
        assert forall|x: IdentityView| #[trigger] key_index_entries(seen).contains_key(identity_key(x))
            <==> crate::findings::reported_in(frames, eligible, x) by {
            crate::findings::lemma_seen_all(frames, eligible, x);
        }
    }
    seen
}

/// The restricted-visibility pass.
fn restricted_pass<'a>(
    production: &'a [Fragment],
    tests: &'a [Fragment],
    cx: &Context,
    candidates: &HashSet<String>,
    excluded: &HashSet<String>,
    reported: &KeyIndex,
    findings: &mut Vec<Finding<'a>>,
) -> (seen: KeyIndex)
    requires
        context_of(production@, tests@, *cx),
        forall|x: IdentityView| #[trigger] key_index_entries(*reported).contains_key(identity_key(x))
                <==> crate::findings::reported_in(chain(production@, tests@), public_eligible(production@, tests@, candidates@, excluded@), x),
    ensures
        finding_views(final(findings)@) == finding_views(old(findings)@)
            + pass(chain(production@, tests@), restricted_eligible(production@, tests@, candidates@, excluded@), restricted_emit(production@, tests@)),
        forall|x: IdentityView| #[trigger] key_index_entries(seen).contains_key(identity_key(x))
            <==> crate::findings::reported_in(chain(production@, tests@), restricted_eligible(production@, tests@, candidates@, excluded@), x),
{
    let ghost frames = chain(production@, tests@);
    let ghost eligible = restricted_eligible(production@, tests@, candidates@, excluded@);
    let ghost emit = restricted_emit(production@, tests@);
    let ghost start = finding_views(findings@);
    proof {
        crate::live::lemma_parts_mentioned(production@, tests@, cx.graph);
        crate::frames::lemma_total_size_counts_fragments(frames);
        assert forall|k2: int, j2: int| 0 <= k2 < frames.len() && 0 <= j2 < frames[k2].definitions@.len() implies is_node(cx.graph.index.ids@, (#[trigger] frames[k2].definitions@[j2]).id) by {
            if k2 < production@.len() {
                assert(frames[k2] == production@[k2]);
                assert(is_node(cx.graph.index.ids@, production@[k2].definitions@[j2].id));
            } else {
                assert(frames[k2] == tests@[k2 - production@.len()]);
                assert(is_node(cx.graph.index.ids@, tests@[k2 - production@.len()].definitions@[j2].id));
            }
        }
    }
    let count = production.len() + tests.len();
    let mut seen = KeyIndex::new();
    let mut k: usize = 0;
    while k < count
        invariant
            context_of(production@, tests@, *cx),
        forall|x: IdentityView| #[trigger] key_index_entries(*reported).contains_key(identity_key(x))
                <==> crate::findings::reported_in(chain(production@, tests@), public_eligible(production@, tests@, candidates@, excluded@), x),
            frames == chain(production@, tests@),
            count == frames.len(),
            eligible == restricted_eligible(production@, tests@, candidates@, excluded@),
            emit == restricted_emit(production@, tests@),
            forall|k2: int, j2: int| 0 <= k2 < frames.len() && 0 <= j2 < frames[k2].definitions@.len() ==> is_node(cx.graph.index.ids@, (#[trigger] frames[k2].definitions@[j2]).id),
            k <= count,
            finding_views(findings@) == start + crate::findings::pass_findings(frames, eligible, emit, k as int),
            forall|x: IdentityView| #[trigger] key_index_entries(seen).contains_key(identity_key(x)) <==> crate::findings::seen_before(frames, eligible, k as int, 0, x),
        decreases count - k,
    {
        let fragment = crate::frames::fragment_at(production, tests, k);
        let gate = audits(production, tests, cx, fragment);
        let mut j: usize = 0;
        while j < fragment.definitions.len()
            invariant
                context_of(production@, tests@, *cx),
        forall|x: IdentityView| #[trigger] key_index_entries(*reported).contains_key(identity_key(x))
                <==> crate::findings::reported_in(chain(production@, tests@), public_eligible(production@, tests@, candidates@, excluded@), x),
                frames == chain(production@, tests@),
                eligible == restricted_eligible(production@, tests@, candidates@, excluded@),
                emit == restricted_emit(production@, tests@),
                forall|k2: int, j2: int| 0 <= k2 < frames.len() && 0 <= j2 < frames[k2].definitions@.len() ==> is_node(cx.graph.index.ids@, (#[trigger] frames[k2].definitions@[j2]).id),
                k < frames.len(),
                *fragment == frames[k as int],
                gate == audited_target(production@, tests@, *fragment),
                j <= fragment.definitions@.len(),
                finding_views(findings@) == start + crate::findings::pass_findings(frames, eligible, emit, k as int)
                    + crate::findings::pass_within(frames, eligible, emit, k as int, j as int),
                forall|x: IdentityView| #[trigger] key_index_entries(seen).contains_key(identity_key(x)) <==> crate::findings::seen_before(frames, eligible, k as int, j as int, x),
            decreases fragment.definitions@.len() - j,
        {
            let definition = &fragment.definitions[j];
            let ghost before_views = finding_views(findings@);
            proof {
                assert(frames[k as int].definitions@[j as int] == *definition);
                assert(is_node(cx.graph.index.ids@, definition.id));
            }
            let node = definition_node(cx, definition, Ghost(production@), Ghost(tests@));
            let cheap = gate && definition.restricted_visible_api && !definition.dead_code_allowed
                && !(holds_identity(&cx.in_production, definition) && !holds_identity(&cx.restricted_in_production, definition))
                && crate_selected(candidates, excluded, definition)
                && !(!holds_identity(&cx.in_production, definition) && holds_identity(&cx.in_product_tests, definition))
                && !holds_identity(reported, definition);
            let kind = if cheap {
                restricted_finding_kind(production, tests, &cx.graph, &cx.scopes, &cx.kinds, definition, node)
            } else {
                None
            };
            let is_eligible = cheap && kind.is_some();
            proof {
                assert(is_eligible == eligible(*fragment, *definition));
                assert(crate::findings::item_at(frames, k as int, j as int));
                assert forall|x: IdentityView| crate::findings::seen_before(frames, eligible, k as int, j + 1, x)
                    <==> (crate::findings::seen_before(frames, eligible, k as int, j as int, x) || (is_eligible && identity_of(*definition) == x)) by {
                    crate::findings::lemma_seen_step(frames, eligible, k as int, j as int, x);
                }
            }
            let mut emitted = false;
            if is_eligible {
                if claim(&mut seen, definition) {
                    let reached_in_production = production_reaches(production, tests, cx, definition, node);
                    let reached_in_tests = tests_reach(production, tests, cx, definition, node);
                    let finding = Finding {
                        kind: kind.unwrap(),
                        definition,
                        test_only: !reached_in_production && reached_in_tests,
                        test_compiled_only: !holds_identity(&cx.in_production, definition),
                    };
                    proof {
                        lemma_views_push(findings@, finding);
                    }
                    findings.push(finding);
                    emitted = true;
                }
            }
            proof {
                let item = crate::findings::pass_item(frames, eligible, emit, k as int, j as int);
                if emitted {
                    assert(item == seq![emit(*fragment, *definition)->0]);
                    assert(finding_views(findings@) == before_views.push(emit(*fragment, *definition)->0));
                } else {
                    assert(item == Seq::<FindingView>::empty());
                    assert(finding_views(findings@) == before_views);
                }
                assert(finding_views(findings@) =~= start + crate::findings::pass_findings(frames, eligible, emit, k as int)
                    + crate::findings::pass_within(frames, eligible, emit, k as int, j + 1));
            }
            j = j + 1;
        }
        proof {
            assert forall|x: IdentityView| #[trigger] key_index_entries(seen).contains_key(identity_key(x)) <==> crate::findings::seen_before(frames, eligible, k + 1, 0, x) by {
                crate::findings::lemma_seen_next_fragment(frames, eligible, k as int, x);
            }
            assert(finding_views(findings@) =~= start + crate::findings::pass_findings(frames, eligible, emit, k + 1));
        }
        k = k + 1;
    }
    proof {
        assert forall|x: IdentityView| #[trigger] key_index_entries(seen).contains_key(identity_key(x))
            <==> crate::findings::reported_in(frames, eligible, x) by {
            crate::findings::lemma_seen_all(frames, eligible, x);
        }
    }
    seen
}

/// The source position of a span, as plain values.
pub type PositionView = (Seq<char>, usize, usize);

/// The uniform field group of `definition`, by the position of its declaration.
pub open spec fn field_group_of(definition: Definition) -> Option<PositionView> {
    match definition.uniform_field_group {
        Some(group) => Some((group.span.file@, group.span.line, group.span.column)),
        None => None,
    }
}

/// Every compiled use of `definition` lies in its own crate, and yet no narrower
/// visibility is available for it.
pub open spec fn known_restricted_requirement(production: Seq<Fragment>, tests: Seq<Fragment>, definition: Definition) -> bool {
    &&& required_scope(production, tests, definition.id) matches crate::scope::ScopeView::Known { crate_name, .. } && crate_name == definition.crate_name@
    &&& restricted_kind(production, tests, definition) is None
}

/// The field `definition` needs the visibility its uniform group shares: its group is only
/// partly observed, it is allowed dead, or its own visibility is required.
pub open spec fn field_required(production: Seq<Fragment>, tests: Seq<Fragment>, definition: Definition) -> bool {
    match definition.uniform_field_group {
        None => false,
        Some(group) => {
            ||| !group.all_fields_observed
            ||| definition.dead_code_allowed
            ||| if definition.public_api {
                required_public(production, tests, definition.id)
            } else if definition.restricted_visible_api {
                known_restricted_requirement(production, tests, definition)
            } else {
                false
            }
        },
    }
}

/// The uniform group at `position` must keep its shared visibility: one of its fields needs
/// it, or one of its fields is reported dead.
pub open spec fn protected_group(production: Seq<Fragment>, tests: Seq<Fragment>, findings: Seq<FindingView>, position: PositionView) -> bool {
    let frames = chain(production, tests);
    ||| exists|k: int, j: int| #[trigger] crate::findings::item_at(frames, k, j)
        && field_required(production, tests, frames[k].definitions@[j]) && field_group_of(frames[k].definitions@[j]) == Some(position)
    ||| exists|i: int| 0 <= i < findings.len() && (#[trigger] findings[i]).kind == FindingKind::DeadPublic && field_group_of(findings[i].definition) == Some(position)
}

/// Some field of the uniform group at `position` can only be narrowed to its parent module.
pub open spec fn parent_group(production: Seq<Fragment>, tests: Seq<Fragment>, position: PositionView) -> bool {
    let frames = chain(production, tests);
    exists|k: int, j: int| #[trigger] crate::findings::item_at(frames, k, j)
        && field_group_of(frames[k].definitions@[j]) == Some(position)
        && restricted_kind(production, tests, frames[k].definitions@[j]) == Some(FindingKind::UnnecessaryCrateVisibility)
}

/// What becomes of `finding` when uniform field groups keep a shared visibility: none if
/// its group is protected; a reduction to the parent module if another field of its group
/// needs one.
pub open spec fn preserved_finding(production: Seq<Fragment>, tests: Seq<Fragment>, findings: Seq<FindingView>, finding: FindingView) -> Option<FindingView> {
    if finding.kind == FindingKind::DeadPublic || finding.kind == FindingKind::TestOnly {
        Some(finding)
    } else {
        match field_group_of(finding.definition) {
            None => Some(finding),
            Some(position) => if protected_group(production, tests, findings, position) {
                None
            } else if parent_group(production, tests, position) && finding.kind == FindingKind::UnnecessaryRestrictedVisibility {
                Some(FindingView { kind: FindingKind::UnnecessaryCrateVisibility, ..finding })
            } else {
                Some(finding)
            },
        }
    }
}

/// The first `n` findings of `findings`, with uniform field groups keeping a shared visibility.
pub open spec fn preserved_prefix(production: Seq<Fragment>, tests: Seq<Fragment>, findings: Seq<FindingView>, n: int) -> Seq<FindingView>
    decreases n,
{
    if n <= 0 {
        Seq::empty()
    } else {
        preserved_prefix(production, tests, findings, n - 1) + match preserved_finding(production, tests, findings, findings[n - 1]) {
            Some(finding) => seq![finding],
            None => Seq::empty(),
        }
    }
}

/// The findings with uniform field groups keeping a shared visibility.
pub open spec fn preserved(production: Seq<Fragment>, tests: Seq<Fragment>, findings: Seq<FindingView>) -> Seq<FindingView> {
    preserved_prefix(production, tests, findings, findings.len() as int)
}

/// The lookup key of a source position.
pub open spec fn position_key(position: PositionView) -> crate::keys::KeyView {
    (seq![position.0], seq![position.1 as u64, position.2 as u64])
}

fn group_key(definition: &Definition) -> (key: Option<(Vec<String>, Vec<u64>)>)
    ensures
        key is Some <==> field_group_of(*definition) is Some,
        key matches Some(parts) ==> (crate::keys::texts_of(parts.0@), parts.1@) == position_key(field_group_of(*definition)->0),
{
    match &definition.uniform_field_group {
        Some(group) => {
            let texts = vec![group.span.file.clone()];
            let numbers = vec![group.span.line as u64, group.span.column as u64];
            proof {
                let expected = position_key(field_group_of(*definition)->0);
                assert(crate::keys::texts_of(texts@) =~= expected.0);
                assert(numbers@ =~= expected.1);
            }
            Some((texts, numbers))
        },
        None => None,
    }
}

proof fn lemma_position_key_injective(a: PositionView, b: PositionView)
    ensures
        position_key(a) == position_key(b) ==> a == b,
{
    if position_key(a) == position_key(b) {
        assert(position_key(a).0[0] == position_key(b).0[0]);
        assert(position_key(a).1[0] == position_key(b).1[0]);
        assert(position_key(a).1[1] == position_key(b).1[1]);
    }
}

/// Whether the field `definition`, numbered `node`, needs its group's shared visibility.
fn field_needs_visibility(production: &[Fragment], tests: &[Fragment], cx: &Context, definition: &Definition, node: usize) -> (needed: bool)
    requires
        context_of(production@, tests@, *cx),
        node < cx.graph.index.ids@.len(),
        cx.graph.index.ids@[node as int] == definition.id,
    ensures
        needed == field_required(production@, tests@, *definition),
{
    match &definition.uniform_field_group {
        None => false,
        Some(group) => {
            if !group.all_fields_observed || definition.dead_code_allowed {
                true
            } else if definition.public_api {
                cx.required[node]
            } else if definition.restricted_visible_api {
                let own_crate = match &cx.scopes[node] {
                    RequiredScope::Known { crate_name, .. } => *crate_name == definition.crate_name,
                    _ => false,
                };
                proof {
                    assert(cx.scopes@[node as int].view() == required_scope(production@, tests@, definition.id));
                    assert(own_crate == (required_scope(production@, tests@, definition.id) matches crate::scope::ScopeView::Known { crate_name, .. } && crate_name == definition.crate_name@));
                }
                own_crate && restricted_finding_kind(production, tests, &cx.graph, &cx.scopes, &cx.kinds, definition, node).is_none()
            } else {
                false
            }
        },
    }
}

/// Tables of the protected uniform groups and of those whose fields need their parent module.
fn group_tables<'a>(production: &'a [Fragment], tests: &'a [Fragment], cx: &Context, findings: &Vec<Finding<'a>>) -> (tables: (KeyIndex, KeyIndex))
    requires
        context_of(production@, tests@, *cx),
    ensures
        forall|position: PositionView| #[trigger] key_index_entries(tables.0).contains_key(position_key(position))
            <==> protected_group(production@, tests@, finding_views(findings@), position),
        forall|position: PositionView| #[trigger] key_index_entries(tables.1).contains_key(position_key(position))
            <==> parent_group(production@, tests@, position),
{
    let ghost frames = chain(production@, tests@);
    let ghost views = finding_views(findings@);
    proof {
        crate::live::lemma_parts_mentioned(production@, tests@, cx.graph);
        crate::frames::lemma_total_size_counts_fragments(frames);
        assert forall|k2: int, j2: int| 0 <= k2 < frames.len() && 0 <= j2 < frames[k2].definitions@.len() implies is_node(cx.graph.index.ids@, (#[trigger] frames[k2].definitions@[j2]).id) by {
            if k2 < production@.len() {
                assert(frames[k2] == production@[k2]);
                assert(is_node(cx.graph.index.ids@, production@[k2].definitions@[j2].id));
            } else {
                assert(frames[k2] == tests@[k2 - production@.len()]);
                assert(is_node(cx.graph.index.ids@, tests@[k2 - production@.len()].definitions@[j2].id));
            }
        }
    }
    let mut protected = KeyIndex::new();
    let mut parents = KeyIndex::new();
    let count = production.len() + tests.len();
    let mut k: usize = 0;
    while k < count
        invariant
            context_of(production@, tests@, *cx),
            frames == chain(production@, tests@),
            count == frames.len(),
            forall|k2: int, j2: int| 0 <= k2 < frames.len() && 0 <= j2 < frames[k2].definitions@.len() ==> is_node(cx.graph.index.ids@, (#[trigger] frames[k2].definitions@[j2]).id),
            k <= count,
            forall|position: PositionView| #[trigger] key_index_entries(protected).contains_key(position_key(position))
                <==> exists|k2: int, j2: int| #[trigger] crate::findings::item_at(frames, k2, j2) && before(k2, j2, k as int, 0)
                    && field_required(production@, tests@, frames[k2].definitions@[j2]) && field_group_of(frames[k2].definitions@[j2]) == Some(position),
            forall|position: PositionView| #[trigger] key_index_entries(parents).contains_key(position_key(position))
                <==> exists|k2: int, j2: int| #[trigger] crate::findings::item_at(frames, k2, j2) && before(k2, j2, k as int, 0)
                    && field_group_of(frames[k2].definitions@[j2]) == Some(position)
                    && restricted_kind(production@, tests@, frames[k2].definitions@[j2]) == Some(FindingKind::UnnecessaryCrateVisibility),
        decreases count - k,
    {
        let fragment = crate::frames::fragment_at(production, tests, k);
        let mut j: usize = 0;
        while j < fragment.definitions.len()
            invariant
                context_of(production@, tests@, *cx),
                frames == chain(production@, tests@),
                forall|k2: int, j2: int| 0 <= k2 < frames.len() && 0 <= j2 < frames[k2].definitions@.len() ==> is_node(cx.graph.index.ids@, (#[trigger] frames[k2].definitions@[j2]).id),
                k < frames.len(),
                *fragment == frames[k as int],
                j <= fragment.definitions@.len(),
                forall|position: PositionView| #[trigger] key_index_entries(protected).contains_key(position_key(position))
                    <==> exists|k2: int, j2: int| #[trigger] crate::findings::item_at(frames, k2, j2) && before(k2, j2, k as int, j as int)
                        && field_required(production@, tests@, frames[k2].definitions@[j2]) && field_group_of(frames[k2].definitions@[j2]) == Some(position),
                forall|position: PositionView| #[trigger] key_index_entries(parents).contains_key(position_key(position))
                    <==> exists|k2: int, j2: int| #[trigger] crate::findings::item_at(frames, k2, j2) && before(k2, j2, k as int, j as int)
                        && field_group_of(frames[k2].definitions@[j2]) == Some(position)
                        && restricted_kind(production@, tests@, frames[k2].definitions@[j2]) == Some(FindingKind::UnnecessaryCrateVisibility),
            decreases fragment.definitions@.len() - j,
        {
            let definition = &fragment.definitions[j];
            let ghost old_protected = key_index_entries(protected);
            let ghost old_parents = key_index_entries(parents);
            proof {
                assert(frames[k as int].definitions@[j as int] == *definition);
                assert(crate::findings::item_at(frames, k as int, j as int));
            }
            let key = group_key(definition);
            let mut needed = false;
            let mut parent = false;
            if let Some((texts, numbers)) = key {
                let node = definition_node(cx, definition, Ghost(production@), Ghost(tests@));
                needed = field_needs_visibility(production, tests, cx, definition, node);
                let kind = restricted_finding_kind(production, tests, &cx.graph, &cx.scopes, &cx.kinds, definition, node);
                parent = match kind {
                    Some(FindingKind::UnnecessaryCrateVisibility) => true,
                    _ => false,
                };
                if needed {
                    protected.insert(texts.clone(), numbers.clone(), 0);
                }
                if parent {
                    parents.insert(texts, numbers, 0);
                }
            }
            proof {
                let d = *definition;
                assert(needed == (field_group_of(d) is Some && field_required(production@, tests@, d)));
                assert(parent == (field_group_of(d) is Some && restricted_kind(production@, tests@, d) == Some(FindingKind::UnnecessaryCrateVisibility)));
                assert forall|position: PositionView| #[trigger] key_index_entries(protected).contains_key(position_key(position))
                    <==> exists|k2: int, j2: int| #[trigger] crate::findings::item_at(frames, k2, j2) && before(k2, j2, k as int, j + 1)
                        && field_required(production@, tests@, frames[k2].definitions@[j2]) && field_group_of(frames[k2].definitions@[j2]) == Some(position) by {
                    if field_group_of(d) is Some {
                        lemma_position_key_injective(position, field_group_of(d)->0);
                    }
                    if exists|k2: int, j2: int| #[trigger] crate::findings::item_at(frames, k2, j2) && before(k2, j2, k as int, j + 1)
                        && field_required(production@, tests@, frames[k2].definitions@[j2]) && field_group_of(frames[k2].definitions@[j2]) == Some(position) {
                        let (k2, j2) = choose|k2: int, j2: int| #[trigger] crate::findings::item_at(frames, k2, j2) && before(k2, j2, k as int, j + 1)
                            && field_required(production@, tests@, frames[k2].definitions@[j2]) && field_group_of(frames[k2].definitions@[j2]) == Some(position);
                        if before(k2, j2, k as int, j as int) {
                            assert(old_protected.contains_key(position_key(position)));
                        }
                    }
                    if old_protected.contains_key(position_key(position)) {
                        let (k2, j2) = choose|k2: int, j2: int| #[trigger] crate::findings::item_at(frames, k2, j2) && before(k2, j2, k as int, j as int)
                            && field_required(production@, tests@, frames[k2].definitions@[j2]) && field_group_of(frames[k2].definitions@[j2]) == Some(position);
                        assert(before(k2, j2, k as int, j + 1));
                    }
                }
                assert forall|position: PositionView| #[trigger] key_index_entries(parents).contains_key(position_key(position))
                    <==> exists|k2: int, j2: int| #[trigger] crate::findings::item_at(frames, k2, j2) && before(k2, j2, k as int, j + 1)
                        && field_group_of(frames[k2].definitions@[j2]) == Some(position)
                        && restricted_kind(production@, tests@, frames[k2].definitions@[j2]) == Some(FindingKind::UnnecessaryCrateVisibility) by {
                    if field_group_of(d) is Some {
                        lemma_position_key_injective(position, field_group_of(d)->0);
                    }
                    if exists|k2: int, j2: int| #[trigger] crate::findings::item_at(frames, k2, j2) && before(k2, j2, k as int, j + 1)
                        && field_group_of(frames[k2].definitions@[j2]) == Some(position)
                        && restricted_kind(production@, tests@, frames[k2].definitions@[j2]) == Some(FindingKind::UnnecessaryCrateVisibility) {
                        let (k2, j2) = choose|k2: int, j2: int| #[trigger] crate::findings::item_at(frames, k2, j2) && before(k2, j2, k as int, j + 1)
                            && field_group_of(frames[k2].definitions@[j2]) == Some(position)
                            && restricted_kind(production@, tests@, frames[k2].definitions@[j2]) == Some(FindingKind::UnnecessaryCrateVisibility);
                        if before(k2, j2, k as int, j as int) {
                            assert(old_parents.contains_key(position_key(position)));
                        }
                    }
                    if old_parents.contains_key(position_key(position)) {
                        let (k2, j2) = choose|k2: int, j2: int| #[trigger] crate::findings::item_at(frames, k2, j2) && before(k2, j2, k as int, j as int)
                            && field_group_of(frames[k2].definitions@[j2]) == Some(position)
                            && restricted_kind(production@, tests@, frames[k2].definitions@[j2]) == Some(FindingKind::UnnecessaryCrateVisibility);
                        assert(before(k2, j2, k as int, j + 1));
                    }
                }
            }
            j = j + 1;
        }
        proof {
            assert forall|k2: int, j2: int| #[trigger] crate::findings::item_at(frames, k2, j2) implies (before(k2, j2, k + 1, 0) <==> before(k2, j2, k as int, fragment.definitions@.len() as int)) by {
            }
        }
        k = k + 1;
    }
    let mut i: usize = 0;
    while i < findings.len()
        invariant
            views == finding_views(findings@),
            i <= findings@.len(),
            forall|position: PositionView| #[trigger] key_index_entries(protected).contains_key(position_key(position))
                <==> ((exists|k2: int, j2: int| #[trigger] crate::findings::item_at(frames, k2, j2)
                    && field_required(production@, tests@, frames[k2].definitions@[j2]) && field_group_of(frames[k2].definitions@[j2]) == Some(position))
                    || exists|q: int| 0 <= q < i && (#[trigger] views[q]).kind == FindingKind::DeadPublic && field_group_of(views[q].definition) == Some(position)),
        decreases findings@.len() - i,
    {
        let finding = &findings[i];
        let ghost old_protected = key_index_entries(protected);
        let dead = match finding.kind {
            FindingKind::DeadPublic => true,
            _ => false,
        };
        let mut added = false;
        if dead {
            if let Some((texts, numbers)) = group_key(finding.definition) {
                protected.insert(texts, numbers, 0);
                added = true;
            }
        }
        proof {
            assert(views[i as int] == finding.view());
            let d = *finding.definition;
            assert forall|position: PositionView| #[trigger] key_index_entries(protected).contains_key(position_key(position))
                <==> ((exists|k2: int, j2: int| #[trigger] crate::findings::item_at(frames, k2, j2)
                    && field_required(production@, tests@, frames[k2].definitions@[j2]) && field_group_of(frames[k2].definitions@[j2]) == Some(position))
                    || exists|q: int| 0 <= q < i + 1 && (#[trigger] views[q]).kind == FindingKind::DeadPublic && field_group_of(views[q].definition) == Some(position)) by {
                if field_group_of(d) is Some {
                    lemma_position_key_injective(position, field_group_of(d)->0);
                }
                if exists|q: int| 0 <= q < i + 1 && (#[trigger] views[q]).kind == FindingKind::DeadPublic && field_group_of(views[q].definition) == Some(position) {
                    let q = choose|q: int| 0 <= q < i + 1 && (#[trigger] views[q]).kind == FindingKind::DeadPublic && field_group_of(views[q].definition) == Some(position);
                    if q < i {
                        assert(old_protected.contains_key(position_key(position)));
                    }
                }
            }
        }
        i = i + 1;
    }
    (protected, parents)
}

/// Drops or adjusts the findings whose uniform field group keeps a shared visibility.
fn preserve_uniform_fields<'a>(production: &'a [Fragment], tests: &'a [Fragment], cx: &Context, findings: Vec<Finding<'a>>) -> (kept: Vec<Finding<'a>>)
    requires
        context_of(production@, tests@, *cx),
    ensures
        finding_views(kept@) == preserved(production@, tests@, finding_views(findings@)),
{
    let ghost views = finding_views(findings@);
    let (protected, parents) = group_tables(production, tests, cx, &findings);
    let mut kept: Vec<Finding<'a>> = Vec::new();
    let mut i: usize = 0;
    while i < findings.len()
        invariant
            views == finding_views(findings@),
            i <= findings@.len(),
            forall|position: PositionView| #[trigger] key_index_entries(protected).contains_key(position_key(position))
                <==> protected_group(production@, tests@, views, position),
            forall|position: PositionView| #[trigger] key_index_entries(parents).contains_key(position_key(position))
                <==> parent_group(production@, tests@, position),
            finding_views(kept@) == preserved_prefix(production@, tests@, views, i as int),
        decreases findings@.len() - i,
    {
        let finding = &findings[i];
        let ghost view = finding.view();
        proof {
            assert(views[i as int] == view);
        }
        let settled = match finding.kind {
            FindingKind::DeadPublic | FindingKind::TestOnly => true,
            _ => false,
        };
        let mut outcome: Option<Finding<'a>> = None;
        if settled {
            outcome = Some(finding.clone_finding());
        } else {
            match group_key(finding.definition) {
                None => {
                    outcome = Some(finding.clone_finding());
                },
                Some((texts, numbers)) => {
                    if protected.get(&texts, &numbers).is_some() {
                        outcome = None;
                    } else {
                        let restricted = match finding.kind {
                            FindingKind::UnnecessaryRestrictedVisibility => true,
                            _ => false,
                        };
                        if restricted && parents.get(&texts, &numbers).is_some() {
                            outcome = Some(Finding {
                                kind: FindingKind::UnnecessaryCrateVisibility,
                                definition: finding.definition,
                                test_only: finding.test_only,
                                test_compiled_only: finding.test_compiled_only,
                            });
                        } else {
                            outcome = Some(finding.clone_finding());
                        }
                    }
                },
            }
        }
        proof {
            let expected = preserved_finding(production@, tests@, views, view);
            assert(outcome is Some <==> expected is Some);
            assert(outcome matches Some(f) ==> f.view() == expected->0);
        }
        match outcome {
            Some(f) => {
                proof {
                    lemma_views_push(kept@, f);
                }
                kept.push(f);
            },
            None => {},
        }
        proof {
            assert(finding_views(kept@) =~= preserved_prefix(production@, tests@, views, i + 1));
        }
        i = i + 1;
    }
    kept
}

/// The findings that the analysis reports before ordering them.
pub open spec fn reported_findings(
    production: Seq<Fragment>,
    tests: Seq<Fragment>,
    candidates: Set<String>,
    excluded: Set<String>,
    preserve_uniform_field_visibility: bool,
) -> Seq<FindingView> {
    let found = found_findings(production, tests, candidates, excluded);
    if preserve_uniform_field_visibility {
        preserved(production, tests, found)
    } else {
        found
    }
}

/// Analyzes the production and test fragments of a workspace, for the declarations of the
/// candidate crates that are not excluded, with uniform field groups keeping a shared
/// visibility when asked to.
pub fn analyze_with_options<'a>(
    production_fragments: &'a [Fragment],
    test_fragments: &'a [Fragment],
    candidate_crates: &HashSet<String>,
    excluded_crates: &HashSet<String>,
    preserve_uniform_field_visibility: bool,
) -> (findings: Vec<Finding<'a>>)
    requires
        total_size(chain(production_fragments@, test_fragments@)) < usize::MAX,
    ensures
        crate::order::sorted_stably(
            reported_findings(production_fragments@, test_fragments@, candidate_crates@, excluded_crates@, preserve_uniform_field_visibility),
            finding_views(findings@),
        ),
        forall|i: int| 0 <= i < findings@.len() ==> (#[trigger] findings@[i]).test_only == (!live_in_production(
            production_fragments@,
            test_fragments@,
            *findings@[i].definition,
        ) && live_in_tests(production_fragments@, test_fragments@, *findings@[i].definition)),
{
    let cx = build_context(production_fragments, test_fragments);
    let mut findings: Vec<Finding<'a>> = Vec::new();
    proof {
        assert(finding_views(findings@) =~= Seq::<FindingView>::empty());
    }
    test_only_pass(production_fragments, test_fragments, &cx, candidate_crates, excluded_crates, &mut findings);
    let reported = public_pass(production_fragments, test_fragments, &cx, candidate_crates, excluded_crates, &mut findings);
    let _ = restricted_pass(production_fragments, test_fragments, &cx, candidate_crates, excluded_crates, &reported, &mut findings);
    proof {
        assert(finding_views(findings@) =~= found_findings(production_fragments@, test_fragments@, candidate_crates@, excluded_crates@));
    }
    let mut findings = if preserve_uniform_field_visibility {
        preserve_uniform_fields(production_fragments, test_fragments, &cx, findings)
    } else {
        findings
    };
    crate::order::sort_findings(&mut findings);
    proof {
        lemma_findings_are_test_only_when_only_tests_reach(
            production_fragments@,
            test_fragments@,
            candidate_crates@,
            excluded_crates@,
            preserve_uniform_field_visibility,
            finding_views(findings@),
        );
        assert forall|i: int| 0 <= i < findings@.len() implies (#[trigger] findings@[i]).test_only == (!live_in_production(
            production_fragments@,
            test_fragments@,
            *findings@[i].definition,
        ) && live_in_tests(production_fragments@, test_fragments@, *findings@[i].definition)) by {
            assert(finding_views(findings@)[i] == findings@[i].view());
        }
    }
    findings
}

/// Analyzes the production and test fragments of a workspace without preserving uniform
/// field visibility.
pub fn analyze<'a>(
    production_fragments: &'a [Fragment],
    test_fragments: &'a [Fragment],
    candidate_crates: &HashSet<String>,
    excluded_crates: &HashSet<String>,
) -> (findings: Vec<Finding<'a>>)
    requires
        total_size(chain(production_fragments@, test_fragments@)) < usize::MAX,
    ensures
        crate::order::sorted_stably(
            reported_findings(production_fragments@, test_fragments@, candidate_crates@, excluded_crates@, false),
            finding_views(findings@),
        ),
        forall|i: int| 0 <= i < findings@.len() ==> (#[trigger] findings@[i]).test_only == (!live_in_production(
            production_fragments@,
            test_fragments@,
            *findings@[i].definition,
        ) && live_in_tests(production_fragments@, test_fragments@, *findings@[i].definition)),
{
    analyze_with_options(production_fragments, test_fragments, candidate_crates, excluded_crates, false)
}


/// `after` reports the same declaration as `before`, with the same flags, either as it was or
/// with a restricted-visibility finding turned into a crate-visibility one.
pub open spec fn kept_or_widened(before: FindingView, after: FindingView) -> bool {
    &&& after.definition == before.definition
    &&& after.test_only == before.test_only
    &&& after.test_compiled_only == before.test_compiled_only
    &&& (after.kind == before.kind || (before.kind == FindingKind::UnnecessaryRestrictedVisibility && after.kind
        == FindingKind::UnnecessaryCrateVisibility))
}

/// Some of the first `n` findings becomes `after` under uniform-field preservation.
pub open spec fn comes_from(findings: Seq<FindingView>, n: int, after: FindingView) -> bool {
    exists|j: int| 0 <= j < n && #[trigger] kept_or_widened(findings[j], after)
}

/// Preserving uniform fields over the first `n` findings only drops findings or widens
/// restricted ones, and keeps every dead and test-only finding.
proof fn lemma_preserved_prefix_narrows(production: Seq<Fragment>, tests: Seq<Fragment>, findings: Seq<FindingView>, n: int)
    requires
        0 <= n <= findings.len(),
    ensures
        preserved_prefix(production, tests, findings, n).len() <= n,
        forall|i: int|
            0 <= i < n && (findings[i].kind == FindingKind::DeadPublic || findings[i].kind == FindingKind::TestOnly)
                ==> preserved_prefix(production, tests, findings, n).contains(#[trigger] findings[i]),
        forall|i: int|
            0 <= i < preserved_prefix(production, tests, findings, n).len() ==> comes_from(
                findings,
                n,
                #[trigger] preserved_prefix(production, tests, findings, n)[i],
            ),
    decreases n,
{
    if n > 0 {
        lemma_preserved_prefix_narrows(production, tests, findings, n - 1);
        let before = preserved_prefix(production, tests, findings, n - 1);
        let now = preserved_prefix(production, tests, findings, n);
        let last = findings[n - 1];
        let added = match preserved_finding(production, tests, findings, last) {
            Some(finding) => seq![finding],
            None => Seq::<FindingView>::empty(),
        };
        assert(now == before + added);
        assert forall|i: int|
            0 <= i < n && (findings[i].kind == FindingKind::DeadPublic || findings[i].kind == FindingKind::TestOnly)
                implies now.contains(#[trigger] findings[i]) by {
            if i < n - 1 {
                let k = choose|k: int| 0 <= k < before.len() && before[k] == findings[i];
                assert(now[k] == findings[i]);
            } else {
                assert(now[before.len() as int] == findings[i]);
            }
        }
        assert forall|i: int| 0 <= i < now.len() implies comes_from(findings, n, #[trigger] now[i]) by {
            if i < before.len() {
                assert(now[i] == before[i]);
                assert(comes_from(findings, n - 1, before[i]));
                let j = choose|j: int| 0 <= j < n - 1 && #[trigger] kept_or_widened(findings[j], before[i]);
                assert(kept_or_widened(findings[j], now[i]));
            } else {
                assert(kept_or_widened(findings[n - 1], now[i]));
            }
        }
    }
}

/// `analyze` reports exactly what `analyze_with_options` reports without uniform-field
/// preservation: both results are the one stable sort of the same findings.
pub proof fn lemma_analyze_matches_default_options(
    production: Seq<Fragment>,
    tests: Seq<Fragment>,
    candidates: Set<String>,
    excluded: Set<String>,
    analyzed: Seq<FindingView>,
    with_options: Seq<FindingView>,
)
    requires
        crate::order::sorted_stably(reported_findings(production, tests, candidates, excluded, false), analyzed),
        crate::order::sorted_stably(reported_findings(production, tests, candidates, excluded, false), with_options),
    ensures
        analyzed == with_options,
{
    crate::order::lemma_stable_sort_unique(reported_findings(production, tests, candidates, excluded, false), analyzed, with_options);
}

/// Turning on uniform-field preservation only removes findings or turns restricted-visibility
/// findings into crate-visibility ones: it reports no more findings, keeps every dead and
/// test-only finding, and each finding it reports is one reported without it, as it was or
/// widened.
pub proof fn lemma_uniform_fields_only_narrow(
    production: Seq<Fragment>,
    tests: Seq<Fragment>,
    candidates: Set<String>,
    excluded: Set<String>,
    plain: Seq<FindingView>,
    preserving: Seq<FindingView>,
)
    requires
        crate::order::sorted_stably(reported_findings(production, tests, candidates, excluded, false), plain),
        crate::order::sorted_stably(reported_findings(production, tests, candidates, excluded, true), preserving),
    ensures
        preserving.len() <= plain.len(),
        forall|i: int|
            0 <= i < plain.len() && (plain[i].kind == FindingKind::DeadPublic || plain[i].kind == FindingKind::TestOnly)
                ==> preserving.contains(#[trigger] plain[i]),
        forall|i: int| 0 <= i < preserving.len() ==> comes_from(plain, plain.len() as int, #[trigger] preserving[i]),
{
    let found = found_findings(production, tests, candidates, excluded);
    let kept = preserved(production, tests, found);
    assert(reported_findings(production, tests, candidates, excluded, false) == found);
    assert(reported_findings(production, tests, candidates, excluded, true) == kept);
    lemma_preserved_prefix_narrows(production, tests, found, found.len() as int);
    crate::order::lemma_stable_sort_keeps(found, plain);
    crate::order::lemma_stable_sort_keeps(kept, preserving);
    assert forall|i: int|
        0 <= i < plain.len() && (plain[i].kind == FindingKind::DeadPublic || plain[i].kind == FindingKind::TestOnly)
            implies preserving.contains(#[trigger] plain[i]) by {
        assert(found.contains(plain[i]));
        let m = choose|m: int| 0 <= m < found.len() && found[m] == plain[i];
        assert(kept.contains(found[m]));
        let q = choose|q: int| 0 <= q < kept.len() && kept[q] == found[m];
        assert(preserving.contains(kept[q]));
    }
    assert forall|i: int| 0 <= i < preserving.len() implies comes_from(plain, plain.len() as int, #[trigger] preserving[i]) by {
        assert(kept.contains(preserving[i]));
        let q = choose|q: int| 0 <= q < kept.len() && kept[q] == preserving[i];
        assert(comes_from(found, found.len() as int, kept[q]));
        let j = choose|j: int| 0 <= j < found.len() && #[trigger] kept_or_widened(found[j], kept[q]);
        assert(plain.contains(found[j]));
        let l = choose|l: int| 0 <= l < plain.len() && plain[l] == found[j];
        assert(kept_or_widened(plain[l], preserving[i]));
    }
}

/// The members of a set of crate names other than those named `name`.
pub open spec fn without_text(set: Set<String>, name: Seq<char>) -> Set<String> {
    set.filter(|member: String| member@ != name)
}

proof fn lemma_set_has_text_changes(set: Set<String>, x: String, text: Seq<char>)
    ensures
        set_has_text(set.insert(x), text) == (set_has_text(set, text) || text == x@),
        set_has_text(without_text(set, x@), text) == (set_has_text(set, text) && text != x@),
{
    if set_has_text(set.insert(x), text) {
        let member = choose|member: String| set.insert(x).contains(member) && member@ == text;
        if member != x {
            assert(set.contains(member));
        }
    }
    if set_has_text(set, text) {
        let member = choose|member: String| set.contains(member) && member@ == text;
        assert(set.insert(x).contains(member));
        if text != x@ {
            assert(without_text(set, x@).contains(member));
        }
    }
    if text == x@ {
        assert(set.insert(x).contains(x));
    }
    if set_has_text(without_text(set, x@), text) {
        let member = choose|member: String| without_text(set, x@).contains(member) && member@ == text;
        assert(set.contains(member));
    }
}

/// With crate selections that differ only in dropping the crate named `name`, the findings
/// are those found before outside that crate, in the same order.
proof fn lemma_found_without_crate(
    production: Seq<Fragment>,
    tests: Seq<Fragment>,
    candidates: Set<String>,
    excluded: Set<String>,
    narrower_candidates: Set<String>,
    narrower_excluded: Set<String>,
    name: Seq<char>,
)
    requires
        forall|definition: Definition| #[trigger] selected_crate(narrower_candidates, narrower_excluded, definition) == (
        selected_crate(candidates, excluded, definition) && definition.crate_name@ != name),
    ensures
        found_findings(production, tests, narrower_candidates, narrower_excluded) == found_findings(
            production,
            tests,
            candidates,
            excluded,
        ).filter(outside_crate(name)),
{
    let frames = chain(production, tests);
    let (c, e, c2, e2) = (candidates, excluded, narrower_candidates, narrower_excluded);
    assert(narrowed_to_other_crates(
        test_only_eligible(production, tests, c, e),
        test_only_eligible(production, tests, c2, e2),
        test_only_emit(production, tests),
        name,
    )) by {
        assert forall|fragment: Fragment, definition: Definition| #[trigger] test_only_eligible(production, tests, c2, e2)(fragment, definition)
            == (test_only_eligible(production, tests, c, e)(fragment, definition) && definition.crate_name@ != name) by {
            assert(selected_crate(c2, e2, definition) == (selected_crate(c, e, definition) && definition.crate_name@ != name));
        }
    }
    assert(narrowed_to_other_crates(
        public_eligible(production, tests, c, e),
        public_eligible(production, tests, c2, e2),
        public_emit(production, tests),
        name,
    )) by {
        assert forall|fragment: Fragment, definition: Definition| #[trigger] public_eligible(production, tests, c2, e2)(fragment, definition)
            == (public_eligible(production, tests, c, e)(fragment, definition) && definition.crate_name@ != name) by {
            assert(selected_crate(c2, e2, definition) == (selected_crate(c, e, definition) && definition.crate_name@ != name));
        }
    }
    assert(narrowed_to_other_crates(
        restricted_eligible(production, tests, c, e),
        restricted_eligible(production, tests, c2, e2),
        restricted_emit(production, tests),
        name,
    )) by {
        assert forall|fragment: Fragment, definition: Definition| #[trigger] restricted_eligible(production, tests, c2, e2)(fragment, definition)
            == (restricted_eligible(production, tests, c, e)(fragment, definition) && definition.crate_name@ != name) by {
            assert(selected_crate(c2, e2, definition) == (selected_crate(c, e, definition) && definition.crate_name@ != name));
            let identity = identity_of(definition);
            if definition.crate_name@ != name {
                let narrow = public_eligible(production, tests, c2, e2);
                let wide = public_eligible(production, tests, c, e);
                if reported_in(frames, wide, identity) {
                    let (k, j) = choose|k: int, j: int| #[trigger] crate::findings::item_at(frames, k, j) && wide(frames[k], frames[k].definitions@[j])
                        && identity_of(frames[k].definitions@[j]) == identity;
                    let other = frames[k].definitions@[j];
                    assert(selected_crate(c2, e2, other) == (selected_crate(c, e, other) && other.crate_name@ != name));
                    assert(narrow(frames[k], other));
                }
                if reported_in(frames, narrow, identity) {
                    let (k, j) = choose|k: int, j: int| #[trigger] crate::findings::item_at(frames, k, j) && narrow(frames[k], frames[k].definitions@[j])
                        && identity_of(frames[k].definitions@[j]) == identity;
                    let other = frames[k].definitions@[j];
                    assert(selected_crate(c2, e2, other) == (selected_crate(c, e, other) && other.crate_name@ != name));
                    assert(wide(frames[k], other));
                }
            }
        }
    }
    lemma_pass_without_crate(
        production,
        test_only_eligible(production, tests, c, e),
        test_only_eligible(production, tests, c2, e2),
        test_only_emit(production, tests),
        name,
        production.len() as int,
    );
    lemma_pass_without_crate(
        frames,
        public_eligible(production, tests, c, e),
        public_eligible(production, tests, c2, e2),
        public_emit(production, tests),
        name,
        frames.len() as int,
    );
    lemma_pass_without_crate(
        frames,
        restricted_eligible(production, tests, c, e),
        restricted_eligible(production, tests, c2, e2),
        restricted_emit(production, tests),
        name,
        frames.len() as int,
    );
    let a = pass(production, test_only_eligible(production, tests, c, e), test_only_emit(production, tests));
    let b = pass(frames, public_eligible(production, tests, c, e), public_emit(production, tests));
    let r = pass(frames, restricted_eligible(production, tests, c, e), restricted_emit(production, tests));
    Seq::filter_distributes_over_add(a, b, outside_crate(name));
    Seq::filter_distributes_over_add(a + b, r, outside_crate(name));
}

/// Excluding a crate, or dropping it from the candidates, only removes that crate's findings:
/// the analysis then finds exactly the findings it found before outside that crate, in the
/// same order.
pub proof fn lemma_dropping_a_crate_only_removes_its_findings(
    production: Seq<Fragment>,
    tests: Seq<Fragment>,
    candidates: Set<String>,
    excluded: Set<String>,
    crate_name: String,
)
    ensures
        reported_findings(production, tests, candidates, excluded.insert(crate_name), false) == reported_findings(
            production,
            tests,
            candidates,
            excluded,
            false,
        ).filter(outside_crate(crate_name@)),
        reported_findings(production, tests, without_text(candidates, crate_name@), excluded, false) == reported_findings(
            production,
            tests,
            candidates,
            excluded,
            false,
        ).filter(outside_crate(crate_name@)),
{
    assert forall|definition: Definition| #[trigger] selected_crate(candidates, excluded.insert(crate_name), definition) == (
    selected_crate(candidates, excluded, definition) && definition.crate_name@ != crate_name@) by {
        lemma_set_has_text_changes(excluded, crate_name, definition.crate_name@);
    }
    assert forall|definition: Definition| #[trigger] selected_crate(without_text(candidates, crate_name@), excluded, definition) == (
    selected_crate(candidates, excluded, definition) && definition.crate_name@ != crate_name@) by {
        lemma_set_has_text_changes(candidates, crate_name, definition.crate_name@);
    }
    lemma_found_without_crate(production, tests, candidates, excluded, candidates, excluded.insert(crate_name), crate_name@);
    lemma_found_without_crate(production, tests, candidates, excluded, without_text(candidates, crate_name@), excluded, crate_name@);
}

/// Excluding a crate only removes that crate's findings from what `analyze` reports: the
/// report with the crate excluded is the report without it, minus the findings in that crate,
/// in the same order.
pub proof fn lemma_excluding_a_crate_removes_only_its_findings(
    production: Seq<Fragment>,
    tests: Seq<Fragment>,
    candidates: Set<String>,
    excluded: Set<String>,
    crate_name: String,
    before: Seq<FindingView>,
    after: Seq<FindingView>,
)
    requires
        crate::order::sorted_stably(reported_findings(production, tests, candidates, excluded, false), before),
        crate::order::sorted_stably(reported_findings(production, tests, candidates, excluded.insert(crate_name), false), after),
    ensures
        after == before.filter(outside_crate(crate_name@)),
{
    lemma_dropping_a_crate_only_removes_its_findings(production, tests, candidates, excluded, crate_name);
    let found = reported_findings(production, tests, candidates, excluded, false);
    crate::order::lemma_stable_sort_filter(found, before, outside_crate(crate_name@));
    crate::order::lemma_stable_sort_unique(found.filter(outside_crate(crate_name@)), after, before.filter(outside_crate(crate_name@)));
}

/// Dropping a crate from the candidates only removes that crate's findings from what
/// `analyze` reports, in the same way as excluding it.
pub proof fn lemma_dropping_a_candidate_removes_only_its_findings(
    production: Seq<Fragment>,
    tests: Seq<Fragment>,
    candidates: Set<String>,
    excluded: Set<String>,
    crate_name: String,
    before: Seq<FindingView>,
    after: Seq<FindingView>,
)
    requires
        crate::order::sorted_stably(reported_findings(production, tests, candidates, excluded, false), before),
        crate::order::sorted_stably(reported_findings(production, tests, without_text(candidates, crate_name@), excluded, false), after),
    ensures
        after == before.filter(outside_crate(crate_name@)),
{
    lemma_dropping_a_crate_only_removes_its_findings(production, tests, candidates, excluded, crate_name);
    let found = reported_findings(production, tests, candidates, excluded, false);
    crate::order::lemma_stable_sort_filter(found, before, outside_crate(crate_name@));
    crate::order::lemma_stable_sort_unique(found.filter(outside_crate(crate_name@)), after, before.filter(outside_crate(crate_name@)));
}

/// Every found finding is test-only exactly when the tests reach its declaration and
/// production does not.
proof fn lemma_found_test_only(production: Seq<Fragment>, tests: Seq<Fragment>, candidates: Set<String>, excluded: Set<String>)
    ensures
        forall|i: int| 0 <= i < found_findings(production, tests, candidates, excluded).len()
            ==> (#[trigger] found_findings(production, tests, candidates, excluded)[i]).test_only == (!live_in_production(
                production,
                tests,
                found_findings(production, tests, candidates, excluded)[i].definition,
            ) && live_in_tests(production, tests, found_findings(production, tests, candidates, excluded)[i].definition)),
{
    let frames = chain(production, tests);
    let a = pass(production, test_only_eligible(production, tests, candidates, excluded), test_only_emit(production, tests));
    let b = pass(frames, public_eligible(production, tests, candidates, excluded), public_emit(production, tests));
    let r = pass(frames, restricted_eligible(production, tests, candidates, excluded), restricted_emit(production, tests));
    let found = found_findings(production, tests, candidates, excluded);
    assert(found == a + b + r);
    lemma_pass_emits(production, test_only_eligible(production, tests, candidates, excluded), test_only_emit(production, tests), production.len() as int);
    lemma_pass_emits(frames, public_eligible(production, tests, candidates, excluded), public_emit(production, tests), frames.len() as int);
    lemma_pass_emits(frames, restricted_eligible(production, tests, candidates, excluded), restricted_emit(production, tests), frames.len() as int);
    assert forall|i: int| 0 <= i < found.len() implies (#[trigger] found[i]).test_only == (!live_in_production(
        production,
        tests,
        found[i].definition,
    ) && live_in_tests(production, tests, found[i].definition)) by {
        let x = found[i];
        if i < a.len() {
            assert(x == a[i]);
            assert(emitted_by(production, test_only_emit(production, tests), a[i]));
            let (k, j) = choose|k: int, j: int| #[trigger] crate::findings::item_at(production, k, j)
                && test_only_emit(production, tests)(production[k], production[k].definitions@[j]) == Some(a[i]);
            assert(x.definition == production[k].definitions@[j]);
        } else if i < a.len() + b.len() {
            assert(x == b[i - a.len()]);
            assert(emitted_by(frames, public_emit(production, tests), b[i - a.len()]));
            let (k, j) = choose|k: int, j: int| #[trigger] crate::findings::item_at(frames, k, j)
                && public_emit(production, tests)(frames[k], frames[k].definitions@[j]) == Some(b[i - a.len()]);
            assert(x.definition == frames[k].definitions@[j]);
        } else {
            assert(x == r[i - a.len() - b.len()]);
            assert(emitted_by(frames, restricted_emit(production, tests), r[i - a.len() - b.len()]));
            let (k, j) = choose|k: int, j: int| #[trigger] crate::findings::item_at(frames, k, j)
                && restricted_emit(production, tests)(frames[k], frames[k].definitions@[j]) == Some(r[i - a.len() - b.len()]);
            assert(x.definition == frames[k].definitions@[j]);
        }
    }
}

/// Every finding that the analysis reports, with or without uniform-field preservation and
/// whatever its kind, is test-only exactly when its declaration is reachable from the
/// non-production graph and not from the production graph.
pub proof fn lemma_findings_are_test_only_when_only_tests_reach(
    production: Seq<Fragment>,
    tests: Seq<Fragment>,
    candidates: Set<String>,
    excluded: Set<String>,
    preserve_uniform_field_visibility: bool,
    reported: Seq<FindingView>,
)
    requires
        crate::order::sorted_stably(
            reported_findings(production, tests, candidates, excluded, preserve_uniform_field_visibility),
            reported,
        ),
    ensures
        forall|i: int| 0 <= i < reported.len() ==> (#[trigger] reported[i]).test_only == (!live_in_production(
            production,
            tests,
            reported[i].definition,
        ) && live_in_tests(production, tests, reported[i].definition)),
{
    let found = found_findings(production, tests, candidates, excluded);
    let all = reported_findings(production, tests, candidates, excluded, preserve_uniform_field_visibility);
    lemma_found_test_only(production, tests, candidates, excluded);
    lemma_preserved_prefix_narrows(production, tests, found, found.len() as int);
    crate::order::lemma_stable_sort_keeps(all, reported);
    assert forall|i: int| 0 <= i < reported.len() implies (#[trigger] reported[i]).test_only == (!live_in_production(
        production,
        tests,
        reported[i].definition,
    ) && live_in_tests(production, tests, reported[i].definition)) by {
        assert(all.contains(reported[i]));
        let q = choose|q: int| 0 <= q < all.len() && all[q] == reported[i];
        if preserve_uniform_field_visibility {
            assert(all == preserved(production, tests, found));
            assert(comes_from(found, found.len() as int, all[q]));
            let j = choose|j: int| 0 <= j < found.len() && #[trigger] kept_or_widened(found[j], all[q]);
            assert(found[j].test_only == all[q].test_only);
        } else {
            assert(all == found);
            assert(found[q].test_only == all[q].test_only);
        }
    }
}

} // verus!
