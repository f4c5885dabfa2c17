//! Groups of definitions compiled from the same source declaration.

use vstd::prelude::*;
use crate::keys::{KeyIndex, KeyView, key_index_entries, texts_of, no_entries};
use crate::model::{Definition, DefinitionId, DefinitionKind, ExpansionSpan, Fragment, Span, position_of};
use crate::nodes::{NodeIndex, distinct_ids, is_node};
use crate::frames::{chain, is_defined, mentions, fragment_mentions, defines_at, definition_of, fragment_of, compilation_of, is_last_definition, lemma_last_definition_unique, fragment_at};

verus! {

/// The position of both ends of a macro expansion.
pub type ExpansionView = ((Seq<char>, usize, usize), (Seq<char>, usize, usize));

/// The source declaration that a compiled definition comes from. Definitions without a
/// source span are told apart by their package, crate, crate root, and path as well.
pub struct SourceIdentity {
    pub package_name: Option<Seq<char>>,
    pub crate_name: Option<Seq<char>>,
    pub crate_root: Option<Seq<char>>,
    pub name: Option<Seq<char>>,
    pub kind: DefinitionKind,
    pub span: Option<(Seq<char>, usize, usize)>,
    pub expansion: Option<ExpansionView>,
}

pub open spec fn expansion_of(expansion: Option<ExpansionSpan>) -> Option<ExpansionView> {
    match expansion {
        Some(e) => Some(((e.definition.file@, e.definition.line, e.definition.column), (e.callsite.file@, e.callsite.line, e.callsite.column))),
        None => None,
    }
}

pub open spec fn text_of(text: Option<String>) -> Option<Seq<char>> {
    match text {
        Some(t) => Some(t@),
        None => None,
    }
}

/// The source declaration of `definition`, compiled in `fragment`; none when the
/// definition has neither a source span nor an expansion span.
pub open spec fn source_identity(definition: Definition, fragment: Fragment) -> Option<SourceIdentity> {
    if definition.span is None && definition.expansion_span is None {
        None
    } else {
        let spanless = definition.span is None;
        Some(SourceIdentity {
            package_name: if spanless { Some(fragment.package_name@) } else { None },
            crate_name: if spanless { Some(definition.crate_name@) } else { None },
            crate_root: if spanless { text_of(fragment.crate_root) } else { None },
            name: if spanless { Some(definition.name@) } else { None },
            kind: definition.kind,
            span: position_of(definition.span),
            expansion: expansion_of(definition.expansion_span),
        })
    }
}

/// The source declaration of the definition kept for `id`.
pub open spec fn source_identity_of(frames: Seq<Fragment>, id: DefinitionId) -> Option<SourceIdentity> {
    if is_defined(frames, id) {
        source_identity(definition_of(frames, id), fragment_of(frames, id))
    } else {
        None
    }
}

/// Two distinct definitions compiled from the same source declaration. A visibility edit
/// to one of them edits all of them.
pub open spec fn same_source(frames: Seq<Fragment>, a: DefinitionId, b: DefinitionId) -> bool {
    a != b && source_identity_of(frames, a) is Some && source_identity_of(frames, a) == source_identity_of(frames, b)
}

/// The definitions from the same source declaration as `a` all come from different
/// compilations, so they are copies of one declaration and share liveness.
pub open spec fn shares_liveness(frames: Seq<Fragment>, a: DefinitionId) -> bool {
    forall|b: DefinitionId, c: DefinitionId|
        (b == a || same_source(frames, a, b)) && (c == a || same_source(frames, a, c)) && b != c
            ==> #[trigger] compilation_of(frames, b) != #[trigger] compilation_of(frames, c)
}

/// Two definitions that share liveness: one is live exactly when the other is.
pub open spec fn liveness_equivalent(frames: Seq<Fragment>, a: DefinitionId, b: DefinitionId) -> bool {
    same_source(frames, a, b) && shares_liveness(frames, a)
}

/// The number that encodes a definition kind in lookup keys.
pub open spec fn kind_number(kind: DefinitionKind) -> u64 {
    match kind {
        DefinitionKind::Function => 0,
        DefinitionKind::InherentMethod => 1,
        DefinitionKind::InherentAssociatedConstant => 2,
        DefinitionKind::Trait => 3,
        DefinitionKind::Struct => 4,
        DefinitionKind::Enum => 5,
        DefinitionKind::Union => 6,
        DefinitionKind::TypeAlias => 7,
        DefinitionKind::Constant => 8,
        DefinitionKind::Static => 9,
        DefinitionKind::Field => 10,
        DefinitionKind::EnumVariant => 11,
        DefinitionKind::Reexport => 12,
        DefinitionKind::Module => 13,
        DefinitionKind::Other => 14,
    }
}

pub fn kind_to_number(kind: DefinitionKind) -> (number: u64)
    ensures
        number == kind_number(kind),
{
    match kind {
        DefinitionKind::Function => 0,
        DefinitionKind::InherentMethod => 1,
        DefinitionKind::InherentAssociatedConstant => 2,
        DefinitionKind::Trait => 3,
        DefinitionKind::Struct => 4,
        DefinitionKind::Enum => 5,
        DefinitionKind::Union => 6,
        DefinitionKind::TypeAlias => 7,
        DefinitionKind::Constant => 8,
        DefinitionKind::Static => 9,
        DefinitionKind::Field => 10,
        DefinitionKind::EnumVariant => 11,
        DefinitionKind::Reexport => 12,
        DefinitionKind::Module => 13,
        DefinitionKind::Other => 14,
    }
}

pub proof fn lemma_kind_number_injective(a: DefinitionKind, b: DefinitionKind)
    ensures
        kind_number(a) == kind_number(b) ==> a == b,
{
}

pub open spec fn text_or_empty(text: Option<Seq<char>>) -> Seq<char> {
    match text {
        Some(t) => t,
        None => Seq::empty(),
    }
}

pub open spec fn flag(present: bool) -> u64 {
    if present { 1 } else { 0 }
}

pub open spec fn position_parts(position: Option<(Seq<char>, usize, usize)>) -> (Seq<char>, u64, u64) {
    match position {
        Some(p) => (p.0, p.1 as u64, p.2 as u64),
        None => (Seq::empty(), 0, 0),
    }
}

/// The lookup key of a source identity.
pub open spec fn source_key(identity: SourceIdentity) -> KeyView {
    let span = position_parts(identity.span);
    let exp_def = position_parts(match identity.expansion { Some(e) => Some(e.0), None => None });
    let exp_call = position_parts(match identity.expansion { Some(e) => Some(e.1), None => None });
    (
        seq![
            text_or_empty(identity.package_name),
            text_or_empty(identity.crate_name),
            text_or_empty(identity.crate_root),
            text_or_empty(identity.name),
            span.0,
            exp_def.0,
            exp_call.0,
        ],
        seq![
            flag(identity.package_name is Some),
            flag(identity.crate_name is Some),
            flag(identity.crate_root is Some),
            flag(identity.name is Some),
            kind_number(identity.kind),
            flag(identity.span is Some),
            span.1,
            span.2,
            flag(identity.expansion is Some),
            exp_def.1,
            exp_def.2,
            exp_call.1,
            exp_call.2,
        ],
    )
}

proof fn lemma_option_text(a: Option<Seq<char>>, b: Option<Seq<char>>)
    requires
        flag(a is Some) == flag(b is Some),
        text_or_empty(a) == text_or_empty(b),
    ensures
        a == b,
{
}

proof fn lemma_position(a: Option<(Seq<char>, usize, usize)>, b: Option<(Seq<char>, usize, usize)>)
    requires
        flag(a is Some) == flag(b is Some),
        position_parts(a) == position_parts(b),
    ensures
        a == b,
{
}

pub proof fn lemma_source_key_injective(a: SourceIdentity, b: SourceIdentity)
    ensures
        source_key(a) == source_key(b) ==> a == b,
{
    if source_key(a) == source_key(b) {
        let (ta, na) = source_key(a);
        let (tb, nb) = source_key(b);
        assert(ta[0] == tb[0] && ta[1] == tb[1] && ta[2] == tb[2] && ta[3] == tb[3]);
        assert(ta[4] == tb[4] && ta[5] == tb[5] && ta[6] == tb[6]);
        assert(na[0] == nb[0] && na[1] == nb[1] && na[2] == nb[2] && na[3] == nb[3]);
        assert(na[4] == nb[4] && na[5] == nb[5] && na[6] == nb[6] && na[7] == nb[7] && na[8] == nb[8]);
        assert(na[9] == nb[9] && na[10] == nb[10] && na[11] == nb[11] && na[12] == nb[12]);
        lemma_option_text(a.package_name, b.package_name);
        lemma_option_text(a.crate_name, b.crate_name);
        lemma_option_text(a.crate_root, b.crate_root);
        lemma_option_text(a.name, b.name);
        lemma_kind_number_injective(a.kind, b.kind);
        lemma_position(a.span, b.span);
        if a.expansion is Some {
            assert(b.expansion is Some);
            let (ad, ac) = a.expansion->0;
            let (bd, bc) = b.expansion->0;
            lemma_position(Some(ad), Some(bd));
            lemma_position(Some(ac), Some(bc));
        }
    }
}

pub(crate) fn optional_text(text: Option<&String>) -> (parts: (String, u64))
    ensures
        parts.0@ == text_or_empty(match text { Some(t) => Some(t@), None => None }),
        parts.1 == flag(text is Some),
{
    match text {
        Some(t) => (t.clone(), 1),
        None => (String::new(), 0),
    }
}

pub(crate) fn optional_position(span: Option<&Span>) -> (parts: (String, u64, u64, u64))
    ensures
        (parts.0@, parts.2, parts.3) == position_parts(position_of(match span { Some(s) => Some(*s), None => None })),
        parts.1 == flag(span is Some),
{
    match span {
        Some(s) => (s.file.clone(), 1, s.line as u64, s.column as u64),
        None => (String::new(), 0, 0, 0),
    }
}

/// The lookup key of the source identity of a definition, if it has one.
fn source_key_of(definition: &Definition, fragment: &Fragment) -> (key: Option<(Vec<String>, Vec<u64>)>)
    ensures
        key is Some <==> source_identity(*definition, *fragment) is Some,
        key matches Some(parts) ==> (texts_of(parts.0@), parts.1@) == source_key(source_identity(*definition, *fragment)->0),
{
    if definition.span.is_none() && definition.expansion_span.is_none() {
        return None;
    }
    let spanless = definition.span.is_none();
    let (package, has_package) = optional_text(if spanless { Some(&fragment.package_name) } else { None });
    let (crate_name, has_crate) = optional_text(if spanless { Some(&definition.crate_name) } else { None });
    let (root, has_root) = optional_text(if spanless { match &fragment.crate_root { Some(r) => Some(r), None => None } } else { None });
    let (name, has_name) = optional_text(if spanless { Some(&definition.name) } else { None });
    let (span_file, has_span, span_line, span_column) = optional_position(definition.span.as_ref());
    let (def_file, has_expansion, def_line, def_column) = optional_position(match &definition.expansion_span { Some(e) => Some(&e.definition), None => None });
    let (call_file, _, call_line, call_column) = optional_position(match &definition.expansion_span { Some(e) => Some(&e.callsite), None => None });
    let texts = vec![package, crate_name, root, name, span_file, def_file, call_file];
    let numbers = vec![
        has_package, has_crate, has_root, has_name, kind_to_number(definition.kind),
        has_span, span_line, span_column, has_expansion, def_line, def_column, call_line, call_column,
    ];
    proof {
        let identity = source_identity(*definition, *fragment)->0;
        let expected = source_key(identity);
        assert(texts_of(texts@) =~= expected.0);
        assert(numbers@ =~= expected.1);
    }
    Some((texts, numbers))
}

/// The source identity of node `n`.
pub open spec fn node_source(frames: Seq<Fragment>, ids: Seq<DefinitionId>, n: int) -> Option<SourceIdentity> {
    source_identity_of(frames, ids[n])
}

/// The definitions of a graph, grouped by the source declaration they come from.
pub struct SourceClasses {
    /// The nodes of each group, in increasing order.
    pub members: Vec<Vec<usize>>,
    /// The group of each node that has a source identity.
    pub class_of: Vec<Option<usize>>,
}

/// `classes` groups the nodes `ids` by source identity.
pub open spec fn groups_by_source(frames: Seq<Fragment>, ids: Seq<DefinitionId>, classes: SourceClasses) -> bool {
    &&& classes.class_of@.len() == ids.len()
    &&& forall|n: int| 0 <= n < ids.len() ==> (#[trigger] classes.class_of@[n] is Some <==> source_identity_of(frames, ids[n]) is Some)
    &&& forall|n: int| 0 <= n < ids.len() && #[trigger] classes.class_of@[n] is Some ==> {
        &&& classes.class_of@[n]->0 < classes.members@.len()
        &&& classes.members@[classes.class_of@[n]->0 as int]@.contains(n as usize)
    }
    &&& forall|c: int, i: int| 0 <= c < classes.members@.len() && 0 <= i < classes.members@[c]@.len() ==> {
        &&& (#[trigger] classes.members@[c]@[i]) < ids.len()
        &&& classes.class_of@[classes.members@[c]@[i] as int] == Some(c as usize)
    }
    &&& forall|c: int| 0 <= c < classes.members@.len() ==> (#[trigger] classes.members@[c])@.len() > 0
    &&& forall|c: int, i: int, j: int| 0 <= c < classes.members@.len() && 0 <= i < j < classes.members@[c]@.len() ==> #[trigger] classes.members@[c]@[i] < #[trigger] classes.members@[c]@[j]
    &&& forall|n: int, m: int| 0 <= n < ids.len() && 0 <= m < ids.len() && #[trigger] classes.class_of@[n] is Some && #[trigger] classes.class_of@[m] is Some ==> (classes.class_of@[n] == classes.class_of@[m] <==> source_identity_of(frames, ids[n]) == source_identity_of(frames, ids[m]))
}

/// Groups the nodes of a graph by the source declaration of their kept definition.
#[verifier::rlimit(60)]
#[verifier::spinoff_prover]
pub(crate) fn source_classes(
    production: &[Fragment],
    tests: &[Fragment],
    index: &NodeIndex,
    positions: &Vec<Option<(usize, usize)>>,
) -> (classes: SourceClasses)
    requires
        index.wf(),
        positions@.len() == index.ids@.len(),
        forall|n: int| 0 <= n < positions@.len() ==> (#[trigger] positions@[n] is Some <==> is_defined(chain(production@, tests@), index.ids@[n])),
        forall|n: int| 0 <= n < positions@.len() && #[trigger] positions@[n] is Some ==> is_last_definition(
            chain(production@, tests@),
            index.ids@[n],
            (positions@[n]->0).0 as int,
            (positions@[n]->0).1 as int,
        ),
    ensures
        groups_by_source(chain(production@, tests@), index.ids@, classes),
        classes.members@.len() <= index.ids@.len(),
{
    let ghost frames = chain(production@, tests@);
    let ghost ids = index.ids@;
    let node_count = index.ids.len();
    let mut table = KeyIndex::new();
    let mut members: Vec<Vec<usize>> = Vec::new();
    let mut class_of: Vec<Option<usize>> = Vec::new();
    let mut n: usize = 0;
    while n < node_count
        invariant
            frames == chain(production@, tests@),
            ids == index.ids@,
            node_count == ids.len(),
            positions@.len() == node_count,
            forall|m: int| 0 <= m < positions@.len() ==> (#[trigger] positions@[m] is Some <==> is_defined(frames, ids[m])),
            forall|m: int| 0 <= m < positions@.len() && #[trigger] positions@[m] is Some ==> is_last_definition(frames, ids[m], (positions@[m]->0).0 as int, (positions@[m]->0).1 as int),
            n <= node_count,
            members@.len() <= n,
            class_of@.len() == n,
            forall|m: int| 0 <= m < n ==> (#[trigger] class_of@[m] is Some <==> node_source(frames, ids, m) is Some),
            forall|m: int| 0 <= m < n && #[trigger] class_of@[m] is Some ==> class_of@[m]->0 < members@.len() && members@[class_of@[m]->0 as int]@.contains(m as usize),
            forall|c: int, i: int| 0 <= c < members@.len() && 0 <= i < members@[c]@.len() ==> (#[trigger] members@[c]@[i]) < n && class_of@[members@[c]@[i] as int] == Some(c as usize) && node_source(frames, ids, members@[c]@[i] as int) == node_source(frames, ids, members@[c]@[0] as int),
            forall|c: int| 0 <= c < members@.len() ==> (#[trigger] members@[c])@.len() > 0 && node_source(frames, ids, members@[c]@[0] as int) is Some,
            forall|c: int, i: int, j: int| 0 <= c < members@.len() && 0 <= i < j < members@[c]@.len() ==> #[trigger] members@[c]@[i] < #[trigger] members@[c]@[j],
            forall|c: int| 0 <= c < members@.len() ==> #[trigger] key_index_entries(table).contains_key(source_key(node_source(frames, ids, members@[c]@[0] as int)->0)) && key_index_entries(table)[source_key(node_source(frames, ids, members@[c]@[0] as int)->0)] == c,
            forall|key: KeyView| #[trigger] key_index_entries(table).contains_key(key) ==> exists|c: int| 0 <= c < members@.len() && key == source_key(node_source(frames, ids, (#[trigger] members@[c])@[0] as int)->0),
        decreases node_count - n,
    {
        let mut key: Option<(Vec<String>, Vec<u64>)> = None;
        if let Some((k, j)) = positions[n] {
            proof {
                lemma_last_definition_unique(frames, ids[n as int], k as int, j as int);
                assert(is_defined(frames, ids[n as int]));
            }
            let fragment = fragment_at(production, tests, k);
            proof {
                assert(is_last_definition(frames, ids[n as int], k as int, j as int));
                assert(j < fragment.definitions@.len());
            }
            key = source_key_of(&fragment.definitions[j], fragment);
            proof {
                assert(definition_of(frames, ids[n as int]) == fragment.definitions@[j as int]);
                assert(fragment_of(frames, ids[n as int]) == *fragment);
            }
        }
        proof {
            assert(key is Some <==> node_source(frames, ids, n as int) is Some);
            if key is Some {
                assert((texts_of((key->0).0@), (key->0).1@) == source_key(node_source(frames, ids, n as int)->0));
            }
        }
        let ghost prior_members = members@;
        let ghost prior_class_of = class_of@;
        let ghost prior_entries = key_index_entries(table);
        match key {
            None => {
                class_of.push(None);
                proof {
                    assert forall|m: int| 0 <= m < n + 1 && #[trigger] class_of@[m] is Some implies class_of@[m]->0 < members@.len() && members@[class_of@[m]->0 as int]@.contains(m as usize) by {
                        assert(class_of@[m] == prior_class_of[m]);
                    }
                }
            },
            Some((texts, numbers)) => {
                let ghost key_view = (texts_of(texts@), numbers@);
                match table.get(&texts, &numbers) {
                    Some(c) => {
                        proof {
                            let c2 = choose|c2: int| 0 <= c2 < members@.len() && key_view == source_key(node_source(frames, ids, (#[trigger] members@[c2])@[0] as int)->0);
                            assert(key_index_entries(table).contains_key(source_key(node_source(frames, ids, members@[c2]@[0] as int)->0)));
                            assert(c2 == c as int);
                            lemma_source_key_injective(node_source(frames, ids, n as int)->0, node_source(frames, ids, members@[c2]@[0] as int)->0);
                        }
                        let ghost old_list = members@[c as int]@;
                        members[c].push(n);
                        class_of.push(Some(c));
                        proof {
                            assert(members@[c as int]@ == old_list.push(n));
                            assert forall|m: int| 0 <= m < n + 1 && #[trigger] class_of@[m] is Some implies class_of@[m]->0 < members@.len() && members@[class_of@[m]->0 as int]@.contains(m as usize) by {
                                if m < n {
                                    let cm = prior_class_of[m]->0 as int;
                                    assert(prior_members[cm]@.contains(m as usize));
                                    let i = choose|i: int| 0 <= i < prior_members[cm]@.len() && prior_members[cm]@[i] == m as usize;
                                    if cm == c as int {
                                        assert(members@[cm]@[i] == m as usize);
                                    } else {
                                        assert(members@[cm] == prior_members[cm]);
                                    }
                                } else {
                                    assert(members@[c as int]@[old_list.len() as int] == n);
                                }
                            }
                            assert forall|c2: int, i: int| 0 <= c2 < members@.len() && 0 <= i < members@[c2]@.len() implies (#[trigger] members@[c2]@[i]) < n + 1 && class_of@[members@[c2]@[i] as int] == Some(c2 as usize) && node_source(frames, ids, members@[c2]@[i] as int) == node_source(frames, ids, members@[c2]@[0] as int) by {
                                if c2 != c as int || i < old_list.len() {
                                    assert(members@[c2]@[i] == prior_members[c2]@[i]);
                                    assert(members@[c2]@[0] == prior_members[c2]@[0]);
                                }
                            }
                            assert forall|c2: int, i: int, j: int| 0 <= c2 < members@.len() && 0 <= i < j < members@[c2]@.len() implies #[trigger] members@[c2]@[i] < #[trigger] members@[c2]@[j] by {
                                if c2 == c as int && j == old_list.len() {
                                    assert(members@[c2]@[i] == prior_members[c2]@[i]);
                                } else {
                                    assert(members@[c2]@[i] == prior_members[c2]@[i]);
                                    assert(members@[c2]@[j] == prior_members[c2]@[j]);
                                }
                            }
                            assert forall|c2: int| 0 <= c2 < members@.len() implies (#[trigger] members@[c2])@.len() > 0 && node_source(frames, ids, members@[c2]@[0] as int) is Some by {
                                assert(members@[c2]@[0] == prior_members[c2]@[0]);
                            }
                            assert forall|c2: int| 0 <= c2 < members@.len() implies #[trigger] key_index_entries(table).contains_key(source_key(node_source(frames, ids, members@[c2]@[0] as int)->0)) && key_index_entries(table)[source_key(node_source(frames, ids, members@[c2]@[0] as int)->0)] == c2 by {
                                assert(members@[c2]@[0] == prior_members[c2]@[0]);
                                assert(prior_members[c2]@[0] == prior_members[c2]@[0]);
                            }
                            assert forall|key: KeyView| #[trigger] key_index_entries(table).contains_key(key) implies exists|c2: int| 0 <= c2 < members@.len() && key == source_key(node_source(frames, ids, (#[trigger] members@[c2])@[0] as int)->0) by {
                                let c2 = choose|c2: int| 0 <= c2 < prior_members.len() && key == source_key(node_source(frames, ids, (#[trigger] prior_members[c2])@[0] as int)->0);
                                assert(members@[c2]@[0] == prior_members[c2]@[0]);
                            }
                        }
                    },
                    None => {
                        let c = members.len();
                        table.insert(texts, numbers, c);
                        members.push(vec![n]);
                        class_of.push(Some(c));
                        proof {
                            assert(members@[c as int]@ =~= seq![n]);
                            assert forall|m: int| 0 <= m < n + 1 && #[trigger] class_of@[m] is Some implies class_of@[m]->0 < members@.len() && members@[class_of@[m]->0 as int]@.contains(m as usize) by {
                                if m < n {
                                    let cm = prior_class_of[m]->0 as int;
                                    assert(members@[cm] == prior_members[cm]);
                                } else {
                                    assert(members@[c as int]@[0] == n);
                                }
                            }
                            assert forall|c2: int, i: int| 0 <= c2 < members@.len() && 0 <= i < members@[c2]@.len() implies (#[trigger] members@[c2]@[i]) < n + 1 && class_of@[members@[c2]@[i] as int] == Some(c2 as usize) && node_source(frames, ids, members@[c2]@[i] as int) == node_source(frames, ids, members@[c2]@[0] as int) by {
                                if c2 < c as int {
                                    assert(members@[c2] == prior_members[c2]);
                                }
                            }
                            assert forall|c2: int, i: int, j: int| 0 <= c2 < members@.len() && 0 <= i < j < members@[c2]@.len() implies #[trigger] members@[c2]@[i] < #[trigger] members@[c2]@[j] by {
                                if c2 < c as int {
                                    assert(members@[c2] == prior_members[c2]);
                                }
                            }
                            assert forall|c2: int| 0 <= c2 < members@.len() implies (#[trigger] members@[c2])@.len() > 0 && node_source(frames, ids, members@[c2]@[0] as int) is Some by {
                                if c2 < c as int {
                                    assert(members@[c2] == prior_members[c2]);
                                }
                            }
                            assert forall|c2: int| 0 <= c2 < members@.len() implies #[trigger] key_index_entries(table).contains_key(source_key(node_source(frames, ids, members@[c2]@[0] as int)->0)) && key_index_entries(table)[source_key(node_source(frames, ids, members@[c2]@[0] as int)->0)] == c2 by {
                                if c2 < c as int {
                                    assert(members@[c2] == prior_members[c2]);
                                    assert(prior_entries.contains_key(source_key(node_source(frames, ids, prior_members[c2]@[0] as int)->0)));
                                    if source_key(node_source(frames, ids, prior_members[c2]@[0] as int)->0) == key_view {
                                        assert(prior_entries.contains_key(key_view));
                                    }
                                }
                            }
                            assert forall|key: KeyView| #[trigger] key_index_entries(table).contains_key(key) implies exists|c2: int| 0 <= c2 < members@.len() && key == source_key(node_source(frames, ids, (#[trigger] members@[c2])@[0] as int)->0) by {
                                if key == key_view {
                                    assert(members@[c as int]@[0] == n);
                                } else {
                                    let c2 = choose|c2: int| 0 <= c2 < prior_members.len() && key == source_key(node_source(frames, ids, (#[trigger] prior_members[c2])@[0] as int)->0);
                                    assert(members@[c2] == prior_members[c2]);
                                }
                            }
                        }
                    },
                }
            },
        }
        n = n + 1;
    }
    proof {
        assert forall|a: int, b: int| 0 <= a < ids.len() && 0 <= b < ids.len() && #[trigger] class_of@[a] is Some && #[trigger] class_of@[b] is Some implies (class_of@[a] == class_of@[b] <==> source_identity_of(frames, ids[a]) == source_identity_of(frames, ids[b])) by {
            let ca = class_of@[a]->0 as int;
            let cb = class_of@[b]->0 as int;
            let ia = choose|i: int| 0 <= i < members@[ca]@.len() && members@[ca]@[i] == a as usize;
            let ib = choose|i: int| 0 <= i < members@[cb]@.len() && members@[cb]@[i] == b as usize;
            assert(node_source(frames, ids, members@[ca]@[ia] as int) == node_source(frames, ids, members@[ca]@[0] as int));
            assert(node_source(frames, ids, members@[cb]@[ib] as int) == node_source(frames, ids, members@[cb]@[0] as int));
            if node_source(frames, ids, a) == node_source(frames, ids, b) {
                assert(key_index_entries(table).contains_key(source_key(node_source(frames, ids, members@[ca]@[0] as int)->0)));
                assert(key_index_entries(table).contains_key(source_key(node_source(frames, ids, members@[cb]@[0] as int)->0)));
            }
        }
    }
    SourceClasses { members, class_of }
}

/// The compilation of node `n`, read from its kept definition position.
pub open spec fn node_compilation(positions: Seq<Option<(usize, usize)>>, n: int) -> int {
    (positions[n]->0).0 as int
}

/// The members of group `c` come from pairwise different compilations.
pub open spec fn distinct_compilations(members: Seq<usize>, positions: Seq<Option<(usize, usize)>>) -> bool {
    forall|i: int, j: int| 0 <= i < members.len() && 0 <= j < members.len() && i != j
        ==> node_compilation(positions, #[trigger] members[i] as int) != node_compilation(positions, #[trigger] members[j] as int)
}

/// For each group, whether its members come from pairwise different compilations.
pub(crate) fn liveness_sharing(
    classes: &SourceClasses,
    positions: &Vec<Option<(usize, usize)>>,
    fragment_count: usize,
) -> (shares: Vec<bool>)
    requires
        forall|c: int, i: int| 0 <= c < classes.members@.len() && 0 <= i < classes.members@[c]@.len() ==> {
            &&& (#[trigger] classes.members@[c]@[i]) < positions@.len()
            &&& positions@[classes.members@[c]@[i] as int] is Some
            &&& (positions@[classes.members@[c]@[i] as int]->0).0 < fragment_count
        },
        classes.members@.len() < usize::MAX,
    ensures
        shares@.len() == classes.members@.len(),
        forall|c: int| 0 <= c < shares@.len() ==> #[trigger] shares@[c] == distinct_compilations(classes.members@[c]@, positions@),
{
    let mut stamps: Vec<usize> = Vec::new();
    while stamps.len() < fragment_count
        invariant
            stamps@.len() <= fragment_count,
            forall|k: int| 0 <= k < stamps@.len() ==> stamps@[k] == 0,
        decreases fragment_count - stamps@.len(),
    {
        stamps.push(0);
    }
    let mut shares: Vec<bool> = Vec::new();
    let mut c: usize = 0;
    while c < classes.members.len()
        invariant
            c <= classes.members@.len(),
            classes.members@.len() < usize::MAX,
            stamps@.len() == fragment_count,
            forall|k: int| 0 <= k < fragment_count ==> stamps@[k] <= c,
            shares@.len() == c,
            forall|c2: int| 0 <= c2 < c ==> #[trigger] shares@[c2] == distinct_compilations(classes.members@[c2]@, positions@),
            forall|c2: int, i: int| 0 <= c2 < classes.members@.len() && 0 <= i < classes.members@[c2]@.len() ==> {
                &&& (#[trigger] classes.members@[c2]@[i]) < positions@.len()
                &&& positions@[classes.members@[c2]@[i] as int] is Some
                &&& (positions@[classes.members@[c2]@[i] as int]->0).0 < fragment_count
            },
        decreases classes.members@.len() - c,
    {
        let list = &classes.members[c];
        let mut distinct = true;
        let mut i: usize = 0;
        while i < list.len()
            invariant
                c < classes.members@.len(),
                classes.members@.len() < usize::MAX,
                list@ == classes.members@[c as int]@,
                i <= list@.len(),
                stamps@.len() == fragment_count,
                forall|k: int| 0 <= k < fragment_count ==> stamps@[k] <= c + 1,
                forall|k: int| 0 <= k < fragment_count ==> (stamps@[k] == c + 1 <==> exists|i2: int| 0 <= i2 < i && node_compilation(positions@, #[trigger] list@[i2] as int) == k),
                distinct == distinct_compilations(list@.take(i as int), positions@),
                forall|c2: int, i2: int| 0 <= c2 < classes.members@.len() && 0 <= i2 < classes.members@[c2]@.len() ==> {
                    &&& (#[trigger] classes.members@[c2]@[i2]) < positions@.len()
                    &&& positions@[classes.members@[c2]@[i2] as int] is Some
                    &&& (positions@[classes.members@[c2]@[i2] as int]->0).0 < fragment_count
                },
            decreases list@.len() - i,
        {
            let node = list[i];
            let (k, _) = positions[node].unwrap();
            let ghost prior = list@.take(i as int);
            proof {
                assert(list@.take(i + 1) =~= prior.push(node));
                assert(classes.members@[c as int]@[i as int] == node);
            }
            if stamps[k] == c + 1 {
                distinct = false;
                proof {
                    let i2 = choose|i2: int| 0 <= i2 < i && node_compilation(positions@, #[trigger] list@[i2] as int) == k;
                    assert(list@.take(i + 1)[i2] == list@[i2]);
                    assert(list@.take(i + 1)[i as int] == node);
                    assert(!distinct_compilations(list@.take(i + 1), positions@));
                }
            } else {
                proof {
                    if distinct {
                        assert forall|a: int, b: int| 0 <= a < i + 1 && 0 <= b < i + 1 && a != b implies node_compilation(positions@, #[trigger] list@.take(i + 1)[a] as int) != node_compilation(positions@, #[trigger] list@.take(i + 1)[b] as int) by {
                            if a < i && b < i {
                                assert(list@.take(i + 1)[a] == prior[a]);
                                assert(list@.take(i + 1)[b] == prior[b]);
                            } else if a == i {
                                assert(list@.take(i + 1)[b] == list@[b]);
                            } else {
                                assert(list@.take(i + 1)[a] == list@[a]);
                            }
                        }
                    } else {
                        assert(!distinct_compilations(list@.take(i + 1), positions@)) by {
                            let (a, b) = choose|a: int, b: int| 0 <= a < prior.len() && 0 <= b < prior.len() && a != b && node_compilation(positions@, #[trigger] prior[a] as int) == node_compilation(positions@, #[trigger] prior[b] as int);
                            assert(list@.take(i + 1)[a] == prior[a]);
                            assert(list@.take(i + 1)[b] == prior[b]);
                        }
                    }
                }
                stamps.set(k, c + 1);
            }
            proof {
                assert forall|k2: int| 0 <= k2 < fragment_count implies (stamps@[k2] == c + 1 <==> exists|i2: int| 0 <= i2 < i + 1 && node_compilation(positions@, #[trigger] list@[i2] as int) == k2) by {
                    if k2 == k as int {
                        assert(node_compilation(positions@, list@[i as int] as int) == k2);
                    }
                }
            }
            i = i + 1;
        }
        proof {
            assert(list@.take(list@.len() as int) =~= list@);
        }
        shares.push(distinct);
        c = c + 1;
    }
    shares
}

/// Every defined identifier is mentioned by its fragment.
pub proof fn lemma_defined_is_mentioned(frames: Seq<Fragment>, id: DefinitionId)
    requires
        is_defined(frames, id),
    ensures
        mentions(frames, id),
{
    let (k, j) = choose|k: int, j: int| #[trigger] defines_at(frames, k, j, id);
    assert(frames[k].definitions@[j].id == id);
    assert(fragment_mentions(frames[k], id));
}

/// The positions table records, for each node, its kept definition.
pub open spec fn records_positions(frames: Seq<Fragment>, ids: Seq<DefinitionId>, positions: Seq<Option<(usize, usize)>>) -> bool {
    &&& positions.len() == ids.len()
    &&& forall|n: int| 0 <= n < positions.len() ==> (#[trigger] positions[n] is Some <==> is_defined(frames, ids[n]))
    &&& forall|n: int| 0 <= n < positions.len() && #[trigger] positions[n] is Some ==> is_last_definition(frames, ids[n], (positions[n]->0).0 as int, (positions[n]->0).1 as int)
}

/// Two nodes come from the same source declaration exactly when they are distinct members of one group.
pub proof fn lemma_same_source_nodes(frames: Seq<Fragment>, ids: Seq<DefinitionId>, classes: SourceClasses, n: int, m: int)
    requires
        distinct_ids(ids),
        groups_by_source(frames, ids, classes),
        0 <= n < ids.len(),
        0 <= m < ids.len(),
    ensures
        same_source(frames, ids[n], ids[m]) <==> (n != m && classes.class_of@[n] is Some && classes.class_of@[n] == classes.class_of@[m]),
{
    assert(classes.class_of@[n] is Some <==> source_identity_of(frames, ids[n]) is Some);
    assert(classes.class_of@[m] is Some <==> source_identity_of(frames, ids[m]) is Some);
    if n != m {
        assert(ids[n] != ids[m]);
    }
}

/// A group shares liveness exactly when its members come from pairwise different compilations.
pub proof fn lemma_shares_liveness_nodes(
    frames: Seq<Fragment>,
    ids: Seq<DefinitionId>,
    classes: SourceClasses,
    positions: Seq<Option<(usize, usize)>>,
    n: int,
)
    requires
        distinct_ids(ids),
        groups_by_source(frames, ids, classes),
        records_positions(frames, ids, positions),
        forall|id: DefinitionId| mentions(frames, id) ==> is_node(ids, id),
        ids.len() <= usize::MAX,
        0 <= n < ids.len(),
        classes.class_of@[n] is Some,
    ensures
        shares_liveness(frames, ids[n]) == distinct_compilations(classes.members@[classes.class_of@[n]->0 as int]@, positions),
{
    let c = classes.class_of@[n]->0 as int;
    let list = classes.members@[c]@;
    assert(list.contains(n as usize));
    // Each member of the group of ids[n] is the identifier of a member node.
    assert forall|b: DefinitionId| b == ids[n] || same_source(frames, ids[n], b) implies exists|x: int| 0 <= x < list.len() && #[trigger] ids[list[x] as int] == b by {
        if b == ids[n] {
            let x = choose|x: int| 0 <= x < list.len() && list[x] == n as usize;
            assert(ids[list[x] as int] == b);
        } else {
            lemma_defined_is_mentioned(frames, b);
            let node = choose|node: int| 0 <= node < ids.len() && #[trigger] ids[node] == b;
            lemma_same_source_nodes(frames, ids, classes, n, node);
            assert(classes.members@[classes.class_of@[node]->0 as int]@.contains(node as usize));
            let x = choose|x: int| 0 <= x < list.len() && list[x] == node as usize;
            assert(ids[list[x] as int] == b);
        }
    }
    assert forall|x: int| 0 <= x < list.len() implies (#[trigger] ids[list[x] as int] == ids[n] || same_source(frames, ids[n], ids[list[x] as int])) by {
        let node = list[x] as int;
        assert(classes.class_of@[node] == Some(c as usize));
        lemma_same_source_nodes(frames, ids, classes, n, node);
        if node == n {
        } else {
            assert(ids[node] != ids[n]);
        }
    }
    assert forall|x: int| 0 <= x < list.len() implies compilation_of(frames, #[trigger] ids[list[x] as int]) == node_compilation(positions, list[x] as int) by {
        let node = list[x] as int;
        assert(is_defined(frames, ids[node])) by {
            assert(source_identity_of(frames, ids[node]) is Some);
        }
        assert(positions[node] is Some);
        lemma_last_definition_unique(frames, ids[node], (positions[node]->0).0 as int, (positions[node]->0).1 as int);
    }
    if distinct_compilations(list, positions) {
        assert forall|b: DefinitionId, d: DefinitionId|
            (b == ids[n] || same_source(frames, ids[n], b)) && (d == ids[n] || same_source(frames, ids[n], d)) && b != d
            implies #[trigger] compilation_of(frames, b) != #[trigger] compilation_of(frames, d) by {
            let x = choose|x: int| 0 <= x < list.len() && #[trigger] ids[list[x] as int] == b;
            let y = choose|y: int| 0 <= y < list.len() && #[trigger] ids[list[y] as int] == d;
            assert(compilation_of(frames, ids[list[x] as int]) == node_compilation(positions, list[x] as int));
            assert(compilation_of(frames, ids[list[y] as int]) == node_compilation(positions, list[y] as int));
            assert(x != y);
        }
    }
    if shares_liveness(frames, ids[n]) {
        assert forall|i: int, j: int| 0 <= i < list.len() && 0 <= j < list.len() && i != j
            implies node_compilation(positions, #[trigger] list[i] as int) != node_compilation(positions, #[trigger] list[j] as int) by {
            assert(ids[list[i] as int] == ids[n] || same_source(frames, ids[n], ids[list[i] as int]));
            assert(ids[list[j] as int] == ids[n] || same_source(frames, ids[n], ids[list[j] as int]));
            if i < j {
                assert(list[i] < list[j]);
            } else {
                assert(list[j] < list[i]);
            }
            assert(ids[list[i] as int] != ids[list[j] as int]);
            assert(compilation_of(frames, ids[list[i] as int]) == node_compilation(positions, list[i] as int));
            assert(compilation_of(frames, ids[list[j] as int]) == node_compilation(positions, list[j] as int));
        }
    }
}

} // verus!
