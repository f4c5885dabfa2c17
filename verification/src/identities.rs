//! Tables of declaration identities and of audited compilations.

use vstd::prelude::*;
use crate::model::{Definition, DefinitionKind, Fragment, IdentityView, ProductionTargetKind, identity_of, position_of};
use crate::frames::{chain, fragment_at};
use crate::keys::{KeyIndex, KeyView, key_index_entries, texts_of, no_entries};
use crate::equivalence::{kind_number, kind_to_number, lemma_kind_number_injective, flag, position_parts, text_or_empty, text_of, optional_text, optional_position};

verus! {

/// The lookup key of a declaration identity.
pub open spec fn identity_key(identity: IdentityView) -> KeyView {
    let position = position_parts(identity.position);
    (
        seq![identity.crate_name, identity.name, position.0],
        seq![kind_number(identity.kind), flag(identity.position is Some), position.1, position.2],
    )
}

pub proof fn lemma_identity_key_injective(a: IdentityView, b: IdentityView)
    ensures
        identity_key(a) == identity_key(b) ==> a == b,
{
    if identity_key(a) == identity_key(b) {
        let (ta, na) = identity_key(a);
        let (tb, nb) = identity_key(b);
        assert(ta[0] == tb[0] && ta[1] == tb[1] && ta[2] == tb[2]);
        assert(na[0] == nb[0] && na[1] == nb[1] && na[2] == nb[2] && na[3] == nb[3]);
        lemma_kind_number_injective(a.kind, b.kind);
    }
}

/// The lookup key of the identity of a definition.
pub(crate) fn identity_key_of(definition: &Definition) -> (parts: (Vec<String>, Vec<u64>))
    ensures
        (texts_of(parts.0@), parts.1@) == identity_key(identity_of(*definition)),
{
    let (file, has_span, line, column) = optional_position(definition.span.as_ref());
    let texts = vec![definition.crate_name.clone(), definition.name.clone(), file];
    let numbers = vec![kind_to_number(definition.kind), has_span, line, column];
    proof {
        let expected = identity_key(identity_of(*definition));
        assert(texts_of(texts@) =~= expected.0);
        assert(numbers@ =~= expected.1);
    }
    (texts, numbers)
}

/// Which definitions of a selected fragment an identity table holds.
#[derive(Clone, Copy)]
pub enum DefinitionFilter {
    Every,
    Public,
    Restricted,
}

pub open spec fn passes_filter(filter: DefinitionFilter, definition: Definition) -> bool {
    match filter {
        DefinitionFilter::Every => true,
        DefinitionFilter::Public => definition.public_api,
        DefinitionFilter::Restricted => definition.restricted_visible_api,
    }
}

/// A definition of a selected fragment of `part` that passes `filter` has `identity`.
pub open spec fn has_identity(part: Seq<Fragment>, selected: Seq<bool>, filter: DefinitionFilter, identity: IdentityView) -> bool {
    exists|k: int, j: int| 0 <= k < part.len() && selected[k] && 0 <= j < part[k].definitions@.len()
        && passes_filter(filter, #[trigger] part[k].definitions@[j]) && identity_of(part[k].definitions@[j]) == identity
}

/// The identities of the definitions of the selected fragments of `part` that pass `filter`.
pub(crate) fn identity_table(part: &[Fragment], selected: &Vec<bool>, filter: DefinitionFilter) -> (table: KeyIndex)
    requires
        selected@.len() == part@.len(),
    ensures
        forall|key: KeyView| #[trigger] key_index_entries(table).contains_key(key)
            ==> exists|identity: IdentityView| key == identity_key(identity) && has_identity(part@, selected@, filter, identity),
        forall|identity: IdentityView| #[trigger] key_index_entries(table).contains_key(identity_key(identity)) <==> has_identity(part@, selected@, filter, identity),
{
    let mut table = KeyIndex::new();
    let mut k: usize = 0;
    while k < part.len()
        invariant
            selected@.len() == part@.len(),
            k <= part@.len(),
            forall|key: KeyView| #[trigger] key_index_entries(table).contains_key(key)
                ==> exists|identity: IdentityView| key == identity_key(identity) && has_identity(part@.take(k as int), selected@, filter, identity),
            forall|identity: IdentityView| #[trigger] key_index_entries(table).contains_key(identity_key(identity)) <==> has_identity(part@.take(k as int), selected@, filter, identity),
        decreases part@.len() - k,
    {
        let fragment = &part[k];
        let mut j: usize = 0;
        while j < fragment.definitions.len()
            invariant
                selected@.len() == part@.len(),
                k < part@.len(),
                *fragment == part@[k as int],
                j <= fragment.definitions@.len(),
                forall|key: KeyView| #[trigger] key_index_entries(table).contains_key(key)
                    ==> exists|identity: IdentityView| key == identity_key(identity)
                        && (has_identity(part@.take(k as int), selected@, filter, identity)
                            || exists|j2: int| 0 <= j2 < j && selected@[k as int] && passes_filter(filter, #[trigger] fragment.definitions@[j2]) && identity_of(fragment.definitions@[j2]) == identity),
                forall|identity: IdentityView| #[trigger] key_index_entries(table).contains_key(identity_key(identity))
                    <==> (has_identity(part@.take(k as int), selected@, filter, identity)
                        || exists|j2: int| 0 <= j2 < j && selected@[k as int] && passes_filter(filter, #[trigger] fragment.definitions@[j2]) && identity_of(fragment.definitions@[j2]) == identity),
            decreases fragment.definitions@.len() - j,
        {
            let definition = &fragment.definitions[j];
            let passes = match filter {
                DefinitionFilter::Every => true,
                DefinitionFilter::Public => definition.public_api,
                DefinitionFilter::Restricted => definition.restricted_visible_api,
            };
            let ghost before = key_index_entries(table);
            if selected[k] && passes {
                let (texts, numbers) = identity_key_of(definition);
                table.insert(texts, numbers, 0);
            }
            proof {
                let added = identity_of(*definition);
                assert(fragment.definitions@[j as int] == *definition);
                assert forall|identity: IdentityView| #[trigger] key_index_entries(table).contains_key(identity_key(identity))
                    <==> (has_identity(part@.take(k as int), selected@, filter, identity)
                        || exists|j2: int| 0 <= j2 < j + 1 && selected@[k as int] && passes_filter(filter, #[trigger] fragment.definitions@[j2]) && identity_of(fragment.definitions@[j2]) == identity) by {
                    lemma_identity_key_injective(identity, added);
                    if exists|j2: int| 0 <= j2 < j + 1 && selected@[k as int] && passes_filter(filter, #[trigger] fragment.definitions@[j2]) && identity_of(fragment.definitions@[j2]) == identity {
                        let j2 = choose|j2: int| 0 <= j2 < j + 1 && selected@[k as int] && passes_filter(filter, #[trigger] fragment.definitions@[j2]) && identity_of(fragment.definitions@[j2]) == identity;
                        if j2 < j {
                            assert(before.contains_key(identity_key(identity)));
                        }
                    }
                }
                assert forall|key: KeyView| #[trigger] key_index_entries(table).contains_key(key)
                    implies exists|identity: IdentityView| key == identity_key(identity)
                        && (has_identity(part@.take(k as int), selected@, filter, identity)
                            || exists|j2: int| 0 <= j2 < j + 1 && selected@[k as int] && passes_filter(filter, #[trigger] fragment.definitions@[j2]) && identity_of(fragment.definitions@[j2]) == identity) by {
                    if before.contains_key(key) {
                        let identity = choose|identity: IdentityView| key == identity_key(identity)
                            && (has_identity(part@.take(k as int), selected@, filter, identity)
                                || exists|j2: int| 0 <= j2 < j && selected@[k as int] && passes_filter(filter, #[trigger] fragment.definitions@[j2]) && identity_of(fragment.definitions@[j2]) == identity);
                        assert(key_index_entries(table).contains_key(identity_key(identity)));
                    } else {
                        assert(key == identity_key(added));
                        assert(key_index_entries(table).contains_key(identity_key(added)));
                    }
                }
            }
            j = j + 1;
        }
        proof {
            let prefix = part@.take(k as int);
            let longer = part@.take(k + 1);
            assert forall|identity: IdentityView| has_identity(longer, selected@, filter, identity)
                <==> (has_identity(prefix, selected@, filter, identity)
                    || exists|j2: int| 0 <= j2 < fragment.definitions@.len() && selected@[k as int] && passes_filter(filter, #[trigger] fragment.definitions@[j2]) && identity_of(fragment.definitions@[j2]) == identity) by {
                if has_identity(longer, selected@, filter, identity) {
                    let (k2, j2) = choose|k2: int, j2: int| 0 <= k2 < longer.len() && selected@[k2] && 0 <= j2 < longer[k2].definitions@.len()
                        && passes_filter(filter, #[trigger] longer[k2].definitions@[j2]) && identity_of(longer[k2].definitions@[j2]) == identity;
                    if k2 < k {
                        assert(prefix[k2] == longer[k2]);
                        assert(passes_filter(filter, prefix[k2].definitions@[j2]));
                    } else {
                        assert(longer[k2] == *fragment);
                        assert(passes_filter(filter, fragment.definitions@[j2]));
                    }
                }
                if has_identity(prefix, selected@, filter, identity) {
                    let (k2, j2) = choose|k2: int, j2: int| 0 <= k2 < prefix.len() && selected@[k2] && 0 <= j2 < prefix[k2].definitions@.len()
                        && passes_filter(filter, #[trigger] prefix[k2].definitions@[j2]) && identity_of(prefix[k2].definitions@[j2]) == identity;
                    assert(prefix[k2] == longer[k2]);
                    assert(passes_filter(filter, longer[k2].definitions@[j2]));
                }
                if exists|j2: int| 0 <= j2 < fragment.definitions@.len() && selected@[k as int] && passes_filter(filter, #[trigger] fragment.definitions@[j2]) && identity_of(fragment.definitions@[j2]) == identity {
                    let j2 = choose|j2: int| 0 <= j2 < fragment.definitions@.len() && selected@[k as int] && passes_filter(filter, #[trigger] fragment.definitions@[j2]) && identity_of(fragment.definitions@[j2]) == identity;
                    assert(longer[k as int] == *fragment);
                    assert(passes_filter(filter, longer[k as int].definitions@[j2]));
                }
            }
        }
        k = k + 1;
    }
    proof {
        assert(part@.take(part@.len() as int) =~= part@);
    }
    table
}

/// The lookup key of the compilation that a fragment describes: its package, crate, target,
/// and crate root.
pub open spec fn compilation_key(fragment: Fragment) -> KeyView {
    (
        seq![fragment.package_name@, fragment.crate_name@, fragment.compilation_target@, text_or_empty(text_of(fragment.crate_root))],
        seq![flag(fragment.crate_root is Some)],
    )
}

fn compilation_key_of(fragment: &Fragment) -> (parts: (Vec<String>, Vec<u64>))
    ensures
        (texts_of(parts.0@), parts.1@) == compilation_key(*fragment),
{
    let (root, has_root) = optional_text(match &fragment.crate_root { Some(r) => Some(r), None => None });
    let texts = vec![fragment.package_name.clone(), fragment.crate_name.clone(), fragment.compilation_target.clone(), root];
    let numbers = vec![has_root];
    proof {
        let expected = compilation_key(*fragment);
        assert(texts_of(texts@) =~= expected.0);
        assert(numbers@ =~= expected.1);
    }
    (texts, numbers)
}

/// Every product root of production is a library.
pub open spec fn library_products_only(production: Seq<Fragment>) -> bool {
    &&& exists|k: int| 0 <= k < production.len() && crate::live::library_product(#[trigger] production[k])
    &&& !exists|k: int| 0 <= k < production.len() && (#[trigger] production[k]).is_product_root
        && production[k].product_root_kind != Some(ProductionTargetKind::Library)
}

/// Whether the analysis audits the declarations of `fragment`: with library products only,
/// the library product roots; otherwise configured product roots and ordinary library
/// compilations outside the test surface.
pub open spec fn audit_selected(production: Seq<Fragment>, fragment: Fragment) -> bool {
    if library_products_only(production) {
        crate::live::library_product(fragment)
    } else {
        fragment.product_root_kind is Some || (!fragment.is_product_root && !fragment.test_surface)
    }
}

/// A selected fragment of `part` describes the compilation with key `key`.
pub open spec fn audited_in(production: Seq<Fragment>, part: Seq<Fragment>, key: KeyView) -> bool {
    exists|k: int| 0 <= k < part.len() && audit_selected(production, #[trigger] part[k]) && compilation_key(part[k]) == key
}

/// `fragment` describes the same compilation as an audited fragment.
pub open spec fn audited(production: Seq<Fragment>, tests: Seq<Fragment>, fragment: Fragment) -> bool {
    audited_in(production, production, compilation_key(fragment)) || audited_in(production, tests, compilation_key(fragment))
}

/// Adds the keys of the selected fragments of `part`.
fn insert_audited(part: &[Fragment], library_only: bool, Ghost(production): Ghost<Seq<Fragment>>, identities: &mut KeyIndex)
    requires
        library_only == library_products_only(production),
    ensures
        forall|key: KeyView| #[trigger] key_index_entries(*final(identities)).contains_key(key)
            <==> (key_index_entries(*old(identities)).contains_key(key) || audited_in(production, part@, key)),
{
    let ghost start = key_index_entries(*identities);
    let mut k: usize = 0;
    while k < part.len()
        invariant
            library_only == library_products_only(production),
            k <= part@.len(),
            forall|key: KeyView| #[trigger] key_index_entries(*identities).contains_key(key)
                <==> (start.contains_key(key) || audited_in(production, part@.take(k as int), key)),
        decreases part@.len() - k,
    {
        let fragment = &part[k];
        let selected = if library_only {
            fragment.is_product_root && match fragment.product_root_kind {
                Some(ProductionTargetKind::Library) => true,
                _ => false,
            }
        } else {
            fragment.product_root_kind.is_some() || (!fragment.is_product_root && !fragment.test_surface)
        };
        let ghost before = key_index_entries(*identities);
        if selected {
            let (texts, numbers) = compilation_key_of(fragment);
            identities.insert(texts, numbers, 0);
        }
        proof {
            let prefix = part@.take(k as int);
            let longer = part@.take(k + 1);
            assert(longer[k as int] == *fragment);
            assert(selected == audit_selected(production, *fragment));
            assert forall|key: KeyView| #[trigger] key_index_entries(*identities).contains_key(key)
                <==> (start.contains_key(key) || audited_in(production, longer, key)) by {
                if audited_in(production, longer, key) {
                    let k2 = choose|k2: int| 0 <= k2 < longer.len() && audit_selected(production, #[trigger] longer[k2]) && compilation_key(longer[k2]) == key;
                    if k2 < k {
                        assert(prefix[k2] == longer[k2]);
                        assert(audited_in(production, prefix, key));
                    }
                }
                if audited_in(production, prefix, key) {
                    let k2 = choose|k2: int| 0 <= k2 < prefix.len() && audit_selected(production, #[trigger] prefix[k2]) && compilation_key(prefix[k2]) == key;
                    assert(prefix[k2] == longer[k2]);
                    assert(audited_in(production, longer, key));
                }
                if selected && key == compilation_key(*fragment) {
                    assert(audited_in(production, longer, key));
                }
            }
        }
        k = k + 1;
    }
    proof {
        assert(part@.take(part@.len() as int) =~= part@);
    }
}

/// Identifies configured production targets and actual workspace-library targets.
///
/// Library-only products limit candidates to configured targets. Binary and
/// mixed products retain configured executables and continue auditing all
/// workspace libraries, while excluding same-named integration-test and example
/// executables from the candidate set.
pub struct AuditedFragments {
    identities: KeyIndex,
    production: Ghost<Seq<Fragment>>,
    tests: Ghost<Seq<Fragment>>,
}

impl AuditedFragments {
    #[verifier::type_invariant]
    spec fn holds_audited(self) -> bool {
        forall|key: KeyView| #[trigger] key_index_entries(self.identities).contains_key(key)
            <==> (audited_in(self.production@, self.production@, key) || audited_in(self.production@, self.tests@, key))
    }

    /// The production fragments that the table was built from.
    pub closed spec fn production_fragments(self) -> Seq<Fragment> {
        self.production@
    }

    /// The test fragments that the table was built from.
    pub closed spec fn test_fragments(self) -> Seq<Fragment> {
        self.tests@
    }

    pub fn new(production_fragments: &[Fragment], test_fragments: &[Fragment]) -> (audited_fragments: Self)
        ensures
            audited_fragments.production_fragments() == production_fragments@,
            audited_fragments.test_fragments() == test_fragments@,
    {
        let ghost production = production_fragments@;
        let ghost frames = chain(production_fragments@, test_fragments@);
        let mut has_library = false;
        let mut has_other = false;
        let mut k: usize = 0;
        while k < production_fragments.len()
            invariant
                production == production_fragments@,
                k <= production.len(),
                has_library == exists|k2: int| 0 <= k2 < k && crate::live::library_product(#[trigger] production[k2]),
                has_other == exists|k2: int| 0 <= k2 < k && (#[trigger] production[k2]).is_product_root
                    && production[k2].product_root_kind != Some(ProductionTargetKind::Library),
            decreases production.len() - k,
        {
            let fragment = &production_fragments[k];
            let is_library = match fragment.product_root_kind {
                Some(ProductionTargetKind::Library) => true,
                _ => false,
            };
            if fragment.is_product_root && is_library {
                has_library = true;
            }
            if fragment.is_product_root && !is_library {
                has_other = true;
            }
            k = k + 1;
        }
        let library_only = has_library && !has_other;
        let mut identities = KeyIndex::new();
        insert_audited(production_fragments, library_only, Ghost(production), &mut identities);
        insert_audited(test_fragments, library_only, Ghost(production), &mut identities);
        AuditedFragments { identities, production: Ghost(production_fragments@), tests: Ghost(test_fragments@) }
    }

    /// Whether the analysis audits the declarations of `fragment`.
    pub fn contains(&self, fragment: &Fragment) -> (found: bool)
        ensures
            found == audited(self.production_fragments(), self.test_fragments(), *fragment),
    {
        proof {
            use_type_invariant(self);
        }
        let (texts, numbers) = compilation_key_of(fragment);
        self.identities.get(&texts, &numbers).is_some()
    }
}

} // verus!
