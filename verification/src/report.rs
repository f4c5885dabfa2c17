//! What the reports say of findings: stable kind names, target-independent identities,
//! the packages that declare them, and the visibility edits they propose.

use std::collections::HashSet;

use vstd::prelude::*;
use vstd::string::StringSliceAdditionalSpecFns;
use vstd::string::StringExecFns;
use crate::model::{
    Definition, DefinitionId, DefinitionKind, Finding, FindingKind, FixPlan, FixTarget, Fragment, ProtocolVersion, Span,
    VisibilityReduction, identity_of, reduction_of,
};
use crate::frames::{chain, defines_at, before, fragment_at, total_size};
use crate::keys::{KeyIndex, key_index_entries, texts_of};
use crate::nodes::id_key;
use crate::identities::{identity_key, identity_key_of, lemma_identity_key_injective};
use crate::text::{decimal, push_decimal};
use crate::settings::texts;

verus! {

/// The stable name of a finding kind in JSON reports.
pub open spec fn finding_kind_name(kind: FindingKind) -> Seq<char> {
    match kind {
        FindingKind::DeadPublic => "dead_public"@,
        FindingKind::UnnecessaryPublic => "unnecessary_public"@,
        FindingKind::UnnecessaryRestrictedVisibility => "unnecessary_restricted_visibility"@,
        FindingKind::UnnecessaryCrateVisibility => "unnecessary_crate_visibility"@,
        FindingKind::TestOnly => "test_only"@,
    }
}

/// The stable name of a finding kind in JSON reports.
pub fn json_finding_kind(kind: FindingKind) -> (name: &'static str)
    ensures
        name@ == finding_kind_name(kind),
{
    match kind {
        FindingKind::DeadPublic => "dead_public",
        FindingKind::UnnecessaryPublic => "unnecessary_public",
        FindingKind::UnnecessaryRestrictedVisibility => "unnecessary_restricted_visibility",
        FindingKind::UnnecessaryCrateVisibility => "unnecessary_crate_visibility",
        FindingKind::TestOnly => "test_only",
    }
}

/// The stable name of a definition kind in JSON reports.
pub open spec fn definition_kind_name(kind: DefinitionKind) -> Seq<char> {
    match kind {
        DefinitionKind::Function => "function"@,
        DefinitionKind::InherentMethod => "inherent_method"@,
        DefinitionKind::InherentAssociatedConstant => "inherent_associated_constant"@,
        DefinitionKind::Trait => "trait"@,
        DefinitionKind::Struct => "struct"@,
        DefinitionKind::Enum => "enum"@,
        DefinitionKind::Union => "union"@,
        DefinitionKind::TypeAlias => "type_alias"@,
        DefinitionKind::Constant => "constant"@,
        DefinitionKind::Static => "static"@,
        DefinitionKind::Field => "field"@,
        DefinitionKind::EnumVariant => "enum_variant"@,
        DefinitionKind::Reexport => "reexport"@,
        DefinitionKind::Module => "module"@,
        DefinitionKind::Other => "other"@,
    }
}

/// The stable name of a definition kind in JSON reports.
pub fn json_definition_kind(kind: DefinitionKind) -> (name: &'static str)
    ensures
        name@ == definition_kind_name(kind),
{
    match kind {
        DefinitionKind::Function => "function",
        DefinitionKind::InherentMethod => "inherent_method",
        DefinitionKind::InherentAssociatedConstant => "inherent_associated_constant",
        DefinitionKind::Trait => "trait",
        DefinitionKind::Struct => "struct",
        DefinitionKind::Enum => "enum",
        DefinitionKind::Union => "union",
        DefinitionKind::TypeAlias => "type_alias",
        DefinitionKind::Constant => "constant",
        DefinitionKind::Static => "static",
        DefinitionKind::Field => "field",
        DefinitionKind::EnumVariant => "enum_variant",
        DefinitionKind::Reexport => "reexport",
        DefinitionKind::Module => "module",
        DefinitionKind::Other => "other",
    }
}

/// Distinct definition kinds have distinct names.
pub proof fn lemma_definition_kind_names_distinct(a: DefinitionKind, b: DefinitionKind)
    ensures
        definition_kind_name(a) == definition_kind_name(b) ==> a == b,
{
    reveal_strlit("function");
    reveal_strlit("inherent_method");
    reveal_strlit("inherent_associated_constant");
    reveal_strlit("trait");
    reveal_strlit("struct");
    reveal_strlit("enum");
    reveal_strlit("union");
    reveal_strlit("type_alias");
    reveal_strlit("constant");
    reveal_strlit("static");
    reveal_strlit("field");
    reveal_strlit("enum_variant");
    reveal_strlit("reexport");
    reveal_strlit("module");
    reveal_strlit("other");
    if definition_kind_name(a) == definition_kind_name(b) && a != b {
        let x = definition_kind_name(a);
        let y = definition_kind_name(b);
        assert(x.len() == y.len());
        assert(x[0] == y[0]);
        assert(x[1] == y[1]);
        assert(x[2] == y[2]);
    }
}

/// Distinct finding kinds have distinct names.
pub proof fn lemma_finding_kind_names_distinct(a: FindingKind, b: FindingKind)
    ensures
        finding_kind_name(a) == finding_kind_name(b) ==> a == b,
{
    reveal_strlit("dead_public");
    reveal_strlit("unnecessary_public");
    reveal_strlit("unnecessary_restricted_visibility");
    reveal_strlit("unnecessary_crate_visibility");
    reveal_strlit("test_only");
    if finding_kind_name(a) == finding_kind_name(b) && a != b {
        let x = finding_kind_name(a);
        let y = finding_kind_name(b);
        assert(x.len() == y.len());
        assert(x[0] == y[0]);
    }
}

/// The source position a stable identity names: the source span, the declaration span,
/// or the expansion call site, whichever the definition has first.
pub open spec fn identity_source(definition: Definition) -> (Seq<char>, Seq<char>, nat, nat) {
    match definition.span {
        Some(span) => ("source"@, span.file@, span.line as nat, span.column as nat),
        None => match definition.declaration_span {
            Some(span) => ("declaration"@, span.file@, span.start_line as nat, span.start_column as nat),
            None => match definition.expansion_span {
                Some(span) => ("expansion-callsite"@, span.callsite.file@, span.callsite.line as nat, span.callsite.column as nat),
                None => ("none"@, Seq::empty(), 0, 0),
            },
        },
    }
}

/// A length-prefixed component: `|`, its UTF-8 length, `:`, and the component.
pub open spec fn prefixed(component: Seq<char>) -> Seq<char> {
    "|"@ + decimal(vstd::utf8::encode_utf8(component).len()) + ":"@ + component
}

/// The target-independent identity of a finding's definition.
pub open spec fn stable_id(definition: Definition, package: Option<Seq<char>>) -> Seq<char> {
    let source = identity_source(definition);
    let package_text = match package {
        Some(p) => p,
        None => Seq::empty(),
    };
    "v1"@ + prefixed(package_text) + prefixed(definition.crate_name@) + prefixed(definition.name@)
        + prefixed(definition_kind_name(definition.kind)) + prefixed(source.0) + prefixed(source.1)
        + "|"@ + decimal(source.2) + "|"@ + decimal(source.3)
}

proof fn lemma_decimal_digits(n: nat)
    ensures
        decimal(n).len() >= 1,
        forall|i: int| 0 <= i < decimal(n).len() ==> '0' <= #[trigger] decimal(n)[i] <= '9',
    decreases n,
{
    if n >= 10 {
        lemma_decimal_digits(n / 10);
    }
}

proof fn lemma_digit_char_injective(a: nat, b: nat)
    requires
        a < 10,
        b < 10,
        crate::text::digit_char(a) == crate::text::digit_char(b),
    ensures
        a == b,
{
}

proof fn lemma_decimal_injective(m: nat, n: nat)
    requires
        decimal(m) == decimal(n),
    ensures
        m == n,
    decreases m,
{
    lemma_decimal_digits(m);
    lemma_decimal_digits(n);
    if m >= 10 && n >= 10 {
        lemma_decimal_digits(m / 10);
        lemma_decimal_digits(n / 10);
        assert(decimal(m).last() == crate::text::digit_char(m % 10));
        assert(decimal(n).last() == crate::text::digit_char(n % 10));
        assert(decimal(m).drop_last() =~= decimal(m / 10));
        assert(decimal(n).drop_last() =~= decimal(n / 10));
        lemma_digit_char_injective(m % 10, n % 10);
        lemma_decimal_injective(m / 10, n / 10);
    } else if m >= 10 {
        lemma_decimal_digits(m / 10);
        assert(decimal(m).len() >= 2);
    } else if n >= 10 {
        lemma_decimal_digits(n / 10);
        assert(decimal(n).len() >= 2);
    } else {
        assert(decimal(m) == seq![crate::text::digit_char(m)]);
        assert(decimal(n) == seq![crate::text::digit_char(n)]);
        assert(decimal(m)[0] == crate::text::digit_char(m));
        assert(decimal(n)[0] == crate::text::digit_char(n));
        lemma_digit_char_injective(m, n);
    }
}

proof fn lemma_split_at_separator(a: Seq<char>, x: Seq<char>, b: Seq<char>, y: Seq<char>, separator: char)
    requires
        a + seq![separator] + x == b + seq![separator] + y,
        forall|i: int| 0 <= i < a.len() ==> a[i] != separator,
        forall|i: int| 0 <= i < b.len() ==> b[i] != separator,
    ensures
        a == b,
        x == y,
{
    let whole = a + seq![separator] + x;
    if a.len() < b.len() {
        assert(whole[a.len() as int] == separator);
        assert((b + seq![separator] + y)[a.len() as int] == b[a.len() as int]);
    } else if b.len() < a.len() {
        assert((b + seq![separator] + y)[b.len() as int] == separator);
        assert(whole[b.len() as int] == a[b.len() as int]);
    } else {
        assert(a =~= whole.take(a.len() as int));
        assert(b =~= (b + seq![separator] + y).take(b.len() as int));
        assert(x =~= whole.skip(a.len() as int + 1));
        assert(y =~= (b + seq![separator] + y).skip(b.len() as int + 1));
    }
}

proof fn lemma_encode_nonempty(text: Seq<char>)
    requires
        text.len() > 0,
    ensures
        vstd::utf8::encode_utf8(text).len() > 0,
{
    assert(vstd::utf8::encode_scalar(text[0] as u32).len() > 0);
}

proof fn lemma_prefixed_unique(a: Seq<char>, x: Seq<char>, b: Seq<char>, y: Seq<char>)
    requires
        prefixed(a) + x == prefixed(b) + y,
    ensures
        a == b,
        x == y,
{
    reveal_strlit("|");
    reveal_strlit(":");
    let la = vstd::utf8::encode_utf8(a).len();
    let lb = vstd::utf8::encode_utf8(b).len();
    lemma_decimal_digits(la);
    lemma_decimal_digits(lb);
    assert((prefixed(a) + x).drop_first() =~= decimal(la) + seq![':'] + (a + x));
    assert((prefixed(b) + y).drop_first() =~= decimal(lb) + seq![':'] + (b + y));
    lemma_split_at_separator(decimal(la), a + x, decimal(lb), b + y, ':');
    lemma_decimal_injective(la, lb);
    if a.len() < b.len() {
        assert(b.take(a.len() as int) =~= (b + y).take(a.len() as int));
        assert(a =~= (a + x).take(a.len() as int));
        let z = b.skip(a.len() as int);
        assert(b =~= a + z);
        crate::locations::lemma_encode_concat(a, z);
        lemma_encode_nonempty(z);
    } else if b.len() < a.len() {
        assert(a.take(b.len() as int) =~= (a + x).take(b.len() as int));
        assert(b =~= (b + y).take(b.len() as int));
        let z = a.skip(b.len() as int);
        assert(a =~= b + z);
        crate::locations::lemma_encode_concat(b, z);
        lemma_encode_nonempty(z);
    } else {
        assert(a =~= (a + x).take(a.len() as int));
        assert(b =~= (b + y).take(b.len() as int));
        assert(x =~= (a + x).skip(a.len() as int));
        assert(y =~= (b + y).skip(b.len() as int));
    }
}

/// The text of a stable identity from its components.
pub open spec fn stable_text(components: Seq<Seq<char>>, line: nat, column: nat) -> Seq<char>
    recommends
        components.len() == 6,
{
    "v1"@ + prefixed(components[0]) + prefixed(components[1]) + prefixed(components[2]) + prefixed(components[3])
        + prefixed(components[4]) + prefixed(components[5]) + "|"@ + decimal(line) + "|"@ + decimal(column)
}

/// The components of a stable identity, after the first `k`: each length-prefixed, then the
/// line and column.
spec fn stable_rest(components: Seq<Seq<char>>, k: int, line: nat, column: nat) -> Seq<char>
    decreases 6 - k,
{
    if k >= 6 || k < 0 {
        "|"@ + decimal(line) + "|"@ + decimal(column)
    } else {
        prefixed(components[k]) + stable_rest(components, k + 1, line, column)
    }
}

proof fn lemma_stable_rest_unique(first: Seq<Seq<char>>, second: Seq<Seq<char>>, k: int, l1: nat, c1: nat, l2: nat, c2: nat)
    requires
        first.len() == 6,
        second.len() == 6,
        0 <= k <= 6,
        stable_rest(first, k, l1, c1) == stable_rest(second, k, l2, c2),
    ensures
        forall|i: int| k <= i < 6 ==> first[i] == second[i],
        l1 == l2,
        c1 == c2,
    decreases 6 - k,
{
    if k < 6 {
        lemma_prefixed_unique(first[k], stable_rest(first, k + 1, l1, c1), second[k], stable_rest(second, k + 1, l2, c2));
        lemma_stable_rest_unique(first, second, k + 1, l1, c1, l2, c2);
    } else {
        reveal_strlit("|");
        lemma_decimal_digits(l1);
        lemma_decimal_digits(l2);
        lemma_decimal_digits(c1);
        lemma_decimal_digits(c2);
        let tail1 = stable_rest(first, 6, l1, c1);
        let tail2 = stable_rest(second, 6, l2, c2);
        assert(tail1.drop_first() =~= decimal(l1) + seq!['|'] + decimal(c1));
        assert(tail2.drop_first() =~= decimal(l2) + seq!['|'] + decimal(c2));
        lemma_split_at_separator(decimal(l1), decimal(c1), decimal(l2), decimal(c2), '|');
        lemma_decimal_injective(l1, l2);
        lemma_decimal_injective(c1, c2);
    }
}

proof fn lemma_stable_text_rest(components: Seq<Seq<char>>, line: nat, column: nat)
    requires
        components.len() == 6,
    ensures
        stable_text(components, line, column) == "v1"@ + stable_rest(components, 0, line, column),
{
    let c = components;
    let r6 = stable_rest(c, 6, line, column);
    let r5 = stable_rest(c, 5, line, column);
    let r4 = stable_rest(c, 4, line, column);
    let r3 = stable_rest(c, 3, line, column);
    let r2 = stable_rest(c, 2, line, column);
    let r1 = stable_rest(c, 1, line, column);
    let r0 = stable_rest(c, 0, line, column);
    assert(r5 == prefixed(c[5]) + r6);
    assert(r4 == prefixed(c[4]) + r5);
    assert(r3 == prefixed(c[3]) + r4);
    assert(r2 == prefixed(c[2]) + r3);
    assert(r1 == prefixed(c[1]) + r2);
    assert(r0 == prefixed(c[0]) + r1);
    let l1 = "v1"@ + prefixed(c[0]);
    let l2 = l1 + prefixed(c[1]);
    let l3 = l2 + prefixed(c[2]);
    let l4 = l3 + prefixed(c[3]);
    let l5 = l4 + prefixed(c[4]);
    let l6 = l5 + prefixed(c[5]);
    assert(stable_text(c, line, column) =~= l6 + r6);
    assert(l6 + r6 =~= l5 + r5);
    assert(l5 + r5 =~= l4 + r4);
    assert(l4 + r4 =~= l3 + r3);
    assert(l3 + r3 =~= l2 + r2);
    assert(l2 + r2 =~= l1 + r1);
    assert(l1 + r1 =~= "v1"@ + r0);
}

/// Stable identities with the same text have the same components, line and column: the
/// length prefixes keep the components apart.
pub proof fn lemma_stable_text_unique(first: Seq<Seq<char>>, l1: nat, c1: nat, second: Seq<Seq<char>>, l2: nat, c2: nat)
    requires
        first.len() == 6,
        second.len() == 6,
        stable_text(first, l1, c1) == stable_text(second, l2, c2),
    ensures
        first == second,
        l1 == l2,
        c1 == c2,
{
    reveal_strlit("v1");
    lemma_stable_text_rest(first, l1, c1);
    lemma_stable_text_rest(second, l2, c2);
    assert(stable_rest(first, 0, l1, c1) =~= stable_text(first, l1, c1).skip(2));
    assert(stable_rest(second, 0, l2, c2) =~= stable_text(second, l2, c2).skip(2));
    lemma_stable_rest_unique(first, second, 0, l1, c1, l2, c2);
    assert(first =~= second);
}

/// The components of a definition's stable identity, in order.
pub open spec fn stable_components(definition: Definition, package: Option<Seq<char>>) -> Seq<Seq<char>> {
    let source = identity_source(definition);
    seq![
        match package {
            Some(p) => p,
            None => Seq::empty(),
        },
        definition.crate_name@,
        definition.name@,
        definition_kind_name(definition.kind),
        source.0,
        source.1,
    ]
}

/// Two findings with the same stable identity name the same package (none counting as
/// empty), crate, item, definition kind and source position.
pub proof fn lemma_stable_id_distinguishes(first: Definition, first_package: Option<Seq<char>>, second: Definition, second_package: Option<Seq<char>>)
    requires
        stable_id(first, first_package) == stable_id(second, second_package),
    ensures
        stable_components(first, first_package) == stable_components(second, second_package),
        first.kind == second.kind,
        identity_source(first) == identity_source(second),
{
    let s1 = identity_source(first);
    let s2 = identity_source(second);
    let a = stable_components(first, first_package);
    let b = stable_components(second, second_package);
    assert(stable_id(first, first_package) =~= stable_text(a, s1.2, s1.3));
    assert(stable_id(second, second_package) =~= stable_text(b, s2.2, s2.3));
    lemma_stable_text_unique(a, s1.2, s1.3, b, s2.2, s2.3);
    assert(a[3] == b[3]);
    lemma_definition_kind_names_distinct(first.kind, second.kind);
    assert(a[4] == b[4] && a[5] == b[5]);
}

fn push_prefixed(id: &mut String, component: &str)
    ensures
        final(id)@ == old(id)@ + prefixed(component@),
{
    id.append("|");
    push_decimal(id, component.as_bytes().len());
    id.append(":");
    id.append(component);
    proof {
        reveal_strlit("|");
        reveal_strlit(":");
        assert(final(id)@ =~= old(id)@ + prefixed(component@));
    }
}

/// Builds a target-independent finding identity from length-prefixed semantic and source
/// components.
pub fn stable_finding_id(definition: &Definition, package: Option<&str>) -> (id: String)
    ensures
        id@ == stable_id(*definition, match package { Some(p) => Some(p@), None => None }),
{
    let empty = "";
    let (source_kind, source_file, line, column): (&str, &str, usize, usize) = match &definition.span {
        Some(span) => ("source", span.file.as_str(), span.line, span.column),
        None => match &definition.declaration_span {
            Some(span) => ("declaration", span.file.as_str(), span.start_line, span.start_column),
            None => match &definition.expansion_span {
                Some(span) => ("expansion-callsite", span.callsite.file.as_str(), span.callsite.line, span.callsite.column),
                None => ("none", empty, 0, 0),
            },
        },
    };
    proof {
        reveal_strlit("");
        reveal_strlit("source");
        reveal_strlit("declaration");
        reveal_strlit("expansion-callsite");
        reveal_strlit("none");
        let expected = identity_source(*definition);
        assert(source_kind@ == expected.0);
        assert(source_file@ == expected.1);
        assert(line == expected.2);
        assert(column == expected.3);
    }
    let package_text = match package {
        Some(p) => p,
        None => empty,
    };
    let mut id = "v1".to_owned();
    push_prefixed(&mut id, package_text);
    push_prefixed(&mut id, definition.crate_name.as_str());
    push_prefixed(&mut id, definition.name.as_str());
    push_prefixed(&mut id, json_definition_kind(definition.kind));
    push_prefixed(&mut id, source_kind);
    push_prefixed(&mut id, source_file);
    id.append("|");
    push_decimal(&mut id, line);
    id.append("|");
    push_decimal(&mut id, column);
    proof {
        reveal_strlit("v1");
        reveal_strlit("|");
        assert(id@ =~= stable_id(*definition, match package { Some(p) => Some(p@), None => None }));
    }
    id
}

/// Membership of a definition identifier in a standard hash set (`HashSet::contains`).
#[verifier::external_body]
fn id_set_contains(set: &HashSet<DefinitionId>, id: &DefinitionId) -> (found: bool)
    ensures
        found == set@.contains(*id),
{
    set.contains(id)
}

/// Whether a standard hash set of definition identifiers is empty (`HashSet::is_empty`).
#[verifier::external_body]
fn id_set_is_empty(set: &HashSet<DefinitionId>) -> (empty: bool)
    ensures
        empty == (set@.len() == 0 && set@.finite()),
{
    set.is_empty()
}

/// The package of the last fragment that defines `id`, among the first `k` fragments and
/// the first `j` definitions of fragment `k`.
#[verifier::opaque]
pub open spec fn package_before(frames: Seq<Fragment>, id: DefinitionId, k: int, j: int) -> Option<Seq<char>> {
    if exists|k2: int, j2: int| #[trigger] defines_at(frames, k2, j2, id) && before(k2, j2, k, j) {
        let (k2, j2) = choose|k2: int, j2: int| #[trigger] defines_at(frames, k2, j2, id) && before(k2, j2, k, j)
            && forall|k3: int, j3: int| #[trigger] defines_at(frames, k3, j3, id) && before(k3, j3, k, j) ==> !before(k2, j2, k3, j3);
        Some(frames[k2].package_name@)
    } else {
        None
    }
}

/// `table` numbers the distinct identifiers of `entries` by their positions.
pub open spec fn indexed_entries<'a>(table: KeyIndex, entries: Seq<(DefinitionId, &'a str)>) -> bool {
    &&& forall|i: int, j: int| 0 <= i < j < entries.len() ==> (#[trigger] entries[i]).0 != (#[trigger] entries[j]).0
    &&& forall|i: int| 0 <= i < entries.len() ==> #[trigger] key_index_entries(table).contains_key(id_key(entries[i].0))
        && key_index_entries(table)[id_key(entries[i].0)] == i
    &&& forall|id: DefinitionId| #[trigger] key_index_entries(table).contains_key(id_key(id))
        ==> exists|i: int| 0 <= i < entries.len() && (#[trigger] entries[i]).0 == id
}

/// The package that declares each emitted finding's definition.
pub struct DefinitionPackages<'a> {
    table: KeyIndex,
    entries: Vec<(DefinitionId, &'a str)>,
}

impl<'a> DefinitionPackages<'a> {
    #[verifier::type_invariant]
    spec fn indexed(self) -> bool {
        indexed_entries(self.table, self.entries@)
    }

    /// The package recorded for `id`, if any.
    pub closed spec fn package_of(self, id: DefinitionId) -> Option<Seq<char>> {
        if exists|i: int| 0 <= i < self.entries@.len() && (#[trigger] self.entries@[i]).0 == id {
            let i = choose|i: int| 0 <= i < self.entries@.len() && (#[trigger] self.entries@[i]).0 == id;
            Some(self.entries@[i].1@)
        } else {
            None
        }
    }

    /// The number of identifiers recorded.
    pub closed spec fn count(self) -> nat {
        self.entries@.len()
    }

    /// The package recorded for `id`, if any.
    pub fn get(&self, id: &DefinitionId) -> (package: Option<&&'a str>)
        ensures
            package is Some <==> self.package_of(*id) is Some,
            package matches Some(p) ==> (**p)@ == self.package_of(*id)->0,
    {
        proof {
            use_type_invariant(self);
        }
        let key = vec![id.stable_crate_id, id.local_hash];
        let texts: Vec<String> = Vec::new();
        proof {
            assert(texts_of(texts@) =~= id_key(*id).0);
            assert(key@ =~= id_key(*id).1);
        }
        match self.table.get(&texts, &key) {
            Some(i) => {
                proof {
                    let w = choose|w: int| 0 <= w < self.entries@.len() && (#[trigger] self.entries@[w]).0 == *id;
                    assert(key_index_entries(self.table)[id_key(self.entries@[w].0)] == w);
                    let c = choose|c: int| 0 <= c < self.entries@.len() && (#[trigger] self.entries@[c]).0 == *id;
                    if c != w {
                        assert(self.entries@[c].0 != self.entries@[w].0);
                    }
                }
                Some(&self.entries[i].1)
            },
            None => {
                proof {
                    if exists|w: int| 0 <= w < self.entries@.len() && (#[trigger] self.entries@[w]).0 == *id {
                        let w = choose|w: int| 0 <= w < self.entries@.len() && (#[trigger] self.entries@[w]).0 == *id;
                        assert(key_index_entries(self.table).contains_key(id_key(self.entries@[w].0)));
                    }
                }
                None
            },
        }
    }

    /// Whether a package is recorded for `id`.
    pub fn contains_key(&self, id: &DefinitionId) -> (found: bool)
        ensures
            found == self.package_of(*id) is Some,
    {
        self.get(id).is_some()
    }

    /// The number of identifiers recorded.
    pub fn len(&self) -> (count: usize)
        ensures
            count == self.count(),
    {
        self.entries.len()
    }

    /// Whether no identifier is recorded.
    pub fn is_empty(&self) -> (empty: bool)
        ensures
            empty == (self.count() == 0),
    {
        self.entries.len() == 0
    }
}

/// Maps emitted finding definitions to Cargo packages without indexing unrelated definitions.
#[verifier::rlimit(40)]
#[verifier::spinoff_prover]
pub fn definition_packages<'a>(
    production_fragments: &'a [Fragment],
    test_fragments: &'a [Fragment],
    emitted_finding_ids: &HashSet<DefinitionId>,
) -> (packages: DefinitionPackages<'a>)
    requires
        total_size(chain(production_fragments@, test_fragments@)) < usize::MAX,
    ensures
        forall|id: DefinitionId| #[trigger] packages.package_of(id) == if emitted_finding_ids@.contains(id) {
            package_before(chain(production_fragments@, test_fragments@), id, chain(production_fragments@, test_fragments@).len() as int, 0)
        } else {
            None
        },
{
    let ghost frames = chain(production_fragments@, test_fragments@);
    let mut packages = DefinitionPackages { table: KeyIndex::new(), entries: Vec::new() };
    if id_set_is_empty(emitted_finding_ids) {
        proof {
            assert forall|id: DefinitionId| #[trigger] packages.package_of(id) == if emitted_finding_ids@.contains(id) {
                package_before(frames, id, frames.len() as int, 0)
            } else {
                None
            } by {
                assert(!emitted_finding_ids@.contains(id));
            }
        }
        return packages;
    }
    proof {
        crate::frames::lemma_total_size_counts_fragments(frames);
        reveal(package_before);
        assert forall|id: DefinitionId| #[trigger] packages.package_of(id) == if emitted_finding_ids@.contains(id) {
            package_before(frames, id, 0, 0)
        } else {
            None
        } by {
            assert(!exists|k2: int, j2: int| #[trigger] defines_at(frames, k2, j2, id) && before(k2, j2, 0, 0));
        }
    }
    let count = production_fragments.len() + test_fragments.len();
    let mut k: usize = 0;
    while k < count
        invariant
            frames == chain(production_fragments@, test_fragments@),
            count == frames.len(),
            k <= count,
            forall|id: DefinitionId| #[trigger] packages.package_of(id) == if emitted_finding_ids@.contains(id) {
                package_before(frames, id, k as int, 0)
            } else {
                None
            },
        decreases count - k,
    {
        let fragment = fragment_at(production_fragments, test_fragments, k);
        record_fragment_packages(&mut packages, fragment, emitted_finding_ids, Ghost(frames), Ghost(k as int));
        k = k + 1;
    }
    packages
}

/// Records the packages of the emitted definitions of fragment `k`.
fn record_fragment_packages<'a>(
    packages: &mut DefinitionPackages<'a>,
    fragment: &'a Fragment,
    emitted_finding_ids: &HashSet<DefinitionId>,
    Ghost(frames): Ghost<Seq<Fragment>>,
    Ghost(k): Ghost<int>,
)
    requires
        0 <= k < frames.len(),
        *fragment == frames[k],
        forall|id: DefinitionId| #[trigger] old(packages).package_of(id) == if emitted_finding_ids@.contains(id) {
            package_before(frames, id, k, 0)
        } else {
            None
        },
    ensures
        forall|id: DefinitionId| #[trigger] final(packages).package_of(id) == if emitted_finding_ids@.contains(id) {
            package_before(frames, id, k + 1, 0)
        } else {
            None
        },
{
    let mut j: usize = 0;
    while j < fragment.definitions.len()
        invariant
            0 <= k < frames.len(),
            *fragment == frames[k],
            j <= fragment.definitions@.len(),
            forall|id: DefinitionId| #[trigger] packages.package_of(id) == if emitted_finding_ids@.contains(id) {
                package_before(frames, id, k, j as int)
            } else {
                None
            },
        decreases fragment.definitions@.len() - j,
    {
        let id = fragment.definitions[j].id;
        if id_set_contains(emitted_finding_ids, &id) {
            record_package(packages, id, fragment.package_name.as_str());
        }
        proof {
            assert(frames[k].definitions@[j as int].id == id);
            assert forall|x: DefinitionId| #[trigger] packages.package_of(x) == if emitted_finding_ids@.contains(x) {
                package_before(frames, x, k, j + 1)
            } else {
                None
            } by {
                lemma_package_step(frames, x, k, j as int);
            }
        }
        j = j + 1;
    }
    proof {
        assert forall|x: DefinitionId| #[trigger] packages.package_of(x) == if emitted_finding_ids@.contains(x) {
            package_before(frames, x, k + 1, 0)
        } else {
            None
        } by {
            lemma_package_next_fragment(frames, x, k);
        }
    }
}

/// Records `package` for `id`, replacing any earlier record.
fn record_package<'a>(packages: &mut DefinitionPackages<'a>, id: DefinitionId, package: &'a str)
    ensures
        forall|x: DefinitionId| #[trigger] final(packages).package_of(x) == if x == id { Some(package@) } else { old(packages).package_of(x) },
{
    proof {
        use_type_invariant(&*packages);
    }
    let key = vec![id.stable_crate_id, id.local_hash];
    let texts: Vec<String> = Vec::new();
    proof {
        assert(texts_of(texts@) =~= id_key(id).0);
        assert(key@ =~= id_key(id).1);
    }
    let ghost old_entries = packages.entries@;
    let ghost old_table = key_index_entries(packages.table);
    match packages.table.get(&texts, &key) {
        Some(i) => {
            proof {
                let w = choose|w: int| 0 <= w < old_entries.len() && (#[trigger] old_entries[w]).0 == id;
                assert(old_table[id_key(old_entries[w].0)] == w);
            }
            let mut taken = DefinitionPackages { table: KeyIndex::new(), entries: Vec::new() };
            std::mem::swap(packages, &mut taken);
            let DefinitionPackages { table, mut entries } = taken;
            entries.set(i, (id, package));
            proof {
                let w = choose|w: int| 0 <= w < old_entries.len() && (#[trigger] old_entries[w]).0 == id;
                assert(old_table[id_key(old_entries[w].0)] == w);
                assert(old_entries[i as int].0 == id);
                assert(entries@ == old_entries.update(i as int, (id, package)));
                assert forall|a: int, b: int| 0 <= a < b < entries@.len() implies (#[trigger] entries@[a]).0 != (#[trigger] entries@[b]).0 by {
                    assert(old_entries[a].0 != old_entries[b].0);
                }
                assert forall|a: int| 0 <= a < entries@.len() implies #[trigger] key_index_entries(table).contains_key(id_key(entries@[a].0))
                    && key_index_entries(table)[id_key(entries@[a].0)] == a by {
                    assert(old_table.contains_key(id_key(old_entries[a].0)));
                }
                assert forall|x: DefinitionId| #[trigger] key_index_entries(table).contains_key(id_key(x))
                    implies exists|a: int| 0 <= a < entries@.len() && (#[trigger] entries@[a]).0 == x by {
                    let a = choose|a: int| 0 <= a < old_entries.len() && (#[trigger] old_entries[a]).0 == x;
                    assert(entries@[a].0 == x);
                }
                assert(indexed_entries(table, entries@));
            }
            *packages = DefinitionPackages { table, entries };
            proof {
                assert forall|x: DefinitionId| #[trigger] packages.package_of(x) == if x == id { Some(package@) } else { old(packages).package_of(x) } by {
                    if x != id {
                        if exists|w: int| 0 <= w < old_entries.len() && (#[trigger] old_entries[w]).0 == x {
                            let w = choose|w: int| 0 <= w < old_entries.len() && (#[trigger] old_entries[w]).0 == x;
                            assert(packages.entries@[w].0 == x);
                        }
                        if exists|w: int| 0 <= w < packages.entries@.len() && (#[trigger] packages.entries@[w]).0 == x {
                            let w = choose|w: int| 0 <= w < packages.entries@.len() && (#[trigger] packages.entries@[w]).0 == x;
                            assert(old_entries[w].0 == x);
                        }
                    } else {
                        assert(packages.entries@[i as int].0 == id);
                    }
                }
            }
        },
        None => {
            let n = packages.entries.len();
            let mut taken = DefinitionPackages { table: KeyIndex::new(), entries: Vec::new() };
            std::mem::swap(packages, &mut taken);
            let DefinitionPackages { mut table, mut entries } = taken;
            entries.push((id, package));
            table.insert(texts, key, n);
            proof {
                assert forall|i: int| 0 <= i < old_entries.len() implies old_entries[i].0 != id by {
                    assert(old_table.contains_key(id_key(old_entries[i].0)));
                }
                assert(entries@ == old_entries.push((id, package)));
                assert forall|a: int, b: int| 0 <= a < b < entries@.len() implies (#[trigger] entries@[a]).0 != (#[trigger] entries@[b]).0 by {
                    if b < n as int {
                        assert(old_entries[a].0 != old_entries[b].0);
                    }
                }
                assert forall|a: int| 0 <= a < entries@.len() implies #[trigger] key_index_entries(table).contains_key(id_key(entries@[a].0))
                    && key_index_entries(table)[id_key(entries@[a].0)] == a by {
                    if a < n as int {
                        assert(old_table.contains_key(id_key(old_entries[a].0)));
                        crate::nodes::lemma_id_key_injective(old_entries[a].0, id);
                    }
                }
                assert forall|x: DefinitionId| #[trigger] key_index_entries(table).contains_key(id_key(x))
                    implies exists|a: int| 0 <= a < entries@.len() && (#[trigger] entries@[a]).0 == x by {
                    crate::nodes::lemma_id_key_injective(x, id);
                    if x == id {
                        assert(entries@[n as int].0 == x);
                    } else {
                        let a = choose|a: int| 0 <= a < old_entries.len() && (#[trigger] old_entries[a]).0 == x;
                        assert(entries@[a].0 == x);
                    }
                }
                assert(indexed_entries(table, entries@));
            }
            *packages = DefinitionPackages { table, entries };
            proof {
                assert forall|x: DefinitionId| #[trigger] packages.package_of(x) == if x == id { Some(package@) } else { old(packages).package_of(x) } by {
                    if x != id {
                        if exists|w: int| 0 <= w < old_entries.len() && (#[trigger] old_entries[w]).0 == x {
                            let w = choose|w: int| 0 <= w < old_entries.len() && (#[trigger] old_entries[w]).0 == x;
                            assert(packages.entries@[w].0 == x);
                        }
                        if exists|w: int| 0 <= w < packages.entries@.len() && (#[trigger] packages.entries@[w]).0 == x {
                            let w = choose|w: int| 0 <= w < packages.entries@.len() && (#[trigger] packages.entries@[w]).0 == x;
                            assert(old_entries[w].0 == x);
                        }
                    } else {
                        assert(packages.entries@[n as int].0 == id);
                    }
                }
            }
        },
    }
}

#[verifier::rlimit(40)]
#[verifier::spinoff_prover]
proof fn lemma_package_step(frames: Seq<Fragment>, id: DefinitionId, k: int, j: int)
    requires
        0 <= k < frames.len(),
        0 <= j < frames[k].definitions@.len(),
    ensures
        package_before(frames, id, k, j + 1) == if frames[k].definitions@[j].id == id { Some(frames[k].package_name@) } else { package_before(frames, id, k, j) },
{
    reveal(package_before);
    if frames[k].definitions@[j].id == id {
        assert(defines_at(frames, k, j, id) && before(k, j, k, j + 1));
        let (k2, j2) = choose|k2: int, j2: int| #[trigger] defines_at(frames, k2, j2, id) && before(k2, j2, k, j + 1)
            && forall|k3: int, j3: int| #[trigger] defines_at(frames, k3, j3, id) && before(k3, j3, k, j + 1) ==> !before(k2, j2, k3, j3);
        assert(forall|k3: int, j3: int| #[trigger] defines_at(frames, k3, j3, id) && before(k3, j3, k, j + 1) ==> !before(k, j, k3, j3));
        assert(!before(k2, j2, k, j));
    } else {
        if exists|k2: int, j2: int| #[trigger] defines_at(frames, k2, j2, id) && before(k2, j2, k, j + 1) {
            let (a, b) = choose|k2: int, j2: int| #[trigger] defines_at(frames, k2, j2, id) && before(k2, j2, k, j + 1);
            assert(before(a, b, k, j));
            lemma_last_exists(frames, id, k, j);
        }
        assert forall|k3: int, j3: int| #[trigger] defines_at(frames, k3, j3, id) implies (before(k3, j3, k, j + 1) <==> before(k3, j3, k, j)) by {
        }
    }
}

proof fn lemma_package_next_fragment(frames: Seq<Fragment>, id: DefinitionId, k: int)
    requires
        0 <= k < frames.len(),
    ensures
        package_before(frames, id, k + 1, 0) == package_before(frames, id, k, frames[k].definitions@.len() as int),
{
    reveal(package_before);
    assert forall|k3: int, j3: int| #[trigger] defines_at(frames, k3, j3, id) implies (before(k3, j3, k + 1, 0) <==> before(k3, j3, k, frames[k].definitions@.len() as int)) by {
    }
    if exists|k2: int, j2: int| #[trigger] defines_at(frames, k2, j2, id) && before(k2, j2, k + 1, 0) {
        lemma_last_exists(frames, id, k + 1, 0);
        lemma_last_exists(frames, id, k, frames[k].definitions@.len() as int);
    }
}

/// `(a, b)` is the last definition of `id` before `(k, j)`.
pub open spec fn last_definition_before(frames: Seq<Fragment>, id: DefinitionId, k: int, j: int, a: int, b: int) -> bool {
    &&& defines_at(frames, a, b, id)
    &&& before(a, b, k, j)
    &&& forall|k3: int, j3: int| #[trigger] defines_at(frames, k3, j3, id) && before(k3, j3, k, j) ==> !before(a, b, k3, j3)
}

/// When some definition of `id` comes before `(k, j)`, a last such one exists.
#[verifier::spinoff_prover]
#[verifier::rlimit(30)]
proof fn lemma_last_exists(frames: Seq<Fragment>, id: DefinitionId, k: int, j: int)
    requires
        exists|k2: int, j2: int| #[trigger] defines_at(frames, k2, j2, id) && before(k2, j2, k, j),
    ensures
        exists|k2: int, j2: int| #[trigger] defines_at(frames, k2, j2, id) && before(k2, j2, k, j)
            && forall|k3: int, j3: int| #[trigger] defines_at(frames, k3, j3, id) && before(k3, j3, k, j) ==> !before(k2, j2, k3, j3),
    decreases k, j,
{
    let (a0, b0) = choose|k2: int, j2: int| #[trigger] defines_at(frames, k2, j2, id) && before(k2, j2, k, j);
    if j > 0 && defines_at(frames, k, j - 1, id) {
        assert(last_definition_before(frames, id, k, j, k, j - 1));
    } else if j > 0 {
        if !before(a0, b0, k, j - 1) {
            assert(a0 == k && b0 == j - 1);
        }
        lemma_last_exists(frames, id, k, j - 1);
        let (a, b) = choose|k2: int, j2: int| #[trigger] defines_at(frames, k2, j2, id) && before(k2, j2, k, j - 1)
            && forall|k3: int, j3: int| #[trigger] defines_at(frames, k3, j3, id) && before(k3, j3, k, j - 1) ==> !before(k2, j2, k3, j3);
        assert forall|k3: int, j3: int| #[trigger] defines_at(frames, k3, j3, id) && before(k3, j3, k, j) implies !before(a, b, k3, j3) by {
            if !before(k3, j3, k, j - 1) {
                assert(k3 == k && j3 == j - 1);
            }
        }
        assert(last_definition_before(frames, id, k, j, a, b));
    } else {
        // j == 0: the definition lies in an earlier fragment.
        assert(a0 < k);
        let len = frames[k - 1].definitions@.len() as int;
        assert(before(a0, b0, k - 1, len)) by {
            if a0 == k - 1 {
                assert(b0 < len);
            }
        }
        lemma_last_exists(frames, id, k - 1, len);
        let (a, b) = choose|k2: int, j2: int| #[trigger] defines_at(frames, k2, j2, id) && before(k2, j2, k - 1, len)
            && forall|k3: int, j3: int| #[trigger] defines_at(frames, k3, j3, id) && before(k3, j3, k - 1, len) ==> !before(k2, j2, k3, j3);
        assert forall|k3: int, j3: int| #[trigger] defines_at(frames, k3, j3, id) && before(k3, j3, k, j) implies !before(a, b, k3, j3) by {
            if k3 == k - 1 {
                assert(j3 < len);
            }
            assert(before(k3, j3, k - 1, len));
        }
        assert(last_definition_before(frames, id, k, j, a, b));
    }
}

/// The definitions of `fragments`, in order.
pub open spec fn definitions_of(fragments: Seq<Fragment>) -> Seq<Definition>
    decreases fragments.len(),
{
    if fragments.len() == 0 {
        Seq::empty()
    } else {
        definitions_of(fragments.drop_last()) + fragments.last().definitions@
    }
}

/// The definitions of `definitions` with `identity`, in order.
pub open spec fn with_identity(definitions: Seq<Definition>, identity: crate::model::IdentityView) -> Seq<Definition> {
    definitions.filter(|d: Definition| identity_of(d) == identity)
}

/// The definitions of the analyzed fragments, grouped by declaration identity.
pub struct DefinitionIndex<'a> {
    table: KeyIndex,
    groups: Vec<Vec<&'a Definition>>,
    fragments: Ghost<Seq<Fragment>>,
}

/// The definitions a group of references refers to.
pub open spec fn referenced<'a>(group: Seq<&'a Definition>) -> Seq<Definition> {
    group.map_values(|d: &'a Definition| *d)
}

/// `table` and `groups` group `definitions` by identity.
pub open spec fn groups_definitions<'a>(table: KeyIndex, groups: Seq<Vec<&'a Definition>>, definitions: Seq<Definition>) -> bool {
    &&& forall|identity: crate::model::IdentityView| #[trigger] key_index_entries(table).contains_key(identity_key(identity))
        <==> with_identity(definitions, identity).len() > 0
    &&& forall|identity: crate::model::IdentityView| #[trigger] key_index_entries(table).contains_key(identity_key(identity))
        ==> key_index_entries(table)[identity_key(identity)] < groups.len()
            && referenced(groups[key_index_entries(table)[identity_key(identity)] as int]@) == with_identity(definitions, identity)
    &&& forall|key: crate::keys::KeyView| #[trigger] key_index_entries(table).contains_key(key)
        ==> exists|identity: crate::model::IdentityView| key == identity_key(identity)
}

impl<'a> DefinitionIndex<'a> {
    #[verifier::type_invariant]
    spec fn grouped(self) -> bool {
        groups_definitions(self.table, self.groups@, definitions_of(self.fragments@))
    }

    /// The fragments whose definitions are indexed.
    pub closed spec fn indexed_fragments(self) -> Seq<Fragment> {
        self.fragments@
    }

    /// The indexed definitions with the identity of `definition`, in order.
    pub fn definitions(&self, definition: &Definition) -> (found: &[&'a Definition])
        ensures
            referenced(found@) == with_identity(definitions_of(self.indexed_fragments()), identity_of(*definition)),
    {
        proof {
            use_type_invariant(self);
        }
        let (texts, numbers) = identity_key_of(definition);
        match self.table.get(&texts, &numbers) {
            Some(g) => self.groups[g].as_slice(),
            None => {
                let empty: &[&'a Definition] = &[];
                proof {
                    assert(referenced(empty@) =~= Seq::<Definition>::empty());
                    reveal(Seq::filter);
                    assert(with_identity(definitions_of(self.fragments@), identity_of(*definition)).len() == 0);
                }
                empty
            },
        }
    }
}

/// Adding one definition to the grouped ones.
proof fn lemma_with_identity_push(definitions: Seq<Definition>, definition: Definition, identity: crate::model::IdentityView)
    ensures
        with_identity(definitions.push(definition), identity) == if identity_of(definition) == identity {
            with_identity(definitions, identity).push(definition)
        } else {
            with_identity(definitions, identity)
        },
{
    reveal(Seq::filter);
    assert(definitions.push(definition).drop_last() =~= definitions);
}

/// Groups the definitions of `fragments` by declaration identity.
pub fn definition_index<'a>(fragments: &'a [Fragment]) -> (index: DefinitionIndex<'a>)
    ensures
        index.indexed_fragments() == fragments@,
{
    let mut table = KeyIndex::new();
    let mut groups: Vec<Vec<&'a Definition>> = Vec::new();
    let ghost mut seen: Seq<Definition> = Seq::empty();
    proof {
        reveal(Seq::filter);
        assert forall|identity: crate::model::IdentityView| with_identity(seen, identity).len() == 0 by {
        }
    }
    let mut k: usize = 0;
    while k < fragments.len()
        invariant
            k <= fragments@.len(),
            seen == definitions_of(fragments@.take(k as int)),
            groups_definitions(table, groups@, seen),
        decreases fragments@.len() - k,
    {
        let fragment = &fragments[k];
        let mut j: usize = 0;
        while j < fragment.definitions.len()
            invariant
                k < fragments@.len(),
                *fragment == fragments@[k as int],
                j <= fragment.definitions@.len(),
                seen == definitions_of(fragments@.take(k as int)) + fragment.definitions@.take(j as int),
                groups_definitions(table, groups@, seen),
            decreases fragment.definitions@.len() - j,
        {
            let definition = &fragment.definitions[j];
            let ghost before_seen = seen;
            let ghost before_table = key_index_entries(table);
            let ghost before_groups = groups@;
            let ghost identity = identity_of(*definition);
            let (texts, numbers) = identity_key_of(definition);
            match table.get(&texts, &numbers) {
                Some(g) => {
                    let mut group = Vec::new();
                    std::mem::swap(&mut group, &mut groups[g]);
                    group.push(definition);
                    groups.set(g, group);
                },
                None => {
                    let g = groups.len();
                    let mut group = Vec::new();
                    group.push(definition);
                    groups.push(group);
                    table.insert(texts, numbers, g);
                },
            }
            proof {
                seen = before_seen.push(*definition);
                assert(fragment.definitions@.take(j + 1) =~= fragment.definitions@.take(j as int).push(*definition));
                assert(seen =~= definitions_of(fragments@.take(k as int)) + fragment.definitions@.take(j + 1));
                assert forall|x: crate::model::IdentityView| #[trigger] key_index_entries(table).contains_key(identity_key(x))
                    <==> with_identity(seen, x).len() > 0 by {
                    lemma_with_identity_push(before_seen, *definition, x);
                    lemma_identity_key_injective(x, identity);
                }
                assert forall|x: crate::model::IdentityView| #[trigger] key_index_entries(table).contains_key(identity_key(x))
                    implies key_index_entries(table)[identity_key(x)] < groups@.len()
                        && referenced(groups@[key_index_entries(table)[identity_key(x)] as int]@) == with_identity(seen, x) by {
                    lemma_with_identity_push(before_seen, *definition, x);
                    lemma_identity_key_injective(x, identity);
                    if x == identity {
                        let g = key_index_entries(table)[identity_key(x)] as int;
                        if before_table.contains_key(identity_key(x)) {
                            assert(referenced(before_groups[g]@) == with_identity(before_seen, x));
                            assert(referenced(groups@[g]@) =~= referenced(before_groups[g]@).push(*definition));
                        } else {
                            assert(with_identity(before_seen, x).len() == 0);
                            assert(with_identity(before_seen, x) =~= Seq::<Definition>::empty());
                            assert(referenced(groups@[g]@) =~= seq![*definition]);
                        }
                    } else {
                        let g = key_index_entries(table)[identity_key(x)] as int;
                        assert(before_table.contains_key(identity_key(x)));
                        if before_table.contains_key(identity_key(identity)) && g == before_table[identity_key(identity)] as int {
                            assert(with_identity(before_seen, x) == with_identity(before_seen, identity));
                            before_seen.lemma_filter_pred(|d: Definition| identity_of(d) == x, 0);
                            before_seen.lemma_filter_pred(|d: Definition| identity_of(d) == identity, 0);
                            assert(false);
                        }
                        assert(groups@[g] == before_groups[g]);
                    }
                }
                assert forall|key: crate::keys::KeyView| #[trigger] key_index_entries(table).contains_key(key)
                    implies exists|x: crate::model::IdentityView| key == identity_key(x) by {
                    if !before_table.contains_key(key) {
                        assert(key == identity_key(identity));
                    }
                }
            }
            j = j + 1;
        }
        proof {
            assert(fragment.definitions@.take(fragment.definitions@.len() as int) =~= fragment.definitions@);
            assert(fragments@.take(k + 1).drop_last() =~= fragments@.take(k as int));
            assert(definitions_of(fragments@.take(k + 1)) =~= definitions_of(fragments@.take(k as int)) + fragment.definitions@);
        }
        k = k + 1;
    }
    proof {
        assert(fragments@.take(fragments@.len() as int) =~= fragments@);
    }
    DefinitionIndex { table, groups, fragments: Ghost(fragments@) }
}

/// The edit that a finding of `kind` proposes for `definition`.
pub open spec fn fix_target_of(definition: Definition, kind: FindingKind, replacement: VisibilityReduction) -> crate::model::FixTargetView {
    crate::model::FixTargetView {
        id: definition.id,
        crate_name: definition.crate_name@,
        name: definition.name@,
        definition_kind: definition.kind,
        position: crate::model::position_of(definition.span),
        kind,
        replacement,
    }
}

/// The edits that the first `n` findings propose: for each finding with a visibility
/// reduction, one edit per definition with the finding's identity.
pub open spec fn planned_targets(findings: Seq<crate::model::FindingView>, definitions: Seq<Definition>, n: int) -> Seq<crate::model::FixTargetView>
    decreases n,
{
    if n <= 0 {
        Seq::empty()
    } else {
        let finding = findings[n - 1];
        planned_targets(findings, definitions, n - 1) + match reduction_of(finding.kind) {
            Some(replacement) => with_identity(definitions, identity_of(finding.definition))
                .map_values(|d: Definition| fix_target_of(d, finding.kind, replacement)),
            None => Seq::empty(),
        }
    }
}

/// Whether an edit fits the finding that proposes it: a `pub` item that is needed only in its
/// crate becomes `pub(crate)`, a restricted one needed nowhere else becomes private, and a
/// crate-visible one needed only by its parent module becomes `pub(super)`; dead and test-only
/// findings propose no edit.
pub open spec fn edit_fits(kind: FindingKind, replacement: VisibilityReduction) -> bool {
    match kind {
        FindingKind::UnnecessaryPublic => replacement == VisibilityReduction::Crate,
        FindingKind::UnnecessaryRestrictedVisibility => replacement == VisibilityReduction::Private,
        FindingKind::UnnecessaryCrateVisibility => replacement == VisibilityReduction::Super,
        FindingKind::DeadPublic | FindingKind::TestOnly => false,
    }
}

/// Every edit of a fix plan fits the finding it comes from: its replacement is the visibility
/// reduction of the finding's kind, and some planned finding has that kind and the edited
/// declaration's crate and name.
pub proof fn lemma_fix_edits_fit_their_findings(findings: Seq<crate::model::FindingView>, definitions: Seq<Definition>, n: int)
    requires
        0 <= n <= findings.len(),
    ensures
        forall|i: int| 0 <= i < planned_targets(findings, definitions, n).len() ==> {
            let target = #[trigger] planned_targets(findings, definitions, n)[i];
            &&& edit_fits(target.kind, target.replacement)
            &&& exists|j: int| 0 <= j < n && findings[j].kind == target.kind && findings[j].definition.crate_name@ == target.crate_name
                && findings[j].definition.name@ == target.name
        },
    decreases n,
{
    if n > 0 {
        lemma_fix_edits_fit_their_findings(findings, definitions, n - 1);
        let before = planned_targets(findings, definitions, n - 1);
        let all = planned_targets(findings, definitions, n);
        let finding = findings[n - 1];
        assert forall|i: int| 0 <= i < all.len() implies {
            let target = #[trigger] all[i];
            &&& edit_fits(target.kind, target.replacement)
            &&& exists|j: int| 0 <= j < n && findings[j].kind == target.kind && findings[j].definition.crate_name@ == target.crate_name
                && findings[j].definition.name@ == target.name
        } by {
            if i < before.len() {
                assert(all[i] == before[i]);
                let target = before[i];
                let j = choose|j: int| 0 <= j < n - 1 && findings[j].kind == target.kind && findings[j].definition.crate_name@ == target.crate_name
                    && findings[j].definition.name@ == target.name;
                assert(0 <= j < n);
            } else {
                let group = with_identity(definitions, identity_of(finding.definition));
                let replacement = reduction_of(finding.kind)->0;
                let d = group[i - before.len()];
                assert(all[i] == fix_target_of(d, finding.kind, replacement));
                assert(identity_of(d) == identity_of(finding.definition)) by {
                    definitions.lemma_filter_pred(|x: Definition| identity_of(x) == identity_of(finding.definition), i - before.len());
                }
                assert(findings[n - 1].kind == all[i].kind);
            }
        }
    }
}

/// The visibility edits that `findings` propose for the definitions of an index.
pub fn fix_plan_for<'a>(findings: &[Finding<'a>], definitions: &DefinitionIndex) -> (plan: FixPlan)
    ensures
        plan.targets@.map_values(|t: FixTarget| t.view())
            == planned_targets(crate::model::finding_views(findings@), definitions_of(definitions.indexed_fragments()), findings@.len() as int),
        forall|i: int| 0 <= i < plan.targets@.len() ==> edit_fits(#[trigger] plan.targets@[i].kind, plan.targets@[i].replacement),
{
    let ghost views = crate::model::finding_views(findings@);
    let ghost all = definitions_of(definitions.indexed_fragments());
    let mut targets: Vec<FixTarget> = Vec::new();
    let mut i: usize = 0;
    while i < findings.len()
        invariant
            i <= findings@.len(),
            views == crate::model::finding_views(findings@),
            all == definitions_of(definitions.indexed_fragments()),
            targets@.map_values(|t: FixTarget| t.view()) == planned_targets(views, all, i as int),
        decreases findings@.len() - i,
    {
        let finding = &findings[i];
        proof {
            assert(views[i as int] == finding.view());
        }
        match finding.kind.visibility_reduction() {
            Some(replacement) => {
                let group = definitions.definitions(finding.definition);
                let ghost expected = with_identity(all, identity_of(*finding.definition));
                let ghost start = targets@.map_values(|t: FixTarget| t.view());
                let mut q: usize = 0;
                while q < group.len()
                    invariant
                        q <= group@.len(),
                        referenced(group@) == expected,
                        targets@.map_values(|t: FixTarget| t.view()) == start + expected.take(q as int).map_values(|d: Definition| fix_target_of(d, finding.kind, replacement)),
                    decreases group@.len() - q,
                {
                    let definition = group[q];
                    let span = match &definition.span {
                        Some(span) => Some(span.copy_span()),
                        None => None,
                    };
                    let target = FixTarget {
                        id: definition.id,
                        crate_name: definition.crate_name.clone(),
                        name: definition.name.clone(),
                        definition_kind: definition.kind,
                        span,
                        kind: finding.kind,
                        replacement,
                    };
                    let ghost before = targets@;
                    targets.push(target);
                    proof {
                        assert(expected[q as int] == *definition);
                        assert(target.view() == fix_target_of(*definition, finding.kind, replacement));
                        assert(expected.take(q + 1) =~= expected.take(q as int).push(*definition));
                        assert(targets@.map_values(|t: FixTarget| t.view()) =~= before.map_values(|t: FixTarget| t.view()).push(target.view()));
                        assert(expected.take(q + 1).map_values(|d: Definition| fix_target_of(d, finding.kind, replacement))
                            =~= expected.take(q as int).map_values(|d: Definition| fix_target_of(d, finding.kind, replacement)).push(fix_target_of(*definition, finding.kind, replacement)));
                    }
                    q = q + 1;
                }
                proof {
                    assert(expected.take(expected.len() as int) =~= expected);
                    assert(targets@.map_values(|t: FixTarget| t.view()) =~= planned_targets(views, all, i + 1));
                }
            },
            None => {
                proof {
                    assert(planned_targets(views, all, i + 1) =~= planned_targets(views, all, i as int));
                }
            },
        }
        i = i + 1;
    }
    proof {
        lemma_fix_edits_fit_their_findings(views, all, findings@.len() as int);
        assert forall|i: int| 0 <= i < targets@.len() implies edit_fits(#[trigger] targets@[i].kind, targets@[i].replacement) by {
            assert(targets@.map_values(|t: FixTarget| t.view())[i] == targets@[i].view());
            assert(planned_targets(views, all, findings@.len() as int)[i] == targets@[i].view());
        }
    }
    FixPlan { protocol_version: ProtocolVersion, targets }
}

/// How many times a (lint code, package) pair was emitted.
pub open spec fn occurrences(events: Seq<(Seq<char>, Seq<char>)>, event: (Seq<char>, Seq<char>)) -> nat
    decreases events.len(),
{
    if events.len() == 0 {
        0
    } else {
        occurrences(events.drop_last(), event) + if events.last() == event { 1nat } else { 0nat }
    }
}

/// The views of a tally: each lint code with its packages and counts.
pub open spec fn tally_views(counts: Seq<(String, Vec<(String, usize)>)>) -> Seq<(Seq<char>, Seq<(Seq<char>, nat)>)> {
    counts.map_values(
        |entry: (String, Vec<(String, usize)>)| (entry.0@, entry.1@.map_values(|count: (String, usize)| (count.0@, count.1 as nat))),
    )
}

/// Whether a tally counts the events: lint codes in increasing order, each with the packages
/// it was emitted for in increasing order, and how often.
pub open spec fn counts_events(tally: Seq<(Seq<char>, Seq<(Seq<char>, nat)>)>, events: Seq<(Seq<char>, Seq<char>)>) -> bool {
    &&& crate::sorted::increasing(tally.map_values(|entry: (Seq<char>, Seq<(Seq<char>, nat)>)| entry.0))
    &&& forall|code: Seq<char>| tally.map_values(|entry: (Seq<char>, Seq<(Seq<char>, nat)>)| entry.0).contains(code)
        <==> crate::catalog::has_crate(events, code)
    &&& forall|i: int| 0 <= i < tally.len() ==> {
        let packages = (#[trigger] tally[i]).1.map_values(|count: (Seq<char>, nat)| count.0);
        &&& crate::sorted::increasing(packages)
        &&& forall|package: Seq<char>| packages.contains(package) <==> crate::catalog::provides(events, tally[i].0, package)
        &&& forall|j: int| 0 <= j < tally[i].1.len() ==> (#[trigger] tally[i].1[j]).1 == occurrences(events, (tally[i].0, tally[i].1[j].0))
    }
}

fn count_occurrences(events: &Vec<(String, String)>, code: &str, package: &str) -> (count: usize)
    ensures
        count == occurrences(crate::catalog::pair_views(events@), (code@, package@)),
{
    let ghost views = crate::catalog::pair_views(events@);
    let mut count: usize = 0;
    let mut k: usize = 0;
    while k < events.len()
        invariant
            views == crate::catalog::pair_views(events@),
            k <= events@.len(),
            count == occurrences(views.take(k as int), (code@, package@)),
            count <= k,
        decreases events@.len() - k,
    {
        proof {
            assert(views.take(k + 1).drop_last() =~= views.take(k as int));
            assert(views.take(k + 1).last() == (events@[k as int].0@, events@[k as int].1@));
        }
        if crate::text::str_equals(events[k].0.as_str(), code) && crate::text::str_equals(events[k].1.as_str(), package) {
            count = count + 1;
        }
        k = k + 1;
    }
    proof {
        assert(views.take(events@.len() as int) =~= views);
    }
    count
}

/// Counts emitted diagnostics by lint code and package, both in increasing order.
pub fn tally_events(events: &Vec<(String, String)>) -> (tally: Vec<(String, Vec<(String, usize)>)>)
    ensures
        counts_events(tally_views(tally@), crate::catalog::pair_views(events@)),
{
    let ghost views = crate::catalog::pair_views(events@);
    let codes = crate::catalog::crates_of(events);
    let mut tally: Vec<(String, Vec<(String, usize)>)> = Vec::new();
    let mut k: usize = 0;
    while k < codes.len()
        invariant
            views == crate::catalog::pair_views(events@),
            k <= codes@.len(),
            tally@.len() == k,
            forall|i: int| 0 <= i < k ==> (#[trigger] tally_views(tally@)[i]).0 == codes@[i]@,
            forall|i: int| 0 <= i < k ==> {
                let entry = #[trigger] tally_views(tally@)[i];
                let packages = entry.1.map_values(|count: (Seq<char>, nat)| count.0);
                &&& crate::sorted::increasing(packages)
                &&& forall|package: Seq<char>| packages.contains(package) <==> crate::catalog::provides(views, entry.0, package)
                &&& forall|j: int| 0 <= j < entry.1.len() ==> (#[trigger] entry.1[j]).1 == occurrences(views, (entry.0, entry.1[j].0))
            },
        decreases codes@.len() - k,
    {
        let code = &codes[k];
        let packages = crate::catalog::packages_providing(events, code.as_str());
        let mut counted: Vec<(String, usize)> = Vec::new();
        let mut j: usize = 0;
        while j < packages.len()
            invariant
                views == crate::catalog::pair_views(events@),
                j <= packages@.len(),
                counted@.len() == j,
                forall|l: int| 0 <= l < j ==> (#[trigger] counted@[l]).0@ == packages@[l]@ && counted@[l].1 == occurrences(
                    views,
                    (code@, packages@[l]@),
                ),
            decreases packages@.len() - j,
        {
            let count = count_occurrences(events, code.as_str(), packages[j].as_str());
            counted.push((packages[j].clone(), count));
            j = j + 1;
        }
        let ghost before = tally@;
        tally.push((code.clone(), counted));
        proof {
            let entry = tally_views(tally@)[k as int];
            assert(entry.1.map_values(|count: (Seq<char>, nat)| count.0) =~= texts(packages@));
            assert forall|i: int| 0 <= i < k implies #[trigger] tally_views(tally@)[i] == tally_views(before)[i] by {
                assert(tally@[i] == before[i]);
            }
        }
        k = k + 1;
    }
    proof {
        let tv = tally_views(tally@);
        assert(tv.map_values(|entry: (Seq<char>, Seq<(Seq<char>, nat)>)| entry.0) =~= texts(codes@));
    }
    tally
}

} // verus!
