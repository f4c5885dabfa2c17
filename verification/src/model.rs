//! The data model exchanged between the compiler driver and the analysis.

use vstd::prelude::*;
use crate::text::str_equals;

verus! {

/// The version marker carried by every serialized fragment and fix plan.
#[derive(Clone, Copy, Debug, PartialEq, Eq, Structural)]
pub struct ProtocolVersion;

/// The kind of a configured production target.
#[derive(Clone, Copy, Debug, PartialEq, Eq, Structural, Hash)]
pub enum ProductionTargetKind {
    Binary,
    Library,
}

/// Collection switches handed from the frontend to the compiler driver.
#[derive(Clone, Copy, Debug, PartialEq, Eq, Structural)]
pub struct CollectionOptions {
    pub preserve_uniform_field_visibility: bool,
    pub collect_declaration_spans: bool,
}

/// The option value that names the default collection switches.
pub open spec fn env_default() -> Seq<char> {
    "default"@
}

pub open spec fn env_preserve() -> Seq<char> {
    "preserve-uniform-field-visibility"@
}

pub open spec fn env_collect() -> Seq<char> {
    "collect-declaration-spans"@
}

pub open spec fn env_preserve_and_collect() -> Seq<char> {
    "preserve-uniform-field-visibility,collect-declaration-spans"@
}

/// The collection switches with the given values.
pub open spec fn options_of(preserve: bool, collect: bool) -> CollectionOptions {
    CollectionOptions { preserve_uniform_field_visibility: preserve, collect_declaration_spans: collect }
}

/// The switches that an option value names, if it names any.
pub open spec fn options_from_text(text: Seq<char>) -> Option<CollectionOptions> {
    if text == env_default() {
        Some(options_of(false, false))
    } else if text == env_preserve() {
        Some(options_of(true, false))
    } else if text == env_collect() {
        Some(options_of(false, true))
    } else if text == env_preserve_and_collect() {
        Some(options_of(true, true))
    } else {
        None
    }
}

/// The environment value that encodes a pair of collection switches.
pub open spec fn env_value_of(preserve: bool, collect: bool) -> Seq<char> {
    match (preserve, collect) {
        (false, false) => env_default(),
        (true, false) => env_preserve(),
        (false, true) => env_collect(),
        (true, true) => env_preserve_and_collect(),
    }
}

impl CollectionOptions {
    pub fn new(preserve_uniform_field_visibility: bool) -> (options: Self)
        ensures
            options == options_of(preserve_uniform_field_visibility, false),
    {
        CollectionOptions { preserve_uniform_field_visibility, collect_declaration_spans: false }
    }

    /// The collection switches in effect when nothing was configured.
    pub fn default_options() -> (options: Self)
        ensures
            options == options_of(false, false),
    {
        CollectionOptions { preserve_uniform_field_visibility: false, collect_declaration_spans: false }
    }

    pub fn preserve_uniform_field_visibility(self) -> (preserve: bool)
        ensures
            preserve == self.preserve_uniform_field_visibility,
    {
        self.preserve_uniform_field_visibility
    }

    pub fn with_declaration_spans(self) -> (options: Self)
        ensures
            options == options_of(self.preserve_uniform_field_visibility, true),
    {
        CollectionOptions { collect_declaration_spans: true, ..self }
    }

    pub fn collect_declaration_spans(self) -> (collect: bool)
        ensures
            collect == self.collect_declaration_spans,
    {
        self.collect_declaration_spans
    }

    pub fn as_env_value(self) -> (value: &'static str)
        ensures
            value@ == env_value_of(
                self.preserve_uniform_field_visibility,
                self.collect_declaration_spans,
            ),
    {
        match (self.preserve_uniform_field_visibility, self.collect_declaration_spans) {
            (false, false) => "default",
            (true, false) => "preserve-uniform-field-visibility",
            (false, true) => "collect-declaration-spans",
            (true, true) => "preserve-uniform-field-visibility,collect-declaration-spans",
        }
    }

    /// Decodes the driver's option value; an absent value selects the defaults.
    pub fn from_env_value(value: Option<&str>) -> (options: Option<Self>)
        ensures
            value is None ==> options == Some(options_of(false, false)),
            value matches Some(text) ==> options == options_from_text(text@),
    {
        match value {
            None => Some(Self::default_options()),
            Some(text) => {
                if str_equals(text, "default") {
                    Some(Self::default_options())
                } else if str_equals(text, "preserve-uniform-field-visibility") {
                    Some(Self::new(true))
                } else if str_equals(text, "collect-declaration-spans") {
                    Some(Self::default_options().with_declaration_spans())
                } else if str_equals(
                    text,
                    "preserve-uniform-field-visibility,collect-declaration-spans",
                ) {
                    Some(Self::new(true).with_declaration_spans())
                } else {
                    None
                }
            },
        }
    }
}

/// Decoding the option value that encodes a pair of switches gives back the same switches.
pub proof fn lemma_env_value_round_trip(preserve: bool, collect: bool)
    ensures
        options_from_text(env_value_of(preserve, collect)) == Some(options_of(preserve, collect)),
{
    reveal_strlit("default");
    reveal_strlit("preserve-uniform-field-visibility");
    reveal_strlit("collect-declaration-spans");
    reveal_strlit("preserve-uniform-field-visibility,collect-declaration-spans");
    assert("default"@.len() != "preserve-uniform-field-visibility"@.len());
    assert("default"@.len() != "collect-declaration-spans"@.len());
    assert("default"@.len() != "preserve-uniform-field-visibility,collect-declaration-spans"@.len());
    assert("preserve-uniform-field-visibility"@.len() != "collect-declaration-spans"@.len());
    assert("preserve-uniform-field-visibility"@.len()
        != "preserve-uniform-field-visibility,collect-declaration-spans"@.len());
    assert("collect-declaration-spans"@.len()
        != "preserve-uniform-field-visibility,collect-declaration-spans"@.len());
}

/// A compact, stable identity for a compiler definition.
#[derive(Clone, Copy, Debug, PartialEq, Eq, Structural, Hash, PartialOrd, Ord)]
pub struct DefinitionId {
    pub stable_crate_id: u64,
    pub local_hash: u64,
}

impl DefinitionId {
    pub fn new(stable_crate_id: u64, local_hash: u64) -> (id: Self)
        ensures
            id.stable_crate_id == stable_crate_id,
            id.local_hash == local_hash,
    {
        DefinitionId { stable_crate_id, local_hash }
    }

    /// The pair of words that identifies the definition.
    pub open spec fn key(self) -> (u64, u64) {
        (self.stable_crate_id, self.local_hash)
    }

    /// The id as thirty-two hexadecimal digits: the crate's sixteen, then the hash's.
    pub fn to_hex(&self) -> (text: String)
        ensures
            text@ == crate::text::hex_digits(self.stable_crate_id as nat, 16) + crate::text::hex_digits(self.local_hash as nat, 16),
    {
        let mut text = String::new();
        crate::text::push_hex(&mut text, self.stable_crate_id, 16);
        crate::text::push_hex(&mut text, self.local_hash, 16);
        text
    }
}

#[derive(Clone, Copy, Debug, PartialEq, Eq, Structural, Hash)]
pub enum EdgeKind {
    Body,
    Interface,
    Reexport,
    VisibilityParent,
    VisibilityRequirement,
}

#[derive(Clone, Copy, Debug, PartialEq, Eq, Structural, Hash, PartialOrd, Ord)]
pub enum DefinitionKind {
    Function,
    InherentMethod,
    InherentAssociatedConstant,
    Trait,
    Struct,
    Enum,
    Union,
    TypeAlias,
    Constant,
    Static,
    Field,
    EnumVariant,
    Reexport,
    Module,
    Other,
}

#[derive(Clone, Debug, PartialEq, Eq, Hash)]
pub struct Span {
    pub file: String,
    pub line: usize,
    pub column: usize,
}

/// A complete source declaration range with zero-based UTF-8 offsets and one-based positions.
#[derive(Clone, Debug, PartialEq, Eq, Hash)]
pub struct DeclarationSpan {
    pub file: String,
    pub byte_start: usize,
    pub byte_end: usize,
    pub start_line: usize,
    pub start_column: usize,
    pub end_line: usize,
    pub end_column: usize,
}

#[derive(Clone, Debug, PartialEq, Eq, Hash)]
pub struct ExpansionSpan {
    pub definition: Span,
    pub callsite: Span,
}

#[derive(Clone, Debug)]
pub struct UniformFieldGroup {
    pub span: Span,
    pub all_fields_observed: bool,
}

#[derive(Clone, Debug)]
pub struct Definition {
    pub id: DefinitionId,
    pub crate_name: String,
    pub name: String,
    pub kind: DefinitionKind,
    pub span: Option<Span>,
    pub declaration_span: Option<DeclarationSpan>,
    pub expansion_span: Option<ExpansionSpan>,
    pub public_api: bool,
    pub restricted_visible_api: bool,
    pub crate_visible_api: bool,
    pub visible_reexport_api: bool,
    pub module_scope: Vec<String>,
    pub uniform_field_group: Option<UniformFieldGroup>,
    pub dead_code_allowed: bool,
}

#[derive(Clone, Debug)]
pub struct Edge {
    pub from: DefinitionId,
    pub to: DefinitionId,
    pub kind: EdgeKind,
}

/// The reference graph that one compiler invocation emits.
#[derive(Clone, Debug)]
pub struct Fragment {
    pub protocol_version: ProtocolVersion,
    pub package_name: String,
    pub crate_name: String,
    pub compilation_target: String,
    pub crate_id: DefinitionId,
    pub crate_root: Option<String>,
    pub is_product_root: bool,
    pub product_root_kind: Option<ProductionTargetKind>,
    pub test_surface: bool,
    pub non_production_consumer: bool,
    pub definitions: Vec<Definition>,
    pub edges: Vec<Edge>,
    pub roots: Vec<DefinitionId>,
    pub conservative_roots: Vec<DefinitionId>,
    pub required_public_roots: Vec<DefinitionId>,
}

#[derive(Clone, Copy, Debug, PartialEq, Eq, Structural, Hash, PartialOrd, Ord)]
pub enum FindingKind {
    DeadPublic,
    UnnecessaryPublic,
    UnnecessaryRestrictedVisibility,
    UnnecessaryCrateVisibility,
    TestOnly,
}

#[derive(Clone, Copy, Debug, PartialEq, Eq, Structural, Hash)]
pub enum VisibilityReduction {
    Crate,
    Super,
    Private,
}

#[derive(Clone, Debug)]
pub struct FixTarget {
    pub id: DefinitionId,
    pub crate_name: String,
    pub name: String,
    pub definition_kind: DefinitionKind,
    pub span: Option<Span>,
    pub kind: FindingKind,
    pub replacement: VisibilityReduction,
}

#[derive(Clone, Debug)]
pub struct FixPlan {
    pub protocol_version: ProtocolVersion,
    pub targets: Vec<FixTarget>,
}

/// The source text that replaces a visibility modifier.
pub open spec fn replacement_text(reduction: VisibilityReduction) -> Seq<char> {
    match reduction {
        VisibilityReduction::Crate => "pub(crate)"@,
        VisibilityReduction::Super => "pub(super)"@,
        VisibilityReduction::Private => ""@,
    }
}

impl VisibilityReduction {
    pub fn replacement(self) -> (text: &'static str)
        ensures
            text@ == replacement_text(self),
    {
        match self {
            VisibilityReduction::Crate => "pub(crate)",
            VisibilityReduction::Super => "pub(super)",
            VisibilityReduction::Private => "",
        }
    }
}

/// The lint code under which a finding is reported.
pub open spec fn finding_code(kind: FindingKind) -> Seq<char> {
    match kind {
        FindingKind::DeadPublic => "hawk::dead_public"@,
        FindingKind::UnnecessaryPublic => "hawk::unnecessary_public"@,
        FindingKind::UnnecessaryRestrictedVisibility => "hawk::unnecessary_restricted_visibility"@,
        FindingKind::UnnecessaryCrateVisibility => "hawk::unnecessary_crate_visibility"@,
        FindingKind::TestOnly => "hawk::test_only"@,
    }
}

/// The finding kind whose lint code is `code`, if any.
pub open spec fn finding_kind_of_code(code: Seq<char>) -> Option<FindingKind> {
    if code == "hawk::dead_public"@ {
        Some(FindingKind::DeadPublic)
    } else if code == "hawk::unnecessary_public"@ {
        Some(FindingKind::UnnecessaryPublic)
    } else if code == "hawk::unnecessary_restricted_visibility"@ {
        Some(FindingKind::UnnecessaryRestrictedVisibility)
    } else if code == "hawk::unnecessary_crate_visibility"@ {
        Some(FindingKind::UnnecessaryCrateVisibility)
    } else if code == "hawk::test_only"@ {
        Some(FindingKind::TestOnly)
    } else {
        None
    }
}

/// The visibility edit that a finding proposes, if it proposes one.
pub open spec fn reduction_of(kind: FindingKind) -> Option<VisibilityReduction> {
    match kind {
        FindingKind::DeadPublic | FindingKind::TestOnly => None,
        FindingKind::UnnecessaryPublic => Some(VisibilityReduction::Crate),
        FindingKind::UnnecessaryRestrictedVisibility => Some(VisibilityReduction::Private),
        FindingKind::UnnecessaryCrateVisibility => Some(VisibilityReduction::Super),
    }
}

impl FindingKind {
    pub fn code(self) -> (code: &'static str)
        ensures
            code@ == finding_code(self),
    {
        match self {
            FindingKind::DeadPublic => "hawk::dead_public",
            FindingKind::UnnecessaryPublic => "hawk::unnecessary_public",
            FindingKind::UnnecessaryRestrictedVisibility => "hawk::unnecessary_restricted_visibility",
            FindingKind::UnnecessaryCrateVisibility => "hawk::unnecessary_crate_visibility",
            FindingKind::TestOnly => "hawk::test_only",
        }
    }

    pub fn from_code(code: &str) -> (kind: Option<Self>)
        ensures
            kind == finding_kind_of_code(code@),
    {
        if str_equals(code, "hawk::dead_public") {
            Some(FindingKind::DeadPublic)
        } else if str_equals(code, "hawk::unnecessary_public") {
            Some(FindingKind::UnnecessaryPublic)
        } else if str_equals(code, "hawk::unnecessary_restricted_visibility") {
            Some(FindingKind::UnnecessaryRestrictedVisibility)
        } else if str_equals(code, "hawk::unnecessary_crate_visibility") {
            Some(FindingKind::UnnecessaryCrateVisibility)
        } else if str_equals(code, "hawk::test_only") {
            Some(FindingKind::TestOnly)
        } else {
            None
        }
    }

    pub fn visibility_reduction(self) -> (reduction: Option<VisibilityReduction>)
        ensures
            reduction == reduction_of(self),
    {
        match self {
            FindingKind::DeadPublic | FindingKind::TestOnly => None,
            FindingKind::UnnecessaryPublic => Some(VisibilityReduction::Crate),
            FindingKind::UnnecessaryRestrictedVisibility => Some(VisibilityReduction::Private),
            FindingKind::UnnecessaryCrateVisibility => Some(VisibilityReduction::Super),
        }
    }
}

/// Reading back the lint code of a finding kind gives the same kind.
pub proof fn lemma_finding_code_round_trip(kind: FindingKind)
    ensures
        finding_kind_of_code(finding_code(kind)) == Some(kind),
{
    reveal_strlit("hawk::dead_public");
    reveal_strlit("hawk::unnecessary_public");
    reveal_strlit("hawk::unnecessary_restricted_visibility");
    reveal_strlit("hawk::unnecessary_crate_visibility");
    reveal_strlit("hawk::test_only");
    assert("hawk::dead_public"@[6] != "hawk::unnecessary_public"@[6]);
    assert("hawk::dead_public"@[6] != "hawk::test_only"@[6]);
    assert("hawk::unnecessary_public"@[6] != "hawk::test_only"@[6]);
    assert("hawk::unnecessary_public"@.len() != "hawk::unnecessary_restricted_visibility"@.len());
    assert("hawk::unnecessary_public"@.len() != "hawk::unnecessary_crate_visibility"@.len());
    assert("hawk::dead_public"@.len() != "hawk::unnecessary_restricted_visibility"@.len());
    assert("hawk::dead_public"@.len() != "hawk::unnecessary_crate_visibility"@.len());
    assert("hawk::test_only"@.len() != "hawk::unnecessary_restricted_visibility"@.len());
    assert("hawk::test_only"@.len() != "hawk::unnecessary_crate_visibility"@.len());
    assert("hawk::unnecessary_restricted_visibility"@.len() != "hawk::unnecessary_crate_visibility"@.len());
}

/// A finding: a declaration whose visibility is wider than its compiled uses require.
#[derive(Clone, Debug)]
pub struct Finding<'a> {
    pub kind: FindingKind,
    pub definition: &'a Definition,
    pub test_only: bool,
    pub test_compiled_only: bool,
}

impl Span {
    /// A copy of this span.
    pub fn copy_span(&self) -> (copy: Span)
        ensures
            copy.file@ == self.file@,
            copy.line == self.line,
            copy.column == self.column,
    {
        Span { file: self.file.clone(), line: self.line, column: self.column }
    }
}

/// A proposed visibility edit as plain values.
pub struct FixTargetView {
    pub id: DefinitionId,
    pub crate_name: Seq<char>,
    pub name: Seq<char>,
    pub definition_kind: DefinitionKind,
    pub position: Option<(Seq<char>, usize, usize)>,
    pub kind: FindingKind,
    pub replacement: VisibilityReduction,
}

impl FixTarget {
    pub open spec fn view(&self) -> FixTargetView {
        FixTargetView {
            id: self.id,
            crate_name: self.crate_name@,
            name: self.name@,
            definition_kind: self.definition_kind,
            position: position_of(self.span),
            kind: self.kind,
            replacement: self.replacement,
        }
    }
}

/// A finding as plain values.
pub struct FindingView {
    pub kind: FindingKind,
    pub definition: Definition,
    pub test_only: bool,
    pub test_compiled_only: bool,
}

impl<'a> Finding<'a> {
    /// A copy of this finding, referring to the same definition.
    pub fn clone_finding(&self) -> (copy: Finding<'a>)
        ensures
            copy.view() == self.view(),
            copy.definition == self.definition,
    {
        Finding { kind: self.kind, definition: self.definition, test_only: self.test_only, test_compiled_only: self.test_compiled_only }
    }

    pub open spec fn view(&self) -> FindingView {
        FindingView {
            kind: self.kind,
            definition: *self.definition,
            test_only: self.test_only,
            test_compiled_only: self.test_compiled_only,
        }
    }
}

/// The findings of a sequence, as plain values.
pub open spec fn finding_views<'a>(findings: Seq<Finding<'a>>) -> Seq<FindingView> {
    findings.map_values(|finding: Finding<'a>| finding.view())
}

/// The identity of a source declaration: its crate, path, kind, and source position.
#[derive(Clone, Copy, Debug, PartialEq, Eq, Hash)]
pub struct DefinitionIdentity<'a> {
    pub crate_name: &'a str,
    pub name: &'a str,
    pub kind: DefinitionKind,
    pub file: Option<&'a str>,
    pub line: Option<usize>,
    pub column: Option<usize>,
}

/// The identity of a declaration as plain values.
pub struct IdentityView {
    pub crate_name: Seq<char>,
    pub name: Seq<char>,
    pub kind: DefinitionKind,
    pub position: Option<(Seq<char>, usize, usize)>,
}

/// The source position of an optional span.
pub open spec fn position_of(span: Option<Span>) -> Option<(Seq<char>, usize, usize)> {
    match span {
        Some(span) => Some((span.file@, span.line, span.column)),
        None => None,
    }
}

/// The identity of a definition as plain values.
pub open spec fn identity_of(definition: Definition) -> IdentityView {
    IdentityView {
        crate_name: definition.crate_name@,
        name: definition.name@,
        kind: definition.kind,
        position: position_of(definition.span),
    }
}

impl<'a> DefinitionIdentity<'a> {
    pub open spec fn view(self) -> IdentityView {
        IdentityView {
            crate_name: self.crate_name@,
            name: self.name@,
            kind: self.kind,
            position: match (self.file, self.line, self.column) {
                (Some(file), Some(line), Some(column)) => Some((file@, line, column)),
                _ => None,
            },
        }
    }

    pub fn new(
        crate_name: &'a str,
        name: &'a str,
        kind: DefinitionKind,
        span: Option<&'a Span>,
    ) -> (identity: Self)
        ensures
            identity.crate_name@ == crate_name@,
            identity.name@ == name@,
            identity.kind == kind,
            identity.view().position == position_of(match span {
                Some(span) => Some(*span),
                None => None,
            }),
            span is None ==> identity.file is None && identity.line is None && identity.column is None,
    {
        match span {
            Some(span) => DefinitionIdentity {
                crate_name,
                name,
                kind,
                file: Some(span.file.as_str()),
                line: Some(span.line),
                column: Some(span.column),
            },
            None => DefinitionIdentity { crate_name, name, kind, file: None, line: None, column: None },
        }
    }
}

} // verus!
