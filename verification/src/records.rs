//! The records of the machine-readable report: each finding, each configuration diagnostic and
//! the summary of a run, as plain values that only need serializing.

use vstd::prelude::*;
use vstd::string::StringSliceAdditionalSpecFns;
use vstd::string::StrSliceExecFns;
use crate::model::{finding_code, Definition, DeclarationSpan, Finding, Span};
use crate::lints::{severity_text, LintLevel};
use crate::report::{definition_kind_name, finding_kind_name, json_definition_kind, json_finding_kind, stable_finding_id, stable_id};
use crate::settings::{copy_texts, texts, Config, ExclusionSelector, LintOverride, DiagnosticExclusion};
use crate::suppression::{diagnostic_in, diagnostic_kind_of, diagnostic_reason, diagnostic_span, ConfigDiagnostic};
use crate::config::{config_code, FeatureProfile, ProductionProduct};
use crate::invocation::ProductionSelection;
use crate::render::shown_path;

verus! {

broadcast use vstd::string::group_string_axioms;

/// The version of the report's layout.
pub const REPORT_SCHEMA_VERSION: u64 = 5;

/// A position in a source file.
#[derive(Clone, Debug)]
pub struct PositionRecord {
    pub file: String,
    pub line: usize,
    pub column: usize,
}

/// Where a finding's definition is declared: its full declaration range when the compiler
/// reported one, else its position only.
#[derive(Clone, Debug)]
pub enum LocationRecord {
    Range {
        file: String,
        byte_start: usize,
        byte_end: usize,
        line: usize,
        column: usize,
        end_line: usize,
        end_column: usize,
    },
    Position(PositionRecord),
}

/// A finding as the report lists it.
#[derive(Clone, Debug)]
pub struct FindingRecord {
    pub code: String,
    pub severity: String,
    pub kind: String,
    pub id: String,
    pub compiler_id: String,
    pub package: Option<String>,
    pub crate_name: String,
    pub item: String,
    pub definition_kind: String,
    pub parent: Option<String>,
    pub module_scope: Vec<String>,
    pub location: Option<LocationRecord>,
    /// Where the macro that produced the definition is defined, and where it was invoked.
    pub expansion: Option<(PositionRecord, PositionRecord)>,
    pub test_only: bool,
    pub test_compiled_only: bool,
}

/// What a configuration diagnostic is about: an override's item, or an exclusion's selector.
#[derive(Clone, Debug)]
pub enum ConfigIdentityRecord {
    Override { crate_name: String, item: String, kind: Option<String> },
    Exclusion { crate_name: String, selector: String, value: String },
}

/// A configuration diagnostic as the report lists it.
#[derive(Clone, Debug)]
pub struct ConfigDiagnosticRecord {
    pub code: String,
    pub severity: String,
    pub lint: Option<String>,
    pub identity: ConfigIdentityRecord,
    pub location: PositionRecord,
    pub reason: String,
}

/// A production product of the summary.
#[derive(Clone, Debug)]
pub struct ProductionRecord {
    pub package: String,
    pub product: ProductionProduct,
}

/// The summary of a run.
#[derive(Clone, Debug)]
pub struct ReportSummary {
    pub diagnostic_count: usize,
    pub target: String,
    pub production: Vec<ProductionRecord>,
    pub feature_profiles: Vec<String>,
    pub includes_non_production_targets: bool,
}

/// Whether a record holds a source position.
pub open spec fn position_is(record: PositionRecord, span: Span) -> bool {
    &&& record.file@ == span.file@
    &&& record.line == span.line
    &&& record.column == span.column
}

/// Whether a record holds a full declaration range.
pub open spec fn range_is(record: LocationRecord, range: DeclarationSpan) -> bool {
    match record {
        LocationRecord::Range { file, byte_start, byte_end, line, column, end_line, end_column } => {
            &&& file@ == range.file@
            &&& byte_start == range.byte_start
            &&& byte_end == range.byte_end
            &&& line == range.start_line
            &&& column == range.start_column
            &&& end_line == range.end_line
            &&& end_column == range.end_column
        },
        LocationRecord::Position(_) => false,
    }
}

/// Where the report places a definition: the full declaration range when there is one, else
/// the file, line and column of its position, else nowhere.
pub open spec fn location_is(record: Option<LocationRecord>, definition: Definition) -> bool {
    match definition.declaration_span {
        Some(range) => match record {
            Some(location) => range_is(location, range),
            None => false,
        },
        None => match definition.span {
            Some(span) => match record {
                Some(LocationRecord::Position(position)) => position_is(position, span),
                _ => false,
            },
            None => record is None,
        },
    }
}

/// Whether the text has `::` starting at `i`.
pub open spec fn separator_at(name: Seq<char>, i: int) -> bool {
    0 <= i && i + 1 < name.len() && name[i] == ':' && name[i + 1] == ':'
}

/// The last start of `::` in `name` below `n`.
pub open spec fn last_separator_below(name: Seq<char>, n: int) -> Option<int>
    decreases n,
{
    if n <= 0 {
        None
    } else if separator_at(name, n - 1) {
        Some(n - 1)
    } else {
        last_separator_below(name, n - 1)
    }
}

/// The path of the item that contains a named item: the text before the last `::`.
pub open spec fn parent_path(name: Seq<char>) -> Option<Seq<char>> {
    match last_separator_below(name, name.len() as int) {
        Some(i) => Some(name.take(i)),
        None => None,
    }
}

/// A package name as a plain value.
pub open spec fn package_view(package: Option<&str>) -> Option<Seq<char>> {
    match package {
        Some(p) => Some(p@),
        None => None,
    }
}

/// An optional text as a plain value.
pub open spec fn text_view(text: Option<String>) -> Option<Seq<char>> {
    match text {
        Some(t) => Some(t@),
        None => None,
    }
}

/// Whether a record is how the report lists a finding reported at `level` in `package`.
pub open spec fn finding_record_is(record: FindingRecord, finding: Finding, level: LintLevel, package: Option<Seq<char>>) -> bool {
    let definition = *finding.definition;
    &&& record.code@ == finding_code(finding.kind)
    &&& record.severity@ == severity_text(level)
    &&& record.kind@ == finding_kind_name(finding.kind)
    &&& record.id@ == stable_id(definition, package)
    &&& record.compiler_id@ == crate::text::hex_digits(definition.id.stable_crate_id as nat, 16) + crate::text::hex_digits(
        definition.id.local_hash as nat,
        16,
    )
    &&& text_view(record.package) == package
    &&& record.crate_name@ == definition.crate_name@
    &&& record.item@ == definition.name@
    &&& record.definition_kind@ == definition_kind_name(definition.kind)
    &&& text_view(record.parent) == parent_path(definition.name@)
    &&& texts(record.module_scope@) == texts(definition.module_scope@)
    &&& location_is(record.location, definition)
    &&& match definition.expansion_span {
        Some(expansion) => match record.expansion {
            Some((at, from)) => position_is(at, expansion.definition) && position_is(from, expansion.callsite),
            None => false,
        },
        None => record.expansion is None,
    }
    &&& record.test_only == finding.test_only
    &&& record.test_compiled_only == finding.test_compiled_only
}

fn position_record(span: &Span) -> (record: PositionRecord)
    ensures
        position_is(record, *span),
{
    PositionRecord { file: span.file.clone(), line: span.line, column: span.column }
}

fn location_record(definition: &Definition) -> (record: Option<LocationRecord>)
    ensures
        location_is(record, *definition),
{
    match &definition.declaration_span {
        Some(range) => Some(
            LocationRecord::Range {
                file: range.file.clone(),
                byte_start: range.byte_start,
                byte_end: range.byte_end,
                line: range.start_line,
                column: range.start_column,
                end_line: range.end_line,
                end_column: range.end_column,
            },
        ),
        None => match &definition.span {
            Some(span) => Some(LocationRecord::Position(position_record(span))),
            None => None,
        },
    }
}

/// The text before the last `::` of a name, if it has one.
pub fn parent_of(name: &str) -> (parent: Option<String>)
    ensures
        text_view(parent) == parent_path(name@),
{
    let length = name.unicode_len();
    let mut n: usize = length;
    while n > 0
        invariant
            length == name@.len(),
            n <= length,
            last_separator_below(name@, length as int) == last_separator_below(name@, n as int),
        decreases n,
    {
        if n < length && name.get_char(n - 1) == ':' && name.get_char(n) == ':' {
            let parent = name.substring_char(0, n - 1);
            proof {
                assert(separator_at(name@, n - 1));
                assert(parent@ =~= name@.take(n - 1));
            }
            return Some(String::from_str(parent));
        }
        proof {
            assert(!separator_at(name@, n - 1));
        }
        n = n - 1;
    }
    None
}

/// How the report lists a finding reported at `level`, declared in `package`.
pub fn finding_record(finding: &Finding, level: LintLevel, package: Option<&str>) -> (record: FindingRecord)
    requires
        level != LintLevel::Allow,
    ensures
        finding_record_is(record, *finding, level, package_view(package)),
{
    let definition = finding.definition;
    let expansion = match &definition.expansion_span {
        Some(expansion) => Some((position_record(&expansion.definition), position_record(&expansion.callsite))),
        None => None,
    };
    let package_text = match package {
        Some(p) => Some(String::from_str(p)),
        None => None,
    };
    let id = stable_finding_id(definition, package);
    proof {
        assert(package_view(package) == (match package { Some(p) => Some(p@), None => None::<Seq<char>> }));
    }
    FindingRecord {
        code: String::from_str(finding.kind.code()),
        severity: String::from_str(level.severity()),
        kind: String::from_str(json_finding_kind(finding.kind)),
        id,
        compiler_id: definition.id.to_hex(),
        package: package_text,
        crate_name: definition.crate_name.clone(),
        item: definition.name.clone(),
        definition_kind: String::from_str(json_definition_kind(definition.kind)),
        parent: parent_of(definition.name.as_str()),
        module_scope: copy_texts(&definition.module_scope),
        location: location_record(definition),
        expansion,
        test_only: finding.test_only,
        test_compiled_only: finding.test_compiled_only,
    }
}

/// What a configuration diagnostic is about, as the report names it.
pub open spec fn config_identity_is(record: ConfigIdentityRecord, diagnostic: ConfigDiagnostic, config: Config) -> bool {
    match diagnostic {
        ConfigDiagnostic::UnfulfilledExclusion(i) => {
            let entry = config.exclusion_entries()[i as int];
            match record {
                ConfigIdentityRecord::Exclusion { crate_name, selector, value } => {
                    &&& crate_name@ == entry.crate_name@
                    &&& match entry.selector {
                        ExclusionSelector::Module(module) => selector@ == "module"@ && value@ == module@,
                        ExclusionSelector::File(file, _) => selector@ == "file"@ && value@ == file@,
                    }
                },
                ConfigIdentityRecord::Override { .. } => false,
            }
        },
        _ => {
            let i = match diagnostic {
                ConfigDiagnostic::UnknownItem(i) | ConfigDiagnostic::AmbiguousItem(i) | ConfigDiagnostic::UnfulfilledOverride(i) => i,
                ConfigDiagnostic::UnfulfilledExclusion(i) => i,
            };
            let entry = config.override_entries()[i as int];
            match record {
                ConfigIdentityRecord::Override { crate_name, item, kind } => {
                    &&& crate_name@ == entry.crate_name@
                    &&& item@ == entry.item@
                    &&& text_view(kind) == match entry.definition_kind {
                        Some(definition_kind) => Some(definition_kind_name(definition_kind)),
                        None => None,
                    }
                },
                ConfigIdentityRecord::Exclusion { .. } => false,
            }
        },
    }
}

/// The lint an override diagnostic is about; exclusion diagnostics name none.
pub open spec fn config_lint(diagnostic: ConfigDiagnostic, config: Config) -> Option<Seq<char>> {
    match diagnostic {
        ConfigDiagnostic::UnfulfilledExclusion(_) => None,
        ConfigDiagnostic::UnknownItem(i) | ConfigDiagnostic::AmbiguousItem(i) | ConfigDiagnostic::UnfulfilledOverride(i) => Some(
            finding_code(config.override_entries()[i as int].lint),
        ),
    }
}

/// Whether a record is how the report lists a configuration diagnostic reported at `level`,
/// with the configuration file shown relative to `workspace_root` when it lies inside it.
pub open spec fn config_diagnostic_record_is(
    record: ConfigDiagnosticRecord,
    diagnostic: ConfigDiagnostic,
    config: Config,
    workspace_root: Seq<char>,
    level: LintLevel,
) -> bool {
    &&& record.code@ == config_code(diagnostic_kind_of(diagnostic))
    &&& record.severity@ == severity_text(level)
    &&& text_view(record.lint) == config_lint(diagnostic, config)
    &&& config_identity_is(record.identity, diagnostic, config)
    &&& record.location.file@ == shown_path(config.path_text()->0, workspace_root)
    &&& record.location.line == diagnostic_span(diagnostic, &config).line
    &&& record.location.column == diagnostic_span(diagnostic, &config).column
    &&& record.reason@ == diagnostic_reason(diagnostic, &config)
}

fn override_identity(entry: &LintOverride) -> (record: ConfigIdentityRecord)
    ensures
        record matches ConfigIdentityRecord::Override { crate_name, item, kind } && crate_name@ == entry.crate_name@
            && item@ == entry.item@ && text_view(kind) == match entry.definition_kind {
            Some(definition_kind) => Some(definition_kind_name(definition_kind)),
            None => None,
        },
{
    let kind = match entry.definition_kind {
        Some(definition_kind) => Some(String::from_str(json_definition_kind(definition_kind))),
        None => None,
    };
    ConfigIdentityRecord::Override { crate_name: entry.crate_name.clone(), item: entry.item.clone(), kind }
}

fn exclusion_identity(entry: &DiagnosticExclusion) -> (record: ConfigIdentityRecord)
    ensures
        record matches ConfigIdentityRecord::Exclusion { crate_name, selector, value } && crate_name@ == entry.crate_name@
            && match entry.selector {
            ExclusionSelector::Module(module) => selector@ == "module"@ && value@ == module@,
            ExclusionSelector::File(file, _) => selector@ == "file"@ && value@ == file@,
        },
{
    let (selector, value) = match &entry.selector {
        ExclusionSelector::Module(module) => (String::from_str("module"), module.clone()),
        ExclusionSelector::File(file, _) => (String::from_str("file"), file.clone()),
    };
    ConfigIdentityRecord::Exclusion { crate_name: entry.crate_name.clone(), selector, value }
}

/// How the report lists a configuration diagnostic reported at `level`: the configuration file
/// is shown relative to `workspace_root` when it lies inside it.
pub fn config_diagnostic_record(diagnostic: ConfigDiagnostic, config: &Config, workspace_root: &str, level: LintLevel) -> (record: ConfigDiagnosticRecord)
    requires
        level != LintLevel::Allow,
        diagnostic_in(diagnostic, config),
        config.path_text() is Some,
    ensures
        config_diagnostic_record_is(record, diagnostic, *config, workspace_root@, level),
{
    let (lint, identity) = match diagnostic {
        ConfigDiagnostic::UnknownItem(i) | ConfigDiagnostic::AmbiguousItem(i) | ConfigDiagnostic::UnfulfilledOverride(i) => {
            let entry = &config.override_list()[i];
            (Some(String::from_str(entry.lint.code())), override_identity(entry))
        },
        ConfigDiagnostic::UnfulfilledExclusion(i) => {
            let entry = &config.exclusion_list()[i];
            (None, exclusion_identity(entry))
        },
    };
    let path = match config.path() {
        Some(path) => path,
        None => "",
    };
    let shown = crate::render::show_path(path, workspace_root);
    let span = diagnostic.span(config);
    ConfigDiagnosticRecord {
        code: String::from_str(diagnostic.kind().code()),
        severity: String::from_str(level.severity()),
        lint,
        identity,
        location: PositionRecord { file: shown, line: span.line, column: span.column },
        reason: String::from_str(diagnostic.reason(config)),
    }
}

/// Whether a summary record describes a run that reported `count` diagnostics for `target`,
/// with the production products and feature profiles it analyzed.
pub open spec fn report_summary_is(
    summary: ReportSummary,
    products: Seq<ProductionSelection>,
    profiles: Seq<FeatureProfile>,
    target: Seq<char>,
    count: usize,
) -> bool {
    &&& summary.diagnostic_count == count
    &&& summary.target@ == target
    &&& summary.production@.len() == products.len()
    &&& forall|k: int| 0 <= k < products.len() ==> #[trigger] production_record_is(summary.production@[k], products[k])
    &&& texts(summary.feature_profiles@) == profiles.map_values(|profile: FeatureProfile| profile.name@)
    &&& summary.includes_non_production_targets
}

/// Whether a record names a production product.
pub open spec fn production_record_is(record: ProductionRecord, product: ProductionSelection) -> bool {
    &&& record.package@ == product.package@
    &&& match (record.product, *product.product) {
        (ProductionProduct::Binary(a), ProductionProduct::Binary(b)) => a@ == b@,
        (ProductionProduct::Library(a), ProductionProduct::Library(b)) => a@ == b@,
        _ => false,
    }
}

/// The summary of a run that reported `count` diagnostics for `target`.
pub fn report_summary(products: &[ProductionSelection], profiles: &[FeatureProfile], target: &str, count: usize) -> (summary: ReportSummary)
    ensures
        report_summary_is(summary, products@, profiles@, target@, count),
{
    let mut production: Vec<ProductionRecord> = Vec::new();
    let mut k: usize = 0;
    while k < products.len()
        invariant
            k <= products@.len(),
            production@.len() == k,
            forall|j: int| 0 <= j < k ==> #[trigger] production_record_is(production@[j], products@[j]),
        decreases products@.len() - k,
    {
        let product = match products[k].product {
            ProductionProduct::Binary(name) => ProductionProduct::Binary(name.clone()),
            ProductionProduct::Library(name) => ProductionProduct::Library(name.clone()),
        };
        production.push(ProductionRecord { package: String::from_str(products[k].package), product });
        k = k + 1;
    }
    let mut names: Vec<String> = Vec::new();
    let mut k: usize = 0;
    while k < profiles.len()
        invariant
            k <= profiles@.len(),
            texts(names@) == profiles@.take(k as int).map_values(|profile: FeatureProfile| profile.name@),
        decreases profiles@.len() - k,
    {
        let ghost before = names@;
        let name = profiles[k].name.clone();
        names.push(name);
        proof {
            assert(names@ == before.push(name));
            assert(texts(names@) =~= texts(before).push(name@));
            assert(name@ == profiles@[k as int].name@);
            assert(profiles@.take(k + 1).drop_last() =~= profiles@.take(k as int));
            assert(texts(names@) =~= profiles@.take(k + 1).map_values(|profile: FeatureProfile| profile.name@));
        }
        k = k + 1;
    }
    proof {
        assert(profiles@.take(profiles@.len() as int) =~= profiles@);
    }
    ReportSummary {
        diagnostic_count: count,
        target: String::from_str(target),
        production,
        feature_profiles: names,
        includes_non_production_targets: true,
    }
}

} // verus!
