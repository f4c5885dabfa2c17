use hawk_graph::report::{definition_packages, json_definition_kind, json_finding_kind, stable_finding_id, tally_events};
use hawk_graph::records::{finding_record, parent_of, report_summary, LocationRecord};
use hawk_graph::config::{FeatureProfile, ProductionProduct};
use hawk_graph::invocation::ProductionSelection;
use hawk_graph::lints::LintLevel;
use hawk_graph::{DeclarationSpan, ExpansionSpan, Finding, Span};
use hawk_graph::{Definition, DefinitionId, DefinitionKind, FindingKind, Fragment, ProtocolVersion};
use std::collections::HashSet;

fn test_id(value: &str) -> DefinitionId {
    let hash = value.bytes().fold(0xcbf2_9ce4_8422_2325_u64, |hash, byte| {
        (hash ^ u64::from(byte)).wrapping_mul(0x0100_0000_01b3)
    });
    DefinitionId::new(0, hash)
}

fn library_definition(id: &str, name: &str) -> Definition {
    Definition {
        id: test_id(id),
        crate_name: "renamed_library".into(),
        name: name.into(),
        kind: DefinitionKind::Function,
        span: None,
        declaration_span: None,
        expansion_span: None,
        public_api: true,
        restricted_visible_api: false,
        crate_visible_api: false,
        visible_reexport_api: false,
        module_scope: vec![],
        uniform_field_group: None,
        dead_code_allowed: false,
    }
}

fn package_fragment(package_name: &str, definitions: Vec<Definition>) -> Fragment {
    Fragment {
        protocol_version: ProtocolVersion,
        package_name: package_name.into(),
        crate_name: "renamed_library".into(),
        compilation_target: "aarch64-apple-darwin".into(),
        crate_id: test_id(package_name),
        crate_root: None,
        is_product_root: false,
        product_root_kind: None,
        test_surface: false,
        non_production_consumer: false,
        definitions,
        edges: vec![],
        roots: vec![],
        conservative_roots: vec![],
        required_public_roots: vec![],
    }
}

#[test]
fn definition_packages_only_indexes_emitted_findings() {
    let definition = library_definition;
    let fragment = package_fragment;
    let production = vec![fragment(
        "library-package",
        vec![
            definition("production-emitted", "production_emitted"),
            definition("production-suppressed", "production_suppressed"),
        ],
    )];
    let tests = vec![fragment(
        "test-package",
        vec![
            definition("test-emitted", "test_emitted"),
            definition("test-suppressed", "test_suppressed"),
        ],
    )];
    let emitted_finding_ids =
        HashSet::from([test_id("production-emitted"), test_id("test-emitted")]);

    let packages = definition_packages(&production, &tests, &emitted_finding_ids);

    assert_eq!(packages.len(), 2);
    assert_eq!(
        packages.get(&test_id("production-emitted")),
        Some(&"library-package")
    );
    assert_eq!(
        packages.get(&test_id("test-emitted")),
        Some(&"test-package")
    );
    assert!(!packages.contains_key(&test_id("production-suppressed")));
    assert!(!packages.contains_key(&test_id("test-suppressed")));
    assert!(definition_packages(&production, &tests, &HashSet::new()).is_empty());
}

#[test]
fn json_schema_uses_stable_kind_names() {
    assert_eq!(json_finding_kind(FindingKind::DeadPublic), "dead_public");
    assert_eq!(
        json_finding_kind(FindingKind::UnnecessaryPublic),
        "unnecessary_public"
    );
    assert_eq!(
        json_finding_kind(FindingKind::UnnecessaryRestrictedVisibility),
        "unnecessary_restricted_visibility"
    );
    assert_eq!(
        json_finding_kind(FindingKind::UnnecessaryCrateVisibility),
        "unnecessary_crate_visibility"
    );
    assert_eq!(json_finding_kind(FindingKind::TestOnly), "test_only");

    for (kind, expected) in [
        (DefinitionKind::Function, "function"),
        (DefinitionKind::InherentMethod, "inherent_method"),
        (
            DefinitionKind::InherentAssociatedConstant,
            "inherent_associated_constant",
        ),
        (DefinitionKind::Trait, "trait"),
        (DefinitionKind::Struct, "struct"),
        (DefinitionKind::Enum, "enum"),
        (DefinitionKind::Union, "union"),
        (DefinitionKind::TypeAlias, "type_alias"),
        (DefinitionKind::Constant, "constant"),
        (DefinitionKind::Static, "static"),
        (DefinitionKind::Field, "field"),
        (DefinitionKind::EnumVariant, "enum_variant"),
        (DefinitionKind::Reexport, "reexport"),
        (DefinitionKind::Module, "module"),
        (DefinitionKind::Other, "other"),
    ] {
        assert_eq!(json_definition_kind(kind), expected);
    }
}

#[test]
fn stable_finding_ids_are_length_prefixed_and_target_independent() {
    let mut definition = library_definition("compiled-on-linux", "api::run");
    definition.span = Some(Span { file: "src/api.rs".into(), line: 12, column: 5 });

    let id = stable_finding_id(&definition, Some("library-package"));
    assert_eq!(
        id,
        "v1|15:library-package|15:renamed_library|8:api::run|8:function|6:source|10:src/api.rs|12|5"
    );

    let mut other_target = definition.clone();
    other_target.id = test_id("compiled-on-macos");
    assert_eq!(stable_finding_id(&other_target, Some("library-package")), id);

    let mut cfg_alternative = definition.clone();
    cfg_alternative.span = Some(Span { file: "src/api.rs".into(), line: 20, column: 5 });
    assert_ne!(stable_finding_id(&cfg_alternative, Some("library-package")), id);

    let mut unicode = definition.clone();
    unicode.name = "é".into();
    assert!(stable_finding_id(&unicode, None).contains("|0:|15:renamed_library|2:é|"));
}

#[test]
fn diagnostic_tallies_count_by_lint_and_package_in_order() {
    let events: Vec<(String, String)> = [
        ("hawk::unnecessary_public", "zeta"),
        ("hawk::dead_public", "beta"),
        ("hawk::unnecessary_public", "alpha"),
        ("hawk::dead_public", "beta"),
        ("hawk::unnecessary_public", "zeta"),
    ]
    .iter()
    .map(|(code, package)| ((*code).to_owned(), (*package).to_owned()))
    .collect();

    assert_eq!(
        tally_events(&events),
        vec![
            ("hawk::dead_public".to_owned(), vec![("beta".to_owned(), 2)]),
            (
                "hawk::unnecessary_public".to_owned(),
                vec![("alpha".to_owned(), 1), ("zeta".to_owned(), 2)]
            ),
        ]
    );
    assert!(tally_events(&Vec::new()).is_empty());
}

#[test]
fn json_locations_prefer_the_declaration_range() {
    let mut definition = library_definition("item", "outer::inner::item");
    definition.span = Some(Span { file: "src/lib.rs".into(), line: 3, column: 5 });
    definition.declaration_span = Some(DeclarationSpan {
        file: "src/lib.rs".into(),
        byte_start: 10,
        byte_end: 42,
        start_line: 3,
        start_column: 1,
        end_line: 5,
        end_column: 2,
    });
    definition.expansion_span = Some(ExpansionSpan {
        definition: Span { file: "src/macros.rs".into(), line: 1, column: 1 },
        callsite: Span { file: "src/lib.rs".into(), line: 2, column: 9 },
    });
    definition.module_scope = vec!["outer".into(), "inner".into()];
    let finding = Finding { kind: FindingKind::DeadPublic, definition: &definition, test_only: false, test_compiled_only: true };
    let record = finding_record(&finding, LintLevel::Deny, Some("library"));

    assert_eq!(record.code, "hawk::dead_public");
    assert_eq!(record.severity, "error");
    assert_eq!(record.kind, "dead_public");
    assert_eq!(record.id, stable_finding_id(&definition, Some("library")));
    assert_eq!(record.compiler_id, definition.id.to_hex());
    assert_eq!(record.package.as_deref(), Some("library"));
    assert_eq!(record.crate_name, "renamed_library");
    assert_eq!(record.item, "outer::inner::item");
    assert_eq!(record.definition_kind, "function");
    assert_eq!(record.parent.as_deref(), Some("outer::inner"));
    assert_eq!(record.module_scope, vec!["outer".to_owned(), "inner".to_owned()]);
    match record.location {
        Some(LocationRecord::Range { file, byte_start, byte_end, line, column, end_line, end_column }) => {
            assert_eq!((file.as_str(), byte_start, byte_end, line, column, end_line, end_column), ("src/lib.rs", 10, 42, 3, 1, 5, 2));
        }
        other => panic!("expected the declaration range, got {other:?}"),
    }
    let (at, from) = record.expansion.expect("expansion");
    assert_eq!((at.file.as_str(), at.line, at.column), ("src/macros.rs", 1, 1));
    assert_eq!((from.file.as_str(), from.line, from.column), ("src/lib.rs", 2, 9));
    assert!(!record.test_only);
    assert!(record.test_compiled_only);

    definition.declaration_span = None;
    let finding = Finding { kind: FindingKind::TestOnly, definition: &definition, test_only: true, test_compiled_only: false };
    let record = finding_record(&finding, LintLevel::Warn, None);
    assert_eq!(record.severity, "warning");
    assert_eq!(record.package, None);
    match record.location {
        Some(LocationRecord::Position(position)) => {
            assert_eq!((position.file.as_str(), position.line, position.column), ("src/lib.rs", 3, 5));
        }
        other => panic!("expected the position only, got {other:?}"),
    }

    definition.span = None;
    let finding = Finding { kind: FindingKind::TestOnly, definition: &definition, test_only: true, test_compiled_only: false };
    assert!(finding_record(&finding, LintLevel::Warn, None).location.is_none());
}

#[test]
fn parents_are_the_text_before_the_last_path_separator() {
    assert_eq!(parent_of("a::b::c").as_deref(), Some("a::b"));
    assert_eq!(parent_of("top").as_deref(), None);
    assert_eq!(parent_of("a:::b").as_deref(), Some("a:"));
    assert_eq!(parent_of("::b").as_deref(), Some(""));
}

#[test]
fn report_summaries_list_products_and_profiles() {
    let binary = ProductionProduct::Binary("app".to_owned());
    let library = ProductionProduct::Library("core".to_owned());
    let products = [
        ProductionSelection { package: "app", product: &binary, feature_profiles: None },
        ProductionSelection { package: "core", product: &library, feature_profiles: None },
    ];
    let profiles = [FeatureProfile::all_features()];
    let summary = report_summary(&products, &profiles, "x86_64-unknown-linux-gnu", 7);
    assert_eq!(summary.diagnostic_count, 7);
    assert_eq!(summary.target, "x86_64-unknown-linux-gnu");
    assert_eq!(summary.production.len(), 2);
    assert_eq!(summary.production[0].package, "app");
    assert!(matches!(&summary.production[0].product, ProductionProduct::Binary(name) if name == "app"));
    assert!(matches!(&summary.production[1].product, ProductionProduct::Library(name) if name == "core"));
    assert_eq!(summary.feature_profiles, vec!["all-features".to_owned()]);
    assert!(summary.includes_non_production_targets);
}
