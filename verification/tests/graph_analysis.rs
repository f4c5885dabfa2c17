use hawk_graph::{
    AuditedFragments, Definition, DefinitionId, DefinitionKind, Edge, EdgeKind, ExpansionSpan,
    Finding, FindingKind, Fragment, ProductionTargetKind, ProtocolVersion, RequiredScope, Span,
    UniformFieldGroup, VisibilityReduction, analyze as analyze_with_tests, analyze_with_options,
};
use std::collections::HashSet;

fn test_id(value: &str) -> DefinitionId {
    let hash = value.bytes().fold(0xcbf2_9ce4_8422_2325_u64, |hash, byte| {
        (hash ^ u64::from(byte)).wrapping_mul(0x0100_0000_01b3)
    });
    DefinitionId::new(0, hash)
}

fn analyze<'a>(
    fragments: &'a [Fragment],
    excluded_crates: &HashSet<String>,
) -> Vec<Finding<'a>> {
    analyze_with_tests(fragments, &[], &candidate_crates(), excluded_crates)
}

fn analyze_preserving_uniform_fields(fragments: &[Fragment]) -> Vec<Finding<'_>> {
    analyze_with_options(fragments, &[], &candidate_crates(), &HashSet::new(), true)
}

fn candidate_crates() -> HashSet<String> {
    ["lib", "test_support"]
        .into_iter()
        .map(str::to_owned)
        .collect()
}

fn finding_summaries(findings: Vec<Finding<'_>>) -> Vec<(FindingKind, String, bool, bool)> {
    findings
        .into_iter()
        .map(|finding| {
            (
                finding.kind,
                finding.definition.name.clone(),
                finding.test_only,
                finding.test_compiled_only,
            )
        })
        .collect()
}

#[test]
fn finding_kind_determines_visibility_reduction() {
    assert_eq!(FindingKind::DeadPublic.visibility_reduction(), None);
    assert_eq!(FindingKind::TestOnly.visibility_reduction(), None);
    assert_eq!(
        FindingKind::UnnecessaryPublic.visibility_reduction(),
        Some(VisibilityReduction::Crate)
    );
    assert_eq!(
        FindingKind::UnnecessaryRestrictedVisibility.visibility_reduction(),
        Some(VisibilityReduction::Private)
    );
    assert_eq!(
        FindingKind::UnnecessaryCrateVisibility.visibility_reduction(),
        Some(VisibilityReduction::Super)
    );
}

#[test]
fn required_scope_merge_follows_its_lattice() {
    let mut scope = RequiredScope::Bottom;
    assert!(scope.merge(&RequiredScope::Known {
        crate_name: "lib".into(),
        module_scope: vec!["api".into(), "nested".into()],
    }));
    assert!(scope.merge(&RequiredScope::Known {
        crate_name: "lib".into(),
        module_scope: vec!["api".into(), "sibling".into()],
    }));
    assert_eq!(
        scope,
        RequiredScope::Known {
            crate_name: "lib".into(),
            module_scope: vec!["api".into()],
        }
    );
    assert!(scope.merge(&RequiredScope::Known {
        crate_name: "other".into(),
        module_scope: vec![],
    }));
    assert_eq!(scope, RequiredScope::Unknown);
    assert!(!scope.merge(&RequiredScope::Bottom));
    assert!(!scope.merge(&RequiredScope::Known {
        crate_name: "lib".into(),
        module_scope: vec![],
    }));
}

fn node(id: &str, crate_name: &str, public_api: bool) -> Definition {
    Definition {
        id: test_id(id),
        crate_name: crate_name.into(),
        name: id.into(),
        kind: DefinitionKind::Function,
        span: None,
        declaration_span: None,
        expansion_span: None,
        public_api,
        restricted_visible_api: false,
        crate_visible_api: false,
        visible_reexport_api: false,
        module_scope: vec![],
        uniform_field_group: None,
        dead_code_allowed: false,
    }
}

fn typed_node(
    id: &str,
    crate_name: &str,
    public_api: bool,
    kind: DefinitionKind,
) -> Definition {
    let mut definition = node(id, crate_name, public_api);
    definition.kind = kind;
    definition
}

fn crate_visible_node(id: &str, module_scope: &[&str]) -> Definition {
    let mut definition = restricted_visible_node(id, module_scope);
    definition.crate_visible_api = true;
    definition
}

fn restricted_visible_node(id: &str, module_scope: &[&str]) -> Definition {
    let mut definition = node(id, "lib", false);
    definition.restricted_visible_api = true;
    definition.module_scope = module_scope.iter().map(|module| (*module).into()).collect();
    definition
}

fn scoped_node(id: &str, module_scope: &[&str]) -> Definition {
    let mut definition = node(id, "lib", false);
    definition.module_scope = module_scope.iter().map(|module| (*module).into()).collect();
    definition
}

fn field(mut definition: Definition) -> Definition {
    definition.kind = DefinitionKind::Field;
    definition
}

fn source(mut definition: Definition, line: usize) -> Definition {
    definition.span = Some(Span {
        file: "lib/src/lib.rs".into(),
        line,
        column: 1,
    });
    definition
}

fn expansion(definition_line: usize, callsite_line: usize) -> ExpansionSpan {
    ExpansionSpan {
        definition: Span {
            file: "lib/src/lib.rs".into(),
            line: definition_line,
            column: 9,
        },
        callsite: Span {
            file: "lib/src/lib.rs".into(),
            line: callsite_line,
            column: 1,
        },
    }
}

fn uniform_field(definition: Definition) -> Definition {
    uniform_field_at(definition, 1)
}

fn uniform_field_at(mut definition: Definition, line: usize) -> Definition {
    definition = field(definition);
    definition.uniform_field_group = Some(UniformFieldGroup {
        span: Span {
            file: "lib.rs".into(),
            line,
            column: 1,
        },
        all_fields_observed: true,
    });
    definition
}

fn fragments(definitions: Vec<Definition>, edges: Vec<Edge>) -> Vec<Fragment> {
    vec![
        Fragment {
            protocol_version: ProtocolVersion,
            package_name: "app".into(),
            crate_name: "app".into(),
            compilation_target: "aarch64-apple-darwin".into(),
            crate_id: test_id("app"),
            crate_root: Some("app/src/main.rs".into()),
            is_product_root: true,
            product_root_kind: Some(ProductionTargetKind::Binary),
            test_surface: false,
            non_production_consumer: false,
            definitions: vec![node("main", "app", false)],
            edges: vec![],
            roots: vec![test_id("main")],
            conservative_roots: vec![],
            required_public_roots: vec![],
        },
        Fragment {
            protocol_version: ProtocolVersion,
            package_name: "lib".into(),
            crate_name: "lib".into(),
            compilation_target: "aarch64-apple-darwin".into(),
            crate_id: test_id("lib"),
            crate_root: Some("lib/src/lib.rs".into()),
            is_product_root: false,
            product_root_kind: None,
            test_surface: false,
            non_production_consumer: false,
            definitions,
            edges,
            roots: vec![],
            conservative_roots: vec![],
            required_public_roots: vec![],
        },
    ]
}

fn test_fragments(definitions: Vec<Definition>, edges: Vec<Edge>) -> Vec<Fragment> {
    vec![
        Fragment {
            protocol_version: ProtocolVersion,
            package_name: "integration_test".into(),
            crate_name: "integration_test".into(),
            compilation_target: "aarch64-apple-darwin".into(),
            crate_id: test_id("integration_test"),
            crate_root: Some("integration_test/tests/test.rs".into()),
            is_product_root: true,
            product_root_kind: None,
            test_surface: true,
            non_production_consumer: true,
            definitions: vec![node("test_main", "integration_test", false)],
            edges: vec![Edge {
                from: test_id("test_main"),
                to: test_id("test_entry"),
                kind: EdgeKind::Body,
            }],
            roots: vec![test_id("test_main")],
            conservative_roots: vec![],
            required_public_roots: vec![],
        },
        Fragment {
            protocol_version: ProtocolVersion,
            package_name: "lib".into(),
            crate_name: "lib".into(),
            compilation_target: "aarch64-apple-darwin".into(),
            crate_id: test_id("lib"),
            crate_root: Some("lib/src/lib.rs".into()),
            is_product_root: false,
            product_root_kind: None,
            test_surface: false,
            non_production_consumer: false,
            definitions,
            edges,
            roots: vec![],
            conservative_roots: vec![],
            required_public_roots: vec![],
        },
    ]
}

#[test]
fn fragment_order_does_not_change_findings() {
    let mut production = fragments(
        vec![
            node("production_entry", "lib", true),
            node("production_helper", "lib", true),
            node("unused", "lib", true),
        ],
        vec![Edge {
            from: test_id("production_entry"),
            to: test_id("production_helper"),
            kind: EdgeKind::Body,
        }],
    );
    production[0].edges.push(Edge {
        from: test_id("main"),
        to: test_id("production_entry"),
        kind: EdgeKind::Body,
    });
    let mut test_entry = node("test_entry", "lib", true);
    test_entry.name = "production_entry".into();
    let mut test_helper = node("test_helper", "lib", true);
    test_helper.name = "production_helper".into();
    let mut tests = test_fragments(
        vec![test_entry, test_helper],
        vec![Edge {
            from: test_id("test_entry"),
            to: test_id("test_helper"),
            kind: EdgeKind::Body,
        }],
    );
    let expected = finding_summaries(analyze_with_tests(
        &production,
        &tests,
        &candidate_crates(),
        &HashSet::new(),
    ));

    production.reverse();
    tests.reverse();
    let actual = finding_summaries(analyze_with_tests(
        &production,
        &tests,
        &candidate_crates(),
        &HashSet::new(),
    ));

    assert_eq!(actual, expected);
}

#[test]
fn dead_public_chain_is_not_kept_alive_by_internal_references() {
    let input = fragments(
        vec![node("unused", "lib", true), node("helper", "lib", true)],
        vec![Edge {
            from: test_id("unused"),
            to: test_id("helper"),
            kind: EdgeKind::Body,
        }],
    );
    let findings = analyze(&input, &HashSet::new());

    assert_eq!(findings.len(), 2);
    assert!(
        findings
            .iter()
            .all(|finding| finding.kind == FindingKind::DeadPublic)
    );
}

#[test]
fn library_products_are_audited_against_workspace_callers() {
    let mut production = fragments(
        vec![
            node("workspace_api", "lib", true),
            node("crate_helper", "lib", true),
            node("unused", "lib", true),
        ],
        vec![Edge {
            from: test_id("workspace_api"),
            to: test_id("crate_helper"),
            kind: EdgeKind::Body,
        }],
    );
    production.remove(0);
    production[0].is_product_root = true;
    production[0].product_root_kind = Some(ProductionTargetKind::Library);
    let callers = vec![Fragment {
        protocol_version: ProtocolVersion,
        package_name: "consumer".into(),
        crate_name: "consumer".into(),
        compilation_target: "aarch64-apple-darwin".into(),
        crate_id: test_id("consumer"),
        crate_root: Some("consumer/src/lib.rs".into()),
        is_product_root: false,
        product_root_kind: None,
        test_surface: false,
        non_production_consumer: false,
        definitions: vec![node("consumer", "consumer", false)],
        edges: vec![Edge {
            from: test_id("consumer"),
            to: test_id("workspace_api"),
            kind: EdgeKind::Body,
        }],
        roots: vec![],
        conservative_roots: vec![],
        required_public_roots: vec![],
    }];

    let findings =
        analyze_with_tests(&production, &callers, &candidate_crates(), &HashSet::new());

    assert_eq!(
        finding_summaries(findings),
        vec![
            (
                FindingKind::UnnecessaryPublic,
                "crate_helper".into(),
                false,
                false,
            ),
            (FindingKind::DeadPublic, "unused".into(), false, false),
        ]
    );
}

#[test]
fn unreachable_private_library_code_does_not_keep_public_callees_live() {
    let mut production = fragments(
        vec![
            node("unreachable_private_caller", "lib", false),
            node("unreachable_public_callee", "lib", true),
        ],
        vec![Edge {
            from: test_id("unreachable_private_caller"),
            to: test_id("unreachable_public_callee"),
            kind: EdgeKind::Body,
        }],
    );
    production.remove(0);
    production[0].is_product_root = true;
    production[0].product_root_kind = Some(ProductionTargetKind::Library);

    let findings = analyze_with_tests(&production, &[], &candidate_crates(), &HashSet::new());

    assert_eq!(
        finding_summaries(findings),
        vec![(
            FindingKind::DeadPublic,
            "unreachable_public_callee".into(),
            false,
            false,
        )]
    );
}

#[test]
fn library_products_keep_test_only_callers_out_of_production_reachability() {
    let mut production = fragments(
        vec![
            node("workspace_api", "lib", true),
            node("crate_helper", "lib", true),
        ],
        vec![Edge {
            from: test_id("workspace_api"),
            to: test_id("crate_helper"),
            kind: EdgeKind::Body,
        }],
    );
    production.remove(0);
    production[0].is_product_root = true;
    production[0].product_root_kind = Some(ProductionTargetKind::Library);
    let mut library_dependency = production[0].clone();
    library_dependency.is_product_root = false;
    library_dependency.product_root_kind = None;
    let tests = vec![
        Fragment {
            protocol_version: ProtocolVersion,
            package_name: "consumer".into(),
            crate_name: "consumer".into(),
            compilation_target: "aarch64-apple-darwin".into(),
            crate_id: test_id("consumer"),
            crate_root: Some("consumer/src/lib.rs".into()),
            is_product_root: true,
            product_root_kind: None,
            test_surface: true,
            non_production_consumer: true,
            definitions: vec![node("consumer_test", "consumer", false)],
            edges: vec![Edge {
                from: test_id("consumer_test"),
                to: test_id("workspace_api"),
                kind: EdgeKind::Body,
            }],
            roots: vec![test_id("consumer_test")],
            conservative_roots: vec![],
            required_public_roots: vec![],
        },
        library_dependency,
    ];

    let findings =
        analyze_with_tests(&production, &tests, &candidate_crates(), &HashSet::new());

    assert_eq!(
        finding_summaries(findings),
        vec![(
            FindingKind::UnnecessaryPublic,
            "crate_helper".into(),
            true,
            false,
        )]
    );
}

#[test]
fn test_only_findings_cover_source_declarations_required_by_integration_tests() {
    let kinds = [
        DefinitionKind::Function,
        DefinitionKind::InherentMethod,
        DefinitionKind::InherentAssociatedConstant,
        DefinitionKind::Trait,
        DefinitionKind::Struct,
        DefinitionKind::Enum,
        DefinitionKind::Union,
        DefinitionKind::TypeAlias,
        DefinitionKind::Constant,
        DefinitionKind::Static,
        DefinitionKind::Field,
        DefinitionKind::EnumVariant,
        DefinitionKind::Module,
    ];
    let declarations: Vec<_> = kinds
        .into_iter()
        .enumerate()
        .map(|(index, kind)| {
            source(
                typed_node(&format!("item_{index}"), "lib", true, kind),
                index + 1,
            )
        })
        .collect();
    let mut production = fragments(declarations.clone(), vec![]);
    let integration_root = node("integration_root", "integration_test", false);
    let mut test_edges: Vec<_> = declarations
        .iter()
        .map(|definition| Edge {
            from: integration_root.id,
            to: definition.id,
            kind: EdgeKind::Body,
        })
        .collect();
    let mut reexport = source(
        typed_node("alias", "lib", true, DefinitionKind::Reexport),
        declarations.len() + 1,
    );
    reexport.visible_reexport_api = true;
    let private_import = source(
        typed_node("private_import", "lib", false, DefinitionKind::Reexport),
        declarations.len() + 2,
    );
    test_edges.push(Edge {
        from: reexport.id,
        to: declarations[0].id,
        kind: EdgeKind::Reexport,
    });
    test_edges.push(Edge {
        from: private_import.id,
        to: declarations[0].id,
        kind: EdgeKind::Reexport,
    });
    production[1].definitions.push(reexport.clone());
    production[1].definitions.push(private_import.clone());
    let tests = vec![
        Fragment {
            protocol_version: ProtocolVersion,
            package_name: "integration_test".into(),
            crate_name: "integration_test".into(),
            compilation_target: "aarch64-apple-darwin".into(),
            crate_id: test_id("integration_test"),
            crate_root: Some("integration_test/tests/test.rs".into()),
            is_product_root: true,
            product_root_kind: None,
            test_surface: true,
            non_production_consumer: true,
            definitions: vec![integration_root.clone()],
            edges: test_edges.clone(),
            roots: vec![integration_root.id],
            conservative_roots: vec![],
            required_public_roots: vec![],
        },
        Fragment {
            protocol_version: ProtocolVersion,
            package_name: "lib".into(),
            crate_name: "lib".into(),
            compilation_target: "aarch64-apple-darwin".into(),
            crate_id: test_id("lib"),
            crate_root: Some("lib/src/lib.rs".into()),
            is_product_root: false,
            product_root_kind: None,
            test_surface: false,
            non_production_consumer: false,
            definitions: declarations
                .into_iter()
                .chain([reexport, private_import])
                .collect(),
            edges: vec![],
            roots: vec![],
            conservative_roots: vec![],
            required_public_roots: vec![],
        },
    ];

    let findings =
        analyze_with_tests(&production, &tests, &candidate_crates(), &HashSet::new());
    let test_only: Vec<_> = findings
        .iter()
        .filter(|finding| finding.kind == FindingKind::TestOnly)
        .map(|finding| finding.definition.kind)
        .collect();

    assert_eq!(test_only.len(), kinds.len() + 1);
    assert!(kinds.into_iter().all(|kind| test_only.contains(&kind)));
    assert!(test_only.contains(&DefinitionKind::Reexport));
    assert!(!findings.iter().any(|finding| {
        finding.kind == FindingKind::TestOnly
            && finding.definition.id == test_id("private_import")
    }));
    assert!(findings.iter().all(|finding| finding.test_only));
    assert!(findings.iter().all(|finding| !finding.test_compiled_only));
}

#[test]
fn library_products_recognize_test_reachable_equivalent_callers() {
    let mut production = fragments(
        vec![
            node("workspace_api", "lib", true),
            node("crate_helper", "lib", true),
        ],
        vec![Edge {
            from: test_id("workspace_api"),
            to: test_id("crate_helper"),
            kind: EdgeKind::Body,
        }],
    );
    production.remove(0);
    production[0].is_product_root = true;
    production[0].product_root_kind = Some(ProductionTargetKind::Library);
    let mut library_dependency = production[0].clone();
    library_dependency.is_product_root = false;
    library_dependency.product_root_kind = None;

    let consumer = source(node("consumer", "consumer", false), 1);
    let mut equivalent_consumer = source(node("test_consumer", "consumer", false), 1);
    equivalent_consumer.name.clone_from(&consumer.name);
    let tests = vec![
        Fragment {
            protocol_version: ProtocolVersion,
            package_name: "consumer".into(),
            crate_name: "consumer".into(),
            compilation_target: "aarch64-apple-darwin".into(),
            crate_id: test_id("consumer"),
            crate_root: Some("consumer/src/lib.rs".into()),
            is_product_root: false,
            product_root_kind: None,
            test_surface: false,
            non_production_consumer: true,
            definitions: vec![consumer],
            edges: vec![Edge {
                from: test_id("consumer"),
                to: test_id("workspace_api"),
                kind: EdgeKind::Body,
            }],
            roots: vec![],
            conservative_roots: vec![],
            required_public_roots: vec![],
        },
        Fragment {
            protocol_version: ProtocolVersion,
            package_name: "consumer".into(),
            crate_name: "consumer".into(),
            compilation_target: "aarch64-apple-darwin".into(),
            crate_id: test_id("consumer-test"),
            crate_root: Some("consumer/src/lib.rs".into()),
            is_product_root: true,
            product_root_kind: None,
            test_surface: true,
            non_production_consumer: true,
            definitions: vec![
                node("consumer_test", "consumer", false),
                equivalent_consumer,
            ],
            edges: vec![Edge {
                from: test_id("consumer_test"),
                to: test_id("test_consumer"),
                kind: EdgeKind::Body,
            }],
            roots: vec![test_id("consumer_test")],
            conservative_roots: vec![],
            required_public_roots: vec![],
        },
        library_dependency,
    ];

    let findings =
        analyze_with_tests(&production, &tests, &candidate_crates(), &HashSet::new());

    assert_eq!(
        finding_summaries(findings),
        vec![(
            FindingKind::UnnecessaryPublic,
            "crate_helper".into(),
            true,
            false,
        )]
    );
}

#[test]
fn library_products_keep_non_production_executables_out_of_production_reachability() {
    let mut production = fragments(
        vec![
            node("workspace_api", "lib", true),
            node("crate_helper", "lib", true),
        ],
        vec![Edge {
            from: test_id("workspace_api"),
            to: test_id("crate_helper"),
            kind: EdgeKind::Body,
        }],
    );
    production.remove(0);
    production[0].is_product_root = true;
    production[0].product_root_kind = Some(ProductionTargetKind::Library);
    let mut library_dependency = production[0].clone();
    library_dependency.is_product_root = false;
    library_dependency.product_root_kind = None;
    let tests = vec![
        Fragment {
            protocol_version: ProtocolVersion,
            package_name: "consumer".into(),
            crate_name: "example".into(),
            compilation_target: "aarch64-apple-darwin".into(),
            crate_id: test_id("consumer-example"),
            crate_root: Some("consumer/examples/example.rs".into()),
            is_product_root: true,
            product_root_kind: None,
            test_surface: false,
            non_production_consumer: true,
            definitions: vec![node("example_main", "example", false)],
            edges: vec![Edge {
                from: test_id("example_main"),
                to: test_id("workspace_api"),
                kind: EdgeKind::Body,
            }],
            roots: vec![test_id("example_main")],
            conservative_roots: vec![],
            required_public_roots: vec![],
        },
        library_dependency,
    ];

    let findings =
        analyze_with_tests(&production, &tests, &candidate_crates(), &HashSet::new());

    assert_eq!(
        finding_summaries(findings),
        vec![(
            FindingKind::UnnecessaryPublic,
            "crate_helper".into(),
            true,
            false,
        )]
    );
}

#[test]
fn library_products_do_not_report_definitions_compiled_only_for_the_host() {
    let mut production = fragments(vec![node("target_unused", "lib", true)], vec![]);
    production.remove(0);
    production[0].is_product_root = true;
    production[0].product_root_kind = Some(ProductionTargetKind::Library);
    let mut host = production[0].clone();
    host.compilation_target = "x86_64-apple-darwin".into();
    host.crate_id = test_id("host-lib");
    host.is_product_root = false;
    host.product_root_kind = None;
    host.definitions = vec![node("host_unused", "lib", true)];
    production.push(host);

    let findings = analyze_with_tests(&production, &[], &candidate_crates(), &HashSet::new());

    assert_eq!(
        finding_summaries(findings),
        vec![(
            FindingKind::DeadPublic,
            "target_unused".into(),
            false,
            false,
        )]
    );
}

#[test]
fn product_root_named_like_a_library_only_excludes_its_own_declarations() {
    let mut input = fragments(
        vec![node("entry", "lib", true), node("unused", "lib", true)],
        vec![],
    );
    input[0].crate_name = "lib".into();
    input[0].definitions[0].crate_name = "lib".into();
    input[0].edges.push(Edge {
        from: test_id("main"),
        to: test_id("entry"),
        kind: EdgeKind::Body,
    });

    let findings = analyze(&input, &HashSet::new());

    assert_eq!(findings.len(), 1);
    assert_eq!(findings[0].kind, FindingKind::DeadPublic);
    assert_eq!(findings[0].definition.id, test_id("unused"));
}

#[test]
fn product_root_sharing_library_source_preserves_library_and_test_declarations() {
    let mut input = fragments(
        vec![
            source(node("unused", "lib", true), 7),
            source(
                restricted_visible_node("internal::unused", &["internal"]),
                8,
            ),
        ],
        vec![],
    );
    input[1].is_product_root = true;
    input[1].product_root_kind = Some(ProductionTargetKind::Library);

    let binary = &mut input[0];
    binary.package_name = "lib".into();
    binary.crate_name = "lib".into();
    binary.crate_root = Some("lib/src/lib.rs".into());
    binary.definitions[0].crate_name = "lib".into();

    let mut binary_unused = source(node("binary_unused", "lib", true), 7);
    binary_unused.name = "unused".into();
    binary.definitions.push(binary_unused);

    let mut binary_restricted = source(
        restricted_visible_node("binary_internal::unused", &["internal"]),
        8,
    );
    binary_restricted.name = "internal::unused".into();
    binary.definitions.push(binary_restricted);

    let mut harnesses = test_fragments(
        vec![
            source(node("test_only_unused", "lib", true), 9),
            source(
                restricted_visible_node("internal::test_only_unused", &["internal"]),
                10,
            ),
        ],
        vec![],
    );
    harnesses[1].is_product_root = true;
    harnesses[1].test_surface = true;
    harnesses[1].non_production_consumer = true;

    let findings = analyze_with_tests(&input, &harnesses, &candidate_crates(), &HashSet::new());

    assert_eq!(findings.len(), 4);
    assert_eq!(findings[0].kind, FindingKind::DeadPublic);
    assert_eq!(findings[0].definition.id, test_id("unused"));
    assert_eq!(
        findings[1].kind,
        FindingKind::UnnecessaryRestrictedVisibility
    );
    assert_eq!(findings[1].definition.id, test_id("internal::unused"));
    assert_eq!(findings[2].kind, FindingKind::DeadPublic);
    assert_eq!(findings[2].definition.id, test_id("test_only_unused"));
    assert!(findings[2].test_compiled_only);
    assert_eq!(
        findings[3].kind,
        FindingKind::UnnecessaryRestrictedVisibility
    );
    assert_eq!(
        findings[3].definition.id,
        test_id("internal::test_only_unused")
    );
    assert!(findings[3].test_compiled_only);
}

#[test]
fn live_internal_public_helper_can_be_narrowed() {
    let mut input = fragments(
        vec![node("entry", "lib", true), node("helper", "lib", true)],
        vec![Edge {
            from: test_id("entry"),
            to: test_id("helper"),
            kind: EdgeKind::Body,
        }],
    );
    input[0].edges.push(Edge {
        from: test_id("main"),
        to: test_id("entry"),
        kind: EdgeKind::Body,
    });

    let findings = analyze(&input, &HashSet::new());

    assert_eq!(findings.len(), 1);
    assert_eq!(findings[0].kind, FindingKind::UnnecessaryPublic);
    assert_eq!(findings[0].definition.id, test_id("helper"));
    assert!(!findings[0].test_only);
    assert!(!findings[0].test_compiled_only);
}

#[test]
fn uniform_public_field_visibility_is_preserved_when_enabled() {
    let mut input = fragments(
        vec![
            uniform_field(node("required", "lib", true)),
            uniform_field(node("internal", "lib", true)),
            node("entry", "lib", false),
        ],
        vec![Edge {
            from: test_id("entry"),
            to: test_id("internal"),
            kind: EdgeKind::Body,
        }],
    );
    input[0].edges.extend([
        Edge {
            from: test_id("main"),
            to: test_id("required"),
            kind: EdgeKind::Body,
        },
        Edge {
            from: test_id("main"),
            to: test_id("entry"),
            kind: EdgeKind::Body,
        },
    ]);

    let findings = analyze(&input, &HashSet::new());
    assert_eq!(findings.len(), 1);
    assert_eq!(findings[0].definition.id, test_id("internal"));

    assert!(analyze_preserving_uniform_fields(&input).is_empty());
}

#[test]
fn uniform_field_visibility_does_not_suppress_dead_public() {
    let mut input = fragments(
        vec![
            uniform_field(node("required", "lib", true)),
            uniform_field(node("dead", "lib", true)),
        ],
        vec![],
    );
    input[0].edges.push(Edge {
        from: test_id("main"),
        to: test_id("required"),
        kind: EdgeKind::Body,
    });

    let findings = analyze_preserving_uniform_fields(&input);

    assert_eq!(findings.len(), 1);
    assert_eq!(findings[0].kind, FindingKind::DeadPublic);
    assert_eq!(findings[0].definition.id, test_id("dead"));
}

#[test]
fn dead_public_field_preserves_uniform_sibling_visibility() {
    let mut input = fragments(
        vec![
            uniform_field(node("internal", "lib", true)),
            uniform_field(node("dead", "lib", true)),
            node("entry", "lib", false),
        ],
        vec![Edge {
            from: test_id("entry"),
            to: test_id("internal"),
            kind: EdgeKind::Body,
        }],
    );
    input[0].edges.push(Edge {
        from: test_id("main"),
        to: test_id("entry"),
        kind: EdgeKind::Body,
    });

    let findings = analyze_preserving_uniform_fields(&input);

    assert_eq!(findings.len(), 1);
    assert_eq!(findings[0].kind, FindingKind::DeadPublic);
    assert_eq!(findings[0].definition.id, test_id("dead"));
}

#[test]
fn fields_without_a_uniform_group_do_not_preserve_visibility() {
    let mut input = fragments(
        vec![
            field(node("required", "lib", true)),
            field(node("internal", "lib", true)),
            node("entry", "lib", false),
        ],
        vec![Edge {
            from: test_id("entry"),
            to: test_id("internal"),
            kind: EdgeKind::Body,
        }],
    );
    input[0].edges.extend([
        Edge {
            from: test_id("main"),
            to: test_id("required"),
            kind: EdgeKind::Body,
        },
        Edge {
            from: test_id("main"),
            to: test_id("entry"),
            kind: EdgeKind::Body,
        },
    ]);

    let findings = analyze_preserving_uniform_fields(&input);

    assert_eq!(findings.len(), 1);
    assert_eq!(findings[0].definition.id, test_id("internal"));
}

#[test]
fn test_requirement_preserves_uniform_production_field_visibility() {
    let mut production_input = fragments(
        vec![
            uniform_field(source(node("production_required", "lib", true), 1)),
            uniform_field(node("internal", "lib", true)),
            node("entry", "lib", false),
        ],
        vec![Edge {
            from: test_id("entry"),
            to: test_id("internal"),
            kind: EdgeKind::Body,
        }],
    );
    production_input[0].edges.push(Edge {
        from: test_id("main"),
        to: test_id("entry"),
        kind: EdgeKind::Body,
    });
    let mut test_required = uniform_field(source(node("test_required", "lib", true), 1));
    test_required.name = "production_required".into();
    let mut test_input = test_fragments(vec![test_required], vec![]);
    test_input[0].edges[0].to = test_id("test_required");

    let findings = analyze_with_options(
        &production_input,
        &test_input,
        &candidate_crates(),
        &HashSet::new(),
        true,
    );

    assert_eq!(findings.len(), 1);
    assert_eq!(findings[0].kind, FindingKind::TestOnly);
    assert_eq!(findings[0].definition.id, test_id("production_required"));
}

#[test]
fn cfg_alternative_declarations_do_not_share_field_visibility_requirements() {
    let mut production_input = fragments(
        vec![uniform_field_at(
            node("production_required", "lib", true),
            1,
        )],
        vec![],
    );
    production_input[0].edges.push(Edge {
        from: test_id("main"),
        to: test_id("production_required"),
        kind: EdgeKind::Body,
    });
    let test_input = test_fragments(
        vec![
            node("test_entry", "lib", true),
            uniform_field_at(node("test_internal", "lib", true), 10),
        ],
        vec![Edge {
            from: test_id("test_entry"),
            to: test_id("test_internal"),
            kind: EdgeKind::Body,
        }],
    );

    let findings = analyze_with_options(
        &production_input,
        &test_input,
        &candidate_crates(),
        &HashSet::new(),
        true,
    );

    assert_eq!(findings.len(), 1);
    assert_eq!(findings[0].definition.id, test_id("test_internal"));
}

#[test]
fn crate_visible_helper_used_within_its_module_can_be_private() {
    let input = fragments(
        vec![
            scoped_node("scoped::entry", &["scoped"]),
            crate_visible_node("scoped::helper", &["scoped"]),
        ],
        vec![Edge {
            from: test_id("scoped::entry"),
            to: test_id("scoped::helper"),
            kind: EdgeKind::Body,
        }],
    );

    let findings = analyze(&input, &HashSet::new());

    assert_eq!(findings.len(), 1);
    assert_eq!(
        findings[0].kind,
        FindingKind::UnnecessaryRestrictedVisibility
    );
    assert_eq!(findings[0].definition.id, test_id("scoped::helper"));
}

#[test]
fn unused_restricted_item_can_be_private() {
    let input = fragments(
        vec![restricted_visible_node("scoped::unused", &["scoped"])],
        vec![],
    );

    let findings = analyze(&input, &HashSet::new());

    assert_eq!(findings.len(), 1);
    assert_eq!(
        findings[0].kind,
        FindingKind::UnnecessaryRestrictedVisibility
    );
    assert_eq!(findings[0].definition.id, test_id("scoped::unused"));
}

#[test]
fn uniform_crate_visible_field_visibility_is_preserved_when_required() {
    let required = uniform_field(crate_visible_node(
        "scoped::nested::required",
        &["scoped", "nested"],
    ));
    let internal = uniform_field(crate_visible_node(
        "scoped::nested::internal",
        &["scoped", "nested"],
    ));
    let input = fragments(
        vec![
            required,
            internal,
            scoped_node("outside::entry", &["outside"]),
            scoped_node("scoped::nested::entry", &["scoped", "nested"]),
        ],
        vec![
            Edge {
                from: test_id("outside::entry"),
                to: test_id("scoped::nested::required"),
                kind: EdgeKind::Body,
            },
            Edge {
                from: test_id("scoped::nested::entry"),
                to: test_id("scoped::nested::internal"),
                kind: EdgeKind::Body,
            },
        ],
    );

    let findings = analyze(&input, &HashSet::new());
    assert_eq!(findings.len(), 1);
    assert_eq!(
        findings[0].definition.id,
        test_id("scoped::nested::internal")
    );

    assert!(analyze_preserving_uniform_fields(&input).is_empty());
}

#[test]
fn uniform_restricted_field_visibility_is_preserved_when_required() {
    let required = uniform_field(restricted_visible_node(
        "scoped::nested::required",
        &["scoped", "nested"],
    ));
    let internal = uniform_field(restricted_visible_node(
        "scoped::nested::internal",
        &["scoped", "nested"],
    ));
    let input = fragments(
        vec![
            required,
            internal,
            scoped_node("scoped::sibling::entry", &["scoped", "sibling"]),
            scoped_node("scoped::nested::entry", &["scoped", "nested"]),
        ],
        vec![
            Edge {
                from: test_id("scoped::sibling::entry"),
                to: test_id("scoped::nested::required"),
                kind: EdgeKind::Body,
            },
            Edge {
                from: test_id("scoped::nested::entry"),
                to: test_id("scoped::nested::internal"),
                kind: EdgeKind::Body,
            },
        ],
    );

    assert!(analyze_preserving_uniform_fields(&input).is_empty());
}

#[test]
fn uniform_fields_use_broadest_required_reduction() {
    let parent_visible = uniform_field(crate_visible_node(
        "scoped::nested::parent_visible",
        &["scoped", "nested"],
    ));
    let private = uniform_field(crate_visible_node(
        "scoped::nested::private",
        &["scoped", "nested"],
    ));
    let input = fragments(
        vec![
            parent_visible,
            private,
            scoped_node("scoped::sibling::entry", &["scoped", "sibling"]),
            scoped_node("scoped::nested::entry", &["scoped", "nested"]),
        ],
        vec![
            Edge {
                from: test_id("scoped::sibling::entry"),
                to: test_id("scoped::nested::parent_visible"),
                kind: EdgeKind::Body,
            },
            Edge {
                from: test_id("scoped::nested::entry"),
                to: test_id("scoped::nested::private"),
                kind: EdgeKind::Body,
            },
        ],
    );

    let findings = analyze_preserving_uniform_fields(&input);

    assert_eq!(findings.len(), 2);
    assert!(
        findings
            .iter()
            .all(|finding| finding.kind == FindingKind::UnnecessaryCrateVisibility)
    );
}

#[test]
fn incomplete_uniform_field_group_is_preserved() {
    let mut parent_visible = uniform_field(crate_visible_node(
        "scoped::nested::parent_visible",
        &["scoped", "nested"],
    ));
    let mut private = uniform_field(crate_visible_node(
        "scoped::nested::private",
        &["scoped", "nested"],
    ));
    for definition in [&mut parent_visible, &mut private] {
        definition
            .uniform_field_group
            .as_mut()
            .expect("uniform field group")
            .all_fields_observed = false;
    }
    let input = fragments(
        vec![
            parent_visible,
            private,
            scoped_node("scoped::sibling::entry", &["scoped", "sibling"]),
            scoped_node("scoped::nested::entry", &["scoped", "nested"]),
        ],
        vec![
            Edge {
                from: test_id("scoped::sibling::entry"),
                to: test_id("scoped::nested::parent_visible"),
                kind: EdgeKind::Body,
            },
            Edge {
                from: test_id("scoped::nested::entry"),
                to: test_id("scoped::nested::private"),
                kind: EdgeKind::Body,
            },
        ],
    );

    assert!(analyze_preserving_uniform_fields(&input).is_empty());
}

#[test]
fn skipped_uniform_field_preserves_the_group() {
    let parent_visible = uniform_field(crate_visible_node(
        "scoped::nested::parent_visible",
        &["scoped", "nested"],
    ));
    let mut skipped = uniform_field(crate_visible_node(
        "scoped::nested::skipped",
        &["scoped", "nested"],
    ));
    skipped.dead_code_allowed = true;
    let input = fragments(
        vec![
            parent_visible,
            skipped,
            scoped_node("scoped::sibling::entry", &["scoped", "sibling"]),
        ],
        vec![Edge {
            from: test_id("scoped::sibling::entry"),
            to: test_id("scoped::nested::parent_visible"),
            kind: EdgeKind::Body,
        }],
    );

    assert!(analyze_preserving_uniform_fields(&input).is_empty());
}

#[test]
fn uniformly_visible_fields_can_be_made_private_together() {
    let first = uniform_field(crate_visible_node(
        "scoped::nested::first",
        &["scoped", "nested"],
    ));
    let second = uniform_field(crate_visible_node(
        "scoped::nested::second",
        &["scoped", "nested"],
    ));
    let input = fragments(
        vec![
            first,
            second,
            scoped_node("scoped::nested::entry", &["scoped", "nested"]),
        ],
        vec![
            Edge {
                from: test_id("scoped::nested::entry"),
                to: test_id("scoped::nested::first"),
                kind: EdgeKind::Body,
            },
            Edge {
                from: test_id("scoped::nested::entry"),
                to: test_id("scoped::nested::second"),
                kind: EdgeKind::Body,
            },
        ],
    );

    let findings = analyze_preserving_uniform_fields(&input);

    assert_eq!(findings.len(), 2);
    assert!(
        findings
            .iter()
            .all(|finding| { finding.kind == FindingKind::UnnecessaryRestrictedVisibility })
    );
}

#[test]
fn parent_visible_helper_used_within_its_module_can_be_private() {
    let input = fragments(
        vec![
            scoped_node("scoped::entry", &["scoped"]),
            restricted_visible_node("scoped::helper", &["scoped"]),
        ],
        vec![Edge {
            from: test_id("scoped::entry"),
            to: test_id("scoped::helper"),
            kind: EdgeKind::Body,
        }],
    );

    let findings = analyze(&input, &HashSet::new());

    assert_eq!(findings.len(), 1);
    assert_eq!(
        findings[0].kind,
        FindingKind::UnnecessaryRestrictedVisibility
    );
    assert_eq!(findings[0].definition.id, test_id("scoped::helper"));
}

#[test]
fn crate_visible_helper_used_by_a_sibling_can_be_visible_to_its_parent() {
    let input = fragments(
        vec![
            scoped_node("scoped::sibling::entry", &["scoped", "sibling"]),
            crate_visible_node("scoped::nested::helper", &["scoped", "nested"]),
        ],
        vec![Edge {
            from: test_id("scoped::sibling::entry"),
            to: test_id("scoped::nested::helper"),
            kind: EdgeKind::Body,
        }],
    );

    let findings = analyze(&input, &HashSet::new());

    assert_eq!(findings.len(), 1);
    assert_eq!(findings[0].kind, FindingKind::UnnecessaryCrateVisibility);
    assert_eq!(findings[0].definition.id, test_id("scoped::nested::helper"));
}

#[test]
fn crate_visible_helper_used_outside_its_parent_is_not_reported() {
    let input = fragments(
        vec![
            scoped_node("outside::entry", &["outside"]),
            crate_visible_node("scoped::nested::helper", &["scoped", "nested"]),
        ],
        vec![Edge {
            from: test_id("outside::entry"),
            to: test_id("scoped::nested::helper"),
            kind: EdgeKind::Body,
        }],
    );

    assert!(analyze(&input, &HashSet::new()).is_empty());
}

#[test]
fn crate_visible_module_accounts_for_uses_of_its_descendants() {
    let mut module = crate_visible_node("scoped::nested", &["scoped"]);
    module.kind = DefinitionKind::Module;
    let mut descendant = node("scoped::nested::helper", "lib", false);
    descendant.module_scope = vec!["scoped".into(), "nested".into()];
    let input = fragments(
        vec![node("entry", "lib", false), module, descendant],
        vec![
            Edge {
                from: test_id("entry"),
                to: test_id("scoped::nested::helper"),
                kind: EdgeKind::Body,
            },
            Edge {
                from: test_id("scoped::nested::helper"),
                to: test_id("scoped::nested"),
                kind: EdgeKind::VisibilityParent,
            },
        ],
    );

    let findings = analyze(&input, &HashSet::new());

    assert_eq!(findings.len(), 1);
    assert_eq!(findings[0].kind, FindingKind::UnnecessaryCrateVisibility);
    assert_eq!(findings[0].definition.id, test_id("scoped::nested"));
}

#[test]
fn crate_visible_enum_accounts_for_uses_of_its_variants() {
    let mut enumeration =
        crate_visible_node("scoped::nested::ErrorKind", &["scoped", "nested"]);
    enumeration.kind = DefinitionKind::Enum;
    let mut variant = typed_node(
        "scoped::nested::ErrorKind::UnexpectedEnd",
        "lib",
        false,
        DefinitionKind::EnumVariant,
    );
    variant.module_scope = vec!["scoped".into(), "nested".into()];
    let input = fragments(
        vec![
            scoped_node("scoped::sibling::entry", &["scoped", "sibling"]),
            enumeration,
            variant,
        ],
        vec![
            Edge {
                from: test_id("scoped::sibling::entry"),
                to: test_id("scoped::nested::ErrorKind::UnexpectedEnd"),
                kind: EdgeKind::Body,
            },
            Edge {
                from: test_id("scoped::nested::ErrorKind::UnexpectedEnd"),
                to: test_id("scoped::nested::ErrorKind"),
                kind: EdgeKind::Interface,
            },
        ],
    );

    let findings = analyze(&input, &HashSet::new());

    assert_eq!(findings.len(), 1);
    assert_eq!(findings[0].kind, FindingKind::UnnecessaryCrateVisibility);
    assert_eq!(
        findings[0].definition.id,
        test_id("scoped::nested::ErrorKind")
    );
}

#[test]
fn crate_visible_type_accounts_for_consumers_of_its_interface() {
    let function = crate_visible_node("scoped::nested::read", &["scoped", "nested"]);
    let mut error = crate_visible_node("scoped::nested::Error", &["scoped", "nested"]);
    error.kind = DefinitionKind::Enum;
    let input = fragments(
        vec![
            scoped_node("scoped::sibling::entry", &["scoped", "sibling"]),
            function,
            error,
        ],
        vec![
            Edge {
                from: test_id("scoped::sibling::entry"),
                to: test_id("scoped::nested::read"),
                kind: EdgeKind::Body,
            },
            Edge {
                from: test_id("scoped::nested::read"),
                to: test_id("scoped::nested::Error"),
                kind: EdgeKind::Interface,
            },
        ],
    );

    let findings = analyze(&input, &HashSet::new());

    assert_eq!(findings.len(), 2);
    assert!(
        findings
            .iter()
            .all(|finding| finding.kind == FindingKind::UnnecessaryCrateVisibility)
    );
}

#[test]
fn crate_visible_reexport_target_is_not_narrowed() {
    let mut reexport = crate_visible_node("scoped::TargetExport", &["scoped"]);
    reexport.kind = DefinitionKind::Reexport;
    let input = fragments(
        vec![reexport, crate_visible_node("scoped::Target", &["scoped"])],
        vec![Edge {
            from: test_id("scoped::TargetExport"),
            to: test_id("scoped::Target"),
            kind: EdgeKind::Reexport,
        }],
    );

    assert!(analyze(&input, &HashSet::new()).is_empty());
}

#[test]
fn namespace_containing_visible_reexport_is_not_narrowed() {
    let mut namespace = restricted_visible_node("wrapper::api", &["wrapper"]);
    namespace.kind = DefinitionKind::Module;
    let mut reexport = node("wrapper::api::f", "lib", false);
    reexport.kind = DefinitionKind::Reexport;
    reexport.visible_reexport_api = true;
    reexport.module_scope = vec!["wrapper".into(), "api".into()];
    let input = fragments(
        vec![
            namespace,
            reexport,
            node("sibling::call", "lib", false),
            node("target::f", "lib", false),
        ],
        vec![
            Edge {
                from: test_id("wrapper::api::f"),
                to: test_id("target::f"),
                kind: EdgeKind::Reexport,
            },
            Edge {
                from: test_id("wrapper::api::f"),
                to: test_id("wrapper::api"),
                kind: EdgeKind::VisibilityParent,
            },
            Edge {
                from: test_id("sibling::call"),
                to: test_id("target::f"),
                kind: EdgeKind::Body,
            },
        ],
    );

    assert!(analyze(&input, &HashSet::new()).is_empty());
}

#[test]
fn integration_test_api_is_public_while_its_helper_can_be_narrowed() {
    let input = fragments(
        vec![
            source(node("entry", "lib", true), 1),
            source(node("helper", "lib", true), 2),
        ],
        vec![Edge {
            from: test_id("entry"),
            to: test_id("helper"),
            kind: EdgeKind::Body,
        }],
    );
    let mut test_entry = source(node("test_entry", "lib", true), 1);
    test_entry.name = "entry".into();
    let mut test_helper = source(node("test_helper", "lib", true), 2);
    test_helper.name = "helper".into();
    let test_input = test_fragments(
        vec![test_entry, test_helper],
        vec![Edge {
            from: test_id("test_entry"),
            to: test_id("test_helper"),
            kind: EdgeKind::Body,
        }],
    );

    let findings =
        analyze_with_tests(&input, &test_input, &candidate_crates(), &HashSet::new());

    assert_eq!(findings.len(), 3);
    assert!(findings.iter().any(|finding| {
        finding.kind == FindingKind::UnnecessaryPublic
            && finding.definition.id == test_id("helper")
    }));
    assert!(findings.iter().any(|finding| {
        finding.kind == FindingKind::TestOnly && finding.definition.id == test_id("entry")
    }));
    assert!(findings.iter().any(|finding| {
        finding.kind == FindingKind::TestOnly && finding.definition.id == test_id("helper")
    }));
    assert!(findings.iter().all(|finding| finding.test_only));
    assert!(findings.iter().all(|finding| !finding.test_compiled_only));
}

#[test]
fn production_reachability_does_not_follow_test_only_edges() {
    let mut production_input = fragments(
        vec![
            source(node("production_entry", "lib", true), 1),
            source(node("production_helper", "lib", true), 2),
        ],
        vec![],
    );
    production_input[0].edges.push(Edge {
        from: test_id("main"),
        to: test_id("production_entry"),
        kind: EdgeKind::Body,
    });

    let mut test_entry = source(node("test_entry", "lib", true), 1);
    test_entry.name = "production_entry".into();
    let mut test_helper = source(node("test_helper", "lib", true), 2);
    test_helper.name = "production_helper".into();
    let test_input = test_fragments(
        vec![test_entry, test_helper],
        vec![Edge {
            from: test_id("test_entry"),
            to: test_id("test_helper"),
            kind: EdgeKind::Body,
        }],
    );

    let findings = analyze_with_tests(
        &production_input,
        &test_input,
        &candidate_crates(),
        &HashSet::new(),
    );

    assert_eq!(findings.len(), 2);
    assert!(findings.iter().any(|finding| {
        finding.kind == FindingKind::UnnecessaryPublic
            && finding.definition.id == test_id("production_helper")
    }));
    assert!(findings.iter().any(|finding| {
        finding.kind == FindingKind::TestOnly
            && finding.definition.id == test_id("production_helper")
    }));
    assert!(findings.iter().all(|finding| finding.test_only));
    assert!(findings.iter().all(|finding| !finding.test_compiled_only));
}

#[test]
fn public_surface_compiled_only_for_tests_is_analyzed() {
    let production_input = fragments(vec![], vec![]);
    let mut test_input = test_fragments(
        vec![
            node("test_entry", "test_support", true),
            node("test_helper", "test_support", true),
        ],
        vec![Edge {
            from: test_id("test_entry"),
            to: test_id("test_helper"),
            kind: EdgeKind::Body,
        }],
    );
    test_input[1].crate_name = "test_support".into();

    let findings = analyze_with_tests(
        &production_input,
        &test_input,
        &candidate_crates(),
        &HashSet::new(),
    );

    assert_eq!(findings.len(), 1);
    assert_eq!(findings[0].kind, FindingKind::UnnecessaryPublic);
    assert_eq!(findings[0].definition.id, test_id("test_helper"));
    assert!(findings[0].test_only);
    assert!(findings[0].test_compiled_only);
}

#[test]
fn dead_public_surface_compiled_only_for_tests_is_reported() {
    let production_input = fragments(vec![], vec![]);
    let mut test_input = test_fragments(vec![node("unused", "test_support", true)], vec![]);
    test_input[1].crate_name = "test_support".into();

    let findings = analyze_with_tests(
        &production_input,
        &test_input,
        &candidate_crates(),
        &HashSet::new(),
    );

    assert_eq!(findings.len(), 1);
    assert_eq!(findings[0].kind, FindingKind::DeadPublic);
    assert_eq!(findings[0].definition.id, test_id("unused"));
    assert!(!findings[0].test_only);
    assert!(findings[0].test_compiled_only);
}

#[test]
fn public_declarations_in_test_binary_targets_are_not_candidates() {
    let production_input = fragments(vec![], vec![]);
    let mut test_input = test_fragments(vec![], vec![]);
    test_input[0]
        .definitions
        .push(node("public_test_helper", "integration_test", true));

    assert!(
        analyze_with_tests(
            &production_input,
            &test_input,
            &candidate_crates(),
            &HashSet::new(),
        )
        .is_empty()
    );
}

#[test]
fn binary_products_named_like_libraries_remain_audited_without_becoming_candidates() {
    let mut production_input = fragments(vec![], vec![]);
    let binary = &mut production_input[0];
    binary.package_name = "lib".into();
    binary.crate_name = "lib".into();
    binary.crate_root = Some("lib/src/main.rs".into());
    binary.definitions[0].crate_name = "lib".into();
    binary
        .definitions
        .push(node("binary_product_helper", "lib", true));
    binary.edges.push(Edge {
        from: test_id("main"),
        to: test_id("binary_product_helper"),
        kind: EdgeKind::Body,
    });
    production_input[1]
        .definitions
        .push(node("library_helper", "lib", true));

    let audited_fragments = AuditedFragments::new(&production_input, &[]);
    assert!(audited_fragments.contains(&production_input[0]));
    assert!(audited_fragments.contains(&production_input[1]));

    let findings =
        analyze_with_tests(&production_input, &[], &candidate_crates(), &HashSet::new());

    assert_eq!(findings.len(), 1);
    assert_eq!(findings[0].kind, FindingKind::DeadPublic);
    assert_eq!(findings[0].definition.id, test_id("library_helper"));
}

#[test]
fn mixed_products_exclude_same_named_integration_test_declarations() {
    let mut production_input = fragments(vec![], vec![]);
    production_input[1].is_product_root = true;
    production_input[1].product_root_kind = Some(ProductionTargetKind::Library);

    let mut test_input = test_fragments(vec![node("library_test_helper", "lib", true)], vec![]);
    let integration_test = &mut test_input[0];
    integration_test.package_name = "lib".into();
    integration_test.crate_name = "lib".into();
    integration_test.crate_root = Some("lib/tests/lib.rs".into());
    integration_test.definitions[0].crate_name = "lib".into();
    integration_test
        .definitions
        .push(node("integration_test_helper", "lib", true));

    let findings = analyze_with_tests(
        &production_input,
        &test_input,
        &candidate_crates(),
        &HashSet::new(),
    );

    assert_eq!(findings.len(), 1);
    assert_eq!(findings[0].kind, FindingKind::DeadPublic);
    assert_eq!(findings[0].definition.id, test_id("library_test_helper"));
    assert!(findings[0].test_compiled_only);
}

#[test]
fn crate_visible_declarations_in_test_binary_targets_named_like_library_are_not_candidates() {
    let production_input = fragments(vec![], vec![]);
    let mut test_input = test_fragments(vec![], vec![]);
    test_input[0].crate_name = "lib".into();
    test_input[0].test_surface = false;
    test_input[0].definitions[0].crate_name = "lib".into();
    test_input[0]
        .definitions
        .push(crate_visible_node("resolver::resolve", &["resolver"]));
    test_input[0].edges.push(Edge {
        from: test_id("test_main"),
        to: test_id("resolver::resolve"),
        kind: EdgeKind::Body,
    });

    assert!(
        analyze_with_tests(
            &production_input,
            &test_input,
            &candidate_crates(),
            &HashSet::new(),
        )
        .is_empty()
    );
}

#[test]
fn test_harness_does_not_expand_existing_production_candidate_surface() {
    let production_input = fragments(vec![node("production_hidden", "lib", false)], vec![]);
    let mut test_hidden = node("test_hidden", "lib", true);
    test_hidden.name = "production_hidden".into();
    let test_input = test_fragments(vec![test_hidden], vec![]);

    assert!(
        analyze_with_tests(
            &production_input,
            &test_input,
            &candidate_crates(),
            &HashSet::new(),
        )
        .is_empty()
    );
}

#[test]
fn public_entry_needed_across_crates_is_clean() {
    let mut input = fragments(vec![node("entry", "lib", true)], vec![]);
    input[0].edges.push(Edge {
        from: test_id("main"),
        to: test_id("entry"),
        kind: EdgeKind::Body,
    });

    assert!(analyze(&input, &HashSet::new()).is_empty());
}

#[test]
fn cross_crate_variant_use_requires_its_parent_enum_to_remain_public() {
    let mut input = fragments(
        vec![
            typed_node("api_enum", "lib", true, DefinitionKind::Enum),
            typed_node("api_enum::used", "lib", true, DefinitionKind::EnumVariant),
        ],
        vec![Edge {
            from: test_id("api_enum::used"),
            to: test_id("api_enum"),
            kind: EdgeKind::Interface,
        }],
    );
    input[0].edges.push(Edge {
        from: test_id("main"),
        to: test_id("api_enum::used"),
        kind: EdgeKind::Body,
    });

    assert!(analyze(&input, &HashSet::new()).is_empty());
}

#[test]
fn internally_used_variant_of_required_public_enum_is_not_reported() {
    let mut input = fragments(
        vec![
            typed_node("entry", "lib", true, DefinitionKind::Function),
            typed_node("api_enum", "lib", true, DefinitionKind::Enum),
            typed_node(
                "api_enum::internal",
                "lib",
                true,
                DefinitionKind::EnumVariant,
            ),
        ],
        vec![
            Edge {
                from: test_id("entry"),
                to: test_id("api_enum"),
                kind: EdgeKind::Interface,
            },
            Edge {
                from: test_id("entry"),
                to: test_id("api_enum::internal"),
                kind: EdgeKind::Body,
            },
        ],
    );
    input[0].edges.push(Edge {
        from: test_id("main"),
        to: test_id("entry"),
        kind: EdgeKind::Body,
    });

    assert!(analyze(&input, &HashSet::new()).is_empty());
}

#[test]
fn cross_crate_field_use_requires_its_public_payload_type_to_remain_public() {
    let mut input = fragments(
        vec![
            typed_node("api_field", "lib", true, DefinitionKind::Field),
            typed_node("payload", "lib", true, DefinitionKind::Struct),
        ],
        vec![Edge {
            from: test_id("api_field"),
            to: test_id("payload"),
            kind: EdgeKind::Interface,
        }],
    );
    input[0].edges.push(Edge {
        from: test_id("main"),
        to: test_id("api_field"),
        kind: EdgeKind::Body,
    });

    assert!(analyze(&input, &HashSet::new()).is_empty());
}

#[test]
fn cross_crate_generated_field_use_preserves_its_source_field_visibility() {
    let mut input = fragments(
        vec![
            typed_node("source_field", "lib", true, DefinitionKind::Field),
            typed_node("generated_field", "lib", false, DefinitionKind::Field),
        ],
        vec![Edge {
            from: test_id("generated_field"),
            to: test_id("source_field"),
            kind: EdgeKind::VisibilityRequirement,
        }],
    );
    input[0].edges.push(Edge {
        from: test_id("main"),
        to: test_id("generated_field"),
        kind: EdgeKind::Body,
    });

    assert!(analyze(&input, &HashSet::new()).is_empty());
}

#[test]
fn internal_generated_field_use_does_not_make_its_source_field_live() {
    let mut input = fragments(
        vec![
            typed_node("entry", "lib", true, DefinitionKind::Function),
            typed_node("source_field", "lib", true, DefinitionKind::Field),
            typed_node("generated_field", "lib", false, DefinitionKind::Field),
        ],
        vec![
            Edge {
                from: test_id("entry"),
                to: test_id("generated_field"),
                kind: EdgeKind::Body,
            },
            Edge {
                from: test_id("generated_field"),
                to: test_id("source_field"),
                kind: EdgeKind::VisibilityRequirement,
            },
        ],
    );
    input[0].edges.push(Edge {
        from: test_id("main"),
        to: test_id("entry"),
        kind: EdgeKind::Body,
    });

    let findings = analyze(&input, &HashSet::new());

    assert_eq!(findings.len(), 1);
    assert_eq!(findings[0].kind, FindingKind::DeadPublic);
    assert_eq!(findings[0].definition.id, test_id("source_field"));
}

#[test]
fn typechecked_cross_crate_reference_requires_public_visibility() {
    let mut input = fragments(vec![node("entry", "lib", true)], vec![]);
    input[0]
        .definitions
        .push(node("unreachable_helper", "app", false));
    input[0].edges.push(Edge {
        from: test_id("unreachable_helper"),
        to: test_id("entry"),
        kind: EdgeKind::Body,
    });

    assert!(analyze(&input, &HashSet::new()).is_empty());
}

#[test]
fn duplicate_compilation_units_share_liveness() {
    let mut input = fragments(
        vec![
            node("duplicate_a", "lib", true),
            node("duplicate_b", "lib", true),
        ],
        vec![],
    );
    input[1].definitions[0].name = "duplicate".into();
    input[1].definitions[1].name = "duplicate".into();
    for definition in &mut input[1].definitions {
        definition.expansion_span = Some(expansion(4, 12));
    }
    let duplicate = input[1].definitions.pop().unwrap();
    input.push(Fragment {
        protocol_version: ProtocolVersion,
        package_name: "lib".into(),
        crate_name: "lib".into(),
        compilation_target: "aarch64-apple-darwin".into(),
        crate_id: test_id("lib-test"),
        crate_root: Some("lib/src/lib.rs".into()),
        is_product_root: false,
        product_root_kind: None,
        test_surface: false,
        non_production_consumer: false,
        definitions: vec![duplicate],
        edges: vec![],
        roots: vec![],
        conservative_roots: vec![],
        required_public_roots: vec![],
    });
    input[0].edges.push(Edge {
        from: test_id("main"),
        to: test_id("duplicate_b"),
        kind: EdgeKind::Body,
    });

    assert!(analyze(&input, &HashSet::new()).is_empty());
}

#[test]
fn spanless_declarations_in_different_crates_do_not_share_liveness() {
    let mut input = fragments(vec![node("generated_live", "lib", true)], vec![]);
    input[1].definitions[0].name = "generated".into();
    let mut generated_dead = node("generated_dead", "test_support", true);
    generated_dead.name = "generated".into();
    input.push(Fragment {
        protocol_version: ProtocolVersion,
        package_name: "test_support".into(),
        crate_name: "test_support".into(),
        compilation_target: "aarch64-apple-darwin".into(),
        crate_id: test_id("test_support"),
        crate_root: Some("test_support/src/lib.rs".into()),
        is_product_root: false,
        product_root_kind: None,
        test_surface: false,
        non_production_consumer: false,
        definitions: vec![generated_dead],
        edges: vec![],
        roots: vec![],
        conservative_roots: vec![],
        required_public_roots: vec![],
    });
    input[0].edges.push(Edge {
        from: test_id("main"),
        to: test_id("generated_live"),
        kind: EdgeKind::Body,
    });

    let findings = analyze(&input, &HashSet::new());

    assert_eq!(findings.len(), 1);
    assert_eq!(findings[0].definition.id, test_id("generated_dead"));
    assert_eq!(findings[0].kind, FindingKind::DeadPublic);
}

#[test]
fn spanless_declarations_in_different_crates_do_not_share_interface_requirements() {
    let mut input = fragments(
        vec![
            node("factory", "lib", true),
            node("generated_live", "lib", true),
        ],
        vec![Edge {
            from: test_id("factory"),
            to: test_id("generated_live"),
            kind: EdgeKind::Interface,
        }],
    );
    input[1].definitions[1].name = "generated".into();
    let mut generated_dead = node("generated_dead", "test_support", true);
    generated_dead.name = "generated".into();
    input.push(Fragment {
        protocol_version: ProtocolVersion,
        package_name: "test_support".into(),
        crate_name: "test_support".into(),
        compilation_target: "aarch64-apple-darwin".into(),
        crate_id: test_id("test_support"),
        crate_root: Some("test_support/src/lib.rs".into()),
        is_product_root: false,
        product_root_kind: None,
        test_surface: false,
        non_production_consumer: false,
        definitions: vec![generated_dead],
        edges: vec![],
        roots: vec![],
        conservative_roots: vec![],
        required_public_roots: vec![],
    });
    input[0].edges.push(Edge {
        from: test_id("main"),
        to: test_id("factory"),
        kind: EdgeKind::Body,
    });

    let findings = analyze(&input, &HashSet::new());

    assert_eq!(findings.len(), 1);
    assert_eq!(findings[0].definition.id, test_id("generated_dead"));
    assert_eq!(findings[0].kind, FindingKind::DeadPublic);
}

#[test]
fn spanless_declarations_in_same_named_targets_do_not_share_liveness() {
    for (source_root, package_name, other_root) in [
        ("lib/src/lib.rs", "secondary", "secondary/src/main.rs"),
        ("lib/src/lib.rs", "lib", "lib/src/main.rs"),
        ("lib/src/lib.rs", "lib", "lib/tests/lib.rs"),
        ("lib/src/lib.rs", "lib", "lib/benches/lib.rs"),
        ("lib/src/main.rs", "lib", "lib/examples/lib.rs"),
    ] {
        let mut generated_library = node("generated_library", "lib", false);
        generated_library.name = "generated".into();
        let mut input = fragments(
            vec![generated_library, node("unreachable_public", "lib", true)],
            vec![Edge {
                from: test_id("generated_library"),
                to: test_id("unreachable_public"),
                kind: EdgeKind::Body,
            }],
        );
        input[1].crate_root = Some(source_root.into());
        let mut generated_binary = node("generated_binary", "lib", false);
        generated_binary.name = "generated".into();
        input.push(Fragment {
            protocol_version: ProtocolVersion,
            package_name: package_name.into(),
            crate_name: "lib".into(),
            compilation_target: "aarch64-apple-darwin".into(),
            crate_id: test_id(&format!("{package_name}-bin")),
            crate_root: Some(other_root.into()),
            is_product_root: true,
            product_root_kind: Some(ProductionTargetKind::Binary),
            test_surface: false,
            non_production_consumer: false,
            definitions: vec![node("binary_main", "lib", false), generated_binary],
            edges: vec![Edge {
                from: test_id("binary_main"),
                to: test_id("generated_binary"),
                kind: EdgeKind::Body,
            }],
            roots: vec![test_id("binary_main")],
            conservative_roots: vec![],
            required_public_roots: vec![],
        });

        let findings = analyze(&input, &HashSet::new());

        assert_eq!(
            findings.len(),
            1,
            "target `{other_root}` in package `{package_name}`"
        );
        assert_eq!(findings[0].definition.id, test_id("unreachable_public"));
        assert_eq!(findings[0].kind, FindingKind::DeadPublic);
    }
}

#[test]
fn distinct_or_unknown_spanless_declarations_do_not_share_liveness() {
    for (production_expansion, test_expansion) in [
        (Some(expansion(4, 12)), Some(expansion(8, 12))),
        (Some(expansion(4, 12)), Some(expansion(4, 15))),
        (None, None),
    ] {
        let mut generated_production = node("generated_production", "lib", false);
        generated_production.name = "generated".into();
        generated_production.expansion_span = production_expansion;
        let mut input = fragments(
            vec![
                generated_production,
                node("unreachable_public", "lib", true),
            ],
            vec![Edge {
                from: test_id("generated_production"),
                to: test_id("unreachable_public"),
                kind: EdgeKind::Body,
            }],
        );

        let mut generated_test = node("generated_test", "lib", false);
        generated_test.name = "generated".into();
        generated_test.expansion_span = test_expansion;
        input.push(Fragment {
            protocol_version: ProtocolVersion,
            package_name: "lib".into(),
            crate_name: "lib".into(),
            compilation_target: "aarch64-apple-darwin".into(),
            crate_id: test_id("lib-test"),
            crate_root: Some("lib/src/lib.rs".into()),
            is_product_root: false,
            product_root_kind: None,
            test_surface: true,
            non_production_consumer: true,
            definitions: vec![node("test", "lib", false), generated_test],
            edges: vec![Edge {
                from: test_id("test"),
                to: test_id("generated_test"),
                kind: EdgeKind::Body,
            }],
            roots: vec![test_id("test")],
            conservative_roots: vec![],
            required_public_roots: vec![],
        });

        let findings = analyze(&input, &HashSet::new());

        assert_eq!(findings.len(), 1);
        assert_eq!(findings[0].definition.id, test_id("unreachable_public"));
        assert_eq!(findings[0].kind, FindingKind::DeadPublic);
    }
}

#[test]
fn same_span_declarations_in_one_compilation_unit_do_not_share_liveness() {
    let mut input = fragments(
        vec![
            node("first", "lib", true),
            node("second", "lib", true),
            node("entry", "lib", false),
        ],
        vec![Edge {
            from: test_id("entry"),
            to: test_id("first"),
            kind: EdgeKind::Body,
        }],
    );
    for definition in &mut input[1].definitions[..2] {
        definition.span = Some(Span {
            file: "shared.rs".into(),
            line: 1,
            column: 1,
        });
    }
    input[0].edges.push(Edge {
        from: test_id("main"),
        to: test_id("entry"),
        kind: EdgeKind::Body,
    });

    let findings = analyze(&input, &HashSet::new());

    assert_eq!(findings.len(), 2);
    assert_eq!(findings[0].definition.id, test_id("first"));
    assert_eq!(findings[0].kind, FindingKind::UnnecessaryPublic);
    assert_eq!(findings[1].definition.id, test_id("second"));
    assert_eq!(findings[1].kind, FindingKind::DeadPublic);
}

#[test]
fn repeated_source_local_helpers_can_be_private() {
    let mut left = crate_visible_node("left::helper", &["left"]);
    let mut right = crate_visible_node("right::helper", &["right"]);
    for definition in [&mut left, &mut right] {
        definition.span = Some(Span {
            file: "shared.rs".into(),
            line: 1,
            column: 1,
        });
    }
    let input = fragments(
        vec![
            left,
            right,
            scoped_node("left::caller", &["left"]),
            scoped_node("right::caller", &["right"]),
        ],
        vec![
            Edge {
                from: test_id("left::caller"),
                to: test_id("left::helper"),
                kind: EdgeKind::Body,
            },
            Edge {
                from: test_id("right::caller"),
                to: test_id("right::helper"),
                kind: EdgeKind::Body,
            },
        ],
    );

    let findings = analyze(&input, &HashSet::new());

    assert_eq!(findings.len(), 2);
    assert!(
        findings
            .iter()
            .all(|finding| finding.kind == FindingKind::UnnecessaryRestrictedVisibility)
    );
}

#[test]
fn repeated_source_cross_parent_use_preserves_crate_visibility() {
    let mut first =
        crate_visible_node("first_parent::first::helper", &["first_parent", "first"]);
    let mut second = crate_visible_node(
        "second_parent::second::helper",
        &["second_parent", "second"],
    );
    for definition in [&mut first, &mut second] {
        definition.span = Some(Span {
            file: "shared.rs".into(),
            line: 1,
            column: 1,
        });
    }
    let input = fragments(
        vec![
            first,
            second,
            scoped_node("first_parent::caller", &["first_parent"]),
        ],
        vec![Edge {
            from: test_id("first_parent::caller"),
            to: test_id("second_parent::second::helper"),
            kind: EdgeKind::Body,
        }],
    );

    assert!(analyze(&input, &HashSet::new()).is_empty());
}

#[test]
fn repeated_source_preserves_uniform_field_visibility() {
    let mut first_value = uniform_field(crate_visible_node(
        "first_parent::first::value",
        &["first_parent", "first"],
    ));
    let mut second_value = uniform_field(crate_visible_node(
        "second_parent::second::value",
        &["second_parent", "second"],
    ));
    let mut first_spare = uniform_field(crate_visible_node(
        "first_parent::first::spare",
        &["first_parent", "first"],
    ));
    let mut second_spare = uniform_field(crate_visible_node(
        "second_parent::second::spare",
        &["second_parent", "second"],
    ));
    for definition in [&mut first_value, &mut second_value] {
        definition.span = Some(Span {
            file: "shared.rs".into(),
            line: 2,
            column: 5,
        });
    }
    for definition in [&mut first_spare, &mut second_spare] {
        definition.span = Some(Span {
            file: "shared.rs".into(),
            line: 3,
            column: 5,
        });
    }
    let input = fragments(
        vec![
            first_value,
            second_value,
            first_spare,
            second_spare,
            scoped_node("first_parent::caller", &["first_parent"]),
        ],
        vec![Edge {
            from: test_id("first_parent::caller"),
            to: test_id("second_parent::second::value"),
            kind: EdgeKind::Body,
        }],
    );

    assert!(analyze_preserving_uniform_fields(&input).is_empty());
}

#[test]
fn large_repeated_source_group_is_analyzed_once() {
    const DEFINITIONS: usize = 20_000;

    let mut definitions = Vec::with_capacity(2 * DEFINITIONS);
    let mut edges = Vec::with_capacity(DEFINITIONS);
    for index in 0..DEFINITIONS {
        let module = format!("path_{index}");
        let helper = format!("{module}::helper");
        let caller = format!("{module}::caller");
        let mut definition = uniform_field(crate_visible_node(&helper, &[&module]));
        definition.span = Some(Span {
            file: "shared.rs".into(),
            line: 1,
            column: 1,
        });
        definitions.push(definition);
        definitions.push(scoped_node(&caller, &[&module]));
        edges.push(Edge {
            from: test_id(&caller),
            to: test_id(&helper),
            kind: EdgeKind::Body,
        });
    }
    let input = fragments(definitions, edges);
    let findings = analyze_preserving_uniform_fields(&input);

    assert_eq!(findings.len(), DEFINITIONS);
}

#[test]
fn unreachable_public_reference_does_not_keep_a_helper_alive() {
    let input = fragments(
        vec![
            node("debug_entry", "lib", true),
            node("helper", "lib", true),
        ],
        vec![Edge {
            from: test_id("debug_entry"),
            to: test_id("helper"),
            kind: EdgeKind::Body,
        }],
    );
    let findings = analyze(&input, &HashSet::new());

    assert_eq!(findings.len(), 2);
    assert!(
        findings
            .iter()
            .all(|finding| finding.kind == FindingKind::DeadPublic)
    );
}

#[test]
fn dead_code_allow_suppresses_an_entry_but_preserves_its_body() {
    let mut allowed_entry = node("allowed_entry", "lib", true);
    allowed_entry.dead_code_allowed = true;
    let mut input = fragments(
        vec![allowed_entry, node("helper", "lib", true)],
        vec![Edge {
            from: test_id("allowed_entry"),
            to: test_id("helper"),
            kind: EdgeKind::Body,
        }],
    );
    input[1].conservative_roots.push(test_id("allowed_entry"));

    let findings = analyze(&input, &HashSet::new());

    assert_eq!(findings.len(), 1);
    assert_eq!(findings[0].definition.id, test_id("helper"));
    assert_eq!(findings[0].kind, FindingKind::UnnecessaryPublic);
}

#[test]
fn public_signature_type_of_a_cross_crate_entry_stays_public() {
    let mut input = fragments(
        vec![
            node("factory", "lib", true),
            node("return_type", "lib", true),
        ],
        vec![Edge {
            from: test_id("factory"),
            to: test_id("return_type"),
            kind: EdgeKind::Interface,
        }],
    );
    input[0].edges.push(Edge {
        from: test_id("main"),
        to: test_id("factory"),
        kind: EdgeKind::Body,
    });

    assert!(analyze(&input, &HashSet::new()).is_empty());
}

#[test]
fn trait_interface_type_required_by_rust_visibility_is_clean() {
    let mut input = fragments(vec![node("options", "lib", true)], vec![]);
    input[1].required_public_roots.push(test_id("options"));

    assert!(analyze(&input, &HashSet::new()).is_empty());
}

#[test]
fn public_reexport_target_required_by_rust_visibility_is_clean() {
    let mut input = fragments(vec![node("reexported", "lib", true)], vec![]);
    input[1].required_public_roots.push(test_id("reexported"));

    assert!(analyze(&input, &HashSet::new()).is_empty());
}

#[test]
fn dead_public_reexport_is_reported_without_narrowing_its_target() {
    let mut input = fragments(
        vec![
            typed_node("alias", "lib", true, DefinitionKind::Reexport),
            node("target", "lib", true),
        ],
        vec![Edge {
            from: test_id("alias"),
            to: test_id("target"),
            kind: EdgeKind::Reexport,
        }],
    );
    input[1].required_public_roots.push(test_id("target"));

    let findings = analyze(&input, &HashSet::new());

    assert_eq!(findings.len(), 1);
    assert_eq!(findings[0].kind, FindingKind::DeadPublic);
    assert_eq!(findings[0].definition.id, test_id("alias"));
}

#[test]
fn locally_used_public_reexport_can_be_narrowed() {
    let mut input = fragments(
        vec![
            typed_node("alias", "lib", true, DefinitionKind::Reexport),
            node("entry", "lib", true),
            node("target", "lib", true),
        ],
        vec![
            Edge {
                from: test_id("alias"),
                to: test_id("target"),
                kind: EdgeKind::Reexport,
            },
            Edge {
                from: test_id("entry"),
                to: test_id("target"),
                kind: EdgeKind::Body,
            },
        ],
    );
    input[0].edges.push(Edge {
        from: test_id("main"),
        to: test_id("entry"),
        kind: EdgeKind::Body,
    });
    input[1].required_public_roots.push(test_id("target"));

    let findings = analyze(&input, &HashSet::new());

    assert_eq!(findings.len(), 1);
    assert_eq!(findings[0].kind, FindingKind::UnnecessaryPublic);
    assert_eq!(findings[0].definition.id, test_id("alias"));
}

#[test]
fn possible_cross_crate_consumer_preserves_public_reexport() {
    let mut input = fragments(
        vec![
            typed_node("alias", "lib", true, DefinitionKind::Reexport),
            node("target", "lib", true),
        ],
        vec![Edge {
            from: test_id("alias"),
            to: test_id("target"),
            kind: EdgeKind::Reexport,
        }],
    );
    input[0].edges.push(Edge {
        from: test_id("main"),
        to: test_id("target"),
        kind: EdgeKind::Body,
    });
    input[1].required_public_roots.push(test_id("target"));

    assert!(analyze(&input, &HashSet::new()).is_empty());
}

#[test]
fn internally_used_public_module_can_be_narrowed() {
    let mut input = fragments(
        vec![
            typed_node("namespace", "lib", true, DefinitionKind::Module),
            node("entry", "lib", true),
            node("child", "lib", false),
        ],
        vec![
            Edge {
                from: test_id("entry"),
                to: test_id("child"),
                kind: EdgeKind::Body,
            },
            Edge {
                from: test_id("child"),
                to: test_id("namespace"),
                kind: EdgeKind::VisibilityParent,
            },
        ],
    );
    input[0].edges.push(Edge {
        from: test_id("main"),
        to: test_id("entry"),
        kind: EdgeKind::Body,
    });

    let findings = analyze(&input, &HashSet::new());

    assert_eq!(findings.len(), 1);
    assert_eq!(findings[0].kind, FindingKind::UnnecessaryPublic);
    assert_eq!(findings[0].definition.id, test_id("namespace"));
}

#[test]
fn cross_crate_descendant_preserves_public_module_path() {
    let mut input = fragments(
        vec![
            typed_node("namespace", "lib", true, DefinitionKind::Module),
            node("child", "lib", true),
        ],
        vec![Edge {
            from: test_id("child"),
            to: test_id("namespace"),
            kind: EdgeKind::VisibilityParent,
        }],
    );
    input[0].edges.push(Edge {
        from: test_id("main"),
        to: test_id("child"),
        kind: EdgeKind::Body,
    });

    assert!(analyze(&input, &HashSet::new()).is_empty());
}

#[test]
fn live_trait_item_keeps_containing_trait_live() {
    let mut input = fragments(
        vec![node("extension_trait", "lib", true)],
        vec![Edge {
            from: test_id("extension_method"),
            to: test_id("extension_trait"),
            kind: EdgeKind::Interface,
        }],
    );
    input[1]
        .definitions
        .push(node("extension_method", "lib", false));
    input[1]
        .conservative_roots
        .push(test_id("extension_method"));

    let findings = analyze(&input, &HashSet::new());

    assert_eq!(findings.len(), 1);
    assert_eq!(findings[0].kind, FindingKind::UnnecessaryPublic);
    assert_eq!(findings[0].definition.id, test_id("extension_trait"));
}

#[test]
fn definition_ids_are_compact_and_round_trip() {
    let id = DefinitionId::new(0x0123_4567_89ab_cdef, 0xfedc_ba98_7654_3210);

    assert_eq!(std::mem::size_of::<DefinitionId>(), 16);
    assert_eq!(id.to_hex(), "0123456789abcdeffedcba9876543210");

    let serialized = serde_json::to_string(&(id.stable_crate_id, id.local_hash))
        .expect("serialize definition ID");
    assert_eq!(serialized, "[81985529216486895,18364758544493064720]");
    let (stable_crate_id, local_hash) =
        serde_json::from_str::<(u64, u64)>(&serialized).expect("deserialize definition ID");
    assert_eq!(DefinitionId::new(stable_crate_id, local_hash), id);
    assert!(serde_json::from_str::<(u64, u64)>("\"DefPathHash(Fingerprint(1, 2))\"").is_err());
}

#[test]
fn uses_test_compiled_declaration() {
    let located = |id: &str, name: &str, public_api: bool, line: usize| {
        let mut definition = source(node(id, "library", public_api), line);
        definition.name = name.into();
        definition
    };
    let library_fragment = |definitions: Vec<Definition>, test_surface: bool| Fragment {
        protocol_version: ProtocolVersion,
        package_name: "library".into(),
        crate_name: "library".into(),
        compilation_target: "aarch64-apple-darwin".into(),
        crate_id: test_id("library"),
        crate_root: Some("library/src/lib.rs".into()),
        is_product_root: test_surface,
        product_root_kind: None,
        test_surface,
        non_production_consumer: test_surface,
        definitions,
        edges: vec![],
        roots: vec![],
        conservative_roots: vec![],
        required_public_roots: vec![],
    };
    let mut production = vec![library_fragment(vec![located("integration_only", "integration_only", true, 1)], false)];
    production[0].is_product_root = true;
    production[0].product_root_kind = Some(ProductionTargetKind::Library);

    let mut unit_tests = library_fragment(
        vec![
            located("unit_integration_only", "integration_only", true, 1),
            located("test_compiled_only", "test_compiled_only", true, 4),
            located("uses_test_compiled_declaration", "uses_test_compiled_declaration", false, 9),
        ],
        true,
    );
    unit_tests.edges = vec![Edge {
        from: test_id("uses_test_compiled_declaration"),
        to: test_id("test_compiled_only"),
        kind: EdgeKind::Body,
    }];
    unit_tests.roots = vec![test_id("uses_test_compiled_declaration")];
    let linked_library = library_fragment(vec![located("test_integration_only", "integration_only", true, 1)], false);
    let integration = Fragment {
        protocol_version: ProtocolVersion,
        package_name: "library".into(),
        crate_name: "integration".into(),
        compilation_target: "aarch64-apple-darwin".into(),
        crate_id: test_id("integration"),
        crate_root: Some("library/tests/integration.rs".into()),
        is_product_root: true,
        product_root_kind: None,
        test_surface: true,
        non_production_consumer: true,
        definitions: vec![node("integration_test", "integration", false)],
        edges: vec![Edge {
            from: test_id("integration_test"),
            to: test_id("test_integration_only"),
            kind: EdgeKind::Body,
        }],
        roots: vec![test_id("integration_test")],
        conservative_roots: vec![],
        required_public_roots: vec![],
    };
    let tests = vec![unit_tests, linked_library, integration];
    let candidates: HashSet<String> = ["library".to_owned()].into_iter().collect();

    let findings = finding_summaries(analyze_with_tests(&production, &tests, &candidates, &HashSet::new()));

    assert!(findings.contains(&(FindingKind::TestOnly, "integration_only".to_owned(), true, false)), "{findings:?}");
    assert!(!findings
        .iter()
        .any(|(kind, name, _, _)| *kind == FindingKind::TestOnly && name == "test_compiled_only"));
}

fn finding_identities(findings: &[Finding<'_>]) -> Vec<(FindingKind, String, String, bool, bool)> {
    findings
        .iter()
        .map(|finding| {
            (
                finding.kind,
                finding.definition.crate_name.clone(),
                finding.definition.name.clone(),
                finding.test_only,
                finding.test_compiled_only,
            )
        })
        .collect()
}

fn two_crate_input() -> Vec<Fragment> {
    let mut input = fragments(
        vec![
            node("dead_library_item", "lib", true),
            node("dead_support_item", "test_support", true),
            node("entry", "lib", true),
            node("helper", "lib", true),
            uniform_field(node("kept_field", "lib", true)),
            uniform_field(node("spare_field", "lib", true)),
        ],
        vec![
            Edge { from: test_id("entry"), to: test_id("helper"), kind: EdgeKind::Body },
            Edge { from: test_id("entry"), to: test_id("spare_field"), kind: EdgeKind::Body },
        ],
    );
    input[0].edges.extend([
        Edge { from: test_id("main"), to: test_id("entry"), kind: EdgeKind::Body },
        Edge { from: test_id("main"), to: test_id("kept_field"), kind: EdgeKind::Body },
    ]);
    input
}

#[test]
fn analyze_reports_what_the_default_options_report() {
    let input = two_crate_input();
    let plain = analyze_with_tests(&input, &[], &candidate_crates(), &HashSet::new());
    let with_options = analyze_with_options(&input, &[], &candidate_crates(), &HashSet::new(), false);
    assert!(!plain.is_empty());
    assert_eq!(finding_identities(&plain), finding_identities(&with_options));
}

#[test]
fn excluding_or_dropping_a_crate_only_removes_its_findings() {
    let input = two_crate_input();
    let before = analyze(&input, &HashSet::new());
    let expected: Vec<_> = finding_identities(&before)
        .into_iter()
        .filter(|(_, crate_name, _, _, _)| crate_name != "test_support")
        .collect();
    assert!(finding_identities(&before).iter().any(|(_, crate_name, _, _, _)| crate_name == "test_support"));

    let excluded: HashSet<String> = ["test_support".to_owned()].into_iter().collect();
    assert_eq!(finding_identities(&analyze(&input, &excluded)), expected);

    let mut candidates = candidate_crates();
    candidates.remove("test_support");
    let dropped = analyze_with_tests(&input, &[], &candidates, &HashSet::new());
    assert_eq!(finding_identities(&dropped), expected);
}

#[test]
fn uniform_fields_only_remove_or_widen_findings() {
    let input = two_crate_input();
    let plain = finding_identities(&analyze(&input, &HashSet::new()));
    let preserving = finding_identities(&analyze_preserving_uniform_fields(&input));
    assert!(preserving.len() <= plain.len());
    assert!(preserving.len() < plain.len(), "the uniform group keeps its shared visibility");
    for finding in &plain {
        if matches!(finding.0, FindingKind::DeadPublic | FindingKind::TestOnly) {
            assert!(preserving.contains(finding), "{finding:?} is kept");
        }
    }
    for finding in &preserving {
        assert!(plain.iter().any(|before| {
            before.1 == finding.1
                && before.2 == finding.2
                && before.3 == finding.3
                && before.4 == finding.4
                && (before.0 == finding.0
                    || (before.0 == FindingKind::UnnecessaryRestrictedVisibility
                        && finding.0 == FindingKind::UnnecessaryCrateVisibility))
        }));
    }
}
