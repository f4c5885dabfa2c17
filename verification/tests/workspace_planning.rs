use hawk_graph::catalog::{
    classify_non_production_target, fix_packages, validate_excluded_crates, validate_product,
    workspace_binaries, workspace_library_crates, workspace_library_sources, WorkspaceError,
};
use hawk_graph::collection::{
    check_product_roots, doctest_rustdoc_flags, settle_fragment_roles, whitespace_words,
    CollectionError,
};
use hawk_graph::config::{FeatureProfile, ProductionProduct};
use hawk_graph::invocation::{cargo_command_arguments, CargoInvocation, CargoSetting, ConsumerMode, ProductionSelection};
use hawk_graph::lints::TerminalColor;
use hawk_graph::locations::{resolve_crate_root, resolve_lexically, target_dir_component};
use hawk_graph::session::{check_fix_profiles, profile_selections, record_fix_signature, require_production};
use hawk_graph::settings::AnalysisTarget;
use hawk_graph::text::split_lines;
use hawk_graph::workspace::{
    production_workspace_packages, DependencyKind, DependencyUse, PackageInfo, PackageTarget,
    ResolvedDependency, ResolvedNode, TargetKind, WorkspaceMetadata,
};
use hawk_graph::{
    Definition, DefinitionId, DefinitionKind, FindingKind, FixPlan, FixTarget, Fragment,
    ProductionTargetKind, ProtocolVersion, VisibilityReduction,
};

fn test_id(value: &str) -> DefinitionId {
    let hash = value.bytes().fold(0xcbf2_9ce4_8422_2325_u64, |hash, byte| {
        (hash ^ u64::from(byte)).wrapping_mul(0x0100_0000_01b3)
    });
    DefinitionId::new(0, hash)
}

fn target(name: &str, kinds: &[TargetKind], source_path: &str) -> PackageTarget {
    PackageTarget {
        name: name.to_owned(),
        kinds: kinds.to_vec(),
        source_path: source_path.to_owned(),
    }
}

fn package(id: &str, name: &str, targets: Vec<PackageTarget>) -> PackageInfo {
    PackageInfo {
        id: id.to_owned(),
        name: name.to_owned(),
        targets,
    }
}

fn metadata(packages: Vec<PackageInfo>, members: &[&str]) -> WorkspaceMetadata {
    WorkspaceMetadata {
        packages,
        workspace_members: members.iter().map(|member| (*member).to_owned()).collect(),
        resolve: None,
    }
}

fn duplicate_library_workspace() -> WorkspaceMetadata {
    metadata(
        vec![
            package(
                "library-a 0.1.0",
                "library-a",
                vec![target("shared", &[TargetKind::Lib], "/workspace/library-a/src/lib.rs")],
            ),
            package(
                "library-b 0.1.0",
                "library-b",
                vec![target("shared", &[TargetKind::Lib], "/workspace/library-b/src/lib.rs")],
            ),
            package(
                "app 0.1.0",
                "app",
                vec![target("app", &[TargetKind::Bin], "/workspace/app/src/main.rs")],
            ),
        ],
        &["library-a 0.1.0", "library-b 0.1.0", "app 0.1.0"],
    )
}

#[test]
fn production_selection_applies_only_to_selected_feature_profiles() {
    let product = ProductionProduct::Binary("debug".to_owned());
    let profiles = vec!["all".to_owned()];
    let selected = ProductionSelection {
        package: "app",
        product: &product,
        feature_profiles: Some(&profiles),
    };
    let unrestricted = ProductionSelection {
        feature_profiles: None,
        ..selected
    };

    assert!(selected.applies_to_name("all"));
    assert!(!selected.applies_to_name("minimal"));
    assert!(unrestricted.applies_to_name("all"));
    assert!(unrestricted.applies_to_name("minimal"));
}

#[test]
fn rejects_unknown_excluded_crates_without_workspace_libraries() {
    let error = validate_excluded_crates(&["foo".to_owned()], &Vec::new())
        .expect_err("unknown excluded crate is rejected");

    assert_eq!(
        error.message(),
        "unknown --exclude-crate value(s): `foo`; this workspace has no library crates"
    );
}

#[test]
fn unknown_excluded_crates_name_the_valid_crates_in_order() {
    let error = validate_excluded_crates(
        &["zeta".to_owned(), "api".to_owned(), "zeta".to_owned(), "core".to_owned()],
        &vec!["core".to_owned(), "beta".to_owned(), "alpha".to_owned()],
    )
    .expect_err("unknown excluded crates are rejected");

    assert_eq!(
        error.message(),
        "unknown --exclude-crate value(s): `api`, `zeta`; valid workspace library crate names: `alpha`, `beta`, `core`"
    );
    assert!(validate_excluded_crates(&["core".to_owned()], &vec!["core".to_owned()]).is_ok());
}

#[test]
fn default_target_dir_uses_platform_temp_directory() {
    let component = target_dir_component(Some("example-workspace"), 0x0123_4567_89ab_cdef);
    let other = target_dir_component(Some("example-workspace"), 0xfedc_ba98_7654_3210);

    assert!(component.starts_with("example-workspace-"));
    assert_eq!(component, "example-workspace-0123456789abcdef");
    assert_ne!(component, other);
    assert_eq!(target_dir_component(None, 1), "workspace-0000000000000001");
}

#[test]
fn default_target_dir_truncates_long_workspace_names() {
    let workspace = "a".repeat(245);
    let component = target_dir_component(Some(&workspace), 0x1111_2222_3333_4444);
    let other_component = target_dir_component(Some(&workspace), 0x5555_6666_7777_8888);

    assert_eq!(component.len(), 240);
    let (workspace, suffix) = component
        .rsplit_once('-')
        .expect("target directory has a hash suffix");
    assert_eq!(workspace, "a".repeat(240 - suffix.len() - 1));
    assert_eq!(suffix.len(), 16);
    assert!(suffix.bytes().all(|byte| byte.is_ascii_hexdigit()));
    assert_ne!(component, other_component);
}

#[test]
fn default_target_dir_truncates_at_a_utf8_boundary() {
    let workspace = "é".repeat(123);
    let component = target_dir_component(Some(&workspace), 42);
    let (workspace, suffix) = component
        .rsplit_once('-')
        .expect("target directory has a hash suffix");

    assert!(component.len() <= 240);
    assert!(!workspace.is_empty());
    assert!(workspace.chars().all(|character| character == 'é'));
    assert_eq!(workspace.len(), 222);
    assert_eq!(suffix.len(), 16);
}

#[test]
fn rejects_duplicate_workspace_library_crate_names() {
    let error = workspace_library_crates(&duplicate_library_workspace(), None)
        .expect_err("duplicate library crate names are rejected");
    let message = error.message();

    assert!(message.contains(
        "conflicting names: `shared` (`library-a`, `library-b`). Hawk identifies graph definitions and fix targets by crate name"
    ));
    assert!(message.contains("give each `[lib]` target a unique `name`"));
}

#[test]
fn rejects_duplicate_audited_library_crate_names() {
    let audited = vec!["shared".to_owned()];
    let error = workspace_library_crates(&duplicate_library_workspace(), Some(&audited))
        .expect_err("an audited duplicate library crate name is rejected");

    assert!(error
        .message()
        .contains("conflicting names: `shared` (`library-a`, `library-b`)"));
}

#[test]
fn unaudited_duplicate_library_crate_names_are_allowed() {
    let audited = vec!["other".to_owned()];
    let crates = workspace_library_crates(&duplicate_library_workspace(), Some(&audited))
        .expect("a duplicate outside the audited crates is allowed");

    assert_eq!(crates, vec!["shared".to_owned()]);
}

#[test]
fn workspace_library_crates_are_sorted_crate_names_of_members() {
    let workspace = metadata(
        vec![
            package(
                "zeta 0.1.0",
                "zeta-lib",
                vec![target("zeta-lib", &[TargetKind::RLib], "/w/zeta/src/lib.rs")],
            ),
            package(
                "alpha 0.1.0",
                "alpha",
                vec![
                    target("alpha", &[TargetKind::CDyLib, TargetKind::Lib], "/w/alpha/src/lib.rs"),
                    target("alpha-cli", &[TargetKind::Bin], "/w/alpha/src/main.rs"),
                ],
            ),
            package(
                "outside 1.0.0",
                "outside",
                vec![target("outside", &[TargetKind::Lib], "/registry/outside/src/lib.rs")],
            ),
        ],
        &["zeta 0.1.0", "alpha 0.1.0"],
    );

    assert_eq!(
        workspace_library_crates(&workspace, None).expect("unique crate names"),
        vec!["alpha".to_owned(), "zeta_lib".to_owned()]
    );
    assert_eq!(
        workspace_binaries(&workspace),
        vec![("alpha".to_owned(), "alpha-cli".to_owned())]
    );
}

#[test]
fn workspace_binaries_are_ordered_by_package_and_name() {
    let workspace = metadata(
        vec![
            package(
                "tools 0.1.0",
                "tools",
                vec![
                    target("zip", &[TargetKind::Bin], "/w/tools/src/bin/zip.rs"),
                    target("archive", &[TargetKind::Bin], "/w/tools/src/bin/archive.rs"),
                ],
            ),
            package(
                "app 0.1.0",
                "app",
                vec![target("app", &[TargetKind::Bin], "/w/app/src/main.rs")],
            ),
        ],
        &["tools 0.1.0", "app 0.1.0"],
    );

    assert_eq!(
        workspace_binaries(&workspace),
        vec![
            ("app".to_owned(), "app".to_owned()),
            ("tools".to_owned(), "archive".to_owned()),
            ("tools".to_owned(), "zip".to_owned()),
        ]
    );
}

fn fix_target(crate_name: &str) -> FixTarget {
    FixTarget {
        id: test_id(crate_name),
        crate_name: crate_name.to_owned(),
        name: "item".to_owned(),
        definition_kind: DefinitionKind::Function,
        span: None,
        kind: FindingKind::UnnecessaryPublic,
        replacement: VisibilityReduction::Crate,
    }
}

#[test]
fn fix_packages_name_the_library_package_of_each_crate() {
    let workspace = metadata(
        vec![
            package("a 0.1.0", "pkg-a", vec![target("my-lib", &[TargetKind::Lib], "/w/a/src/lib.rs")]),
            package("b 0.1.0", "pkg-b", vec![target("my-lib", &[TargetKind::Lib], "/w/b/src/lib.rs")]),
            package("c 0.1.0", "pkg-c", vec![target("other", &[TargetKind::Lib], "/w/c/src/lib.rs")]),
        ],
        &["a 0.1.0", "b 0.1.0", "c 0.1.0"],
    );
    let plan = FixPlan {
        protocol_version: ProtocolVersion,
        targets: vec![fix_target("other"), fix_target("my_lib"), fix_target("my_lib")],
    };

    assert_eq!(
        fix_packages(&workspace, &plan).expect("every crate has a library package"),
        vec!["pkg-a".to_owned(), "pkg-c".to_owned()]
    );

    let plan = FixPlan {
        protocol_version: ProtocolVersion,
        targets: vec![fix_target("missing"), fix_target("other"), fix_target("absent")],
    };
    let error = fix_packages(&workspace, &plan).expect_err("unknown crates are refused");
    assert_eq!(
        error.message(),
        "could not identify Cargo library package(s) for fixes in crate(s): absent, missing"
    );
}

#[test]
fn production_products_must_exist_in_their_package() {
    let workspace = duplicate_library_workspace();

    assert!(validate_product(&workspace, "app", &ProductionProduct::Binary("app".to_owned())).is_ok());
    assert!(
        validate_product(&workspace, "library-a", &ProductionProduct::Library("shared".to_owned()))
            .is_ok()
    );
    let missing = validate_product(&workspace, "app", &ProductionProduct::Library("app".to_owned()))
        .expect_err("the app package has no library target");
    assert_eq!(missing.message(), "package `app` has no lib target `app`");
    let unknown = validate_product(&workspace, "ghost", &ProductionProduct::Binary("ghost".to_owned()))
        .expect_err("unknown packages are refused");
    assert_eq!(unknown.message(), "package `ghost` is not in the selected workspace");
    assert!(matches!(unknown, WorkspaceError::UnknownPackage(_)));
}

fn dependency(package: &str, kinds: &[(DependencyKind, Option<&str>)]) -> ResolvedDependency {
    ResolvedDependency {
        package: package.to_owned(),
        uses: kinds
            .iter()
            .map(|(kind, target)| DependencyUse {
                kind: *kind,
                target: target.map(|selector| selector.to_owned()),
            })
            .collect(),
    }
}

fn resolved_workspace() -> WorkspaceMetadata {
    let mut workspace = metadata(
        vec![
            package("app 0.1.0", "app", vec![target("app", &[TargetKind::Bin], "/w/app/src/main.rs")]),
            package("core 0.1.0", "core", vec![target("core", &[TargetKind::Lib], "/w/core/src/lib.rs")]),
            package("testkit 0.1.0", "testkit", vec![target("testkit", &[TargetKind::Lib], "/w/testkit/src/lib.rs")]),
            package("winonly 0.1.0", "winonly", vec![target("winonly", &[TargetKind::Lib], "/w/winonly/src/lib.rs")]),
        ],
        &["app 0.1.0", "core 0.1.0", "testkit 0.1.0", "winonly 0.1.0"],
    );
    workspace.resolve = Some(vec![
        ResolvedNode {
            id: "app 0.1.0".to_owned(),
            dependencies: vec![
                dependency("core 0.1.0", &[(DependencyKind::Normal, None)]),
                dependency("winonly 0.1.0", &[(DependencyKind::Development, Some("cfg(windows)"))]),
                dependency("testkit 0.1.0", &[(DependencyKind::Development, None)]),
            ],
        },
        ResolvedNode {
            id: "testkit 0.1.0".to_owned(),
            dependencies: vec![dependency("core 0.1.0", &[(DependencyKind::Normal, None)])],
        },
    ]);
    workspace
}

#[test]
fn production_packages_follow_normal_dependencies_for_the_target() {
    let workspace = resolved_workspace();
    let linux = AnalysisTarget::from_cfg_output("x86_64-unknown-linux-gnu", "unix\ntarget_os=\"linux\"\n")
        .expect("valid configuration");
    let mut packages = production_workspace_packages(&workspace, &[], &linux)
        .expect("resolved dependency graph");
    packages.sort();

    assert_eq!(packages, vec!["app".to_owned(), "core".to_owned(), "winonly".to_owned()]);

    let windows = AnalysisTarget::from_cfg_output("x86_64-pc-windows-msvc", "windows\ntarget_os=\"windows\"")
        .expect("valid configuration");
    let mut packages = production_workspace_packages(&workspace, &[], &windows)
        .expect("resolved dependency graph");
    packages.sort();
    assert_eq!(packages, vec!["app".to_owned(), "core".to_owned()]);
}

#[test]
fn production_packages_need_a_resolved_graph() {
    let error = production_workspace_packages(&duplicate_library_workspace(), &[], &AnalysisTarget::from_cfg_output("host", "").expect("no configuration lines"))
    .expect_err("metadata without a resolved graph is refused");

    assert_eq!(error.message(), "Cargo metadata did not contain a resolved dependency graph");
}

#[test]
fn production_packages_refuse_an_invalid_dependency_selector() {
    let mut workspace = resolved_workspace();
    workspace.resolve.as_mut().expect("resolved")[1].dependencies =
        vec![dependency("core 0.1.0", &[(DependencyKind::Normal, Some("cfg(unix"))])];
    let target = AnalysisTarget::from_cfg_output("host", "unix").expect("valid configuration");
    let error = production_workspace_packages(&workspace, &[], &target).expect_err("invalid selector");
    assert_eq!(error.message(), "dependency platform selector `cfg(unix` is not a valid target or cfg expression");
}

#[test]
fn rustc_configuration_lines_are_parsed_or_the_first_bad_line_is_named() {
    let target = AnalysisTarget::from_cfg_output("host", "debug_assertions\r\nunix\ntarget_pointer_width=\"64\"\n")
        .expect("valid configuration");
    assert_eq!(target.name(), "host");
    assert_eq!(target.cfg_lines(), ["debug_assertions", "unix", "target_pointer_width=\"64\""]);

    let error = AnalysisTarget::from_cfg_output("host", "unix\nnot valid(\nalso bad(")
        .expect_err("invalid configuration line");
    assert_eq!(error, "not valid(");
}

#[test]
fn lines_split_like_str_lines() {
    for text in ["", "a", "a\n", "a\r\nb", "\n", "\n\n", "a\rb\n", "one\ntwo\r\n\r\nthree"] {
        let expected: Vec<String> = text.lines().map(str::to_owned).collect();
        assert_eq!(split_lines(text), expected, "lines of {text:?}");
    }
}

#[test]
fn rustdoc_flags_extend_the_environment() {
    assert_eq!(
        doctest_rustdoc_flags(None, None, "/bin/driver"),
        "-Zunstable-options\u{1f}--no-run\u{1f}--test-builder-wrapper\u{1f}/bin/driver"
    );
    assert_eq!(
        doctest_rustdoc_flags(None, Some("  --cfg  docsrs\t-Dwarnings "), "driver"),
        "--cfg\u{1f}docsrs\u{1f}-Dwarnings\u{1f}-Zunstable-options\u{1f}--no-run\u{1f}--test-builder-wrapper\u{1f}driver"
    );
    assert_eq!(
        doctest_rustdoc_flags(Some("--cfg\u{1f}a b"), Some("ignored"), "driver"),
        "--cfg\u{1f}a b\u{1f}-Zunstable-options\u{1f}--no-run\u{1f}--test-builder-wrapper\u{1f}driver"
    );
    assert_eq!(
        whitespace_words(" a  bc\u{2003}d "),
        vec!["a".to_owned(), "bc".to_owned(), "d".to_owned()]
    );
}

#[test]
fn rejects_fixes_with_multiple_feature_profiles() {
    let error = check_fix_profiles(true, 2).expect_err("fixes with two profiles are refused");

    assert!(error
        .message()
        .contains("--fix does not support multiple feature profiles"));
    assert!(check_fix_profiles(true, 1).is_ok());
    assert!(check_fix_profiles(false, 2).is_ok());
}

#[test]
fn requires_a_configured_production_target() {
    let error = require_production(0, Some("/workspace/hawk.toml"))
        .expect_err("no production target is refused");
    assert_eq!(
        error.message(),
        "no applicable production targets configured in /workspace/hawk.toml; add a `[[production]]` entry"
    );
    let error = require_production(0, None).expect_err("no binary target is refused");
    assert!(error.message().starts_with("no binary targets found in this workspace"));
    assert!(require_production(1, None).is_ok());
}

fn definition(name: &str, public_api: bool) -> Definition {
    Definition {
        id: test_id(name),
        crate_name: "consumer".into(),
        name: name.into(),
        kind: DefinitionKind::Function,
        span: None,
        declaration_span: None,
        expansion_span: None,
        public_api,
        restricted_visible_api: false,
        crate_visible_api: false,
        visible_reexport_api: false,
        module_scope: vec![],
        uniform_field_group: None,
        dead_code_allowed: false,
    }
}

fn fragment(package: &str, crate_name: &str, crate_root: Option<&str>) -> Fragment {
    Fragment {
        protocol_version: ProtocolVersion,
        package_name: package.into(),
        crate_name: crate_name.into(),
        compilation_target: "aarch64-apple-darwin".into(),
        crate_id: test_id(crate_name),
        crate_root: crate_root.map(str::to_owned),
        is_product_root: false,
        product_root_kind: None,
        test_surface: false,
        non_production_consumer: false,
        definitions: vec![definition("non-production-entry", true)],
        edges: vec![],
        roots: vec![],
        conservative_roots: vec![],
        required_public_roots: vec![],
    }
}

fn classify(fragment: &mut Fragment, metadata: &WorkspaceMetadata) {
    let sources = workspace_library_sources(metadata);
    let root = fragment
        .crate_root
        .as_deref()
        .map(|root| resolve_crate_root("/workspace", root));
    classify_non_production_target(fragment, &sources, root.as_deref());
}

#[test]
fn non_production_library_targets_are_classified_by_their_source_paths() {
    let workspace = metadata(
        vec![
            package("consumer 0.1.0", "consumer", vec![target("consumer", &[TargetKind::Lib], "/workspace/consumer/src/lib.rs")]),
            package("api 0.1.0", "api", vec![target("api", &[TargetKind::Lib], "/workspace/api/src/lib.rs")]),
        ],
        &["consumer 0.1.0", "api 0.1.0"],
    );

    let mut library = fragment("consumer", "consumer", Some("consumer/src/lib.rs"));
    classify(&mut library, &workspace);
    assert!(!library.is_product_root);
    assert!(!library.non_production_consumer);
    assert!(library.roots.is_empty());

    let mut normalized_library = fragment("consumer", "consumer", Some("consumer/src/../src/./lib.rs"));
    classify(&mut normalized_library, &workspace);
    assert!(!normalized_library.is_product_root);
    assert!(!normalized_library.non_production_consumer);

    let mut same_source_example = fragment("consumer", "example_library", Some("consumer/src/lib.rs"));
    classify(&mut same_source_example, &workspace);
    assert!(same_source_example.is_product_root);
    assert!(same_source_example.non_production_consumer);
    assert!(same_source_example.roots.is_empty());

    let mut other_library_example = fragment("consumer", "api_example", Some("api/src/lib.rs"));
    classify(&mut other_library_example, &workspace);
    assert!(other_library_example.is_product_root);
    assert!(other_library_example.non_production_consumer);
    assert!(other_library_example.roots.is_empty());

    for crate_root in ["consumer/examples/library.rs", "/tmp/rustdoctest/doctest_bundle_2024.rs"] {
        let mut non_production = fragment("consumer", "consumer", Some(crate_root));
        classify(&mut non_production, &workspace);
        assert!(non_production.is_product_root);
        assert!(non_production.non_production_consumer);
        assert_eq!(non_production.roots, vec![test_id("non-production-entry")]);
    }
}

#[test]
fn classification_leaves_roots_tests_and_rootless_fragments_alone() {
    let workspace = metadata(vec![], &[]);
    let mut rootless = fragment("consumer", "consumer", None);
    classify(&mut rootless, &workspace);
    assert!(!rootless.is_product_root);

    let mut test_build = fragment("consumer", "consumer", Some("consumer/tests/it.rs"));
    test_build.test_surface = true;
    classify(&mut test_build, &workspace);
    assert!(!test_build.is_product_root);
    assert!(!test_build.non_production_consumer);

    let mut example = fragment("consumer", "consumer", Some("consumer/examples/demo.rs"));
    example.roots = vec![DefinitionId::new(9, 1), DefinitionId::new(0, 5), DefinitionId::new(9, 1)];
    example.definitions.push(definition("private_helper", false));
    classify(&mut example, &workspace);
    let mut expected = vec![DefinitionId::new(0, 5), DefinitionId::new(9, 1), test_id("non-production-entry")];
    expected.sort();
    expected.dedup();
    assert_eq!(example.roots, expected);
}

#[test]
fn library_products_mark_their_fragments_and_consumers_are_settled() {
    let library = ProductionProduct::Library("api-lib".to_owned());
    let selections = [ProductionSelection {
        package: "api",
        product: &library,
        feature_profiles: None,
    }];
    let mut production = vec![
        fragment("api", "api_lib", Some("api/src/lib.rs")),
        fragment("app", "app", Some("app/src/main.rs")),
    ];
    let mut non_production = vec![fragment("api", "api_lib", Some("api/examples/demo.rs"))];
    let consumers = vec!["api".to_owned()];

    settle_fragment_roles(&mut production, &mut non_production, &selections, &consumers, "aarch64-apple-darwin")
        .expect("the library has a fragment");

    assert!(production[0].is_product_root);
    assert_eq!(production[0].product_root_kind, Some(ProductionTargetKind::Library));
    assert!(!production[0].non_production_consumer);
    assert!(!production[1].is_product_root);
    assert!(production[1].non_production_consumer);
    assert!(!non_production[0].is_product_root);
    assert!(!non_production[0].non_production_consumer);
    assert!(check_product_roots(&production, "all").is_ok());

    let mut other_target = vec![fragment("api", "api_lib", Some("api/src/lib.rs"))];
    let error = settle_fragment_roles(&mut other_target, &mut Vec::new(), &selections, &consumers, "x86_64-unknown-linux-gnu")
        .expect_err("no fragment compiles the library for this target");
    assert_eq!(
        error.message(),
        "no instrumented fragment was emitted for configured library `api-lib` in package `api`"
    );
    assert!(!other_target[0].is_product_root);

    let error = check_product_roots(&other_target, "minimal").expect_err("no product root");
    assert!(matches!(error, CollectionError::MissingProductFragment { .. }));
    assert_eq!(
        error.message(),
        "no instrumented fragment was emitted for a configured production target under feature profile `minimal`; rerun with a fresh --target-dir"
    );
}

fn assert_cargo_invocation(
    invocation: CargoInvocation<'_>,
    subcommand: &str,
    arguments: &[&str],
    consumer_mode: ConsumerMode,
    root_crate: &str,
    fix: Option<(&str, bool)>,
    doctests: bool,
) {
    let specification = invocation.specification();
    assert_eq!(specification.subcommand, subcommand);
    assert_eq!(
        specification.selection_arguments,
        arguments.iter().map(|argument| (*argument).to_owned()).collect::<Vec<_>>()
    );
    assert_eq!(specification.consumer_mode, consumer_mode);
    assert_eq!(specification.root_crate, root_crate);
    assert_eq!(specification.fix.map(|fix| (fix.plan, fix.allow_dirty)), fix);
    assert_eq!(specification.doctests, doctests);
}

#[test]
fn cargo_invocations_encode_valid_subcommands_and_modes() {
    let packages = vec!["library".to_owned(), "support".to_owned()];
    let fix_plan = "fix-plan.json";
    let binary = ProductionProduct::Binary("app-cli".to_owned());
    let library = ProductionProduct::Library("public-api".to_owned());

    assert_cargo_invocation(
        CargoInvocation::CheckProduction(ProductionSelection { package: "app-package", product: &binary, feature_profiles: None }),
        "check",
        &["--package", "app-package", "--bin", "app-cli"],
        ConsumerMode::Production,
        "app_cli",
        None,
        false,
    );
    assert_cargo_invocation(
        CargoInvocation::CheckProduction(ProductionSelection { package: "api-package", product: &library, feature_profiles: None }),
        "check",
        &["--package", "api-package", "--lib"],
        ConsumerMode::Production,
        "public_api",
        None,
        false,
    );
    assert_cargo_invocation(
        CargoInvocation::CheckNonProduction,
        "check",
        &["--workspace", "--all-targets"],
        ConsumerMode::NonProduction,
        "",
        None,
        false,
    );
    assert_cargo_invocation(
        CargoInvocation::CheckDoctests { packages: None },
        "test",
        &["--workspace", "--doc"],
        ConsumerMode::NonProduction,
        "",
        None,
        true,
    );
    assert_cargo_invocation(
        CargoInvocation::CheckDoctests { packages: Some(&packages) },
        "test",
        &["--package", "library", "--package", "support", "--doc"],
        ConsumerMode::NonProduction,
        "",
        None,
        true,
    );
    assert_cargo_invocation(
        CargoInvocation::FixProduction { plan: fix_plan, packages: &packages, allow_dirty: false },
        "fix",
        &["--package", "library", "--package", "support", "--lib"],
        ConsumerMode::Production,
        "",
        Some((fix_plan, false)),
        false,
    );
    assert_cargo_invocation(
        CargoInvocation::FixNonProduction { plan: fix_plan, packages: &packages, allow_dirty: true },
        "fix",
        &["--package", "library", "--package", "support", "--all-targets"],
        ConsumerMode::NonProduction,
        "",
        Some((fix_plan, true)),
        false,
    );
}

#[test]
fn cargo_commands_carry_the_run_settings() {
    let packages = vec!["library".to_owned()];
    let profile = FeatureProfile {
        name: "minimal".to_owned(),
        all_features: false,
        no_default_features: true,
        features: vec!["cli".to_owned()],
    };
    let setting = CargoSetting {
        manifest_path: "/w/Cargo.toml",
        target_dir: "/tmp/target",
        color: TerminalColor::Never,
        target: "x86_64-unknown-linux-gnu",
        allow_dirty: false,
        allow_staged: true,
        allow_no_vcs: false,
    };
    let fix = CargoInvocation::FixProduction { plan: "plan.json", packages: &packages, allow_dirty: true }.specification();
    assert_eq!(
        cargo_command_arguments(&fix, setting, &profile),
        [
            "fix", "--manifest-path", "/w/Cargo.toml", "--locked", "--target-dir", "/tmp/target", "--package", "library",
            "--lib", "--color", "never", "--no-default-features", "--features", "cli", "--target",
            "x86_64-unknown-linux-gnu", "--allow-dirty", "--allow-staged",
        ]
    );
    let doctests = CargoInvocation::CheckDoctests { packages: None }.specification();
    let arguments = cargo_command_arguments(&doctests, setting, &FeatureProfile::all_features());
    assert_eq!(arguments.first().map(String::as_str), Some("test"));
    assert_eq!(arguments.last().map(String::as_str), Some("--quiet"));
    assert!(arguments.contains(&"--all-features".to_owned()));
}

#[test]
fn every_feature_profile_needs_a_production_target() {
    let binary = ProductionProduct::Binary("debug".to_owned());
    let all = vec!["all".to_owned()];
    let selections = [ProductionSelection { package: "app", product: &binary, feature_profiles: Some(&all) }];

    assert_eq!(profile_selections(&selections, "all").expect("selected").len(), 1);
    let error = profile_selections(&selections, "minimal").expect_err("no product for the profile");
    assert_eq!(
        error.message(),
        "no production targets apply to feature profile `minimal`; select it from at least one `[[production]]` entry"
    );
}

#[test]
fn repeated_fix_plans_stop_the_fix_loop() {
    let mut applied = Vec::new();
    record_fix_signature(&mut applied, vec![b"p1".to_vec()], 0).expect("first plan");
    record_fix_signature(&mut applied, vec![b"p2".to_vec()], 1).expect("another plan");
    let error = record_fix_signature(&mut applied, vec![b"p1".to_vec()], 2).expect_err("repeated plan");
    assert_eq!(
        error.message(),
        "visibility fixes made no progress after 2 iteration(s); the same fix plan was produced after re-analysis"
    );
    assert_eq!(applied.len(), 2);
}

#[test]
fn crate_roots_resolve_lexically_against_the_workspace_root() {
    assert_eq!(resolve_crate_root("/workspace", "consumer/src/../src/./lib.rs"), "/workspace/consumer/src/lib.rs");
    assert_eq!(resolve_crate_root("/workspace", "/tmp/rustdoctest/doctest_bundle_2024.rs"), "/tmp/rustdoctest/doctest_bundle_2024.rs");
    assert_eq!(resolve_crate_root("/workspace/", "./a//b/"), "/workspace/a/b");
    assert_eq!(resolve_lexically("/../a/.."), "/");
    assert_eq!(resolve_lexically("a/../../b"), "b");
    assert_eq!(resolve_lexically(""), "");
}
