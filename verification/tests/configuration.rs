use hawk_graph::config::{ConfigDiagnosticKind, ProductionProduct};
use hawk_graph::lints::{DiagnosticKind, LintLevel, LintLevels};
use hawk_graph::settings::{
    AnalysisTarget, Config, is_blank, ConfigErrorKind, OverrideLevel, RawConfig, RawDiagnosticExclusion,
    RawDoctestPackage, RawFeatureProfile, RawLintOverride, RawProductionConsumer,
};
use hawk_graph::FindingKind;
use hawk_graph::records::{config_diagnostic_record, ConfigIdentityRecord};
use hawk_graph::suppression::ConfigDiagnostic;

const PATH: &str = "/workspace/hawk.toml";

fn raw() -> RawConfig {
    RawConfig {
        preserve_uniform_field_visibility: false,
        overrides: Vec::new(),
        exclusions: Vec::new(),
        production: Vec::new(),
        doctests: Vec::new(),
        feature_profiles: Vec::new(),
    }
}

/// The byte offsets of each occurrence of a table header in a source.
fn offsets(source: &str, header: &str) -> Vec<usize> {
    source.match_indices(header).map(|(offset, _)| offset).collect()
}

fn profile(offset: usize, name: &str, all: bool, no_default: bool, features: &[&str]) -> RawFeatureProfile {
    RawFeatureProfile {
        offset,
        name: name.to_owned(),
        all_features: all,
        no_default_features: no_default,
        features: features.iter().map(|feature| (*feature).to_owned()).collect(),
    }
}

fn consumer(offset: usize, package: &str, binary: Option<&str>, library: Option<&str>, profiles: Option<&[&str]>, reason: &str) -> RawProductionConsumer {
    RawProductionConsumer {
        offset,
        package: package.to_owned(),
        binary: binary.map(str::to_owned),
        library: library.map(str::to_owned),
        feature_profiles: profiles.map(|profiles| profiles.iter().map(|profile| (*profile).to_owned()).collect()),
        reason: reason.to_owned(),
        target: None,
    }
}

fn load(source: &str, raw: RawConfig) -> Result<Config, String> {
    Config::from_raw("/workspace".to_owned(), PATH.to_owned(), source.to_owned(), raw)
        .map_err(|error| error.message(PATH))
}

fn target(name: &str) -> AnalysisTarget {
    AnalysisTarget::from_cfg_output(name, "").expect("a target without configuration lines")
}

#[test]
fn feature_profiles_default_to_all_features() {
    let config = Config::empty("/workspace".to_owned());

    let [profile] = config.feature_profiles() else {
        panic!("expected one default feature profile");
    };
    assert_eq!(profile.name(), "all-features");
    assert_eq!(profile.cargo_arguments_description(), "--all-features");
}

#[test]
fn parses_multiple_feature_profiles() {
    let source = r#"
[[feature-profile]]
name = "all"
all-features = true

[[feature-profile]]
name = "minimal"
no-default-features = true
features = ["serde", "cli"]
"#;
    let at = offsets(source, "[[feature-profile]]");
    let mut parsed = raw();
    parsed.feature_profiles = vec![
        profile(at[0], "all", true, false, &[]),
        profile(at[1], "minimal", false, true, &["serde", "cli"]),
    ];

    let config = load(source, parsed).expect("load configuration");

    assert_eq!(
        config
            .feature_profiles()
            .iter()
            .map(|profile| (profile.name(), profile.cargo_arguments_description()))
            .collect::<Vec<_>>(),
        [
            ("all", "--all-features".to_owned()),
            (
                "minimal",
                "--no-default-features --features serde --features cli".to_owned()
            ),
        ]
    );
}

#[test]
fn production_consumers_select_feature_profiles_or_default_to_all() {
    let source = r#"
[[feature-profile]]
name = "all"
all-features = true

[[feature-profile]]
name = "minimal"
no-default-features = true

[[production]]
package = "app"
lib = "app"
reason = "library product"

[[production]]
package = "app"
bin = "debug"
feature-profiles = ["all"]
reason = "feature-gated debug product"
"#;
    let profiles = offsets(source, "[[feature-profile]]");
    let production = offsets(source, "[[production]]");
    let mut parsed = raw();
    parsed.feature_profiles = vec![
        profile(profiles[0], "all", true, false, &[]),
        profile(profiles[1], "minimal", false, true, &[]),
    ];
    parsed.production = vec![
        consumer(production[0], "app", None, Some("app"), None, "library product"),
        consumer(production[1], "app", Some("debug"), None, Some(&["all"]), "feature-gated debug product"),
    ];

    let config = load(source, parsed).expect("load configuration");
    let consumers = config.production_consumers(&target("aarch64-apple-darwin"));

    assert_eq!(consumers.len(), 2);
    assert_eq!(consumers[0].feature_profiles, None);
    assert_eq!(
        consumers[1].feature_profiles.as_deref(),
        Some(&["all".to_owned()][..])
    );
    assert!(matches!(&consumers[0].product, ProductionProduct::Library(name) if name == "app"));
    assert_eq!(consumers[1].span.line, 15);
    assert_eq!(consumers[1].span.column, 1);
}

fn invalid_production_feature_profiles(selection: &[&str]) -> String {
    let source = format!(
        r#"
[[feature-profile]]
name = "all"
all-features = true

[[production]]
package = "app"
bin = "app"
feature-profiles = {selection:?}
reason = "binary product"
"#
    );
    let mut parsed = raw();
    parsed.feature_profiles = vec![profile(offsets(&source, "[[feature-profile]]")[0], "all", true, false, &[])];
    parsed.production = vec![consumer(
        offsets(&source, "[[production]]")[0],
        "app",
        Some("app"),
        None,
        Some(selection),
        "binary product",
    )];

    load(&source, parsed).expect_err("reject invalid production feature profiles")
}

#[test]
fn production_feature_profile_selection_must_not_be_empty() {
    let error = invalid_production_feature_profiles(&[]);

    assert!(error.contains("must select at least one `feature-profiles` entry"));
    assert!(error.starts_with("production consumer in /workspace/hawk.toml:6:1 "));
}

#[test]
fn production_feature_profile_selection_rejects_empty_names() {
    let error = invalid_production_feature_profiles(&[""]);

    assert!(error.contains("must not contain an empty feature profile name"));
}

#[test]
fn production_feature_profile_selection_rejects_unknown_names() {
    let error = invalid_production_feature_profiles(&["missing"]);

    assert!(error.contains("references unknown feature profile `missing`"));
}

#[test]
fn production_feature_profile_selection_rejects_duplicates() {
    let error = invalid_production_feature_profiles(&["all", "all"]);

    assert!(error.contains("contains duplicate feature profile `all`"));
}

#[test]
fn all_features_profile_rejects_other_feature_selection() {
    let source = r#"
[[feature-profile]]
name = "invalid"
all-features = true
features = ["serde"]
"#;
    let mut parsed = raw();
    parsed.feature_profiles = vec![profile(offsets(source, "[[feature-profile]]")[0], "invalid", true, false, &["serde"])];

    let error = load(source, parsed).expect_err("reject conflicting feature selection");

    assert!(error.contains("cannot combine `all-features = true`"));
}

#[test]
fn feature_profile_names_must_be_unique() {
    let source = r#"
[[feature-profile]]
name = "default"

[[feature-profile]]
name = "default"
no-default-features = true
"#;
    let at = offsets(source, "[[feature-profile]]");
    let mut parsed = raw();
    parsed.feature_profiles = vec![
        profile(at[0], "default", false, false, &[]),
        profile(at[1], "default", false, true, &[]),
    ];

    let error = load(source, parsed).expect_err("reject duplicate feature profile");

    assert!(error.contains("duplicate feature profile `default`"));
    assert_eq!(error, "duplicate feature profile `default` in /workspace/hawk.toml:5:1");
}

#[test]
fn production_consumers_require_exactly_one_target() {
    let source = "[[production]]\npackage = \"app\"\nreason = \"binary product\"\n";
    for (binary, library) in [(None, None), (Some("app"), Some("library")), (None, Some(""))] {
        let mut parsed = raw();
        parsed.production = vec![consumer(0, "app", binary, library, None, "binary product")];
        let error = load(source, parsed).expect_err("reject invalid production target");
        assert!(error.contains("must provide exactly one non-empty `bin` or `lib` target"));
    }
}

#[test]
fn accepts_library_production_consumers() {
    let source = "[[production]]\npackage = \"library\"\nlib = \"library\"\nreason = \"library product\"\n";
    let mut parsed = raw();
    parsed.production = vec![consumer(0, "library", None, Some("library"), None, "library product")];

    let config = load(source, parsed).expect("load configuration");
    let consumers = config.production_consumers(&target("aarch64-apple-darwin"));

    assert_eq!(consumers.len(), 1);
    assert!(matches!(&consumers[0].product, ProductionProduct::Library(name) if name == "library"));
    assert_eq!(consumers[0].product.cargo_flag(), "--lib");
}

#[test]
fn uniform_field_visibility_preservation_is_opt_in() {
    assert!(!Config::empty("/workspace".to_owned()).preserve_uniform_field_visibility());
    let mut parsed = raw();
    parsed.preserve_uniform_field_visibility = true;
    let config = load("preserve-uniform-field-visibility = true\n", parsed).expect("load configuration");
    assert!(config.preserve_uniform_field_visibility());
}

#[test]
fn doctest_packages_default_to_the_workspace_and_can_be_scoped() {
    let empty = load("", raw()).expect("load empty configuration");
    assert!(empty.doctest_packages().is_none());

    let source = "[[doctest]]\npackage = \"api\"\n\n[[doctest]]\npackage = \"core\"\n";
    let at = offsets(source, "[[doctest]]");
    let mut parsed = raw();
    parsed.doctests = vec![
        RawDoctestPackage { offset: at[0], package: "api".to_owned() },
        RawDoctestPackage { offset: at[1], package: "core".to_owned() },
    ];
    let config = load(source, parsed).expect("load configuration");
    let packages = config.doctest_packages().expect("scoped doctest packages");
    assert_eq!(
        packages.iter().map(|package| package.package.as_str()).collect::<Vec<_>>(),
        ["api", "core"]
    );

    let mut parsed = raw();
    parsed.doctests = vec![
        RawDoctestPackage { offset: at[0], package: "api".to_owned() },
        RawDoctestPackage { offset: at[1], package: "api".to_owned() },
    ];
    let error = load(source, parsed).expect_err("reject duplicate doctest package");
    assert_eq!(error, "duplicate doctest package `api` in /workspace/hawk.toml:4:1");
}

#[test]
fn exclusion_requires_one_scope_selector() {
    let source = "[[exclude]]\ncrate = \"library\"\nreason = \"generated\"\n";
    for (module, file) in [(None, None), (Some("api"), Some("src/api.rs"))] {
        let mut parsed = raw();
        parsed.exclusions = vec![RawDiagnosticExclusion {
            offset: 0,
            crate_name: "library".to_owned(),
            module: module.map(str::to_owned),
            file: file.map(str::to_owned),
            level: OverrideLevel::Allow,
            reason: "generated".to_owned(),
            target: None,
        }];
        let error = load(source, parsed).expect_err("reject an exclusion without one selector");
        assert_eq!(
            error,
            "exclusion in /workspace/hawk.toml:1:1 must provide exactly one of `module` or `file`"
        );
    }
}

#[test]
fn overrides_name_known_lints_and_reasons() {
    let source = "[[override]]\nlint = \"hawk::unknown\"\n";
    let lint_override = |lint: &str, reason: &str, target: Option<&str>| RawLintOverride {
        offset: 0,
        lint: lint.to_owned(),
        crate_name: "library".to_owned(),
        item: "api".to_owned(),
        definition_kind: None,
        level: OverrideLevel::Expect,
        reason: reason.to_owned(),
        target: target.map(str::to_owned),
    };
    let mut parsed = raw();
    parsed.overrides = vec![lint_override("hawk::unknown", "kept", None)];
    assert_eq!(
        load(source, parsed).expect_err("unknown lint"),
        "unknown Hawk lint `hawk::unknown` in /workspace/hawk.toml:1:1"
    );

    let mut parsed = raw();
    parsed.overrides = vec![lint_override("hawk::dead_public", "  ", None)];
    assert_eq!(
        load(source, parsed).expect_err("blank reason"),
        "override in /workspace/hawk.toml:1:1 must provide a non-empty reason"
    );

    let mut parsed = raw();
    parsed.overrides = vec![lint_override("hawk::dead_public", "kept", Some("cfg(unix"))];
    let error = Config::from_raw("/workspace".to_owned(), PATH.to_owned(), source.to_owned(), parsed)
        .expect_err("invalid target selector");
    assert_eq!(error.kind, ConfigErrorKind::InvalidTarget);
    assert_eq!(error.message(PATH), "parse target selector `cfg(unix` in /workspace/hawk.toml:1:1");

    let mut parsed = raw();
    parsed.overrides = vec![lint_override("hawk::dead_public", "kept", Some("cfg(unix)"))];
    let config = load(source, parsed).expect("valid override");
    assert_eq!(config.override_list().len(), 1);
}

fn levels(entries: &[(usize, &str, LintLevel)]) -> LintLevels {
    LintLevels::from_indexed(
        entries
            .iter()
            .map(|(index, selector, level)| (*index, (*selector).to_owned(), *level))
            .collect(),
    )
    .expect("valid lint selectors")
}

fn finding(kind: FindingKind) -> DiagnosticKind {
    DiagnosticKind::Finding(kind)
}

#[test]
fn later_lint_levels_override_the_warnings_group() {
    let levels = levels(&[
        (3, "warnings", LintLevel::Deny),
        (5, "hawk::unnecessary_public", LintLevel::Warn),
        (7, "hawk::unknown_item", LintLevel::Allow),
    ]);

    assert_eq!(levels.level(finding(FindingKind::DeadPublic)), LintLevel::Deny);
    assert_eq!(levels.level(finding(FindingKind::UnnecessaryPublic)), LintLevel::Warn);
    assert_eq!(
        levels.level(finding(FindingKind::UnnecessaryRestrictedVisibility)),
        LintLevel::Deny
    );
    assert_eq!(
        levels.level(finding(FindingKind::UnnecessaryCrateVisibility)),
        LintLevel::Allow
    );
    assert_eq!(levels.level(finding(FindingKind::TestOnly)), LintLevel::Allow);
    assert_eq!(
        levels.level(DiagnosticKind::Config(ConfigDiagnosticKind::UnknownItem)),
        LintLevel::Allow
    );
    assert_eq!(
        levels.level(DiagnosticKind::Config(ConfigDiagnosticKind::UnfulfilledExpectation)),
        LintLevel::Deny
    );
}

#[test]
fn enabled_opt_in_lint_is_affected_by_later_warnings_group() {
    let levels = levels(&[
        (3, "hawk::unnecessary_crate_visibility", LintLevel::Warn),
        (4, "warnings", LintLevel::Allow),
        (5, "warnings", LintLevel::Deny),
    ]);

    assert_eq!(
        levels.level(finding(FindingKind::UnnecessaryCrateVisibility)),
        LintLevel::Deny
    );
}

#[test]
fn test_only_is_allow_by_default_and_can_be_denied() {
    let defaults = levels(&[]);
    assert_eq!(defaults.level(finding(FindingKind::TestOnly)), LintLevel::Allow);

    let denied = levels(&[(3, "hawk::test_only", LintLevel::Deny)]);
    assert_eq!(denied.level(finding(FindingKind::TestOnly)), LintLevel::Deny);
}

#[test]
fn cli_later_warnings_group_reenables_default_warnings() {
    let levels = levels(&[(2, "warnings", LintLevel::Allow), (3, "warnings", LintLevel::Deny)]);

    assert_eq!(levels.level(finding(FindingKind::DeadPublic)), LintLevel::Deny);
    assert_eq!(
        levels.level(finding(FindingKind::UnnecessaryCrateVisibility)),
        LintLevel::Allow
    );
}

#[test]
fn end_to_end_later_warnings_group_reenables_default_warnings() {
    let levels = levels(&[(3, "warnings", LintLevel::Allow), (5, "warnings", LintLevel::Deny)]);

    assert_eq!(levels.level(finding(FindingKind::DeadPublic)), LintLevel::Deny);
    assert_eq!(
        levels.level(finding(FindingKind::UnnecessaryCrateVisibility)),
        LintLevel::Allow
    );
}

#[test]
fn later_warnings_group_reenables_explicitly_enabled_opt_in_lints() {
    let levels = levels(&[
        (3, "hawk::unnecessary_crate_visibility", LintLevel::Warn),
        (5, "warnings", LintLevel::Allow),
        (7, "warnings", LintLevel::Deny),
    ]);

    assert_eq!(
        levels.level(finding(FindingKind::UnnecessaryCrateVisibility)),
        LintLevel::Deny
    );
}

#[test]
fn ordered_lint_levels_control_severity_and_exit_status() {
    let levels = levels(&[
        (3, "warnings", LintLevel::Deny),
        (5, "hawk::unnecessary_public", LintLevel::Warn),
        (7, "hawk::unknown_item", LintLevel::Allow),
    ]);

    assert_eq!(levels.level(finding(FindingKind::DeadPublic)).severity(), "error");
    assert_eq!(levels.level(finding(FindingKind::UnnecessaryPublic)).severity(), "warning");
    assert_eq!(
        levels
            .level(DiagnosticKind::Config(ConfigDiagnosticKind::UnfulfilledExpectation))
            .severity(),
        "error"
    );
    assert!(!levels
        .level(DiagnosticKind::Config(ConfigDiagnosticKind::UnknownItem))
        .is_emitted());
}

#[test]
fn lint_selectors_follow_their_command_line_positions() {
    let reordered = levels(&[
        (9, "warnings", LintLevel::Allow),
        (2, "hawk::dead_public", LintLevel::Deny),
    ]);
    assert_eq!(reordered.level(finding(FindingKind::DeadPublic)), LintLevel::Allow);

    let error = LintLevels::from_indexed(vec![
        (1, "warnings".to_owned(), LintLevel::Allow),
        (2, "hawk::nothing".to_owned(), LintLevel::Deny),
    ])
    .expect_err("unknown selector");
    assert_eq!(error.selector, "hawk::nothing");
}

#[test]
fn every_entry_problem_is_reported_with_its_position() {
    let source = "[[entry]]\n";
    let check = |parsed: RawConfig, expected: &str| {
        assert_eq!(load(source, parsed).expect_err("invalid entry"), expected);
    };

    let mut parsed = raw();
    parsed.feature_profiles = vec![profile(0, " ", false, false, &[])];
    check(parsed, "feature profile in /workspace/hawk.toml:1:1 must provide a non-empty name");

    let mut parsed = raw();
    parsed.feature_profiles = vec![profile(0, "no spaces", false, false, &[])];
    check(
        parsed,
        "feature profile `no spaces` in /workspace/hawk.toml:1:1 must use only ASCII letters, digits, `-`, or `_` in its name",
    );

    let mut parsed = raw();
    parsed.feature_profiles = vec![profile(0, "minimal", false, false, &["serde", " "])];
    check(parsed, "feature profile `minimal` in /workspace/hawk.toml:1:1 must not contain an empty feature");

    let exclusion = |module: Option<&str>, file: Option<&str>, reason: &str| RawDiagnosticExclusion {
        offset: 0,
        crate_name: "library".to_owned(),
        module: module.map(str::to_owned),
        file: file.map(str::to_owned),
        level: OverrideLevel::Expect,
        reason: reason.to_owned(),
        target: None,
    };
    let mut parsed = raw();
    parsed.exclusions = vec![exclusion(Some("api"), None, "")];
    check(parsed, "exclusion in /workspace/hawk.toml:1:1 must provide a non-empty reason");
    let mut parsed = raw();
    parsed.exclusions = vec![exclusion(Some(" "), None, "generated")];
    check(parsed, "exclusion in /workspace/hawk.toml:1:1 must provide a non-empty `module` selector");
    let mut parsed = raw();
    parsed.exclusions = vec![exclusion(None, Some(""), "generated")];
    check(parsed, "exclusion in /workspace/hawk.toml:1:1 must provide a non-empty `file` selector");

    let mut parsed = raw();
    parsed.production = vec![consumer(0, "app", Some("app"), None, None, " ")];
    check(parsed, "production consumer in /workspace/hawk.toml:1:1 must provide a non-empty reason");

    let mut parsed = raw();
    parsed.doctests = vec![RawDoctestPackage { offset: 0, package: "".to_owned() }];
    check(parsed, "doctest package in /workspace/hawk.toml:1:1 must provide a non-empty package name");
}

#[test]
fn the_first_problem_in_file_order_is_reported() {
    let source = "[[feature-profile]]\nname = \"\"\n\n[[override]]\nlint = \"hawk::unknown\"\n";
    let mut parsed = raw();
    parsed.feature_profiles = vec![profile(0, "", false, false, &[])];
    parsed.overrides = vec![RawLintOverride {
        offset: offsets(source, "[[override]]")[0],
        lint: "hawk::unknown".to_owned(),
        crate_name: "library".to_owned(),
        item: "api".to_owned(),
        definition_kind: None,
        level: OverrideLevel::Allow,
        reason: "kept".to_owned(),
        target: None,
    }];

    let error = Config::from_raw("/workspace".to_owned(), PATH.to_owned(), source.to_owned(), parsed)
        .expect_err("invalid profile");
    assert_eq!(error.kind, ConfigErrorKind::EmptyProfileName);
    assert_eq!(error.span.line, 1);
}

#[test]
fn blank_text_is_unicode_white_space_only() {
    for code in 0u32..=0x10FFFF {
        if let Some(character) = char::from_u32(code) {
            assert_eq!(is_blank(&character.to_string()), character.is_whitespace(), "U+{code:04X}");
        }
    }
    assert!(is_blank("\u{3000}\t \u{2028}"));
    assert!(!is_blank("\u{200B}"));
}

#[test]
fn production_consumers_follow_their_target_selectors() {
    let source = r#"
[[production]]
package = "app"
bin = "unix-tool"
target = "cfg(unix)"
reason = "unix product"

[[production]]
package = "app"
bin = "windows-tool"
target = "cfg(windows)"
reason = "windows product"

[[production]]
package = "app"
bin = "named"
target = "x86_64-unknown-linux-gnu"
reason = "named target"

[[production]]
package = "app"
bin = "everywhere"
reason = "always"
"#;
    let at = offsets(source, "[[production]]");
    let mut parsed = raw();
    let mut entries = vec![
        consumer(at[0], "app", Some("unix-tool"), None, None, "unix product"),
        consumer(at[1], "app", Some("windows-tool"), None, None, "windows product"),
        consumer(at[2], "app", Some("named"), None, None, "named target"),
        consumer(at[3], "app", Some("everywhere"), None, None, "always"),
    ];
    entries[0].target = Some("cfg(unix)".to_owned());
    entries[1].target = Some("cfg(windows)".to_owned());
    entries[2].target = Some("x86_64-unknown-linux-gnu".to_owned());
    parsed.production = entries;
    let config = load(source, parsed).expect("load configuration");
    let linux = AnalysisTarget::from_cfg_output("x86_64-unknown-linux-gnu", "unix\ntarget_os=\"linux\"\n").expect("cfg");
    let names = |consumers: Vec<&hawk_graph::settings::ProductionConsumer>| {
        consumers
            .iter()
            .map(|consumer| match &consumer.product {
                ProductionProduct::Binary(name) | ProductionProduct::Library(name) => name.clone(),
            })
            .collect::<Vec<_>>()
    };
    assert_eq!(names(config.production_consumers(&linux)), ["unix-tool", "named", "everywhere"]);
    let windows = AnalysisTarget::from_cfg_output("x86_64-pc-windows-msvc", "windows\ntarget_os=\"windows\"").expect("cfg");
    assert_eq!(names(config.production_consumers(&windows)), ["windows-tool", "everywhere"]);
}

#[test]
fn configuration_diagnostic_records_show_the_file_inside_the_workspace() {
    let source = "\n[[override]]\nlint = \"hawk::dead_public\"\n";
    let mut parsed = raw();
    parsed.overrides = vec![RawLintOverride {
        offset: offsets(source, "[[override]]")[0],
        lint: "hawk::dead_public".to_owned(),
        crate_name: "library".to_owned(),
        item: "api".to_owned(),
        definition_kind: Some(hawk_graph::DefinitionKind::Function),
        level: OverrideLevel::Expect,
        reason: "kept for plugins".to_owned(),
        target: None,
    }];
    let config = load(source, parsed).expect("load configuration");
    let record = config_diagnostic_record(ConfigDiagnostic::UnknownItem(0), &config, "/workspace", LintLevel::Warn);
    assert_eq!(record.code, "hawk::unknown_item");
    assert_eq!(record.severity, "warning");
    assert_eq!(record.lint.as_deref(), Some("hawk::dead_public"));
    match &record.identity {
        ConfigIdentityRecord::Override { crate_name, item, kind } => {
            assert_eq!((crate_name.as_str(), item.as_str(), kind.as_deref()), ("library", "api", Some("function")));
        }
        other => panic!("expected an override identity, got {other:?}"),
    }
    assert_eq!((record.location.file.as_str(), record.location.line, record.location.column), ("hawk.toml", 2, 1));
    assert_eq!(record.reason, "kept for plugins");

    let elsewhere = config_diagnostic_record(ConfigDiagnostic::UnknownItem(0), &config, "/other", LintLevel::Deny);
    assert_eq!(elsewhere.location.file, PATH);
    assert_eq!(elsewhere.severity, "error");
}
