use hawk_graph::lints::LintLevel;
use hawk_graph::render::{DiagnosticRenderer, Palette, StyleCodes};
use hawk_graph::{Definition, DefinitionId, DefinitionKind, Finding, FindingKind, Span};
use std::cell::Cell;
use anstyle::AnsiColor;

fn test_id(value: &str) -> DefinitionId {
    let hash = value.bytes().fold(0xcbf2_9ce4_8422_2325_u64, |hash, byte| {
        (hash ^ u64::from(byte)).wrapping_mul(0x0100_0000_01b3)
    });
    DefinitionId::new(0, hash)
}

fn codes(style: anstyle::Style) -> StyleCodes {
    StyleCodes {
        open: style.render().to_string(),
        close: style.render_reset().to_string(),
    }
}

fn terminal_palette() -> Palette {
    Palette {
        warning: codes(AnsiColor::Yellow.on_default().bold()),
        error: codes(AnsiColor::Red.on_default().bold()),
        location: codes(AnsiColor::BrightBlue.on_default().bold()),
        separator: codes(AnsiColor::Cyan.on_default()),
        help: codes(AnsiColor::BrightCyan.on_default().bold()),
        emphasis: codes(anstyle::Style::new().bold()),
    }
}

/// Sources of the declarations that the rendering tests point at.
fn fixture_source(path: &str) -> std::io::Result<String> {
    let mut lines = vec![String::new(); 20];
    if path.ends_with("basic/library/src/lib.rs") {
        lines[4] = "pub fn internal_helper() {}".to_owned();
    } else if path.ends_with("crate_visibility_fixes/library/src/lib.rs") {
        lines[6] = "    pub(crate) fn run() {".to_owned();
        lines[15] = "    pub(super) fn private_parent_visible_helper() {}".to_owned();
    } else {
        return Err(std::io::Error::new(std::io::ErrorKind::NotFound, "no fixture"));
    }
    Ok(lines.join("\n"))
}

fn render_diagnostic(finding: &Finding<'_>) -> String {
    let mut renderer =
        DiagnosticRenderer::with_source_loader("/workspace", fixture_source).with_palette(terminal_palette());
    renderer.write_diagnostic(finding, "binary `app`", LintLevel::Warn);
    renderer.into_output()
}

fn definition(id: &str, name: &str, kind: DefinitionKind, span: Option<Span>) -> Definition {
    Definition {
        id: test_id(id),
        crate_name: "library".into(),
        name: name.into(),
        kind,
        span,
        declaration_span: None,
        expansion_span: None,
        public_api: true,
        restricted_visible_api: false,
        crate_visible_api: false,
        visible_reexport_api: false,
        module_scope: vec![],
        uniform_field_group: None,
        dead_code_allowed: false,
    }
}

#[test]
fn diagnostic_renderer_loads_each_source_once() {
    let load_count = Cell::new(0);
    let mut renderer = DiagnosticRenderer::with_source_loader("/workspace", |path| {
        assert_eq!(path, "/workspace/src/lib.rs");
        load_count.set(load_count.get() + 1);
        Ok("first\r\nsecond\n".to_owned())
    });
    let mut span = Span {
        file: "src/lib.rs".into(),
        line: 1,
        column: 1,
    };

    assert_eq!(renderer.source_line(&span), Some("first"));
    span.line = 2;
    assert_eq!(renderer.source_line(&span), Some("second"));
    span.line = 3;
    assert_eq!(renderer.source_line(&span), None);
    assert_eq!(load_count.get(), 1);
}

#[test]
fn diagnostic_rendering_includes_terminal_styles() {
    let definition = definition(
        "internal_helper",
        "internal_helper",
        DefinitionKind::Function,
        Some(Span {
            file: "tests/fixtures/basic/library/src/lib.rs".into(),
            line: 5,
            column: 1,
        }),
    );
    let finding = Finding {
        kind: FindingKind::UnnecessaryPublic,
        definition: &definition,
        test_only: false,
        test_compiled_only: false,
    };
    let output = render_diagnostic(&finding);
    assert!(output.contains('\u{1b}'));
    let output = anstream::adapter::strip_str(&output).to_string();
    assert_eq!(
        output,
        "warning[hawk::unnecessary_public]: `internal_helper` is public but all reachable uses are within `library`; it can be `pub(crate)`\n  --> tests/fixtures/basic/library/src/lib.rs:5:1\n  |\n5 | pub fn internal_helper() {}\n  | ^^^ public declaration\n  = help: change this declaration to `pub(crate)`\n\n"
    );
}

#[test]
fn crate_visibility_diagnostic_names_the_required_scope() {
    let mut definition = definition(
        "scoped::run",
        "scoped::run",
        DefinitionKind::Function,
        Some(Span {
            file: "tests/fixtures/crate_visibility_fixes/library/src/lib.rs".into(),
            line: 7,
            column: 5,
        }),
    );
    definition.public_api = false;
    definition.restricted_visible_api = true;
    definition.crate_visible_api = true;
    definition.module_scope = vec!["scoped".into()];
    let finding = Finding {
        kind: FindingKind::UnnecessaryCrateVisibility,
        definition: &definition,
        test_only: false,
        test_compiled_only: false,
    };
    let output = render_diagnostic(&finding);
    let output = anstream::adapter::strip_str(&output).to_string();
    assert_eq!(
        output,
        "warning[hawk::unnecessary_crate_visibility]: `scoped::run` is visible throughout the crate but all compiled uses fit within the parent module; it can be `pub(super)`\n  --> tests/fixtures/crate_visibility_fixes/library/src/lib.rs:7:5\n  |\n7 |     pub(crate) fn run() {\n  |     ^^^ crate-visible declaration\n  = help: change this declaration to `pub(super)`\n\n"
    );
}

#[test]
fn restricted_visibility_diagnostic_removes_the_modifier() {
    let mut definition = definition(
        "scoped::private_parent_visible_helper",
        "scoped::private_parent_visible_helper",
        DefinitionKind::Function,
        Some(Span {
            file: "tests/fixtures/crate_visibility_fixes/library/src/lib.rs".into(),
            line: 16,
            column: 5,
        }),
    );
    definition.public_api = false;
    definition.restricted_visible_api = true;
    definition.module_scope = vec!["scoped".into()];
    let finding = Finding {
        kind: FindingKind::UnnecessaryRestrictedVisibility,
        definition: &definition,
        test_only: false,
        test_compiled_only: false,
    };
    let output = render_diagnostic(&finding);
    let output = anstream::adapter::strip_str(&output).to_string();
    assert_eq!(
        output,
        "warning[hawk::unnecessary_restricted_visibility]: `scoped::private_parent_visible_helper` has explicit restricted visibility but all compiled uses fit within the defining module; it can be private\n  --> tests/fixtures/crate_visibility_fixes/library/src/lib.rs:16:5\n   |\n16 |     pub(super) fn private_parent_visible_helper() {}\n   |     ^^^ restricted-visibility declaration\n   = help: remove this declaration's visibility modifier\n\n"
    );
}

#[test]
fn dead_enum_variant_diagnostic_accounts_for_unreachable_uses() {
    let definition = definition(
        "InternalState::Active",
        "InternalState::Active",
        DefinitionKind::EnumVariant,
        None,
    );
    let finding = Finding {
        kind: FindingKind::DeadPublic,
        definition: &definition,
        test_only: false,
        test_compiled_only: false,
    };
    let output = render_diagnostic(&finding);
    let output = anstream::adapter::strip_str(&output).to_string();
    assert_eq!(
        output,
        "warning[hawk::dead_public]: `InternalState::Active` is a public enum variant but is not reachable from binary `app`\n  = note: declaration in crate `library`\n  = help: consider removing this variant and its remaining uses\n\n"
    );
    assert!(!output.contains("pub(crate)"));
}

#[test]
fn terminal_palette_renders_the_diagnostic_styles() {
    let codes = |style: anstyle::Style| (style.render().to_string(), style.render_reset().to_string());
    let palette = Palette::terminal();
    let pairs = [
        (&palette.warning, AnsiColor::Yellow.on_default().bold()),
        (&palette.error, AnsiColor::Red.on_default().bold()),
        (&palette.location, AnsiColor::BrightBlue.on_default().bold()),
        (&palette.separator, AnsiColor::Cyan.on_default()),
        (&palette.help, AnsiColor::BrightCyan.on_default().bold()),
        (&palette.emphasis, anstyle::Style::new().bold()),
    ];
    for (style_codes, style) in pairs {
        assert_eq!((style_codes.open.clone(), style_codes.close.clone()), codes(style));
    }
    assert_eq!(palette.error.open, "\u{1b}[1m\u{1b}[31m");
}
