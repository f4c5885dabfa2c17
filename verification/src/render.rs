//! Rendering diagnostics as annotated, optionally styled text.

use vstd::prelude::*;
use vstd::string::StrSliceExecFns;
use vstd::string::StringExecFns;
use crate::text::{decimal, push_decimal};
use crate::lints::{LintLevel, severity_text};
use crate::model::{DefinitionKind, Finding, FindingKind, Span, finding_code};
use crate::config::config_code;
use crate::settings::{Config, DiagnosticExclusion, ExclusionSelector, LintOverride};
use crate::suppression::{ConfigDiagnostic, diagnostic_in, diagnostic_kind_of, diagnostic_reason, diagnostic_span};

verus! {

/// The escape text that opens and closes one terminal style.
#[derive(Clone, Debug)]
pub struct StyleCodes {
    pub open: String,
    pub close: String,
}

/// The styles of each part of a rendered diagnostic.
#[derive(Clone, Debug)]
pub struct Palette {
    pub warning: StyleCodes,
    pub error: StyleCodes,
    pub location: StyleCodes,
    pub separator: StyleCodes,
    pub help: StyleCodes,
    pub emphasis: StyleCodes,
}

/// `content` wrapped in a style.
pub open spec fn styled(codes: StyleCodes, content: Seq<char>) -> Seq<char> {
    codes.open@ + content + codes.close@
}

/// `n` spaces.
pub open spec fn spaces(n: nat) -> Seq<char> {
    Seq::new(n, |i: int| ' ')
}

/// Whether a palette styles nothing.
pub open spec fn unstyled(palette: Palette) -> bool {
    &&& palette.warning.open@.len() == 0 && palette.warning.close@.len() == 0
    &&& palette.error.open@.len() == 0 && palette.error.close@.len() == 0
    &&& palette.location.open@.len() == 0 && palette.location.close@.len() == 0
    &&& palette.separator.open@.len() == 0 && palette.separator.close@.len() == 0
    &&& palette.help.open@.len() == 0 && palette.help.close@.len() == 0
    &&& palette.emphasis.open@.len() == 0 && palette.emphasis.close@.len() == 0
}

/// The style of a diagnostic's severity.
pub open spec fn level_codes(palette: Palette, level: LintLevel) -> StyleCodes {
    match level {
        LintLevel::Deny => palette.error,
        _ => palette.warning,
    }
}

impl StyleCodes {
    /// Codes that style nothing.
    pub fn unstyled() -> (codes: Self)
        ensures
            codes.open@ == Seq::<char>::empty(),
            codes.close@ == Seq::<char>::empty(),
    {
        StyleCodes { open: String::new(), close: String::new() }
    }
}

impl Palette {
    /// A palette that styles nothing: rendering gives plain text.
    pub fn plain() -> (palette: Self)
        ensures
            unstyled(palette),
    {
        Palette {
            warning: StyleCodes::unstyled(),
            error: StyleCodes::unstyled(),
            location: StyleCodes::unstyled(),
            separator: StyleCodes::unstyled(),
            help: StyleCodes::unstyled(),
            emphasis: StyleCodes::unstyled(),
        }
    }

    /// The style of a diagnostic's severity.
    pub fn level(&self, level: LintLevel) -> (codes: &StyleCodes)
        ensures
            *codes == level_codes(*self, level),
    {
        match level {
            LintLevel::Deny => &self.error,
            _ => &self.warning,
        }
    }
}

/// A terminal style of the diagnostics: a foreground color, bold or not, or bold alone.
#[derive(Clone, Copy, Debug, PartialEq, Eq)]
pub enum TerminalStyle {
    BoldYellow,
    BoldRed,
    BoldBrightBlue,
    Cyan,
    BoldBrightCyan,
    Bold,
}

/// The escape text that `anstyle::Style::render` writes for a style.
pub uninterp spec fn style_open_text(style: TerminalStyle) -> Seq<char>;

/// The escape text that `anstyle::Style::render_reset` writes for a style.
pub uninterp spec fn style_close_text(style: TerminalStyle) -> Seq<char>;

/// Calls `anstyle::Style::render` on the `anstyle` style of the same color and effects: the
/// escape text that turns the style on. Only its naming is stated.
#[verifier::external_body]
fn style_open(style: TerminalStyle) -> (text: String)
    ensures
        text@ == style_open_text(style),
{
    let style = match style {
        TerminalStyle::BoldYellow => anstyle::AnsiColor::Yellow.on_default().bold(),
        TerminalStyle::BoldRed => anstyle::AnsiColor::Red.on_default().bold(),
        TerminalStyle::BoldBrightBlue => anstyle::AnsiColor::BrightBlue.on_default().bold(),
        TerminalStyle::Cyan => anstyle::AnsiColor::Cyan.on_default(),
        TerminalStyle::BoldBrightCyan => anstyle::AnsiColor::BrightCyan.on_default().bold(),
        TerminalStyle::Bold => anstyle::Style::new().bold(),
    };
    format!("{}", style.render())
}

/// Calls `anstyle::Style::render_reset` on the `anstyle` style of the same color and effects:
/// the escape text that turns the style off. Only its naming is stated.
#[verifier::external_body]
fn style_close(style: TerminalStyle) -> (text: String)
    ensures
        text@ == style_close_text(style),
{
    let style = match style {
        TerminalStyle::BoldYellow => anstyle::AnsiColor::Yellow.on_default().bold(),
        TerminalStyle::BoldRed => anstyle::AnsiColor::Red.on_default().bold(),
        TerminalStyle::BoldBrightBlue => anstyle::AnsiColor::BrightBlue.on_default().bold(),
        TerminalStyle::Cyan => anstyle::AnsiColor::Cyan.on_default(),
        TerminalStyle::BoldBrightCyan => anstyle::AnsiColor::BrightCyan.on_default().bold(),
        TerminalStyle::Bold => anstyle::Style::new().bold(),
    };
    format!("{}", style.render_reset())
}

/// Whether codes are those of a terminal style.
pub open spec fn codes_of(codes: StyleCodes, style: TerminalStyle) -> bool {
    codes.open@ == style_open_text(style) && codes.close@ == style_close_text(style)
}

fn style_codes(style: TerminalStyle) -> (codes: StyleCodes)
    ensures
        codes_of(codes, style),
{
    StyleCodes { open: style_open(style), close: style_close(style) }
}

impl Palette {
    /// The terminal palette: warnings bold yellow, errors bold red, locations bold bright blue,
    /// separators cyan, help labels bold bright cyan, and emphasis bold.
    pub fn terminal() -> (palette: Self)
        ensures
            codes_of(palette.warning, TerminalStyle::BoldYellow),
            codes_of(palette.error, TerminalStyle::BoldRed),
            codes_of(palette.location, TerminalStyle::BoldBrightBlue),
            codes_of(palette.separator, TerminalStyle::Cyan),
            codes_of(palette.help, TerminalStyle::BoldBrightCyan),
            codes_of(palette.emphasis, TerminalStyle::Bold),
    {
        Palette {
            warning: style_codes(TerminalStyle::BoldYellow),
            error: style_codes(TerminalStyle::BoldRed),
            location: style_codes(TerminalStyle::BoldBrightBlue),
            separator: style_codes(TerminalStyle::Cyan),
            help: style_codes(TerminalStyle::BoldBrightCyan),
            emphasis: style_codes(TerminalStyle::Bold),
        }
    }
}

/// Appends `content` in a style.
pub fn push_styled(output: &mut String, codes: &StyleCodes, content: &str)
    ensures
        final(output)@ == old(output)@ + styled(*codes, content@),
{
    output.append(codes.open.as_str());
    output.append(content);
    output.append(codes.close.as_str());
    proof {
        assert(old(output)@ + codes.open@ + content@ + codes.close@ =~= old(output)@ + styled(*codes, content@));
    }
}

/// Appends `n` spaces.
pub fn push_spaces(output: &mut String, n: usize)
    ensures
        final(output)@ == old(output)@ + spaces(n as nat),
{
    let mut k: usize = 0;
    while k < n
        invariant
            k <= n,
            output@ == old(output)@ + spaces(k as nat),
        decreases n - k,
    {
        proof { reveal_strlit(" "); }
        output.append(" ");
        proof {
            assert(old(output)@ + spaces(k as nat) + " "@ =~= old(output)@ + spaces((k + 1) as nat));
        }
        k = k + 1;
    }
}

/// The header line of a diagnostic: its severity and code, then its message.
pub open spec fn header_text(palette: Palette, code: Seq<char>, message: Seq<char>, level: LintLevel) -> Seq<char> {
    styled(level_codes(palette, level), severity_text(level) + "["@ + code + "]"@) + ": "@ + styled(palette.emphasis, message)
        + "\n"@
}

/// Appends the header line of a diagnostic.
pub fn write_diagnostic_header(output: &mut String, palette: &Palette, code: &str, message: &str, level: LintLevel)
    requires
        level != LintLevel::Allow,
    ensures
        final(output)@ == old(output)@ + header_text(*palette, code@, message@, level),
{
    let mut label = String::from_str(level.severity());
    label.append("[");
    label.append(code);
    label.append("]");
    push_styled(output, palette.level(level), label.as_str());
    output.append(": ");
    push_styled(output, &palette.emphasis, message);
    output.append("\n");
    proof {
        assert(old(output)@ + header_text(*palette, code@, message@, level) =~= old(output)@ + styled(
            level_codes(*palette, level),
            severity_text(level) + "["@ + code@ + "]"@,
        ) + ": "@ + styled(palette.emphasis, message@) + "\n"@);
    }
}

/// The indentation that puts a marker under column `column` of a source line: tabs stay tabs,
/// every other character becomes a space.
pub open spec fn indent_of(source_line: Seq<char>, column: int) -> Seq<char> {
    let n = if column - 1 < source_line.len() { if column - 1 < 0 { 0 } else { column - 1 } } else { source_line.len() as int };
    Seq::new(n as nat, |i: int| if source_line[i] == '\t' { '\t' } else { ' ' })
}

/// The indentation that puts a marker under column `column` of `source_line`.
pub fn marker_indent(source_line: &str, column: usize) -> (indent: String)
    ensures
        indent@ == indent_of(source_line@, column as int),
{
    let length = source_line.unicode_len();
    let count = if column == 0 { 0 } else if column - 1 < length { column - 1 } else { length };
    let mut indent = String::new();
    let mut k: usize = 0;
    while k < count
        invariant
            count <= length,
            length == source_line@.len(),
            count == indent_of(source_line@, column as int).len(),
            k <= count,
            indent@ =~= indent_of(source_line@, column as int).take(k as int),
        decreases count - k,
    {
        let character = source_line.get_char(k);
        proof {
            reveal_strlit("\t");
            reveal_strlit(" ");
        }
        if character == '\t' {
            indent.append("\t");
        } else {
            indent.append(" ");
        }
        proof {
            assert(indent@ =~= indent_of(source_line@, column as int).take(k + 1));
        }
        k = k + 1;
    }
    indent
}

/// The marker line under an annotated source line.
pub open spec fn marker_text(source_line: Seq<char>, column: int, marker: Seq<char>) -> Seq<char> {
    indent_of(source_line, column) + "^^^ "@ + marker
}

/// The line that says where a diagnostic points.
pub open spec fn pointer_text(palette: Palette, file: Seq<char>, line: nat, column: nat) -> Seq<char> {
    "  "@ + styled(palette.location, "-->"@) + " "@ + file + ":"@ + decimal(line) + ":"@ + decimal(column) + "\n"@
}

/// A source line with a marker under the pointed column, framed by a gutter of `width` columns.
pub open spec fn excerpt_text(
    palette: Palette,
    line: nat,
    column: nat,
    text: Seq<char>,
    marker: Seq<char>,
    marker_codes: StyleCodes,
) -> Seq<char> {
    let width = decimal(line).len();
    spaces(width) + " "@ + styled(palette.separator, "|"@) + "\n"@ + styled(palette.location, decimal(line)) + " "@
        + styled(palette.separator, "|"@) + " "@ + text + "\n"@ + spaces(width) + " "@ + styled(palette.separator, "|"@)
        + " "@ + styled(marker_codes, marker_text(text, column as int, marker)) + "\n"@
}

/// The location lines of a diagnostic: where it points, then the source line with a marker
/// under the pointed column when the source line is known.
pub open spec fn location_text(
    palette: Palette,
    file: Seq<char>,
    line: nat,
    column: nat,
    source_line: Option<Seq<char>>,
    marker: Seq<char>,
    marker_codes: StyleCodes,
) -> Seq<char> {
    pointer_text(palette, file, line, column) + match source_line {
        Some(text) => excerpt_text(palette, line, column, text, marker, marker_codes),
        None => Seq::empty(),
    }
}

fn write_pointer(output: &mut String, palette: &Palette, file: &str, line: usize, column: usize)
    ensures
        final(output)@ == old(output)@ + pointer_text(*palette, file@, line as nat, column as nat),
{
    output.append("  ");
    push_styled(output, &palette.location, "-->");
    output.append(" ");
    output.append(file);
    output.append(":");
    push_decimal(output, line);
    output.append(":");
    push_decimal(output, column);
    output.append("\n");
    proof {
        assert(final(output)@ =~= old(output)@ + pointer_text(*palette, file@, line as nat, column as nat)) by {
            assert(output@ =~= old(output)@ + pointer_text(*palette, file@, line as nat, column as nat));
        }
    }
}

fn write_gutter(output: &mut String, palette: &Palette, width: usize)
    ensures
        final(output)@ == old(output)@ + spaces(width as nat) + " "@ + styled(palette.separator, "|"@),
{
    push_spaces(output, width);
    output.append(" ");
    push_styled(output, &palette.separator, "|");
}

fn write_excerpt(
    output: &mut String,
    palette: &Palette,
    line: usize,
    column: usize,
    text: &str,
    marker: &str,
    marker_codes: &StyleCodes,
)
    ensures
        final(output)@ == old(output)@ + excerpt_text(*palette, line as nat, column as nat, text@, marker@, *marker_codes),
{
    let mut number = String::new();
    push_decimal(&mut number, line);
    let width = number.as_str().unicode_len();
    write_gutter(output, palette, width);
    output.append("\n");
    push_styled(output, &palette.location, number.as_str());
    output.append(" ");
    push_styled(output, &palette.separator, "|");
    output.append(" ");
    output.append(text);
    output.append("\n");
    write_gutter(output, palette, width);
    output.append(" ");
    let mut annotation = marker_indent(text, column);
    annotation.append("^^^ ");
    annotation.append(marker);
    push_styled(output, marker_codes, annotation.as_str());
    output.append("\n");
    proof {
        assert(output@ =~= old(output)@ + excerpt_text(*palette, line as nat, column as nat, text@, marker@, *marker_codes));
    }
}

/// Appends the location lines of a diagnostic, and returns the width of its line number.
pub fn write_annotated_location(
    output: &mut String,
    palette: &Palette,
    file: &str,
    line: usize,
    column: usize,
    source_line: Option<&str>,
    marker: &str,
    marker_codes: &StyleCodes,
) -> (width: usize)
    ensures
        width == decimal(line as nat).len(),
        final(output)@ == old(output)@ + location_text(
            *palette,
            file@,
            line as nat,
            column as nat,
            match source_line {
                Some(text) => Some(text@),
                None => None,
            },
            marker@,
            *marker_codes,
        ),
{
    write_pointer(output, palette, file, line, column);
    let ghost head = output@;
    match source_line {
        Some(text) => {
            write_excerpt(output, palette, line, column, text, marker, marker_codes);
        },
        None => {},
    }
    proof {
        assert(output@ =~= old(output)@ + location_text(
            *palette,
            file@,
            line as nat,
            column as nat,
            match source_line {
                Some(text) => Some(text@),
                None => None,
            },
            marker@,
            *marker_codes,
        ));
    }
    let mut number = String::new();
    push_decimal(&mut number, line);
    number.as_str().unicode_len()
}

/// Whether a finding has a diagnostic: live enum variants have no visibility finding, and
/// narrowing below the crate never concerns variants or re-exports.
pub open spec fn renderable(kind: FindingKind, definition_kind: DefinitionKind) -> bool {
    &&& !(kind == FindingKind::UnnecessaryPublic && definition_kind == DefinitionKind::EnumVariant)
    &&& !((kind == FindingKind::UnnecessaryRestrictedVisibility || kind == FindingKind::UnnecessaryCrateVisibility) && (
    definition_kind == DefinitionKind::EnumVariant || definition_kind == DefinitionKind::Reexport))
}

/// Whether a finding has a diagnostic.
pub fn is_renderable(kind: FindingKind, definition_kind: DefinitionKind) -> (ok: bool)
    ensures
        ok == renderable(kind, definition_kind),
{
    !(matches!(kind, FindingKind::UnnecessaryPublic) && matches!(definition_kind, DefinitionKind::EnumVariant)) && !(matches!(
        kind,
        FindingKind::UnnecessaryRestrictedVisibility | FindingKind::UnnecessaryCrateVisibility
    ) && matches!(definition_kind, DefinitionKind::EnumVariant | DefinitionKind::Reexport))
}

/// The message of a finding's diagnostic. `source` names what the declaration is unreachable from.
pub open spec fn finding_message(
    kind: FindingKind,
    definition_kind: DefinitionKind,
    test_only: bool,
    name: Seq<char>,
    crate_name: Seq<char>,
    source: Seq<char>,
) -> Seq<char> {
    match kind {
        FindingKind::TestOnly => match definition_kind {
            DefinitionKind::EnumVariant => "enum variant `"@ + name + "` is reachable only from non-production targets"@,
            DefinitionKind::Reexport => "re-export `"@ + name + "` is reachable only from non-production targets"@,
            DefinitionKind::Module => "module `"@ + name + "` is reachable only from non-production targets"@,
            _ => "`"@ + name + "` is reachable only from non-production targets"@,
        },
        FindingKind::DeadPublic => match definition_kind {
            DefinitionKind::EnumVariant => "`"@ + name + "` is a public enum variant but is not reachable from "@ + source,
            DefinitionKind::Reexport => "public re-export `"@ + name + "` has no target reachable from "@ + source,
            DefinitionKind::Module => "public module `"@ + name + "` has no declaration reachable from "@ + source,
            _ => "`"@ + name + "` is public but is not reachable from "@ + source,
        },
        FindingKind::UnnecessaryPublic => match definition_kind {
            DefinitionKind::Reexport => if test_only {
                "public re-export `"@ + name + "` is needed only by tests; it can be `pub(crate)`"@
            } else {
                "public re-export `"@ + name + "` is not required by any compiled cross-crate use; it can be `pub(crate)`"@
            },
            DefinitionKind::Module => if test_only {
                "public module `"@ + name + "` is needed only by tests; it can be `pub(crate)`"@
            } else {
                "public module `"@ + name + "` is used only within `"@ + crate_name + "`; it can be `pub(crate)`"@
            },
            _ => if test_only {
                "`"@ + name + "` is public but is needed only by tests; it can be `pub(crate)`"@
            } else {
                "`"@ + name + "` is public but all reachable uses are within `"@ + crate_name + "`; it can be `pub(crate)`"@
            },
        },
        FindingKind::UnnecessaryRestrictedVisibility => "`"@ + name
            + "` has explicit restricted visibility but all compiled uses fit within the defining module; it can be private"@,
        FindingKind::UnnecessaryCrateVisibility => "`"@ + name
            + "` is visible throughout the crate but all compiled uses fit within the parent module; it can be `pub(super)`"@,
    }
}

/// The help of a finding's diagnostic.
pub open spec fn finding_help(kind: FindingKind, definition_kind: DefinitionKind) -> Seq<char> {
    match kind {
        FindingKind::TestOnly => match definition_kind {
            DefinitionKind::EnumVariant => "consider removing this variant and its non-production uses"@,
            DefinitionKind::Reexport => "consider removing this re-export and its non-production uses"@,
            DefinitionKind::Module => "consider removing this module and its non-production uses"@,
            _ => "consider removing this declaration and its non-production uses"@,
        },
        FindingKind::DeadPublic => match definition_kind {
            DefinitionKind::EnumVariant => "consider removing this variant and its remaining uses"@,
            DefinitionKind::Reexport => "consider restricting this re-export's visibility or removing it"@,
            DefinitionKind::Module => "consider restricting this module's visibility or removing it"@,
            _ => "consider restricting this declaration's visibility or removing it"@,
        },
        FindingKind::UnnecessaryPublic => match definition_kind {
            DefinitionKind::Reexport => "change this re-export to `pub(crate) use`"@,
            DefinitionKind::Module => "change this module to `pub(crate) mod`"@,
            _ => "change this declaration to `pub(crate)`"@,
        },
        FindingKind::UnnecessaryRestrictedVisibility => match definition_kind {
            DefinitionKind::Module => "remove this module's visibility modifier"@,
            _ => "remove this declaration's visibility modifier"@,
        },
        FindingKind::UnnecessaryCrateVisibility => match definition_kind {
            DefinitionKind::Module => "change this module to `pub(super) mod`"@,
            _ => "change this declaration to `pub(super)`"@,
        },
    }
}

/// The marker label under the declaration of a finding.
pub open spec fn finding_marker(kind: FindingKind, definition_kind: DefinitionKind) -> Seq<char> {
    match kind {
        FindingKind::TestOnly => match definition_kind {
            DefinitionKind::EnumVariant => "test-only enum variant"@,
            DefinitionKind::Reexport => "test-only re-export"@,
            DefinitionKind::Module => "test-only module"@,
            _ => "test-only declaration"@,
        },
        FindingKind::DeadPublic | FindingKind::UnnecessaryPublic => match definition_kind {
            DefinitionKind::EnumVariant => "public enum variant"@,
            DefinitionKind::Reexport => "public re-export"@,
            DefinitionKind::Module => "public module"@,
            _ => "public declaration"@,
        },
        FindingKind::UnnecessaryRestrictedVisibility => match definition_kind {
            DefinitionKind::Module => "restricted-visibility module"@,
            _ => "restricted-visibility declaration"@,
        },
        FindingKind::UnnecessaryCrateVisibility => match definition_kind {
            DefinitionKind::Module => "crate-visible module"@,
            _ => "crate-visible declaration"@,
        },
    }
}

fn phrase(before: &str, name: &str, after: &str) -> (text: String)
    ensures
        text@ == before@ + name@ + after@,
{
    let mut text = String::from_str(before);
    text.append(name);
    text.append(after);
    text
}

fn phrase_with_crate(before: &str, name: &str, middle: &str, crate_name: &str, after: &str) -> (text: String)
    ensures
        text@ == before@ + name@ + middle@ + crate_name@ + after@,
{
    let mut text = String::from_str(before);
    text.append(name);
    text.append(middle);
    text.append(crate_name);
    text.append(after);
    text
}

/// The message of a finding's diagnostic.
pub fn finding_message_text(
    kind: FindingKind,
    definition_kind: DefinitionKind,
    test_only: bool,
    name: &str,
    crate_name: &str,
    source: &str,
) -> (message: String)
    requires
        renderable(kind, definition_kind),
    ensures
        message@ == finding_message(kind, definition_kind, test_only, name@, crate_name@, source@),
{
    match kind {
        FindingKind::TestOnly => match definition_kind {
            DefinitionKind::EnumVariant => phrase("enum variant `", name, "` is reachable only from non-production targets"),
            DefinitionKind::Reexport => phrase("re-export `", name, "` is reachable only from non-production targets"),
            DefinitionKind::Module => phrase("module `", name, "` is reachable only from non-production targets"),
            _ => phrase("`", name, "` is reachable only from non-production targets"),
        },
        FindingKind::DeadPublic => match definition_kind {
            DefinitionKind::EnumVariant => phrase("`", name, "` is a public enum variant but is not reachable from ").concat(source),
            DefinitionKind::Reexport => phrase("public re-export `", name, "` has no target reachable from ").concat(source),
            DefinitionKind::Module => phrase("public module `", name, "` has no declaration reachable from ").concat(source),
            _ => phrase("`", name, "` is public but is not reachable from ").concat(source),
        },
        FindingKind::UnnecessaryPublic => match definition_kind {
            DefinitionKind::Reexport => if test_only {
                phrase("public re-export `", name, "` is needed only by tests; it can be `pub(crate)`")
            } else {
                phrase("public re-export `", name, "` is not required by any compiled cross-crate use; it can be `pub(crate)`")
            },
            DefinitionKind::Module => if test_only {
                phrase("public module `", name, "` is needed only by tests; it can be `pub(crate)`")
            } else {
                phrase_with_crate("public module `", name, "` is used only within `", crate_name, "`; it can be `pub(crate)`")
            },
            _ => if test_only {
                phrase("`", name, "` is public but is needed only by tests; it can be `pub(crate)`")
            } else {
                phrase_with_crate("`", name, "` is public but all reachable uses are within `", crate_name, "`; it can be `pub(crate)`")
            },
        },
        FindingKind::UnnecessaryRestrictedVisibility => phrase(
            "`",
            name,
            "` has explicit restricted visibility but all compiled uses fit within the defining module; it can be private",
        ),
        FindingKind::UnnecessaryCrateVisibility => phrase(
            "`",
            name,
            "` is visible throughout the crate but all compiled uses fit within the parent module; it can be `pub(super)`",
        ),
    }
}

/// The help of a finding's diagnostic.
pub fn finding_help_text(kind: FindingKind, definition_kind: DefinitionKind) -> (help: &'static str)
    ensures
        help@ == finding_help(kind, definition_kind),
{
    match kind {
        FindingKind::TestOnly => match definition_kind {
            DefinitionKind::EnumVariant => "consider removing this variant and its non-production uses",
            DefinitionKind::Reexport => "consider removing this re-export and its non-production uses",
            DefinitionKind::Module => "consider removing this module and its non-production uses",
            _ => "consider removing this declaration and its non-production uses",
        },
        FindingKind::DeadPublic => match definition_kind {
            DefinitionKind::EnumVariant => "consider removing this variant and its remaining uses",
            DefinitionKind::Reexport => "consider restricting this re-export's visibility or removing it",
            DefinitionKind::Module => "consider restricting this module's visibility or removing it",
            _ => "consider restricting this declaration's visibility or removing it",
        },
        FindingKind::UnnecessaryPublic => match definition_kind {
            DefinitionKind::Reexport => "change this re-export to `pub(crate) use`",
            DefinitionKind::Module => "change this module to `pub(crate) mod`",
            _ => "change this declaration to `pub(crate)`",
        },
        FindingKind::UnnecessaryRestrictedVisibility => match definition_kind {
            DefinitionKind::Module => "remove this module's visibility modifier",
            _ => "remove this declaration's visibility modifier",
        },
        FindingKind::UnnecessaryCrateVisibility => match definition_kind {
            DefinitionKind::Module => "change this module to `pub(super) mod`",
            _ => "change this declaration to `pub(super)`",
        },
    }
}

/// The marker label under the declaration of a finding.
pub fn finding_marker_text(kind: FindingKind, definition_kind: DefinitionKind) -> (marker: &'static str)
    ensures
        marker@ == finding_marker(kind, definition_kind),
{
    match kind {
        FindingKind::TestOnly => match definition_kind {
            DefinitionKind::EnumVariant => "test-only enum variant",
            DefinitionKind::Reexport => "test-only re-export",
            DefinitionKind::Module => "test-only module",
            _ => "test-only declaration",
        },
        FindingKind::DeadPublic | FindingKind::UnnecessaryPublic => match definition_kind {
            DefinitionKind::EnumVariant => "public enum variant",
            DefinitionKind::Reexport => "public re-export",
            DefinitionKind::Module => "public module",
            _ => "public declaration",
        },
        FindingKind::UnnecessaryRestrictedVisibility => match definition_kind {
            DefinitionKind::Module => "restricted-visibility module",
            _ => "restricted-visibility declaration",
        },
        FindingKind::UnnecessaryCrateVisibility => match definition_kind {
            DefinitionKind::Module => "crate-visible module",
            _ => "crate-visible declaration",
        },
    }
}

/// What a declaration is unreachable from: its production product, or any test when it is
/// compiled only for tests.
pub open spec fn reachability_source(finding: Finding, production_description: Seq<char>) -> Seq<char> {
    if finding.test_compiled_only {
        "any workspace test"@
    } else {
        production_description
    }
}

/// The lines after the header of a finding's diagnostic: its location and help, or, without a
/// location, the crate that declares it and the help.
pub open spec fn finding_body_text(
    palette: Palette,
    finding: Finding,
    source_line: Option<Seq<char>>,
    level: LintLevel,
) -> Seq<char> {
    let definition = *finding.definition;
    let help = finding_help(finding.kind, definition.kind);
    match definition.span {
        Some(span) => location_text(
            palette,
            span.file@,
            span.line as nat,
            span.column as nat,
            source_line,
            finding_marker(finding.kind, definition.kind),
            level_codes(palette, level),
        ) + spaces(decimal(span.line as nat).len()) + " "@ + styled(palette.separator, "="@) + " "@ + styled(
            palette.help,
            "help"@,
        ) + ": "@ + help + "\n"@,
        None => "  "@ + styled(palette.separator, "="@) + " "@ + styled(palette.help, "note"@)
            + ": "@ + "declaration in crate `"@ + definition.crate_name@ + "`\n"@ + "  "@ + styled(palette.separator, "="@)
            + " "@ + styled(palette.help, "help"@) + ": "@ + help + "\n"@,
    }
}

/// The full diagnostic of a finding, ending with a blank line.
pub open spec fn finding_diagnostic_text(
    palette: Palette,
    finding: Finding,
    production_description: Seq<char>,
    source_line: Option<Seq<char>>,
    level: LintLevel,
) -> Seq<char> {
    let definition = *finding.definition;
    header_text(
        palette,
        finding_code(finding.kind),
        finding_message(
            finding.kind,
            definition.kind,
            finding.test_only,
            definition.name@,
            definition.crate_name@,
            reachability_source(finding, production_description),
        ),
        level,
    ) + finding_body_text(palette, finding, source_line, level) + "\n"@
}

/// Appends `= <label>: ` with the palette's separator and help styles.
fn write_annotation_label(output: &mut String, palette: &Palette, label: &str)
    ensures
        final(output)@ == old(output)@ + styled(palette.separator, "="@) + " "@ + styled(palette.help, label@) + ": "@,
{
    push_styled(output, &palette.separator, "=");
    output.append(" ");
    push_styled(output, &palette.help, label);
    output.append(": ");
}

#[verifier::rlimit(40)]
#[verifier::spinoff_prover]
fn write_finding_body(
    output: &mut String,
    palette: &Palette,
    finding: &Finding,
    source_line: Option<&str>,
    level: LintLevel,
)
    ensures
        final(output)@ == old(output)@ + finding_body_text(
            *palette,
            *finding,
            match source_line {
                Some(text) => Some(text@),
                None => None,
            },
            level,
        ),
{
    let definition = finding.definition;
    let help = finding_help_text(finding.kind, definition.kind);
    match &definition.span {
        Some(span) => {
            let width = write_annotated_location(
                output,
                palette,
                span.file.as_str(),
                span.line,
                span.column,
                source_line,
                finding_marker_text(finding.kind, definition.kind),
                palette.level(level),
            );
            let ghost located = output@;
            push_spaces(output, width);
            output.append(" ");
            write_annotation_label(output, palette, "help");
            output.append(help);
            output.append("\n");
            proof {
                assert(output@ =~= old(output)@ + (location_text(
                    *palette,
                    span.file@,
                    span.line as nat,
                    span.column as nat,
                    match source_line {
                        Some(text) => Some(text@),
                        None => None,
                    },
                    finding_marker(finding.kind, definition.kind),
                    level_codes(*palette, level),
                ) + spaces(width as nat) + " "@ + styled(palette.separator, "="@) + " "@ + styled(palette.help, "help"@) + ": "@ + help@ + "\n"@));
                assert(output@ =~= located + spaces(width as nat) + " "@ + styled(palette.separator, "="@) + " "@
                    + styled(palette.help, "help"@) + ": "@ + help@ + "\n"@);
            }
        },
        None => {
            output.append("  ");
            write_annotation_label(output, palette, "note");
            output.append("declaration in crate `");
            output.append(definition.crate_name.as_str());
            output.append("`\n");
            output.append("  ");
            write_annotation_label(output, palette, "help");
            output.append(help);
            output.append("\n");
            proof {
                assert(output@ =~= old(output)@ + ("  "@ + styled(palette.separator, "="@) + " "@ + styled(palette.help, "note"@)
                    + ": "@ + "declaration in crate `"@ + definition.crate_name@ + "`\n"@ + "  "@ + styled(palette.separator, "="@)
                    + " "@ + styled(palette.help, "help"@) + ": "@ + help@ + "\n"@));
            }
        },
    }
    proof {
        assert(output@ =~= old(output)@ + finding_body_text(
            *palette,
            *finding,
            match source_line {
                Some(text) => Some(text@),
                None => None,
            },
            level,
        ));
    }
}

/// Appends the diagnostic of a finding: a header naming the lint and what can change, the
/// declaration's location with a marker under it when the source line is known, and a help line.
pub fn write_diagnostic(
    output: &mut String,
    palette: &Palette,
    finding: &Finding,
    production_description: &str,
    source_line: Option<&str>,
    level: LintLevel,
)
    requires
        level != LintLevel::Allow,
        renderable(finding.kind, finding.definition.kind),
    ensures
        final(output)@ == old(output)@ + finding_diagnostic_text(
            *palette,
            *finding,
            production_description@,
            match source_line {
                Some(text) => Some(text@),
                None => None,
            },
            level,
        ),
{
    let definition = finding.definition;
    let source: &str = if finding.test_compiled_only {
        "any workspace test"
    } else {
        production_description
    };
    let message = finding_message_text(
        finding.kind,
        definition.kind,
        finding.test_only,
        definition.name.as_str(),
        definition.crate_name.as_str(),
        source,
    );
    write_diagnostic_header(output, palette, finding.kind.code(), message.as_str(), level);
    write_finding_body(output, palette, finding, source_line, level);
    output.append("\n");
    proof {
        assert(output@ =~= old(output)@ + finding_diagnostic_text(
            *palette,
            *finding,
            production_description@,
            match source_line {
                Some(text) => Some(text@),
                None => None,
            },
            level,
        ));
    }
}

/// Where the lines of `text` start: at 0 and after each newline.
pub open spec fn line_starts_of(text: Seq<char>) -> Seq<int>
    decreases text.len(),
{
    if text.len() == 0 {
        seq![0]
    } else if text.last() == '\n' {
        line_starts_of(text.drop_last()).push(text.len() as int)
    } else {
        line_starts_of(text.drop_last())
    }
}

/// Line `line` (counted from 1) of `text`, without its newline, and without a carriage return
/// before that newline; nothing past the last line or after a final newline.
pub open spec fn source_line_of(text: Seq<char>, line: int) -> Option<Seq<char>> {
    let starts = line_starts_of(text);
    if line < 1 || line > starts.len() {
        None
    } else {
        let start = starts[line - 1];
        if start == text.len() {
            None
        } else if line < starts.len() {
            let body = text.subrange(start, starts[line] - 1);
            Some(
                if body.len() > 0 && body.last() == '\r' {
                    body.drop_last()
                } else {
                    body
                },
            )
        } else {
            Some(text.subrange(start, text.len() as int))
        }
    }
}

proof fn lemma_line_starts_bounds(text: Seq<char>)
    ensures
        line_starts_of(text).len() >= 1,
        line_starts_of(text)[0] == 0,
        forall|i: int, j: int| 0 <= i < j < line_starts_of(text).len() ==> line_starts_of(text)[i] < line_starts_of(text)[j],
        forall|i: int| 0 <= i < line_starts_of(text).len() ==> 0 <= #[trigger] line_starts_of(text)[i] <= text.len(),
        forall|i: int| 1 <= i < line_starts_of(text).len() ==> #[trigger] text[line_starts_of(text)[i] - 1] == '\n',
    decreases text.len(),
{
    if text.len() > 0 {
        lemma_line_starts_bounds(text.drop_last());
        let prefix = text.drop_last();
        assert forall|i: int| 1 <= i < line_starts_of(text).len() implies #[trigger] text[line_starts_of(text)[i] - 1] == '\n' by {
            if i < line_starts_of(prefix).len() {
                assert(text[line_starts_of(prefix)[i] - 1] == prefix[line_starts_of(prefix)[i] - 1]);
            }
        }
    }
}

/// A loaded source file, indexed by the start of each line.
#[derive(Debug)]
pub struct CachedSource {
    source: String,
    line_starts: Vec<usize>,
}

impl CachedSource {
    /// The text of the source.
    pub closed spec fn text(&self) -> Seq<char> {
        self.source@
    }

    /// Whether the line index matches the text.
    pub closed spec fn wf(&self) -> bool {
        &&& self.line_starts@.len() == line_starts_of(self.source@).len()
        &&& forall|i: int| 0 <= i < self.line_starts@.len() ==> #[trigger] self.line_starts@[i] as int == line_starts_of(self.source@)[i]
    }

    /// Indexes the lines of a source.
    pub fn new(source: String) -> (cached: Self)
        requires
            source@.len() < usize::MAX,
        ensures
            cached.wf(),
            cached.text() == source@,
    {
        broadcast use vstd::string::group_string_axioms;
        let mut line_starts: Vec<usize> = Vec::new();
        line_starts.push(0);
        let ghost text = source@;
        let mut chars = source.as_str().chars();
        let mut count: usize = 0;
        proof {
            assert(text.take(0) =~= Seq::<char>::empty());
        }
        loop
            invariant
                text == source@,
                text.len() < usize::MAX,
                count <= text.len(),
                vstd::std_specs::iter::IteratorSpec::remaining(&chars) == text.skip(count as int),
                line_starts@.len() == line_starts_of(text.take(count as int)).len(),
                forall|i: int| 0 <= i < line_starts@.len() ==> #[trigger] line_starts@[i] as int == line_starts_of(text.take(count as int))[i],
            ensures
                count == text.len(),
                line_starts@.len() == line_starts_of(text).len(),
                forall|i: int| 0 <= i < line_starts@.len() ==> #[trigger] line_starts@[i] as int == line_starts_of(text)[i],
            decreases text.len() - count,
        {
            let next = chars.next();
            match next {
                Some(character) => {
                    proof {
                        assert(text.skip(count as int).len() > 0);
                        assert(character == text[count as int]);
                        assert(text.take(count + 1).drop_last() =~= text.take(count as int));
                        assert(vstd::std_specs::iter::IteratorSpec::remaining(&chars) =~= text.skip(count + 1));
                    }
                    count = count + 1;
                    if character == '\n' {
                        line_starts.push(count);
                    }
                },
                None => {
                    proof {
                        assert(text.skip(count as int).len() == 0);
                        assert(text.take(count as int) =~= text);
                    }
                    break;
                },
            }
        }
        CachedSource { source, line_starts }
    }

    /// Line `line` of the source, counted from 1.
    pub fn line(&self, line: usize) -> (text: Option<&str>)
        requires
            self.wf(),
        ensures
            text matches Some(found) ==> source_line_of(self.text(), line as int) == Some(found@),
            text is None ==> source_line_of(self.text(), line as int) is None,
    {
        proof {
            lemma_line_starts_bounds(self.source@);
        }
        if line == 0 || line > self.line_starts.len() {
            return None;
        }
        let index = line - 1;
        let start = self.line_starts[index];
        let length = self.source.as_str().unicode_len();
        if start == length {
            return None;
        }
        if index + 1 < self.line_starts.len() {
            let end = self.line_starts[index + 1] - 1;
            if end > start && self.source.as_str().get_char(end - 1) == '\r' {
                Some(self.source.as_str().substring_char(start, end - 1))
            } else {
                Some(self.source.as_str().substring_char(start, end))
            }
        } else {
            Some(self.source.as_str().substring_char(start, length))
        }
    }
}

#[verifier::external_type_specification]
#[verifier::external_body]
pub struct ExIoError(std::io::Error);

/// Whether `std::path::Path::is_absolute` holds of a path.
pub uninterp spec fn path_is_absolute(path: Seq<char>) -> bool;

/// The text of `std::path::Path::join` of `base` and `path`.
pub uninterp spec fn joined_path(base: Seq<char>, path: Seq<char>) -> Seq<char>;

/// Calls `std::path::Path::is_absolute`: whether the path names a place independently of the
/// current directory (on Unix, whether it starts with `/`). Only its naming is stated.
#[verifier::external_body]
fn is_absolute_path(path: &str) -> (absolute: bool)
    ensures
        absolute == path_is_absolute(path@),
{
    std::path::Path::new(path).is_absolute()
}

/// Calls `std::path::Path::join`: `path` appended to `base` with a separator between them.
/// Only its naming is stated; a path built from text converts back to the same text.
#[verifier::external_body]
fn join_path(base: &str, path: &str) -> (joined: String)
    ensures
        joined@ == joined_path(base@, path@),
{
    std::path::Path::new(base).join(path).to_string_lossy().into_owned()
}

/// Where the source of a span is found: the span's file as given when it is absolute, else
/// under the workspace root.
pub open spec fn resolved_source_path(workspace_root: Seq<char>, file: Seq<char>) -> Seq<char> {
    if path_is_absolute(file) {
        file
    } else {
        joined_path(workspace_root, file)
    }
}

/// Resolves where the source of a span is found.
pub fn resolve_source_path(workspace_root: &str, file: &str) -> (path: String)
    ensures
        path@ == resolved_source_path(workspace_root@, file@),
{
    if is_absolute_path(file) {
        String::from_str(file)
    } else {
        join_path(workspace_root, file)
    }
}

/// The first cached entry for `path` at or after `from`, if any.
pub open spec fn find_cached(entries: Seq<(Seq<char>, Option<Seq<char>>)>, path: Seq<char>) -> Option<Option<Seq<char>>>
    decreases entries.len(),
{
    if entries.len() == 0 {
        None
    } else if entries.last().0 == path {
        Some(entries.last().1)
    } else {
        find_cached(entries.drop_last(), path)
    }
}

proof fn lemma_find_cached(entries: Seq<(Seq<char>, Option<Seq<char>>)>, path: Seq<char>)
    requires
        forall|i: int, j: int| 0 <= i < j < entries.len() ==> (#[trigger] entries[i]).0 != (#[trigger] entries[j]).0,
    ensures
        find_cached(entries, path) is None <==> forall|i: int| 0 <= i < entries.len() ==> (#[trigger] entries[i]).0 != path,
        forall|i: int| 0 <= i < entries.len() && (#[trigger] entries[i]).0 == path ==> find_cached(entries, path) == Some(entries[i].1),
    decreases entries.len(),
{
    if entries.len() > 0 {
        let prefix = entries.drop_last();
        lemma_find_cached(prefix, path);
        assert forall|i: int| 0 <= i < prefix.len() implies #[trigger] prefix[i] == entries[i] by {}
        if entries.last().0 != path {
            assert forall|i: int| 0 <= i < entries.len() && (#[trigger] entries[i]).0 == path implies find_cached(entries, path) == Some(entries[i].1) by {
                assert(i < prefix.len());
                assert(prefix[i] == entries[i]);
            }
        } else {
            assert forall|i: int| 0 <= i < entries.len() && (#[trigger] entries[i]).0 == path implies find_cached(entries, path) == Some(entries[i].1) by {
                if i < entries.len() - 1 {
                    assert(entries[i].0 != entries[entries.len() - 1].0);
                }
            }
        }
    }
}

/// The known line of a span in the loaded sources, if its file loaded and has that line.
pub open spec fn cached_line(cache: Seq<(Seq<char>, Option<Seq<char>>)>, root: Seq<char>, span: Span) -> Option<Seq<char>> {
    match find_cached(cache, resolved_source_path(root, span.file@)) {
        Some(Some(text)) => source_line_of(text, span.line as int),
        _ => None,
    }
}

/// How looking up `path` changes the cache: a cached path leaves it unchanged; another path is
/// loaded once and appended with what loading it gave.
pub open spec fn cache_after_lookup<L: Fn(&str) -> Result<String, std::io::Error>>(
    before: Seq<(Seq<char>, Option<Seq<char>>)>,
    after: Seq<(Seq<char>, Option<Seq<char>>)>,
    loader: L,
    path: Seq<char>,
) -> bool {
    &&& (find_cached(before, path) is Some ==> after == before)
    &&& (find_cached(before, path) is None ==> exists|text: Option<Seq<char>>|
        after == before.push((path, text)) && #[trigger] loaded_by(loader, path, text))
}

/// Renders diagnostics into text, loading each source file at most once.
pub struct DiagnosticRenderer<'a, L> {
    workspace_root: &'a str,
    sources: Vec<(String, Option<CachedSource>)>,
    load_source: L,
    palette: Palette,
    output: String,
}

/// The view of one cache entry: the path and the text it was loaded with.
pub open spec fn entry_view(entry: (String, Option<CachedSource>)) -> (Seq<char>, Option<Seq<char>>) {
    (
        entry.0@,
        match entry.1 {
            Some(source) => Some(source.text()),
            None => None,
        },
    )
}

impl<'a, L> DiagnosticRenderer<'a, L> {
    /// The text rendered so far.
    pub closed spec fn output_text(&self) -> Seq<char> {
        self.output@
    }

    /// The loaded sources, in the order they were first needed.
    pub closed spec fn cache(&self) -> Seq<(Seq<char>, Option<Seq<char>>)> {
        self.sources@.map_values(|entry: (String, Option<CachedSource>)| entry_view(entry))
    }

    /// The workspace root that relative source paths are found under.
    pub closed spec fn root(&self) -> Seq<char> {
        self.workspace_root@
    }

    /// The styles of the rendered text.
    pub closed spec fn styles(&self) -> Palette {
        self.palette
    }

    /// The function that loads a source file.
    pub closed spec fn loader(&self) -> L {
        self.load_source
    }

    /// Whether every cached source is indexed and each path is cached once.
    pub closed spec fn wf(&self) -> bool {
        &&& forall|i: int| 0 <= i < self.sources@.len() ==> ((#[trigger] self.sources@[i]).1 matches Some(source) ==> source.wf())
        &&& forall|i: int, j: int| 0 <= i < j < self.sources@.len() ==> (#[trigger] self.sources@[i]).0@ != (#[trigger] self.sources@[j]).0@
    }

}


impl<'a, L: Fn(&str) -> Result<String, std::io::Error>> DiagnosticRenderer<'a, L> {
    /// Whether the loader can be called on any path.
    pub open spec fn loads_any_path(&self) -> bool {
        forall|path: &str| #[trigger] call_requires(self.loader(), (path,))
    }

    /// A renderer that loads sources with `load_source` and styles nothing.
    pub fn with_source_loader(workspace_root: &'a str, load_source: L) -> (renderer: Self)
        ensures
            renderer.wf(),
            renderer.output_text() == Seq::<char>::empty(),
            renderer.cache() == Seq::<(Seq<char>, Option<Seq<char>>)>::empty(),
            renderer.root() == workspace_root@,
            renderer.loader() == load_source,
            unstyled(renderer.styles()),
    {
        let renderer = DiagnosticRenderer {
            workspace_root,
            sources: Vec::new(),
            load_source,
            palette: Palette::plain(),
            output: String::new(),
        };
        proof {
            assert(renderer.cache() =~= Seq::<(Seq<char>, Option<Seq<char>>)>::empty());
        }
        renderer
    }

    /// This renderer with its text styled by `palette`.
    pub fn with_palette(self, palette: Palette) -> (renderer: Self)
        requires
            self.wf(),
        ensures
            renderer.wf(),
            renderer.output_text() == self.output_text(),
            renderer.cache() == self.cache(),
            renderer.root() == self.root(),
            renderer.loader() == self.loader(),
            renderer.styles() == palette,
    {
        DiagnosticRenderer { palette, ..self }
    }

    /// Line `span.line` of the source file of `span`, loading that file if no earlier call did.
    /// A file that cannot be loaded has no lines.
    pub fn source_line(&mut self, span: &Span) -> (found: Option<&str>)
        requires
            old(self).wf(),
            old(self).loads_any_path(),
        ensures
            final(self).wf(),
            final(self).output_text() == old(self).output_text(),
            final(self).root() == old(self).root(),
            final(self).loader() == old(self).loader(),
            final(self).styles() == old(self).styles(),
            cache_after_lookup(old(self).cache(), final(self).cache(), old(self).loader(), resolved_source_path(old(self).root(), span.file@)),
            found is Some <==> cached_line(final(self).cache(), old(self).root(), *span) is Some,
            found matches Some(line) ==> cached_line(final(self).cache(), old(self).root(), *span) == Some(line@),
    {
        let path = resolve_source_path(self.workspace_root, span.file.as_str());
        let ghost path_view = path@;
        let position = self.cached_position(path.as_str());
        let index = match position {
            Some(index) => index,
            None => self.load_into_cache(path),
        };
        proof {
            lemma_find_cached(self.cache(), path_view);
            assert(self.cache()[index as int] == entry_view(self.sources@[index as int]));
        }
        match &self.sources[index].1 {
            Some(source) => source.line(span.line),
            None => None,
        }
    }

    /// Appends the diagnostic of a finding, with the source line of its declaration when the
    /// declaration's file can be loaded.
    pub fn write_diagnostic(&mut self, finding: &Finding, production_description: &str, level: LintLevel)
        requires
            old(self).wf(),
            old(self).loads_any_path(),
            level != LintLevel::Allow,
            renderable(finding.kind, finding.definition.kind),
        ensures
            final(self).wf(),
            final(self).root() == old(self).root(),
            final(self).loader() == old(self).loader(),
            final(self).styles() == old(self).styles(),
            match finding.definition.span {
                Some(span) => {
                    &&& cache_after_lookup(old(self).cache(), final(self).cache(), old(self).loader(), resolved_source_path(old(self).root(), span.file@))
                    &&& final(self).output_text() == old(self).output_text() + finding_diagnostic_text(
                        old(self).styles(),
                        *finding,
                        production_description@,
                        cached_line(final(self).cache(), old(self).root(), span),
                        level,
                    )
                },
                None => {
                    &&& final(self).cache() == old(self).cache()
                    &&& final(self).output_text() == old(self).output_text() + finding_diagnostic_text(
                        old(self).styles(),
                        *finding,
                        production_description@,
                        None,
                        level,
                    )
                },
            },
    {
        let line: Option<String> = match &finding.definition.span {
            Some(span) => match self.source_line(span) {
                Some(text) => Some(String::from_str(text)),
                None => None,
            },
            None => None,
        };
        let shown: Option<&str> = match &line {
            Some(text) => Some(text.as_str()),
            None => None,
        };
        write_diagnostic(&mut self.output, &self.palette, finding, production_description, shown, level);
    }

    /// Appends the diagnostic of a configuration entry.
    pub fn write_config_diagnostic(&mut self, diagnostic: ConfigDiagnostic, config: &Config, level: LintLevel)
        requires
            level != LintLevel::Allow,
            diagnostic_in(diagnostic, config),
            config.path_text() is Some,
            config.wf(),
        ensures
            final(self).wf() == old(self).wf(),
            final(self).cache() == old(self).cache(),
            final(self).root() == old(self).root(),
            final(self).loader() == old(self).loader(),
            final(self).styles() == old(self).styles(),
            final(self).output_text() == old(self).output_text() + config_diagnostic_text(
                old(self).styles(),
                diagnostic,
                *config,
                old(self).root(),
                level,
            ),
    {
        write_config_diagnostic(&mut self.output, &self.palette, diagnostic, config, self.workspace_root, level);
    }

    /// Appends the closing summary: how many diagnostics were emitted for which products and
    /// target, then, for each lint, its count in each crate.
    pub fn write_summary(
        &mut self,
        diagnostic_count: usize,
        diagnostic_counts: &[(&str, Vec<(&str, usize)>)],
        production_summary: &str,
        compilation_target: &str,
    )
        requires
            forall|i: int| 0 <= i < diagnostic_counts@.len() ==> count_total((#[trigger] diagnostic_counts@[i]).1@) <= usize::MAX,
        ensures
            final(self).wf() == old(self).wf(),
            final(self).cache() == old(self).cache(),
            final(self).root() == old(self).root(),
            final(self).loader() == old(self).loader(),
            final(self).styles() == old(self).styles(),
            final(self).output_text() == old(self).output_text() + summary_text(
                diagnostic_count as nat,
                tally_view(diagnostic_counts@),
                production_summary@,
                compilation_target@,
            ),
    {
        write_summary(&mut self.output, diagnostic_count, diagnostic_counts, production_summary, compilation_target);
    }

    /// The rendered text.
    pub fn into_output(self) -> (output: String)
        ensures
            output@ == self.output_text(),
    {
        self.output
    }

    fn load_into_cache(&mut self, path: String) -> (index: usize)
        requires
            old(self).wf(),
            old(self).loads_any_path(),
            find_cached(old(self).cache(), path@) is None,
        ensures
            final(self).wf(),
            final(self).output_text() == old(self).output_text(),
            final(self).root() == old(self).root(),
            final(self).loader() == old(self).loader(),
            final(self).styles() == old(self).styles(),
            index == old(self).cache().len(),
            index < final(self).sources@.len(),
            final(self).sources@[index as int].0@ == path@,
            exists|text: Option<Seq<char>>|
                final(self).cache() == old(self).cache().push((path@, text)) && #[trigger] loaded_by(old(self).loader(), path@, text),
    {
        proof {
            lemma_find_cached(self.cache(), path@);
        }
        let argument = path.as_str();
        proof {
            assert(call_requires(self.loader(), (argument,)));
        }
        let loaded = (self.load_source)(argument);
        let cached = match loaded {
            Ok(source) => {
                if source.as_str().unicode_len() < usize::MAX {
                    Some(CachedSource::new(source))
                } else {
                    None
                }
            },
            Err(_) => None,
        };
        let ghost text = match &cached {
            Some(source) => Some(source.text()),
            None => None,
        };
        proof {
            assert(loaded_by(old(self).loader(), path@, text));
        }
        let ghost before = self.sources@;
        let ghost path_view = path@;
        self.sources.push((path, cached));
        proof {
            assert(self.cache() =~= old(self).cache().push((path_view, text))) by {
                assert(self.sources@ == before.push(self.sources@.last()));
            }
            assert forall|i: int| 0 <= i < self.sources@.len() - 1 implies (#[trigger] self.sources@[i]).0@ != self.sources@.last().0@ by {
                assert(old(self).cache()[i] == entry_view(before[i]));
            }
        }
        self.sources.len() - 1
    }

    fn cached_position(&self, path: &str) -> (position: Option<usize>)
        requires
            self.wf(),
        ensures
            position matches Some(index) ==> index < self.sources@.len() && self.sources@[index as int].0@ == path@,
            position is None <==> find_cached(self.cache(), path@) is None,
            position matches Some(index) ==> find_cached(self.cache(), path@) == Some(entry_view(self.sources@[index as int]).1),
    {
        proof {
            assert forall|i: int, j: int| 0 <= i < j < self.cache().len() implies (#[trigger] self.cache()[i]).0 != (#[trigger] self.cache()[j]).0 by {
                assert(self.cache()[i] == entry_view(self.sources@[i]));
                assert(self.cache()[j] == entry_view(self.sources@[j]));
            }
            lemma_find_cached(self.cache(), path@);
        }
        let mut k: usize = 0;
        while k < self.sources.len()
            invariant
                self.wf(),
                k <= self.sources@.len(),
                forall|i: int| 0 <= i < k ==> self.sources@[i].0@ != path@,
            decreases self.sources@.len() - k,
        {
            if crate::text::str_equals(self.sources[k].0.as_str(), path) {
                proof {
                    assert forall|i: int, j: int| 0 <= i < j < self.cache().len() implies (#[trigger] self.cache()[i]).0 != (#[trigger] self.cache()[j]).0 by {
                        assert(self.cache()[i] == entry_view(self.sources@[i]));
                        assert(self.cache()[j] == entry_view(self.sources@[j]));
                    }
                    lemma_find_cached(self.cache(), path@);
                    assert(self.cache()[k as int] == entry_view(self.sources@[k as int]));
                    assert(self.cache()[k as int].0 == path@);
                }
                return Some(k);
            }
            k = k + 1;
        }
        proof {
            assert forall|i: int| 0 <= i < self.cache().len() implies (#[trigger] self.cache()[i]).0 != path@ by {
                assert(self.cache()[i] == entry_view(self.sources@[i]));
            }
        }
        None
    }
}

/// Whether loading `path` can give `text`: the loader's text when it succeeds, nothing when it fails.
pub open spec fn loaded_by<L: Fn(&str) -> Result<String, std::io::Error>>(loader: L, path: Seq<char>, text: Option<Seq<char>>) -> bool {
    exists|argument: &str, result: Result<String, std::io::Error>| {
        &&& argument@ == path
        &&& call_ensures(loader, (argument,), result)
        &&& match result {
            Ok(source) => if source@.len() < usize::MAX {
                text == Some(source@)
            } else {
                text is None
            },
            Err(_) => text is None,
        }
    }
}

/// The total of the counts.
pub open spec fn count_total(counts: Seq<(&str, usize)>) -> nat
    decreases counts.len(),
{
    if counts.len() == 0 {
        0
    } else {
        count_total(counts.drop_last()) + counts.last().1 as nat
    }
}

/// The counts of each lint, by crate, as text and numbers.
pub open spec fn tally_view(counts: Seq<(&str, Vec<(&str, usize)>)>) -> Seq<(Seq<char>, Seq<(Seq<char>, nat)>)> {
    counts.map_values(
        |entry: (&str, Vec<(&str, usize)>)|
            (entry.0@, entry.1@.map_values(|count: (&str, usize)| (count.0@, count.1 as nat))),
    )
}

/// The sum of per-crate counts.
pub open spec fn tally_total(counts: Seq<(Seq<char>, nat)>) -> nat
    decreases counts.len(),
{
    if counts.len() == 0 {
        0
    } else {
        tally_total(counts.drop_last()) + counts.last().1
    }
}

/// `crate: count` for each crate, separated by commas.
pub open spec fn crate_counts_text(counts: Seq<(Seq<char>, nat)>) -> Seq<char>
    decreases counts.len(),
{
    if counts.len() == 0 {
        Seq::empty()
    } else if counts.len() == 1 {
        counts[0].0 + ": "@ + decimal(counts[0].1)
    } else {
        crate_counts_text(counts.drop_last()) + ", "@ + counts.last().0 + ": "@ + decimal(counts.last().1)
    }
}

/// The summary line of each lint: its total and its count in each crate.
pub open spec fn lint_lines_text(counts: Seq<(Seq<char>, Seq<(Seq<char>, nat)>)>) -> Seq<char>
    decreases counts.len(),
{
    if counts.len() == 0 {
        Seq::empty()
    } else {
        let (lint, crates) = counts.last();
        lint_lines_text(counts.drop_last()) + "  "@ + lint + ": "@ + decimal(tally_total(crates)) + " ("@
            + crate_counts_text(crates) + ")\n"@
    }
}

/// The sum of the per-crate counts of a lint.
proof fn lemma_tally_total_sums(crates: Seq<(Seq<char>, nat)>)
    ensures
        tally_total(crates) == crates.fold_left(0nat, |total: nat, count: (Seq<char>, nat)| total + count.1),
    decreases crates.len(),
{
    if crates.len() > 0 {
        lemma_tally_total_sums(crates.drop_last());
    }
}

/// Each lint line of the summary shows, as the lint's total, the sum of its per-crate counts;
/// the lines come in the order of the lints, one after the other.
pub proof fn lemma_lint_line_shows_the_sum(
    counts: Seq<(Seq<char>, Seq<(Seq<char>, nat)>)>,
    lint: Seq<char>,
    crates: Seq<(Seq<char>, nat)>,
)
    ensures
        lint_lines_text(counts.push((lint, crates))) == lint_lines_text(counts) + "  "@ + lint + ": "@ + decimal(
            crates.fold_left(0nat, |total: nat, count: (Seq<char>, nat)| total + count.1),
        ) + " ("@ + crate_counts_text(crates) + ")\n"@,
        lint_lines_text(Seq::empty()) == Seq::<char>::empty(),
{
    lemma_tally_total_sums(crates);
    assert(counts.push((lint, crates)).drop_last() =~= counts);
}

/// The closing summary of a run.
pub open spec fn summary_text(
    diagnostic_count: nat,
    counts: Seq<(Seq<char>, Seq<(Seq<char>, nat)>)>,
    production_summary: Seq<char>,
    compilation_target: Seq<char>,
) -> Seq<char> {
    "hawk: "@ + decimal(diagnostic_count) + " finding(s) for "@ + production_summary
        + " and workspace non-production targets on "@ + compilation_target + "\n"@ + lint_lines_text(counts)
}

proof fn lemma_totals_agree(counts: Seq<(&str, usize)>)
    ensures
        tally_total(counts.map_values(|count: (&str, usize)| (count.0@, count.1 as nat))) == count_total(counts),
    decreases counts.len(),
{
    if counts.len() > 0 {
        lemma_totals_agree(counts.drop_last());
        assert(counts.map_values(|count: (&str, usize)| (count.0@, count.1 as nat)).drop_last() =~= counts.drop_last().map_values(
            |count: (&str, usize)| (count.0@, count.1 as nat),
        ));
    }
}

fn write_crate_counts(output: &mut String, counts: &Vec<(&str, usize)>) -> (total: usize)
    requires
        count_total(counts@) <= usize::MAX,
    ensures
        total == count_total(counts@),
        final(output)@ == old(output)@ + crate_counts_text(counts@.map_values(|count: (&str, usize)| (count.0@, count.1 as nat))),
{
    let ghost view = counts@.map_values(|count: (&str, usize)| (count.0@, count.1 as nat));
    let mut total: usize = 0;
    let mut k: usize = 0;
    while k < counts.len()
        invariant
            view == counts@.map_values(|count: (&str, usize)| (count.0@, count.1 as nat)),
            count_total(counts@) <= usize::MAX,
            k <= counts@.len(),
            total == count_total(counts@.take(k as int)),
            output@ == old(output)@ + crate_counts_text(view.take(k as int)),
        decreases counts@.len() - k,
    {
        proof {
            lemma_count_prefix(counts@, k as int + 1);
            assert(counts@.take(k + 1).drop_last() =~= counts@.take(k as int));
            assert(view.take(k + 1).drop_last() =~= view.take(k as int));
        }
        if k > 0 {
            output.append(", ");
        }
        output.append(counts[k].0);
        output.append(": ");
        push_decimal(output, counts[k].1);
        total = total + counts[k].1;
        proof {
            if k == 0 {
                assert(view.take(1)[0] == view[0]);
            }
        }
        k = k + 1;
    }
    proof {
        assert(counts@.take(counts@.len() as int) =~= counts@);
        assert(view.take(counts@.len() as int) =~= view);
    }
    total
}

proof fn lemma_count_prefix(counts: Seq<(&str, usize)>, k: int)
    requires
        0 <= k <= counts.len(),
    ensures
        count_total(counts.take(k)) <= count_total(counts),
    decreases counts.len(),
{
    if k < counts.len() {
        lemma_count_prefix(counts.drop_last(), k);
        assert(counts.drop_last().take(k) =~= counts.take(k));
    } else {
        assert(counts.take(k) =~= counts);
    }
}

/// Appends the closing summary of a run.
pub fn write_summary(
    output: &mut String,
    diagnostic_count: usize,
    diagnostic_counts: &[(&str, Vec<(&str, usize)>)],
    production_summary: &str,
    compilation_target: &str,
)
    requires
        forall|i: int| 0 <= i < diagnostic_counts@.len() ==> count_total((#[trigger] diagnostic_counts@[i]).1@) <= usize::MAX,
    ensures
        final(output)@ == old(output)@ + summary_text(
            diagnostic_count as nat,
            tally_view(diagnostic_counts@),
            production_summary@,
            compilation_target@,
        ),
{
    output.append("hawk: ");
    push_decimal(output, diagnostic_count);
    output.append(" finding(s) for ");
    output.append(production_summary);
    output.append(" and workspace non-production targets on ");
    output.append(compilation_target);
    output.append("\n");
    let ghost head = output@;
    let ghost view = tally_view(diagnostic_counts@);
    let mut k: usize = 0;
    while k < diagnostic_counts.len()
        invariant
            view == tally_view(diagnostic_counts@),
            forall|i: int| 0 <= i < diagnostic_counts@.len() ==> count_total((#[trigger] diagnostic_counts@[i]).1@) <= usize::MAX,
            k <= diagnostic_counts@.len(),
            output@ == head + lint_lines_text(view.take(k as int)),
        decreases diagnostic_counts@.len() - k,
    {
        let (lint, crates) = &diagnostic_counts[k];
        output.append("  ");
        output.append(lint);
        output.append(": ");
        let mut listed = String::new();
        let total = write_crate_counts(&mut listed, crates);
        push_decimal(output, total);
        output.append(" (");
        output.append(listed.as_str());
        output.append(")\n");
        proof {
            lemma_totals_agree(crates@);
            assert(view.take(k + 1).drop_last() =~= view.take(k as int));
            assert(view[k as int] == (lint@, crates@.map_values(|count: (&str, usize)| (count.0@, count.1 as nat))));
        }
        k = k + 1;
    }
    proof {
        assert(view.take(diagnostic_counts@.len() as int) =~= view);
    }
}

/// The text of `std::path::Path::strip_prefix` of `path` by `root`, when `root` is a prefix.
pub uninterp spec fn stripped_path(path: Seq<char>, root: Seq<char>) -> Option<Seq<char>>;

/// Calls `std::path::Path::strip_prefix`: `path` relative to `root` when `root` is a leading
/// run of its components. Only its naming is stated.
#[verifier::external_body]
fn strip_path_prefix(path: &str, root: &str) -> (relative: Option<String>)
    ensures
        match relative {
            Some(text) => stripped_path(path@, root@) == Some(text@),
            None => stripped_path(path@, root@) is None,
        },
{
    std::path::Path::new(path).strip_prefix(root).ok().map(|relative| relative.to_string_lossy().into_owned())
}

/// How a configuration file is shown: relative to the workspace root when it is inside it.
pub open spec fn shown_path(path: Seq<char>, root: Seq<char>) -> Seq<char> {
    match stripped_path(path, root) {
        Some(relative) => relative,
        None => path,
    }
}

/// Shows a configuration file's path relative to the workspace root when it lies inside it.
pub fn show_path(path: &str, workspace_root: &str) -> (shown: String)
    ensures
        shown@ == shown_path(path@, workspace_root@),
{
    match strip_path_prefix(path, workspace_root) {
        Some(relative) => relative,
        None => String::from_str(path),
    }
}

/// `crate::item`, the item an override names.
pub open spec fn override_item_text(entry: LintOverride) -> Seq<char> {
    entry.crate_name@ + "::"@ + entry.item@
}

/// What an exclusion selects, as its diagnostics name it.
pub open spec fn exclusion_subject(entry: DiagnosticExclusion) -> Seq<char> {
    match entry.selector {
        ExclusionSelector::Module(module) => "module `"@ + entry.crate_name@ + "::"@ + module@ + "`"@,
        ExclusionSelector::File(configured, _) => "file `"@ + configured@ + "`"@,
    }
}

/// The help of an unfulfilled exclusion.
pub open spec fn exclusion_help(entry: DiagnosticExclusion) -> Seq<char> {
    match entry.selector {
        ExclusionSelector::Module(_) => "remove this expectation or update its `module` selector"@,
        ExclusionSelector::File(..) => "remove this expectation or update its `file` selector"@,
    }
}

/// The message, marker label and help of a configuration diagnostic.
pub open spec fn config_texts(diagnostic: ConfigDiagnostic, config: Config) -> (Seq<char>, Seq<char>, Seq<char>) {
    match diagnostic {
        ConfigDiagnostic::UnknownItem(i) => {
            let entry = config.override_entries()[i as int];
            (
                "override for `"@ + finding_code(entry.lint) + "` references unknown item `"@ + override_item_text(entry) + "`"@,
                "no matching item was found"@,
                "remove this override or update its `crate` and `item` selectors"@,
            )
        },
        ConfigDiagnostic::AmbiguousItem(i) => {
            let entry = config.override_entries()[i as int];
            (
                "override for `"@ + finding_code(entry.lint) + "` matches multiple items named `"@ + override_item_text(entry) + "`"@,
                "selector matches multiple items"@,
                "add a `kind` selector or otherwise disambiguate this override"@,
            )
        },
        ConfigDiagnostic::UnfulfilledOverride(i) => {
            let entry = config.override_entries()[i as int];
            (
                "expected `"@ + finding_code(entry.lint) + "` for `"@ + override_item_text(entry) + "`, but no finding was produced"@,
                "unfulfilled expectation"@,
                "remove this expectation or update its `lint` selector"@,
            )
        },
        ConfigDiagnostic::UnfulfilledExclusion(i) => {
            let entry = config.exclusion_entries()[i as int];
            (
                "expected exclusion for "@ + exclusion_subject(entry) + ", but no finding was produced"@,
                "unfulfilled expectation"@,
                exclusion_help(entry),
            )
        },
    }
}

/// The full diagnostic of a configuration entry, ending with a blank line.
pub open spec fn config_diagnostic_text(palette: Palette, diagnostic: ConfigDiagnostic, config: Config, workspace_root: Seq<char>, level: LintLevel) -> Seq<char> {
    let (message, marker, help) = config_texts(diagnostic, config);
    let span = diagnostic_span(diagnostic, &config);
    header_text(palette, config_code(diagnostic_kind_of(diagnostic)), message, level) + location_text(
        palette,
        shown_path(config.path_text()->0, workspace_root),
        span.line as nat,
        span.column as nat,
        source_line_of(config.source_text(), span.line as int),
        marker,
        level_codes(palette, level),
    ) + config_tail_text(palette, diagnostic_reason(diagnostic, &config), help)
}

/// The reason and help lines of a configuration diagnostic, and the blank line after it.
pub open spec fn config_tail_text(palette: Palette, reason: Seq<char>, help: Seq<char>) -> Seq<char> {
    "  "@ + styled(palette.separator, "="@) + " "@ + styled(palette.help, "note"@) + ": "@ + "reason: "@ + reason + "\n"@ + "  "@
        + styled(palette.separator, "="@) + " "@ + styled(palette.help, "help"@) + ": "@ + help + "\n"@ + "\n"@
}

fn write_config_tail(output: &mut String, palette: &Palette, reason: &str, help: &str)
    ensures
        final(output)@ == old(output)@ + config_tail_text(*palette, reason@, help@),
{
    output.append("  ");
    write_annotation_label(output, palette, "note");
    output.append("reason: ");
    output.append(reason);
    output.append("\n");
    output.append("  ");
    write_annotation_label(output, palette, "help");
    output.append(help);
    output.append("\n");
    output.append("\n");
    proof {
        assert(output@ =~= old(output)@ + config_tail_text(*palette, reason@, help@));
    }
}

fn override_item(entry: &LintOverride) -> (text: String)
    ensures
        text@ == override_item_text(*entry),
{
    let mut text = String::from_str(entry.crate_name.as_str());
    text.append("::");
    text.append(entry.item.as_str());
    text
}

impl DiagnosticExclusion {
    /// The crate the exclusion applies to.
    pub fn crate_name(&self) -> (name: &str)
        ensures
            name@ == self.crate_name@,
    {
        self.crate_name.as_str()
    }

    /// The kind of selector and the selected module path or configured file.
    pub fn selector(&self) -> (selector: (&'static str, &str))
        ensures
            match self.selector {
                ExclusionSelector::Module(module) => selector.0@ == "module"@ && selector.1@ == module@,
                ExclusionSelector::File(configured, _) => selector.0@ == "file"@ && selector.1@ == configured@,
            },
    {
        match &self.selector {
            ExclusionSelector::Module(module) => ("module", module.as_str()),
            ExclusionSelector::File(configured, _) => ("file", configured.as_str()),
        }
    }

    /// What the exclusion selects, as its diagnostics name it.
    pub fn diagnostic_subject(&self) -> (subject: String)
        ensures
            subject@ == exclusion_subject(*self),
    {
        match &self.selector {
            ExclusionSelector::Module(module) => {
                let mut text = String::from_str("module `");
                text.append(self.crate_name.as_str());
                text.append("::");
                text.append(module.as_str());
                text.append("`");
                text
            },
            ExclusionSelector::File(configured, _) => {
                let mut text = String::from_str("file `");
                text.append(configured.as_str());
                text.append("`");
                text
            },
        }
    }

    /// The help of an unfulfilled exclusion.
    pub fn expectation_help(&self) -> (help: &'static str)
        ensures
            help@ == exclusion_help(*self),
    {
        match &self.selector {
            ExclusionSelector::Module(_) => "remove this expectation or update its `module` selector",
            ExclusionSelector::File(..) => "remove this expectation or update its `file` selector",
        }
    }
}

fn config_message(diagnostic: ConfigDiagnostic, config: &Config) -> (texts: (String, &'static str, String))
    requires
        diagnostic_in(diagnostic, config),
    ensures
        (texts.0@, texts.1@, texts.2@) == config_texts(diagnostic, *config),
{
    match diagnostic {
        ConfigDiagnostic::UnknownItem(i) => {
            let entry = &config.override_list()[i];
            let mut message = String::from_str("override for `");
            message.append(entry.lint.code());
            message.append("` references unknown item `");
            message.append(override_item(entry).as_str());
            message.append("`");
            (message, "no matching item was found", String::from_str("remove this override or update its `crate` and `item` selectors"))
        },
        ConfigDiagnostic::AmbiguousItem(i) => {
            let entry = &config.override_list()[i];
            let mut message = String::from_str("override for `");
            message.append(entry.lint.code());
            message.append("` matches multiple items named `");
            message.append(override_item(entry).as_str());
            message.append("`");
            (message, "selector matches multiple items", String::from_str("add a `kind` selector or otherwise disambiguate this override"))
        },
        ConfigDiagnostic::UnfulfilledOverride(i) => {
            let entry = &config.override_list()[i];
            let mut message = String::from_str("expected `");
            message.append(entry.lint.code());
            message.append("` for `");
            message.append(override_item(entry).as_str());
            message.append("`, but no finding was produced");
            (message, "unfulfilled expectation", String::from_str("remove this expectation or update its `lint` selector"))
        },
        ConfigDiagnostic::UnfulfilledExclusion(i) => {
            let entry = &config.exclusion_list()[i];
            let mut message = String::from_str("expected exclusion for ");
            message.append(entry.diagnostic_subject().as_str());
            message.append(", but no finding was produced");
            (message, "unfulfilled expectation", String::from_str(entry.expectation_help()))
        },
    }
}

/// Appends the diagnostic of a configuration entry: a header, the entry's position in the
/// configuration file with the entry's first line, its reason and a help line.
pub fn write_config_diagnostic(
    output: &mut String,
    palette: &Palette,
    diagnostic: ConfigDiagnostic,
    config: &Config,
    workspace_root: &str,
    level: LintLevel,
)
    requires
        level != LintLevel::Allow,
        diagnostic_in(diagnostic, config),
        config.path_text() is Some,
        config.wf(),
    ensures
        final(output)@ == old(output)@ + config_diagnostic_text(*palette, diagnostic, *config, workspace_root@, level),
{
    let (message, marker, help) = config_message(diagnostic, config);
    write_diagnostic_header(output, palette, diagnostic.kind().code(), message.as_str(), level);
    let path = match config.path() {
        Some(path) => path,
        None => "",
    };
    let shown = match strip_path_prefix(path, workspace_root) {
        Some(relative) => relative,
        None => String::from_str(path),
    };
    let span = diagnostic.span(config);
    let ghost before_location = output@;
    write_annotated_location(output, palette, shown.as_str(), span.line, span.column, config.source_line(span.line), marker, palette.level(level));
    let ghost before_tail = output@;
    write_config_tail(output, palette, diagnostic.reason(config), help.as_str());
    proof {
        assert(output@ =~= old(output)@ + config_diagnostic_text(*palette, diagnostic, *config, workspace_root@, level));
    }
}

} // verus!
