//! Lint levels: how each kind of diagnostic is reported, from its default and the
//! `--allow`, `--warn`, and `--deny` selectors given in order.

use vstd::prelude::*;
use crate::model::{FindingKind, finding_kind_of_code};
use crate::config::{ConfigDiagnosticKind, config_kind_of_code};
use crate::text::str_equals;

verus! {

/// How a diagnostic is reported.
#[derive(Clone, Copy, Debug, PartialEq, Eq, Structural)]
pub enum LintLevel {
    /// Do not emit a diagnostic.
    Allow,
    /// Report a diagnostic without failing.
    Warn,
    /// Report a diagnostic as an error and fail.
    Deny,
}

/// The severity word of an emitted level.
pub open spec fn severity_text(level: LintLevel) -> Seq<char> {
    match level {
        LintLevel::Deny => "error"@,
        _ => "warning"@,
    }
}

impl LintLevel {
    /// The severity word of an emitted level.
    pub fn severity(self) -> (severity: &'static str)
        requires
            self != LintLevel::Allow,
        ensures
            severity@ == severity_text(self),
    {
        match self {
            LintLevel::Deny => "error",
            _ => "warning",
        }
    }

    /// Whether diagnostics at this level are emitted.
    pub fn is_emitted(self) -> (emitted: bool)
        ensures
            emitted == (self != LintLevel::Allow),
    {
        match self {
            LintLevel::Allow => false,
            _ => true,
        }
    }
}

/// A kind of diagnostic: a finding or a configuration diagnostic.
#[derive(Clone, Copy, Debug, PartialEq, Eq, Structural)]
pub enum DiagnosticKind {
    Finding(FindingKind),
    Config(ConfigDiagnosticKind),
}

/// The diagnostic named by a code, if any.
pub open spec fn diagnostic_of_code(code: Seq<char>) -> Option<DiagnosticKind> {
    match finding_kind_of_code(code) {
        Some(kind) => Some(DiagnosticKind::Finding(kind)),
        None => match config_kind_of_code(code) {
            Some(kind) => Some(DiagnosticKind::Config(kind)),
            None => None,
        },
    }
}

/// The level of a diagnostic when no selector names it: the opt-in lints are allowed.
pub open spec fn default_level_of(kind: DiagnosticKind) -> LintLevel {
    match kind {
        DiagnosticKind::Finding(FindingKind::UnnecessaryCrateVisibility) => LintLevel::Allow,
        DiagnosticKind::Finding(FindingKind::TestOnly) => LintLevel::Allow,
        _ => LintLevel::Warn,
    }
}

impl DiagnosticKind {
    /// The diagnostic named by `code`, if any.
    pub fn from_code(code: &str) -> (kind: Option<Self>)
        ensures
            kind == diagnostic_of_code(code@),
    {
        match FindingKind::from_code(code) {
            Some(kind) => Some(DiagnosticKind::Finding(kind)),
            None => match ConfigDiagnosticKind::from_code(code) {
                Some(kind) => Some(DiagnosticKind::Config(kind)),
                None => None,
            },
        }
    }

    /// The level of this diagnostic when no selector names it.
    pub fn default_level(self) -> (level: LintLevel)
        ensures
            level == default_level_of(self),
    {
        match self {
            DiagnosticKind::Finding(FindingKind::UnnecessaryCrateVisibility) => LintLevel::Allow,
            DiagnosticKind::Finding(FindingKind::TestOnly) => LintLevel::Allow,
            _ => LintLevel::Warn,
        }
    }
}

impl From<FindingKind> for DiagnosticKind {
    fn from(kind: FindingKind) -> (diagnostic: Self) {
        DiagnosticKind::Finding(kind)
    }
}

impl vstd::std_specs::convert::FromSpecImpl<FindingKind> for DiagnosticKind {
    open spec fn obeys_from_spec() -> bool {
        true
    }

    open spec fn from_spec(kind: FindingKind) -> Self {
        DiagnosticKind::Finding(kind)
    }
}

impl From<ConfigDiagnosticKind> for DiagnosticKind {
    fn from(kind: ConfigDiagnosticKind) -> (diagnostic: Self) {
        DiagnosticKind::Config(kind)
    }
}

impl vstd::std_specs::convert::FromSpecImpl<ConfigDiagnosticKind> for DiagnosticKind {
    open spec fn obeys_from_spec() -> bool {
        true
    }

    open spec fn from_spec(kind: ConfigDiagnosticKind) -> Self {
        DiagnosticKind::Config(kind)
    }
}

/// What a lint-level selector names: the `warnings` group or one diagnostic.
#[derive(Clone, Copy, Debug, PartialEq, Eq, Structural)]
pub enum LintSelector {
    Warnings,
    Diagnostic(DiagnosticKind),
}

/// The selector named by a text, if any.
pub open spec fn selector_of_text(text: Seq<char>) -> Option<LintSelector> {
    if text == "warnings"@ {
        Some(LintSelector::Warnings)
    } else {
        match diagnostic_of_code(text) {
            Some(kind) => Some(LintSelector::Diagnostic(kind)),
            None => None,
        }
    }
}

/// A selector that names neither `warnings` nor a diagnostic.
#[derive(Clone, Debug)]
pub struct UnknownLintSelector {
    pub selector: String,
}

impl UnknownLintSelector {
    /// The message that reports the selector.
    pub fn message(&self) -> (text: String)
        ensures
            text@ == "unknown lint selector `"@ + self.selector@ + "`; expected `warnings` or a `hawk::...` diagnostic name"@,
    {
        let mut text = String::new();
        text.append("unknown lint selector `");
        text.append(self.selector.as_str());
        text.append("`; expected `warnings` or a `hawk::...` diagnostic name");
        text
    }
}

impl LintSelector {
    /// Parses a lint selector: `warnings` or the code of a diagnostic.
    pub fn parse(selector: &str) -> (parsed: Result<Self, UnknownLintSelector>)
        ensures
            parsed matches Ok(s) ==> selector_of_text(selector@) == Some(s),
            parsed matches Err(e) ==> selector_of_text(selector@) is None && e.selector@ == selector@,
    {
        proof {
            reveal_strlit("warnings");
        }
        if str_equals(selector, "warnings") {
            return Ok(LintSelector::Warnings);
        }
        match DiagnosticKind::from_code(selector) {
            Some(kind) => Ok(LintSelector::Diagnostic(kind)),
            None => Err(UnknownLintSelector { selector: selector.to_owned() }),
        }
    }
}

/// The level of `diagnostic` after the first `n` overrides, and whether it is still in
/// the `warnings` group then.
pub open spec fn level_after(overrides: Seq<(LintSelector, LintLevel)>, diagnostic: DiagnosticKind, n: int) -> (LintLevel, bool)
    decreases n,
{
    let default_level = default_level_of(diagnostic);
    if n <= 0 {
        (default_level, default_level != LintLevel::Allow)
    } else {
        let (level, in_group) = level_after(overrides, diagnostic, n - 1);
        let (selector, override_level) = overrides[n - 1];
        if selector == LintSelector::Diagnostic(diagnostic) {
            (override_level, default_level != LintLevel::Allow || override_level != LintLevel::Allow)
        } else if selector == LintSelector::Warnings && in_group {
            (override_level, in_group)
        } else {
            (level, in_group)
        }
    }
}

/// The level of `diagnostic` under the overrides, in order.
pub open spec fn level_of(overrides: Seq<(LintSelector, LintLevel)>, diagnostic: DiagnosticKind) -> LintLevel {
    level_after(overrides, diagnostic, overrides.len() as int).0
}

/// The lint-level selectors given on the command line, in the order given.
#[derive(Debug)]
pub struct LintLevels {
    pub overrides: Vec<(LintSelector, LintLevel)>,
}

impl LintLevels {
    /// The levels set by `overrides`, in order.
    pub fn new(overrides: Vec<(LintSelector, LintLevel)>) -> (levels: Self)
        ensures
            levels.overrides@ == overrides@,
    {
        LintLevels { overrides }
    }

    /// The level at which `diagnostic` is reported: its default, changed by the selectors
    /// that name it and, while it is in the `warnings` group, by the `warnings` selectors.
    pub fn level(&self, diagnostic: DiagnosticKind) -> (level: LintLevel)
        ensures
            level == level_of(self.overrides@, diagnostic),
    {
        let default_level = diagnostic.default_level();
        let mut level = default_level;
        let mut in_warnings_group = default_level.is_emitted();
        let mut i: usize = 0;
        while i < self.overrides.len()
            invariant
                i <= self.overrides@.len(),
                default_level == default_level_of(diagnostic),
                (level, in_warnings_group) == level_after(self.overrides@, diagnostic, i as int),
            decreases self.overrides@.len() - i,
        {
            let (selector, override_level) = self.overrides[i];
            if selector == LintSelector::Diagnostic(diagnostic) {
                level = override_level;
                in_warnings_group = default_level.is_emitted() || level.is_emitted();
            } else if selector == LintSelector::Warnings && in_warnings_group {
                level = override_level;
            }
            i = i + 1;
        }
        level
    }
}

/// A selector that names a diagnostic after every selector that could change its level
/// sets that level.
pub proof fn lemma_last_named_selector_wins(overrides: Seq<(LintSelector, LintLevel)>, diagnostic: DiagnosticKind, i: int)
    requires
        0 <= i < overrides.len(),
        overrides[i].0 == LintSelector::Diagnostic(diagnostic),
        forall|j: int| i < j < overrides.len() ==> overrides[j].0 != LintSelector::Warnings && overrides[j].0 != LintSelector::Diagnostic(diagnostic),
    ensures
        level_of(overrides, diagnostic) == overrides[i].1,
    decreases overrides.len() - i,
{
    lemma_unchanged_after(overrides, diagnostic, i + 1, overrides.len() as int);
}

proof fn lemma_unchanged_after(overrides: Seq<(LintSelector, LintLevel)>, diagnostic: DiagnosticKind, from: int, to: int)
    requires
        0 <= from <= to <= overrides.len(),
        forall|j: int| from <= j < to ==> overrides[j].0 != LintSelector::Warnings && overrides[j].0 != LintSelector::Diagnostic(diagnostic),
    ensures
        level_after(overrides, diagnostic, to) == level_after(overrides, diagnostic, from),
    decreases to - from,
{
    if to > from {
        lemma_unchanged_after(overrides, diagnostic, from, to - 1);
    }
}

/// An opt-in lint that no selector names stays allowed, whatever the `warnings` selectors say.
pub proof fn lemma_unnamed_opt_in_stays_allowed(overrides: Seq<(LintSelector, LintLevel)>, diagnostic: DiagnosticKind)
    requires
        default_level_of(diagnostic) == LintLevel::Allow,
        forall|j: int| 0 <= j < overrides.len() ==> overrides[j].0 != LintSelector::Diagnostic(diagnostic),
    ensures
        level_of(overrides, diagnostic) == LintLevel::Allow,
{
    lemma_opt_in_prefix(overrides, diagnostic, overrides.len() as int);
}

proof fn lemma_opt_in_prefix(overrides: Seq<(LintSelector, LintLevel)>, diagnostic: DiagnosticKind, n: int)
    requires
        0 <= n <= overrides.len(),
        default_level_of(diagnostic) == LintLevel::Allow,
        forall|j: int| 0 <= j < overrides.len() ==> overrides[j].0 != LintSelector::Diagnostic(diagnostic),
    ensures
        level_after(overrides, diagnostic, n) == (LintLevel::Allow, false),
    decreases n,
{
    if n > 0 {
        lemma_opt_in_prefix(overrides, diagnostic, n - 1);
    }
}

/// With no selectors, every diagnostic has its default level.
pub proof fn lemma_defaults_without_selectors(diagnostic: DiagnosticKind)
    ensures
        level_of(Seq::empty(), diagnostic) == default_level_of(diagnostic),
{
}

/// A `--only` restriction to one finding kind.
#[derive(Clone, Copy, Debug, PartialEq, Eq, Structural)]
pub enum OnlyFinding {
    DeadPublic,
    TestOnly,
}

impl OnlyFinding {
    /// Whether findings of `kind` are kept under this restriction.
    pub fn includes(self, kind: FindingKind) -> (included: bool)
        ensures
            included == ((self == OnlyFinding::DeadPublic && kind == FindingKind::DeadPublic)
                || (self == OnlyFinding::TestOnly && kind == FindingKind::TestOnly)),
    {
        match (self, kind) {
            (OnlyFinding::DeadPublic, FindingKind::DeadPublic) => true,
            (OnlyFinding::TestOnly, FindingKind::TestOnly) => true,
            _ => false,
        }
    }
}

/// When colored output is used.
#[derive(Clone, Copy, Debug, PartialEq, Eq, Structural)]
pub enum TerminalColor {
    /// Display colors if the output goes to an interactive terminal.
    Auto,
    /// Always display colors.
    Always,
    /// Never display colors.
    Never,
}

pub open spec fn color_value(color: TerminalColor) -> Seq<char> {
    match color {
        TerminalColor::Auto => "auto"@,
        TerminalColor::Always => "always"@,
        TerminalColor::Never => "never"@,
    }
}

impl TerminalColor {
    /// The value of Cargo's `--color` option for this choice.
    pub fn cargo_value(self) -> (value: &'static str)
        ensures
            value@ == color_value(self),
    {
        match self {
            TerminalColor::Auto => "auto",
            TerminalColor::Always => "always",
            TerminalColor::Never => "never",
        }
    }
}

/// The diagnostic output format.
#[derive(Clone, Copy, Debug, PartialEq, Eq, Structural)]
pub enum OutputFormat {
    /// Emit human-readable diagnostics.
    Text,
    /// Emit a versioned JSON diagnostic report.
    Json,
}

} // verus!
