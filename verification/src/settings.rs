//! Reading a workspace configuration: checking each entry of a parsed configuration file in
//! order and turning it into the settings that an analysis applies.

use vstd::prelude::*;
use vstd::string::StringSliceAdditionalSpecFns;
use crate::config::{ConfigSpan, FeatureProfile, ProductionProduct, config_span, newlines, last_line_chars};
use crate::model::{DefinitionKind, FindingKind, finding_kind_of_code};
use crate::text::str_equals;

verus! {

broadcast use vstd::string::group_string_axioms;

#[verifier::external_type_specification]
#[verifier::external_body]
pub struct ExPlatform(cargo_platform::Platform);

#[verifier::external_type_specification]
#[verifier::external_body]
pub struct ExCfg(cargo_platform::Cfg);

#[verifier::external_type_specification]
#[verifier::external_body]
pub struct ExPlatformParseError(cargo_platform::ParseError);

/// Whether a character has the Unicode `White_Space` property, as `char::is_whitespace`
/// documents it: tab through carriage return, space, next line, no-break space, ogham space
/// mark, the spaces from en quad to hair space, line and paragraph separator, narrow no-break
/// space, medium mathematical space and ideographic space.
pub open spec fn whitespace(character: char) -> bool {
    let c = character as u32;
    ||| 0x09 <= c <= 0x0D
    ||| c == 0x20
    ||| c == 0x85
    ||| c == 0xA0
    ||| c == 0x1680
    ||| 0x2000 <= c <= 0x200A
    ||| c == 0x2028
    ||| c == 0x2029
    ||| c == 0x202F
    ||| c == 0x205F
    ||| c == 0x3000
}

/// Whether a character is whitespace.
pub(crate) fn is_whitespace_char(character: char) -> (result: bool)
    ensures
        result == whitespace(character),
{
    let c = character as u32;
    (0x09 <= c && c <= 0x0D) || c == 0x20 || c == 0x85 || c == 0xA0 || c == 0x1680 || (0x2000 <= c && c <= 0x200A)
        || c == 0x2028 || c == 0x2029 || c == 0x202F || c == 0x205F || c == 0x3000
}

/// Whether `cargo_platform::Platform` parses from a target selector.
pub uninterp spec fn platform_parses(selector: Seq<char>) -> bool;

/// Calls `str::parse::<cargo_platform::Platform>`: a target name or a `cfg(...)` expression.
/// Whether it succeeds is named; the parsed platform is opaque here.
#[verifier::external_body]
fn parse_platform(selector: &str) -> (parsed: Result<cargo_platform::Platform, cargo_platform::ParseError>)
    ensures
        parsed is Ok <==> platform_parses(selector@),
{
    selector.parse::<cargo_platform::Platform>()
}

/// Whether `cargo_platform::Cfg` parses from a line of `rustc --print=cfg` output.
pub uninterp spec fn cfg_parses(line: Seq<char>) -> bool;

/// Calls `str::parse::<cargo_platform::Cfg>`: a name or a `key = "value"` pair. Whether it
/// succeeds is named; the parsed value is opaque here.
#[verifier::external_body]
fn parse_cfg(line: &str) -> (parsed: Option<cargo_platform::Cfg>)
    ensures
        parsed is Some <==> cfg_parses(line@),
{
    line.parse::<cargo_platform::Cfg>().ok()
}

/// Whether a target selector selects the analysis target named `target_name`, whose `cfg`
/// values are the lines `cfg_lines` of `rustc --print=cfg`: what `cargo_platform::Platform::matches`
/// answers for the parsed selector, target name and parsed configuration values.
pub uninterp spec fn selects_target(selector: Seq<char>, target_name: Seq<char>, cfg_lines: Seq<Seq<char>>) -> bool;

/// Calls `cargo_platform::Platform::matches`, after parsing the selector into a
/// `cargo_platform::Platform` and each configuration line into a `cargo_platform::Cfg` (both
/// parses succeed on the inputs that `requires` admits). The answer is a function of the three
/// texts alone; only its name is stated here.
#[verifier::external_body]
fn target_selected(selector: &str, name: &str, cfg_lines: &[String]) -> (matched: bool)
    requires
        platform_parses(selector@),
        forall|i: int| 0 <= i < cfg_lines@.len() ==> cfg_parses(#[trigger] cfg_lines@[i]@),
    ensures
        matched == selects_target(selector@, name@, texts(cfg_lines@)),
{
    let mut cfgs: Vec<cargo_platform::Cfg> = Vec::new();
    for line in cfg_lines {
        match line.parse::<cargo_platform::Cfg>() {
            Ok(cfg) => cfgs.push(cfg),
            Err(_) => return false,
        }
    }
    match selector.parse::<cargo_platform::Platform>() {
        Ok(platform) => platform.matches(name, &cfgs),
        Err(_) => false,
    }
}

/// Whether a target selector parses as a `cargo_platform::Platform`.
pub(crate) fn selector_text_parses(selector: &str) -> (parses: bool)
    ensures
        parses == platform_parses(selector@),
{
    parse_platform(selector).is_ok()
}

/// Whether a written target selector, if any, parses.
pub open spec fn selector_parses(selector: Option<String>) -> bool {
    selector matches Some(text) ==> platform_parses(text@)
}

/// Whether an entry with this target selector applies to the analysis target: an entry
/// without a selector applies to every target.
pub open spec fn selector_applies(selector: Option<String>, target: AnalysisTarget) -> bool {
    match selector {
        Some(text) => selects_target(text@, target.name_text(), target.cfg_texts()),
        None => true,
    }
}

/// Whether an entry with this target selector applies to the analysis target.
pub(crate) fn applies_to(selector: &Option<String>, target: &AnalysisTarget) -> (applies: bool)
    requires
        target.wf(),
        selector matches Some(text) ==> platform_parses(text@),
    ensures
        applies == selector_applies(*selector, *target),
{
    match selector {
        Some(text) => target_selected(text.as_str(), target.name.as_str(), target.cfg_lines.as_slice()),
        None => true,
    }
}

/// Whether every character of a text is whitespace: what `str::trim` leaves empty.
pub open spec fn blank(text: Seq<char>) -> bool {
    forall|i: int| 0 <= i < text.len() ==> whitespace(#[trigger] text[i])
}

/// Whether a text is empty or whitespace only.
pub fn is_blank(text: &str) -> (result: bool)
    ensures
        result == blank(text@),
{
    let ghost chars_of = text@;
    let mut chars = text.chars();
    let ghost mut count: int = 0;
    loop
        invariant
            chars_of == text@,
            count <= chars_of.len(),
            0 <= count,
            vstd::std_specs::iter::IteratorSpec::remaining(&chars) == chars_of.skip(count),
            forall|i: int| 0 <= i < count ==> whitespace(#[trigger] chars_of[i]),
        decreases chars_of.len() - count,
    {
        let next = chars.next();
        match next {
            Some(character) => {
                proof {
                    assert(chars_of.skip(count).len() > 0);
                    assert(character == chars_of[count]);
                    assert(vstd::std_specs::iter::IteratorSpec::remaining(&chars) =~= chars_of.skip(count + 1));
                }
                if !is_whitespace_char(character) {
                    return false;
                }
                proof {
                    count = count + 1;
                }
            },
            None => {
                proof {
                    assert(chars_of.skip(count).len() == 0);
                }
                return true;
            },
        }
    }
}

/// How a configured override or exclusion treats the findings it selects.
#[derive(Clone, Copy, Debug, PartialEq, Eq, Structural)]
pub enum OverrideLevel {
    /// Suppress the selected findings.
    Allow,
    /// Suppress the selected findings, and report when there is none.
    Expect,
}

/// A parsed `[[feature-profile]]` table, at byte `offset` of the configuration source.
#[derive(Clone, Debug)]
pub struct RawFeatureProfile {
    pub offset: usize,
    pub name: String,
    pub all_features: bool,
    pub no_default_features: bool,
    pub features: Vec<String>,
}

/// A parsed `[[override]]` table.
#[derive(Clone, Debug)]
pub struct RawLintOverride {
    pub offset: usize,
    pub lint: String,
    pub crate_name: String,
    pub item: String,
    pub definition_kind: Option<DefinitionKind>,
    pub level: OverrideLevel,
    pub reason: String,
    pub target: Option<String>,
}

/// A parsed `[[exclude]]` table.
#[derive(Clone, Debug)]
pub struct RawDiagnosticExclusion {
    pub offset: usize,
    pub crate_name: String,
    pub module: Option<String>,
    pub file: Option<String>,
    pub level: OverrideLevel,
    pub reason: String,
    pub target: Option<String>,
}

/// A parsed `[[production]]` table.
#[derive(Clone, Debug)]
pub struct RawProductionConsumer {
    pub offset: usize,
    pub package: String,
    pub binary: Option<String>,
    pub library: Option<String>,
    pub feature_profiles: Option<Vec<String>>,
    pub reason: String,
    pub target: Option<String>,
}

/// A parsed `[[doctest]]` table.
#[derive(Clone, Debug)]
pub struct RawDoctestPackage {
    pub offset: usize,
    pub package: String,
}

/// A parsed configuration file, before its entries are checked.
#[derive(Clone, Debug)]
pub struct RawConfig {
    pub preserve_uniform_field_visibility: bool,
    pub overrides: Vec<RawLintOverride>,
    pub exclusions: Vec<RawDiagnosticExclusion>,
    pub production: Vec<RawProductionConsumer>,
    pub doctests: Vec<RawDoctestPackage>,
    pub feature_profiles: Vec<RawFeatureProfile>,
}

/// What is wrong with a configuration entry.
#[derive(Clone, Copy, Debug, PartialEq, Eq, Structural)]
pub enum ConfigErrorKind {
    EmptyProfileName,
    InvalidProfileName,
    DuplicateProfile,
    AllFeaturesCombined,
    EmptyFeature,
    UnknownLint,
    EmptyOverrideReason,
    InvalidTarget,
    EmptyExclusionReason,
    EmptyModuleSelector,
    EmptyFileSelector,
    ExclusionSelectorCount,
    EmptyProductionReason,
    ProductionTargetCount,
    EmptyProfileSelection,
    EmptyProfileSelectionName,
    UnknownProfileSelection,
    DuplicateProfileSelection,
    EmptyDoctestPackage,
    DuplicateDoctestPackage,
}

/// A configuration entry that cannot be used: what is wrong, where the entry starts, and the
/// name, lint, selector or package that the message quotes.
#[derive(Clone, Debug)]
pub struct ConfigError {
    pub kind: ConfigErrorKind,
    pub span: ConfigSpan,
    pub subject: String,
}

/// Where a configuration entry stands: the file, then its line and column.
pub open spec fn location_text(path: Seq<char>, span: ConfigSpan) -> Seq<char> {
    path + ":"@ + crate::text::decimal(span.line as nat) + ":"@ + crate::text::decimal(span.column as nat)
}

/// The message that reports a configuration error in the file at `path`.
pub open spec fn config_error_text(error: ConfigError, path: Seq<char>) -> Seq<char> {
    let at = location_text(path, error.span);
    let quoted = "`"@ + error.subject@ + "`"@;
    match error.kind {
        ConfigErrorKind::EmptyProfileName => "feature profile in "@ + at + " must provide a non-empty name"@,
        ConfigErrorKind::InvalidProfileName => "feature profile "@ + quoted + " in "@ + at
            + " must use only ASCII letters, digits, `-`, or `_` in its name"@,
        ConfigErrorKind::DuplicateProfile => "duplicate feature profile "@ + quoted + " in "@ + at,
        ConfigErrorKind::AllFeaturesCombined => "feature profile "@ + quoted + " in "@ + at
            + " cannot combine `all-features = true` with `no-default-features` or `features`"@,
        ConfigErrorKind::EmptyFeature => "feature profile "@ + quoted + " in "@ + at + " must not contain an empty feature"@,
        ConfigErrorKind::UnknownLint => "unknown Hawk lint "@ + quoted + " in "@ + at,
        ConfigErrorKind::EmptyOverrideReason => "override in "@ + at + " must provide a non-empty reason"@,
        ConfigErrorKind::InvalidTarget => "parse target selector "@ + quoted + " in "@ + at,
        ConfigErrorKind::EmptyExclusionReason => "exclusion in "@ + at + " must provide a non-empty reason"@,
        ConfigErrorKind::EmptyModuleSelector => "exclusion in "@ + at + " must provide a non-empty `module` selector"@,
        ConfigErrorKind::EmptyFileSelector => "exclusion in "@ + at + " must provide a non-empty `file` selector"@,
        ConfigErrorKind::ExclusionSelectorCount => "exclusion in "@ + at + " must provide exactly one of `module` or `file`"@,
        ConfigErrorKind::EmptyProductionReason => "production consumer in "@ + at + " must provide a non-empty reason"@,
        ConfigErrorKind::ProductionTargetCount => "production consumer in "@ + at
            + " must provide exactly one non-empty `bin` or `lib` target"@,
        ConfigErrorKind::EmptyProfileSelection => "production consumer in "@ + at
            + " must select at least one `feature-profiles` entry"@,
        ConfigErrorKind::EmptyProfileSelectionName => "production consumer in "@ + at
            + " must not contain an empty feature profile name"@,
        ConfigErrorKind::UnknownProfileSelection => "production consumer in "@ + at + " references unknown feature profile "@
            + quoted,
        ConfigErrorKind::DuplicateProfileSelection => "production consumer in "@ + at + " contains duplicate feature profile "@
            + quoted,
        ConfigErrorKind::EmptyDoctestPackage => "doctest package in "@ + at + " must provide a non-empty package name"@,
        ConfigErrorKind::DuplicateDoctestPackage => "duplicate doctest package "@ + quoted + " in "@ + at,
    }
}

/// Appends where a configuration entry stands.
fn push_location(text: &mut String, path: &str, span: &ConfigSpan)
    ensures
        final(text)@ == old(text)@ + location_text(path@, *span),
{
    text.append(path);
    text.append(":");
    crate::text::push_decimal(text, span.line);
    text.append(":");
    crate::text::push_decimal(text, span.column);
    proof {
        assert(final(text)@ =~= old(text)@ + location_text(path@, *span));
    }
}

/// Appends a configuration error's subject between backticks.
fn push_quoted_subject(text: &mut String, subject: &str)
    ensures
        final(text)@ == old(text)@ + ("`"@ + subject@ + "`"@),
{
    text.append("`");
    text.append(subject);
    text.append("`");
    proof {
        assert(final(text)@ =~= old(text)@ + ("`"@ + subject@ + "`"@));
    }
}

impl ConfigError {
    /// The message that reports the error in the configuration file at `path`.
    pub fn message(&self, path: &str) -> (text: String)
        ensures
            text@ == config_error_text(*self, path@),
    {
        let mut text = String::new();
        let subject = self.subject.as_str();
        match self.kind {
            ConfigErrorKind::EmptyProfileName => {
                text.append("feature profile in ");
                push_location(&mut text, path, &self.span);
                text.append(" must provide a non-empty name");
            },
            ConfigErrorKind::InvalidProfileName => {
                text.append("feature profile ");
                push_quoted_subject(&mut text, subject);
                text.append(" in ");
                push_location(&mut text, path, &self.span);
                text.append(" must use only ASCII letters, digits, `-`, or `_` in its name");
            },
            ConfigErrorKind::DuplicateProfile => {
                text.append("duplicate feature profile ");
                push_quoted_subject(&mut text, subject);
                text.append(" in ");
                push_location(&mut text, path, &self.span);
            },
            ConfigErrorKind::AllFeaturesCombined => {
                text.append("feature profile ");
                push_quoted_subject(&mut text, subject);
                text.append(" in ");
                push_location(&mut text, path, &self.span);
                text.append(" cannot combine `all-features = true` with `no-default-features` or `features`");
            },
            ConfigErrorKind::EmptyFeature => {
                text.append("feature profile ");
                push_quoted_subject(&mut text, subject);
                text.append(" in ");
                push_location(&mut text, path, &self.span);
                text.append(" must not contain an empty feature");
            },
            ConfigErrorKind::UnknownLint => {
                text.append("unknown Hawk lint ");
                push_quoted_subject(&mut text, subject);
                text.append(" in ");
                push_location(&mut text, path, &self.span);
            },
            ConfigErrorKind::EmptyOverrideReason => {
                text.append("override in ");
                push_location(&mut text, path, &self.span);
                text.append(" must provide a non-empty reason");
            },
            ConfigErrorKind::InvalidTarget => {
                text.append("parse target selector ");
                push_quoted_subject(&mut text, subject);
                text.append(" in ");
                push_location(&mut text, path, &self.span);
            },
            ConfigErrorKind::EmptyExclusionReason => {
                text.append("exclusion in ");
                push_location(&mut text, path, &self.span);
                text.append(" must provide a non-empty reason");
            },
            ConfigErrorKind::EmptyModuleSelector => {
                text.append("exclusion in ");
                push_location(&mut text, path, &self.span);
                text.append(" must provide a non-empty `module` selector");
            },
            ConfigErrorKind::EmptyFileSelector => {
                text.append("exclusion in ");
                push_location(&mut text, path, &self.span);
                text.append(" must provide a non-empty `file` selector");
            },
            ConfigErrorKind::ExclusionSelectorCount => {
                text.append("exclusion in ");
                push_location(&mut text, path, &self.span);
                text.append(" must provide exactly one of `module` or `file`");
            },
            ConfigErrorKind::EmptyProductionReason => {
                text.append("production consumer in ");
                push_location(&mut text, path, &self.span);
                text.append(" must provide a non-empty reason");
            },
            ConfigErrorKind::ProductionTargetCount => {
                text.append("production consumer in ");
                push_location(&mut text, path, &self.span);
                text.append(" must provide exactly one non-empty `bin` or `lib` target");
            },
            ConfigErrorKind::EmptyProfileSelection => {
                text.append("production consumer in ");
                push_location(&mut text, path, &self.span);
                text.append(" must select at least one `feature-profiles` entry");
            },
            ConfigErrorKind::EmptyProfileSelectionName => {
                text.append("production consumer in ");
                push_location(&mut text, path, &self.span);
                text.append(" must not contain an empty feature profile name");
            },
            ConfigErrorKind::UnknownProfileSelection => {
                text.append("production consumer in ");
                push_location(&mut text, path, &self.span);
                text.append(" references unknown feature profile ");
                push_quoted_subject(&mut text, subject);
            },
            ConfigErrorKind::DuplicateProfileSelection => {
                text.append("production consumer in ");
                push_location(&mut text, path, &self.span);
                text.append(" contains duplicate feature profile ");
                push_quoted_subject(&mut text, subject);
            },
            ConfigErrorKind::EmptyDoctestPackage => {
                text.append("doctest package in ");
                push_location(&mut text, path, &self.span);
                text.append(" must provide a non-empty package name");
            },
            ConfigErrorKind::DuplicateDoctestPackage => {
                text.append("duplicate doctest package ");
                push_quoted_subject(&mut text, subject);
                text.append(" in ");
                push_location(&mut text, path, &self.span);
            },
        }
        proof {
            assert(text@ =~= config_error_text(*self, path@));
        }
        text
    }
}

/// What a configuration error says: its kind and the text it quotes.
pub open spec fn error_view(error: ConfigError) -> (ConfigErrorKind, Seq<char>) {
    (error.kind, error.subject@)
}

/// Whether `span` is the line and column of byte `offset` of `source`.
pub open spec fn span_at(source: Seq<u8>, offset: int, span: ConfigSpan) -> bool {
    &&& span.line == newlines(source.take(offset)) + 1
    &&& span.column == last_line_chars(source.take(offset)) + 1
}

/// Whether a byte may appear in a feature profile's name.
pub open spec fn profile_name_byte(byte: u8) -> bool {
    (48u8 <= byte <= 57u8) || (65u8 <= byte <= 90u8) || (97u8 <= byte <= 122u8) || byte == 45u8 || byte == 95u8
}

/// Whether a feature profile's name uses only ASCII letters, digits, `-` and `_`.
pub open spec fn profile_name_valid(name: Seq<char>) -> bool {
    forall|i: int| 0 <= i < vstd::utf8::encode_utf8(name).len() ==> profile_name_byte(#[trigger] vstd::utf8::encode_utf8(name)[i])
}

/// The views of a list of texts.
pub open spec fn texts(words: Seq<String>) -> Seq<Seq<char>> {
    words.map_values(|word: String| word@)
}

/// What is wrong with feature profile `k`, given the profiles before it, and what it quotes.
pub open spec fn profile_problem(entries: Seq<RawFeatureProfile>, k: int) -> Option<(ConfigErrorKind, Seq<char>)> {
    let entry = entries[k];
    if blank(entry.name@) {
        Some((ConfigErrorKind::EmptyProfileName, Seq::empty()))
    } else if !profile_name_valid(entry.name@) {
        Some((ConfigErrorKind::InvalidProfileName, entry.name@))
    } else if exists|j: int| 0 <= j < k && #[trigger] entries[j].name@ == entry.name@ {
        Some((ConfigErrorKind::DuplicateProfile, entry.name@))
    } else if entry.all_features && (entry.no_default_features || entry.features@.len() > 0) {
        Some((ConfigErrorKind::AllFeaturesCombined, entry.name@))
    } else if exists|i: int| 0 <= i < entry.features@.len() && blank(#[trigger] entry.features@[i]@) {
        Some((ConfigErrorKind::EmptyFeature, entry.name@))
    } else {
        None
    }
}

/// The index of the first entry with a problem, if any.
pub open spec fn first_problem(count: int, problem: spec_fn(int) -> Option<(ConfigErrorKind, Seq<char>)>) -> Option<int>
    decreases count,
{
    if count <= 0 {
        None
    } else {
        match first_problem(count - 1, problem) {
            Some(k) => Some(k),
            None => if problem(count - 1) is Some {
                Some(count - 1)
            } else {
                None
            },
        }
    }
}

proof fn lemma_first_problem(count: int, problem: spec_fn(int) -> Option<(ConfigErrorKind, Seq<char>)>)
    requires
        count >= 0,
    ensures
        first_problem(count, problem) is None <==> forall|i: int| 0 <= i < count ==> (#[trigger] problem(i)) is None,
        first_problem(count, problem) matches Some(k) ==> 0 <= k < count && problem(k) is Some && forall|i: int|
            0 <= i < k ==> (#[trigger] problem(i)) is None,
    decreases count,
{
    if count > 0 {
        lemma_first_problem(count - 1, problem);
    }
}

/// Checks the name bytes of a feature profile.
fn valid_profile_name(name: &str) -> (valid: bool)
    ensures
        valid == profile_name_valid(name@),
{
    let bytes = name.as_bytes();
    assert(bytes@ == vstd::utf8::encode_utf8(name@));
    let mut k: usize = 0;
    while k < bytes.len()
        invariant
            bytes@ == vstd::utf8::encode_utf8(name@),
            k <= bytes@.len(),
            forall|i: int| 0 <= i < k ==> profile_name_byte(#[trigger] bytes@[i]),
        decreases bytes@.len() - k,
    {
        let byte = bytes[k];
        if !((48u8 <= byte && byte <= 57u8) || (65u8 <= byte && byte <= 90u8) || (97u8 <= byte && byte <= 122u8) || byte == 45u8
            || byte == 95u8) {
            return false;
        }
        k = k + 1;
    }
    true
}

/// Whether some text of `words` before index `end` equals `word`.
fn contains_text_before(words: &Vec<String>, end: usize, word: &str) -> (found: bool)
    requires
        end <= words@.len(),
    ensures
        found == exists|j: int| 0 <= j < end && #[trigger] words@[j]@ == word@,
{
    let mut k: usize = 0;
    while k < end
        invariant
            end <= words@.len(),
            k <= end,
            forall|j: int| 0 <= j < k ==> #[trigger] words@[j]@ != word@,
        decreases end - k,
    {
        if str_equals(words[k].as_str(), word) {
            return true;
        }
        k = k + 1;
    }
    false
}

/// Whether some text of `words` is blank.
fn any_blank(words: &Vec<String>) -> (found: bool)
    ensures
        found == exists|i: int| 0 <= i < words@.len() && blank(#[trigger] words@[i]@),
{
    let mut k: usize = 0;
    while k < words.len()
        invariant
            k <= words@.len(),
            forall|i: int| 0 <= i < k ==> !blank(#[trigger] words@[i]@),
        decreases words@.len() - k,
    {
        if is_blank(words[k].as_str()) {
            return true;
        }
        k = k + 1;
    }
    false
}

/// Whether a profile before index `k` has the name of profile `k`.
fn profile_named_before(entries: &Vec<RawFeatureProfile>, k: usize) -> (found: bool)
    requires
        k < entries@.len(),
    ensures
        found == exists|j: int| 0 <= j < k && #[trigger] entries@[j].name@ == entries@[k as int].name@,
{
    let mut j: usize = 0;
    while j < k
        invariant
            k < entries@.len(),
            j <= k,
            forall|i: int| 0 <= i < j ==> #[trigger] entries@[i].name@ != entries@[k as int].name@,
        decreases k - j,
    {
        if str_equals(entries[j].name.as_str(), entries[k].name.as_str()) {
            return true;
        }
        j = j + 1;
    }
    false
}

/// What is wrong with feature profile `k`.
fn check_profile(entries: &Vec<RawFeatureProfile>, k: usize) -> (problem: Option<(ConfigErrorKind, String)>)
    requires
        k < entries@.len(),
    ensures
        match problem {
            Some((kind, subject)) => profile_problem(entries@, k as int) == Some((kind, subject@)),
            None => profile_problem(entries@, k as int) is None,
        },
{
    let entry = &entries[k];
    if is_blank(entry.name.as_str()) {
        return Some((ConfigErrorKind::EmptyProfileName, String::new()));
    }
    if !valid_profile_name(entry.name.as_str()) {
        return Some((ConfigErrorKind::InvalidProfileName, entry.name.clone()));
    }
    if profile_named_before(entries, k) {
        return Some((ConfigErrorKind::DuplicateProfile, entry.name.clone()));
    }
    if entry.all_features && (entry.no_default_features || entry.features.len() > 0) {
        return Some((ConfigErrorKind::AllFeaturesCombined, entry.name.clone()));
    }
    if any_blank(&entry.features) {
        return Some((ConfigErrorKind::EmptyFeature, entry.name.clone()));
    }
    None
}

/// A lint override: a lint to suppress, or to expect, for one item.
#[derive(Clone, Debug)]
pub struct LintOverride {
    pub lint: FindingKind,
    pub crate_name: String,
    pub item: String,
    pub definition_kind: Option<DefinitionKind>,
    pub level: OverrideLevel,
    pub reason: String,
    pub target: Option<String>,
    pub span: ConfigSpan,
}

/// What a diagnostic exclusion selects: a module path, or a source file.
#[derive(Clone, Debug)]
pub enum ExclusionSelector {
    Module(String),
    /// A file as configured, and the identity that the compiler reports for it.
    File(String, String),
}

/// A diagnostic exclusion: every diagnostic in a module subtree or a source file of a crate.
#[derive(Clone, Debug)]
pub struct DiagnosticExclusion {
    pub crate_name: String,
    pub selector: ExclusionSelector,
    pub level: OverrideLevel,
    pub reason: String,
    pub target: Option<String>,
    pub span: ConfigSpan,
}

/// A configured production consumer: a product whose reachability defines production.
#[derive(Clone, Debug)]
pub struct ProductionConsumer {
    pub package: String,
    pub product: ProductionProduct,
    pub feature_profiles: Option<Vec<String>>,
    pub reason: String,
    pub target: Option<String>,
    pub span: ConfigSpan,
}

/// A package whose doctests are analyzed.
#[derive(Clone, Debug)]
pub struct DoctestPackage {
    pub package: String,
    pub span: ConfigSpan,
}

/// The target an analysis compiles for: its name and the lines of `rustc --print=cfg` for it,
/// each a configuration value.
#[derive(Debug)]
pub struct AnalysisTarget {
    name: String,
    cfg_lines: Vec<String>,
}

impl AnalysisTarget {
    pub closed spec fn name_text(&self) -> Seq<char> {
        self.name@
    }

    pub closed spec fn cfg_texts(&self) -> Seq<Seq<char>> {
        texts(self.cfg_lines@)
    }

    /// Every configuration line parses as a `cfg` value.
    pub closed spec fn wf(&self) -> bool {
        forall|i: int| 0 <= i < self.cfg_lines@.len() ==> cfg_parses(#[trigger] self.cfg_lines@[i]@)
    }

    /// The target's name.
    pub fn name(&self) -> (name: &str)
        ensures
            name@ == self.name_text(),
    {
        self.name.as_str()
    }

    /// The lines of `rustc --print=cfg` that describe the target.
    pub fn cfg_lines(&self) -> (lines: &[String])
        ensures
            texts(lines@) == self.cfg_texts(),
    {
        self.cfg_lines.as_slice()
    }

    /// The analysis target named `name`, with the configuration values of each line of the
    /// `rustc --print=cfg` output for it; refused with the first line that is no configuration
    /// value.
    pub fn from_cfg_output(name: &str, output: &str) -> (result: Result<AnalysisTarget, String>)
        ensures
            match result {
                Ok(target) => {
                    &&& target.wf()
                    &&& target.name_text() == name@
                    &&& target.cfg_texts() == crate::text::text_lines(output@)
                    &&& forall|i: int| 0 <= i < crate::text::text_lines(output@).len() ==> cfg_parses(#[trigger] crate::text::text_lines(output@)[i])
                },
                Err(line) => exists|i: int| {
                    &&& 0 <= i < crate::text::text_lines(output@).len()
                    &&& line@ == crate::text::text_lines(output@)[i]
                    &&& !cfg_parses(crate::text::text_lines(output@)[i])
                    &&& forall|j: int| 0 <= j < i ==> cfg_parses(#[trigger] crate::text::text_lines(output@)[j])
                },
            },
    {
        let lines = crate::text::split_lines(output);
        let ghost views = texts(lines@);
        let mut k: usize = 0;
        while k < lines.len()
            invariant
                views == texts(lines@),
                views == crate::text::text_lines(output@),
                k <= lines@.len(),
                forall|j: int| 0 <= j < k ==> cfg_parses(#[trigger] views[j]),
            decreases lines@.len() - k,
        {
            proof {
                assert(views[k as int] == lines@[k as int]@);
            }
            if parse_cfg(lines[k].as_str()).is_none() {
                return Err(lines[k].clone());
            }
            k = k + 1;
        }
        proof {
            assert forall|i: int| 0 <= i < lines@.len() implies cfg_parses(#[trigger] lines@[i]@) by {
                assert(views[i] == lines@[i]@);
            }
        }
        Ok(AnalysisTarget { name: name.to_string(), cfg_lines: lines })
    }
}

/// What is wrong with a lint override, and what the message quotes.
pub open spec fn override_problem(entry: RawLintOverride) -> Option<(ConfigErrorKind, Seq<char>)> {
    if finding_kind_of_code(entry.lint@) is None {
        Some((ConfigErrorKind::UnknownLint, entry.lint@))
    } else if blank(entry.reason@) {
        Some((ConfigErrorKind::EmptyOverrideReason, Seq::empty()))
    } else if entry.target matches Some(target) && !platform_parses(target@) {
        Some((ConfigErrorKind::InvalidTarget, entry.target->0@))
    } else {
        None
    }
}

/// What is wrong with a diagnostic exclusion, and what the message quotes.
pub open spec fn exclusion_problem(entry: RawDiagnosticExclusion) -> Option<(ConfigErrorKind, Seq<char>)> {
    if blank(entry.reason@) {
        Some((ConfigErrorKind::EmptyExclusionReason, Seq::empty()))
    } else if entry.module is Some && entry.file is None && blank(entry.module->0@) {
        Some((ConfigErrorKind::EmptyModuleSelector, Seq::empty()))
    } else if entry.module is None && entry.file is Some && blank(entry.file->0@) {
        Some((ConfigErrorKind::EmptyFileSelector, Seq::empty()))
    } else if entry.module is Some == entry.file is Some {
        Some((ConfigErrorKind::ExclusionSelectorCount, Seq::empty()))
    } else if entry.target matches Some(target) && !platform_parses(target@) {
        Some((ConfigErrorKind::InvalidTarget, entry.target->0@))
    } else {
        None
    }
}

/// What is wrong with the feature profiles a production consumer selects.
pub open spec fn selection_problem(selected: Seq<Seq<char>>, known: Seq<Seq<char>>, k: int) -> Option<(ConfigErrorKind, Seq<char>)> {
    if blank(selected[k]) {
        Some((ConfigErrorKind::EmptyProfileSelectionName, Seq::empty()))
    } else if !known.contains(selected[k]) {
        Some((ConfigErrorKind::UnknownProfileSelection, selected[k]))
    } else if exists|j: int| 0 <= j < k && #[trigger] selected[j] == selected[k] {
        Some((ConfigErrorKind::DuplicateProfileSelection, selected[k]))
    } else {
        None
    }
}

/// What is wrong with a production consumer, given the names of the feature profiles.
pub open spec fn production_problem(entry: RawProductionConsumer, known: Seq<Seq<char>>) -> Option<(ConfigErrorKind, Seq<char>)> {
    if blank(entry.reason@) {
        Some((ConfigErrorKind::EmptyProductionReason, Seq::empty()))
    } else if !((entry.binary is Some && entry.library is None && !blank(entry.binary->0@)) || (entry.binary is None
        && entry.library is Some && !blank(entry.library->0@))) {
        Some((ConfigErrorKind::ProductionTargetCount, Seq::empty()))
    } else if entry.target matches Some(target) && !platform_parses(target@) {
        Some((ConfigErrorKind::InvalidTarget, entry.target->0@))
    } else {
        match entry.feature_profiles {
            Some(profiles) => if profiles@.len() == 0 {
                Some((ConfigErrorKind::EmptyProfileSelection, Seq::empty()))
            } else {
                let selected = texts(profiles@);
                match first_problem(selected.len() as int, |k: int| selection_problem(selected, known, k)) {
                    Some(k) => selection_problem(selected, known, k),
                    None => None,
                }
            },
            None => None,
        }
    }
}

/// What is wrong with doctest package `k`, given the packages before it.
pub open spec fn doctest_problem(entries: Seq<RawDoctestPackage>, k: int) -> Option<(ConfigErrorKind, Seq<char>)> {
    if blank(entries[k].package@) {
        Some((ConfigErrorKind::EmptyDoctestPackage, Seq::empty()))
    } else if exists|j: int| 0 <= j < k && #[trigger] entries[j].package@ == entries[k].package@ {
        Some((ConfigErrorKind::DuplicateDoctestPackage, entries[k].package@))
    } else {
        None
    }
}

/// Whether a parsed selector was kept exactly when one was written.
pub open spec fn target_kept(raw: Option<String>, kept: Option<String>) -> bool {
    match (raw, kept) {
        (Some(written), Some(selector)) => written@ == selector@ && platform_parses(selector@),
        (None, None) => true,
        _ => false,
    }
}

/// Whether an override was made from a parsed table that has no problem.
pub open spec fn override_from(raw: RawLintOverride, made: LintOverride, source: Seq<u8>) -> bool {
    &&& Some(made.lint) == finding_kind_of_code(raw.lint@)
    &&& made.crate_name@ == raw.crate_name@
    &&& made.item@ == raw.item@
    &&& made.definition_kind == raw.definition_kind
    &&& made.level == raw.level
    &&& made.reason@ == raw.reason@
    &&& target_kept(raw.target, made.target)
    &&& span_at(source, raw.offset as int, made.span)
}

/// Whether an exclusion was made from a parsed table that has no problem.
pub open spec fn exclusion_from(raw: RawDiagnosticExclusion, made: DiagnosticExclusion, source: Seq<u8>) -> bool {
    &&& made.crate_name@ == raw.crate_name@
    &&& match made.selector {
        ExclusionSelector::Module(module) => raw.module matches Some(written) && written@ == module@,
        ExclusionSelector::File(file, identity) => raw.file matches Some(written) && written@ == file@ && identity@ == file@,
    }
    &&& made.level == raw.level
    &&& made.reason@ == raw.reason@
    &&& target_kept(raw.target, made.target)
    &&& span_at(source, raw.offset as int, made.span)
}

/// Whether a production consumer was made from a parsed table that has no problem.
pub open spec fn consumer_from(raw: RawProductionConsumer, made: ProductionConsumer, source: Seq<u8>) -> bool {
    &&& made.package@ == raw.package@
    &&& match made.product {
        ProductionProduct::Binary(name) => raw.binary matches Some(written) && written@ == name@,
        ProductionProduct::Library(name) => raw.library matches Some(written) && written@ == name@,
    }
    &&& match (made.feature_profiles, raw.feature_profiles) {
        (Some(kept), Some(written)) => texts(kept@) == texts(written@),
        (None, None) => true,
        _ => false,
    }
    &&& made.reason@ == raw.reason@
    &&& target_kept(raw.target, made.target)
    &&& span_at(source, raw.offset as int, made.span)
}

/// Whether an offset can be located in a source.
pub open spec fn locatable(source: Seq<u8>, offset: usize) -> bool {
    offset <= source.len() && offset < usize::MAX
}

fn parse_target(target: &Option<String>) -> (parsed: Result<Option<String>, String>)
    ensures
        match parsed {
            Ok(kept) => target_kept(*target, kept) && (target matches Some(text) ==> platform_parses(text@)),
            Err(text) => target matches Some(written) && written@ == text@ && !platform_parses(text@),
        },
{
    match target {
        Some(text) => match parse_platform(text.as_str()) {
            Ok(_) => Ok(Some(text.clone())),
            Err(_) => Err(text.clone()),
        },
        None => Ok(None),
    }
}

fn problem_at(kind: ConfigErrorKind, subject: String, source: &str, offset: usize) -> (error: ConfigError)
    requires
        locatable(source.spec_bytes(), offset),
    ensures
        error_view(error) == (kind, subject@),
        span_at(source.spec_bytes(), offset as int, error.span),
{
    ConfigError { kind, span: config_span(source, offset), subject }
}

/// Checks a lint override and makes it.
pub fn make_override(entry: &RawLintOverride, source: &str) -> (made: Result<LintOverride, ConfigError>)
    requires
        locatable(source.spec_bytes(), entry.offset),
    ensures
        match made {
            Ok(made) => override_problem(*entry) is None && override_from(*entry, made, source.spec_bytes()),
            Err(error) => override_problem(*entry) == Some(error_view(error)) && span_at(source.spec_bytes(), entry.offset as int, error.span),
        },
{
    let offset = entry.offset;
    let lint = match FindingKind::from_code(entry.lint.as_str()) {
        Some(lint) => lint,
        None => return Err(problem_at(ConfigErrorKind::UnknownLint, entry.lint.clone(), source, offset)),
    };
    if is_blank(entry.reason.as_str()) {
        return Err(problem_at(ConfigErrorKind::EmptyOverrideReason, String::new(), source, offset));
    }
    let target = match parse_target(&entry.target) {
        Ok(target) => target,
        Err(text) => return Err(problem_at(ConfigErrorKind::InvalidTarget, text, source, offset)),
    };
    Ok(LintOverride {
        lint,
        crate_name: entry.crate_name.clone(),
        item: entry.item.clone(),
        definition_kind: entry.definition_kind,
        level: entry.level,
        reason: entry.reason.clone(),
        target,
        span: config_span(source, offset),
    })
}

/// Checks a diagnostic exclusion and makes it.
pub fn make_exclusion(entry: &RawDiagnosticExclusion, source: &str) -> (made: Result<DiagnosticExclusion, ConfigError>)
    requires
        locatable(source.spec_bytes(), entry.offset),
    ensures
        match made {
            Ok(made) => exclusion_problem(*entry) is None && exclusion_from(*entry, made, source.spec_bytes()),
            Err(error) => exclusion_problem(*entry) == Some(error_view(error)) && span_at(source.spec_bytes(), entry.offset as int, error.span),
        },
{
    let offset = entry.offset;
    if is_blank(entry.reason.as_str()) {
        return Err(problem_at(ConfigErrorKind::EmptyExclusionReason, String::new(), source, offset));
    }
    let selector = match (&entry.module, &entry.file) {
        (Some(module), None) => {
            if is_blank(module.as_str()) {
                return Err(problem_at(ConfigErrorKind::EmptyModuleSelector, String::new(), source, offset));
            }
            ExclusionSelector::Module(module.clone())
        },
        (None, Some(file)) => {
            if is_blank(file.as_str()) {
                return Err(problem_at(ConfigErrorKind::EmptyFileSelector, String::new(), source, offset));
            }
            ExclusionSelector::File(file.clone(), file.clone())
        },
        _ => return Err(problem_at(ConfigErrorKind::ExclusionSelectorCount, String::new(), source, offset)),
    };
    let target = match parse_target(&entry.target) {
        Ok(target) => target,
        Err(text) => return Err(problem_at(ConfigErrorKind::InvalidTarget, text, source, offset)),
    };
    Ok(DiagnosticExclusion {
        crate_name: entry.crate_name.clone(),
        selector,
        level: entry.level,
        reason: entry.reason.clone(),
        target,
        span: config_span(source, offset),
    })
}

/// Whether `word` is one of `known`.
pub(crate) fn contains_text(known: &Vec<String>, word: &str) -> (found: bool)
    ensures
        found == texts(known@).contains(word@),
{
    let found = contains_text_before(known, known.len(), word);
    proof {
        if found {
            let j = choose|j: int| 0 <= j < known@.len() && #[trigger] known@[j]@ == word@;
            assert(texts(known@)[j] == word@);
        } else {
            assert forall|j: int| 0 <= j < texts(known@).len() implies texts(known@)[j] != word@ by {
                assert(texts(known@)[j] == known@[j]@);
            }
        }
    }
    found
}

fn check_selection(selected: &Vec<String>, known: &Vec<String>) -> (problem: Option<(ConfigErrorKind, String)>)
    ensures
        match problem {
            Some((kind, subject)) => first_problem(selected@.len() as int, |k: int| selection_problem(texts(selected@), texts(known@), k))
                matches Some(k) && selection_problem(texts(selected@), texts(known@), k) == Some((kind, subject@)),
            None => first_problem(selected@.len() as int, |k: int| selection_problem(texts(selected@), texts(known@), k)) is None,
        },
{
    let ghost words = texts(selected@);
    let ghost names = texts(known@);
    let ghost problem_of = |k: int| selection_problem(words, names, k);
    proof {
        lemma_first_problem(selected@.len() as int, problem_of);
    }
    let mut k: usize = 0;
    while k < selected.len()
        invariant
            words == texts(selected@),
            names == texts(known@),
            problem_of == (|k: int| selection_problem(words, names, k)),
            k <= selected@.len(),
            forall|i: int| 0 <= i < k ==> (#[trigger] problem_of(i)) is None,
        decreases selected@.len() - k,
    {
        let word = selected[k].as_str();
        assert(words[k as int] == word@);
        let problem = if is_blank(word) {
            Some((ConfigErrorKind::EmptyProfileSelectionName, String::new()))
        } else if !contains_text(known, word) {
            Some((ConfigErrorKind::UnknownProfileSelection, selected[k].clone()))
        } else if contains_text_before(selected, k, word) {
            proof {
                let j = choose|j: int| 0 <= j < k && #[trigger] selected@[j]@ == word@;
                assert(words[j] == words[k as int]);
            }
            Some((ConfigErrorKind::DuplicateProfileSelection, selected[k].clone()))
        } else {
            proof {
                assert forall|j: int| 0 <= j < k implies #[trigger] words[j] != words[k as int] by {
                    assert(words[j] == selected@[j]@);
                }
            }
            None
        };
        match problem {
            Some(found) => {
                proof {
                    lemma_first_problem(selected@.len() as int, problem_of);
                    assert(problem_of(k as int) is Some);
                    if first_problem(selected@.len() as int, problem_of) != Some(k as int) {
                        let other = first_problem(selected@.len() as int, problem_of)->0;
                        assert(other < k ==> problem_of(other) is None);
                        assert(other > k ==> problem_of(k as int) is None);
                    }
                }
                return Some(found);
            },
            None => {},
        }
        k = k + 1;
    }
    None
}

/// Checks a production consumer and makes it.
pub fn make_consumer(entry: &RawProductionConsumer, known: &Vec<String>, source: &str) -> (made: Result<ProductionConsumer, ConfigError>)
    requires
        locatable(source.spec_bytes(), entry.offset),
    ensures
        match made {
            Ok(made) => production_problem(*entry, texts(known@)) is None && consumer_from(*entry, made, source.spec_bytes()),
            Err(error) => production_problem(*entry, texts(known@)) == Some(error_view(error)) && span_at(
                source.spec_bytes(),
                entry.offset as int,
                error.span,
            ),
        },
{
    let offset = entry.offset;
    if is_blank(entry.reason.as_str()) {
        return Err(problem_at(ConfigErrorKind::EmptyProductionReason, String::new(), source, offset));
    }
    let product = match (&entry.binary, &entry.library) {
        (Some(binary), None) => {
            if is_blank(binary.as_str()) {
                return Err(problem_at(ConfigErrorKind::ProductionTargetCount, String::new(), source, offset));
            }
            ProductionProduct::Binary(binary.clone())
        },
        (None, Some(library)) => {
            if is_blank(library.as_str()) {
                return Err(problem_at(ConfigErrorKind::ProductionTargetCount, String::new(), source, offset));
            }
            ProductionProduct::Library(library.clone())
        },
        _ => return Err(problem_at(ConfigErrorKind::ProductionTargetCount, String::new(), source, offset)),
    };
    let target = match parse_target(&entry.target) {
        Ok(target) => target,
        Err(text) => return Err(problem_at(ConfigErrorKind::InvalidTarget, text, source, offset)),
    };
    let feature_profiles = match &entry.feature_profiles {
        Some(profiles) => {
            if profiles.len() == 0 {
                return Err(problem_at(ConfigErrorKind::EmptyProfileSelection, String::new(), source, offset));
            }
            match check_selection(profiles, known) {
                Some((kind, subject)) => return Err(problem_at(kind, subject, source, offset)),
                None => {},
            }
            Some(copy_texts(profiles))
        },
        None => None,
    };
    Ok(ProductionConsumer {
        package: entry.package.clone(),
        product,
        feature_profiles,
        reason: entry.reason.clone(),
        target,
        span: config_span(source, offset),
    })
}

/// Where a problem of an entry at `offset` is reported.
pub open spec fn located(problem: Option<(ConfigErrorKind, Seq<char>)>, offset: usize) -> Option<(ConfigErrorKind, Seq<char>, int)> {
    match problem {
        Some((kind, subject)) => Some((kind, subject, offset as int)),
        None => None,
    }
}

/// The names of the feature profiles of a configuration: the configured ones, or the default
/// profile that enables every feature.
pub open spec fn known_profiles(raw: RawConfig) -> Seq<Seq<char>> {
    if raw.feature_profiles@.len() == 0 {
        seq!["all-features"@]
    } else {
        raw.feature_profiles@.map_values(|entry: RawFeatureProfile| entry.name@)
    }
}

/// The first problem of a configuration, in the order its sections are read: feature
/// profiles, overrides, exclusions, production consumers, doctest packages; with what it
/// quotes and the offset of its entry.
pub open spec fn config_problem(raw: RawConfig) -> Option<(ConfigErrorKind, Seq<char>, int)> {
    let profiles = raw.feature_profiles@;
    let overrides = raw.overrides@;
    let exclusions = raw.exclusions@;
    let production = raw.production@;
    let doctests = raw.doctests@;
    match first_problem(profiles.len() as int, |k: int| profile_problem(profiles, k)) {
        Some(k) => located(profile_problem(profiles, k), profiles[k].offset),
        None => match first_problem(overrides.len() as int, |k: int| override_problem(overrides[k])) {
            Some(k) => located(override_problem(overrides[k]), overrides[k].offset),
            None => match first_problem(exclusions.len() as int, |k: int| exclusion_problem(exclusions[k])) {
                Some(k) => located(exclusion_problem(exclusions[k]), exclusions[k].offset),
                None => match first_problem(
                    production.len() as int,
                    |k: int| production_problem(production[k], known_profiles(raw)),
                ) {
                    Some(k) => located(production_problem(production[k], known_profiles(raw)), production[k].offset),
                    None => match first_problem(doctests.len() as int, |k: int| doctest_problem(doctests, k)) {
                        Some(k) => located(doctest_problem(doctests, k), doctests[k].offset),
                        None => None,
                    },
                },
            },
        },
    }
}

/// Whether every entry of a configuration can be located in its source.
pub open spec fn offsets_within(raw: RawConfig, source: Seq<u8>) -> bool {
    &&& forall|k: int| 0 <= k < raw.feature_profiles@.len() ==> locatable(source, (#[trigger] raw.feature_profiles@[k]).offset)
    &&& forall|k: int| 0 <= k < raw.overrides@.len() ==> locatable(source, (#[trigger] raw.overrides@[k]).offset)
    &&& forall|k: int| 0 <= k < raw.exclusions@.len() ==> locatable(source, (#[trigger] raw.exclusions@[k]).offset)
    &&& forall|k: int| 0 <= k < raw.production@.len() ==> locatable(source, (#[trigger] raw.production@[k]).offset)
    &&& forall|k: int| 0 <= k < raw.doctests@.len() ==> locatable(source, (#[trigger] raw.doctests@[k]).offset)
}

/// Whether a feature profile was made from a parsed table.
pub open spec fn profile_from(raw: RawFeatureProfile, made: FeatureProfile) -> bool {
    &&& made.name@ == raw.name@
    &&& made.all_features == raw.all_features
    &&& made.no_default_features == raw.no_default_features
    &&& texts(made.features@) == texts(raw.features@)
}

/// The settings of a workspace configuration.
#[derive(Debug)]
pub struct Config {
    workspace_root: String,
    path: Option<String>,
    source: crate::render::CachedSource,
    preserve_uniform_field_visibility: bool,
    overrides: Vec<LintOverride>,
    exclusions: Vec<DiagnosticExclusion>,
    production: Vec<ProductionConsumer>,
    doctests: Option<Vec<DoctestPackage>>,
    feature_profiles: Vec<FeatureProfile>,
}

impl Config {
    pub closed spec fn root_text(&self) -> Seq<char> {
        self.workspace_root@
    }

    pub closed spec fn path_text(&self) -> Option<Seq<char>> {
        match self.path {
            Some(path) => Some(path@),
            None => None,
        }
    }

    pub closed spec fn source_text(&self) -> Seq<char> {
        self.source.text()
    }

    pub closed spec fn preserves_uniform_fields(&self) -> bool {
        self.preserve_uniform_field_visibility
    }

    pub closed spec fn override_entries(&self) -> Seq<LintOverride> {
        self.overrides@
    }

    pub closed spec fn exclusion_entries(&self) -> Seq<DiagnosticExclusion> {
        self.exclusions@
    }

    pub closed spec fn consumer_entries(&self) -> Seq<ProductionConsumer> {
        self.production@
    }

    pub closed spec fn doctest_entries(&self) -> Option<Seq<DoctestPackage>> {
        match self.doctests {
            Some(packages) => Some(packages@),
            None => None,
        }
    }

    pub closed spec fn profiles(&self) -> Seq<FeatureProfile> {
        self.feature_profiles@
    }

    pub closed spec fn wf(&self) -> bool {
        &&& self.source.wf()
        &&& forall|k: int| 0 <= k < self.overrides@.len() ==> selector_parses((#[trigger] self.overrides@[k]).target)
        &&& forall|k: int| 0 <= k < self.exclusions@.len() ==> selector_parses((#[trigger] self.exclusions@[k]).target)
        &&& forall|k: int| 0 <= k < self.production@.len() ==> selector_parses((#[trigger] self.production@[k]).target)
    }

    /// The configuration of a workspace without a configuration file: no overrides,
    /// exclusions or production consumers, the workspace's doctests, and every feature enabled.
    pub fn empty(workspace_root: String) -> (config: Self)
        ensures
            config.wf(),
            config.root_text() == workspace_root@,
            config.path_text() is None,
            config.source_text().len() == 0,
            !config.preserves_uniform_fields(),
            config.override_entries().len() == 0,
            config.exclusion_entries().len() == 0,
            config.consumer_entries().len() == 0,
            config.doctest_entries() is None,
            config.profiles().len() == 1,
            config.profiles()[0].name@ == "all-features"@,
            config.profiles()[0].all_features,
            !config.profiles()[0].no_default_features,
            config.profiles()[0].features@.len() == 0,
    {
        let mut feature_profiles = Vec::new();
        feature_profiles.push(FeatureProfile::all_features());
        Config {
            workspace_root,
            path: None,
            source: crate::render::CachedSource::new(String::new()),
            preserve_uniform_field_visibility: false,
            overrides: Vec::new(),
            exclusions: Vec::new(),
            production: Vec::new(),
            doctests: None,
            feature_profiles,
        }
    }

    /// Checks every entry of a parsed configuration file, in order, and makes the settings.
    ///
    /// The first entry with a problem is reported, with its position in `source`.
    pub fn from_raw(workspace_root: String, path: String, source: String, raw: RawConfig) -> (config: Result<Config, ConfigError>)
        requires
            offsets_within(raw, vstd::utf8::encode_utf8(source@)),
            source@.len() < usize::MAX,
        ensures
            config is Err <==> config_problem(raw) is Some,
            config matches Err(error) ==> config_problem(raw) matches Some(problem) && error_view(error) == (problem.0, problem.1)
                && span_at(vstd::utf8::encode_utf8(source@), problem.2, error.span),
            config matches Ok(config) ==> {
                &&& config.wf()
                &&& config.root_text() == workspace_root@
                &&& config.path_text() == Some(path@)
                &&& config.source_text() == source@
                &&& config.preserves_uniform_fields() == raw.preserve_uniform_field_visibility
                &&& config_entries_from(config, raw, vstd::utf8::encode_utf8(source@))
            },
    {
        let feature_profiles = match make_profiles(&raw.feature_profiles, source.as_str()) {
            Ok(profiles) => profiles,
            Err(error) => return Err(error),
        };
        let known = profile_names(&feature_profiles);
        proof {
            if raw.feature_profiles@.len() > 0 {
                assert(texts(known@) =~= known_profiles(raw)) by {
                    assert forall|i: int| 0 <= i < texts(known@).len() implies texts(known@)[i] == known_profiles(raw)[i] by {
                        assert(profile_from(raw.feature_profiles@[i], feature_profiles@[i]));
                    }
                }
            } else {
                assert(texts(known@) =~= known_profiles(raw));
            }
        }
        let overrides = match make_overrides(&raw.overrides, source.as_str()) {
            Ok(overrides) => overrides,
            Err(error) => return Err(error),
        };
        let exclusions = match make_exclusions(&raw.exclusions, source.as_str()) {
            Ok(exclusions) => exclusions,
            Err(error) => return Err(error),
        };
        let production = match make_consumers(&raw.production, &known, source.as_str()) {
            Ok(production) => production,
            Err(error) => return Err(error),
        };
        let doctests = match make_doctests(&raw.doctests, source.as_str()) {
            Ok(doctests) => doctests,
            Err(error) => return Err(error),
        };
        Ok(Config {
            workspace_root,
            path: Some(path),
            source: crate::render::CachedSource::new(source),
            preserve_uniform_field_visibility: raw.preserve_uniform_field_visibility,
            overrides,
            exclusions,
            production,
            doctests,
            feature_profiles,
        })
    }
}

/// Whether the settings of a configuration were made from the entries of a parsed file.
pub open spec fn config_entries_from(config: Config, raw: RawConfig, source: Seq<u8>) -> bool {
    &&& (if raw.feature_profiles@.len() == 0 {
        &&& config.profiles().len() == 1
        &&& config.profiles()[0].name@ == "all-features"@
        &&& config.profiles()[0].all_features
        &&& !config.profiles()[0].no_default_features
        &&& config.profiles()[0].features@.len() == 0
    } else {
        &&& config.profiles().len() == raw.feature_profiles@.len()
        &&& forall|k: int| 0 <= k < raw.feature_profiles@.len() ==> profile_from(raw.feature_profiles@[k], #[trigger] config.profiles()[k])
    })
    &&& config.override_entries().len() == raw.overrides@.len()
    &&& forall|k: int| 0 <= k < raw.overrides@.len() ==> override_from(raw.overrides@[k], #[trigger] config.override_entries()[k], source)
    &&& config.exclusion_entries().len() == raw.exclusions@.len()
    &&& forall|k: int| 0 <= k < raw.exclusions@.len() ==> exclusion_from(raw.exclusions@[k], #[trigger] config.exclusion_entries()[k], source)
    &&& config.consumer_entries().len() == raw.production@.len()
    &&& forall|k: int| 0 <= k < raw.production@.len() ==> consumer_from(raw.production@[k], #[trigger] config.consumer_entries()[k], source)
    &&& (if raw.doctests@.len() == 0 {
        config.doctest_entries() is None
    } else {
        config.doctest_entries() matches Some(packages) && packages.len() == raw.doctests@.len() && forall|k: int|
            0 <= k < raw.doctests@.len() ==> (#[trigger] packages[k]).package@ == raw.doctests@[k].package@ && span_at(
            source,
            raw.doctests@[k].offset as int,
            packages[k].span,
        )
    })
}

fn profile_names(profiles: &Vec<FeatureProfile>) -> (names: Vec<String>)
    ensures
        texts(names@) == profiles@.map_values(|profile: FeatureProfile| profile.name@),
{
    let mut names: Vec<String> = Vec::new();
    let mut k: usize = 0;
    while k < profiles.len()
        invariant
            k <= profiles@.len(),
            names@.len() == k,
            forall|i: int| 0 <= i < k ==> (#[trigger] names@[i])@ == profiles@[i].name@,
        decreases profiles@.len() - k,
    {
        names.push(profiles[k].name.clone());
        k = k + 1;
    }
    proof {
        assert(texts(names@) =~= profiles@.map_values(|profile: FeatureProfile| profile.name@));
    }
    names
}

fn make_profiles(entries: &Vec<RawFeatureProfile>, source: &str) -> (made: Result<Vec<FeatureProfile>, ConfigError>)
    requires
        forall|k: int| 0 <= k < entries@.len() ==> locatable(source.spec_bytes(), (#[trigger] entries@[k]).offset),
    ensures
        ({
            let problem = first_problem(entries@.len() as int, |k: int| profile_problem(entries@, k));
            &&& made is Err <==> problem is Some
            &&& made matches Err(error) ==> problem matches Some(k) && located(profile_problem(entries@, k), entries@[k].offset)
                == Some((error.kind, error.subject@, entries@[k].offset as int)) && span_at(source.spec_bytes(), entries@[k].offset as int, error.span)
        }),
        made matches Ok(profiles) ==> if entries@.len() == 0 {
            &&& profiles@.len() == 1
            &&& profiles@[0].name@ == "all-features"@
            &&& profiles@[0].all_features
            &&& !profiles@[0].no_default_features
            &&& profiles@[0].features@.len() == 0
        } else {
            &&& profiles@.len() == entries@.len()
            &&& forall|k: int| 0 <= k < entries@.len() ==> profile_from(entries@[k], #[trigger] profiles@[k])
        },
{
    let ghost problem_of = |k: int| profile_problem(entries@, k);
    proof {
        lemma_first_problem(entries@.len() as int, problem_of);
    }
    let mut profiles: Vec<FeatureProfile> = Vec::new();
    let mut k: usize = 0;
    while k < entries.len()
        invariant
            problem_of == (|k: int| profile_problem(entries@, k)),
            forall|k: int| 0 <= k < entries@.len() ==> locatable(source.spec_bytes(), (#[trigger] entries@[k]).offset),
            k <= entries@.len(),
            forall|i: int| 0 <= i < k ==> (#[trigger] problem_of(i)) is None,
            profiles@.len() == k,
            forall|i: int| 0 <= i < k ==> profile_from(entries@[i], #[trigger] profiles@[i]),
        decreases entries@.len() - k,
    {
        match check_profile(entries, k) {
            Some((kind, subject)) => {
                proof {
                    lemma_first_problem(entries@.len() as int, problem_of);
                    if first_problem(entries@.len() as int, problem_of) != Some(k as int) {
                        let other = first_problem(entries@.len() as int, problem_of)->0;
                        assert(other < k ==> problem_of(other) is None);
                        assert(other > k ==> problem_of(k as int) is None);
                    }
                }
                return Err(problem_at(kind, subject, source, entries[k].offset));
            },
            None => {},
        }
        let entry = &entries[k];
        profiles.push(
            FeatureProfile {
                name: entry.name.clone(),
                all_features: entry.all_features,
                no_default_features: entry.no_default_features,
                features: copy_texts(&entry.features),
            },
        );
        k = k + 1;
    }
    if profiles.len() == 0 {
        profiles.push(FeatureProfile::all_features());
    }
    Ok(profiles)
}

pub(crate) fn copy_texts(words: &Vec<String>) -> (copy: Vec<String>)
    ensures
        texts(copy@) == texts(words@),
{
    let mut copy: Vec<String> = Vec::new();
    let mut k: usize = 0;
    while k < words.len()
        invariant
            k <= words@.len(),
            copy@.len() == k,
            forall|i: int| 0 <= i < k ==> (#[trigger] copy@[i])@ == words@[i]@,
        decreases words@.len() - k,
    {
        copy.push(words[k].clone());
        k = k + 1;
    }
    proof {
        assert(texts(copy@) =~= texts(words@));
    }
    copy
}

fn make_overrides(entries: &Vec<RawLintOverride>, source: &str) -> (made: Result<Vec<LintOverride>, ConfigError>)
    requires
        forall|k: int| 0 <= k < entries@.len() ==> locatable(source.spec_bytes(), (#[trigger] entries@[k]).offset),
    ensures
        ({
            let problem = first_problem(entries@.len() as int, |k: int| override_problem(entries@[k]));
            &&& made is Err <==> problem is Some
            &&& made matches Err(error) ==> problem matches Some(k) && located(override_problem(entries@[k]), entries@[k].offset)
                == Some((error.kind, error.subject@, entries@[k].offset as int)) && span_at(source.spec_bytes(), entries@[k].offset as int, error.span)
        }),
        made matches Ok(list) ==> list@.len() == entries@.len() && forall|k: int|
            0 <= k < entries@.len() ==> override_from(entries@[k], #[trigger] list@[k], source.spec_bytes()),
{
    let ghost problem_of = |k: int| override_problem(entries@[k]);
    proof {
        lemma_first_problem(entries@.len() as int, problem_of);
    }
    let mut list: Vec<LintOverride> = Vec::new();
    let mut k: usize = 0;
    while k < entries.len()
        invariant
            problem_of == (|k: int| override_problem(entries@[k])),
            forall|k: int| 0 <= k < entries@.len() ==> locatable(source.spec_bytes(), (#[trigger] entries@[k]).offset),
            k <= entries@.len(),
            forall|i: int| 0 <= i < k ==> (#[trigger] problem_of(i)) is None,
            list@.len() == k,
            forall|i: int| 0 <= i < k ==> override_from(entries@[i], #[trigger] list@[i], source.spec_bytes()),
        decreases entries@.len() - k,
    {
        match make_override(&entries[k], source) {
            Ok(made) => list.push(made),
            Err(error) => {
                proof {
                    lemma_first_problem(entries@.len() as int, problem_of);
                    if first_problem(entries@.len() as int, problem_of) != Some(k as int) {
                        let other = first_problem(entries@.len() as int, problem_of)->0;
                        assert(other < k ==> problem_of(other) is None);
                        assert(other > k ==> problem_of(k as int) is None);
                    }
                }
                return Err(error);
            },
        }
        k = k + 1;
    }
    Ok(list)
}

fn make_exclusions(entries: &Vec<RawDiagnosticExclusion>, source: &str) -> (made: Result<Vec<DiagnosticExclusion>, ConfigError>)
    requires
        forall|k: int| 0 <= k < entries@.len() ==> locatable(source.spec_bytes(), (#[trigger] entries@[k]).offset),
    ensures
        ({
            let problem = first_problem(entries@.len() as int, |k: int| exclusion_problem(entries@[k]));
            &&& made is Err <==> problem is Some
            &&& made matches Err(error) ==> problem matches Some(k) && located(exclusion_problem(entries@[k]), entries@[k].offset)
                == Some((error.kind, error.subject@, entries@[k].offset as int)) && span_at(source.spec_bytes(), entries@[k].offset as int, error.span)
        }),
        made matches Ok(list) ==> list@.len() == entries@.len() && forall|k: int|
            0 <= k < entries@.len() ==> exclusion_from(entries@[k], #[trigger] list@[k], source.spec_bytes()),
{
    let ghost problem_of = |k: int| exclusion_problem(entries@[k]);
    proof {
        lemma_first_problem(entries@.len() as int, problem_of);
    }
    let mut list: Vec<DiagnosticExclusion> = Vec::new();
    let mut k: usize = 0;
    while k < entries.len()
        invariant
            problem_of == (|k: int| exclusion_problem(entries@[k])),
            forall|k: int| 0 <= k < entries@.len() ==> locatable(source.spec_bytes(), (#[trigger] entries@[k]).offset),
            k <= entries@.len(),
            forall|i: int| 0 <= i < k ==> (#[trigger] problem_of(i)) is None,
            list@.len() == k,
            forall|i: int| 0 <= i < k ==> exclusion_from(entries@[i], #[trigger] list@[i], source.spec_bytes()),
        decreases entries@.len() - k,
    {
        match make_exclusion(&entries[k], source) {
            Ok(made) => list.push(made),
            Err(error) => {
                proof {
                    lemma_first_problem(entries@.len() as int, problem_of);
                    if first_problem(entries@.len() as int, problem_of) != Some(k as int) {
                        let other = first_problem(entries@.len() as int, problem_of)->0;
                        assert(other < k ==> problem_of(other) is None);
                        assert(other > k ==> problem_of(k as int) is None);
                    }
                }
                return Err(error);
            },
        }
        k = k + 1;
    }
    Ok(list)
}

fn make_consumers(entries: &Vec<RawProductionConsumer>, known: &Vec<String>, source: &str) -> (made: Result<Vec<ProductionConsumer>, ConfigError>)
    requires
        forall|k: int| 0 <= k < entries@.len() ==> locatable(source.spec_bytes(), (#[trigger] entries@[k]).offset),
    ensures
        ({
            let problem = first_problem(entries@.len() as int, |k: int| production_problem(entries@[k], texts(known@)));
            &&& made is Err <==> problem is Some
            &&& made matches Err(error) ==> problem matches Some(k) && located(production_problem(entries@[k], texts(known@)), entries@[k].offset)
                == Some((error.kind, error.subject@, entries@[k].offset as int)) && span_at(source.spec_bytes(), entries@[k].offset as int, error.span)
        }),
        made matches Ok(list) ==> list@.len() == entries@.len() && forall|k: int|
            0 <= k < entries@.len() ==> consumer_from(entries@[k], #[trigger] list@[k], source.spec_bytes()),
{
    let ghost problem_of = |k: int| production_problem(entries@[k], texts(known@));
    proof {
        lemma_first_problem(entries@.len() as int, problem_of);
    }
    let mut list: Vec<ProductionConsumer> = Vec::new();
    let mut k: usize = 0;
    while k < entries.len()
        invariant
            problem_of == (|k: int| production_problem(entries@[k], texts(known@))),
            forall|k: int| 0 <= k < entries@.len() ==> locatable(source.spec_bytes(), (#[trigger] entries@[k]).offset),
            k <= entries@.len(),
            forall|i: int| 0 <= i < k ==> (#[trigger] problem_of(i)) is None,
            list@.len() == k,
            forall|i: int| 0 <= i < k ==> consumer_from(entries@[i], #[trigger] list@[i], source.spec_bytes()),
        decreases entries@.len() - k,
    {
        match make_consumer(&entries[k], known, source) {
            Ok(made) => list.push(made),
            Err(error) => {
                proof {
                    lemma_first_problem(entries@.len() as int, problem_of);
                    if first_problem(entries@.len() as int, problem_of) != Some(k as int) {
                        let other = first_problem(entries@.len() as int, problem_of)->0;
                        assert(other < k ==> problem_of(other) is None);
                        assert(other > k ==> problem_of(k as int) is None);
                    }
                }
                return Err(error);
            },
        }
        k = k + 1;
    }
    Ok(list)
}

fn doctest_named_before(entries: &Vec<RawDoctestPackage>, k: usize) -> (found: bool)
    requires
        k < entries@.len(),
    ensures
        found == exists|j: int| 0 <= j < k && #[trigger] entries@[j].package@ == entries@[k as int].package@,
{
    let mut j: usize = 0;
    while j < k
        invariant
            k < entries@.len(),
            j <= k,
            forall|i: int| 0 <= i < j ==> #[trigger] entries@[i].package@ != entries@[k as int].package@,
        decreases k - j,
    {
        if str_equals(entries[j].package.as_str(), entries[k].package.as_str()) {
            return true;
        }
        j = j + 1;
    }
    false
}

fn make_doctests(entries: &Vec<RawDoctestPackage>, source: &str) -> (made: Result<Option<Vec<DoctestPackage>>, ConfigError>)
    requires
        forall|k: int| 0 <= k < entries@.len() ==> locatable(source.spec_bytes(), (#[trigger] entries@[k]).offset),
    ensures
        ({
            let problem = first_problem(entries@.len() as int, |k: int| doctest_problem(entries@, k));
            &&& made is Err <==> problem is Some
            &&& made matches Err(error) ==> problem matches Some(k) && located(doctest_problem(entries@, k), entries@[k].offset)
                == Some((error.kind, error.subject@, entries@[k].offset as int)) && span_at(source.spec_bytes(), entries@[k].offset as int, error.span)
        }),
        made matches Ok(packages) ==> if entries@.len() == 0 {
            packages is None
        } else {
            packages matches Some(packages) && packages@.len() == entries@.len() && forall|k: int|
                0 <= k < entries@.len() ==> (#[trigger] packages@[k]).package@ == entries@[k].package@ && span_at(
                source.spec_bytes(),
                entries@[k].offset as int,
                packages@[k].span,
            )
        },
{
    if entries.len() == 0 {
        return Ok(None);
    }
    let ghost problem_of = |k: int| doctest_problem(entries@, k);
    proof {
        lemma_first_problem(entries@.len() as int, problem_of);
    }
    let mut packages: Vec<DoctestPackage> = Vec::new();
    let mut k: usize = 0;
    while k < entries.len()
        invariant
            problem_of == (|k: int| doctest_problem(entries@, k)),
            forall|k: int| 0 <= k < entries@.len() ==> locatable(source.spec_bytes(), (#[trigger] entries@[k]).offset),
            k <= entries@.len(),
            forall|i: int| 0 <= i < k ==> (#[trigger] problem_of(i)) is None,
            packages@.len() == k,
            forall|i: int| 0 <= i < k ==> (#[trigger] packages@[i]).package@ == entries@[i].package@ && span_at(
                source.spec_bytes(),
                entries@[i].offset as int,
                packages@[i].span,
            ),
        decreases entries@.len() - k,
    {
        let entry = &entries[k];
        let problem = if is_blank(entry.package.as_str()) {
            Some((ConfigErrorKind::EmptyDoctestPackage, String::new()))
        } else if doctest_named_before(entries, k) {
            Some((ConfigErrorKind::DuplicateDoctestPackage, entry.package.clone()))
        } else {
            None
        };
        match problem {
            Some((kind, subject)) => {
                proof {
                    lemma_first_problem(entries@.len() as int, problem_of);
                    if first_problem(entries@.len() as int, problem_of) != Some(k as int) {
                        let other = first_problem(entries@.len() as int, problem_of)->0;
                        assert(other < k ==> problem_of(other) is None);
                        assert(other > k ==> problem_of(k as int) is None);
                    }
                }
                return Err(problem_at(kind, subject, source, entry.offset));
            },
            None => {},
        }
        packages.push(DoctestPackage { package: entry.package.clone(), span: config_span(source, entry.offset) });
        k = k + 1;
    }
    Ok(Some(packages))
}

impl Config {
    /// The lint overrides, in their order in the file.
    pub fn override_list(&self) -> (entries: &[LintOverride])
        ensures
            entries@ == self.override_entries(),
    {
        self.overrides.as_slice()
    }

    /// Every target selector of a well-formed configuration parses.
    pub proof fn lemma_selectors_parse(&self)
        requires
            self.wf(),
        ensures
            forall|k: int| 0 <= k < self.override_entries().len() ==> selector_parses((#[trigger] self.override_entries()[k]).target),
            forall|k: int| 0 <= k < self.exclusion_entries().len() ==> selector_parses((#[trigger] self.exclusion_entries()[k]).target),
            forall|k: int| 0 <= k < self.consumer_entries().len() ==> selector_parses((#[trigger] self.consumer_entries()[k]).target),
    {
    }

    /// The diagnostic exclusions, in their order in the file.
    pub fn exclusion_list(&self) -> (entries: &[DiagnosticExclusion])
        ensures
            entries@ == self.exclusion_entries(),
    {
        self.exclusions.as_slice()
    }

    /// The feature profiles to analyze under.
    pub fn feature_profiles(&self) -> (profiles: &[FeatureProfile])
        ensures
            profiles@ == self.profiles(),
    {
        self.feature_profiles.as_slice()
    }

    /// The packages whose doctests are analyzed, when the configuration selects them.
    pub fn doctest_packages(&self) -> (packages: Option<&[DoctestPackage]>)
        ensures
            match packages {
                Some(packages) => self.doctest_entries() == Some(packages@),
                None => self.doctest_entries() is None,
            },
    {
        match &self.doctests {
            Some(packages) => Some(packages.as_slice()),
            None => None,
        }
    }

    /// Whether fields of a struct keep one visibility when the struct is narrowed.
    pub fn preserve_uniform_field_visibility(&self) -> (preserve: bool)
        ensures
            preserve == self.preserves_uniform_fields(),
    {
        self.preserve_uniform_field_visibility
    }

    /// The configuration file, when one was read.
    pub fn path(&self) -> (path: Option<&str>)
        ensures
            match path {
                Some(path) => self.path_text() == Some(path@),
                None => self.path_text() is None,
            },
    {
        match &self.path {
            Some(path) => Some(path.as_str()),
            None => None,
        }
    }

    /// The workspace root the configuration belongs to.
    pub fn workspace_root(&self) -> (root: &str)
        ensures
            root@ == self.root_text(),
    {
        self.workspace_root.as_str()
    }

    /// Line `line` of the configuration file, counted from 1.
    pub fn source_line(&self, line: usize) -> (text: Option<&str>)
        requires
            self.wf(),
        ensures
            text matches Some(found) ==> crate::render::source_line_of(self.source_text(), line as int) == Some(found@),
            text is None ==> crate::render::source_line_of(self.source_text(), line as int) is None,
    {
        self.source.line(line)
    }

    /// The production consumers whose target selector matches the analysis target, in order;
    /// those without a selector always apply.
    pub fn production_consumers(&self, target: &AnalysisTarget) -> (consumers: Vec<&ProductionConsumer>)
        requires
            self.wf(),
            target.wf(),
        ensures
            consumers@.map_values(|consumer: &ProductionConsumer| *consumer) == select_by(
                self.consumer_entries(),
                consumer_flags(self.consumer_entries(), *target),
            ),
    {
        let ghost entries = self.production@;
        let mut consumers: Vec<&ProductionConsumer> = Vec::new();
        let ghost mut applies: Seq<bool> = Seq::empty();
        let mut k: usize = 0;
        while k < self.production.len()
            invariant
                entries == self.production@,
                self.wf(),
                target.wf(),
                k <= entries.len(),
                applies == consumer_flags(entries.take(k as int), *target),
                consumers@.map_values(|consumer: &ProductionConsumer| *consumer) == select_by(entries.take(k as int), applies),
            decreases entries.len() - k,
        {
            let consumer = &self.production[k];
            let selected = applies_to(&consumer.target, target);
            if selected {
                consumers.push(consumer);
            }
            proof {
                assert(entries.take(k + 1).drop_last() =~= entries.take(k as int));
                assert(applies.push(selected).drop_last() =~= applies);
                assert(consumer_flags(entries.take(k + 1), *target) =~= applies.push(selected));
                applies = applies.push(selected);
                assert(consumers@.map_values(|consumer: &ProductionConsumer| *consumer) =~= select_by(entries.take(k + 1), applies));
            }
            k = k + 1;
        }
        proof {
            assert(entries.take(entries.len() as int) =~= entries);
        }
        consumers
    }
}

/// For each production consumer, whether it applies to the analysis target.
pub open spec fn consumer_flags(entries: Seq<ProductionConsumer>, target: AnalysisTarget) -> Seq<bool> {
    Seq::new(entries.len(), |k: int| selector_applies(entries[k].target, target))
}

/// The entries whose flag is set, in order.
pub open spec fn select_by<T>(entries: Seq<T>, flags: Seq<bool>) -> Seq<T>
    decreases entries.len(),
{
    if entries.len() == 0 || flags.len() != entries.len() {
        Seq::empty()
    } else {
        select_by(entries.drop_last(), flags.drop_last()) + if flags.last() {
            seq![entries.last()]
        } else {
            Seq::empty()
        }
    }
}

} // verus!
