//! The workspace configuration: lint overrides, diagnostic exclusions, production
//! consumers, doctest packages, and feature profiles, with the positions they came from.

use vstd::prelude::*;
use vstd::string::StringSliceAdditionalSpecFns;
use crate::model::ProductionTargetKind;
use crate::text::str_equals;

verus! {

/// The kind of a configuration diagnostic.
#[derive(Clone, Copy, Debug, PartialEq, Eq, Structural)]
pub enum ConfigDiagnosticKind {
    UnknownItem,
    AmbiguousItem,
    UnfulfilledExpectation,
}

/// The lint code of a configuration diagnostic.
pub open spec fn config_code(kind: ConfigDiagnosticKind) -> Seq<char> {
    match kind {
        ConfigDiagnosticKind::UnknownItem => "hawk::unknown_item"@,
        ConfigDiagnosticKind::AmbiguousItem => "hawk::ambiguous_item"@,
        ConfigDiagnosticKind::UnfulfilledExpectation => "hawk::unfulfilled_expectation"@,
    }
}

/// The configuration diagnostic whose code is `code`, if any.
pub open spec fn config_kind_of_code(code: Seq<char>) -> Option<ConfigDiagnosticKind> {
    if code == "hawk::unknown_item"@ {
        Some(ConfigDiagnosticKind::UnknownItem)
    } else if code == "hawk::ambiguous_item"@ {
        Some(ConfigDiagnosticKind::AmbiguousItem)
    } else if code == "hawk::unfulfilled_expectation"@ {
        Some(ConfigDiagnosticKind::UnfulfilledExpectation)
    } else {
        None
    }
}

impl ConfigDiagnosticKind {
    pub fn code(self) -> (code: &'static str)
        ensures
            code@ == config_code(self),
    {
        match self {
            ConfigDiagnosticKind::UnknownItem => "hawk::unknown_item",
            ConfigDiagnosticKind::AmbiguousItem => "hawk::ambiguous_item",
            ConfigDiagnosticKind::UnfulfilledExpectation => "hawk::unfulfilled_expectation",
        }
    }

    pub fn from_code(code: &str) -> (kind: Option<Self>)
        ensures
            kind == config_kind_of_code(code@),
    {
        if str_equals(code, "hawk::unknown_item") {
            Some(ConfigDiagnosticKind::UnknownItem)
        } else if str_equals(code, "hawk::ambiguous_item") {
            Some(ConfigDiagnosticKind::AmbiguousItem)
        } else if str_equals(code, "hawk::unfulfilled_expectation") {
            Some(ConfigDiagnosticKind::UnfulfilledExpectation)
        } else {
            None
        }
    }
}

/// Reading back the code of a configuration diagnostic gives the same kind.
pub proof fn lemma_config_code_round_trip(kind: ConfigDiagnosticKind)
    ensures
        config_kind_of_code(config_code(kind)) == Some(kind),
{
    reveal_strlit("hawk::unknown_item");
    reveal_strlit("hawk::ambiguous_item");
    reveal_strlit("hawk::unfulfilled_expectation");
    assert("hawk::unknown_item"@.len() != "hawk::ambiguous_item"@.len());
    assert("hawk::unknown_item"@.len() != "hawk::unfulfilled_expectation"@.len());
    assert("hawk::ambiguous_item"@.len() != "hawk::unfulfilled_expectation"@.len());
}

/// A configured production product: a binary or a library target of a package.
#[derive(Clone, Debug)]
pub enum ProductionProduct {
    Binary(String),
    Library(String),
}

impl ProductionProduct {
    pub open spec fn product_name(&self) -> Seq<char> {
        match self {
            ProductionProduct::Binary(name) => name@,
            ProductionProduct::Library(name) => name@,
        }
    }

    /// The target name of the product.
    pub fn name(&self) -> (name: &str)
        ensures
            name@ == self.product_name(),
    {
        match self {
            ProductionProduct::Binary(name) => name.as_str(),
            ProductionProduct::Library(name) => name.as_str(),
        }
    }

    /// The kind of target the product is.
    pub fn kind(&self) -> (kind: ProductionTargetKind)
        ensures
            kind == (if self is Binary { ProductionTargetKind::Binary } else { ProductionTargetKind::Library }),
    {
        match self {
            ProductionProduct::Binary(_) => ProductionTargetKind::Binary,
            ProductionProduct::Library(_) => ProductionTargetKind::Library,
        }
    }

    /// The Cargo flag that selects the product's kind of target.
    pub fn cargo_flag(&self) -> (flag: &'static str)
        ensures
            flag@ == (if self is Binary { "--bin"@ } else { "--lib"@ }),
    {
        match self {
            ProductionProduct::Binary(_) => "--bin",
            ProductionProduct::Library(_) => "--lib",
        }
    }
}

/// A named set of Cargo feature options under which the workspace is analyzed.
#[derive(Clone, Debug)]
pub struct FeatureProfile {
    pub name: String,
    pub all_features: bool,
    pub no_default_features: bool,
    pub features: Vec<String>,
}

/// The words of the feature options `--features <feature>`, for each feature in turn.
pub open spec fn feature_words(features: Seq<String>) -> Seq<Seq<char>>
    decreases features.len(),
{
    if features.len() == 0 {
        Seq::empty()
    } else {
        feature_words(features.drop_last()) + seq!["--features"@, features.last()@]
    }
}

/// The Cargo arguments of a feature profile.
pub open spec fn profile_arguments(profile: FeatureProfile) -> Seq<Seq<char>> {
    (if profile.all_features { seq!["--all-features"@] } else { Seq::empty() })
        + (if profile.no_default_features { seq!["--no-default-features"@] } else { Seq::empty() })
        + feature_words(profile.features@)
}

/// The words of a sequence joined by single spaces.
pub open spec fn joined(words: Seq<Seq<char>>) -> Seq<char>
    decreases words.len(),
{
    if words.len() == 0 {
        Seq::empty()
    } else if words.len() == 1 {
        words[0]
    } else {
        joined(words.drop_last()) + " "@ + words.last()
    }
}

impl FeatureProfile {
    /// The profile that enables every feature.
    pub fn all_features() -> (profile: Self)
        ensures
            profile.name@ == "all-features"@,
            profile.all_features,
            !profile.no_default_features,
            profile.features@.len() == 0,
    {
        FeatureProfile { name: "all-features".to_owned(), all_features: true, no_default_features: false, features: Vec::new() }
    }

    pub fn name(&self) -> (name: &str)
        ensures
            name@ == self.name@,
    {
        self.name.as_str()
    }

    /// The Cargo arguments that select this profile's features.
    pub fn cargo_arguments(&self) -> (arguments: Vec<&str>)
        ensures
            arguments@.map_values(|argument: &str| argument@) == profile_arguments(*self),
    {
        let mut arguments: Vec<&str> = Vec::new();
        if self.all_features {
            arguments.push("--all-features");
        }
        if self.no_default_features {
            arguments.push("--no-default-features");
        }
        let ghost head = arguments@.map_values(|argument: &str| argument@);
        proof {
            assert(head =~= (if self.all_features { seq!["--all-features"@] } else { Seq::empty() })
                + (if self.no_default_features { seq!["--no-default-features"@] } else { Seq::empty() }));
        }
        let mut i: usize = 0;
        while i < self.features.len()
            invariant
                i <= self.features@.len(),
                arguments@.map_values(|argument: &str| argument@) == head + feature_words(self.features@.take(i as int)),
            decreases self.features@.len() - i,
        {
            let ghost before = arguments@;
            arguments.push("--features");
            arguments.push(self.features[i].as_str());
            proof {
                assert(self.features@.take(i + 1).drop_last() =~= self.features@.take(i as int));
                assert(arguments@.map_values(|argument: &str| argument@) =~= before.map_values(|argument: &str| argument@) + seq!["--features"@, self.features@[i as int]@]);
            }
            i = i + 1;
        }
        proof {
            assert(self.features@.take(self.features@.len() as int) =~= self.features@);
        }
        arguments
    }

    /// The Cargo arguments of this profile, joined by spaces.
    pub fn cargo_arguments_description(&self) -> (description: String)
        ensures
            description@ == joined(profile_arguments(*self)),
    {
        let arguments = self.cargo_arguments();
        let ghost words = arguments@.map_values(|argument: &str| argument@);
        let mut description = String::new();
        let mut i: usize = 0;
        while i < arguments.len()
            invariant
                i <= arguments@.len(),
                words == arguments@.map_values(|argument: &str| argument@),
                description@ == joined(words.take(i as int)),
            decreases arguments@.len() - i,
        {
            if i > 0 {
                description.append(" ");
            }
            description.append(arguments[i]);
            proof {
                assert(words.take(i + 1).drop_last() =~= words.take(i as int));
                if i == 0 {
                    assert(description@ =~= words.take(1)[0]);
                }
            }
            i = i + 1;
        }
        proof {
            assert(words.take(words.len() as int) =~= words);
        }
        description
    }
}

/// A position in the configuration file: one-based line and column.
#[derive(Clone, Copy, Debug, PartialEq, Eq, Structural)]
pub struct ConfigSpan {
    pub line: usize,
    pub column: usize,
}

/// The number of newline bytes in `bytes`.
pub open spec fn newlines(bytes: Seq<u8>) -> nat
    decreases bytes.len(),
{
    if bytes.len() == 0 {
        0
    } else {
        newlines(bytes.drop_last()) + if bytes.last() == 10u8 { 1nat } else { 0nat }
    }
}

/// The number of characters after the last newline of the UTF-8 bytes `bytes`.
pub open spec fn last_line_chars(bytes: Seq<u8>) -> nat
    decreases bytes.len(),
{
    if bytes.len() == 0 {
        0
    } else if bytes.last() == 10u8 {
        0
    } else {
        last_line_chars(bytes.drop_last()) + if vstd::utf8::is_continuation_byte(bytes.last()) { 0nat } else { 1nat }
    }
}

/// The line and column of byte `offset` of a configuration source.
pub fn config_span(source: &str, offset: usize) -> (span: ConfigSpan)
    requires
        offset <= source.spec_bytes().len(),
        offset < usize::MAX,
    ensures
        span.line == newlines(source.spec_bytes().take(offset as int)) + 1,
        span.column == last_line_chars(source.spec_bytes().take(offset as int)) + 1,
{
    let bytes = source.as_bytes();
    let mut line: usize = 1;
    let mut column: usize = 1;
    let mut i: usize = 0;
    while i < offset
        invariant
            offset <= bytes@.len(),
            offset < usize::MAX,
            bytes@ == source.spec_bytes(),
            i <= offset,
            line == newlines(bytes@.take(i as int)) + 1,
            column == last_line_chars(bytes@.take(i as int)) + 1,
            line <= i + 1,
            column <= i + 1,
        decreases offset - i,
    {
        let byte = bytes[i];
        proof {
            assert(bytes@.take(i + 1).drop_last() =~= bytes@.take(i as int));
        }
        if byte == 10u8 {
            line = line + 1;
            column = 1;
        } else if !(byte >= 0x80u8 && byte < 0xC0u8) {
            column = column + 1;
        }
        i = i + 1;
    }
    ConfigSpan { line, column }
}

} // verus!
