//! The Cargo invocations of an analysis run: which products are built in which mode, with
//! which arguments, and how a run is described.

use vstd::prelude::*;
use vstd::string::StringExecFns;
use crate::config::{FeatureProfile, ProductionProduct, feature_words, profile_arguments, joined};
use crate::lints::{TerminalColor, color_value};
use crate::settings::texts;
use crate::text::{decimal, push_decimal, str_equals};

verus! {

/// How the compiler driver treats the crates of an invocation.
#[derive(Clone, Copy, Debug, PartialEq, Eq, Structural)]
pub enum ConsumerMode {
    /// The crates are built for a production product.
    Production,
    /// The crates are built for tests, examples, benchmarks or doctests.
    NonProduction,
}

/// A production product selected for analysis, with the feature profiles it applies to
/// (every profile when none are selected).
#[derive(Clone, Copy, Debug)]
pub struct ProductionSelection<'a> {
    pub package: &'a str,
    pub product: &'a ProductionProduct,
    pub feature_profiles: Option<&'a [String]>,
}

/// Whether a selection applies to the feature profile named `name`.
pub open spec fn selection_applies(selection: ProductionSelection, name: Seq<char>) -> bool {
    match selection.feature_profiles {
        Some(profiles) => texts(profiles@).contains(name),
        None => true,
    }
}

impl<'a> ProductionSelection<'a> {
    /// Whether the selection applies to a feature profile.
    pub fn applies_to(self, feature_profile: &FeatureProfile) -> (applies: bool)
        ensures
            applies == selection_applies(self, feature_profile.name@),
    {
        self.applies_to_name(feature_profile.name.as_str())
    }

    /// Whether the selection applies to the feature profile named `feature_profile`.
    pub fn applies_to_name(self, feature_profile: &str) -> (applies: bool)
        ensures
            applies == selection_applies(self, feature_profile@),
    {
        match self.feature_profiles {
            Some(profiles) => {
                let mut k: usize = 0;
                while k < profiles.len()
                    invariant
                        self.feature_profiles == Some(profiles),
                        k <= profiles@.len(),
                        forall|i: int| 0 <= i < k ==> profiles@[i]@ != feature_profile@,
                    decreases profiles@.len() - k,
                {
                    if str_equals(profiles[k].as_str(), feature_profile) {
                        proof {
                            assert(texts(profiles@)[k as int] == feature_profile@);
                        }
                        return true;
                    }
                    k = k + 1;
                }
                proof {
                    assert forall|i: int| 0 <= i < texts(profiles@).len() implies texts(profiles@)[i] != feature_profile@ by {
                        assert(texts(profiles@)[i] == profiles@[i]@);
                    }
                }
                false
            },
            None => true,
        }
    }
}

/// The options of a `cargo fix` invocation: the fix plan to apply and whether uncommitted
/// changes are allowed.
#[derive(Clone, Copy, Debug)]
pub struct FixOptions<'a> {
    pub plan: &'a str,
    pub allow_dirty: bool,
}

/// One Cargo invocation of an analysis run.
#[derive(Clone, Copy, Debug)]
pub enum CargoInvocation<'a> {
    /// Check one production product.
    CheckProduction(ProductionSelection<'a>),
    /// Check every target of the workspace for non-production consumers.
    CheckNonProduction,
    /// Build the doctests of the selected packages, or of the workspace.
    CheckDoctests { packages: Option<&'a [String]> },
    /// Apply a fix plan to the libraries of the packages.
    FixProduction { plan: &'a str, packages: &'a [String], allow_dirty: bool },
    /// Apply a fix plan to every target of the packages.
    FixNonProduction { plan: &'a str, packages: &'a [String], allow_dirty: bool },
}

/// What a Cargo invocation runs: the subcommand, the arguments that select what it builds, how
/// the driver treats the crates, the crate the driver roots production at, the fix to apply,
/// and whether it builds doctests.
#[derive(Debug)]
pub struct CargoInvocationSpec<'a> {
    pub subcommand: &'static str,
    pub selection_arguments: Vec<String>,
    pub consumer_mode: ConsumerMode,
    pub root_crate: String,
    pub fix: Option<FixOptions<'a>>,
    pub doctests: bool,
}

/// `--package <package>` for each package, then `target`.
pub open spec fn package_words(packages: Seq<Seq<char>>, target: Seq<char>) -> Seq<Seq<char>>
    decreases packages.len(),
{
    if packages.len() == 0 {
        seq![target]
    } else {
        package_words(packages.drop_last(), Seq::empty()).drop_last() + seq!["--package"@, packages.last(), target]
    }
}

/// The words of a list of strings.
pub open spec fn words_of(arguments: Seq<String>) -> Seq<Seq<char>> {
    arguments.map_values(|argument: String| argument@)
}

/// The Cargo arguments that select packages and then a kind of target.
pub fn package_arguments(packages: &[String], target: &str) -> (arguments: Vec<String>)
    ensures
        words_of(arguments@) == package_words(texts(packages@), target@),
{
    let mut arguments: Vec<String> = Vec::new();
    let mut k: usize = 0;
    while k < packages.len()
        invariant
            k <= packages@.len(),
            words_of(arguments@) == package_words(texts(packages@.take(k as int)), Seq::empty()).drop_last(),
        decreases packages@.len() - k,
    {
        arguments.push(String::from_str("--package"));
        arguments.push(packages[k].clone());
        proof {
            assert(packages@.take(k + 1).drop_last() =~= packages@.take(k as int));
            assert(texts(packages@.take(k + 1)).drop_last() =~= texts(packages@.take(k as int)));
            assert(words_of(arguments@) =~= package_words(texts(packages@.take(k + 1)), Seq::empty()).drop_last());
        }
        k = k + 1;
    }
    arguments.push(String::from_str(target));
    proof {
        assert(packages@.take(packages@.len() as int) =~= packages@);
        lemma_package_words_target(texts(packages@), target@);
        assert(words_of(arguments@) =~= package_words(texts(packages@), target@));
    }
    arguments
}

proof fn lemma_package_words_target(packages: Seq<Seq<char>>, target: Seq<char>)
    ensures
        package_words(packages, target) == package_words(packages, Seq::empty()).drop_last().push(target),
    decreases packages.len(),
{
    if packages.len() == 0 {
        assert(package_words(packages, target) =~= seq![Seq::<char>::empty()].drop_last().push(target));
    } else {
        assert(package_words(packages, target) =~= package_words(packages, Seq::empty()).drop_last().push(target));
    }
}

/// The root crate of a product: its target name with `-` written as `_`.
pub open spec fn crate_name_of(name: Seq<char>) -> Seq<char> {
    name.map_values(|c: char| if c == '-' { '_' } else { c })
}

/// Writes a target name as a crate name: `-` becomes `_`.
pub fn crate_name(name: &str) -> (crate_name: String)
    ensures
        crate_name@ == crate_name_of(name@),
{
    let length = name.unicode_len();
    let mut result = String::new();
    let mut k: usize = 0;
    while k < length
        invariant
            length == name@.len(),
            k <= length,
            result@ == crate_name_of(name@.take(k as int)),
        decreases length - k,
    {
        let character = name.get_char(k);
        proof {
            reveal_strlit("_");
        }
        if character == '-' {
            result.append("_");
        } else {
            let piece = name.substring_char(k, k + 1);
            result.append(piece);
        }
        proof {
            assert(crate_name_of(name@.take(k + 1)) =~= crate_name_of(name@.take(k as int)).push(if character == '-' { '_' } else { character }));
        }
        k = k + 1;
    }
    proof {
        assert(name@.take(length as int) =~= name@);
    }
    result
}

/// What each invocation runs.
pub open spec fn invocation_spec_holds(invocation: CargoInvocation, spec: CargoInvocationSpec) -> bool {
    match invocation {
        CargoInvocation::CheckProduction(product) => {
            &&& spec.subcommand@ == "check"@
            &&& words_of(spec.selection_arguments@) == seq!["--package"@, product.package@, if product.product is Binary { "--bin"@ } else { "--lib"@ }]
                + if product.product is Binary { seq![product.product.product_name()] } else { Seq::empty() }
            &&& spec.consumer_mode == ConsumerMode::Production
            &&& spec.root_crate@ == crate_name_of(product.product.product_name())
            &&& spec.fix is None
            &&& !spec.doctests
        },
        CargoInvocation::CheckNonProduction => {
            &&& spec.subcommand@ == "check"@
            &&& words_of(spec.selection_arguments@) == seq!["--workspace"@, "--all-targets"@]
            &&& spec.consumer_mode == ConsumerMode::NonProduction
            &&& spec.root_crate@ == Seq::<char>::empty()
            &&& spec.fix is None
            &&& !spec.doctests
        },
        CargoInvocation::CheckDoctests { packages } => {
            &&& spec.subcommand@ == "test"@
            &&& words_of(spec.selection_arguments@) == match packages {
                Some(packages) => package_words(texts(packages@), "--doc"@),
                None => seq!["--workspace"@, "--doc"@],
            }
            &&& spec.consumer_mode == ConsumerMode::NonProduction
            &&& spec.root_crate@ == Seq::<char>::empty()
            &&& spec.fix is None
            &&& spec.doctests
        },
        CargoInvocation::FixProduction { plan, packages, allow_dirty } => {
            &&& spec.subcommand@ == "fix"@
            &&& words_of(spec.selection_arguments@) == package_words(texts(packages@), "--lib"@)
            &&& spec.consumer_mode == ConsumerMode::Production
            &&& spec.root_crate@ == Seq::<char>::empty()
            &&& spec.fix matches Some(fix) && fix.plan == plan && fix.allow_dirty == allow_dirty
            &&& !spec.doctests
        },
        CargoInvocation::FixNonProduction { plan, packages, allow_dirty } => {
            &&& spec.subcommand@ == "fix"@
            &&& words_of(spec.selection_arguments@) == package_words(texts(packages@), "--all-targets"@)
            &&& spec.consumer_mode == ConsumerMode::NonProduction
            &&& spec.root_crate@ == Seq::<char>::empty()
            &&& spec.fix matches Some(fix) && fix.plan == plan && fix.allow_dirty == allow_dirty
            &&& !spec.doctests
        },
    }
}

impl<'a> CargoInvocation<'a> {
    /// What the invocation runs.
    pub fn specification(self) -> (spec: CargoInvocationSpec<'a>)
        ensures
            invocation_spec_holds(self, spec),
    {
        match self {
            CargoInvocation::CheckProduction(product) => {
                let mut arguments: Vec<String> = Vec::new();
                arguments.push(String::from_str("--package"));
                arguments.push(String::from_str(product.package));
                arguments.push(String::from_str(product.product.cargo_flag()));
                match product.product {
                    ProductionProduct::Binary(name) => arguments.push(name.clone()),
                    ProductionProduct::Library(_) => {},
                }
                proof {
                    assert(words_of(arguments@) =~= seq!["--package"@, product.package@, if product.product is Binary { "--bin"@ } else { "--lib"@ }]
                        + if product.product is Binary { seq![product.product.product_name()] } else { Seq::empty() });
                }
                CargoInvocationSpec {
                    subcommand: "check",
                    selection_arguments: arguments,
                    consumer_mode: ConsumerMode::Production,
                    root_crate: crate_name(product.product.name()),
                    fix: None,
                    doctests: false,
                }
            },
            CargoInvocation::CheckNonProduction => {
                let mut arguments: Vec<String> = Vec::new();
                arguments.push(String::from_str("--workspace"));
                arguments.push(String::from_str("--all-targets"));
                proof {
                    assert(words_of(arguments@) =~= seq!["--workspace"@, "--all-targets"@]);
                }
                CargoInvocationSpec {
                    subcommand: "check",
                    selection_arguments: arguments,
                    consumer_mode: ConsumerMode::NonProduction,
                    root_crate: String::new(),
                    fix: None,
                    doctests: false,
                }
            },
            CargoInvocation::CheckDoctests { packages } => {
                let arguments = match packages {
                    Some(packages) => package_arguments(packages, "--doc"),
                    None => {
                        let mut arguments: Vec<String> = Vec::new();
                        arguments.push(String::from_str("--workspace"));
                        arguments.push(String::from_str("--doc"));
                        proof {
                            assert(words_of(arguments@) =~= seq!["--workspace"@, "--doc"@]);
                        }
                        arguments
                    },
                };
                CargoInvocationSpec {
                    subcommand: "test",
                    selection_arguments: arguments,
                    consumer_mode: ConsumerMode::NonProduction,
                    root_crate: String::new(),
                    fix: None,
                    doctests: true,
                }
            },
            CargoInvocation::FixProduction { plan, packages, allow_dirty } => CargoInvocationSpec {
                subcommand: "fix",
                selection_arguments: package_arguments(packages, "--lib"),
                consumer_mode: ConsumerMode::Production,
                root_crate: String::new(),
                fix: Some(FixOptions { plan, allow_dirty }),
                doctests: false,
            },
            CargoInvocation::FixNonProduction { plan, packages, allow_dirty } => CargoInvocationSpec {
                subcommand: "fix",
                selection_arguments: package_arguments(packages, "--all-targets"),
                consumer_mode: ConsumerMode::NonProduction,
                root_crate: String::new(),
                fix: Some(FixOptions { plan, allow_dirty }),
                doctests: false,
            },
        }
    }
}

/// `package --bin name` or `package --lib`: how Cargo selects a product.
pub open spec fn product_command(selection: ProductionSelection) -> Seq<char> {
    selection.package@ + " "@ + match *selection.product {
        ProductionProduct::Binary(name) => "--bin"@ + " "@ + name@,
        ProductionProduct::Library(_) => "--lib"@,
    }
}

/// Whether every selection is a binary.
pub open spec fn all_binaries(selections: Seq<ProductionSelection>) -> bool {
    forall|i: int| 0 <= i < selections.len() ==> (#[trigger] selections[i]).product is Binary
}

/// Whether every selection is a library.
pub open spec fn all_libraries(selections: Seq<ProductionSelection>) -> bool {
    forall|i: int| 0 <= i < selections.len() ==> (#[trigger] selections[i]).product is Library
}

/// The summary of what an analysis ran on: one product with its Cargo selection and feature
/// arguments, or how many products of which kind, and across how many feature profiles.
pub open spec fn production_summary_text(selections: Seq<ProductionSelection>, profiles: Seq<FeatureProfile>) -> Seq<char> {
    if selections.len() == 1 {
        if profiles.len() == 1 {
            let arguments = joined(profile_arguments(profiles[0]));
            "`"@ + product_command(selections[0]) + (if arguments.len() == 0 { Seq::empty() } else { " "@ }) + arguments + "`"@
        } else {
            "`"@ + product_command(selections[0]) + "` across "@ + decimal(profiles.len()) + " feature profiles"@
        }
    } else {
        let kind = if all_binaries(selections) {
            "binaries"@
        } else if all_libraries(selections) {
            "libraries"@
        } else {
            "targets"@
        };
        decimal(selections.len()) + " configured production "@ + kind + if profiles.len() == 1 {
            Seq::empty()
        } else {
            " across "@ + decimal(profiles.len()) + " feature profiles"@
        }
    }
}

fn push_product_command(text: &mut String, selection: ProductionSelection)
    ensures
        final(text)@ == old(text)@ + product_command(selection),
{
    text.append(selection.package);
    text.append(" ");
    text.append(selection.product.cargo_flag());
    match selection.product {
        ProductionProduct::Binary(name) => {
            text.append(" ");
            text.append(name.as_str());
        },
        ProductionProduct::Library(_) => {},
    }
    proof {
        assert(final(text)@ =~= old(text)@ + product_command(selection)) by {
            assert(text@ =~= old(text)@ + product_command(selection));
        }
    }
}

/// Whether every selection is a binary, and whether every selection is a library.
fn product_kinds(selections: &[ProductionSelection]) -> (kinds: (bool, bool))
    ensures
        kinds.0 == all_binaries(selections@),
        kinds.1 == all_libraries(selections@),
{
    let mut binaries = true;
    let mut libraries = true;
    let mut k: usize = 0;
    while k < selections.len()
        invariant
            k <= selections@.len(),
            binaries == all_binaries(selections@.take(k as int)),
            libraries == all_libraries(selections@.take(k as int)),
        decreases selections@.len() - k,
    {
        match selections[k].product {
            ProductionProduct::Binary(_) => libraries = false,
            ProductionProduct::Library(_) => binaries = false,
        }
        proof {
            assert(selections@.take(k + 1)[k as int] == selections@[k as int]);
            if !binaries {
                assert(!all_binaries(selections@.take(k + 1)));
            }
            if !libraries {
                assert(!all_libraries(selections@.take(k + 1)));
            }
            assert forall|i: int| 0 <= i < k implies selections@.take(k + 1)[i] == #[trigger] selections@.take(k as int)[i] by {}
        }
        k = k + 1;
    }
    proof {
        assert(selections@.take(selections@.len() as int) =~= selections@);
    }
    (binaries, libraries)
}

/// Summarizes what an analysis ran on.
pub fn production_summary(selections: &[ProductionSelection], feature_profiles: &[FeatureProfile]) -> (summary: String)
    ensures
        summary@ == production_summary_text(selections@, feature_profiles@),
{
    let mut summary = String::new();
    if selections.len() == 1 {
        summary.append("`");
        push_product_command(&mut summary, selections[0]);
        if feature_profiles.len() == 1 {
            let arguments = feature_profiles[0].cargo_arguments_description();
            if arguments.as_str().unicode_len() > 0 {
                summary.append(" ");
            }
            summary.append(arguments.as_str());
            summary.append("`");
        } else {
            summary.append("` across ");
            push_decimal(&mut summary, feature_profiles.len());
            summary.append(" feature profiles");
        }
        return summary;
    }
    let (binaries, libraries) = product_kinds(selections);
    push_decimal(&mut summary, selections.len());
    summary.append(" configured production ");
    if binaries {
        summary.append("binaries");
    } else if libraries {
        summary.append("libraries");
    } else {
        summary.append("targets");
    }
    if feature_profiles.len() != 1 {
        summary.append(" across ");
        push_decimal(&mut summary, feature_profiles.len());
        summary.append(" feature profiles");
    }
    summary
}

/// The word for a kind of production target.
pub open spec fn target_kind_word(product: ProductionProduct) -> Seq<char> {
    match product {
        ProductionProduct::Binary(_) => "binary"@,
        ProductionProduct::Library(_) => "library"@,
    }
}

/// What findings are unreachable from: the one product, or the configured products.
pub open spec fn production_description_text(selections: Seq<ProductionSelection>) -> Seq<char> {
    if selections.len() == 1 {
        target_kind_word(*selections[0].product) + " `"@ + selections[0].product.product_name() + "`"@
    } else if all_binaries(selections) {
        "the configured production binaries"@
    } else {
        "the configured production targets"@
    }
}

/// Describes what findings are unreachable from.
pub fn production_description(selections: &[ProductionSelection]) -> (description: String)
    ensures
        description@ == production_description_text(selections@),
{
    if selections.len() == 1 {
        let mut description = match selections[0].product {
            ProductionProduct::Binary(_) => String::from_str("binary"),
            ProductionProduct::Library(_) => String::from_str("library"),
        };
        description.append(" `");
        description.append(selections[0].product.name());
        description.append("`");
        return description;
    }
    let (binaries, _) = product_kinds(selections);
    if binaries {
        String::from_str("the configured production binaries")
    } else {
        String::from_str("the configured production targets")
    }
}

/// The target an analysis ran on, as the summary names it.
pub open spec fn compilation_target_text(target: Option<Seq<char>>) -> Seq<char> {
    match target {
        Some(target) => "target `"@ + target + "`"@,
        None => "the host target"@,
    }
}

/// Names the target an analysis ran on.
pub fn compilation_target(target: Option<&str>) -> (text: String)
    ensures
        text@ == compilation_target_text(match target {
            Some(target) => Some(target@),
            None => None,
        }),
{
    match target {
        Some(target) => {
            let mut text = String::from_str("target `");
            text.append(target);
            text.append("`");
            text
        },
        None => String::from_str("the host target"),
    }
}

/// Where and how an analysis runs Cargo: the manifest, the target directory, the color choice,
/// the compilation target, and which unclean workspaces fixes may touch.
#[derive(Clone, Copy, Debug)]
pub struct CargoSetting<'a> {
    pub manifest_path: &'a str,
    pub target_dir: &'a str,
    pub color: TerminalColor,
    pub target: &'a str,
    pub allow_dirty: bool,
    pub allow_staged: bool,
    pub allow_no_vcs: bool,
}

/// The fix options that Cargo's fix takes for an invocation, in order.
pub open spec fn fix_words(fix: Option<FixOptions>, setting: CargoSetting) -> Seq<Seq<char>> {
    match fix {
        Some(fix) => (if setting.allow_dirty || fix.allow_dirty { seq!["--allow-dirty"@] } else { Seq::empty() })
            + (if setting.allow_staged { seq!["--allow-staged"@] } else { Seq::empty() })
            + (if setting.allow_no_vcs { seq!["--allow-no-vcs"@] } else { Seq::empty() }),
        None => Seq::empty(),
    }
}

/// The arguments of an instrumented Cargo invocation: the subcommand, the manifest, a locked
/// resolution, the target directory, what it builds, the color choice, the feature profile's
/// options, the compilation target, the fix options, and `--quiet` for doctest builds.
pub open spec fn cargo_words(spec: CargoInvocationSpec, setting: CargoSetting, profile: FeatureProfile) -> Seq<Seq<char>> {
    seq![spec.subcommand@, "--manifest-path"@, setting.manifest_path@, "--locked"@, "--target-dir"@, setting.target_dir@]
        + words_of(spec.selection_arguments@) + seq!["--color"@, color_value(setting.color)] + profile_arguments(profile)
        + seq!["--target"@, setting.target@] + fix_words(spec.fix, setting) + (if spec.doctests { seq!["--quiet"@] } else { Seq::empty() })
}

fn push_word(arguments: &mut Vec<String>, word: &str)
    ensures
        words_of(final(arguments)@) == words_of(old(arguments)@).push(word@),
{
    arguments.push(word.to_string());
    proof {
        assert(words_of(final(arguments)@) =~= words_of(old(arguments)@).push(word@));
    }
}

/// The arguments of an instrumented Cargo invocation.
pub fn cargo_command_arguments(spec: &CargoInvocationSpec, setting: CargoSetting, profile: &FeatureProfile) -> (arguments: Vec<String>)
    ensures
        words_of(arguments@) == cargo_words(*spec, setting, *profile),
{
    let mut arguments: Vec<String> = Vec::new();
    push_word(&mut arguments, spec.subcommand);
    push_word(&mut arguments, "--manifest-path");
    push_word(&mut arguments, setting.manifest_path);
    push_word(&mut arguments, "--locked");
    push_word(&mut arguments, "--target-dir");
    push_word(&mut arguments, setting.target_dir);
    let ghost head = words_of(arguments@);
    proof {
        assert(head =~= seq![spec.subcommand@, "--manifest-path"@, setting.manifest_path@, "--locked"@, "--target-dir"@, setting.target_dir@]);
    }
    let mut k: usize = 0;
    while k < spec.selection_arguments.len()
        invariant
            k <= spec.selection_arguments@.len(),
            words_of(arguments@) == head + words_of(spec.selection_arguments@).take(k as int),
        decreases spec.selection_arguments@.len() - k,
    {
        push_word(&mut arguments, spec.selection_arguments[k].as_str());
        proof {
            assert(words_of(spec.selection_arguments@).take(k + 1) =~= words_of(spec.selection_arguments@).take(k as int).push(
                spec.selection_arguments@[k as int]@,
            ));
        }
        k = k + 1;
    }
    proof {
        assert(words_of(spec.selection_arguments@).take(spec.selection_arguments@.len() as int) =~= words_of(spec.selection_arguments@));
    }
    push_word(&mut arguments, "--color");
    push_word(&mut arguments, setting.color.cargo_value());
    let features = profile.cargo_arguments();
    let ghost middle = words_of(arguments@);
    let mut j: usize = 0;
    while j < features.len()
        invariant
            j <= features@.len(),
            features@.map_values(|argument: &str| argument@) == profile_arguments(*profile),
            words_of(arguments@) == middle + features@.map_values(|argument: &str| argument@).take(j as int),
        decreases features@.len() - j,
    {
        push_word(&mut arguments, features[j]);
        proof {
            assert(features@.map_values(|argument: &str| argument@).take(j + 1) =~= features@.map_values(|argument: &str| argument@).take(
                j as int,
            ).push(features@[j as int]@));
        }
        j = j + 1;
    }
    proof {
        assert(features@.map_values(|argument: &str| argument@).take(features@.len() as int) =~= profile_arguments(*profile));
    }
    push_word(&mut arguments, "--target");
    push_word(&mut arguments, setting.target);
    let ghost before_fix = words_of(arguments@);
    if let Some(fix) = spec.fix {
        if setting.allow_dirty || fix.allow_dirty {
            push_word(&mut arguments, "--allow-dirty");
        }
        let ghost after_dirty = words_of(arguments@);
        if setting.allow_staged {
            push_word(&mut arguments, "--allow-staged");
        }
        let ghost after_staged = words_of(arguments@);
        if setting.allow_no_vcs {
            push_word(&mut arguments, "--allow-no-vcs");
        }
        proof {
            assert(words_of(arguments@) =~= before_fix + fix_words(spec.fix, setting));
        }
    } else {
        proof {
            assert(words_of(arguments@) =~= before_fix + fix_words(spec.fix, setting));
        }
    }
    if spec.doctests {
        push_word(&mut arguments, "--quiet");
    }
    proof {
        assert(words_of(arguments@) =~= cargo_words(*spec, setting, *profile));
    }
    arguments
}

} // verus!
