//! What a run decides about the fragments its instrumented builds emit: which compilations are
//! production product roots and which consume the workspace only outside production, and the
//! rustdoc flags that make doctest builds emit fragments too.

use vstd::prelude::*;
use crate::model::{Fragment, ProductionTargetKind};
use crate::invocation::{crate_name, crate_name_of, ProductionSelection};
use crate::config::ProductionProduct;
use crate::settings::{texts, whitespace};

verus! {

/// Why the fragments of a run cannot be analyzed.
#[derive(Clone, Debug)]
pub enum CollectionError {
    /// No production fragment compiles a configured library of a package.
    MissingLibraryFragment { library: String, package: String },
    /// No production fragment is a product root under a feature profile.
    MissingProductFragment { profile: String },
}

/// The message that reports a collection error.
pub open spec fn collection_error_text(error: CollectionError) -> Seq<char> {
    match error {
        CollectionError::MissingLibraryFragment { library, package } => "no instrumented fragment was emitted for configured library `"@
            + library@ + "` in package `"@ + package@ + "`"@,
        CollectionError::MissingProductFragment { profile } =>
            "no instrumented fragment was emitted for a configured production target under feature profile `"@ + profile@
            + "`; rerun with a fresh --target-dir"@,
    }
}

impl CollectionError {
    /// The message that reports the error.
    pub fn message(&self) -> (text: String)
        ensures
            text@ == collection_error_text(*self),
    {
        let mut text = String::new();
        match self {
            CollectionError::MissingLibraryFragment { library, package } => {
                text.append("no instrumented fragment was emitted for configured library `");
                text.append(library.as_str());
                text.append("` in package `");
                text.append(package.as_str());
                text.append("`");
            },
            CollectionError::MissingProductFragment { profile } => {
                text.append("no instrumented fragment was emitted for a configured production target under feature profile `");
                text.append(profile.as_str());
                text.append("`; rerun with a fresh --target-dir");
            },
        }
        proof {
            assert(text@ =~= collection_error_text(*self));
        }
        text
    }
}

/// Whether a production fragment compiles the configured library of a selection for the
/// compilation target, and is not a binary's root.
pub open spec fn compiles_library(fragment: Fragment, selection: ProductionSelection, target: Seq<char>) -> bool {
    &&& selection.product matches ProductionProduct::Library(library)
    &&& fragment.package_name@ == selection.package@
    &&& fragment.crate_name@ == crate_name_of(library@)
    &&& fragment.compilation_target@ == target
    &&& fragment.product_root_kind != Some(ProductionTargetKind::Binary)
}

/// Whether some fragment compiles the library of a selection.
pub open spec fn library_compiled(fragments: Seq<Fragment>, selection: ProductionSelection, target: Seq<char>) -> bool {
    exists|i: int| 0 <= i < fragments.len() && compiles_library(#[trigger] fragments[i], selection, target)
}

/// Whether some selection's library is compiled by the fragment.
pub open spec fn is_library_root(fragment: Fragment, selections: Seq<ProductionSelection>, target: Seq<char>) -> bool {
    exists|s: int| 0 <= s < selections.len() && compiles_library(fragment, #[trigger] selections[s], target)
}

/// A fragment with what the run settles about it: it consumes the workspace outside
/// production unless its package is a production consumer, and it is a library product root
/// when it compiles a configured library.
pub open spec fn settled(fragment: Fragment, consumers: Seq<Seq<char>>, library_root: bool) -> Fragment {
    Fragment {
        non_production_consumer: fragment.non_production_consumer || !consumers.contains(fragment.package_name@),
        is_product_root: fragment.is_product_root || library_root,
        product_root_kind: if library_root { Some(ProductionTargetKind::Library) } else { fragment.product_root_kind },
        ..fragment
    }
}

fn matches_library(fragment: &Fragment, selection: &ProductionSelection, library: &str, target: &str) -> (matched: bool)
    requires
        selection.product matches ProductionProduct::Library(name) && name@ == library@,
    ensures
        matched == compiles_library(*fragment, *selection, target@),
{
    let name = crate_name(library);
    crate::text::str_equals(fragment.package_name.as_str(), selection.package)
        && crate::text::str_equals(fragment.crate_name.as_str(), name.as_str())
        && crate::text::str_equals(fragment.compilation_target.as_str(), target)
        && fragment.product_root_kind != Some(ProductionTargetKind::Binary)
}

fn library_root_of(fragment: &Fragment, selections: &[ProductionSelection], target: &str) -> (root: bool)
    ensures
        root == is_library_root(*fragment, selections@, target@),
{
    let mut s: usize = 0;
    while s < selections.len()
        invariant
            s <= selections@.len(),
            forall|j: int| 0 <= j < s ==> !compiles_library(*fragment, #[trigger] selections@[j], target@),
        decreases selections@.len() - s,
    {
        let selection = &selections[s];
        if let ProductionProduct::Library(library) = selection.product {
            if matches_library(fragment, selection, library.as_str(), target) {
                return true;
            }
        }
        s = s + 1;
    }
    false
}

fn settle(fragment: &mut Fragment, consumers: &Vec<String>, library_root: bool)
    ensures
        *final(fragment) == settled(*old(fragment), texts(consumers@), library_root),
{
    if !crate::settings::contains_text(consumers, fragment.package_name.as_str()) {
        fragment.non_production_consumer = true;
    }
    if library_root {
        fragment.is_product_root = true;
        fragment.product_root_kind = Some(ProductionTargetKind::Library);
    }
}

/// Settles the roles of the fragments a run collected, once each configured library has a
/// production fragment that compiles it for the compilation target; otherwise refused with the
/// first configured library that has none, and nothing is changed.
pub fn settle_fragment_roles(
    production: &mut Vec<Fragment>,
    non_production: &mut Vec<Fragment>,
    selections: &[ProductionSelection],
    consumers: &Vec<String>,
    target: &str,
) -> (result: Result<(), CollectionError>)
    ensures
        match result {
            Ok(()) => {
                &&& forall|s: int| 0 <= s < selections@.len() && (#[trigger] selections@[s]).product is Library ==> library_compiled(
                    old(production)@,
                    selections@[s],
                    target@,
                )
                &&& final(production)@.len() == old(production)@.len()
                &&& forall|i: int| 0 <= i < old(production)@.len() ==> #[trigger] final(production)@[i] == settled(
                    old(production)@[i],
                    texts(consumers@),
                    is_library_root(old(production)@[i], selections@, target@),
                )
                &&& final(non_production)@.len() == old(non_production)@.len()
                &&& forall|i: int| 0 <= i < old(non_production)@.len() ==> #[trigger] final(non_production)@[i] == settled(
                    old(non_production)@[i],
                    texts(consumers@),
                    false,
                )
            },
            Err(CollectionError::MissingLibraryFragment { library, package }) => exists|s: int| {
                &&& 0 <= s < selections@.len()
                &&& (#[trigger] selections@[s]).product matches ProductionProduct::Library(name) && name@ == library@
                &&& package@ == selections@[s].package@
                &&& !library_compiled(old(production)@, selections@[s], target@)
                &&& forall|t: int| 0 <= t < s && (#[trigger] selections@[t]).product is Library ==> library_compiled(
                    old(production)@,
                    selections@[t],
                    target@,
                )
                &&& final(production)@ == old(production)@
                &&& final(non_production)@ == old(non_production)@
            },
            Err(_) => false,
        },
{
    let mut s: usize = 0;
    while s < selections.len()
        invariant
            s <= selections@.len(),
            forall|t: int| 0 <= t < s && (#[trigger] selections@[t]).product is Library ==> library_compiled(production@, selections@[t], target@),
        decreases selections@.len() - s,
    {
        let selection = &selections[s];
        if let ProductionProduct::Library(library) = selection.product {
            let mut i: usize = 0;
            let mut found = false;
            while i < production.len() && !found
                invariant
                    i <= production@.len(),
                    selection.product matches ProductionProduct::Library(name) && name@ == library@,
                    found ==> library_compiled(production@, *selection, target@),
                    !found ==> forall|j: int| 0 <= j < i ==> !compiles_library(#[trigger] production@[j], *selection, target@),
                decreases production@.len() - i, if found { 0int } else { 1int },
            {
                if matches_library(&production[i], selection, library.as_str(), target) {
                    found = true;
                } else {
                    i = i + 1;
                }
            }
            if !found {
                return Err(CollectionError::MissingLibraryFragment { library: library.clone(), package: selection.package.to_string() });
            }
        }
        s = s + 1;
    }
    let ghost old_production = production@;
    let mut i: usize = 0;
    while i < production.len()
        invariant
            i <= production@.len(),
            production@.len() == old_production.len(),
            forall|j: int| i <= j < old_production.len() ==> production@[j] == old_production[j],
            forall|j: int| 0 <= j < i ==> #[trigger] production@[j] == settled(
                old_production[j],
                texts(consumers@),
                is_library_root(old_production[j], selections@, target@),
            ),
        decreases old_production.len() - i,
    {
        let root = library_root_of(&production[i], selections, target);
        settle(&mut production[i], consumers, root);
        i = i + 1;
    }
    let ghost old_non_production = non_production@;
    let mut i: usize = 0;
    while i < non_production.len()
        invariant
            i <= non_production@.len(),
            non_production@.len() == old_non_production.len(),
            forall|j: int| i <= j < old_non_production.len() ==> non_production@[j] == old_non_production[j],
            forall|j: int| 0 <= j < i ==> #[trigger] non_production@[j] == settled(old_non_production[j], texts(consumers@), false),
        decreases old_non_production.len() - i,
    {
        settle(&mut non_production[i], consumers, false);
        i = i + 1;
    }
    Ok(())
}

/// Checks that some production fragment of a feature profile is a product root; refused
/// with the profile's name otherwise.
pub fn check_product_roots(production: &[Fragment], profile: &str) -> (result: Result<(), CollectionError>)
    ensures
        match result {
            Ok(()) => exists|i: int| 0 <= i < production@.len() && (#[trigger] production@[i]).is_product_root,
            Err(CollectionError::MissingProductFragment { profile: named }) => {
                &&& named@ == profile@
                &&& forall|i: int| 0 <= i < production@.len() ==> !(#[trigger] production@[i]).is_product_root
            },
            Err(_) => false,
        },
{
    let mut i: usize = 0;
    while i < production.len()
        invariant
            i <= production@.len(),
            forall|j: int| 0 <= j < i ==> !(#[trigger] production@[j]).is_product_root,
        decreases production@.len() - i,
    {
        if production[i].is_product_root {
            return Ok(());
        }
        i = i + 1;
    }
    Err(CollectionError::MissingProductFragment { profile: profile.to_string() })
}

/// The words of a text: its longest runs of characters that are not whitespace, in order.
pub open spec fn split_words(text: Seq<char>) -> Seq<Seq<char>>
    decreases text.len(),
{
    if text.len() == 0 {
        Seq::empty()
    } else {
        let earlier = split_words(text.drop_last());
        let last = text.last();
        if whitespace(last) {
            earlier
        } else if text.len() >= 2 && !whitespace(text[text.len() - 2]) {
            earlier.drop_last().push(earlier.last().push(last))
        } else {
            earlier.push(seq![last])
        }
    }
}

/// The separator of encoded rustdoc flags.
pub open spec fn flag_separator() -> char {
    '\u{1f}'
}

/// Encoded flags with one more flag: after a separator, unless there was none.
pub open spec fn push_flag(flags: Seq<char>, flag: Seq<char>) -> Seq<char> {
    if flags.len() == 0 {
        flag
    } else {
        flags + seq![flag_separator()] + flag
    }
}

/// Encoded flags with each of `words` pushed in order.
pub open spec fn push_flags(flags: Seq<char>, words: Seq<Seq<char>>) -> Seq<char>
    decreases words.len(),
{
    if words.len() == 0 {
        flags
    } else {
        push_flag(push_flags(flags, words.drop_last()), words.last())
    }
}

/// The flags that make rustdoc build doctests without running them, through the driver.
pub open spec fn doctest_flags(executable: Seq<char>) -> Seq<Seq<char>> {
    seq!["-Zunstable-options"@, "--no-run"@, "--test-builder-wrapper"@, executable]
}

/// The encoded rustdoc flags of a doctest build: the encoded flags the environment gives, else
/// the words of its plain flags, then the flags that route doctest builds through the driver.
pub open spec fn doctest_rustdoc_flags_text(encoded: Option<Seq<char>>, plain: Option<Seq<char>>, executable: Seq<char>) -> Seq<char> {
    let start = match encoded {
        Some(flags) => flags,
        None => match plain {
            Some(flags) => push_flags(Seq::empty(), split_words(flags)),
            None => Seq::empty(),
        },
    };
    push_flags(start, doctest_flags(executable))
}

/// Appends one flag to encoded flags.
pub fn push_encoded_rustdoc_flag(flags: &mut String, flag: &str)
    ensures
        final(flags)@ == push_flag(old(flags)@, flag@),
{
    if flags.unicode_len() > 0 {
        proof {
            reveal_strlit("\u{1f}");
        }
        flags.append("\u{1f}");
    }
    flags.append(flag);
    proof {
        assert(final(flags)@ =~= push_flag(old(flags)@, flag@));
    }
}

/// The words of a text, each once where it stands.
pub fn whitespace_words(text: &str) -> (words: Vec<String>)
    ensures
        texts(words@) == split_words(text@),
{
    let length = text.unicode_len();
    let mut words: Vec<String> = Vec::new();
    let mut current = String::new();
    let mut k: usize = 0;
    while k < length
        invariant
            length == text@.len(),
            k <= length,
            (current@.len() > 0) == (k > 0 && !whitespace(text@[k - 1])),
            if current@.len() > 0 { texts(words@).push(current@) == split_words(text@.take(k as int)) } else { texts(words@) == split_words(text@.take(k as int)) },
        decreases length - k,
    {
        let c = text.get_char(k);
        let ghost prefix = text@.take(k + 1);
        proof {
            assert(prefix.drop_last() =~= text@.take(k as int));
            assert(prefix.last() == c);
        }
        if crate::settings::is_whitespace_char(c) {
            if current.unicode_len() > 0 {
                let ghost before = texts(words@);
                words.push(current);
                current = String::new();
                proof {
                    assert(texts(words@) =~= before.push(words@.last()@));
                }
            }
        } else {
            let ghost before = current@;
            let piece = text.substring_char(k, k + 1);
            proof {
                assert(piece@ =~= seq![c]);
            }
            current.append(piece);
            proof {
                if before.len() > 0 {
                    assert(prefix[prefix.len() - 2] == text@[k - 1]);
                    assert(split_words(text@.take(k as int)).drop_last() =~= texts(words@));
                    assert(current@ =~= before.push(c));
                    assert(texts(words@).push(current@) =~= split_words(text@.take(k as int)).drop_last().push(before.push(c)));
                } else {
                    assert(texts(words@).push(current@) =~= split_words(text@.take(k as int)).push(seq![c]));
                }
            }
        }
        k = k + 1;
    }
    proof {
        assert(text@.take(length as int) =~= text@);
    }
    if current.unicode_len() > 0 {
        words.push(current);
        proof {
            assert(texts(words@) =~= split_words(text@));
        }
    }
    words
}

/// The encoded rustdoc flags of a doctest build, from the encoded and plain flags that the
/// environment gives and the path of the driver executable.
pub fn doctest_rustdoc_flags(encoded: Option<&str>, plain: Option<&str>, executable: &str) -> (flags: String)
    ensures
        flags@ == doctest_rustdoc_flags_text(
            match encoded {
                Some(flags) => Some(flags@),
                None => None,
            },
            match plain {
                Some(flags) => Some(flags@),
                None => None,
            },
            executable@,
        ),
{
    let mut flags = String::new();
    match encoded {
        Some(given) => {
            flags.append(given);
        },
        None => {
            if let Some(plain) = plain {
                let words = whitespace_words(plain);
                let mut k: usize = 0;
                while k < words.len()
                    invariant
                        k <= words@.len(),
                        flags@ == push_flags(Seq::empty(), texts(words@).take(k as int)),
                    decreases words@.len() - k,
                {
                    push_encoded_rustdoc_flag(&mut flags, words[k].as_str());
                    proof {
                        assert(texts(words@).take(k + 1).drop_last() =~= texts(words@).take(k as int));
                    }
                    k = k + 1;
                }
                proof {
                    assert(texts(words@).take(words@.len() as int) =~= texts(words@));
                }
            }
        },
    }
    let ghost start = flags@;
    let ghost all = doctest_flags(executable@);
    push_encoded_rustdoc_flag(&mut flags, "-Zunstable-options");
    proof {
        assert(all.take(1).drop_last() =~= Seq::<Seq<char>>::empty());
        assert(push_flags(start, Seq::<Seq<char>>::empty()) == start);
        assert(all.take(1).last() == "-Zunstable-options"@);
        assert(flags@ == push_flags(start, all.take(1)));
    }
    push_encoded_rustdoc_flag(&mut flags, "--no-run");
    proof {
        assert(all.take(2).drop_last() =~= all.take(1));
        assert(flags@ == push_flags(start, all.take(2)));
    }
    push_encoded_rustdoc_flag(&mut flags, "--test-builder-wrapper");
    proof {
        assert(all.take(3).drop_last() =~= all.take(2));
        assert(flags@ == push_flags(start, all.take(3)));
    }
    push_encoded_rustdoc_flag(&mut flags, executable);
    proof {
        assert(all.drop_last() =~= all.take(3));
        assert(flags@ == push_flags(start, all));
    }
    flags
}

} // verus!
