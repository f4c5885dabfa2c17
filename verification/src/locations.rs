//! Where a run keeps its build output when no target directory is given: one directory per
//! workspace, named after the workspace and a hash of its root path; and where a crate root
//! that a compilation reports lies, resolved lexically against the workspace root.

use vstd::prelude::*;
use vstd::string::StringSliceAdditionalSpecFns;
use crate::settings::texts;

verus! {

broadcast use vstd::utf8::group_utf8_lib;

/// The longest name a target directory component may have, in bytes; below the component
/// limits of the file systems the tool supports.
pub const TARGET_DIR_COMPONENT_MAX_BYTES: usize = 240;

/// The largest character boundary of `bytes` at or below `i`.
pub open spec fn boundary_at_most(bytes: Seq<u8>, i: int) -> int
    decreases i,
{
    if i <= 0 {
        0
    } else if vstd::utf8::is_char_boundary(bytes, i) {
        i
    } else {
        boundary_at_most(bytes, i - 1)
    }
}

/// The target directory component of a workspace: as much of its name (`workspace` when it
/// has none) as fits, cut at a character boundary, then `-` and the sixteen hexadecimal digits
/// of the hash of its root path.
pub open spec fn target_dir_component_text(name: Seq<char>, hash: u64) -> Seq<char> {
    let bytes = vstd::utf8::encode_utf8(name);
    let limit = if bytes.len() < TARGET_DIR_COMPONENT_MAX_BYTES - 17 { bytes.len() as int } else { TARGET_DIR_COMPONENT_MAX_BYTES - 17 };
    vstd::utf8::decode_utf8(bytes.subrange(0, boundary_at_most(bytes, limit))) + seq!['-'] + crate::text::hex_digits(hash as nat, 16)
}

/// The name of the directory, under the shared target directory root, that keeps a
/// workspace's build output: its name cut to fit, and the hash of its root path.
pub fn target_dir_component(workspace_name: Option<&str>, hash: u64) -> (component: String)
    ensures
        component@ == target_dir_component_text(
            match workspace_name {
                Some(name) => name@,
                None => "workspace"@,
            },
            hash,
        ),
{
    let name: &str = match workspace_name {
        Some(name) => name,
        None => "workspace",
    };
    let ghost bytes = name.spec_bytes();
    let limit: usize = TARGET_DIR_COMPONENT_MAX_BYTES - 17;
    let length = name.as_bytes().len();
    let mut end: usize = if length < limit { length } else { limit };
    let ghost start = end as int;
    proof {
        vstd::utf8::encode_utf8_valid_utf8(name@);
    }
    while !name.is_char_boundary(end)
        invariant
            bytes == name.spec_bytes(),
            vstd::utf8::valid_utf8(bytes),
            0 <= end <= start <= bytes.len(),
            boundary_at_most(bytes, start) == boundary_at_most(bytes, end as int),
        decreases end,
    {
        proof {
            if end == 0 {
                assert(vstd::utf8::is_char_boundary(bytes, 0));
            }
        }
        end = end - 1;
    }
    proof {
        assert(boundary_at_most(bytes, end as int) == end as int);
        assert(boundary_at_most(bytes, start) == end as int);
    }
    let (prefix, _) = name.split_at(end);
    let mut component = String::new();
    component.append(prefix);
    proof {
        reveal_strlit("-");
        vstd::utf8::encode_utf8_decode_utf8(prefix@);
        assert(prefix@ == vstd::utf8::decode_utf8(bytes.subrange(0, end as int)));
    }
    let ghost with_prefix = component@;
    component.append("-");
    let ghost with_dash = component@;
    crate::text::push_hex(&mut component, hash, 16);
    proof {
        assert(with_prefix == prefix@);
        assert("-"@ == seq!['-']);
        assert(with_dash == prefix@ + seq!['-']);
        assert(component@ == prefix@ + seq!['-'] + crate::text::hex_digits(hash as nat, 16));
        assert(component@ =~= target_dir_component_text(name@, hash));
    }
    component
}

pub(crate) proof fn lemma_encode_concat(a: Seq<char>, b: Seq<char>)
    ensures
        vstd::utf8::encode_utf8(a + b) == vstd::utf8::encode_utf8(a) + vstd::utf8::encode_utf8(b),
    decreases a.len(),
{
    if a.len() == 0 {
        assert(a + b =~= b);
        assert(vstd::utf8::encode_utf8(a) + vstd::utf8::encode_utf8(b) =~= vstd::utf8::encode_utf8(b));
    } else {
        assert((a + b).drop_first() =~= a.drop_first() + b);
        assert((a + b)[0] == a[0]);
        lemma_encode_concat(a.drop_first(), b);
        assert(vstd::utf8::encode_utf8(a + b) =~= vstd::utf8::encode_utf8(a) + vstd::utf8::encode_utf8(b));
    }
}

proof fn lemma_hex_digits_ascii(v: nat, n: nat)
    ensures
        crate::text::hex_digits(v, n).len() == n,
        vstd::utf8::is_ascii_chars(crate::text::hex_digits(v, n)),
    decreases n,
{
    if n > 0 {
        lemma_hex_digits_ascii(v / 16, (n - 1) as nat);
    }
}

proof fn lemma_boundary_at_most(bytes: Seq<u8>, i: int)
    requires
        vstd::utf8::valid_utf8(bytes),
        i <= bytes.len(),
    ensures
        0 <= boundary_at_most(bytes, i),
        i >= 0 ==> boundary_at_most(bytes, i) <= i,
        vstd::utf8::is_char_boundary(bytes, boundary_at_most(bytes, i)),
    decreases i,
{
    vstd::utf8::is_char_boundary_start_end_of_seq(bytes);
    if i > 0 && !vstd::utf8::is_char_boundary(bytes, i) {
        lemma_boundary_at_most(bytes, i - 1);
    }
}

/// A target directory component never exceeds the component limit in bytes, and it keeps the
/// whole workspace name when the name fits beside the hash.
pub proof fn lemma_target_dir_component_fits(name: Seq<char>, hash: u64)
    ensures
        vstd::utf8::encode_utf8(target_dir_component_text(name, hash)).len() <= TARGET_DIR_COMPONENT_MAX_BYTES,
        vstd::utf8::encode_utf8(name).len() <= TARGET_DIR_COMPONENT_MAX_BYTES - 17 ==> target_dir_component_text(name, hash)
            == name + seq!['-'] + crate::text::hex_digits(hash as nat, 16),
{
    let bytes = vstd::utf8::encode_utf8(name);
    vstd::utf8::encode_utf8_valid_utf8(name);
    let limit = if bytes.len() < TARGET_DIR_COMPONENT_MAX_BYTES - 17 { bytes.len() as int } else { TARGET_DIR_COMPONENT_MAX_BYTES - 17 };
    let end = boundary_at_most(bytes, limit);
    lemma_boundary_at_most(bytes, limit);
    let prefix_bytes = bytes.subrange(0, end);
    vstd::utf8::valid_utf8_split(bytes, end);
    vstd::utf8::decode_utf8_encode_utf8(prefix_bytes);
    let prefix = vstd::utf8::decode_utf8(prefix_bytes);
    let tail = seq!['-'] + crate::text::hex_digits(hash as nat, 16);
    lemma_hex_digits_ascii(hash as nat, 16);
    assert(vstd::utf8::is_ascii_chars(tail));
    vstd::utf8::is_ascii_chars_encode_utf8(tail);
    assert(target_dir_component_text(name, hash) =~= prefix + tail);
    lemma_encode_concat(prefix, tail);
    if bytes.len() <= TARGET_DIR_COMPONENT_MAX_BYTES - 17 {
        vstd::utf8::is_char_boundary_start_end_of_seq(bytes);
        assert(end == bytes.len());
        assert(prefix_bytes =~= bytes);
        vstd::utf8::encode_utf8_decode_utf8(name);
        assert(target_dir_component_text(name, hash) =~= name + seq!['-'] + crate::text::hex_digits(hash as nat, 16));
    }
}

proof fn lemma_hex_char_injective(a: nat, b: nat)
    requires
        a < 16,
        b < 16,
        crate::text::hex_char(a) == crate::text::hex_char(b),
    ensures
        a == b,
{
}

proof fn lemma_hex_digits_injective(a: nat, b: nat, n: nat)
    requires
        crate::text::hex_digits(a, n) == crate::text::hex_digits(b, n),
    ensures
        a % (vstd::arithmetic::power::pow(16, n) as nat) == b % (vstd::arithmetic::power::pow(16, n) as nat),
    decreases n,
{
    vstd::arithmetic::power::lemma_pow_positive(16, n);
    if n == 0 {
        assert(vstd::arithmetic::power::pow(16, 0) == 1) by {
            reveal(vstd::arithmetic::power::pow);
        }
        assert(a % 1 == 0 && b % 1 == 0);
    } else {
        let da = crate::text::hex_digits(a, n);
        let db = crate::text::hex_digits(b, n);
        assert(da.last() == crate::text::hex_char(a % 16));
        assert(db.last() == crate::text::hex_char(b % 16));
        lemma_hex_char_injective(a % 16, b % 16);
        assert(da.drop_last() =~= crate::text::hex_digits(a / 16, (n - 1) as nat));
        assert(db.drop_last() =~= crate::text::hex_digits(b / 16, (n - 1) as nat));
        lemma_hex_digits_injective(a / 16, b / 16, (n - 1) as nat);
        let rest = vstd::arithmetic::power::pow(16, (n - 1) as nat);
        vstd::arithmetic::power::lemma_pow_positive(16, (n - 1) as nat);
        assert(vstd::arithmetic::power::pow(16, n) == 16 * rest) by {
            reveal(vstd::arithmetic::power::pow);
        }
        vstd::arithmetic::div_mod::lemma_breakdown(a as int, 16, rest);
        vstd::arithmetic::div_mod::lemma_breakdown(b as int, 16, rest);
    }
}

/// Workspaces with the same name whose root paths hash differently get different target
/// directory components.
pub proof fn lemma_target_dir_components_differ(name: Seq<char>, first: u64, second: u64)
    requires
        first != second,
    ensures
        target_dir_component_text(name, first) != target_dir_component_text(name, second),
{
    let bytes = vstd::utf8::encode_utf8(name);
    let limit = if bytes.len() < TARGET_DIR_COMPONENT_MAX_BYTES - 17 { bytes.len() as int } else { TARGET_DIR_COMPONENT_MAX_BYTES - 17 };
    let prefix = vstd::utf8::decode_utf8(bytes.subrange(0, boundary_at_most(bytes, limit)));
    let a = target_dir_component_text(name, first);
    let b = target_dir_component_text(name, second);
    lemma_hex_digits_ascii(first as nat, 16);
    lemma_hex_digits_ascii(second as nat, 16);
    if a == b {
        assert(a.len() == prefix.len() + 17);
        assert(a.skip(prefix.len() as int + 1) =~= crate::text::hex_digits(first as nat, 16));
        assert(b.skip(prefix.len() as int + 1) =~= crate::text::hex_digits(second as nat, 16));
        lemma_hex_digits_injective(first as nat, second as nat, 16);
        assert(vstd::arithmetic::power::pow(16, 16) == 0x1_0000_0000_0000_0000) by {
            reveal_with_fuel(vstd::arithmetic::power::pow, 17);
        }
        assert(first as nat % 0x1_0000_0000_0000_0000nat == first as nat);
        assert(second as nat % 0x1_0000_0000_0000_0000nat == second as nat);
    }
}

/// What lexical resolution keeps of the components so far after one more component: an empty
/// component or `.` changes nothing, `..` drops the last kept component if there is one, and
/// any other component is kept.
pub open spec fn settle_component(kept: Seq<Seq<char>>, component: Seq<char>) -> Seq<Seq<char>> {
    if component.len() == 0 || component == seq!['.'] {
        kept
    } else if component == seq!['.', '.'] {
        if kept.len() > 0 {
            kept.drop_last()
        } else {
            kept
        }
    } else {
        kept.push(component)
    }
}

/// The components kept so far of a path read up to its end, and the component being read.
pub open spec fn scan_path(path: Seq<char>) -> (Seq<Seq<char>>, Seq<char>)
    decreases path.len(),
{
    if path.len() == 0 {
        (Seq::empty(), Seq::empty())
    } else {
        let scanned = scan_path(path.drop_last());
        if path.last() == '/' {
            (settle_component(scanned.0, scanned.1), Seq::empty())
        } else {
            (scanned.0, scanned.1.push(path.last()))
        }
    }
}

/// The components of a path, `/`-separated, that lexical resolution keeps.
pub open spec fn lexical_components(path: Seq<char>) -> Seq<Seq<char>> {
    settle_component(scan_path(path).0, scan_path(path).1)
}

/// A path resolved lexically: `.` components dropped, each `..` taking away the component
/// before it, and repeated separators merged; an absolute path stays absolute.
pub open spec fn lexical_path(path: Seq<char>) -> Seq<char> {
    (if path.len() > 0 && path[0] == '/' { seq!['/'] } else { Seq::empty() }) + crate::catalog::joined(
        lexical_components(path),
        seq!['/'],
    )
}

/// Where a crate root that a compilation reports lies: the root as reported when it is
/// absolute, else under the workspace root, resolved lexically.
pub open spec fn lexically_resolved(workspace_root: Seq<char>, crate_root: Seq<char>) -> Seq<char> {
    lexical_path(crate::render::resolved_source_path(workspace_root, crate_root))
}

/// Keeps one more component of a path under lexical resolution.
fn settle_into(kept: &mut Vec<String>, component: String)
    ensures
        texts(final(kept)@) == settle_component(texts(old(kept)@), component@),
{
    proof {
        reveal_strlit(".");
        reveal_strlit("..");
        assert("."@ =~= seq!['.']);
        assert(".."@ =~= seq!['.', '.']);
    }
    if component.unicode_len() == 0 || crate::text::str_equals(component.as_str(), ".") {
    } else if crate::text::str_equals(component.as_str(), "..") {
        if kept.len() > 0 {
            let ghost before = kept@;
            kept.pop();
            proof {
                assert(texts(kept@) =~= texts(before).drop_last());
            }
        }
    } else {
        let ghost before = kept@;
        kept.push(component);
        proof {
            assert(texts(kept@) =~= texts(before).push(component@));
        }
    }
}

/// Resolves a path lexically.
pub fn resolve_lexically(path: &str) -> (resolved: String)
    ensures
        resolved@ == lexical_path(path@),
{
    let length = path.unicode_len();
    let mut kept: Vec<String> = Vec::new();
    let mut current = String::new();
    let mut k: usize = 0;
    while k < length
        invariant
            length == path@.len(),
            k <= length,
            scan_path(path@.take(k as int)) == (texts(kept@), current@),
        decreases length - k,
    {
        let c = path.get_char(k);
        proof {
            assert(path@.take(k + 1).drop_last() =~= path@.take(k as int));
            assert(path@.take(k + 1).last() == c);
        }
        if c == '/' {
            let component = current;
            current = String::new();
            settle_into(&mut kept, component);
        } else {
            let ghost before = current@;
            let piece = path.substring_char(k, k + 1);
            proof {
                assert(piece@ =~= seq![c]);
            }
            current.append(piece);
            proof {
                assert(current@ =~= before.push(c));
            }
        }
        k = k + 1;
    }
    proof {
        assert(path@.take(length as int) =~= path@);
    }
    settle_into(&mut kept, current);
    let ghost words = texts(kept@);
    let mut resolved = String::new();
    proof {
        reveal_strlit("/");
    }
    if length > 0 && path.get_char(0) == '/' {
        resolved.append("/");
    }
    let ghost start = resolved@;
    let mut k: usize = 0;
    while k < kept.len()
        invariant
            words == texts(kept@),
            words == lexical_components(path@),
            start == (if path@.len() > 0 && path@[0] == '/' { seq!['/'] } else { Seq::<char>::empty() }),
            "/"@ == seq!['/'],
            k <= kept@.len(),
            resolved@ == start + crate::catalog::joined(words.take(k as int), seq!['/']),
        decreases kept@.len() - k,
    {
        if k > 0 {
            resolved.append("/");
        }
        resolved.append(kept[k].as_str());
        proof {
            let next = words.take(k + 1);
            assert(next.drop_last() =~= words.take(k as int));
            assert(next.last() == kept@[k as int]@);
            if k == 0 {
                assert(crate::catalog::joined(next, seq!['/']) == next[0]);
            }
            assert(resolved@ =~= start + crate::catalog::joined(next, seq!['/']));
        }
        k = k + 1;
    }
    proof {
        assert(words.take(kept@.len() as int) =~= words);
    }
    resolved
}

/// Where a crate root that a compilation reports lies, resolved lexically against the
/// workspace root.
pub fn resolve_crate_root(workspace_root: &str, crate_root: &str) -> (root: String)
    ensures
        root@ == lexically_resolved(workspace_root@, crate_root@),
{
    let joined = crate::render::resolve_source_path(workspace_root, crate_root);
    resolve_lexically(joined.as_str())
}

} // verus!
