//! The order in which findings are reported: by source position, crate, name, and kind.

use std::cmp::Ordering;

use vstd::prelude::*;
use vstd::string::StringSliceAdditionalSpecFns;
use crate::model::{DefinitionKind, Finding, FindingKind, FindingView, finding_views};
use crate::equivalence::kind_number;

verus! {

/// The lexicographic order of byte strings: negative, zero, or positive.
pub open spec fn bytes_order(a: Seq<u8>, b: Seq<u8>) -> int
    decreases a.len(),
{
    if a.len() == 0 {
        if b.len() == 0 { 0 } else { -1 }
    } else if b.len() == 0 {
        1
    } else if a[0] < b[0] {
        -1
    } else if a[0] > b[0] {
        1
    } else {
        bytes_order(a.drop_first(), b.drop_first())
    }
}

/// The order of two integers: negative, zero, or positive.
pub open spec fn int_order(a: int, b: int) -> int {
    if a < b { -1 } else if a > b { 1 } else { 0 }
}

/// The order of texts, by their UTF-8 bytes.
pub open spec fn text_order(a: Seq<char>, b: Seq<char>) -> int {
    bytes_order(vstd::utf8::encode_utf8(a), vstd::utf8::encode_utf8(b))
}

/// The rank of a finding kind in its declaration order.
pub open spec fn finding_rank(kind: FindingKind) -> int {
    match kind {
        FindingKind::DeadPublic => 0,
        FindingKind::UnnecessaryPublic => 1,
        FindingKind::UnnecessaryRestrictedVisibility => 2,
        FindingKind::UnnecessaryCrateVisibility => 3,
        FindingKind::TestOnly => 4,
    }
}

/// The file of a finding's definition, or the empty text without a span.
pub open spec fn finding_file(finding: FindingView) -> Seq<char> {
    match finding.definition.span {
        Some(span) => span.file@,
        None => Seq::empty(),
    }
}

pub open spec fn finding_line(finding: FindingView) -> int {
    match finding.definition.span {
        Some(span) => span.line as int,
        None => 0,
    }
}

pub open spec fn finding_column(finding: FindingView) -> int {
    match finding.definition.span {
        Some(span) => span.column as int,
        None => 0,
    }
}

/// The report order of two findings: by file, line, column, crate, name, definition kind,
/// and finding kind.
pub open spec fn finding_order(x: FindingView, y: FindingView) -> int {
    let file = text_order(finding_file(x), finding_file(y));
    let line = int_order(finding_line(x), finding_line(y));
    let column = int_order(finding_column(x), finding_column(y));
    let crate_name = text_order(x.definition.crate_name@, y.definition.crate_name@);
    let name = text_order(x.definition.name@, y.definition.name@);
    let definition_kind = int_order(kind_number(x.definition.kind) as int, kind_number(y.definition.kind) as int);
    let finding_kind = int_order(finding_rank(x.kind), finding_rank(y.kind));
    if file != 0 {
        file
    } else if line != 0 {
        line
    } else if column != 0 {
        column
    } else if crate_name != 0 {
        crate_name
    } else if name != 0 {
        name
    } else if definition_kind != 0 {
        definition_kind
    } else {
        finding_kind
    }
}

/// `p` arranges `input` into `output`, sorted by the report order, with findings that the
/// order does not tell apart kept in their input order.
pub open spec fn arranges(input: Seq<FindingView>, output: Seq<FindingView>, p: Seq<int>) -> bool {
    &&& p.len() == input.len()
    &&& output.len() == input.len()
    &&& forall|i: int| 0 <= i < p.len() ==> 0 <= #[trigger] p[i] < input.len() && output[i] == input[p[i]]
    &&& forall|i: int, j: int| 0 <= i < j < p.len() ==> #[trigger] p[i] != #[trigger] p[j]
    &&& forall|i: int, j: int| 0 <= i < j < output.len() ==> finding_order(#[trigger] output[i], #[trigger] output[j]) <= 0
    &&& forall|i: int, j: int| 0 <= i < j < output.len() && finding_order(#[trigger] output[i], #[trigger] output[j]) == 0 ==> p[i] < p[j]
}

/// `output` is `input` stably sorted by the report order.
pub open spec fn sorted_stably(input: Seq<FindingView>, output: Seq<FindingView>) -> bool {
    exists|p: Seq<int>| #[trigger] arranges(input, output, p)
}

/// Comparing the other way round gives the opposite order.
proof fn lemma_bytes_order_flips(a: Seq<u8>, b: Seq<u8>)
    ensures
        bytes_order(b, a) == -bytes_order(a, b),
    decreases a.len(),
{
    if a.len() > 0 && b.len() > 0 && a[0] == b[0] {
        lemma_bytes_order_flips(a.drop_first(), b.drop_first());
    }
}

/// The report order compared the other way round gives the opposite order.
pub proof fn lemma_finding_order_flips(x: FindingView, y: FindingView)
    ensures
        finding_order(y, x) == -finding_order(x, y),
{
    lemma_bytes_order_flips(vstd::utf8::encode_utf8(finding_file(x)), vstd::utf8::encode_utf8(finding_file(y)));
    lemma_bytes_order_flips(vstd::utf8::encode_utf8(x.definition.crate_name@), vstd::utf8::encode_utf8(y.definition.crate_name@));
    lemma_bytes_order_flips(vstd::utf8::encode_utf8(x.definition.name@), vstd::utf8::encode_utf8(y.definition.name@));
}

/// Every position of the input is placed somewhere in an arrangement.
proof fn lemma_arrangement_onto(input: Seq<FindingView>, output: Seq<FindingView>, p: Seq<int>, m: int)
    requires
        arranges(input, output, p),
        0 <= m < input.len(),
    ensures
        exists|i: int| 0 <= i < p.len() && p[i] == m,
{
    assert(p.no_duplicates()) by {
        assert forall|i: int, j: int| 0 <= i < p.len() && 0 <= j < p.len() && i != j implies p[i] != p[j] by {
            if i < j {
                assert(p[i] != p[j]);
            } else {
                assert(p[j] != p[i]);
            }
        }
    }
    p.unique_seq_to_set();
    vstd::set_lib::lemma_int_range(0, input.len() as int);
    let range = vstd::set_lib::set_int_range(0, input.len() as int);
    assert(p.to_set().subset_of(range)) by {
        assert forall|v: int| p.to_set().contains(v) implies range.contains(v) by {
            let i = choose|i: int| 0 <= i < p.len() && p[i] == v;
            assert(0 <= p[i] < input.len());
        }
    }
    p.lemma_cardinality_of_set();
    vstd::set_lib::lemma_subset_equality(p.to_set(), range);
    assert(range.contains(m));
    assert(p.to_set().contains(m));
}

/// Two arrangements of the same input agree on their first `n` positions.
proof fn lemma_arrangements_agree(input: Seq<FindingView>, a: Seq<FindingView>, p: Seq<int>, b: Seq<FindingView>, q: Seq<int>, n: int)
    requires
        arranges(input, a, p),
        arranges(input, b, q),
        0 <= n <= input.len(),
    ensures
        forall|l: int| 0 <= l < n ==> p[l] == q[l],
    decreases n,
{
    if n > 0 {
        lemma_arrangements_agree(input, a, p, b, q, n - 1);
        let m = n - 1;
        if p[m] != q[m] {
            let x = p[m];
            let y = q[m];
            assert(0 <= x < input.len() && 0 <= y < input.len());
            lemma_arrangement_onto(input, a, p, y);
            lemma_arrangement_onto(input, b, q, x);
            let j = choose|i: int| 0 <= i < p.len() && p[i] == y;
            let k = choose|i: int| 0 <= i < q.len() && q[i] == x;
            if j < m {
                assert(p[j] == q[j]);
                assert(q[j] != q[m]);
            }
            if k < m {
                assert(p[k] == q[k]);
                assert(p[k] != p[m]);
            }
            assert(m < j && m < k);
            assert(a[m] == input[x] && a[j] == input[y]);
            assert(b[m] == input[y] && b[k] == input[x]);
            assert(finding_order(a[m], a[j]) <= 0);
            assert(finding_order(b[m], b[k]) <= 0);
            lemma_finding_order_flips(input[x], input[y]);
            assert(finding_order(a[m], a[j]) == 0);
            assert(p[m] < p[j]);
            assert(q[m] < q[k]);
        }
    }
}

/// Sorting stably by the report order has one result: two stable sorts of the same findings
/// are the same sequence.
pub proof fn lemma_stable_sort_unique(input: Seq<FindingView>, a: Seq<FindingView>, b: Seq<FindingView>)
    requires
        sorted_stably(input, a),
        sorted_stably(input, b),
    ensures
        a == b,
{
    let p = choose|p: Seq<int>| #[trigger] arranges(input, a, p);
    let q = choose|q: Seq<int>| #[trigger] arranges(input, b, q);
    lemma_arrangements_agree(input, a, p, b, q, input.len() as int);
    assert forall|i: int| 0 <= i < a.len() implies a[i] == b[i] by {
        assert(p[i] == q[i]);
    }
    assert(a =~= b);
}

/// What a stable sort holds is what its input holds: each output finding is an input finding,
/// and each input finding is somewhere in the output.
pub proof fn lemma_stable_sort_keeps(input: Seq<FindingView>, output: Seq<FindingView>)
    requires
        sorted_stably(input, output),
    ensures
        output.len() == input.len(),
        forall|i: int| 0 <= i < output.len() ==> input.contains(#[trigger] output[i]),
        forall|m: int| 0 <= m < input.len() ==> output.contains(#[trigger] input[m]),
{
    let p = choose|p: Seq<int>| #[trigger] arranges(input, output, p);
    assert forall|i: int| 0 <= i < output.len() implies input.contains(#[trigger] output[i]) by {
        assert(input[p[i]] == output[i]);
    }
    assert forall|m: int| 0 <= m < input.len() implies output.contains(#[trigger] input[m]) by {
        lemma_arrangement_onto(input, output, p, m);
        let i = choose|i: int| 0 <= i < p.len() && p[i] == m;
        assert(output[i] == input[m]);
    }
}

/// How many of the first `m` findings satisfy `keep`.
pub open spec fn kept_before(findings: Seq<FindingView>, keep: spec_fn(FindingView) -> bool, m: int) -> int {
    findings.take(m).filter(keep).len() as int
}

proof fn lemma_filter_take_step(findings: Seq<FindingView>, keep: spec_fn(FindingView) -> bool, m: int)
    requires
        0 <= m < findings.len(),
    ensures
        findings.take(m + 1).filter(keep) == if keep(findings[m]) {
            findings.take(m).filter(keep).push(findings[m])
        } else {
            findings.take(m).filter(keep)
        },
{
    reveal(Seq::filter);
    assert(findings.take(m + 1).drop_last() =~= findings.take(m));
    assert(findings.take(m + 1).last() == findings[m]);
}

/// The kept findings of a prefix are a prefix of the kept findings of a longer prefix.
proof fn lemma_filter_take_prefix(findings: Seq<FindingView>, keep: spec_fn(FindingView) -> bool, m: int, n: int)
    requires
        0 <= m <= n <= findings.len(),
    ensures
        findings.take(m).filter(keep).len() <= findings.take(n).filter(keep).len(),
        findings.take(n).filter(keep).take(findings.take(m).filter(keep).len() as int) == findings.take(m).filter(keep),
    decreases n - m,
{
    if m < n {
        lemma_filter_take_prefix(findings, keep, m, n - 1);
        lemma_filter_take_step(findings, keep, n - 1);
        let short = findings.take(m).filter(keep);
        let middle = findings.take(n - 1).filter(keep);
        let long = findings.take(n).filter(keep);
        assert(long.take(short.len() as int) =~= middle.take(short.len() as int));
    } else {
        let short = findings.take(m).filter(keep);
        assert(short.take(short.len() as int) =~= short);
    }
}

/// A kept finding sits in the kept sequence after the kept findings before it.
proof fn lemma_kept_position(findings: Seq<FindingView>, keep: spec_fn(FindingView) -> bool, m: int)
    requires
        0 <= m < findings.len(),
        keep(findings[m]),
    ensures
        0 <= kept_before(findings, keep, m) < findings.filter(keep).len(),
        findings.filter(keep)[kept_before(findings, keep, m)] == findings[m],
{
    lemma_filter_take_step(findings, keep, m);
    lemma_filter_take_prefix(findings, keep, m + 1, findings.len() as int);
    assert(findings.take(findings.len() as int) =~= findings);
    let short = findings.take(m + 1).filter(keep);
    let whole = findings.filter(keep);
    assert(whole.take(short.len() as int)[kept_before(findings, keep, m)] == short[kept_before(findings, keep, m)]);
}

/// Kept findings keep their order in the kept sequence.
proof fn lemma_kept_order(findings: Seq<FindingView>, keep: spec_fn(FindingView) -> bool, m1: int, m2: int)
    requires
        0 <= m1 < m2 <= findings.len(),
        keep(findings[m1]),
    ensures
        kept_before(findings, keep, m1) < kept_before(findings, keep, m2),
{
    lemma_filter_take_step(findings, keep, m1);
    lemma_filter_take_prefix(findings, keep, m1 + 1, m2);
}

/// Each place of the kept sequence holds some kept finding.
proof fn lemma_kept_source(findings: Seq<FindingView>, keep: spec_fn(FindingView) -> bool, n: int, r: int)
    requires
        0 <= n <= findings.len(),
        0 <= r < findings.take(n).filter(keep).len(),
    ensures
        exists|m: int| 0 <= m < n && keep(findings[m]) && #[trigger] kept_before(findings, keep, m) == r,
    decreases n,
{
    lemma_filter_take_step(findings, keep, n - 1);
    if r < findings.take(n - 1).filter(keep).len() {
        lemma_kept_source(findings, keep, n - 1, r);
        let m = choose|m: int| 0 <= m < n - 1 && keep(findings[m]) && #[trigger] kept_before(findings, keep, m) == r;
        assert(0 <= m < n && keep(findings[m]) && kept_before(findings, keep, m) == r);
    } else {
        assert(keep(findings[n - 1]) && kept_before(findings, keep, n - 1) == r);
    }
}

/// A sequence of distinct places below `bound` has at most `bound` entries.
proof fn lemma_distinct_places(places: Seq<int>, bound: int)
    requires
        0 <= bound,
        forall|i: int| 0 <= i < places.len() ==> 0 <= #[trigger] places[i] < bound,
        forall|i: int, j: int| 0 <= i < places.len() && 0 <= j < places.len() && i != j ==> places[i] != places[j],
    ensures
        places.len() <= bound,
{
    places.unique_seq_to_set();
    vstd::set_lib::lemma_int_range(0, bound);
    assert(places.to_set().subset_of(vstd::set_lib::set_int_range(0, bound)));
    vstd::set_lib::lemma_len_subset(places.to_set(), vstd::set_lib::set_int_range(0, bound));
}

/// Keeping the same findings of a stable sort's input and of its output gives a stable sort
/// again.
pub proof fn lemma_stable_sort_filter(input: Seq<FindingView>, output: Seq<FindingView>, keep: spec_fn(FindingView) -> bool)
    requires
        sorted_stably(input, output),
    ensures
        sorted_stably(input.filter(keep), output.filter(keep)),
{
    let p = choose|p: Seq<int>| #[trigger] arranges(input, output, p);
    let kept_in = input.filter(keep);
    let kept_out = output.filter(keep);
    assert(output.take(output.len() as int) =~= output);
    assert(input.take(input.len() as int) =~= input);
    // the place in the output of each kept output finding
    let source = Seq::new(kept_out.len(), |s: int| choose|i: int| 0 <= i < output.len() && keep(output[i]) && #[trigger] kept_before(output, keep, i) == s);
    assert forall|s: int| 0 <= s < kept_out.len() implies 0 <= #[trigger] source[s] < output.len() && keep(output[source[s]])
        && kept_before(output, keep, source[s]) == s by {
        lemma_kept_source(output, keep, output.len() as int, s);
    }
    let q = Seq::new(kept_out.len(), |s: int| kept_before(input, keep, p[source[s]]));
    assert forall|s: int| 0 <= s < q.len() implies 0 <= #[trigger] q[s] < kept_in.len() && kept_out[s] == kept_in[q[s]] by {
        let i = source[s];
        assert(input[p[i]] == output[i]);
        lemma_kept_position(input, keep, p[i]);
        lemma_kept_position(output, keep, i);
    }
    // source is increasing
    assert forall|s1: int, s2: int| 0 <= s1 < s2 < kept_out.len() implies #[trigger] source[s1] < #[trigger] source[s2] by {
        if source[s2] < source[s1] {
            lemma_kept_order(output, keep, source[s2], source[s1]);
        } else if source[s2] == source[s1] {
        }
    }
    assert forall|s1: int, s2: int| 0 <= s1 < s2 < q.len() implies #[trigger] q[s1] != #[trigger] q[s2] by {
        let (i1, i2) = (source[s1], source[s2]);
        assert(p[i1] != p[i2]);
        if p[i1] < p[i2] {
            lemma_kept_order(input, keep, p[i1], p[i2]);
        } else {
            lemma_kept_order(input, keep, p[i2], p[i1]);
        }
    }
    assert forall|s1: int, s2: int| 0 <= s1 < s2 < kept_out.len() implies finding_order(#[trigger] kept_out[s1], #[trigger] kept_out[s2]) <= 0 by {
        lemma_kept_position(output, keep, source[s1]);
        lemma_kept_position(output, keep, source[s2]);
        assert(output[source[s1]] == kept_out[s1]);
        assert(output[source[s2]] == kept_out[s2]);
    }
    assert forall|s1: int, s2: int| 0 <= s1 < s2 < kept_out.len() && finding_order(#[trigger] kept_out[s1], #[trigger] kept_out[s2]) == 0
        implies q[s1] < q[s2] by {
        let (i1, i2) = (source[s1], source[s2]);
        lemma_kept_position(output, keep, i1);
        lemma_kept_position(output, keep, i2);
        assert(output[i1] == kept_out[s1] && output[i2] == kept_out[s2]);
        assert(p[i1] < p[i2]);
        lemma_kept_order(input, keep, p[i1], p[i2]);
    }
    // as many kept findings on each side
    assert(kept_out.len() <= kept_in.len()) by {
        assert forall|i: int, j: int| 0 <= i < q.len() && 0 <= j < q.len() && i != j implies q[i] != q[j] by {
            if i < j {
                assert(q[i] != q[j]);
            } else {
                assert(q[j] != q[i]);
            }
        }
        lemma_distinct_places(q, kept_in.len() as int);
    }
    assert(kept_in.len() <= kept_out.len()) by {
        let back = Seq::new(kept_in.len(), |r: int| {
            let m = choose|m: int| 0 <= m < input.len() && keep(input[m]) && #[trigger] kept_before(input, keep, m) == r;
            let i = choose|i: int| 0 <= i < p.len() && p[i] == m;
            kept_before(output, keep, i)
        });
        assert forall|r: int| 0 <= r < back.len() implies 0 <= #[trigger] back[r] < kept_out.len() by {
            lemma_kept_source(input, keep, input.len() as int, r);
            let m = choose|m: int| 0 <= m < input.len() && keep(input[m]) && #[trigger] kept_before(input, keep, m) == r;
            lemma_arrangement_onto(input, output, p, m);
            let i = choose|i: int| 0 <= i < p.len() && p[i] == m;
            assert(output[i] == input[m]);
            lemma_kept_position(output, keep, i);
        }
        assert forall|r1: int, r2: int| 0 <= r1 < back.len() && 0 <= r2 < back.len() && r1 != r2 implies back[r1] != back[r2] by {
            lemma_kept_source(input, keep, input.len() as int, r1);
            lemma_kept_source(input, keep, input.len() as int, r2);
            let m1 = choose|m: int| 0 <= m < input.len() && keep(input[m]) && #[trigger] kept_before(input, keep, m) == r1;
            let m2 = choose|m: int| 0 <= m < input.len() && keep(input[m]) && #[trigger] kept_before(input, keep, m) == r2;
            lemma_arrangement_onto(input, output, p, m1);
            lemma_arrangement_onto(input, output, p, m2);
            let i1 = choose|i: int| 0 <= i < p.len() && p[i] == m1;
            let i2 = choose|i: int| 0 <= i < p.len() && p[i] == m2;
            assert(m1 != m2);
            assert(i1 != i2);
            assert(output[i1] == input[m1] && output[i2] == input[m2]);
            if i1 < i2 {
                lemma_kept_order(output, keep, i1, i2);
            } else {
                lemma_kept_order(output, keep, i2, i1);
            }
        }
        lemma_distinct_places(back, kept_out.len() as int);
    }
    assert(arranges(kept_in, kept_out, q));
}

/// Compares byte strings lexicographically: negative, zero, or positive.
fn compare_bytes(a: &[u8], b: &[u8]) -> (order: i8)
    ensures
        order == bytes_order(a@, b@),
{
    let mut i: usize = 0;
    proof {
        assert(a@.skip(0) =~= a@);
        assert(b@.skip(0) =~= b@);
    }
    while i < a.len() && i < b.len()
        invariant
            i <= a@.len(),
            i <= b@.len(),
            bytes_order(a@, b@) == bytes_order(a@.skip(i as int), b@.skip(i as int)),
        decreases a@.len() - i,
    {
        if a[i] < b[i] {
            return -1;
        }
        if a[i] > b[i] {
            return 1;
        }
        proof {
            assert(a@.skip(i as int).drop_first() =~= a@.skip(i + 1));
            assert(b@.skip(i as int).drop_first() =~= b@.skip(i + 1));
        }
        i = i + 1;
    }
    if i < a.len() {
        1
    } else if i < b.len() {
        -1
    } else {
        proof {
            assert(a@.skip(i as int).len() == 0);
        }
        0
    }
}

/// Compares two texts by their UTF-8 bytes.
pub fn compare_texts(a: &str, b: &str) -> (order: i8)
    ensures
        order == text_order(a@, b@),
{
    compare_bytes(a.as_bytes(), b.as_bytes())
}

/// The ordering of an order value.
fn ordering_from(order: i8) -> (ordering: Ordering)
    ensures
        (ordering == Ordering::Less) == (order < 0),
        (ordering == Ordering::Equal) == (order == 0),
        (ordering == Ordering::Greater) == (order > 0),
{
    if order < 0 {
        Ordering::Less
    } else if order > 0 {
        Ordering::Greater
    } else {
        Ordering::Equal
    }
}

/// The ordering of an order value.
fn ordering_of(less: bool, greater: bool) -> (order: Ordering)
    ensures
        (order == Ordering::Less) == less,
        (order == Ordering::Greater) == (greater && !less),
        (order == Ordering::Equal) == (!less && !greater),
{
    if less {
        Ordering::Less
    } else if greater {
        Ordering::Greater
    } else {
        Ordering::Equal
    }
}

fn rank_of(kind: FindingKind) -> (rank: u8)
    ensures
        rank == finding_rank(kind),
{
    match kind {
        FindingKind::DeadPublic => 0,
        FindingKind::UnnecessaryPublic => 1,
        FindingKind::UnnecessaryRestrictedVisibility => 2,
        FindingKind::UnnecessaryCrateVisibility => 3,
        FindingKind::TestOnly => 4,
    }
}

/// Compares two findings in the report order.
pub fn compare_findings(x: &Finding, y: &Finding) -> (order: Ordering)
    ensures
        (order == Ordering::Less) == (finding_order(x.view(), y.view()) < 0),
        (order == Ordering::Equal) == (finding_order(x.view(), y.view()) == 0),
        (order == Ordering::Greater) == (finding_order(x.view(), y.view()) > 0),
{
    let empty = "";
    let x_file = match &x.definition.span {
        Some(span) => span.file.as_str(),
        None => empty,
    };
    let y_file = match &y.definition.span {
        Some(span) => span.file.as_str(),
        None => empty,
    };
    proof {
        reveal_strlit("");
        assert(x_file@ == finding_file(x.view()));
        assert(y_file@ == finding_file(y.view()));
    }
    let file = compare_texts(x_file, y_file);
    if file != 0 {
        return ordering_from(file);
    }
    let (x_line, x_column) = match &x.definition.span {
        Some(span) => (span.line, span.column),
        None => (0, 0),
    };
    let (y_line, y_column) = match &y.definition.span {
        Some(span) => (span.line, span.column),
        None => (0, 0),
    };
    if x_line != y_line {
        return ordering_of(x_line < y_line, x_line > y_line);
    }
    if x_column != y_column {
        return ordering_of(x_column < y_column, x_column > y_column);
    }
    let crate_name = compare_texts(x.definition.crate_name.as_str(), y.definition.crate_name.as_str());
    if crate_name != 0 {
        return ordering_from(crate_name);
    }
    let name = compare_texts(x.definition.name.as_str(), y.definition.name.as_str());
    if name != 0 {
        return ordering_from(name);
    }
    let x_kind = crate::equivalence::kind_to_number(x.definition.kind);
    let y_kind = crate::equivalence::kind_to_number(y.definition.kind);
    if x_kind != y_kind {
        return ordering_of(x_kind < y_kind, x_kind > y_kind);
    }
    let x_rank = rank_of(x.kind);
    let y_rank = rank_of(y.kind);
    ordering_of(x_rank < y_rank, x_rank > y_rank)
}

/// Sorts findings in the report order, keeping the input order of findings that the order
/// does not tell apart (`slice::sort_by`, a stable sort).
#[verifier::external_body]
pub(crate) fn sort_findings<'a>(findings: &mut Vec<Finding<'a>>)
    ensures
        sorted_stably(finding_views(old(findings)@), finding_views(final(findings)@)),
{
    findings.sort_by(|x, y| compare_findings(x, y));
}

} // verus!
