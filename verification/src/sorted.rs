//! Sets of texts kept in increasing byte order, as Cargo's sorted collections list them.

use vstd::prelude::*;
use crate::order::{bytes_order, compare_texts, text_order};
use crate::settings::texts;

verus! {

proof fn lemma_bytes_order_flips(a: Seq<u8>, b: Seq<u8>)
    ensures
        bytes_order(a, b) == -bytes_order(b, a),
    decreases a.len(),
{
    if a.len() > 0 && b.len() > 0 && a[0] == b[0] {
        lemma_bytes_order_flips(a.drop_first(), b.drop_first());
    }
}

proof fn lemma_bytes_order_equal(a: Seq<u8>, b: Seq<u8>)
    ensures
        bytes_order(a, b) == 0 <==> a == b,
    decreases a.len(),
{
    if a.len() > 0 && b.len() > 0 && a[0] == b[0] {
        lemma_bytes_order_equal(a.drop_first(), b.drop_first());
        if a.drop_first() == b.drop_first() {
            assert(a =~= seq![a[0]] + a.drop_first());
            assert(b =~= seq![b[0]] + b.drop_first());
        }
        if a == b {
            assert(a.drop_first() =~= b.drop_first());
        }
    } else if a.len() == 0 && b.len() == 0 {
        assert(a =~= b);
    } else if a.len() > 0 && b.len() > 0 {
        assert(a[0] != b[0]);
        assert(a != b);
    } else {
        assert(a.len() != b.len());
    }
}

/// Texts are ordered by their bytes: `text_order(a, b)` is the negation of `text_order(b, a)`,
/// and it is zero exactly for equal texts.
pub proof fn lemma_text_order(a: Seq<char>, b: Seq<char>)
    ensures
        text_order(a, b) == -text_order(b, a),
        text_order(a, b) == 0 <==> a == b,
{
    lemma_bytes_order_flips(vstd::utf8::encode_utf8(a), vstd::utf8::encode_utf8(b));
    lemma_bytes_order_equal(vstd::utf8::encode_utf8(a), vstd::utf8::encode_utf8(b));
    vstd::utf8::encode_utf8_decode_utf8(a);
    vstd::utf8::encode_utf8_decode_utf8(b);
}

/// Whether each text comes before the next in byte order.
pub open spec fn increasing(words: Seq<Seq<char>>) -> bool {
    forall|i: int| 0 <= i < words.len() - 1 ==> text_order(#[trigger] words[i], words[i + 1]) < 0
}

/// Adds a text to an increasing list of texts, unless it is listed already.
pub fn insert_text(sorted: &mut Vec<String>, text: &str)
    requires
        increasing(texts(old(sorted)@)),
    ensures
        increasing(texts(final(sorted)@)),
        forall|word: Seq<char>| texts(final(sorted)@).contains(word) <==> (texts(old(sorted)@).contains(word) || word == text@),
{
    let ghost before = texts(sorted@);
    let mut at: usize = 0;
    let mut stop = false;
    while !stop && at < sorted.len()
        invariant
            before == texts(sorted@),
            at <= sorted@.len(),
            forall|i: int| 0 <= i < at ==> text_order(#[trigger] before[i], text@) < 0,
            stop ==> at < sorted@.len() && text_order(before[at as int], text@) >= 0,
        decreases sorted@.len() - at, if stop { 0int } else { 1int },
    {
        let order = compare_texts(sorted[at].as_str(), text);
        assert(before[at as int] == sorted@[at as int]@);
        if order >= 0 {
            stop = true;
        } else {
            at = at + 1;
        }
    }
    if stop && compare_texts(sorted[at].as_str(), text) == 0 {
        proof {
            assert(before[at as int] == sorted@[at as int]@);
            lemma_text_order(before[at as int], text@);
        }
        return;
    }
    let ghost old_list = sorted@;
    proof {
        if at < old_list.len() {
            assert(before[at as int] == old_list[at as int]@);
            lemma_text_order(before[at as int], text@);
        }
    }
    sorted.insert(at, String::from_str(text));
    proof {
        assert(texts(sorted@) =~= before.take(at as int).push(text@) + before.skip(at as int));
        lemma_insert_keeps_order(before, at as int, text@);
    }
}

proof fn lemma_insert_keeps_order(before: Seq<Seq<char>>, at: int, text: Seq<char>)
    requires
        0 <= at <= before.len(),
        increasing(before),
        forall|i: int| 0 <= i < at ==> text_order(#[trigger] before[i], text) < 0,
        at < before.len() ==> text_order(text, before[at]) < 0,
    ensures
        increasing(before.take(at).push(text) + before.skip(at)),
        forall|word: Seq<char>| (before.take(at).push(text) + before.skip(at)).contains(word) <==> (before.contains(word) || word == text),
{
    let after = before.take(at).push(text) + before.skip(at);
    assert forall|i: int| 0 <= i < after.len() - 1 implies text_order(#[trigger] after[i], after[i + 1]) < 0 by {
        if i + 1 < at {
            assert(after[i] == before[i] && after[i + 1] == before[i + 1]);
        } else if i + 1 == at {
            assert(after[i] == before[i] && after[i + 1] == text);
        } else if i == at {
            assert(after[i] == text && after[i + 1] == before[i]);
        } else {
            assert(after[i] == before[i - 1] && after[i + 1] == before[i]);
        }
    }
    assert forall|word: Seq<char>| after.contains(word) <==> (before.contains(word) || word == text) by {
        if after.contains(word) {
            let j = choose|j: int| 0 <= j < after.len() && after[j] == word;
            if j < at {
                assert(before[j] == word);
            } else if j > at {
                assert(before[j - 1] == word);
            }
        }
        if before.contains(word) {
            let j = choose|j: int| 0 <= j < before.len() && before[j] == word;
            if j < at {
                assert(after[j] == word);
            } else {
                assert(after[j + 1] == word);
            }
        }
        if word == text {
            assert(after[at] == word);
        }
    }
}

/// A list with a text pushed holds what the list held and the pushed text.
pub proof fn lemma_push_contains(words: Seq<Seq<char>>, last: Seq<char>, word: Seq<char>)
    ensures
        words.push(last).contains(word) <==> (words.contains(word) || word == last),
{
    if words.push(last).contains(word) {
        let j = choose|j: int| 0 <= j < words.push(last).len() && words.push(last)[j] == word;
        if j < words.len() {
            assert(words[j] == word);
        }
    }
    if words.contains(word) {
        let j = choose|j: int| 0 <= j < words.len() && words[j] == word;
        assert(words.push(last)[j] == word);
    }
    if word == last {
        assert(words.push(last)[words.len() as int] == word);
    }
}

/// The texts of a list, each once, in increasing byte order.
pub fn sorted_texts(words: &[String]) -> (sorted: Vec<String>)
    ensures
        increasing(texts(sorted@)),
        forall|word: Seq<char>| texts(sorted@).contains(word) <==> texts(words@).contains(word),
{
    let mut sorted: Vec<String> = Vec::new();
    let mut k: usize = 0;
    while k < words.len()
        invariant
            k <= words@.len(),
            increasing(texts(sorted@)),
            forall|word: Seq<char>| texts(sorted@).contains(word) <==> texts(words@.take(k as int)).contains(word),
        decreases words@.len() - k,
    {
        insert_text(&mut sorted, words[k].as_str());
        proof {
            assert(texts(words@.take(k + 1)) =~= texts(words@.take(k as int)).push(words@[k as int]@));
            assert forall|word: Seq<char>| texts(sorted@).contains(word) <==> texts(words@.take(k + 1)).contains(word) by {
                lemma_push_contains(texts(words@.take(k as int)), words@[k as int]@, word);
            }
        }
        k = k + 1;
    }
    proof {
        assert(words@.take(words@.len() as int) =~= words@);
    }
    sorted
}

/// Removes a text from an increasing list of texts; says whether it was listed.
pub fn remove_text(sorted: &mut Vec<String>, text: &str) -> (found: bool)
    requires
        increasing(texts(old(sorted)@)),
    ensures
        increasing(texts(final(sorted)@)),
        found == texts(old(sorted)@).contains(text@),
        forall|word: Seq<char>| texts(final(sorted)@).contains(word) <==> (texts(old(sorted)@).contains(word) && word != text@),
{
    let ghost before = texts(sorted@);
    let mut at: usize = 0;
    while at < sorted.len()
        invariant
            before == texts(sorted@),
            before == texts(old(sorted)@),
            increasing(before),
            at <= sorted@.len(),
            forall|i: int| 0 <= i < at ==> #[trigger] before[i] != text@,
        decreases sorted@.len() - at,
    {
        if crate::text::str_equals(sorted[at].as_str(), text) {
            proof {
                assert(before[at as int] == sorted@[at as int]@);
                assert(before.contains(text@));
                lemma_increasing_distinct(before);
            }
            sorted.remove(at);
            proof {
                assert(texts(sorted@) =~= before.remove(at as int));
                lemma_remove_keeps_order(before, at as int);
            }
            return true;
        }
        assert(before[at as int] == sorted@[at as int]@);
        at = at + 1;
    }
    proof {
        assert forall|word: Seq<char>| before.contains(word) implies word != text@ by {
            let j = choose|j: int| 0 <= j < before.len() && before[j] == word;
        }
    }
    false
}

/// An increasing list names no text twice.
pub proof fn lemma_increasing_distinct(words: Seq<Seq<char>>)
    requires
        increasing(words),
    ensures
        forall|i: int, j: int| 0 <= i < j < words.len() ==> text_order(#[trigger] words[i], #[trigger] words[j]) < 0,
        forall|i: int, j: int| 0 <= i < words.len() && 0 <= j < words.len() && i != j ==> #[trigger] words[i] != #[trigger] words[j],
{
    assert forall|i: int, j: int| 0 <= i < j < words.len() implies text_order(#[trigger] words[i], #[trigger] words[j]) < 0 by {
        lemma_increasing_apart(words, i, j);
    }
    assert forall|i: int, j: int| 0 <= i < words.len() && 0 <= j < words.len() && i != j implies #[trigger] words[i] != #[trigger] words[j] by {
        if i < j {
            lemma_increasing_apart(words, i, j);
            lemma_text_order(words[i], words[j]);
        } else {
            lemma_increasing_apart(words, j, i);
            lemma_text_order(words[j], words[i]);
        }
    }
}

proof fn lemma_increasing_apart(words: Seq<Seq<char>>, i: int, j: int)
    requires
        increasing(words),
        0 <= i < j < words.len(),
    ensures
        text_order(words[i], words[j]) < 0,
    decreases j - i,
{
    if j > i + 1 {
        lemma_increasing_apart(words, i, j - 1);
        lemma_text_order_transitive(words[i], words[j - 1], words[j]);
    }
}

/// Byte order is transitive.
pub proof fn lemma_text_order_transitive(a: Seq<char>, b: Seq<char>, c: Seq<char>)
    requires
        text_order(a, b) < 0,
        text_order(b, c) < 0,
    ensures
        text_order(a, c) < 0,
{
    lemma_bytes_order_transitive(vstd::utf8::encode_utf8(a), vstd::utf8::encode_utf8(b), vstd::utf8::encode_utf8(c));
}

proof fn lemma_bytes_order_transitive(a: Seq<u8>, b: Seq<u8>, c: Seq<u8>)
    requires
        bytes_order(a, b) < 0,
        bytes_order(b, c) < 0,
    ensures
        bytes_order(a, c) < 0,
    decreases a.len(),
{
    if a.len() > 0 && b.len() > 0 && c.len() > 0 && a[0] == b[0] && b[0] == c[0] {
        lemma_bytes_order_transitive(a.drop_first(), b.drop_first(), c.drop_first());
    }
}

proof fn lemma_remove_keeps_order(before: Seq<Seq<char>>, at: int)
    requires
        0 <= at < before.len(),
        increasing(before),
    ensures
        increasing(before.remove(at)),
        forall|word: Seq<char>| before.remove(at).contains(word) <==> (before.contains(word) && word != before[at]),
{
    lemma_increasing_distinct(before);
    let after = before.remove(at);
    assert forall|i: int| 0 <= i < after.len() - 1 implies text_order(#[trigger] after[i], after[i + 1]) < 0 by {
        if i + 1 < at {
            assert(after[i] == before[i] && after[i + 1] == before[i + 1]);
        } else if i + 1 == at {
            assert(after[i] == before[i] && after[i + 1] == before[i + 2]);
            assert(text_order(before[i], before[i + 2]) < 0);
        } else {
            assert(after[i] == before[i + 1] && after[i + 1] == before[i + 2]);
        }
    }
    assert forall|word: Seq<char>| after.contains(word) <==> (before.contains(word) && word != before[at]) by {
        if after.contains(word) {
            let j = choose|j: int| 0 <= j < after.len() && after[j] == word;
            if j < at {
                assert(before[j] == word);
            } else {
                assert(before[j + 1] == word);
            }
        }
        if before.contains(word) && word != before[at] {
            let j = choose|j: int| 0 <= j < before.len() && before[j] == word;
            if j < at {
                assert(after[j] == word);
            } else {
                assert(after[j - 1] == word);
            }
        }
    }
}

} // verus!
