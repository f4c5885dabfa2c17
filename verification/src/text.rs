//! Comparing strings and writing numbers as text.

use vstd::prelude::*;
use vstd::string::StringSliceAdditionalSpecFns;

verus! {

broadcast use vstd::utf8::group_utf8_lib;

/// Compares two string slices by content.
pub fn str_equals(left: &str, right: &str) -> (equal: bool)
    ensures
        equal == (left@ == right@),
{
    let left_bytes = left.as_bytes();
    let right_bytes = right.as_bytes();
    proof {
        vstd::utf8::encode_utf8_decode_utf8(left@);
        vstd::utf8::encode_utf8_decode_utf8(right@);
    }
    if left_bytes.len() != right_bytes.len() {
        return false;
    }
    let mut index: usize = 0;
    while index < left_bytes.len()
        invariant
            left_bytes@ == left.spec_bytes(),
            right_bytes@ == right.spec_bytes(),
            left_bytes@.len() == right_bytes@.len(),
            index <= left_bytes@.len(),
            forall|i: int| 0 <= i < index ==> left_bytes@[i] == right_bytes@[i],
        decreases left_bytes@.len() - index,
    {
        if left_bytes[index] != right_bytes[index] {
            return false;
        }
        index = index + 1;
    }
    assert(left_bytes@ =~= right_bytes@);
    true
}

/// The character of a decimal digit.
pub open spec fn digit_char(d: nat) -> char {
    if d == 0 { '0' } else if d == 1 { '1' } else if d == 2 { '2' } else if d == 3 { '3' } else if d == 4 { '4' }
    else if d == 5 { '5' } else if d == 6 { '6' } else if d == 7 { '7' } else if d == 8 { '8' } else { '9' }
}

/// The decimal digits of a number, most significant first.
pub open spec fn decimal(n: nat) -> Seq<char>
    decreases n,
{
    if n < 10 {
        seq![digit_char(n)]
    } else {
        decimal(n / 10) + seq![digit_char(n % 10)]
    }
}

fn digit_text(d: usize) -> (text: &'static str)
    requires
        d < 10,
    ensures
        text@ == seq![digit_char(d as nat)],
{
    proof {
        reveal_strlit("0");
        reveal_strlit("1");
        reveal_strlit("2");
        reveal_strlit("3");
        reveal_strlit("4");
        reveal_strlit("5");
        reveal_strlit("6");
        reveal_strlit("7");
        reveal_strlit("8");
        reveal_strlit("9");
    }
    match d {
        0 => "0",
        1 => "1",
        2 => "2",
        3 => "3",
        4 => "4",
        5 => "5",
        6 => "6",
        7 => "7",
        8 => "8",
        _ => "9",
    }
}

/// Appends the decimal digits of `n` to `text`.
pub fn push_decimal(text: &mut String, n: usize)
    ensures
        final(text)@ == old(text)@ + decimal(n as nat),
    decreases n,
{
    if n >= 10 {
        push_decimal(text, n / 10);
    }
    vstd::string::StringExecFns::append(text, digit_text(n % 10));
    proof {
        assert(old(text)@ + decimal(n as nat) =~= if n < 10 { old(text)@ + seq![digit_char(n as nat)] } else { old(text)@ + decimal((n / 10) as nat) + seq![digit_char((n % 10) as nat)] });
    }
}

/// The pieces of a text between its newline characters.
pub open spec fn newline_pieces(text: Seq<char>) -> Seq<Seq<char>>
    decreases text.len(),
{
    if text.len() == 0 {
        seq![Seq::empty()]
    } else if text.last() == '\n' {
        newline_pieces(text.drop_last()).push(Seq::empty())
    } else {
        let pieces = newline_pieces(text.drop_last());
        pieces.drop_last().push(pieces.last().push(text.last()))
    }
}

/// A line without the carriage return that ends it, if one does.
pub open spec fn without_carriage_return(line: Seq<char>) -> Seq<char> {
    if line.len() > 0 && line.last() == '\r' {
        line.drop_last()
    } else {
        line
    }
}

/// The lines of a text, as `str::lines` gives them: split at each `\n`, a `\r` before it
/// dropped, and no empty line after a final newline.
pub open spec fn text_lines(text: Seq<char>) -> Seq<Seq<char>> {
    let pieces = newline_pieces(text);
    let kept = if pieces.last().len() == 0 { pieces.drop_last() } else { pieces };
    kept.map_values(|line: Seq<char>| without_carriage_return(line))
}

proof fn lemma_newline_pieces_nonempty(text: Seq<char>)
    ensures
        newline_pieces(text).len() >= 1,
    decreases text.len(),
{
    if text.len() > 0 {
        lemma_newline_pieces_nonempty(text.drop_last());
    }
}

/// The lines of a text.
pub fn split_lines(text: &str) -> (lines: Vec<String>)
    ensures
        crate::settings::texts(lines@) == text_lines(text@),
{
    let length = text.unicode_len();
    let mut lines: Vec<String> = Vec::new();
    let mut start: usize = 0;
    let mut k: usize = 0;
    while k < length
        invariant
            length == text@.len(),
            start <= k <= length,
            newline_pieces(text@.take(k as int)).len() == lines@.len() + 1,
            forall|i: int| 0 <= i < lines@.len() ==> #[trigger] lines@[i]@ == without_carriage_return(newline_pieces(text@.take(k as int))[i]),
            newline_pieces(text@.take(k as int)).last() == text@.subrange(start as int, k as int),
        decreases length - k,
    {
        let c = text.get_char(k);
        let ghost prefix = text@.take(k + 1);
        proof {
            assert(prefix.drop_last() =~= text@.take(k as int));
            assert(prefix.last() == c);
            lemma_newline_pieces_nonempty(text@.take(k as int));
        }
        if c == '\n' {
            let mut end = k;
            if end > start && text.get_char(end - 1) == '\r' {
                end = end - 1;
            }
            let line = text.substring_char(start, end);
            let ghost before = lines@;
            lines.push(line.to_string());
            proof {
                let piece = text@.subrange(start as int, k as int);
                assert(line@ =~= without_carriage_return(piece));
                assert forall|i: int| 0 <= i < lines@.len() implies #[trigger] lines@[i]@ == without_carriage_return(newline_pieces(prefix)[i]) by {
                    if i < before.len() {
                        assert(lines@[i] == before[i]);
                    }
                }
                assert(text@.subrange((k + 1) as int, (k + 1) as int) =~= Seq::<char>::empty());
            }
            start = k + 1;
        } else {
            proof {
                assert(text@.subrange(start as int, k + 1) =~= text@.subrange(start as int, k as int).push(c));
                assert forall|i: int| 0 <= i < lines@.len() implies #[trigger] lines@[i]@ == without_carriage_return(newline_pieces(prefix)[i]) by {
                    assert(newline_pieces(prefix)[i] == newline_pieces(text@.take(k as int))[i]);
                }
            }
        }
        k = k + 1;
    }
    proof {
        assert(text@.take(length as int) =~= text@);
        lemma_newline_pieces_nonempty(text@);
    }
    if start < length {
        let mut end = length;
        if text.get_char(end - 1) == '\r' {
            end = end - 1;
        }
        let line = text.substring_char(start, end);
        lines.push(line.to_string());
        proof {
            assert(line@ =~= without_carriage_return(text@.subrange(start as int, length as int)));
        }
    }
    proof {
        let pieces = newline_pieces(text@);
        let kept = if pieces.last().len() == 0 { pieces.drop_last() } else { pieces };
        assert(lines@.len() == kept.len());
        assert forall|i: int| 0 <= i < kept.len() implies #[trigger] crate::settings::texts(lines@)[i] == text_lines(text@)[i] by {
            assert(lines@[i]@ == without_carriage_return(kept[i]));
        }
        assert(crate::settings::texts(lines@) =~= text_lines(text@));
    }
    lines
}

/// The lowercase hexadecimal digit of a value below sixteen.
pub open spec fn hex_char(d: nat) -> char {
    if d < 10 {
        digit_char(d)
    } else if d == 10 {
        'a'
    } else if d == 11 {
        'b'
    } else if d == 12 {
        'c'
    } else if d == 13 {
        'd'
    } else if d == 14 {
        'e'
    } else {
        'f'
    }
}

/// The last `n` hexadecimal digits of `v`, most significant first.
pub open spec fn hex_digits(v: nat, n: nat) -> Seq<char>
    decreases n,
{
    if n == 0 {
        Seq::empty()
    } else {
        hex_digits(v / 16, (n - 1) as nat).push(hex_char(v % 16))
    }
}

fn hex_text(d: u64) -> (text: &'static str)
    requires
        d < 16,
    ensures
        text@ == seq![hex_char(d as nat)],
{
    proof {
        reveal_strlit("0");
        reveal_strlit("1");
        reveal_strlit("2");
        reveal_strlit("3");
        reveal_strlit("4");
        reveal_strlit("5");
        reveal_strlit("6");
        reveal_strlit("7");
        reveal_strlit("8");
        reveal_strlit("9");
        reveal_strlit("a");
        reveal_strlit("b");
        reveal_strlit("c");
        reveal_strlit("d");
        reveal_strlit("e");
        reveal_strlit("f");
    }
    match d {
        0 => "0",
        1 => "1",
        2 => "2",
        3 => "3",
        4 => "4",
        5 => "5",
        6 => "6",
        7 => "7",
        8 => "8",
        9 => "9",
        10 => "a",
        11 => "b",
        12 => "c",
        13 => "d",
        14 => "e",
        _ => "f",
    }
}

/// Appends the last `n` hexadecimal digits of `v`.
pub fn push_hex(text: &mut String, v: u64, n: usize)
    ensures
        final(text)@ == old(text)@ + hex_digits(v as nat, n as nat),
    decreases n,
{
    if n > 0 {
        push_hex(text, v / 16, n - 1);
        vstd::string::StringExecFns::append(text, hex_text(v % 16));
        proof {
            assert(old(text)@ + hex_digits(v as nat, n as nat) =~= old(text)@ + hex_digits((v / 16) as nat, (n - 1) as nat) + seq![hex_char((v % 16) as nat)]);
        }
    } else {
        proof {
            assert(old(text)@ + hex_digits(v as nat, 0) =~= old(text)@);
        }
    }
}

} // verus!
