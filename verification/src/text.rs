//! Text building blocks: decimal numbers, joined lists, and the characters
//! of a string as a vector.

use vstd::prelude::*;

verus! {

/// Trusted, not proved: `String::push` of the standard library appends the
/// given character to the end of the string and leaves the characters
/// before it as they are.
pub assume_specification[ std::string::String::push ](s: &mut std::string::String, ch: char)
    ensures
        final(s)@ == old(s)@.push(ch),
;

/// The characters of a string, in order.
pub fn chars_of(s: &str) -> (chars: Vec<char>)
    ensures
        chars@ == s@,
{
    let mut chars: Vec<char> = Vec::new();
    let iter = s.chars();
    proof {
        vstd::string::axiom_spec_iter(s);
    }
    for ch in it: iter
        invariant
            it.seq() == s@,
            chars@ == s@.take(it.index()),
    {
        chars.push(ch);
        assert(s@.take(it.index() + 1) =~= s@.take(it.index()).push(ch));
    }
    assert(s@.take(s@.len() as int) =~= s@);
    chars
}

/// The decimal digit that stands for a number below ten.
pub open spec fn digit_char(d: nat) -> char {
    if d == 0 {
        '0'
    } else if d == 1 {
        '1'
    } else if d == 2 {
        '2'
    } else if d == 3 {
        '3'
    } else if d == 4 {
        '4'
    } else if d == 5 {
        '5'
    } else if d == 6 {
        '6'
    } else if d == 7 {
        '7'
    } else if d == 8 {
        '8'
    } else {
        '9'
    }
}

/// The value of a decimal digit, if the character is one.
pub open spec fn digit_value(ch: char) -> Option<nat> {
    match ch {
        '0' => Some(0nat),
        '1' => Some(1nat),
        '2' => Some(2nat),
        '3' => Some(3nat),
        '4' => Some(4nat),
        '5' => Some(5nat),
        '6' => Some(6nat),
        '7' => Some(7nat),
        '8' => Some(8nat),
        '9' => Some(9nat),
        _ => None,
    }
}

/// A number written in decimal, without sign and without leading zeros.
pub open spec fn decimal(n: nat) -> Seq<char>
    decreases n,
{
    if n < 10 {
        seq![digit_char(n)]
    } else {
        decimal(n / 10).push(digit_char(n % 10))
    }
}

/// Whether every character of a text is a decimal digit.
pub open spec fn all_digits(text: Seq<char>) -> bool {
    forall|i: int| 0 <= i < text.len() ==> (#[trigger] digit_value(text[i])) is Some
}

/// The number that a run of decimal digits stands for.
pub open spec fn digits_value(text: Seq<char>) -> nat
    decreases text.len(),
{
    if text.len() == 0 {
        0
    } else {
        digits_value(text.drop_last()) * 10 + match digit_value(text.last()) {
            Some(d) => d,
            None => 0,
        }
    }
}

/// The index that the body of an indexed reference stands for: an optional
/// `+`, then at least one decimal digit, the whole no larger than
/// `usize::MAX`.
pub open spec fn parse_index(text: Seq<char>) -> Option<nat> {
    let digits = if text.len() > 0 && text[0] == '+' {
        text.skip(1)
    } else {
        text
    };
    if digits.len() > 0 && all_digits(digits) && digits_value(digits) <= usize::MAX {
        Some(digits_value(digits))
    } else {
        None
    }
}

/// The texts of a sequence with a separator between each two neighbours.
pub open spec fn join(parts: Seq<Seq<char>>, separator: Seq<char>) -> Seq<char>
    decreases parts.len(),
{
    if parts.len() == 0 {
        Seq::empty()
    } else if parts.len() == 1 {
        parts[0]
    } else {
        join(parts.drop_last(), separator) + separator + parts.last()
    }
}

/// The views of the strings of a sequence.
pub open spec fn views(parts: Seq<String>) -> Seq<Seq<char>> {
    Seq::new(parts.len(), |i: int| parts[i]@)
}

/// A run of digits is worth at least as much as each of its prefixes.
pub proof fn lemma_digits_value_prefix(text: Seq<char>, n: int)
    requires
        0 <= n <= text.len(),
    ensures
        digits_value(text.take(n)) <= digits_value(text),
    decreases text.len(),
{
    if n == text.len() {
        assert(text.take(n) =~= text);
    } else {
        lemma_digits_value_prefix(text.drop_last(), n);
        assert(text.drop_last().take(n) =~= text.take(n));
    }
}

fn digit_of(ch: char) -> (d: Option<u8>)
    ensures
        match d {
            Some(v) => digit_value(ch) == Some(v as nat),
            None => digit_value(ch) is None,
        },
{
    match ch {
        '0' => Some(0u8),
        '1' => Some(1u8),
        '2' => Some(2u8),
        '3' => Some(3u8),
        '4' => Some(4u8),
        '5' => Some(5u8),
        '6' => Some(6u8),
        '7' => Some(7u8),
        '8' => Some(8u8),
        '9' => Some(9u8),
        _ => None,
    }
}

fn char_of_digit(d: u8) -> (ch: char)
    requires
        d < 10,
    ensures
        ch == digit_char(d as nat),
{
    if d == 0 {
        '0'
    } else if d == 1 {
        '1'
    } else if d == 2 {
        '2'
    } else if d == 3 {
        '3'
    } else if d == 4 {
        '4'
    } else if d == 5 {
        '5'
    } else if d == 6 {
        '6'
    } else if d == 7 {
        '7'
    } else if d == 8 {
        '8'
    } else {
        '9'
    }
}

/// Reads the body of an indexed reference.
pub fn read_index(text: &str) -> (index: Option<usize>)
    ensures
        match index {
            Some(n) => parse_index(text@) == Some(n as nat),
            None => parse_index(text@) is None,
        },
{
    let chars = chars_of(text);
    let start: usize = if chars.len() > 0 && chars[0] == '+' {
        1
    } else {
        0
    };
    let ghost digits = chars@.skip(start as int);
    if start == chars.len() {
        return None;
    }
    let mut value: u128 = 0;
    let mut i: usize = start;
    while i < chars.len()
        invariant
            start <= i <= chars.len(),
            chars@ == text@,
            start < chars.len(),
            start == if text@.len() > 0 && text@[0] == '+' { 1int } else { 0int },
            digits =~= if start == 1 { text@.skip(1) } else { text@ },
            all_digits(digits.take(i - start)),
            value == digits_value(digits.take(i - start)),
            value <= usize::MAX,
        decreases chars.len() - i,
    {
        let ghost before = digits.take(i - start);
        let ghost after = digits.take(i + 1 - start);
        proof {
            assert(after.drop_last() =~= before);
            assert(after.last() == chars@[i as int]);
        }
        match digit_of(chars[i]) {
            None => {
                assert(digit_value(digits[i - start]) is None);
                return None;
            },
            Some(d) => {
                let next: u128 = value * 10 + d as u128;
                if next > usize::MAX as u128 {
                    proof {
                        lemma_digits_value_prefix(digits, i + 1 - start);
                    }
                    return None;
                }
                value = next;
                assert forall|k: int| 0 <= k < after.len() implies (#[trigger] digit_value(
                    after[k],
                )) is Some by {
                    if k < before.len() {
                        assert(after[k] == before[k]);
                    }
                }
            },
        }
        i = i + 1;
    }
    assert(digits.take(i - start) =~= digits);
    Some(value as usize)
}

/// Appends a number in decimal.
pub fn push_decimal(out: &mut String, n: u128)
    ensures
        final(out)@ == old(out)@ + decimal(n as nat),
    decreases n,
{
    if n < 10 {
        out.push(char_of_digit(n as u8));
        assert(old(out)@.push(digit_char(n as nat)) =~= old(out)@ + decimal(n as nat));
    } else {
        push_decimal(out, n / 10);
        out.push(char_of_digit((n % 10) as u8));
        assert((old(out)@ + decimal((n / 10) as nat)).push(digit_char((n % 10) as nat)) =~= old(
            out,
        )@ + decimal(n as nat));
    }
}

/// Appends the texts of a list with a separator between each two
/// neighbours.
pub fn push_joined(out: &mut String, parts: &Vec<String>, separator: &str)
    ensures
        final(out)@ == old(out)@ + join(views(parts@), separator@),
{
    let ghost all = views(parts@);
    let mut i: usize = 0;
    while i < parts.len()
        invariant
            0 <= i <= parts.len(),
            all == views(parts@),
            out@ == old(out)@ + join(all.take(i as int), separator@),
        decreases parts.len() - i,
    {
        proof {
            assert(all.take(i + 1).drop_last() =~= all.take(i as int));
            assert(all.take(i + 1).last() == parts@[i as int]@);
        }
        if i > 0 {
            out.append(separator);
        }
        out.append(parts[i].as_str());
        proof {
            if i == 0 {
                assert(all.take(0) =~= Seq::<Seq<char>>::empty());
                assert(out@ =~= old(out)@ + join(all.take(1), separator@));
            } else {
                assert(out@ =~= old(out)@ + join(all.take(i + 1), separator@));
            }
        }
        i = i + 1;
    }
    assert(all.take(parts.len() as int) =~= all);
}

} // verus!
