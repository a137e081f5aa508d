//! Character-level helpers shared by the seed-code parsers and formatters.

use vstd::prelude::*;

verus! {

/// The characters of a string slice, in order.
pub fn chars_of(text: &str) -> (chars: Vec<char>)
    ensures
        chars@ == text@,
{
    let mut chars: Vec<char> = Vec::new();
    for c in it: text.chars()
        invariant
            chars@ == it.seq().take(it.index() as int),
            it.seq() == text@,
    {
        chars.push(c);
    }
    chars
}

/// Appends one character to a string.
#[verifier::external_body]
pub(crate) fn push_char(text: &mut String, c: char)
    ensures
        final(text)@ == old(text)@.push(c),
{
    text.push(c);
}

/// A string holding exactly the given characters.
pub fn string_of(chars: &Vec<char>) -> (text: String)
    ensures
        text@ == chars@,
{
    let mut text = String::new();
    let mut index: usize = 0;
    while index < chars.len()
        invariant
            index <= chars.len(),
            text@ == chars@.take(index as int),
        decreases chars.len() - index,
    {
        push_char(&mut text, chars[index]);
        assert(chars@.take(index as int).push(chars@[index as int]) =~= chars@.take(
            index + 1,
        ));
        index = index + 1;
    }
    assert(chars@.take(chars.len() as int) =~= chars@);
    text
}

/// `c` is an ASCII lowercase letter.
pub open spec fn is_ascii_lower(c: char) -> bool {
    'a' <= c <= 'z'
}

/// `c` is an ASCII uppercase letter.
pub open spec fn is_ascii_upper(c: char) -> bool {
    'A' <= c <= 'Z'
}

/// ASCII uppercasing of one character; everything else is unchanged.
pub open spec fn ascii_upper(c: char) -> char {
    if is_ascii_lower(c) {
        ((c as u32) - 32) as char
    } else {
        c
    }
}

/// Whether every character is ASCII.
pub open spec fn all_ascii(text: Seq<char>) -> bool {
    forall|i: int| 0 <= i < text.len() ==> (#[trigger] text[i] as u32) < 128
}

/// What `str::to_uppercase` returns for a string: Unicode's full uppercase
/// mapping, which may change the length of the text.
pub uninterp spec fn unicode_uppercase(text: Seq<char>) -> Seq<char>;

/// `str::to_uppercase`. Its result is the Unicode uppercase mapping of the
/// text; on ASCII text that maps exactly `a..=z` to `A..=Z`, one character
/// for one. What it does to other characters is left to the name.
#[verifier::external_body]
pub(crate) fn to_uppercase(text: &str) -> (upper: String)
    ensures
        upper@ == unicode_uppercase(text@),
        all_ascii(text@) ==> upper@ == text@.map_values(|c: char| ascii_upper(c)),
{
    text.to_uppercase()
}

/// Value of a run of ASCII decimal digits, most significant first.
pub open spec fn decimal_value(digits: Seq<char>) -> int
    decreases digits.len(),
{
    if digits.len() == 0 {
        0
    } else {
        decimal_value(digits.drop_last()) * 10 + (digits.last() as int - '0' as int)
    }
}

/// Whether every character is an ASCII decimal digit.
pub open spec fn all_decimal(digits: Seq<char>) -> bool {
    forall|i: int| 0 <= i < digits.len() ==> '0' <= #[trigger] digits[i] <= '9'
}

/// `i64::from_str`: an optional `+` or `-`, then at least one ASCII digit,
/// with the value inside the `i64` range.
pub open spec fn parsed_i64(text: Seq<char>) -> Option<i64> {
    let negative = text.len() > 0 && text[0] == '-';
    let signed = text.len() > 0 && (text[0] == '-' || text[0] == '+');
    let body = if signed {
        text.drop_first()
    } else {
        text
    };
    let magnitude = decimal_value(body);
    let value = if negative {
        -magnitude
    } else {
        magnitude
    };
    if body.len() == 0 || !all_decimal(body) || value < i64::MIN || value > i64::MAX {
        None
    } else {
        Some(value as i64)
    }
}

/// Digit runs are worth at least zero.
proof fn lemma_decimal_nonnegative(digits: Seq<char>)
    requires
        all_decimal(digits),
    ensures
        decimal_value(digits) >= 0,
    decreases digits.len(),
{
    if digits.len() > 0 {
        assert(all_decimal(digits.drop_last()));
        lemma_decimal_nonnegative(digits.drop_last());
    }
}

/// A digit run is worth at least any of its prefixes.
proof fn lemma_decimal_prefix(digits: Seq<char>, k: int)
    requires
        all_decimal(digits),
        0 <= k <= digits.len(),
    ensures
        decimal_value(digits.take(k)) <= decimal_value(digits),
    decreases digits.len(),
{
    if k < digits.len() {
        assert(digits.drop_last().take(k) =~= digits.take(k));
        assert(all_decimal(digits.drop_last()));
        lemma_decimal_prefix(digits.drop_last(), k);
        lemma_decimal_nonnegative(digits.drop_last());
    } else {
        assert(digits.take(k) =~= digits);
    }
}

/// `str::parse::<i64>()`: an optional sign, then decimal digits whose value
/// fits in `i64`.
pub(crate) fn parse_i64(text: &str) -> (value: Option<i64>)
    ensures
        value == parsed_i64(text@),
{
    let chars = chars_of(text);
    let ghost t = text@;
    let negative = chars.len() > 0 && chars[0] == '-';
    let signed = chars.len() > 0 && (chars[0] == '-' || chars[0] == '+');
    let start: usize = if signed { 1 } else { 0 };
    let ghost body = if signed { t.drop_first() } else { t };
    assert(body =~= t.skip(start as int));
    if chars.len() == start {
        return None;
    }
    let limit: i128 = 0x8000_0000_0000_0000;
    let mut magnitude: i128 = 0;
    let mut i: usize = start;
    while i < chars.len()
        invariant
            start <= i <= chars@.len(),
            chars@ == t,
            t == text@,
            body == t.skip(start as int),
            body == (if t.len() > 0 && (t[0] == '-' || t[0] == '+') { t.drop_first() } else { t }),
            body.len() > 0,
            0 <= magnitude <= limit,
            limit == 0x8000_0000_0000_0000,
            magnitude == decimal_value(body.take(i - start)),
            all_decimal(body.take(i - start)),
        decreases chars@.len() - i,
    {
        let c = chars[i];
        let ghost k: int = i - start;
        proof {
            assert(body[k] == c);
            assert(body.take(k + 1).drop_last() =~= body.take(k));
            assert(body.take(k + 1).last() == c);
        }
        if c < '0' || c > '9' {
            proof {
                assert(!('0' <= body[k] <= '9'));
                assert(!all_decimal(body));
            }
            return None;
        }
        let digit = (c as u32 - '0' as u32) as i128;
        magnitude = magnitude * 10 + digit;
        proof {
            assert(all_decimal(body.take(k + 1)));
        }
        if magnitude > limit {
            proof {
                if all_decimal(body) {
                    lemma_decimal_prefix(body, k + 1);
                }
            }
            return None;
        }
        i = i + 1;
    }
    proof {
        assert(body.take(body.len() as int) =~= body);
    }
    if negative {
        Some((-magnitude) as i64)
    } else if magnitude <= 0x7fff_ffff_ffff_ffff {
        Some(magnitude as i64)
    } else {
        None
    }
}

/// The decimal digits of a natural number, most significant first.
pub open spec fn decimal_digits(n: nat) -> Seq<char>
    decreases n,
{
    if n < 10 {
        seq![('0' as int + n) as char]
    } else {
        decimal_digits(n / 10).push(('0' as int + n % 10) as char)
    }
}

/// The decimal text of an integer as Rust's `Display` writes it: a minus
/// sign for negative numbers, then the digits.
pub open spec fn decimal_text(n: int) -> Seq<char> {
    if n < 0 {
        seq!['-'] + decimal_digits((-n) as nat)
    } else {
        decimal_digits(n as nat)
    }
}

/// The decimal digits of a `u64`, most significant first.
pub fn unsigned_digits(n: u64) -> (digits: Vec<char>)
    ensures
        digits@ == decimal_digits(n as nat),
{
    let mut reversed: Vec<char> = Vec::new();
    let mut rest: u64 = n;
    let ghost mut suffix: Seq<char> = Seq::empty();
    while rest >= 10
        invariant
            decimal_digits(n as nat) == decimal_digits(rest as nat) + suffix,
            reversed@ == suffix.reverse(),
        decreases rest,
    {
        let digit = char_of_digit(rest % 10);
        proof {
            assert(decimal_digits(rest as nat) == decimal_digits((rest / 10) as nat).push(digit));
            assert(decimal_digits((rest / 10) as nat).push(digit) + suffix =~= decimal_digits(
                (rest / 10) as nat,
            ) + (seq![digit] + suffix));
            assert((seq![digit] + suffix).reverse() =~= suffix.reverse().push(digit));
            suffix = seq![digit] + suffix;
        }
        reversed.push(digit);
        rest = rest / 10;
    }
    let last = char_of_digit(rest);
    proof {
        assert(decimal_digits(rest as nat) == seq![last]);
    }
    let mut digits: Vec<char> = Vec::new();
    digits.push(last);
    let mut i: usize = reversed.len();
    while i > 0
        invariant
            i <= reversed@.len(),
            reversed@ == suffix.reverse(),
            digits@ == seq![last] + suffix.take(suffix.len() - i),
            suffix.len() == reversed@.len(),
        decreases i,
    {
        i = i - 1;
        digits.push(reversed[i]);
        proof {
            assert(reversed@[i as int] == suffix[suffix.len() - 1 - i]);
            assert(seq![last] + suffix.take(suffix.len() - i) =~= (seq![last] + suffix.take(
                suffix.len() - i - 1,
            )).push(suffix[suffix.len() - 1 - i]));
        }
    }
    assert(suffix.take(suffix.len() as int) =~= suffix);
    digits
}

/// The decimal text of an `i64`, with a leading minus sign when negative.
pub fn signed_digits(n: i64) -> (digits: Vec<char>)
    ensures
        digits@ == decimal_text(n as int),
{
    if n < 0 {
        let magnitude: u64 = (0 - (n as i128)) as u64;
        let mut digits: Vec<char> = Vec::new();
        digits.push('-');
        let mut rest = unsigned_digits(magnitude);
        digits.append(&mut rest);
        digits
    } else {
        unsigned_digits(n as u64)
    }
}

/// The ASCII digit for a value below ten.
fn char_of_digit(d: u64) -> (c: char)
    requires
        d < 10,
    ensures
        c == ('0' as int + d) as char,
{
    match d {
        0 => '0',
        1 => '1',
        2 => '2',
        3 => '3',
        4 => '4',
        5 => '5',
        6 => '6',
        7 => '7',
        8 => '8',
        _ => '9',
    }
}

} // verus!
