//! How integers read in diagnostic text.
use vstd::prelude::*;
use vstd::string::StringExecFns;

verus! {

/// The character of one decimal digit.
pub open spec fn digit_char(d: nat) -> char {
    (48 + d) as char
}

/// The decimal digits of a natural number, most significant first, without leading zeros.
pub open spec fn unsigned_decimal(n: nat) -> Seq<char>
    decreases n,
{
    if n < 10 {
        seq![digit_char(n)]
    } else {
        unsigned_decimal(n / 10).push(digit_char(n % 10))
    }
}

/// The character of one lowercase hexadecimal digit.
pub open spec fn hex_digit_char(d: nat) -> char {
    if d < 10 { (48 + d) as char } else { (87 + d) as char }
}

/// A natural number in lowercase hexadecimal, without leading zeros.
pub open spec fn lower_hex(n: nat) -> Seq<char>
    decreases n,
{
    if n < 16 {
        seq![hex_digit_char(n)]
    } else {
        lower_hex(n / 16).push(hex_digit_char(n % 16))
    }
}

/// An integer as decimal text, with a leading minus sign when negative.
pub open spec fn decimal(n: int) -> Seq<char> {
    if n < 0 {
        seq!['-'] + unsigned_decimal((-n) as nat)
    } else {
        unsigned_decimal(n as nat)
    }
}

/// The text of one decimal digit.
fn digit_text(d: u64) -> (text: &'static str)
    requires
        d < 10,
    ensures
        text@ == seq![digit_char(d as nat)],
{
    proof {
        reveal_strlit("0");
        reveal_strlit("1");
        reveal_strlit("2");
        reveal_strlit("3");
        reveal_strlit("4");
        reveal_strlit("5");
        reveal_strlit("6");
        reveal_strlit("7");
        reveal_strlit("8");
        reveal_strlit("9");
    }
    if d == 0 { "0" } else if d == 1 { "1" } else if d == 2 { "2" } else if d == 3 { "3" } else if d == 4 { "4" }
    else if d == 5 { "5" } else if d == 6 { "6" } else if d == 7 { "7" } else if d == 8 { "8" } else { "9" }
}

/// Appends a natural number in decimal.
pub fn append_unsigned(out: &mut String, n: u64)
    ensures
        final(out)@ == old(out)@ + unsigned_decimal(n as nat),
    decreases n,
{
    if n >= 10 {
        append_unsigned(out, n / 10);
    }
    let ghost before = out@;
    out.append(digit_text(n % 10));
    proof {
        if n >= 10 {
            assert(unsigned_decimal(n as nat) == unsigned_decimal((n / 10) as nat).push(digit_char((n % 10) as nat)));
        }
    }
}

/// Appends an integer in decimal, with a leading minus sign when negative.
pub fn append_signed(out: &mut String, n: i64)
    ensures
        final(out)@ == old(out)@ + decimal(n as int),
{
    if n < 0 {
        proof {
            reveal_strlit("-");
        }
        out.append("-");
        let magnitude: u64 = if n == i64::MIN { 0x8000_0000_0000_0000 } else { (-n) as u64 };
        append_unsigned(out, magnitude);
    } else {
        append_unsigned(out, n as u64);
    }
}

/// A natural number in decimal.
pub fn unsigned_text(n: u64) -> (text: String)
    ensures
        text@ == decimal(n as int),
{
    let mut text = String::new();
    append_unsigned(&mut text, n);
    text
}

/// The characters of a text.
#[verifier::external_body]
pub fn text_chars(text: &str) -> (chars: Vec<char>)
    ensures
        chars@ == text@,
{
    text.chars().collect()
}

/// The text of a character sequence.
#[verifier::external_body]
pub fn collect_text(chars: &Vec<char>) -> (text: String)
    ensures
        text@ == chars@,
{
    chars.iter().collect::<String>()
}

/// Whether a character is an ASCII capital letter.
pub open spec fn is_ascii_upper(c: char) -> bool {
    'A' <= c <= 'Z'
}

/// A character of an enum name as words: the underscore reads as a space, capitals as
/// small letters.
pub open spec fn enum_word_char(c: char) -> char {
    if c == '_' {
        ' '
    } else if is_ascii_upper(c) {
        (c as int + 32) as char
    } else {
        c
    }
}

/// An enum name as lowercase words: a space before every capital but the first character,
/// underscores as spaces, ASCII capitals lowered.
pub open spec fn enum_words(chars: Seq<char>) -> Seq<char>
    decreases chars.len(),
{
    if chars.len() == 0 {
        Seq::empty()
    } else {
        let rest = enum_words(chars.drop_last());
        let c = chars.last();
        let spaced = if chars.len() > 1 && is_ascii_upper(c) { rest.push(' ') } else { rest };
        spaced.push(enum_word_char(c))
    }
}

/// Turns an enum name such as `IndexedColor` or `GRAY_SCALE` into lowercase words.
pub fn normalize_enum_name(value: &str) -> (name: String)
    ensures
        name@ == enum_words(value@),
{
    let chars = text_chars(value);
    let mut out: Vec<char> = Vec::new();
    let mut i: usize = 0;
    assert(chars@.take(0) =~= Seq::<char>::empty());
    while i < chars.len()
        invariant
            i <= chars@.len(),
            out@ == enum_words(chars@.take(i as int)),
        decreases chars@.len() - i,
    {
        let c = chars[i];
        let upper = 'A' <= c && c <= 'Z';
        if i > 0 && upper {
            out.push(' ');
        }
        let mapped = if c == '_' {
            ' '
        } else if upper {
            ((c as u8) + 32) as char
        } else {
            c
        };
        assert(mapped == enum_word_char(c));
        out.push(mapped);
        assert(chars@.take(i as int + 1).drop_last() =~= chars@.take(i as int));
        assert(chars@.take(i as int + 1).last() == c);
        i = i + 1;
    }
    assert(chars@.take(chars@.len() as int) =~= chars@);
    collect_text(&out)
}

} // verus!
