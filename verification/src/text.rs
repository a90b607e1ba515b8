//! Numbers as text.

use vstd::prelude::*;
use vstd::string::StringExecFns;

verus! {

/// The digit of value `d`, for values below sixteen.
pub open spec fn digit_char(d: int) -> char {
    if d == 0 {
        '0'
    } else if d == 1 {
        '1'
    } else if d == 2 {
        '2'
    } else if d == 3 {
        '3'
    } else if d == 4 {
        '4'
    } else if d == 5 {
        '5'
    } else if d == 6 {
        '6'
    } else if d == 7 {
        '7'
    } else if d == 8 {
        '8'
    } else if d == 9 {
        '9'
    } else if d == 10 {
        'a'
    } else if d == 11 {
        'b'
    } else if d == 12 {
        'c'
    } else if d == 13 {
        'd'
    } else if d == 14 {
        'e'
    } else {
        'f'
    }
}

/// Appends the digit of value `d`.
fn push_digit(text: &mut String, d: u8)
    requires
        d < 16,
    ensures
        final(text)@ == old(text)@.push(digit_char(d as int)),
{
    proof {
        reveal_strlit("0");
        reveal_strlit("1");
        reveal_strlit("2");
        reveal_strlit("3");
        reveal_strlit("4");
        reveal_strlit("5");
        reveal_strlit("6");
        reveal_strlit("7");
        reveal_strlit("8");
        reveal_strlit("9");
        reveal_strlit("a");
        reveal_strlit("b");
        reveal_strlit("c");
        reveal_strlit("d");
        reveal_strlit("e");
        reveal_strlit("f");
    }
    let digit = match d {
        0 => "0",
        1 => "1",
        2 => "2",
        3 => "3",
        4 => "4",
        5 => "5",
        6 => "6",
        7 => "7",
        8 => "8",
        9 => "9",
        10 => "a",
        11 => "b",
        12 => "c",
        13 => "d",
        14 => "e",
        _ => "f",
    };
    assert(digit@ =~= seq![digit_char(d as int)]);
    text.append(digit);
    assert(text@ =~= old(text)@.push(digit_char(d as int)));
}

/// The decimal notation of `n`.
pub open spec fn decimal(n: nat) -> Seq<char>
    decreases n,
{
    if n < 10 {
        seq![digit_char(n as int)]
    } else {
        decimal(n / 10).push(digit_char((n % 10) as int))
    }
}

/// The decimal notation of `n`, with a minus sign where it is negative.
pub open spec fn signed_decimal(n: int) -> Seq<char> {
    if n < 0 {
        seq!['-'] + decimal((-n) as nat)
    } else {
        decimal(n as nat)
    }
}

/// Appends `n` in decimal.
pub fn push_decimal(text: &mut String, n: u64)
    ensures
        final(text)@ == old(text)@ + decimal(n as nat),
    decreases n,
{
    if n >= 10 {
        push_decimal(text, n / 10);
    }
    push_digit(text, (n % 10) as u8);
    assert(text@ =~= old(text)@ + decimal(n as nat));
}

/// Appends `n` in decimal, with a minus sign where it is negative.
pub fn push_signed_decimal(text: &mut String, n: i64)
    ensures
        final(text)@ == old(text)@ + signed_decimal(n as int),
{
    if n < 0 {
        proof {
            reveal_strlit("-");
        }
        assert("-"@ =~= seq!['-']);
        text.append("-");
        let magnitude: u64 = if n == i64::MIN {
            0x8000_0000_0000_0000
        } else {
            (-n) as u64
        };
        push_decimal(text, magnitude);
        assert(text@ =~= old(text)@ + signed_decimal(n as int));
    } else {
        push_decimal(text, n as u64);
    }
}

/// The two hexadecimal digits of an octet.
pub open spec fn hex_octet(b: u8) -> Seq<char> {
    seq![digit_char(b as int / 16), digit_char(b as int % 16)]
}

/// The octets in hexadecimal, separated by blanks.
pub open spec fn hex_text(octets: Seq<u8>) -> Seq<char>
    decreases octets.len(),
{
    if octets.len() == 0 {
        seq![]
    } else if octets.len() == 1 {
        hex_octet(octets[0])
    } else {
        hex_text(octets.drop_last()) + seq![' '] + hex_octet(octets.last())
    }
}

/// Writes octets in hexadecimal, separated by blanks.
pub fn hex_string(octets: &[u8]) -> (text: String)
    ensures
        text@ == hex_text(octets@),
{
    let mut text = String::new();
    proof {
        reveal_strlit(" ");
    }
    for i in 0..octets.len()
        invariant
            " "@ =~= seq![' '],
            text@ == hex_text(octets@.take(i as int)),
    {
        let ghost done = octets@.take(i as int);
        let ghost next = octets@.take(i + 1);
        assert(next.drop_last() =~= done);
        if i > 0 {
            text.append(" ");
        }
        let b: u8 = octets[i];
        push_digit(&mut text, b / 16);
        push_digit(&mut text, b % 16);
        assert(text@ =~= hex_text(next));
    }
    assert(octets@.take(octets@.len() as int) =~= octets@);
    text
}

/// The text of a truth value.
pub open spec fn bool_text(b: bool) -> Seq<char> {
    if b {
        "true"@
    } else {
        "false"@
    }
}

/// Appends a truth value.
pub fn push_bool(text: &mut String, b: bool)
    ensures
        final(text)@ == old(text)@ + bool_text(b),
{
    if b {
        text.append("true");
    } else {
        text.append("false");
    }
}

/// A number in hexadecimal, at least three digits of it.
pub open spec fn hex_3(v: u16) -> Seq<char> {
    let low = seq![
        digit_char(v as int / 256 % 16),
        digit_char(v as int / 16 % 16),
        digit_char(v as int % 16),
    ];
    if v >= 4096 {
        seq![digit_char(v as int / 4096)] + low
    } else {
        low
    }
}

/// Appends a number in hexadecimal, at least three digits of it.
pub fn push_hex_3(text: &mut String, v: u16)
    ensures
        final(text)@ == old(text)@ + hex_3(v),
{
    if v >= 4096 {
        push_digit(text, (v / 4096) as u8);
    }
    push_digit(text, (v / 256 % 16) as u8);
    push_digit(text, (v / 16 % 16) as u8);
    push_digit(text, (v % 16) as u8);
    assert(text@ =~= old(text)@ + hex_3(v));
}

/// The characters of a text.
pub fn chars_of(text: &str) -> (chars: Vec<char>)
    ensures
        chars@ == text@,
{
    broadcast use vstd::string::axiom_spec_iter;

    let mut chars: Vec<char> = Vec::new();
    for c in it: text.chars()
        invariant
            it.seq() == text@,
            chars@ =~= text@.take(it.index()),
    {
        chars.push(c);
    }
    assert(chars@ =~= text@);
    chars
}

/// Whether a character counts as white space.
pub open spec fn is_white(c: char) -> bool {
    let v = c as u32;
    ||| 9 <= v <= 13
    ||| v == 0x20
    ||| v == 0x85
    ||| v == 0xa0
    ||| v == 0x1680
    ||| 0x2000 <= v <= 0x200a
    ||| v == 0x2028
    ||| v == 0x2029
    ||| v == 0x202f
    ||| v == 0x205f
    ||| v == 0x3000
}

fn white(c: char) -> (b: bool)
    ensures
        b == is_white(c),
{
    let v: u32 = c as u32;
    (9 <= v && v <= 13) || v == 0x20 || v == 0x85 || v == 0xa0 || v == 0x1680 || (0x2000 <= v && v
        <= 0x200a) || v == 0x2028 || v == 0x2029 || v == 0x202f || v == 0x205f || v == 0x3000
}

/// Where the text after its leading white space starts.
pub open spec fn trim_start(text: Seq<char>) -> int
    decreases text.len(),
{
    if text.len() > 0 && is_white(text[0]) {
        1 + trim_start(text.drop_first())
    } else {
        0
    }
}

/// Where the text before its trailing white space ends.
pub open spec fn trim_end(text: Seq<char>) -> int
    decreases text.len(),
{
    if text.len() > 0 && is_white(text.last()) {
        trim_end(text.drop_last())
    } else {
        text.len() as int
    }
}

/// The text without leading and trailing white space.
pub open spec fn trimmed(text: Seq<char>) -> Seq<char> {
    let front = text.skip(trim_start(text));
    front.take(trim_end(front))
}

proof fn trim_bounds(text: Seq<char>)
    ensures
        0 <= trim_start(text) <= text.len(),
        0 <= trim_end(text) <= text.len(),
    decreases text.len(),
{
    if text.len() > 0 {
        trim_bounds(text.drop_first());
        trim_bounds(text.drop_last());
    }
}

/// Removes leading and trailing white space.
pub fn trim(text: &[char]) -> (r: Vec<char>)
    ensures
        r@ == trimmed(text@),
{
    let mut from: usize = 0;
    assert(text@.skip(0) =~= text@);
    while from < text.len() && white(text[from])
        invariant
            from <= text@.len(),
            trim_start(text@) == from + trim_start(text@.skip(from as int)),
        decreases text@.len() - from,
    {
        assert(text@.skip(from as int).drop_first() =~= text@.skip(from + 1));
        from = from + 1;
    }
    let ghost front = text@.skip(from as int);
    let mut to: usize = text.len();
    assert(front.take(to - from) =~= front);
    while to > from && white(text[to - 1])
        invariant
            from <= to <= text@.len(),
            front == text@.skip(from as int),
            trim_end(front) == trim_end(front.take(to - from)),
        decreases to,
    {
        assert(front.take(to - from).drop_last() =~= front.take(to - from - 1));
        to = to - 1;
    }
    let r = vstd::slice::slice_to_vec(vstd::slice::slice_subrange(text, from, to));
    assert(r@ =~= front.take(to - from));
    r
}

/// Trimming removes all the white space at both ends.
pub proof fn trimmed_has_no_white_ends(text: Seq<char>)
    ensures
        trimmed(text).len() > 0 ==> !is_white(trimmed(text)[0]) && !is_white(
            trimmed(text).last(),
        ),
{
    trim_bounds(text);
    let front = text.skip(trim_start(text));
    trim_bounds(front);
    front_is_not_white(text);
    last_is_not_white(front);
}

proof fn front_is_not_white(text: Seq<char>)
    ensures
        trim_start(text) < text.len() ==> !is_white(text[trim_start(text)]),
    decreases text.len(),
{
    if text.len() > 0 && is_white(text[0]) {
        front_is_not_white(text.drop_first());
        trim_bounds(text.drop_first());
    }
}

proof fn last_is_not_white(text: Seq<char>)
    ensures
        trim_end(text) > 0 ==> !is_white(text[trim_end(text) - 1]),
    decreases text.len(),
{
    if text.len() > 0 && is_white(text.last()) {
        last_is_not_white(text.drop_last());
        trim_bounds(text.drop_last());
    }
}

/// The value of a digit, up to sixteen.
pub open spec fn digit_worth(c: char) -> int {
    if '0' <= c && c <= '9' {
        c as int - '0' as int
    } else if 'a' <= c && c <= 'f' {
        c as int - 'a' as int + 10
    } else {
        -1
    }
}

/// The number that digits of a base spell.
pub open spec fn digits_worth(digits: Seq<char>, base: int) -> int
    decreases digits.len(),
{
    if digits.len() == 0 {
        0
    } else {
        base * digits_worth(digits.drop_last(), base) + digit_worth(digits.last())
    }
}

/// A number in decimal reads back as that number; it is written in decimal
/// digits, and with no zero in front.
pub proof fn decimals_read_back(n: nat, i: int)
    ensures
        decimal(n).len() > 0,
        digits_worth(decimal(n), 10) == n,
        0 <= i < decimal(n).len() ==> 0 <= digit_worth(decimal(n)[i]) < 10,
        n > 0 ==> decimal(n)[0] != '0',
    decreases n,
{
    if n < 10 {
        let one = decimal(n);
        assert(one.drop_last() =~= seq![]);
        assert(digits_worth(one.drop_last(), 10) == 0);
    } else {
        let front = decimal(n / 10);
        decimals_read_back(n / 10, if i < front.len() { i } else { 0 });
        assert(decimal(n).drop_last() =~= front);
    }
}

/// A negative number is the positive one behind a minus sign.
pub proof fn negative_numbers_have_a_sign(n: int)
    ensures
        n < 0 ==> signed_decimal(n).len() > 1 && signed_decimal(n)[0] == '-' && digits_worth(
            signed_decimal(n).drop_first(),
            10,
        ) == -n,
        n >= 0 ==> digits_worth(signed_decimal(n), 10) == n && signed_decimal(n)[0] != '-',
{
    if n < 0 {
        decimals_read_back((-n) as nat, 0);
        assert(signed_decimal(n).drop_first() =~= decimal((-n) as nat));
    } else {
        decimals_read_back(n as nat, 0);
    }
}

/// Octets in hexadecimal have two digits each, the higher first, and a blank
/// between one and the next.
pub proof fn octets_have_two_digits(octets: Seq<u8>, j: int)
    requires
        0 <= j < octets.len(),
    ensures
        hex_text(octets).len() == 3 * octets.len() - 1,
        16 * digit_worth(hex_text(octets)[3 * j]) + digit_worth(hex_text(octets)[3 * j + 1])
            == octets[j],
        0 <= digit_worth(hex_text(octets)[3 * j]) < 16,
        0 <= digit_worth(hex_text(octets)[3 * j + 1]) < 16,
        j + 1 < octets.len() ==> hex_text(octets)[3 * j + 2] == ' ',
    decreases octets.len(),
{
    if octets.len() > 1 {
        let front = octets.drop_last();
        octets_have_two_digits(front, if j < front.len() { j } else { 0 });
        let text = hex_text(octets);
        let n = 3 * front.len() - 1;
        assert(text[n] == ' ');
        if j < front.len() {
            assert(text[3 * j] == hex_text(front)[3 * j]);
            assert(text[3 * j + 1] == hex_text(front)[3 * j + 1]);
            if j + 1 < front.len() {
                assert(text[3 * j + 2] == hex_text(front)[3 * j + 2]);
            }
        }
    }
}

/// A number in hexadecimal reads back, and has three digits or more.
pub proof fn short_hexadecimals_read_back(v: u16)
    ensures
        digits_worth(hex_3(v), 16) == v,
        hex_3(v).len() >= 3,
        v < 4096 ==> hex_3(v).len() == 3,
{
    let n = v as int;
    let s = hex_3(v);
    let a = s.drop_last();
    let b = a.drop_last();
    let c = b.drop_last();
    digit_is_worth_its_value(n % 16);
    digit_is_worth_its_value(n / 16 % 16);
    digit_is_worth_its_value(n / 256 % 16);
    digit_is_worth_its_value(n / 4096);
    assert(s.last() == digit_char(n % 16));
    assert(a.last() == digit_char(n / 16 % 16));
    assert(b.last() == digit_char(n / 256 % 16));
    if v >= 4096 {
        assert(c.last() == digit_char(n / 4096));
        assert(c.drop_last().len() == 0);
        assert(digits_worth(c.drop_last(), 16) == 0);
        assert(digits_worth(c, 16) == n / 4096);
    } else {
        assert(c.len() == 0);
        assert(digits_worth(c, 16) == 0);
    }
    assert(digits_worth(b, 16) == 16 * digits_worth(c, 16) + n / 256 % 16);
    assert(digits_worth(a, 16) == 16 * digits_worth(b, 16) + n / 16 % 16);
    assert(digits_worth(s, 16) == 16 * digits_worth(a, 16) + n % 16);
}

proof fn digit_is_worth_its_value(d: int)
    requires
        0 <= d < 16,
    ensures
        digit_worth(digit_char(d)) == d,
{
}

/// Trimming takes away white space and nothing else: what is in front of the
/// trimmed text, and behind it, is white.
pub proof fn only_white_space_is_trimmed(text: Seq<char>)
    ensures
        exists|front: Seq<char>, back: Seq<char>|
            #![trigger front.len(), back.len()]
            {
                &&& text == front + trimmed(text) + back
                &&& forall|i: int| 0 <= i < front.len() ==> is_white(#[trigger] front[i])
                &&& forall|i: int| 0 <= i < back.len() ==> is_white(#[trigger] back[i])
            },
{
    let from = trim_start(text);
    let rest = text.skip(from);
    let to = trim_end(rest);
    trim_bounds(text);
    trim_bounds(rest);
    before_is_white(text);
    behind_is_white(rest);
    let front = text.take(from);
    let back = rest.skip(to);
    assert(text =~= front + trimmed(text) + back);
    assert(front.len() >= 0 && back.len() >= 0);
}

proof fn before_is_white(text: Seq<char>)
    ensures
        forall|i: int| 0 <= i < trim_start(text) ==> is_white(#[trigger] text[i]),
    decreases text.len(),
{
    if text.len() > 0 && is_white(text[0]) {
        before_is_white(text.drop_first());
        trim_bounds(text.drop_first());
        assert forall|i: int| 0 <= i < trim_start(text) implies is_white(#[trigger] text[i]) by {
            if i > 0 {
                assert(text.drop_first()[i - 1] == text[i]);
            }
        }
    }
}

proof fn behind_is_white(text: Seq<char>)
    ensures
        forall|i: int| trim_end(text) <= i < text.len() ==> is_white(#[trigger] text[i]),
    decreases text.len(),
{
    if text.len() > 0 && is_white(text.last()) {
        behind_is_white(text.drop_last());
        trim_bounds(text.drop_last());
        assert forall|i: int| trim_end(text) <= i < text.len() implies is_white(
            #[trigger] text[i],
        ) by {
            if i < text.len() - 1 {
                assert(text.drop_last()[i] == text[i]);
            }
        }
    }
}

/// Of the plain characters only tabs, line ends and blanks are white; so are the
/// wider blanks and the line and paragraph separators.
pub proof fn white_space_is_what_separates(c: char)
    ensures
        c == ' ' || c == '\t' || c == '\n' || c == '\r' ==> is_white(c),
        0x21 <= c as u32 <= 0x84 ==> !is_white(c),
        c as u32 <= 8 || 14 <= c as u32 <= 31 ==> !is_white(c),
        0x2000 <= c as u32 <= 0x200a || c as u32 == 0xa0 || c as u32 == 0x3000 || c as u32 == 0x2028
            || c as u32 == 0x2029 || c as u32 == 0x202f || c as u32 == 0x205f || c as u32 == 0x1680
            || c as u32 == 0x85 ==> is_white(c),
        c as u32 == 0x200b || c as u32 == 0xfeff || c as u32 > 0x3000 ==> !is_white(c),
{
}

/// A text that neither starts nor ends in white space is left as it is.
pub proof fn bare_text_is_not_trimmed(text: Seq<char>)
    requires
        text.len() > 0 ==> !is_white(text[0]) && !is_white(text.last()),
    ensures
        trimmed(text) == text,
{
    let front = text.skip(0);
    assert(front =~= text);
    assert(front.take(text.len() as int) =~= text);
}

/// A truth value is written as a word, and the two words differ.
pub proof fn truth_values_are_words(b: bool)
    ensures
        b ==> bool_text(b) == seq!['t', 'r', 'u', 'e'],
        !b ==> bool_text(b) == seq!['f', 'a', 'l', 's', 'e'],
        bool_text(b) != bool_text(!b),
{
    reveal_strlit("true");
    reveal_strlit("false");
    assert("true"@ =~= seq!['t', 'r', 'u', 'e']);
    assert("false"@ =~= seq!['f', 'a', 'l', 's', 'e']);
    assert("true"@.len() == 4 && "false"@.len() == 5);
}

} // verus!
