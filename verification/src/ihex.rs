//! Intel HEX records.

use crate::text::{chars_of, digit_char};
use vstd::prelude::*;

verus! {

/// How many bytes a character takes in UTF-8.
pub open spec fn width_of(c: char) -> nat {
    let v = c as u32;
    if v < 0x80 {
        1
    } else if v < 0x800 {
        2
    } else if v < 0x10000 {
        3
    } else {
        4
    }
}

fn width(c: char) -> (w: u8)
    ensures
        w == width_of(c),
{
    let v: u32 = c as u32;
    if v < 0x80 {
        1
    } else if v < 0x800 {
        2
    } else if v < 0x10000 {
        3
    } else {
        4
    }
}

/// How many bytes a text takes in UTF-8.
pub open spec fn byte_len(text: Seq<char>) -> nat
    decreases text.len(),
{
    if text.len() == 0 {
        0
    } else {
        byte_len(text.drop_last()) + width_of(text.last())
    }
}

/// The value of a hexadecimal digit of either case.
pub open spec fn digit_value(c: char) -> Option<int> {
    let v = c as u32 as int;
    if 0x30 <= v <= 0x39 {
        Some(v - 0x30)
    } else if 0x41 <= v <= 0x46 {
        Some(v - 0x41 + 10)
    } else if 0x61 <= v <= 0x66 {
        Some(v - 0x61 + 10)
    } else {
        None
    }
}

fn digit(c: char) -> (d: Option<u8>)
    ensures
        match (d, digit_value(c)) {
            (Some(v), Some(w)) => v == w && v < 16,
            (None, None) => true,
            _ => false,
        },
{
    let v: u32 = c as u32;
    if 0x30 <= v && v <= 0x39 {
        Some((v - 0x30) as u8)
    } else if 0x41 <= v && v <= 0x46 {
        Some((v - 0x41 + 10) as u8)
    } else if 0x61 <= v && v <= 0x66 {
        Some((v - 0x61 + 10) as u8)
    } else {
        None
    }
}

/// The value of two characters as a hexadecimal byte; a plus sign may stand
/// for the first digit.
pub open spec fn pair_value(a: char, b: char) -> Option<int> {
    match digit_value(b) {
        None => None,
        Some(low) => if a == '+' {
            Some(low)
        } else {
            match digit_value(a) {
                None => None,
                Some(high) => Some(16 * high + low),
            }
        },
    }
}

fn pair(a: char, b: char) -> (byte: Option<u8>)
    ensures
        match (byte, pair_value(a, b)) {
            (Some(v), Some(w)) => v == w,
            (None, None) => true,
            _ => false,
        },
{
    match digit(b) {
        None => None,
        Some(low) => {
            if a == '+' {
                Some(low)
            } else {
                match digit(a) {
                    None => None,
                    Some(high) => Some(16 * high + low),
                }
            }
        },
    }
}

/// The bytes that pairs of hexadecimal digits stand for.
pub open spec fn hex_bytes(hex: Seq<char>) -> Option<Seq<u8>>
    decreases hex.len(),
{
    if hex.len() == 0 {
        Some(seq![])
    } else if hex.len() == 1 {
        None
    } else {
        match (pair_value(hex[0], hex[1]), hex_bytes(hex.skip(2))) {
            (Some(v), Some(rest)) => Some(seq![v as u8] + rest),
            _ => None,
        }
    }
}

/// Whether the text can be taken two bytes at a time up to the first pair that
/// is no byte: no pair ends in the middle of a character.
pub open spec fn pairs_align(hex: Seq<char>) -> bool
    decreases hex.len(),
{
    if hex.len() == 0 || width_of(hex[0]) == 2 {
        true
    } else if width_of(hex[0]) > 2 {
        false
    } else {
        hex.len() == 1 || (width_of(hex[1]) == 1 && (pair_value(hex[0], hex[1]) is Some
            ==> pairs_align(hex.skip(2))))
    }
}

/// The sum of bytes.
pub open spec fn byte_sum(bytes: Seq<u8>) -> int
    decreases bytes.len(),
{
    if bytes.len() == 0 {
        0
    } else {
        byte_sum(bytes.drop_last()) + bytes.last()
    }
}

/// What is wrong with a record.
#[derive(Clone, Copy, PartialEq, Eq, Structural, Debug)]
pub enum IhexError {
    MissingColon,
    OddDigits,
    InvalidByte,
    Checksum,
}

/// The bytes of a record, its checksum included.
pub open spec fn record_of(line: Seq<char>) -> Result<Seq<u8>, IhexError> {
    if line.len() == 0 || line[0] != ':' {
        Err(IhexError::MissingColon)
    } else if byte_len(line.skip(1)) % 2 != 0 {
        Err(IhexError::OddDigits)
    } else {
        match hex_bytes(line.skip(1)) {
            None => Err(IhexError::InvalidByte),
            Some(bytes) => if byte_sum(bytes) % 256 != 0 {
                Err(IhexError::Checksum)
            } else {
                Ok(bytes)
            },
        }
    }
}

/// Whether a record can be read two bytes at a time.
pub open spec fn record_aligns(line: Seq<char>) -> bool {
    line.len() > 0 && line[0] == ':' && byte_len(line.skip(1)) % 2 == 0 ==> pairs_align(
        line.skip(1),
    )
}

fn bytes_are_odd(text: &[char], from: usize) -> (odd: bool)
    requires
        from <= text@.len(),
    ensures
        odd == (byte_len(text@.skip(from as int)) % 2 != 0),
{
    let ghost rest = text@.skip(from as int);
    let mut odd = false;
    for i in from..text.len()
        invariant
            from <= text@.len(),
            rest == text@.skip(from as int),
            odd == (byte_len(rest.take(i - from)) % 2 != 0),
    {
        assert(rest.take(i + 1 - from).drop_last() =~= rest.take(i - from));
        assert(rest.take(i + 1 - from).last() == text@[i as int]);
        if width(text[i]) % 2 == 1 {
            odd = !odd;
        }
    }
    assert(rest.take(text@.len() - from) =~= rest);
    odd
}

/// Tells whether a record can be read two bytes at a time.
pub fn ihex_record_aligns(line: &[char]) -> (aligns: bool)
    ensures
        aligns == record_aligns(line@),
{
    if line.len() == 0 || line[0] != ':' || bytes_are_odd(line, 1) {
        return true;
    }
    let ghost hex = line@.skip(1);
    let mut i: usize = 1;
    assert(hex.skip(0) =~= hex);
    while i < line.len()
        invariant
            1 <= i <= line@.len(),
            line@[0] == ':',
            hex == line@.skip(1),
            byte_len(hex) % 2 == 0,
            pairs_align(hex) == pairs_align(hex.skip(i - 1)),
        decreases line@.len() - i,
    {
        let ghost rest = hex.skip(i - 1);
        assert(rest[0] == line@[i as int]);
        let w: u8 = width(line[i]);
        if w == 2 {
            return true;
        }
        if w > 2 {
            return false;
        }
        if i + 1 == line.len() {
            return true;
        }
        assert(rest[1] == line@[i + 1]);
        if width(line[i + 1]) > 1 {
            return false;
        }
        if pair(line[i], line[i + 1]).is_none() {
            return true;
        }
        assert(rest.skip(2) =~= hex.skip(i + 2 - 1));
        i = i + 2;
    }
    true
}

proof fn hex_bytes_prefix(hex: Seq<char>, n: int, bytes: Seq<u8>)
    requires
        0 <= 2 * n <= hex.len(),
        bytes.len() == n,
        forall|i: int|
            0 <= i < n ==> pair_value(hex[2 * i], hex[2 * i + 1]) == Some(
                #[trigger] bytes[i] as int,
            ),
    ensures
        hex_bytes(hex) == match hex_bytes(hex.skip(2 * n)) {
            Some(rest) => Some(bytes + rest),
            None => None,
        },
    decreases n,
{
    if n == 0 {
        assert(hex.skip(0) =~= hex);
        if hex_bytes(hex) is Some {
            assert(bytes + hex_bytes(hex)->0 =~= hex_bytes(hex)->0);
        }
    } else {
        let tail = bytes.skip(1);
        assert(pair_value(hex[0], hex[1]) == Some(bytes[0] as int)) by {
            assert(0 <= 0 < n);
            assert(bytes[0] == bytes[0]);
        }
        assert forall|i: int| 0 <= i < n - 1 implies pair_value(
            hex.skip(2)[2 * i],
            hex.skip(2)[2 * i + 1],
        ) == Some(#[trigger] tail[i] as int) by {
            assert(tail[i] == bytes[i + 1]);
        }
        hex_bytes_prefix(hex.skip(2), n - 1, tail);
        assert(hex.skip(2).skip(2 * (n - 1)) =~= hex.skip(2 * n));
        if hex_bytes(hex.skip(2 * n)) is Some {
            let rest = hex_bytes(hex.skip(2 * n))->0;
            assert(seq![bytes[0]] + (tail + rest) =~= bytes + rest);
        }
    }
}

/// Reads a record: a colon, an even number of digits, and a checksum that
/// makes the bytes add up to zero.
pub fn parse_ihex_record(line: &[char]) -> (record: Result<Vec<u8>, IhexError>)
    ensures
        match (record, record_of(line@)) {
            (Ok(bytes), Ok(view)) => bytes@ == view,
            (Err(e), Err(f)) => e == f,
            _ => false,
        },
{
    if line.len() == 0 || line[0] != ':' {
        return Err(IhexError::MissingColon);
    }
    if bytes_are_odd(line, 1) {
        return Err(IhexError::OddDigits);
    }
    let ghost hex = line@.skip(1);
    let mut bytes: Vec<u8> = Vec::new();
    let mut sum: u8 = 0;
    let mut i: usize = 1;
    while i < line.len()
        invariant
            1 <= i <= line@.len(),
            line@[0] == ':',
            hex == line@.skip(1),
            byte_len(hex) % 2 == 0,
            i == 1 + 2 * bytes@.len(),
            sum == byte_sum(bytes@) % 256,
            forall|k: int|
                0 <= k < bytes@.len() ==> pair_value(hex[2 * k], hex[2 * k + 1]) == Some(
                    #[trigger] bytes@[k] as int,
                ),
        decreases line@.len() - i,
    {
        let ghost n = bytes@.len() as int;
        let ghost rest = hex.skip(2 * n);
        proof {
            hex_bytes_prefix(hex, n, bytes@);
        }
        assert(rest[0] == line@[i as int]);
        if i + 1 == line.len() {
            assert(rest.len() == 1);
            return Err(IhexError::InvalidByte);
        }
        assert(rest[1] == line@[i + 1]);
        match pair(line[i], line[i + 1]) {
            None => {
                return Err(IhexError::InvalidByte);
            },
            Some(byte) => {
                let ghost before = bytes@;
                bytes.push(byte);
                assert(bytes@.drop_last() =~= before);
                sum = sum.wrapping_add(byte);
            },
        }
        i = i + 2;
    }
    proof {
        hex_bytes_prefix(hex, bytes@.len() as int, bytes@);
        assert(hex.skip(2 * bytes@.len() as int) =~= seq![]);
        assert(hex_bytes(seq![]) == Some(Seq::<u8>::empty()));
        assert(bytes@ + seq![] =~= bytes@);
    }
    if sum != 0 {
        return Err(IhexError::Checksum);
    }
    Ok(bytes)
}

/// What an error says.
pub open spec fn error_text(e: IhexError) -> Seq<char> {
    match e {
        IhexError::MissingColon => "missing ':'"@,
        IhexError::OddDigits => "odd number of hex digits"@,
        IhexError::InvalidByte => "invalid hex byte: invalid digit found in string"@,
        IhexError::Checksum => "checksum mismatch"@,
    }
}

/// Says what is wrong with a record.
pub fn ihex_error_text(e: IhexError) -> (text: &'static str)
    ensures
        text@ == error_text(e),
{
    match e {
        IhexError::MissingColon => "missing ':'",
        IhexError::OddDigits => "odd number of hex digits",
        IhexError::InvalidByte => "invalid hex byte: invalid digit found in string",
        IhexError::Checksum => "checksum mismatch",
    }
}

/// Reads a line that holds a record.
pub fn parse_ihex_line(line: &str) -> (record: Result<Vec<u8>, String>)
    requires
        record_aligns(line@),
    ensures
        match (record, record_of(line@)) {
            (Ok(bytes), Ok(view)) => bytes@ == view,
            (Err(text), Err(e)) => text@ == error_text(e),
            _ => false,
        },
{
    let chars = chars_of(line);
    match parse_ihex_record(chars.as_slice()) {
        Ok(bytes) => Ok(bytes),
        Err(e) => Err(ihex_error_text(e).to_owned()),
    }
}

/// Bytes as pairs of hexadecimal digits.
pub open spec fn hex_digits(bytes: Seq<u8>) -> Seq<char>
    decreases bytes.len(),
{
    if bytes.len() == 0 {
        seq![]
    } else {
        seq![digit_char(bytes[0] as int / 16), digit_char(bytes[0] as int % 16)] + hex_digits(
            bytes.skip(1),
        )
    }
}

proof fn digits_read_back(d: int)
    requires
        0 <= d < 16,
    ensures
        digit_value(digit_char(d)) == Some(d),
        digit_char(d) != '+',
        width_of(digit_char(d)) == 1,
{
}

proof fn hex_digits_read_back(bytes: Seq<u8>)
    ensures
        hex_bytes(hex_digits(bytes)) == Some(bytes),
        pairs_align(hex_digits(bytes)),
        hex_digits(bytes).len() == 2 * bytes.len(),
        forall|i: int|
            0 <= i < hex_digits(bytes).len() ==> width_of(#[trigger] hex_digits(bytes)[i]) == 1,
    decreases bytes.len(),
{
    let hex = hex_digits(bytes);
    if bytes.len() == 0 {
        assert(hex =~= seq![]);
        assert(bytes =~= seq![]);
    } else {
        let rest = bytes.skip(1);
        let high = bytes[0] as int / 16;
        let low = bytes[0] as int % 16;
        hex_digits_read_back(rest);
        digits_read_back(high);
        digits_read_back(low);
        assert(hex.skip(2) =~= hex_digits(rest));
        assert(hex[0] == digit_char(high) && hex[1] == digit_char(low));
        assert(16 * high + low == bytes[0]);
        assert(seq![bytes[0]] + rest =~= bytes);
        assert forall|i: int| 0 <= i < hex.len() implies width_of(#[trigger] hex[i]) == 1 by {
            if i >= 2 {
                assert(hex[i] == hex_digits(rest)[i - 2]);
            }
        }
    }
}

proof fn narrow_byte_len(text: Seq<char>)
    requires
        forall|i: int| 0 <= i < text.len() ==> width_of(#[trigger] text[i]) == 1,
    ensures
        byte_len(text) == text.len(),
    decreases text.len(),
{
    if text.len() > 0 {
        assert forall|i: int| 0 <= i < text.len() - 1 implies width_of(
            #[trigger] text.drop_last()[i],
        ) == 1 by {
            assert(text.drop_last()[i] == text[i]);
        }
        narrow_byte_len(text.drop_last());
    }
}

/// Bytes that add up to zero, written as a record, are read back.
pub proof fn written_record_reads_back(bytes: Seq<u8>)
    requires
        byte_sum(bytes) % 256 == 0,
    ensures
        record_of(seq![':'] + hex_digits(bytes)) == Ok::<Seq<u8>, IhexError>(bytes),
        record_aligns(seq![':'] + hex_digits(bytes)),
{
    let line = seq![':'] + hex_digits(bytes);
    assert(line.skip(1) =~= hex_digits(bytes));
    hex_digits_read_back(bytes);
    narrow_byte_len(hex_digits(bytes));
}

/// Hexadecimal digits are the ten decimal ones and the letters from A to F in
/// either case.
pub proof fn digits_go_up_to_fifteen(c: char)
    ensures
        '0' <= c && c <= '9' ==> digit_value(c) == Some(c as int - '0' as int),
        'a' <= c && c <= 'f' ==> digit_value(c) == Some(10 + c as int - 'a' as int),
        'A' <= c && c <= 'F' ==> digit_value(c) == Some(10 + c as int - 'A' as int),
        c < '0' || ('9' < c && c < 'A') || ('F' < c && c < 'a') || 'f' < c ==> digit_value(c)
            is None,
{
}

/// Two digits make a byte, the higher first; of the signs only a plus may stand
/// in front of a single digit.
pub proof fn two_digits_make_a_byte(a: char, b: char)
    ensures
        match (digit_value(a), digit_value(b)) {
            (Some(high), Some(low)) => pair_value(a, b) == Some(16 * high + low),
            (_, None) => pair_value(a, b) is None,
            (None, Some(low)) => if a == '+' {
                pair_value(a, b) == Some(low)
            } else {
                pair_value(a, b) is None
            },
        },
{
}

proof fn read_bytes_are_pairs(hex: Seq<char>)
    ensures
        match hex_bytes(hex) {
            Some(bytes) => {
                &&& 2 * bytes.len() == hex.len()
                &&& forall|k: int|
                    #![trigger bytes[k]]
                    0 <= k < bytes.len() ==> pair_value(hex[2 * k], hex[2 * k + 1]) == Some(
                        bytes[k] as int,
                    )
            },
            None => hex.len() % 2 == 1 || exists|k: int|
                0 <= k && 2 * k + 1 < hex.len() && #[trigger] pair_fails(hex, k),
        },
    decreases hex.len(),
{
    if hex.len() >= 2 {
        let rest = hex.skip(2);
        read_bytes_are_pairs(rest);
        match (pair_value(hex[0], hex[1]), hex_bytes(rest)) {
            (Some(v), Some(tail)) => {
                let bytes = seq![v as u8] + tail;
                assert forall|k: int|
                    #![trigger bytes[k]]
                    0 <= k < bytes.len() implies pair_value(hex[2 * k], hex[2 * k + 1]) == Some(
                    bytes[k] as int,
                ) by {
                    if k > 0 {
                        assert(bytes[k] == tail[k - 1]);
                        assert(rest[2 * (k - 1)] == hex[2 * k]);
                        assert(rest[2 * (k - 1) + 1] == hex[2 * k + 1]);
                    }
                }
            },
            (None, _) => {
                assert(pair_fails(hex, 0));
            },
            (_, None) => {
                if rest.len() % 2 == 0 {
                    let k = choose|k: int|
                        0 <= k && 2 * k + 1 < rest.len() && #[trigger] pair_fails(rest, k);
                    assert(rest[2 * k] == hex[2 * (k + 1)]);
                    assert(rest[2 * k + 1] == hex[2 * (k + 1) + 1]);
                    assert(pair_fails(hex, k + 1));
                }
            },
        }
    }
}

spec fn pair_fails(hex: Seq<char>, k: int) -> bool {
    pair_value(hex[2 * k], hex[2 * k + 1]) is None
}

/// A record that is read is a colon and two digits for each byte, and its bytes
/// add up to zero.
pub proof fn records_are_pairs_of_digits(line: Seq<char>, k: int)
    requires
        record_of(line) is Ok,
    ensures
        line[0] == ':',
        line.len() == 1 + 2 * record_of(line)->Ok_0.len(),
        0 <= k < record_of(line)->Ok_0.len() ==> pair_value(line[1 + 2 * k], line[2 + 2 * k])
            == Some(record_of(line)->Ok_0[k] as int),
        byte_sum(record_of(line)->Ok_0) % 256 == 0,
{
    read_bytes_are_pairs(line.skip(1));
    if 0 <= k < record_of(line)->Ok_0.len() {
        assert(line.skip(1)[2 * k] == line[1 + 2 * k]);
        assert(line.skip(1)[2 * k + 1] == line[2 + 2 * k]);
    }
}

/// Why plain text is not read as a record: it does not start with a colon; else
/// the number of its characters after the colon is odd; else a pair of them is
/// no byte; else the bytes do not add up to zero.
pub proof fn plain_records_fail_for_a_reason(line: Seq<char>)
    requires
        forall|i: int| 0 <= i < line.len() ==> (#[trigger] line[i]) as u32 <= 127,
    ensures
        match record_of(line) {
            Err(IhexError::MissingColon) => line.len() == 0 || line[0] != ':',
            Err(IhexError::OddDigits) => line.len() > 0 && line[0] == ':' && line.len() % 2 == 0,
            Err(IhexError::InvalidByte) => {
                &&& line.len() % 2 == 1
                &&& line[0] == ':'
                &&& exists|k: int|
                    #![trigger line[1 + 2 * k]]
                    0 <= k && 2 + 2 * k < line.len() && pair_value(
                        line[1 + 2 * k],
                        line[2 + 2 * k],
                    ) is None
            },
            Err(IhexError::Checksum) => {
                &&& line.len() % 2 == 1
                &&& line[0] == ':'
                &&& forall|k: int|
                    #![trigger line[1 + 2 * k]]
                    0 <= k && 2 + 2 * k < line.len() ==> pair_value(
                        line[1 + 2 * k],
                        line[2 + 2 * k],
                    ) is Some
            },
            Ok(_) => line.len() % 2 == 1 && line[0] == ':',
        },
{
    if line.len() > 0 && line[0] == ':' {
        let hex = line.skip(1);
        assert forall|i: int| 0 <= i < hex.len() implies width_of(#[trigger] hex[i]) == 1 by {
            assert(hex[i] == line[i + 1]);
        }
        narrow_byte_len(hex);
        read_bytes_are_pairs(hex);
        if hex.len() % 2 == 0 {
            match hex_bytes(hex) {
                None => {
                    let k = choose|k: int|
                        0 <= k && 2 * k + 1 < hex.len() && #[trigger] pair_fails(hex, k);
                    assert(hex[2 * k] == line[1 + 2 * k]);
                    assert(hex[2 * k + 1] == line[2 + 2 * k]);
                },
                Some(bytes) => {
                    assert forall|k: int|
                        #![trigger line[1 + 2 * k]]
                        0 <= k && 2 + 2 * k < line.len() implies pair_value(
                        line[1 + 2 * k],
                        line[2 + 2 * k],
                    ) is Some by {
                        assert(hex[2 * k] == line[1 + 2 * k]);
                        assert(hex[2 * k + 1] == line[2 + 2 * k]);
                        assert(pair_value(hex[2 * k], hex[2 * k + 1]) == Some(bytes[k] as int));
                    }
                },
            }
        }
    }
}

/// Bytes that do not add up to zero, written as a record, are refused.
pub proof fn wrong_checksums_are_refused(bytes: Seq<u8>)
    requires
        byte_sum(bytes) % 256 != 0,
    ensures
        record_of(seq![':'] + hex_digits(bytes)) == Err::<Seq<u8>, IhexError>(IhexError::Checksum),
{
    let line = seq![':'] + hex_digits(bytes);
    assert(line.skip(1) =~= hex_digits(bytes));
    hex_digits_read_back(bytes);
    narrow_byte_len(hex_digits(bytes));
}

/// The sum of bytes adds up over parts.
pub proof fn sums_add_up(a: Seq<u8>, b: Seq<u8>)
    ensures
        byte_sum(a + b) == byte_sum(a) + byte_sum(b),
        a.len() == 1 ==> byte_sum(a) == a[0],
    decreases b.len(),
{
    if b.len() == 0 {
        assert(a + b =~= a);
    } else {
        sums_add_up(a, b.drop_last());
        assert((a + b).drop_last() =~= a + b.drop_last());
    }
    if a.len() == 1 {
        assert(a.drop_last().len() == 0);
        assert(byte_sum(a.drop_last()) == 0);
    }
}

/// Each reason has its own words.
pub proof fn reasons_have_their_words(e: IhexError)
    ensures
        e == IhexError::MissingColon ==> error_text(e) == "missing ':'"@,
        e == IhexError::OddDigits ==> error_text(e) == "odd number of hex digits"@,
        e == IhexError::InvalidByte ==> error_text(e)
            == "invalid hex byte: invalid digit found in string"@,
        e == IhexError::Checksum ==> error_text(e) == "checksum mismatch"@,
{
}

/// Bytes are written in two digits each, the higher first, and in nothing else.
pub proof fn hex_digits_are_digits(bytes: Seq<u8>)
    ensures
        hex_digits(bytes).len() == 2 * bytes.len(),
        forall|i: int|
            0 <= i < hex_digits(bytes).len() ==> digit_value(#[trigger] hex_digits(bytes)[i])
                is Some,
    decreases bytes.len(),
{
    let hex = hex_digits(bytes);
    if bytes.len() > 0 {
        let rest = bytes.skip(1);
        hex_digits_are_digits(rest);
        digits_read_back(bytes[0] as int / 16);
        digits_read_back(bytes[0] as int % 16);
        assert forall|i: int| 0 <= i < hex.len() implies digit_value(#[trigger] hex[i]) is Some by {
            if i >= 2 {
                assert(hex[i] == hex_digits(rest)[i - 2]);
            }
        }
    }
}

proof fn byte_pairs_are_passed(hex: Seq<char>, k: int)
    requires
        0 <= k,
        2 * k <= hex.len(),
        forall|j: int|
            #![trigger hex[2 * j]]
            0 <= j < k ==> pair_value(hex[2 * j], hex[2 * j + 1]) is Some,
    ensures
        pairs_align(hex) == pairs_align(hex.skip(2 * k)),
    decreases k,
{
    if k > 0 {
        let rest = hex.skip(2);
        assert(hex[2 * 0int] == hex[0]);
        assert forall|j: int|
            #![trigger rest[2 * j]]
            0 <= j < k - 1 implies pair_value(rest[2 * j], rest[2 * j + 1]) is Some by {
            assert(rest[2 * j] == hex[2 * (j + 1)]);
            assert(rest[2 * j + 1] == hex[2 * (j + 1) + 1]);
        }
        byte_pairs_are_passed(rest, k - 1);
        assert(rest.skip(2 * (k - 1)) =~= hex.skip(2 * k));
    } else {
        assert(hex.skip(0) =~= hex);
    }
}

/// A record is read two bytes at a time up to the first pair that is no byte.
/// It fails to align just where that pair ends within a character: where its
/// first character takes more than two bytes, or its second more than one.
pub proof fn pairs_end_with_their_characters(line: Seq<char>, k: int)
    requires
        line.len() > 0,
        line[0] == ':',
        byte_len(line.skip(1)) % 2 == 0,
        0 <= k,
        1 + 2 * k <= line.len(),
        forall|j: int|
            #![trigger line[1 + 2 * j]]
            0 <= j < k ==> pair_value(line[1 + 2 * j], line[2 + 2 * j]) is Some,
    ensures
        line.len() <= 2 + 2 * k && (line.len() == 2 + 2 * k ==> line[1 + 2 * k] as u32 <= 0x7ff)
            ==> record_aligns(line),
        line.len() > 1 + 2 * k && line[1 + 2 * k] as u32 > 0x7ff ==> !record_aligns(line),
        line.len() > 1 + 2 * k && 0x7f < line[1 + 2 * k] as u32 <= 0x7ff ==> record_aligns(line),
        line.len() > 2 + 2 * k && line[1 + 2 * k] as u32 <= 0x7f && line[2 + 2 * k] as u32 > 0x7f
            ==> !record_aligns(line),
        line.len() > 2 + 2 * k && line[1 + 2 * k] as u32 <= 0x7f && line[2 + 2 * k] as u32 <= 0x7f
            && pair_value(line[1 + 2 * k], line[2 + 2 * k]) is None ==> record_aligns(line),
{
    let hex = line.skip(1);
    assert forall|j: int|
        #![trigger hex[2 * j]]
        0 <= j < k implies pair_value(hex[2 * j], hex[2 * j + 1]) is Some by {
        assert(hex[2 * j] == line[1 + 2 * j]);
        assert(hex[2 * j + 1] == line[2 + 2 * j]);
    }
    byte_pairs_are_passed(hex, k);
    let rest = hex.skip(2 * k);
    assert(rest.len() > 0 ==> rest[0] == line[1 + 2 * k]);
    assert(rest.len() > 1 ==> rest[1] == line[2 + 2 * k]);
}

/// A line that is refused before it is read in pairs aligns.
pub proof fn refused_lines_align(line: Seq<char>)
    requires
        line.len() == 0 || line[0] != ':' || byte_len(line.skip(1)) % 2 != 0,
    ensures
        record_aligns(line),
        record_of(line) is Err,
{
}

/// A character takes one to four bytes, by its code.
pub proof fn characters_take_one_to_four_bytes(c: char)
    ensures
        c as u32 <= 0x7f ==> width_of(c) == 1,
        0x7f < c as u32 <= 0x7ff ==> width_of(c) == 2,
        0x7ff < c as u32 <= 0xffff ==> width_of(c) == 3,
        0xffff < c as u32 ==> width_of(c) == 4,
{
}

/// The bytes of two texts, one after the other, are those of both.
pub proof fn byte_lengths_add_up(a: Seq<char>, b: Seq<char>, c: char)
    ensures
        byte_len(seq![c]) == width_of(c),
        byte_len(a + b) == byte_len(a) + byte_len(b),
    decreases b.len(),
{
    let one = seq![c];
    assert(one.drop_last() =~= seq![]);
    assert(byte_len(one.drop_last()) == 0);
    if b.len() > 0 {
        assert((a + b).drop_last() =~= a + b.drop_last());
        byte_lengths_add_up(a, b.drop_last(), c);
    } else {
        assert(a + b =~= a);
    }
}

} // verus!
