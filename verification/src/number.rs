//! Reading and writing integers.
use vstd::prelude::*;
use vstd::string::*;

use crate::text::{
    ascii_lowered, from_chars, has_prefix, slice_chars, small_letter, starts_with,
};

verus! {

/// Why a text is not an integer of the wanted range.
#[derive(Debug, Clone, Copy, PartialEq, Eq, Structural)]
pub enum IntError {
    /// There is nothing to read.
    Empty,
    /// Something other than a digit stands where a digit must.
    InvalidDigit,
    /// The number is above the range.
    PosOverflow,
    /// The number is below the range.
    NegOverflow,
}

impl IntError {
    /// What the error says.
    pub open spec fn text(self) -> Seq<char> {
        match self {
            IntError::Empty => "cannot parse integer from empty string"@,
            IntError::InvalidDigit => "invalid digit found in string"@,
            IntError::PosOverflow => "number too large to fit in target type"@,
            IntError::NegOverflow => "number too small to fit in target type"@,
        }
    }

    /// The error as a message.
    pub fn message(&self) -> (out: String)
        ensures
            out@ == self.text(),
    {
        match self {
            IntError::Empty => "cannot parse integer from empty string".to_owned(),
            IntError::InvalidDigit => "invalid digit found in string".to_owned(),
            IntError::PosOverflow => "number too large to fit in target type".to_owned(),
            IntError::NegOverflow => "number too small to fit in target type".to_owned(),
        }
    }
}

// ─── Digits ──────────────────────────────────────────────────────────────────

/// What a character counts as a digit, letters standing for ten and up in
/// either case.
pub open spec fn digit_value(c: char, radix: int) -> Option<int> {
    let d = if '0' <= c <= '9' {
        c as int - '0' as int
    } else if 'a' <= c <= 'z' {
        c as int - 'a' as int + 10
    } else if 'A' <= c <= 'Z' {
        c as int - 'A' as int + 10
    } else {
        radix
    };
    if d < radix {
        Some(d)
    } else {
        None
    }
}

/// Reads one digit.
pub fn read_digit(c: char, radix: u32) -> (d: Option<u32>)
    ensures
        match d {
            Some(v) => digit_value(c, radix as int) == Some(v as int),
            None => digit_value(c, radix as int) is None,
        },
{
    let n = c as u32;
    let d: u32 = if '0' <= c && c <= '9' {
        n - 48
    } else if 'a' <= c && c <= 'z' {
        n - 97 + 10
    } else if 'A' <= c && c <= 'Z' {
        n - 65 + 10
    } else {
        radix
    };
    if d < radix {
        Some(d)
    } else {
        None
    }
}

/// The digit that stands for a value below sixteen.
pub open spec fn digit_char(d: int) -> char
    recommends
        0 <= d < 16,
{
    if d < 10 {
        (('0' as int) + d) as char
    } else {
        (('a' as int) + d - 10) as char
    }
}

fn write_digit(d: u64) -> (c: char)
    requires
        d < 16,
    ensures
        c == digit_char(d as int),
{
    if d < 10 {
        (48 + d as u8) as char
    } else {
        (87 + d as u8) as char
    }
}

/// A digit that is written is read back as the same value.
proof fn lemma_digit_round_trip(d: int, radix: int)
    requires
        0 <= d < radix <= 16,
    ensures
        digit_value(digit_char(d), radix) == Some(d),
        digit_char(d) != '+',
        digit_char(d) != '-',
{
}

// ─── Reading ─────────────────────────────────────────────────────────────────

/// Reads digits one by one onto `acc`, growing away from zero in the
/// direction of the sign. The first character that is no digit, or that takes
/// the number out of the range, decides the error.
pub open spec fn read_digits(
    s: Seq<char>,
    radix: int,
    acc: int,
    negative: bool,
    low: int,
    high: int,
) -> Result<int, IntError>
    decreases s.len(),
{
    if s.len() == 0 {
        Ok(acc)
    } else {
        match digit_value(s[0], radix) {
            None => Err(IntError::InvalidDigit),
            Some(d) => {
                let next = if negative {
                    acc * radix - d
                } else {
                    acc * radix + d
                };
                if next > high {
                    Err(IntError::PosOverflow)
                } else if next < low {
                    Err(IntError::NegOverflow)
                } else {
                    read_digits(s.drop_first(), radix, next, negative, low, high)
                }
            },
        }
    }
}

/// The integer that a text writes: an optional sign, then digits and nothing
/// else. A minus sign counts only where the range has negative numbers.
pub open spec fn integer_of(s: Seq<char>, radix: int, low: int, high: int) -> Result<int, IntError> {
    if s.len() == 0 {
        Err(IntError::Empty)
    } else if s.len() == 1 && (s[0] == '+' || s[0] == '-') {
        Err(IntError::InvalidDigit)
    } else if s[0] == '+' {
        read_digits(s.drop_first(), radix, 0, false, low, high)
    } else if s[0] == '-' && low < 0 {
        read_digits(s.drop_first(), radix, 0, true, low, high)
    } else {
        read_digits(s, radix, 0, false, low, high)
    }
}

/// Whether a text is made of digits alone.
pub open spec fn all_digits(s: Seq<char>, radix: int) -> bool {
    forall|i: int| 0 <= i < s.len() ==> digit_value(#[trigger] s[i], radix) is Some
}

/// The number that digits stand for, the highest first.
pub open spec fn digits_value(s: Seq<char>, radix: int) -> int
    decreases s.len(),
{
    if s.len() == 0 {
        0
    } else {
        digits_value(s.drop_last(), radix) * radix + digit_value(s.last(), radix)->0
    }
}

/// Reads an integer of the given radix and range.
pub fn read_integer(s: &Vec<char>, radix: u32, low: i128, high: i128) -> (out: Result<
    i128,
    IntError,
>)
    requires
        2 <= radix <= 36,
        -0x1_0000_0000_0000_0000 <= low <= 0,
        0 <= high <= 0x1_0000_0000_0000_0000,
    ensures
        match out {
            Ok(v) => integer_of(s@, radix as int, low as int, high as int) == Ok::<int, IntError>(
                v as int,
            ) && low <= v <= high,
            Err(e) => integer_of(s@, radix as int, low as int, high as int) == Err::<int, IntError>(
                e,
            ),
        },
{
    if s.len() == 0 {
        return Err(IntError::Empty);
    }
    if s.len() == 1 && (s[0] == '+' || s[0] == '-') {
        return Err(IntError::InvalidDigit);
    }
    let negative: bool = s[0] == '-' && low < 0;
    let mut at: usize = 0;
    if s[0] == '+' || negative {
        at = 1;
    }
    let ghost whole = read_digits(
        s@.skip(at as int),
        radix as int,
        0,
        negative,
        low as int,
        high as int,
    );
    proof {
        assert(s@.skip(0) =~= s@);
        assert(s@.skip(1) =~= s@.drop_first());
    }
    let mut acc: i128 = 0;
    while at < s.len()
        invariant
            2 <= radix <= 36,
            -0x1_0000_0000_0000_0000 <= low <= 0,
            0 <= high <= 0x1_0000_0000_0000_0000,
            low <= acc <= high,
            at <= s.len(),
            whole == read_digits(
                s@.skip(at as int),
                radix as int,
                acc as int,
                negative,
                low as int,
                high as int,
            ),
            whole == integer_of(s@, radix as int, low as int, high as int),
        decreases s.len() - at,
    {
        assert(s@.skip(at as int).drop_first() =~= s@.skip(at + 1));
        match read_digit(s[at], radix) {
            None => {
                return Err(IntError::InvalidDigit);
            },
            Some(d) => {
                assert(-0x1_0000_0000_0000_0000 * 36 <= acc * radix <= 0x1_0000_0000_0000_0000
                    * 36) by (nonlinear_arith)
                    requires
                        2 <= radix <= 36,
                        -0x1_0000_0000_0000_0000 <= acc <= 0x1_0000_0000_0000_0000,
                ;
                let next: i128 = if negative {
                    acc * (radix as i128) - (d as i128)
                } else {
                    acc * (radix as i128) + (d as i128)
                };
                if next > high {
                    return Err(IntError::PosOverflow);
                }
                if next < low {
                    return Err(IntError::NegOverflow);
                }
                acc = next;
            },
        }
        at += 1;
    }
    Ok(acc)
}

/// Reads a decimal `i32`.
pub fn read_i32(s: &Vec<char>) -> (out: Result<i32, IntError>)
    ensures
        match out {
            Ok(v) => integer_of(s@, 10, i32::MIN as int, i32::MAX as int) == Ok::<int, IntError>(
                v as int,
            ),
            Err(e) => integer_of(s@, 10, i32::MIN as int, i32::MAX as int) == Err::<int, IntError>(
                e,
            ),
        },
{
    match read_integer(s, 10, -0x8000_0000, 0x7fff_ffff) {
        Ok(v) => Ok(v as i32),
        Err(e) => Err(e),
    }
}

/// Reads a decimal `i64`.
pub fn read_i64(s: &Vec<char>) -> (out: Result<i64, IntError>)
    ensures
        match out {
            Ok(v) => integer_of(s@, 10, i64::MIN as int, i64::MAX as int) == Ok::<int, IntError>(
                v as int,
            ),
            Err(e) => integer_of(s@, 10, i64::MIN as int, i64::MAX as int) == Err::<int, IntError>(
                e,
            ),
        },
{
    match read_integer(s, 10, -0x8000_0000_0000_0000, 0x7fff_ffff_ffff_ffff) {
        Ok(v) => Ok(v as i64),
        Err(e) => Err(e),
    }
}

/// Reads a hexadecimal `u64`.
pub fn read_hex(s: &Vec<char>) -> (out: Result<u64, IntError>)
    ensures
        match out {
            Ok(v) => integer_of(s@, 16, 0, u64::MAX as int) == Ok::<int, IntError>(v as int),
            Err(e) => integer_of(s@, 16, 0, u64::MAX as int) == Err::<int, IntError>(e),
        },
{
    match read_integer(s, 16, 0, 0xffff_ffff_ffff_ffff) {
        Ok(v) => Ok(v as u64),
        Err(e) => Err(e),
    }
}

/// A text without the `0x` or `0X` that it starts with, if it does.
pub open spec fn without_hex_prefix(s: Seq<char>) -> Seq<char> {
    if starts_with(s, "0x"@) || starts_with(s, "0X"@) {
        s.skip(2)
    } else {
        s
    }
}

/// Removes a `0x` or `0X` at the start.
pub fn strip_hex_prefix(s: &Vec<char>) -> (out: Vec<char>)
    ensures
        out@ == without_hex_prefix(s@),
{
    proof {
        reveal_strlit("0x");
        reveal_strlit("0X");
    }
    if has_prefix(s, "0x") || has_prefix(s, "0X") {
        let out = slice_chars(s, 2, s.len());
        assert(out@ =~= s@.skip(2));
        out
    } else {
        let out = slice_chars(s, 0, s.len());
        assert(out@ =~= s@);
        out
    }
}

// ─── Writing ─────────────────────────────────────────────────────────────────

/// The digits of a number, the highest first, without leading zeros.
pub open spec fn numeral(n: nat, radix: nat) -> Seq<char>
    recommends
        2 <= radix <= 16,
    decreases n,
    when radix >= 2
{
    if n < radix {
        seq![digit_char(n as int)]
    } else {
        proof {
            assert(n / radix < n) by (nonlinear_arith)
                requires
                    n >= radix,
                    radix >= 2,
            ;
        }
        numeral(n / radix, radix).push(digit_char((n % radix) as int))
    }
}

/// Writes a number in the given radix.
pub fn write_number(n: u64, radix: u64) -> (out: Vec<char>)
    requires
        2 <= radix <= 16,
    ensures
        out@ == numeral(n as nat, radix as nat),
    decreases n,
{
    if n < radix {
        let mut out: Vec<char> = Vec::new();
        out.push(write_digit(n));
        assert(out@ =~= numeral(n as nat, radix as nat));
        out
    } else {
        assert(n / radix < n) by (nonlinear_arith)
            requires
                n >= radix,
                radix >= 2,
        ;
        assert(n % radix < radix) by (nonlinear_arith)
            requires
                radix >= 2,
        ;
        let mut out = write_number(n / radix, radix);
        out.push(write_digit(n % radix));
        out
    }
}

/// `s` moved to the right edge of a field of the given width.
pub open spec fn padded(s: Seq<char>, width: nat, fill: char) -> Seq<char> {
    if s.len() < width {
        Seq::new((width - s.len()) as nat, |i: int| fill) + s
    } else {
        s
    }
}

/// Pads on the left.
pub fn pad(s: &Vec<char>, width: usize, fill: char) -> (out: Vec<char>)
    ensures
        out@ == padded(s@, width as nat, fill),
{
    let mut out: Vec<char> = Vec::new();
    let mut need: usize = 0;
    if s.len() < width {
        need = width - s.len();
    }
    for i in 0..need
        invariant
            out@ =~= Seq::new(i as nat, |k: int| fill),
    {
        out.push(fill);
    }
    for i in 0..s.len()
        invariant
            out@ =~= Seq::new(need as nat, |k: int| fill) + s@.take(i as int),
    {
        out.push(s[i]);
    }
    assert(s@.take(s@.len() as int) =~= s@);
    out
}

/// A number in hexadecimal, in lower case.
pub open spec fn hex_text(n: u64) -> Seq<char> {
    numeral(n as nat, 16)
}

/// A number in hexadecimal, filled up with zeros to the given width.
pub open spec fn hex_field(n: u64, width: nat) -> Seq<char> {
    padded(hex_text(n), width, '0')
}

/// A number in decimal.
pub open spec fn decimal_text(n: nat) -> Seq<char> {
    numeral(n, 10)
}

/// Writes a number in hexadecimal.
pub fn to_hex(n: u64) -> (out: String)
    ensures
        out@ == hex_text(n),
{
    from_chars(&write_number(n, 16))
}

/// Writes a number in hexadecimal, filled up with zeros to the given width.
pub fn to_hex_field(n: u64, width: usize) -> (out: String)
    ensures
        out@ == hex_field(n, width as nat),
{
    from_chars(&pad(&write_number(n, 16), width, '0'))
}

/// Writes a number in decimal.
pub fn to_decimal(n: u64) -> (out: String)
    ensures
        out@ == decimal_text(n as nat),
{
    from_chars(&write_number(n, 10))
}

/// A signed number in decimal.
pub open spec fn signed_text(n: int) -> Seq<char> {
    if n < 0 {
        seq!['-'] + decimal_text((-n) as nat)
    } else {
        decimal_text(n as nat)
    }
}

/// Writes a signed number in decimal.
pub fn to_signed_decimal(n: i32) -> (out: String)
    ensures
        out@ == signed_text(n as int),
{
    if n < 0 {
        let mut out = String::new();
        out.push('-');
        out.append(to_decimal((-(n as i64)) as u64).as_str());
        assert(out@ =~= signed_text(n as int));
        out
    } else {
        to_decimal(n as u64)
    }
}

// ─── Round trips ─────────────────────────────────────────────────────────────

proof fn lemma_read_digits_append(
    s: Seq<char>,
    c: char,
    radix: int,
    acc: int,
    low: int,
    high: int,
)
    ensures
        read_digits(s.push(c), radix, acc, false, low, high) == match read_digits(
            s,
            radix,
            acc,
            false,
            low,
            high,
        ) {
            Ok(v) => read_digits(seq![c], radix, v, false, low, high),
            Err(e) => Err(e),
        },
    decreases s.len(),
{
    if s.len() == 0 {
        assert(s.push(c) =~= seq![c]);
    } else {
        assert(s.push(c).drop_first() =~= s.drop_first().push(c));
        match digit_value(s[0], radix) {
            Some(d) => {
                lemma_read_digits_append(s.drop_first(), c, radix, acc * radix + d, low, high);
            },
            None => {},
        }
    }
}

proof fn lemma_numeral_read(n: nat, radix: nat, high: int)
    requires
        2 <= radix <= 16,
        n <= high,
    ensures
        read_digits(numeral(n, radix), radix as int, 0, false, 0, high) == Ok::<int, IntError>(
            n as int,
        ),
        numeral(n, radix).len() > 0,
        forall|i: int|
            0 <= i < numeral(n, radix).len() ==> #[trigger] numeral(n, radix)[i] != '+' && numeral(
                n,
                radix,
            )[i] != '-',
    decreases n,
{
    reveal_with_fuel(read_digits, 3);
    let r = radix as int;
    if n < radix {
        lemma_digit_round_trip(n as int, r);
        assert(seq![digit_char(n as int)].drop_first() =~= Seq::empty());
        assert(0 * r == 0) by (nonlinear_arith);
    } else {
        let q = n / radix;
        let d = (n % radix) as int;
        assert(q < n && q >= 0) by (nonlinear_arith)
            requires
                n >= radix,
                radix >= 2,
                q == n / radix,
        ;
        assert(0 <= d < r && (q as int) * r + d == n) by (nonlinear_arith)
            requires
                radix >= 2,
                r == radix,
                q == n / radix,
                d == n % radix,
        ;
        lemma_numeral_read(q, radix, high);
        lemma_digit_round_trip(d, r);
        lemma_read_digits_append(numeral(q, radix), digit_char(d), r, 0, 0, high);
        assert(seq![digit_char(d)].drop_first() =~= Seq::empty());
    }
}

/// What is read is the number that the digits stand for; it is read if there is
/// nothing but digits and the number is in range.
pub proof fn law_digits_read(s: Seq<char>, radix: int, low: int, high: int)
    requires
        radix >= 2,
        low <= 0 <= high,
    ensures
        read_digits(s, radix, 0, false, low, high) is Ok <==> all_digits(s, radix)
            && digits_value(s, radix) <= high,
        read_digits(s, radix, 0, false, low, high) matches Ok(v) ==> v == digits_value(s, radix),
        all_digits(s, radix) ==> digits_value(s, radix) >= 0,
    decreases s.len(),
{
    if s.len() > 0 {
        let front = s.drop_last();
        let c = s.last();
        let before = digits_value(front, radix);
        assert(s =~= front.push(c));
        law_digits_read(front, radix, low, high);
        lemma_read_digits_append(front, c, radix, 0, low, high);
        assert(forall|i: int| 0 <= i < front.len() ==> front[i] == s[i]);
        assert(s[s.len() - 1] == c);
        reveal_with_fuel(read_digits, 2);
        assert(seq![c].drop_first() =~= Seq::empty());
        if all_digits(s, radix) {
            assert(all_digits(front, radix)) by {
                assert forall|i: int| 0 <= i < front.len() implies digit_value(
                    #[trigger] front[i],
                    radix,
                ) is Some by {
                    assert(digit_value(s[i], radix) is Some);
                }
            }
            assert(before * radix >= before) by (nonlinear_arith)
                requires
                    before >= 0,
                    radix >= 2,
            ;
        } else if all_digits(front, radix) && digit_value(c, radix) is Some {
            assert forall|i: int| 0 <= i < s.len() implies digit_value(
                #[trigger] s[i],
                radix,
            ) is Some by {
                if i < front.len() {
                    assert(digit_value(front[i], radix) is Some);
                }
            }
        }
    }
}

/// Capital letters stand for the same digits as small ones.
proof fn lemma_digits_lowered(s: Seq<char>, radix: int)
    requires
        2 <= radix <= 36,
    ensures
        all_digits(ascii_lowered(s), radix) <==> all_digits(s, radix),
        digits_value(ascii_lowered(s), radix) == digits_value(s, radix),
    decreases s.len(),
{
    let t = ascii_lowered(s);
    assert forall|i: int| 0 <= i < s.len() implies digit_value(#[trigger] s[i], radix)
        == digit_value(t[i], radix) by {
        assert(t[i] == small_letter(s[i]));
    }
    if all_digits(t, radix) {
        assert forall|i: int| 0 <= i < s.len() implies digit_value(
            #[trigger] s[i],
            radix,
        ) is Some by {
            assert(digit_value(t[i], radix) is Some);
        }
    }
    if s.len() > 0 {
        lemma_digits_lowered(s.drop_last(), radix);
        assert(t.drop_last() =~= ascii_lowered(s.drop_last()));
    }
}

/// Leading zeros add nothing.
proof fn lemma_leading_zeros(s: Seq<char>, zeros: nat, radix: int)
    requires
        2 <= radix,
    ensures
        digits_value(Seq::new(zeros, |i: int| '0') + s, radix) == digits_value(s, radix),
    decreases zeros + s.len(),
{
    let filled = Seq::new(zeros, |i: int| '0') + s;
    if s.len() > 0 {
        lemma_leading_zeros(s.drop_last(), zeros, radix);
        assert(filled.drop_last() =~= Seq::new(zeros, |i: int| '0') + s.drop_last());
    } else if zeros > 0 {
        let fewer = (zeros - 1) as nat;
        lemma_leading_zeros(s, fewer, radix);
        assert(filled.drop_last() =~= Seq::new(fewer, |i: int| '0') + s);
        assert(filled.last() == '0');
        assert(0 * radix == 0);
    } else {
        assert(filled =~= s);
    }
}

/// A text in hexadecimal stands for a number if it writes it with small or
/// capital letters, after any number of zeros.
pub proof fn law_hex_digits(n: u64, zeros: nat, s: Seq<char>)
    requires
        ascii_lowered(s) == Seq::new(zeros, |i: int| '0') + hex_text(n),
    ensures
        s.len() > 0,
        all_digits(s, 16),
        digits_value(s, 16) == n,
{
    let filled = ascii_lowered(s);
    let digits = hex_text(n);
    lemma_numeral_read(n as nat, 16, u64::MAX as int);
    law_digits_read(digits, 16, 0, u64::MAX as int);
    lemma_leading_zeros(digits, zeros, 16);
    assert(all_digits(filled, 16)) by {
        assert forall|i: int| 0 <= i < filled.len() implies digit_value(
            #[trigger] filled[i],
            16,
        ) is Some by {
            if i >= zeros {
                assert(filled[i] == digits[i - zeros]);
            }
        }
    }
    lemma_digits_lowered(s, 16);
    assert(filled.len() == s.len());
}

/// A number that is written in hexadecimal is read back as the same number.
pub proof fn law_hex_round_trip(n: u64)
    ensures
        integer_of(hex_text(n), 16, 0, u64::MAX as int) == Ok::<int, IntError>(n as int),
{
    lemma_numeral_read(n as nat, 16, u64::MAX as int);
}

/// Different numbers have different numerals.
pub proof fn law_hex_injective(a: u64, b: u64)
    requires
        hex_text(a) == hex_text(b),
    ensures
        a == b,
{
    law_hex_round_trip(a);
    law_hex_round_trip(b);
}

// ─── What digits stand for ───────────────────────────────────────────────────

/// What a character is worth as a digit.
pub open spec fn figure(c: char) -> int {
    if '0' <= c <= '9' {
        c as int - 48
    } else if 'a' <= c <= 'z' {
        c as int - 87
    } else {
        c as int - 55
    }
}

/// Whether a character is a digit of a radix, letters in either case.
pub open spec fn is_figure(c: char, radix: int) -> bool {
    ('0' <= c <= '9' || 'a' <= c <= 'z' || 'A' <= c <= 'Z') && figure(c) < radix
}

/// The number that digits stand for, each counting a radix times the next one.
pub open spec fn reckoned(s: Seq<char>, radix: int) -> int {
    s.fold_left(0int, |sum: int, c: char| sum * radix + figure(c))
}

proof fn lemma_reckoned(s: Seq<char>, radix: int)
    requires
        2 <= radix <= 36,
    ensures
        all_digits(s, radix) <==> forall|i: int|
            0 <= i < s.len() ==> is_figure(#[trigger] s[i], radix),
        all_digits(s, radix) ==> digits_value(s, radix) == reckoned(s, radix),
    decreases s.len(),
{
    assert forall|c: char| digit_value(c, radix) is Some <==> #[trigger] is_figure(c, radix) by {}
    if forall|i: int| 0 <= i < s.len() ==> is_figure(#[trigger] s[i], radix) {
        assert forall|i: int| 0 <= i < s.len() implies digit_value(
            #[trigger] s[i],
            radix,
        ) is Some by {
            assert(is_figure(s[i], radix));
        }
    }
    if all_digits(s, radix) {
        assert forall|i: int| 0 <= i < s.len() implies is_figure(#[trigger] s[i], radix) by {
            assert(digit_value(s[i], radix) is Some);
        }
        if s.len() > 0 {
            let front = s.drop_last();
            assert forall|i: int| 0 <= i < front.len() implies digit_value(
                #[trigger] front[i],
                radix,
            ) is Some by {
                assert(digit_value(s[i], radix) is Some);
            }
            lemma_reckoned(front, radix);
            assert(digit_value(s[s.len() - 1], radix) is Some);
        }
    }
}

/// A number is written with digits of the radix that stand for it, in small
/// letters, and without a zero in front unless it is zero.
pub proof fn law_numeral(n: nat, radix: nat)
    requires
        2 <= radix <= 16,
    ensures
        reckoned(numeral(n, radix), radix as int) == n,
        numeral(n, radix).len() > 0,
        forall|i: int|
            0 <= i < numeral(n, radix).len() ==> is_figure(
                #[trigger] numeral(n, radix)[i],
                radix as int,
            ) && !('A' <= numeral(n, radix)[i] <= 'Z'),
        n > 0 ==> numeral(n, radix)[0] != '0',
        n == 0 ==> numeral(n, radix) == seq!['0'],
    decreases n,
{
    let r = radix as int;
    let f = |sum: int, c: char| sum * r + figure(c);
    if n < radix {
        let s = seq![digit_char(n as int)];
        assert(s.drop_last() =~= Seq::empty());
        reveal_with_fuel(Seq::fold_left, 2);
        assert(0 * r == 0) by (nonlinear_arith);
        assert(figure(digit_char(n as int)) == n);
    } else {
        let q = n / radix;
        let d = (n % radix) as int;
        assert(0 < q < n) by (nonlinear_arith)
            requires
                n >= radix,
                radix >= 2,
                q == n / radix,
        ;
        assert(0 <= d < r && (q as int) * r + d == n) by (nonlinear_arith)
            requires
                radix >= 2,
                r == radix,
                q == n / radix,
                d == n % radix,
        ;
        law_numeral(q, radix);
        let front = numeral(q, radix);
        let s = front.push(digit_char(d));
        assert(s.drop_last() =~= front);
        assert(figure(digit_char(d)) == d);
        assert forall|i: int| 0 <= i < s.len() implies is_figure(#[trigger] s[i], r) && !('A'
            <= s[i] <= 'Z') by {
            if i < front.len() {
                assert(is_figure(front[i], r));
            }
        }
    }
}

/// A field holds the text at its right edge behind the fill, and is as wide as
/// asked or as the text needs.
pub proof fn law_padded(s: Seq<char>, width: nat, fill: char)
    ensures
        padded(s, width, fill).len() == if s.len() < width {
            width
        } else {
            s.len()
        },
        padded(s, width, fill).skip(padded(s, width, fill).len() - s.len()) == s,
        forall|i: int|
            0 <= i < padded(s, width, fill).len() - s.len() ==> #[trigger] padded(
                s,
                width,
                fill,
            )[i] == fill,
{
    let out = padded(s, width, fill);
    assert(out.skip(out.len() - s.len()) =~= s);
}

proof fn lemma_read_negative(s: Seq<char>, radix: int, acc: int, low: int, high: int)
    requires
        radix >= 2,
        acc >= 0,
        low <= 0 <= high,
    ensures
        read_digits(s, radix, -acc, true, low, high) == match read_digits(
            s,
            radix,
            acc,
            false,
            0,
            -low,
        ) {
            Ok(v) => Ok(-v),
            Err(IntError::PosOverflow) => Err(IntError::NegOverflow),
            Err(e) => Err(e),
        },
    decreases s.len(),
{
    if s.len() > 0 {
        match digit_value(s[0], radix) {
            Some(d) => {
                let next = acc * radix + d;
                assert(0 <= next && (-acc) * radix - d == -next) by (nonlinear_arith)
                    requires
                        next == acc * radix + d,
                        acc >= 0,
                        radix >= 2,
                        d >= 0,
                ;
                if next <= -low {
                    lemma_read_negative(s.drop_first(), radix, next, low, high);
                }
            },
            None => {},
        }
    }
}

proof fn lemma_read_error(s: Seq<char>, radix: int, acc: int, low: int, high: int)
    requires
        radix >= 2,
        acc >= 0,
        low <= 0,
        all_digits(s, radix),
    ensures
        read_digits(s, radix, acc, false, low, high) matches Err(e) ==> e == IntError::PosOverflow,
    decreases s.len(),
{
    if s.len() > 0 {
        assert(digit_value(s[0], radix) is Some);
        let d = digit_value(s[0], radix)->0;
        let next = acc * radix + d;
        assert(next >= 0) by (nonlinear_arith)
            requires
                next == acc * radix + d,
                acc >= 0,
                radix >= 2,
                d >= 0,
        ;
        assert forall|i: int| 0 <= i < s.drop_first().len() implies digit_value(
            #[trigger] s.drop_first()[i],
            radix,
        ) is Some by {
            assert(digit_value(s[i + 1], radix) is Some);
        }
        if next <= high {
            lemma_read_error(s.drop_first(), radix, next, low, high);
        }
    }
}

/// Digits are read as the number that they stand for, with a `+` or nothing in
/// front as that number and with a `-` as its negative, if it is in the range;
/// else the range is what is wrong.
pub proof fn law_integers(digits: Seq<char>, radix: int, low: int, high: int)
    requires
        2 <= radix <= 36,
        low <= 0 <= high,
        digits.len() > 0,
        forall|i: int| 0 <= i < digits.len() ==> is_figure(#[trigger] digits[i], radix),
    ensures
        integer_of(digits, radix, low, high) == if reckoned(digits, radix) <= high {
            Ok::<int, IntError>(reckoned(digits, radix))
        } else {
            Err(IntError::PosOverflow)
        },
        integer_of(seq!['+'] + digits, radix, low, high) == integer_of(digits, radix, low, high),
        low < 0 ==> integer_of(seq!['-'] + digits, radix, low, high) == if -reckoned(digits, radix)
            >= low {
            Ok::<int, IntError>(-reckoned(digits, radix))
        } else {
            Err(IntError::NegOverflow)
        },
{
    lemma_reckoned(digits, radix);
    law_digits_read(digits, radix, low, high);
    lemma_read_error(digits, radix, 0, low, high);
    assert(is_figure(digits[0], radix));
    assert((seq!['+'] + digits).drop_first() =~= digits);
    assert((seq!['-'] + digits).drop_first() =~= digits);
    if low < 0 {
        law_digits_read(digits, radix, 0, -low);
        lemma_read_error(digits, radix, 0, 0, -low);
        lemma_read_negative(digits, radix, 0, low, high);
    }
}

/// Nothing but a sign and digits is read as an integer.
pub proof fn law_no_integers(s: Seq<char>, radix: int, low: int, high: int)
    requires
        2 <= radix <= 36,
        low <= 0 <= high,
    ensures
        integer_of(s, radix, low, high) is Ok ==> s.len() > 0 && (s[0] == '+' || s[0] == '-'
            ==> s.len() > 1),
        integer_of(s, radix, low, high) is Ok ==> forall|i: int|
            0 <= i < s.len() && !(i == 0 && (s[0] == '+' || (s[0] == '-' && low < 0)))
                ==> is_figure(#[trigger] s[i], radix),
        s.len() == 0 ==> integer_of(s, radix, low, high) == Err::<int, IntError>(IntError::Empty),
        s == seq!['+'] || s == seq!['-'] ==> integer_of(s, radix, low, high) == Err::<int, IntError>(
            IntError::InvalidDigit,
        ),
{
    if s.len() > 0 {
        let digits = if s[0] == '+' || (s[0] == '-' && low < 0) {
            s.drop_first()
        } else {
            s
        };
        lemma_reckoned(digits, radix);
        law_digits_read(digits, radix, low, high);
        if low < 0 {
            law_digits_read(digits, radix, 0, -low);
            lemma_read_negative(digits, radix, 0, low, high);
        }
        if integer_of(s, radix, low, high) is Ok {
            assert forall|i: int|
                0 <= i < s.len() && !(i == 0 && (s[0] == '+' || (s[0] == '-' && low
                    < 0))) implies is_figure(#[trigger] s[i], radix) by {
                let k = if digits.len() < s.len() {
                    i - 1
                } else {
                    i
                };
                assert(digits[k] == s[i]);
                assert(is_figure(digits[k], radix));
            }
        }
    }
}

/// A signed number that is written in decimal is read back.
pub proof fn law_signed_round_trip(n: i32)
    ensures
        integer_of(signed_text(n as int), 10, i32::MIN as int, i32::MAX as int) == Ok::<
            int,
            IntError,
        >(n as int),
{
    let m = if n < 0 {
        -(n as int)
    } else {
        n as int
    } as nat;
    law_numeral(m, 10);
    law_integers(numeral(m, 10), 10, i32::MIN as int, i32::MAX as int);
}

/// The prefix of a hexadecimal number is taken off once, and nothing else is.
pub proof fn law_hex_prefix(s: Seq<char>)
    ensures
        without_hex_prefix(seq!['0', 'x'] + s) == s,
        without_hex_prefix(seq!['0', 'X'] + s) == s,
        s.len() < 2 || s[0] != '0' || (s[1] != 'x' && s[1] != 'X') ==> without_hex_prefix(s) == s,
{
    reveal_strlit("0x");
    reveal_strlit("0X");
    assert("0x"@ =~= seq!['0', 'x']);
    assert("0X"@ =~= seq!['0', 'X']);
    let (a, b) = (seq!['0', 'x'] + s, seq!['0', 'X'] + s);
    assert(a.take(2) =~= "0x"@ && b.take(2) =~= "0X"@);
    assert(a.skip(2) =~= s && b.skip(2) =~= s);
    if s.len() >= 2 {
        assert(s.take(2)[0] == s[0] && s.take(2)[1] == s[1]);
    }
}

// ─── What is read and written ────────────────────────────────────────────────

/// Numbers are read from a sign and digits, within the range of their type.
pub proof fn law_read(
    s: &Vec<char>,
    sign: Seq<char>,
    digits: Seq<char>,
    small: Result<i32, IntError>,
    large: Result<i64, IntError>,
)
    requires
        call_ensures(read_i32, (s,), small),
        call_ensures(read_i64, (s,), large),
        s@ == sign + digits,
        digits.len() > 0,
        forall|i: int| 0 <= i < digits.len() ==> is_figure(#[trigger] digits[i], 10),
        sign.len() == 0 || sign == seq!['+'] || sign == seq!['-'],
    ensures
        sign != seq!['-'] && reckoned(digits, 10) <= i32::MAX ==> (small matches Ok(v) && v
            == reckoned(digits, 10)),
        sign != seq!['-'] && reckoned(digits, 10) > i32::MAX ==> small is Err,
        sign == seq!['-'] && -reckoned(digits, 10) >= i32::MIN ==> (small matches Ok(v) && v
            == -reckoned(digits, 10)),
        sign == seq!['-'] && -reckoned(digits, 10) < i32::MIN ==> small is Err,
        sign != seq!['-'] && reckoned(digits, 10) <= i64::MAX ==> (large matches Ok(v) && v
            == reckoned(digits, 10)),
        sign != seq!['-'] && reckoned(digits, 10) > i64::MAX ==> large is Err,
        sign == seq!['-'] && -reckoned(digits, 10) >= i64::MIN ==> (large matches Ok(v) && v
            == -reckoned(digits, 10)),
        sign == seq!['-'] && -reckoned(digits, 10) < i64::MIN ==> large is Err,
{
    law_integers(digits, 10, i32::MIN as int, i32::MAX as int);
    law_integers(digits, 10, i64::MIN as int, i64::MAX as int);
    if sign.len() == 0 {
        assert(s@ =~= digits);
        assert(sign != seq!['-']);
    }
}

/// Hexadecimal numbers are read from digits, after a prefix is taken off.
pub proof fn law_read_hex(
    s: &Vec<char>,
    prefix: Seq<char>,
    digits: Seq<char>,
    bare: Vec<char>,
    out: Result<u64, IntError>,
)
    requires
        call_ensures(strip_hex_prefix, (s,), bare),
        call_ensures(read_hex, (&bare,), out),
        s@ == prefix + digits,
        prefix == seq!['0', 'x'] || prefix == seq!['0', 'X'] || prefix == Seq::<char>::empty(),
        digits.len() > 0,
        forall|i: int| 0 <= i < digits.len() ==> is_figure(#[trigger] digits[i], 16),
    ensures
        bare@ == digits,
        reckoned(digits, 16) <= u64::MAX ==> (out matches Ok(v) && v == reckoned(digits, 16)),
        reckoned(digits, 16) > u64::MAX ==> out == Err::<u64, IntError>(IntError::PosOverflow),
{
    law_hex_prefix(digits);
    assert(is_figure(digits[0], 16));
    if digits.len() > 1 {
        assert(is_figure(digits[1], 16));
    }
    if prefix.len() == 0 {
        assert(s@ =~= digits);
    }
    law_integers(digits, 16, 0, u64::MAX as int);
}

proof fn lemma_read_on(a: Seq<char>, b: Seq<char>, radix: int, acc: int, low: int, high: int)
    ensures
        read_digits(a + b, radix, acc, false, low, high) == match read_digits(
            a,
            radix,
            acc,
            false,
            low,
            high,
        ) {
            Ok(v) => read_digits(b, radix, v, false, low, high),
            Err(e) => Err(e),
        },
    decreases a.len(),
{
    if a.len() == 0 {
        assert(a + b =~= b);
    } else {
        let s = a + b;
        assert(s[0] == a[0]);
        assert(s.drop_first() =~= a.drop_first() + b);
        if let Some(d) = digit_value(a[0], radix) {
            lemma_read_on(a.drop_first(), b, radix, acc * radix + d, low, high);
        }
    }
}

/// A character that is no digit is what is wrong with a number, if what stands
/// before it still fits.
pub proof fn law_invalid_digit(
    digits: Seq<char>,
    c: char,
    rest: Seq<char>,
    radix: int,
    low: int,
    high: int,
)
    requires
        2 <= radix <= 36,
        low <= 0 <= high,
        digits.len() > 0 || (c != '+' && (c != '-' || low == 0)),
        forall|i: int| 0 <= i < digits.len() ==> is_figure(#[trigger] digits[i], radix),
        reckoned(digits, radix) <= high,
        !is_figure(c, radix),
    ensures
        integer_of(digits + (seq![c] + rest), radix, low, high) == Err::<int, IntError>(
            IntError::InvalidDigit,
        ),
{
    let s = digits + (seq![c] + rest);
    assert((seq![c] + rest)[0] == c);
    if digits.len() > 0 {
        assert(is_figure(digits[0], radix));
        assert(s[0] == digits[0]);
        law_integers(digits, radix, low, high);
        lemma_read_on(digits, seq![c] + rest, radix, 0, low, high);
    } else {
        assert(s =~= seq![c] + rest);
    }
}

/// Numbers are written in digits that stand for them, with a minus sign in front
/// of a negative one and with zeros in front to fill a field.
pub proof fn law_written(
    n: u64,
    hex: String,
    width: usize,
    field: String,
    decimal: String,
    m: i32,
    signed: String,
)
    requires
        call_ensures(to_hex, (n,), hex),
        call_ensures(to_hex_field, (n, width), field),
        call_ensures(to_decimal, (n,), decimal),
        call_ensures(to_signed_decimal, (m,), signed),
    ensures
        reckoned(hex@, 16) == n && hex@.len() > 0 && (n > 0 ==> hex@[0] != '0') && (n == 0
            ==> hex@.len() == 1),
        field@.len() == if hex@.len() < width {
            width as nat
        } else {
            hex@.len()
        },
        field@.skip(field@.len() - hex@.len()) == hex@,
        forall|i: int| 0 <= i < field@.len() - hex@.len() ==> #[trigger] field@[i] == '0',
        reckoned(decimal@, 10) == n && decimal@.len() > 0 && (n > 0 ==> decimal@[0] != '0') && (n
            == 0 ==> decimal@.len() == 1),
        m >= 0 ==> reckoned(signed@, 10) == m && signed@[0] != '-',
        m < 0 ==> signed@[0] == '-' && reckoned(signed@.skip(1), 10) == -m,
{
    law_numeral(n as nat, 16);
    law_numeral(n as nat, 10);
    law_padded(hex@, width as nat, '0');
    if m < 0 {
        law_numeral((-(m as int)) as nat, 10);
        assert(signed@.skip(1) =~= numeral((-(m as int)) as nat, 10));
    } else {
        law_numeral(m as nat, 10);
        assert(is_figure(numeral(m as nat, 10)[0], 10));
    }
}

/// A digit is worth what it stands for, if that is below the radix.
pub proof fn law_digit(c: char, radix: u32, d: Option<u32>)
    requires
        call_ensures(read_digit, (c, radix), d),
        2 <= radix <= 36,
    ensures
        is_figure(c, radix as int) ==> (d matches Some(v) && v == figure(c)),
        !is_figure(c, radix as int) ==> d is None,
{
}

/// What the errors of numbers say.
pub proof fn law_messages(e: &IntError, out: String)
    requires
        call_ensures(IntError::message, (e,), out),
    ensures
        e is Empty ==> out@ == "cannot parse integer from empty string"@,
        e is InvalidDigit ==> out@ == "invalid digit found in string"@,
        e is PosOverflow ==> out@ == "number too large to fit in target type"@,
        e is NegOverflow ==> out@ == "number too small to fit in target type"@,
{
}

} // verus!
