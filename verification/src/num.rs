//! Numbers as text: decimal and hexadecimal, read and written.

use vstd::prelude::*;
use vstd::arithmetic::div_mod::lemma_div_denominator;
use vstd::arithmetic::power::{lemma_pow0, lemma_pow1, lemma_pow_adds, lemma_pow_positive, pow};
use vstd::string::*;
use crate::text::{lemma_first_at, part, split_once};

verus! {

/// Whether a character is a decimal digit.
pub open spec fn is_digit(c: char) -> bool {
    '0' <= c <= '9'
}

/// Value of a decimal digit.
pub open spec fn digit_value(c: char) -> nat {
    (c as u32 - '0' as u32) as nat
}

/// The character of a decimal digit.
pub open spec fn digit_char(d: nat) -> char {
    ('0' as u32 + d) as char
}

/// Whether every character is a decimal digit.
pub open spec fn all_digits(s: Seq<char>) -> bool {
    forall|i: int| 0 <= i < s.len() ==> is_digit(#[trigger] s[i])
}

/// Value of a run of decimal digits.
pub open spec fn dec_value(s: Seq<char>) -> nat
    decreases s.len(),
{
    if s.len() == 0 {
        0
    } else {
        10 * dec_value(s.drop_last()) + digit_value(s.last())
    }
}

/// The decimal digits of `n`, without leading zeros.
pub open spec fn dec(n: nat) -> Seq<char>
    decreases n,
{
    if n < 10 {
        seq![digit_char(n)]
    } else {
        dec(n / 10).push(digit_char(n % 10))
    }
}

/// The digits of an unsigned number as text: an optional plus sign is left out.
pub open spec fn unsigned_digits(s: Seq<char>) -> Seq<char> {
    if s.len() > 0 && s[0] == '+' {
        s.skip(1)
    } else {
        s
    }
}

/// An unsigned decimal number of at most `max`: digits, with an optional plus sign before them.
pub open spec fn parse_dec(s: Seq<char>, max: nat) -> Option<nat> {
    let d = unsigned_digits(s);
    if d.len() > 0 && all_digits(d) && dec_value(d) <= max {
        Some(dec_value(d))
    } else {
        None
    }
}

/// A longer run of digits has a value at least as large.
proof fn lemma_dec_value_grows(s: Seq<char>, i: int)
    requires
        0 <= i <= s.len(),
    ensures
        dec_value(s.take(i)) <= dec_value(s),
    decreases s.len(),
{
    if i == s.len() {
        assert(s.take(i) =~= s);
    } else {
        lemma_dec_value_grows(s.drop_last(), i);
        assert(s.drop_last().take(i) =~= s.take(i));
    }
}

/// Value of a decimal digit.
pub fn digit(c: char) -> (r: Option<u8>)
    ensures
        match r {
            Some(d) => is_digit(c) && d == digit_value(c) && d < 10,
            None => !is_digit(c),
        },
{
    if '0' <= c && c <= '9' {
        Some(c as u8 - 48)
    } else {
        None
    }
}

/// Read an unsigned decimal number of at most `max`.
pub fn parse_uint(s: &[char], max: u64) -> (r: Option<u64>)
    ensures
        match r {
            Some(n) => parse_dec(s@, max as nat) == Some(n as nat) && n <= max,
            None => parse_dec(s@, max as nat) is None,
        },
{
    let mut i: usize = 0;
    if s.len() > 0 && s[0] == '+' {
        i = 1;
    }
    let from: usize = i;
    let ghost d = unsigned_digits(s@);
    assert(d =~= s@.skip(from as int));
    if i == s.len() {
        return None;
    }
    let mut n: u64 = 0;
    while i < s.len()
        invariant
            from <= i <= s@.len(),
            from <= 1,
            from < s@.len(),
            d == s@.skip(from as int),
            d == unsigned_digits(s@),
            n <= max,
            n == dec_value(d.take(i - from)),
            forall|j: int| 0 <= j < i - from ==> is_digit(#[trigger] d[j]),
        decreases s@.len() - i,
    {
        let c: char = s[i];
        assert(c == d[i - from]);
        proof {
            assert(d.take(i + 1 - from).drop_last() =~= d.take(i - from));
            lemma_dec_value_grows(d, i + 1 - from);
        }
        match digit(c) {
            None => {
                return None;
            },
            Some(k) => {
                let k64: u64 = k as u64;
                if n > max / 10 || (n == max / 10 && k64 > max % 10) {
                    assert(10 * n + k64 > max);
                    return None;
                }
                assert(10 * n + k64 <= max);
                n = 10 * n + k64;
            },
        }
        i = i + 1;
    }
    assert(d.take(i - from) =~= d);
    Some(n)
}

/// A signed 64-bit decimal number: an optional sign and digits.
pub open spec fn parse_signed(s: Seq<char>) -> Option<int> {
    if s.len() > 0 && s[0] == '-' {
        let d = s.skip(1);
        if d.len() > 0 && all_digits(d) && dec_value(d) <= 0x8000_0000_0000_0000 {
            Some(-(dec_value(d) as int))
        } else {
            None
        }
    } else {
        match parse_dec(s, i64::MAX as nat) {
            Some(n) => Some(n as int),
            None => None,
        }
    }
}

/// Read a signed 64-bit decimal number.
pub fn parse_i64(s: &[char]) -> (r: Option<i64>)
    ensures
        match r {
            Some(n) => parse_signed(s@) == Some(n as int),
            None => parse_signed(s@) is None,
        },
{
    if s.len() > 0 && s[0] == '-' {
        let d = part(s, 1, s.len());
        assert(d@ =~= s@.skip(1));
        if d.len() > 0 && d[0] == '+' {
            assert(!is_digit(d@[0]));
            return None;
        }
        match parse_uint(&d, 0x8000_0000_0000_0000) {
            Some(n) => if n == 0x8000_0000_0000_0000 {
                Some(i64::MIN)
            } else {
                Some(-(n as i64))
            },
            None => None,
        }
    } else {
        match parse_uint(s, 0x7FFF_FFFF_FFFF_FFFF) {
            Some(n) => Some(n as i64),
            None => None,
        }
    }
}

/// Append a number in decimal.
pub fn push_dec(out: &mut String, n: u64)
    ensures
        final(out)@ == old(out)@ + dec(n as nat),
    decreases n,
{
    if n < 10 {
        out.push((48 + n as u8) as char);
    } else {
        push_dec(out, n / 10);
        let ghost mid = out@;
        out.push((48 + (n % 10) as u8) as char);
        assert(out@ =~= old(out)@ + dec(n as nat));
    }
}

/// A number in decimal.
pub fn dec_string(n: u64) -> (s: String)
    ensures
        s@ == dec(n as nat),
{
    let mut s = String::new();
    push_dec(&mut s, n);
    s
}

proof fn lemma_digit_char(d: nat)
    requires
        d < 10,
    ensures
        is_digit(digit_char(d)),
        digit_value(digit_char(d)) == d,
{
}

/// Decimal digits have the value they were written from.
pub proof fn lemma_dec_round_trip(n: nat)
    ensures
        dec(n).len() > 0,
        all_digits(dec(n)),
        dec_value(dec(n)) == n,
    decreases n,
{
    if n < 10 {
        lemma_digit_char(n);
        assert(dec(n).drop_last() =~= Seq::<char>::empty());
        assert(dec_value(dec(n).drop_last()) == 0);
    } else {
        lemma_dec_round_trip(n / 10);
        lemma_digit_char(n % 10);
        assert(dec(n).drop_last() =~= dec(n / 10));
    }
}

/// A number written in decimal is read back as itself, and refused above the limit.
pub proof fn dec_is_read_back(n: nat, max: nat)
    ensures
        parse_dec(dec(n), max) == (if n <= max {
            Some(n)
        } else {
            None
        }),
{
    lemma_dec_round_trip(n);
    assert(is_digit(dec(n)[0]));
}

// ---- Hexadecimal ----

/// The lower-case character of a hexadecimal digit.
pub open spec fn hex_char(d: nat) -> char {
    if d < 10 {
        ('0' as u32 + d) as char
    } else {
        ('a' as u32 + (d - 10)) as char
    }
}

/// Value of a hexadecimal digit of either case.
pub open spec fn hex_value(c: char) -> Option<nat> {
    if '0' <= c <= '9' {
        Some((c as u32 - '0' as u32) as nat)
    } else if 'a' <= c <= 'f' {
        Some((c as u32 - 'a' as u32 + 10) as nat)
    } else if 'A' <= c <= 'F' {
        Some((c as u32 - 'A' as u32 + 10) as nat)
    } else {
        None
    }
}

/// The last `width` hexadecimal digits of `n`, zero-padded.
pub open spec fn hex(n: nat, width: nat) -> Seq<char>
    decreases width,
{
    if width == 0 {
        Seq::empty()
    } else {
        hex(n / 16, (width - 1) as nat).push(hex_char(n % 16))
    }
}

/// Value of a run of hexadecimal digits.
pub open spec fn hex_number(s: Seq<char>) -> nat
    decreases s.len(),
{
    if s.len() == 0 {
        0
    } else {
        16 * hex_number(s.drop_last()) + hex_value(s.last()).unwrap_or(0)
    }
}

/// Whether every character is a hexadecimal digit.
pub open spec fn all_hex(s: Seq<char>) -> bool {
    forall|i: int| 0 <= i < s.len() ==> hex_value(#[trigger] s[i]) is Some
}

/// An unsigned hexadecimal number of at most `max`: digits, with an optional plus sign before them.
pub open spec fn parse_hex(s: Seq<char>, max: nat) -> Option<nat> {
    let d = unsigned_digits(s);
    if d.len() > 0 && all_hex(d) && hex_number(d) <= max {
        Some(hex_number(d))
    } else {
        None
    }
}

proof fn lemma_hex_number_grows(s: Seq<char>, i: int)
    requires
        0 <= i <= s.len(),
    ensures
        hex_number(s.take(i)) <= hex_number(s),
    decreases s.len(),
{
    if i == s.len() {
        assert(s.take(i) =~= s);
    } else {
        lemma_hex_number_grows(s.drop_last(), i);
        assert(s.drop_last().take(i) =~= s.take(i));
    }
}

/// Value of a hexadecimal digit.
pub fn hex_digit(c: char) -> (r: Option<u8>)
    ensures
        match r {
            Some(d) => hex_value(c) == Some(d as nat) && d < 16,
            None => hex_value(c) is None,
        },
{
    if '0' <= c && c <= '9' {
        Some(c as u8 - 48)
    } else if 'a' <= c && c <= 'f' {
        Some(c as u8 - 87)
    } else if 'A' <= c && c <= 'F' {
        Some(c as u8 - 55)
    } else {
        None
    }
}

/// Read an unsigned 32-bit hexadecimal number.
pub fn parse_hex_u32(s: &[char]) -> (r: Option<u32>)
    ensures
        match r {
            Some(n) => parse_hex(s@, u32::MAX as nat) == Some(n as nat),
            None => parse_hex(s@, u32::MAX as nat) is None,
        },
{
    let mut i: usize = 0;
    if s.len() > 0 && s[0] == '+' {
        i = 1;
    }
    let from: usize = i;
    let ghost d = unsigned_digits(s@);
    assert(d =~= s@.skip(from as int));
    if i == s.len() {
        return None;
    }
    let mut n: u32 = 0;
    while i < s.len()
        invariant
            from <= i <= s@.len(),
            from <= 1,
            from < s@.len(),
            d == s@.skip(from as int),
            d == unsigned_digits(s@),
            n == hex_number(d.take(i - from)),
            forall|j: int| 0 <= j < i - from ==> hex_value(#[trigger] d[j]) is Some,
        decreases s@.len() - i,
    {
        let c: char = s[i];
        assert(c == d[i - from]);
        proof {
            assert(d.take(i + 1 - from).drop_last() =~= d.take(i - from));
            lemma_hex_number_grows(d, i + 1 - from);
        }
        match hex_digit(c) {
            None => {
                return None;
            },
            Some(k) => {
                if n > 0x0FFF_FFFF {
                    return None;
                }
                n = 16 * n + k as u32;
            },
        }
        i = i + 1;
    }
    assert(d.take(i - from) =~= d);
    Some(n)
}

/// Append the last `width` hexadecimal digits of a number.
pub fn push_hex(out: &mut String, n: u128, width: u32)
    ensures
        final(out)@ == old(out)@ + hex(n as nat, width as nat),
    decreases width,
{
    if width > 0 {
        push_hex(out, n / 16, width - 1);
        let d: u8 = (n % 16) as u8;
        let c: char = if d < 10 {
            (48 + d) as char
        } else {
            (87 + d) as char
        };
        out.push(c);
        assert(out@ =~= old(out)@ + hex(n as nat, width as nat));
    }
}

/// A number that fits in `width` hexadecimal digits is recovered from them.
pub proof fn hex_is_read_back(n: nat, width: nat)
    requires
        n < vstd::arithmetic::power::pow(16, width),
    ensures
        hex(n, width).len() == width,
        hex_number(hex(n, width)) == n,
    decreases width,
{
    if width == 0 {
        vstd::arithmetic::power::lemma_pow0(16);
    } else {
        vstd::arithmetic::power::lemma_pow_adds(16, 1, (width - 1) as nat);
        vstd::arithmetic::power::lemma_pow1(16);
        let p = vstd::arithmetic::power::pow(16, (width - 1) as nat);
        assert(n / 16 < p) by (nonlinear_arith)
            requires
                n < 16 * p,
        ;
        hex_is_read_back(n / 16, (width - 1) as nat);
        assert(hex(n, width).drop_last() =~= hex(n / 16, (width - 1) as nat));
        assert(hex_value(hex_char(n % 16)) == Some(n % 16));
    }
}

// ---- Laws ----

/// The sum of digits, each multiplied by the power of ten of its place.
pub open spec fn place_value(s: Seq<char>) -> int
    decreases s.len(),
{
    if s.len() == 0 {
        0
    } else {
        (s[0] as int - 48) * pow(10, (s.len() - 1) as nat) + place_value(s.skip(1))
    }
}

/// Whether a text consists of the characters from `0` to `9`.
pub open spec fn is_digits(s: Seq<char>) -> bool {
    s.len() > 0 && forall|i: int| 0 <= i < s.len() ==> 48 <= (#[trigger] s[i]) as int <= 57
}

proof fn lemma_place_push(s: Seq<char>, c: char)
    ensures
        place_value(s.push(c)) == 10 * place_value(s) + (c as int - 48),
    decreases s.len(),
{
    let t = s.push(c);
    if s.len() == 0 {
        assert(t.skip(1) =~= s);
        assert(t[0] == c);
        lemma_pow0(10);
    } else {
        lemma_place_push(s.skip(1), c);
        assert(t.skip(1) =~= s.skip(1).push(c));
        lemma_pow_adds(10, 1, (s.len() - 1) as nat);
        lemma_pow1(10);
        let (d, p, q) = (s[0] as int - 48, pow(10, (s.len() - 1) as nat), pow(10, s.len()));
        assert(q == 10 * p);
        assert(d * (10 * p) == 10 * (d * p)) by (nonlinear_arith);
        assert(t[0] == s[0]);
    }
}

proof fn lemma_place_value(s: Seq<char>)
    requires
        forall|i: int| 0 <= i < s.len() ==> 48 <= (#[trigger] s[i]) as int <= 57,
    ensures
        place_value(s) == dec_value(s),
        all_digits(s),
    decreases s.len(),
{
    if s.len() > 0 {
        let rest = s.drop_last();
        assert forall|i: int| 0 <= i < rest.len() implies 48 <= (#[trigger] rest[i]) as int <= 57 by {
            assert(rest[i] == s[i]);
        }
        lemma_place_value(rest);
        lemma_place_push(rest, s.last());
        assert(rest.push(s.last()) =~= s);
        assert(48 <= s[s.len() - 1] as int <= 57);
    }
}

/// A run of digits, with or without a plus sign before it, is read as the sum of its digits by
/// their places, unless that is too large.
pub proof fn digits_count_by_place(s: Seq<char>, max: nat)
    requires
        is_digits(s),
    ensures
        parse_dec(s, max) == (if place_value(s) <= max {
            Some(place_value(s) as nat)
        } else {
            None
        }),
        parse_dec(seq!['+'] + s, max) == parse_dec(s, max),
{
    lemma_place_value(s);
    assert(48 <= s[0] as int);
    assert((seq!['+'] + s).skip(1) =~= s);
}

/// What is no run of digits behind at most one plus sign is no number.
pub proof fn only_digits_are_numbers(s: Seq<char>, max: nat)
    ensures
        parse_dec(s, max) is Some ==> is_digits(s) || (s.len() > 0 && s[0] == '+' && is_digits(
            s.skip(1),
        )),
{
    if parse_dec(s, max) is Some {
        let d = unsigned_digits(s);
        assert forall|i: int| 0 <= i < d.len() implies 48 <= (#[trigger] d[i]) as int <= 57 by {
            assert(is_digit(d[i]));
        }
    }
}

/// A minus sign before a run of digits takes the negative of what the digits count, down to the
/// smallest number that 64 bits hold; without one the number is as large as they hold at most.
pub proof fn signs_count(s: Seq<char>)
    requires
        is_digits(s),
    ensures
        parse_signed(seq!['-'] + s) == (if place_value(s) <= 0x8000_0000_0000_0000 {
            Some(-place_value(s))
        } else {
            None
        }),
        parse_signed(s) == (if place_value(s) <= 0x7FFF_FFFF_FFFF_FFFF {
            Some(place_value(s))
        } else {
            None
        }),
{
    lemma_place_value(s);
    assert(48 <= s[0] as int);
    assert((seq!['-'] + s).skip(1) =~= s);
}

/// A number is written without leading zeros.
pub proof fn numbers_have_no_leading_zeros(n: nat)
    ensures
        is_digits(dec(n)),
        place_value(dec(n)) == n,
        n > 0 ==> dec(n)[0] != '0',
        n == 0 ==> dec(n) == seq!['0'],
    decreases n,
{
    lemma_dec_round_trip(n);
    let d = dec(n);
    assert forall|i: int| 0 <= i < d.len() implies 48 <= (#[trigger] d[i]) as int <= 57 by {
        assert(is_digit(d[i]));
    }
    lemma_place_value(d);
    if n >= 10 {
        numbers_have_no_leading_zeros(n / 10);
        assert(d[0] == dec(n / 10)[0]);
    } else if n > 0 {
        assert(d[0] == digit_char(n));
    }
}

/// Hexadecimal digits stand by their places, in lower case.
pub proof fn hex_digits_stand_by_place(n: nat, width: nat, i: nat)
    requires
        i < width,
    ensures
        hex(n, width).len() == width,
        hex(n, width)[width - 1 - i] == "0123456789abcdef"@[((n as int) / pow(16, i)) % 16],
    decreases width,
{
    reveal_strlit("0123456789abcdef");
    lemma_hex_len(n / 16, (width - 1) as nat);
    lemma_hex_len(n, width);
    if i == 0 {
        lemma_pow0(16);
        assert(hex(n, width)[width - 1] == hex_char(n % 16));
    } else {
        hex_digits_stand_by_place(n / 16, (width - 1) as nat, (i - 1) as nat);
        lemma_pow_adds(16, 1, (i - 1) as nat);
        lemma_pow1(16);
        lemma_pow_positive(16, (i - 1) as nat);
        lemma_div_denominator(n as int, 16, pow(16, (i - 1) as nat));
        assert(hex(n, width)[width - 1 - i] == hex(n / 16, (width - 1) as nat)[width - 1 - i]);
    }
}

proof fn lemma_hex_len(n: nat, width: nat)
    ensures
        hex(n, width).len() == width,
    decreases width,
{
    if width > 0 {
        lemma_hex_len(n / 16, (width - 1) as nat);
    }
}

/// The hexadecimal digits of a number are read back, and so are capital ones.
pub proof fn hex_texts_are_read_back(n: nat, width: nat, max: nat)
    requires
        width > 0,
        n < pow(16, width),
    ensures
        parse_hex(hex(n, width), max) == (if n <= max {
            Some(n)
        } else {
            None
        }),
{
    hex_is_read_back(n, width);
    lemma_hex_digits(n, width);
    let c = hex(n, width)[0];
    assert(hex_value(c) is Some);
}

proof fn lemma_hex_digits(n: nat, width: nat)
    ensures
        all_hex(hex(n, width)),
    decreases width,
{
    if width > 0 {
        lemma_hex_digits(n / 16, (width - 1) as nat);
    }
}

/// A hexadecimal digit counts the same in both cases: its place in the row of digits.
pub proof fn hex_digits_count_in_both_cases(d: int)
    requires
        0 <= d < 16,
    ensures
        hex_value("0123456789abcdef"@[d]) == Some(d as nat),
        hex_value("0123456789ABCDEF"@[d]) == Some(d as nat),
{
    reveal_strlit("0123456789abcdef");
    reveal_strlit("0123456789ABCDEF");
}

/// Two numbers with a slash between them can be read back.
pub proof fn fractions_are_read_back(a: nat, b: nat)
    ensures
        split_once(dec(a) + seq!['/'] + dec(b), '/') == Some((dec(a), dec(b))),
        parse_dec(dec(a), a) == Some(a),
        parse_dec(dec(b), b) == Some(b),
{
    let d = dec(a);
    let s = d + seq!['/'] + dec(b);
    lemma_dec_round_trip(a);
    dec_is_read_back(a, a);
    dec_is_read_back(b, b);
    assert forall|i: int| 0 <= i < d.len() implies s[i] != '/' by {
        assert(s[i] == d[i]);
        assert(is_digit(d[i]));
    }
    lemma_first_at(s, '/', d.len() as int);
    assert(s.take(d.len() as int) =~= d);
    assert(s.skip(d.len() as int + 1) =~= dec(b));
}

/// A hexadecimal digit is one of these characters, and no other.
pub proof fn other_characters_are_no_hex_digits(c: char)
    ensures
        hex_value(c) is Some <==> "0123456789abcdefABCDEF"@.contains(c),
{
    reveal_strlit("0123456789abcdefABCDEF");
    let all = "0123456789abcdefABCDEF"@;
    if hex_value(c) is Some {
        let n = hex_value(c)->0 as int;
        if 'A' <= c <= 'F' {
            assert(all[n + 6] == c);
        } else {
            assert(all[n] == c);
        }
    }
    if all.contains(c) {
        let k = choose|k: int| 0 <= k < all.len() && all[k] == c;
        assert(hex_value(all[k]) is Some);
    }
}

/// Hexadecimal digits count by their places.
pub proof fn hex_digits_count_by_place(a: Seq<char>, b: Seq<char>, c: char)
    ensures
        hex_number(a + b) == hex_number(a) * pow(16, b.len()) + hex_number(b),
        hex_value(c) is Some ==> hex_number(seq![c]) == hex_value(c)->0,
    decreases b.len(),
{
    reveal_with_fuel(hex_number, 2);
    assert(seq![c].drop_last() =~= Seq::<char>::empty());
    if b.len() == 0 {
        assert(a + b =~= a);
        lemma_pow0(16);
    } else {
        let rest = b.drop_last();
        hex_digits_count_by_place(a, rest, c);
        assert((a + b).drop_last() =~= a + rest);
        lemma_pow_adds(16, 1, rest.len());
        lemma_pow1(16);
        let (x, p) = (hex_number(a) as int, pow(16, rest.len()));
        assert(16 * (x * p) == x * (16 * p)) by (nonlinear_arith);
        assert(pow(16, b.len()) == 16 * p);
    }
}

/// A text is a hexadecimal number if and only if it is made of such digits, behind at most one plus
/// sign, and what they count is not too large.
pub proof fn only_hex_digits_are_hex_numbers(s: Seq<char>, max: nat)
    requires
        s.len() > 0,
        s[0] != '+',
    ensures
        parse_hex(s, max) == (if (forall|i: int| 0 <= i < s.len() ==> hex_value(#[trigger] s[i]) is Some)
            && hex_number(s) <= max {
            Some(hex_number(s))
        } else {
            None
        }),
        parse_hex(seq!['+'] + s, max) == parse_hex(s, max),
        parse_hex(Seq::<char>::empty(), max) is None,
{
    assert((seq!['+'] + s).skip(1) =~= s);
}

/// A signed number has digits, behind at most one sign.
pub proof fn only_signed_digits_are_numbers(s: Seq<char>)
    ensures
        parse_signed(s) is Some ==> is_digits(s) || (s.len() > 0 && (s[0] == '+' || s[0] == '-')
            && is_digits(s.skip(1))),
        is_digits(s) ==> parse_signed(seq!['+'] + s) == parse_signed(s),
{
    if s.len() > 0 && s[0] == '-' {
        if parse_signed(s) is Some {
            let d = s.skip(1);
            assert forall|i: int| 0 <= i < d.len() implies 48 <= (#[trigger] d[i]) as int <= 57 by {
                assert(is_digit(d[i]));
            }
        }
    } else {
        only_digits_are_numbers(s, i64::MAX as nat);
    }
    if is_digits(s) {
        assert(48 <= s[0] as int <= 57);
        digits_count_by_place(s, i64::MAX as nat);
    }
}

} // verus!
