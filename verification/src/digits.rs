//! Decimal and hexadecimal renderings of 32-bit numbers, as character
//! sequences, with their parsers. The catalog format stores hashes and tags in
//! decimal and escaped code points in lowercase hexadecimal.
use vstd::prelude::*;

verus! {

/// The digit character for a value below 16, lowercase.
pub open spec fn digit_char(d: nat) -> char {
    if d == 0 { '0' } else if d == 1 { '1' } else if d == 2 { '2' } else if d == 3 { '3' }
    else if d == 4 { '4' } else if d == 5 { '5' } else if d == 6 { '6' } else if d == 7 { '7' }
    else if d == 8 { '8' } else if d == 9 { '9' } else if d == 10 { 'a' } else if d == 11 { 'b' }
    else if d == 12 { 'c' } else if d == 13 { 'd' } else if d == 14 { 'e' } else { 'f' }
}

/// The decimal rendering of a number, most significant digit first, no sign
/// and no leading zero (except for the number zero itself).
pub open spec fn dec_rep(n: nat) -> Seq<char>
    decreases n,
{
    if n < 10 { seq![digit_char(n)] } else { dec_rep(n / 10).push(digit_char(n % 10)) }
}

/// The lowercase hexadecimal rendering of a number, most significant digit
/// first, no prefix and no leading zero (except for zero itself).
pub open spec fn hex_rep(n: nat) -> Seq<char>
    decreases n,
{
    if n < 16 { seq![digit_char(n)] } else { hex_rep(n / 16).push(digit_char(n % 16)) }
}

pub open spec fn is_dec_digit(c: char) -> bool {
    '0' <= c && c <= '9'
}

pub open spec fn is_hex_digit(c: char) -> bool {
    ('0' <= c && c <= '9') || ('a' <= c && c <= 'f') || ('A' <= c && c <= 'F')
}

/// The value of one digit character (meaningful for digit characters only).
pub open spec fn digit_val(c: char) -> nat {
    if '0' <= c && c <= '9' {
        (c as u32 - '0' as u32) as nat
    } else if 'a' <= c && c <= 'f' {
        (c as u32 - 'a' as u32 + 10) as nat
    } else {
        (c as u32 - 'A' as u32 + 10) as nat
    }
}

pub open spec fn all_dec_digits(s: Seq<char>) -> bool {
    forall|i: int| 0 <= i < s.len() ==> is_dec_digit(#[trigger] s[i])
}

pub open spec fn all_hex_digits(s: Seq<char>) -> bool {
    forall|i: int| 0 <= i < s.len() ==> is_hex_digit(#[trigger] s[i])
}

/// The number a decimal digit string denotes.
pub open spec fn dec_val(s: Seq<char>) -> nat
    decreases s.len(),
{
    if s.len() == 0 { 0 } else { dec_val(s.drop_last()) * 10 + digit_val(s.last()) }
}

/// The number a hexadecimal digit string denotes.
pub open spec fn hex_val(s: Seq<char>) -> nat
    decreases s.len(),
{
    if s.len() == 0 { 0 } else { hex_val(s.drop_last()) * 16 + digit_val(s.last()) }
}

/// A nonempty, all-decimal string whose value fits in 32 bits: what the parser
/// accepts for the hash and tag fields.
pub open spec fn is_u32_dec(s: Seq<char>) -> bool {
    s.len() > 0 && all_dec_digits(s) && dec_val(s) <= u32::MAX
}

/// The decimal rendering consists of decimal digits and reads back to the
/// rendered number.
pub proof fn lemma_dec_rep_val(n: nat)
    ensures
        dec_rep(n).len() >= 1,
        all_dec_digits(dec_rep(n)),
        dec_val(dec_rep(n)) == n,
    decreases n,
{
    if n < 10 {
        assert(dec_rep(n) =~= seq![digit_char(n)]);
        assert(dec_rep(n).drop_last() =~= Seq::<char>::empty());
        assert(dec_val(Seq::<char>::empty()) == 0);
        assert(digit_val(digit_char(n)) == n);
    } else {
        lemma_dec_rep_val(n / 10);
        let r = dec_rep(n / 10);
        assert(dec_rep(n) == r.push(digit_char(n % 10)));
        assert(dec_rep(n).drop_last() =~= r);
        assert(dec_val(dec_rep(n)) == dec_val(r) * 10 + digit_val(digit_char((n % 10))));
        assert(digit_val(digit_char((n % 10))) == n % 10);
        assert forall|i: int| 0 <= i < dec_rep(n).len() implies is_dec_digit(#[trigger] dec_rep(n)[i]) by {
            if i < r.len() {
                assert(dec_rep(n)[i] == r[i]);
            } else {
                assert(dec_rep(n)[i] == digit_char((n % 10)));
            }
        }
    }
}

/// The hexadecimal rendering consists of hex digits and reads back to the
/// rendered number.
pub proof fn lemma_hex_rep_val(n: nat)
    ensures
        hex_rep(n).len() >= 1,
        all_hex_digits(hex_rep(n)),
        hex_val(hex_rep(n)) == n,
    decreases n,
{
    if n < 16 {
        assert(hex_rep(n) =~= seq![digit_char(n)]);
        assert(hex_rep(n).drop_last() =~= Seq::<char>::empty());
        assert(hex_val(Seq::<char>::empty()) == 0);
        assert(digit_val(digit_char(n)) == n);
    } else {
        lemma_hex_rep_val(n / 16);
        let r = hex_rep(n / 16);
        assert(hex_rep(n).drop_last() =~= r);
        assert(digit_val(digit_char((n % 16))) == n % 16);
        assert forall|i: int| 0 <= i < hex_rep(n).len() implies is_hex_digit(#[trigger] hex_rep(n)[i]) by {
            if i < r.len() {
                assert(hex_rep(n)[i] == r[i]);
            } else {
                assert(hex_rep(n)[i] == digit_char((n % 16)));
            }
        }
    }
}

/// Equal decimal renderings come from equal numbers.
pub proof fn lemma_dec_rep_injective(a: nat, b: nat)
    requires
        dec_rep(a) == dec_rep(b),
    ensures
        a == b,
{
    lemma_dec_rep_val(a);
    lemma_dec_rep_val(b);
}

/// The digit character for a value below 16, executable.
pub(crate) fn exec_digit_char(d: u32) -> (r: char)
    requires
        d < 16,
    ensures
        r == digit_char(d as nat),
{
    match d {
        0 => '0', 1 => '1', 2 => '2', 3 => '3', 4 => '4', 5 => '5', 6 => '6', 7 => '7',
        8 => '8', 9 => '9', 10 => 'a', 11 => 'b', 12 => 'c', 13 => 'd', 14 => 'e', _ => 'f',
    }
}

/// Append the decimal rendering of `n` to `out`.
pub(crate) fn push_dec_u32(out: &mut Vec<char>, n: u32)
    ensures
        final(out)@ == old(out)@ + dec_rep(n as nat),
    decreases n,
{
    if n >= 10 {
        push_dec_u32(out, n / 10);
        out.push(exec_digit_char(n % 10));
        assert(out@ =~= old(out)@ + dec_rep(n as nat));
    } else {
        out.push(exec_digit_char(n));
        assert(out@ =~= old(out)@ + dec_rep(n as nat));
    }
}

/// Append the lowercase hexadecimal rendering of `n` to `out`.
pub(crate) fn push_hex_u32(out: &mut Vec<char>, n: u32)
    ensures
        final(out)@ == old(out)@ + hex_rep(n as nat),
    decreases n,
{
    if n >= 16 {
        push_hex_u32(out, n / 16);
        out.push(exec_digit_char(n % 16));
        assert(out@ =~= old(out)@ + hex_rep(n as nat));
    } else {
        out.push(exec_digit_char(n));
        assert(out@ =~= old(out)@ + hex_rep(n as nat));
    }
}

/// Parse a decimal digit string as a 32-bit number. `None` exactly when the
/// string is empty, holds a non-digit, or denotes a number above `u32::MAX`.
pub(crate) fn parse_u32_dec(s: &[char]) -> (r: Option<u32>)
    ensures
        r is Some <==> is_u32_dec(s@),
        r matches Some(v) ==> v == dec_val(s@),
{
    if s.len() == 0 {
        return None;
    }
    let mut v: u64 = 0;
    let mut too_big: bool = false;
    let mut i: usize = 0;
    while i < s.len()
        invariant
            0 <= i <= s@.len(),
            all_dec_digits(s@.take(i as int)),
            too_big <==> dec_val(s@.take(i as int)) > u32::MAX,
            !too_big ==> v == dec_val(s@.take(i as int)),
            v <= u32::MAX,
        decreases s@.len() - i,
    {
        let c = s[i];
        if c < '0' || c > '9' {
            assert(!is_dec_digit(s@[i as int]));
            return None;
        }
        proof {
            vstd::utf8::char_is_scalar(c);
        }
        let d: u64 = (c as u32 - 0x30) as u64;
        proof {
            assert(is_dec_digit(s@[i as int]));
            assert(digit_val(s@[i as int]) == d);
            assert(s@.take(i + 1).drop_last() =~= s@.take(i as int));
            assert(dec_val(s@.take(i + 1)) == dec_val(s@.take(i as int)) * 10 + d);
        }
        if too_big {
            proof {
                let p = dec_val(s@.take(i as int));
                assert(p * 10 >= p) by (nonlinear_arith)
                    requires p >= 0;
            }
        } else {
            let next = v * 10 + d;
            if next > u32::MAX as u64 {
                too_big = true;
            } else {
                v = next;
            }
        }
        i += 1;
    }
    proof {
        assert(s@.take(i as int) =~= s@);
    }
    if too_big {
        None
    } else {
        Some(v as u32)
    }
}

/// Parse a hexadecimal digit string as a 32-bit number. `None` exactly when
/// the string is empty, holds a non-hex character, or denotes a number above
/// `u32::MAX`.
pub(crate) fn parse_u32_hex(s: &[char]) -> (r: Option<u32>)
    ensures
        r is Some <==> (s@.len() > 0 && all_hex_digits(s@) && hex_val(s@) <= u32::MAX),
        r matches Some(v) ==> v == hex_val(s@),
{
    if s.len() == 0 {
        return None;
    }
    let mut v: u64 = 0;
    let mut too_big: bool = false;
    let mut i: usize = 0;
    while i < s.len()
        invariant
            0 <= i <= s@.len(),
            all_hex_digits(s@.take(i as int)),
            too_big <==> hex_val(s@.take(i as int)) > u32::MAX,
            !too_big ==> v == hex_val(s@.take(i as int)),
            v <= u32::MAX,
        decreases s@.len() - i,
    {
        let c = s[i];
        proof {
            vstd::utf8::char_is_scalar(c);
        }
        let d: u64;
        if '0' <= c && c <= '9' {
            d = (c as u32 - 0x30) as u64;
        } else if 'a' <= c && c <= 'f' {
            d = (c as u32 - 0x61 + 10) as u64;
        } else if 'A' <= c && c <= 'F' {
            d = (c as u32 - 0x41 + 10) as u64;
        } else {
            assert(!is_hex_digit(s@[i as int]));
            return None;
        }
        proof {
            assert(is_hex_digit(s@[i as int]));
            assert(digit_val(s@[i as int]) == d);
            assert(s@.take(i + 1).drop_last() =~= s@.take(i as int));
            assert(hex_val(s@.take(i + 1)) == hex_val(s@.take(i as int)) * 16 + d);
        }
        if too_big {
            proof {
                let p = hex_val(s@.take(i as int));
                assert(p * 16 >= p) by (nonlinear_arith)
                    requires p >= 0;
            }
        } else {
            let next = v * 16 + d;
            if next > u32::MAX as u64 {
                too_big = true;
            } else {
                v = next;
            }
        }
        i += 1;
    }
    proof {
        assert(s@.take(i as int) =~= s@);
    }
    if too_big {
        None
    } else {
        Some(v as u32)
    }
}

} // verus!
