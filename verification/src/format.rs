//! Human-readable byte counts in binary (IEC) units.
//!
//! The displayed value is the byte count converted to a double-precision
//! number (round to nearest, ties to even, on 53 significant bits), divided
//! by 1024 while it is at least 1024 (up to PiB), and printed with two
//! decimals (exact value rounded half to even). Everything is computed here in
//! exact integer arithmetic.
use vstd::prelude::*;

use crate::text::{chars_of, string_of};

verus! {

pub open spec fn pow(base: nat, k: nat) -> nat
    decreases k,
{
    if k == 0 {
        1
    } else {
        base * pow(base, (k - 1) as nat)
    }
}

/// Number of binary digits of `n`.
pub open spec fn bitlen(n: nat) -> nat
    decreases n,
{
    if n == 0 {
        0
    } else {
        1 + bitlen(n / 2)
    }
}

/// `n / d` rounded to the nearest integer, ties to even.
pub open spec fn round_half_even(n: nat, d: nat) -> nat
    recommends
        d > 0,
{
    let q = n / d;
    let rem = n % d;
    if 2 * rem > d {
        q + 1
    } else if 2 * rem < d {
        q
    } else if q % 2 == 0 {
        q
    } else {
        q + 1
    }
}

/// The value of `b` after conversion to a 53-bit-mantissa double.
pub open spec fn to_double(b: nat) -> nat {
    if b < pow(2, 53) {
        b
    } else {
        let s = (bitlen(b) - 53) as nat;
        round_half_even(b, pow(2, s)) * pow(2, s)
    }
}

/// The unit index reached by dividing `r` by 1024 while it is at least 1024,
/// starting from unit `k`, stopping at the last unit (5).
pub open spec fn unit_from(r: nat, k: nat) -> nat
    decreases 5 - k,
{
    if k < 5 && r >= pow(1024, k + 1) {
        unit_from(r, k + 1)
    } else {
        k
    }
}

pub open spec fn digit_char(d: nat) -> char {
    ((48 + d) as u8) as char
}

/// Decimal digits of `n`, most significant first.
pub open spec fn decimal(n: nat) -> Seq<char>
    decreases n,
{
    if n < 10 {
        seq![digit_char(n)]
    } else {
        decimal(n / 10).push(digit_char(n % 10))
    }
}

pub open spec fn unit_name(k: nat) -> Seq<char> {
    if k == 0 {
        "B"@
    } else if k == 1 {
        "KiB"@
    } else if k == 2 {
        "MiB"@
    } else if k == 3 {
        "GiB"@
    } else if k == 4 {
        "TiB"@
    } else {
        "PiB"@
    }
}

/// The text `format_bytes` produces for `bytes`.
pub open spec fn format_bytes_spec(bytes: u64) -> Seq<char> {
    if bytes == 0 {
        "0 B"@
    } else {
        let r = to_double(bytes as nat);
        let k = unit_from(r, 0);
        if k == 0 {
            decimal(bytes as nat) + " B"@
        } else {
            let h = round_half_even(r * 100, pow(1024, k));
            decimal(h / 100) + seq!['.', digit_char((h % 100) / 10), digit_char(h % 10), ' ']
                + unit_name(k)
        }
    }
}

fn digit(d: u128) -> (c: char)
    requires
        d < 10,
    ensures
        c == digit_char(d as nat),
{
    let b: u8 = d as u8;
    (48u8 + b) as char
}

pub(crate) fn push_decimal(out: &mut Vec<char>, n: u128)
    ensures
        final(out)@ == old(out)@ + decimal(n as nat),
    decreases n,
{
    if n < 10 {
        out.push(digit(n));
        assert(decimal(n as nat) == seq![digit_char(n as nat)]);
    } else {
        push_decimal(out, n / 10);
        out.push(digit(n % 10));
    }
}

pub(crate) fn append_chars(out: &mut Vec<char>, s: &str)
    ensures
        final(out)@ == old(out)@ + s@,
{
    let c = chars_of(s);
    let mut i: usize = 0;
    let ghost start = out@;
    while i < c.len()
        invariant
            i <= c.len(),
            c@ == s@,
            out@ =~= start + c@.take(i as int),
        decreases c.len() - i,
    {
        out.push(c[i]);
        i += 1;
    }
    assert(c@.take(c.len() as int) =~= c@);
}

fn round_half_even_exec(n: u128, d: u128) -> (r: u128)
    requires
        d > 0,
        n / d + 1 <= u128::MAX,
        2 * (n % d) <= u128::MAX,
    ensures
        r == round_half_even(n as nat, d as nat),
{
    let q = n / d;
    let rem = n % d;
    if 2 * rem > d {
        q + 1
    } else if 2 * rem < d {
        q
    } else if q % 2 == 0 {
        q
    } else {
        q + 1
    }
}

proof fn lemma_pow_pos(base: nat, k: nat)
    requires
        base > 0,
    ensures
        pow(base, k) > 0,
    decreases k,
{
    if k > 0 {
        lemma_pow_pos(base, (k - 1) as nat);
        assert(base * pow(base, (k - 1) as nat) > 0) by (nonlinear_arith)
            requires
                base > 0,
                pow(base, (k - 1) as nat) > 0,
        ;
    }
}

proof fn lemma_pow_mono(base: nat, j: nat, k: nat)
    requires
        base > 1,
        j <= k,
    ensures
        pow(base, j) <= pow(base, k),
    decreases k - j,
{
    if j < k {
        lemma_pow_mono(base, j, (k - 1) as nat);
        lemma_pow_pos(base, (k - 1) as nat);
        assert(pow(base, (k - 1) as nat) <= base * pow(base, (k - 1) as nat)) by (nonlinear_arith)
            requires
                base > 1,
                pow(base, (k - 1) as nat) > 0,
        ;
    }
}

/// `2^s` for small `s`.
fn pow2_exec(s: u32) -> (r: u128)
    requires
        s <= 11,
    ensures
        r == pow(2, s as nat),
{
    let mut r: u128 = 1;
    let mut i: u32 = 0;
    while i < s
        invariant
            i <= s <= 11,
            r == pow(2, i as nat),
        decreases s - i,
    {
        proof {
            lemma_pow_mono(2, (i + 1) as nat, 11);
            assert(pow(2, 11) == 2048) by {
                reveal_with_fuel(pow, 12);
            }
        }
        r = r * 2;
        i += 1;
    }
    r
}

proof fn lemma_bitlen_bound(n: nat)
    ensures
        n < pow(2, bitlen(n)),
        n > 0 ==> pow(2, (bitlen(n) - 1) as nat) <= n,
    decreases n,
{
    if n > 0 {
        lemma_bitlen_bound(n / 2);
    }
}

fn bitlen_exec(n: u64) -> (r: u32)
    ensures
        r == bitlen(n as nat),
        r <= 64,
{
    proof {
        lemma_bitlen_bound(n as nat);
        if bitlen(n as nat) > 64 {
            lemma_pow_mono(2, 64, (bitlen(n as nat) - 1) as nat);
            assert(pow(2, 64) == 0x1_0000_0000_0000_0000) by {
                reveal_with_fuel(pow, 65);
            }
        }
    }
    let mut x: u64 = n;
    let mut len: u32 = 0;
    while x > 0
        invariant
            bitlen(n as nat) == len + bitlen(x as nat),
            len + bitlen(x as nat) <= 64,
        decreases x,
    {
        x = x / 2;
        len += 1;
    }
    proof {
        lemma_bitlen_bound(n as nat);
        if bitlen(n as nat) > 64 {
            lemma_pow_mono(2, 64, (bitlen(n as nat) - 1) as nat);
            assert(pow(2, 64) == 0x1_0000_0000_0000_0000) by {
                reveal_with_fuel(pow, 65);
            }
        }
    }
    len
}

/// The value of `bytes` after conversion to a double, exactly.
#[verifier::rlimit(50)]
fn to_double_exec(bytes: u64) -> (r: u128)
    ensures
        r == to_double(bytes as nat),
        r <= 0x1_0000_0000_0000_0800,
{
    let p53: u128 = 9007199254740992;
    assert(pow(2, 53) == p53) by {
        reveal_with_fuel(pow, 54);
    }
    if (bytes as u128) < p53 {
        return bytes as u128;
    }
    let len = bitlen_exec(bytes);
    proof {
        lemma_bitlen_bound(bytes as nat);
        if len < 54 {
            lemma_pow_mono(2, len as nat, 53);
        }
        if len > 64 {
            lemma_pow_mono(2, 64, (len - 1) as nat);
        }
    }
    let s: u32 = len - 53;
    let d = pow2_exec(s);
    proof {
        lemma_pow_pos(2, s as nat);
        lemma_pow_mono(2, s as nat, 11);
        assert(pow(2, 11) == 2048) by {
            reveal_with_fuel(pow, 12);
        }
    }
    let q = round_half_even_exec(bytes as u128, d);
    assert(q <= bytes as u128 / d + 1);
    assert(bytes as u128 / d * d <= bytes as u128) by (nonlinear_arith)
        requires
            d > 0,
    ;
    assert(q * d <= bytes as u128 + d) by (nonlinear_arith)
        requires
            d > 0,
            q <= bytes as u128 / d + 1,
            bytes as u128 / d * d <= bytes as u128,
    ;
    q * d
}

/// The unit index for a value and the matching power of 1024.
fn unit_exec(r: u128) -> (res: (u32, u128))
    requires
        r <= 0x1_0000_0000_0000_0800,
    ensures
        res.0 == unit_from(r as nat, 0),
        res.1 == pow(1024, res.0 as nat),
        res.0 <= 5,
        res.1 > 0,
        res.1 <= 0x4_0000_0000_0000,
{
    let mut unit: u32 = 0;
    let mut div: u128 = 1;
    assert(pow(1024, 0) == 1);
    while unit < 5 && r >= div * 1024
        invariant
            unit <= 5,
            div == pow(1024, unit as nat),
            div <= 0x4_0000_0000_0000,
            unit_from(r as nat, 0) == unit_from(r as nat, unit as nat),
        decreases 5 - unit,
    {
        assert(pow(1024, (unit + 1) as nat) == 1024 * pow(1024, unit as nat));
        proof {
            lemma_pow_mono(1024, (unit + 1) as nat, 5);
            assert(pow(1024, 5) == 0x4_0000_0000_0000) by {
                reveal_with_fuel(pow, 6);
            }
        }
        div = div * 1024;
        unit += 1;
    }
    assert(unit_from(r as nat, unit as nat) == unit) by {
        if unit < 5 {
            assert(pow(1024, (unit + 1) as nat) == 1024 * pow(1024, unit as nat));
        }
    }
    proof {
        lemma_pow_pos(1024, unit as nat);
    }
    (unit, div)
}

/// Format a byte count into a human-readable string using binary (IEC)
/// units, e.g. `1536` becomes `1.50 KiB`.
pub fn format_bytes(bytes: u64) -> (r: String)
    ensures
        r@ == format_bytes_spec(bytes),
{
    if bytes == 0 {
        let s = chars_of("0 B");
        return string_of(&s);
    }
    if bytes < 1024 {
        assert(pow(2, 53) == 9007199254740992) by {
            reveal_with_fuel(pow, 54);
        }
        assert(unit_from(bytes as nat, 0) == 0) by {
            reveal_with_fuel(pow, 2);
        }
        let mut out: Vec<char> = Vec::new();
        push_decimal(&mut out, bytes as u128);
        append_chars(&mut out, " B");
        return string_of(&out);
    }
    let r = to_double_exec(bytes);
    let (unit, div) = unit_exec(r);
    assert(unit >= 1) by {
        lemma_unit_from_at_least(r as nat, 1);
        assert(pow(1024, 1) == 1024) by {
            reveal_with_fuel(pow, 2);
        }
        assert(r >= 1024) by {
            assert(pow(2, 53) == 9007199254740992) by {
                reveal_with_fuel(pow, 54);
            }
            if bytes as nat >= pow(2, 53) {
                lemma_rounding_keeps_large(bytes as nat);
            }
        }
    }
    let h = round_half_even_exec(r * 100, div);
    let mut out: Vec<char> = Vec::new();
    push_decimal(&mut out, h / 100);
    out.push('.');
    out.push(digit((h % 100) / 10));
    out.push(digit(h % 10));
    out.push(' ');
    let name = if unit == 1 {
        "KiB"
    } else if unit == 2 {
        "MiB"
    } else if unit == 3 {
        "GiB"
    } else if unit == 4 {
        "TiB"
    } else {
        "PiB"
    };
    append_chars(&mut out, name);
    string_of(&out)
}

proof fn lemma_unit_from_at_least(r: nat, k: nat)
    requires
        k <= 5,
    ensures
        unit_from(r, k) >= k,
    decreases 5 - k,
{
    if k < 5 && r >= pow(1024, k + 1) {
        lemma_unit_from_at_least(r, k + 1);
    }
}

/// Rounding a large count to 53 significant bits keeps it at least 1024.
proof fn lemma_rounding_keeps_large(b: nat)
    requires
        b >= pow(2, 53),
    ensures
        to_double(b) >= 1024,
{
    let s = (bitlen(b) - 53) as nat;
    lemma_bitlen_bound(b);
    lemma_pow_pos(2, s);
    let d = pow(2, s);
    if bitlen(b) < 54 {
        lemma_pow_mono(2, bitlen(b), 53);
    }
    // b >= 2^(bitlen-1) = 2^52 * d, so b / d >= 2^52
    assert(pow(2, (bitlen(b) - 1) as nat) == pow(2, 52) * d) by {
        lemma_pow_add(2, 52, s);
        assert((bitlen(b) - 1) as nat == 52 + s);
    }
    assert(pow(2, 52) >= 1024) by {
        lemma_pow_mono(2, 10, 52);
        reveal_with_fuel(pow, 11);
    }
    assert(b / d >= pow(2, 52)) by (nonlinear_arith)
        requires
            b >= pow(2, 52) * d,
            d > 0,
    ;
    assert(round_half_even(b, d) >= b / d);
    assert(round_half_even(b, d) * d >= round_half_even(b, d)) by (nonlinear_arith)
        requires
            d > 0,
    ;
}

proof fn lemma_pow_add(base: nat, a: nat, b: nat)
    ensures
        pow(base, a + b) == pow(base, a) * pow(base, b),
    decreases b,
{
    if b > 0 {
        let b1 = (b - 1) as nat;
        lemma_pow_add(base, a, b1);
        assert((a + b - 1) as nat == a + b1);
        assert(pow(base, a + b) == base * pow(base, a + b1));
        assert(pow(base, b) == base * pow(base, b1));
        let x = pow(base, a);
        let y = pow(base, b1);
        assert(base * (x * y) == x * (base * y)) by (nonlinear_arith);
    } else {
        assert(a + b == a);
        assert(pow(base, a) * 1 == pow(base, a));
    }
}

} // verus!
