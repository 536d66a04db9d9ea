//! The key grammar's building blocks: zero-padded decimal timestamps, the
//! digit arithmetic behind them, and helpers that assemble keys as byte
//! vectors while the specification tracks the underlying characters.

use vstd::prelude::*;
use vstd::utf8::*;

use crate::text::{lemma_encode_ascii_char, lemma_encode_utf8_concat};

verus! {

/// Ten to the `n`.
pub open spec fn pow10(n: nat) -> int
    decreases n,
{
    if n == 0 {
        1
    } else {
        10 * pow10((n - 1) as nat)
    }
}

pub proof fn lemma_pow10_positive(n: nat)
    ensures
        pow10(n) >= 1,
    decreases n,
{
    if n > 0 {
        lemma_pow10_positive((n - 1) as nat)
    }
}

pub proof fn lemma_pow10_increases(a: nat, b: nat)
    requires
        a <= b,
    ensures
        pow10(a) <= pow10(b),
    decreases b,
{
    if a < b {
        lemma_pow10_increases(a, (b - 1) as nat);
        lemma_pow10_positive((b - 1) as nat);
    }
}

/// The decimal digit character for `d`.
pub open spec fn digit_char(d: int) -> char {
    ((48 + d) as u8) as char
}

pub open spec fn is_digit(c: char) -> bool {
    48 <= (c as u32) <= 57
}

pub open spec fn digit_val(c: char) -> int {
    (c as u32) - 48
}

/// `t` printed as `width` decimal digits, zero-padded (the low `width`
/// digits of `t`).
pub open spec fn padded_chars(t: int, width: nat) -> Seq<char> {
    Seq::new(width, |i: int| digit_char((t / pow10((width - 1 - i) as nat)) % 10))
}

/// A non-negative 64-bit timestamp printed as 20 zero-padded decimal digits,
/// so that lexicographic order on the text equals numeric order.
pub open spec fn pad20_chars(t: int) -> Seq<char> {
    padded_chars(t, 20)
}

/// The numeric value of a digit string.
pub open spec fn digits_val(s: Seq<char>) -> int
    decreases s.len(),
{
    if s.len() == 0 {
        0
    } else {
        digits_val(s.drop_last()) * 10 + digit_val(s.last())
    }
}

pub proof fn lemma_digit_char_val(d: int)
    requires
        0 <= d <= 9,
    ensures
        is_digit(digit_char(d)),
        digit_val(digit_char(d)) == d,
        (digit_char(d) as u32) < 0x80,
{
}

/// Padding then reading the digits back yields the value.
pub proof fn lemma_digits_val_padded(t: int, width: nat)
    requires
        0 <= t < pow10(width),
    ensures
        digits_val(padded_chars(t, width)) == t,
        forall|i: int| 0 <= i < width ==> is_digit(#[trigger] padded_chars(t, width)[i]),
    decreases width,
{
    if width == 0 {
    } else {
        let w1 = (width - 1) as nat;
        let s = padded_chars(t, width);
        assert forall|i: int| 0 <= i < width implies is_digit(#[trigger] s[i]) && (s[i] as u32)
            < 0x80 by {
            let p = pow10((width - 1 - i) as nat);
            lemma_pow10_positive((width - 1 - i) as nat);
            assert(0 <= (t / p) % 10 <= 9) by {
                vstd::arithmetic::div_mod::lemma_mod_bound(t / p, 10);
            }
            lemma_digit_char_val((t / p) % 10);
        }
        assert(t / 10 < pow10(w1)) by {
            vstd::arithmetic::div_mod::lemma_fundamental_div_mod(t, 10);
            vstd::arithmetic::div_mod::lemma_mod_bound(t, 10);
        }
        assert(0 <= t / 10) by {
            vstd::arithmetic::div_mod::lemma_div_pos_is_pos(t, 10);
        }
        lemma_digits_val_padded(t / 10, w1);
        assert(s.drop_last() =~= padded_chars(t / 10, w1)) by {
            assert forall|i: int| 0 <= i < w1 implies s[i] == padded_chars(t / 10, w1)[i] by {
                let p = pow10((width - 2 - i) as nat);
                lemma_pow10_positive((width - 2 - i) as nat);
                assert((t / 10) / p == t / (10 * p)) by {
                    vstd::arithmetic::div_mod::lemma_div_denominator(t, 10, p);
                }
                assert(pow10((width - 1 - i) as nat) == 10 * p);
            }
        }
        assert(s.last() == digit_char(t % 10)) by {
            assert(pow10((width - 1 - (width - 1)) as nat) == 1);
            assert(t / 1 == t) by {
                vstd::arithmetic::div_mod::lemma_fundamental_div_mod(t, 1);
                vstd::arithmetic::div_mod::lemma_mod_bound(t, 1);
            }
        }
        assert(0 <= t % 10 <= 9) by {
            vstd::arithmetic::div_mod::lemma_mod_bound(t, 10);
        }
        lemma_digit_char_val(t % 10);
        assert(digits_val(s) == (t / 10) * 10 + t % 10);
        assert(t == (t / 10) * 10 + t % 10) by {
            vstd::arithmetic::div_mod::lemma_fundamental_div_mod(t, 10);
        }
    }
}

/// Ten to the `e`, computed.
pub fn pow10_u64(e: usize) -> (r: u64)
    requires
        e <= 19,
    ensures
        r as int == pow10(e as nat),
{
    proof {
        reveal_with_fuel(pow10, 21);
    }
    let mut r: u64 = 1;
    let mut j: usize = 0;
    while j < e
        invariant
            0 <= j <= e <= 19,
            r as int == pow10(j as nat),
        decreases e - j,
    {
        proof {
            reveal_with_fuel(pow10, 21);
            lemma_pow10_increases(j as nat, 18);
            assert(pow10(18) == 1_000_000_000_000_000_000);
        }
        r = r * 10;
        j = j + 1;
    }
    r
}

/// Append a single ASCII character's byte.
pub fn push_ascii(out: &mut Vec<u8>, c: char)
    requires
        (c as u32) < 0x80,
    ensures
        final(out)@ == old(out)@ + encode_utf8(seq![c]),
{
    out.push(c as u8);
    proof {
        lemma_encode_ascii_char(c);
        assert(final(out)@ =~= old(out)@ + encode_utf8(seq![c]));
    }
}

/// Append a string's UTF-8 bytes.
pub fn push_str_bytes(out: &mut Vec<u8>, s: &str)
    ensures
        final(out)@ == old(out)@ + encode_utf8(s@),
{
    out.extend_from_slice(s.as_bytes());
    proof {
        assert(final(out)@ =~= old(out)@ + encode_utf8(s@));
    }
}

/// The 20-digit zero-padded decimal text of a non-negative timestamp, as
/// bytes.
pub fn pad20(t: i64) -> (r: Vec<u8>)
    requires
        t >= 0,
    ensures
        r@ == encode_utf8(pad20_chars(t as int)),
        r@.len() == 20,
{
    let mut r: Vec<u8> = Vec::new();
    let mut i: usize = 0;
    while i < 20
        invariant
            0 <= i <= 20,
            t >= 0,
            r@ == encode_utf8(padded_chars(t as int, 20).subrange(0, i as int)),
            r@.len() == i,
        decreases 20 - i,
    {
        let p = pow10_u64(19 - i);
        proof {
            lemma_pow10_positive((19 - i) as nat);
        }
        let d: u64 = ((t as u64) / p) % 10;
        let ghost cs = padded_chars(t as int, 20);
        proof {
            assert((t as u64) as int == t as int);
            assert(d as int == ((t as int) / (p as int)) % 10);
            assert(cs[i as int] == digit_char(d as int));
            lemma_digit_char_val(d as int);
            lemma_encode_ascii_char(cs[i as int]);
            assert(cs[i as int] as u8 == (48 + d) as u8);
        }
        r.push(48u8 + (d as u8));
        proof {
            assert(cs.subrange(0, i as int + 1) =~= cs.subrange(0, i as int) + seq![cs[i as int]]);
            lemma_encode_utf8_concat(cs.subrange(0, i as int), seq![cs[i as int]]);
            assert(r@ =~= encode_utf8(cs.subrange(0, i as int + 1)));
        }
        i = i + 1;
    }
    proof {
        assert(padded_chars(t as int, 20).subrange(0, 20) =~= pad20_chars(t as int));
        assert(encode_utf8(pad20_chars(t as int)).len() == 20) by {
            lemma_digits_len(t as int);
        }
    }
    r
}

/// The encoding of the 20 padded digits is exactly 20 bytes long.
pub proof fn lemma_digits_len(t: int)
    requires
        t >= 0,
    ensures
        encode_utf8(pad20_chars(t)).len() == 20,
        is_ascii_chars(pad20_chars(t)),
{
    let s = pad20_chars(t);
    assert forall|i: int| 0 <= i < s.len() implies (s[i] as nat) < 128 by {
        let p = pow10((19 - i) as nat);
        lemma_pow10_positive((19 - i) as nat);
        vstd::arithmetic::div_mod::lemma_mod_bound(t / p, 10);
        lemma_digit_char_val((t / p) % 10);
    }
    assert(is_ascii_chars(s));
    is_ascii_chars_encode_utf8(s);
}

/// A decimal digit byte.
pub open spec fn is_digit_byte(b: u8) -> bool {
    48 <= b <= 57
}

/// The numeric value of a digit-byte string.
pub open spec fn digits_val_bytes(s: Seq<u8>) -> int
    decreases s.len(),
{
    if s.len() == 0 {
        0
    } else {
        digits_val_bytes(s.drop_last()) * 10 + (s.last() - 48)
    }
}

/// The value of digit bytes equals the value of the digit characters they
/// encode.
pub proof fn lemma_digits_val_bytes_chars(s: Seq<char>, b: Seq<u8>)
    requires
        s.len() == b.len(),
        forall|i: int| 0 <= i < s.len() ==> is_digit(#[trigger] s[i]) && b[i] == s[i] as u8,
    ensures
        digits_val_bytes(b) == digits_val(s),
        forall|i: int| 0 <= i < b.len() ==> is_digit_byte(#[trigger] b[i]),
    decreases s.len(),
{
    assert forall|i: int| 0 <= i < b.len() implies is_digit_byte(#[trigger] b[i]) by {
        assert(is_digit(s[i]));
        let u = s[i] as u32;
        vstd::utf8::char_u32_cast(s[i], u);
        assert(s[i] as u8 == u as u8);
        assert(48 <= (u as u8) <= 57) by (bit_vector)
            requires
                48 <= u <= 57,
        ;
    }
    if s.len() > 0 {
        lemma_digits_val_bytes_chars(s.drop_last(), b.drop_last());
        assert(b.last() == s.last() as u8);
        let u = s.last() as u32;
        vstd::utf8::char_u32_cast(s.last(), u);
        assert(s.last() as u8 == u as u8);
        assert((u as u8) as u32 == u) by (bit_vector)
            requires
                48 <= u <= 57,
        ;
        assert(digit_val(s.last()) == b.last() - 48);
    }
}

/// The decimal digit text of any two timestamps orders like the
/// timestamps: the zero padding makes lexicographic and numeric order
/// agree.
pub open spec fn lex_le(a: Seq<char>, b: Seq<char>) -> bool
    decreases a.len(),
{
    if a.len() == 0 {
        true
    } else if b.len() == 0 {
        false
    } else if (a[0] as u32) < (b[0] as u32) {
        true
    } else if (a[0] as u32) > (b[0] as u32) {
        false
    } else {
        lex_le(a.drop_first(), b.drop_first())
    }
}

/// On zero-padded digit strings of one width, lexicographic order is
/// numeric order.
proof fn lemma_padded_lex(a: int, b: int, w: nat)
    requires
        0 <= a < pow10(w),
        0 <= b < pow10(w),
    ensures
        lex_le(padded_chars(a, w), padded_chars(b, w)) <==> a <= b,
    decreases w,
{
    if w == 0 {
        assert(padded_chars(a, 0).len() == 0);
    } else {
        let w1 = (w - 1) as nat;
        let p = pow10(w1);
        lemma_pow10_positive(w1);
        let da = a / p;
        let db = b / p;
        let ra = a % p;
        let rb = b % p;
        vstd::arithmetic::div_mod::lemma_fundamental_div_mod(a, p);
        vstd::arithmetic::div_mod::lemma_fundamental_div_mod(b, p);
        vstd::arithmetic::div_mod::lemma_mod_bound(a, p);
        vstd::arithmetic::div_mod::lemma_mod_bound(b, p);
        assert(0 <= da <= 9 && 0 <= db <= 9) by {
            vstd::arithmetic::div_mod::lemma_div_pos_is_pos(a, p);
            vstd::arithmetic::div_mod::lemma_div_pos_is_pos(b, p);
            if da >= 10 {
                assert(a >= p * da) by (nonlinear_arith)
                    requires
                        a == p * da + ra && ra >= 0,
                ;
                assert(p * da >= p * 10) by (nonlinear_arith)
                    requires
                        da >= 10 && p >= 1,
                ;
            }
            if db >= 10 {
                assert(b >= p * db) by (nonlinear_arith)
                    requires
                        b == p * db + rb && rb >= 0,
                ;
                assert(p * db >= p * 10) by (nonlinear_arith)
                    requires
                        db >= 10 && p >= 1,
                ;
            }
        }
        let sa = padded_chars(a, w);
        let sb = padded_chars(b, w);
        assert(sa[0] == digit_char((a / pow10(w1)) % 10));
        assert(da % 10 == da && db % 10 == db) by {
            vstd::arithmetic::div_mod::lemma_small_mod(da as nat, 10);
            vstd::arithmetic::div_mod::lemma_small_mod(db as nat, 10);
        }
        assert(sa[0] == digit_char(da) && sb[0] == digit_char(db));
        lemma_digit_char_val(da);
        lemma_digit_char_val(db);
        assert((sa[0] as u32) == 48 + da && (sb[0] as u32) == 48 + db);
        if da < db {
            assert(a < b) by (nonlinear_arith)
                requires
                    a == p * da + ra && b == p * db + rb && da < db && 0 <= ra < p && 0 <= rb < p
                        && p >= 1,
            ;
            assert(lex_le(sa, sb));
        } else if da > db {
            assert(b < a) by (nonlinear_arith)
                requires
                    a == p * da + ra && b == p * db + rb && db < da && 0 <= ra < p && 0 <= rb < p
                        && p >= 1,
            ;
            assert(!lex_le(sa, sb));
        } else {
            // equal leading digits: compare the remainders
            assert(sa.drop_first() =~= padded_chars(ra, w1)) by {
                lemma_padded_drop_first(a, w);
            }
            assert(sb.drop_first() =~= padded_chars(rb, w1)) by {
                lemma_padded_drop_first(b, w);
            }
            lemma_padded_lex(ra, rb, w1);
            assert(a <= b <==> ra <= rb) by (nonlinear_arith)
                requires
                    a == p * da + ra && b == p * db + rb && da == db,
            ;
            assert(lex_le(sa, sb) <==> lex_le(sa.drop_first(), sb.drop_first()));
        }
    }
}

/// Dropping the leading digit of a padded number leaves the padding of the
/// remainder.
proof fn lemma_padded_drop_first(a: int, w: nat)
    requires
        w >= 1,
        0 <= a < pow10(w),
    ensures
        padded_chars(a, w).drop_first() =~= padded_chars(a % pow10((w - 1) as nat), (w - 1) as nat),
{
    let w1 = (w - 1) as nat;
    let p = pow10(w1);
    lemma_pow10_positive(w1);
    let ra = a % p;
    vstd::arithmetic::div_mod::lemma_fundamental_div_mod(a, p);
    vstd::arithmetic::div_mod::lemma_mod_bound(a, p);
    assert forall|i: int| 0 <= i < w1 implies padded_chars(a, w).drop_first()[i] == padded_chars(
        ra,
        w1,
    )[i] by {
        let q = pow10((w1 - 1 - i) as nat);
        lemma_pow10_positive((w1 - 1 - i) as nat);
        assert(padded_chars(a, w).drop_first()[i] == digit_char((a / q) % 10));
        assert(padded_chars(ra, w1)[i] == digit_char((ra / q) % 10));
        let e = (w1 - (w1 - 1 - i)) as nat;
        assert(e >= 1);
        assert(p == q * pow10(e)) by {
            lemma_pow10_mul(e, (w1 - 1 - i) as nat);
        }
        let da = a / p;
        assert(a == q * (da * pow10(e)) + ra) by (nonlinear_arith)
            requires
                a == p * da + ra && p == q * pow10(e),
        ;
        assert(a / q == da * pow10(e) + ra / q) by {
            vstd::arithmetic::div_mod::lemma_hoist_over_denominator(ra, da * pow10(e), q as nat);
            assert(ra + (da * pow10(e)) * q == a) by (nonlinear_arith)
                requires
                    a == q * (da * pow10(e)) + ra,
            ;
        }
        assert((a / q) % 10 == (ra / q) % 10) by {
            let t = pow10((e - 1) as nat);
            assert(pow10(e) == 10 * t);
            assert(da * pow10(e) == (da * t) * 10) by (nonlinear_arith)
                requires
                    pow10(e) == 10 * t,
            ;
            vstd::arithmetic::div_mod::lemma_mod_multiples_vanish(da * t, ra / q, 10);
        }
    }
}

/// Powers of ten multiply by adding exponents.
proof fn lemma_pow10_mul(e: nat, f: nat)
    ensures
        pow10(e + f) == pow10(f) * pow10(e),
    decreases e,
{
    if e == 0 {
        assert(pow10(f) * 1 == pow10(f)) by (nonlinear_arith);
    } else {
        lemma_pow10_mul((e - 1) as nat, f);
        assert((e + f - 1) as nat == ((e - 1) + f) as nat);
        assert(pow10(e + f) == 10 * (pow10(f) * pow10((e - 1) as nat)));
        assert(10 * (pow10(f) * pow10((e - 1) as nat)) == pow10(f) * (10 * pow10(
            (e - 1) as nat,
        ))) by (nonlinear_arith);
    }
}


/// The zero-padding invariant: on non-negative 64-bit timestamps,
/// lexicographic order of the 20-digit text equals numeric order.
pub proof fn lemma_pad20_lex_order(a: i64, b: i64)
    requires
        a >= 0,
        b >= 0,
    ensures
        lex_le(pad20_chars(a as int), pad20_chars(b as int)) <==> a <= b,
{
    reveal_with_fuel(pow10, 21);
    lemma_pow10_increases(19, 20);
    lemma_padded_lex(a as int, b as int, 20);
}

} // verus!
