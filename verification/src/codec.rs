//! Packed-state codec: an N-digit configuration, each digit in `[0, base)`,
//! stored in one `u128` as N fields of `width(base)` bits each.
//!
//! The mathematical model is `digit_of`: digit `i` of a packed word `s` is
//! `(s / 2^(i*w)) % 2^w`.  Everything else (well-formedness, the mixed-radix
//! counter value used for exhaustive enumeration, packing of digit
//! sequences) is defined from it.

use vstd::prelude::*;

verus! {

use vstd::arithmetic::power2::pow2;
use vstd::arithmetic::power2::lemma_pow2_adds;
use vstd::arithmetic::power2::lemma_pow2_pos;
use vstd::arithmetic::power2::lemma_pow2_strictly_increases;
use vstd::arithmetic::power2::lemma2_to64;
use vstd::arithmetic::div_mod::lemma_fundamental_div_mod;
use vstd::arithmetic::div_mod::lemma_fundamental_div_mod_converse;
use vstd::arithmetic::div_mod::lemma_div_denominator;
use vstd::arithmetic::div_mod::lemma_div_multiples_vanish_fancy;
use vstd::arithmetic::div_mod::lemma_mod_multiples_vanish;
use vstd::arithmetic::div_mod::lemma_small_mod;
use vstd::arithmetic::div_mod::lemma_basic_div;
use vstd::arithmetic::div_mod::lemma_multiply_divide_lt;
use vstd::arithmetic::div_mod::lemma_mod_breakdown;
use vstd::arithmetic::div_mod::lemma_mod_mod;
use vstd::bits::lemma_u128_shr_is_div;

/// Number of binary digits of `n` (0 for 0).
pub open spec fn bit_len(n: nat) -> nat
    decreases n,
{
    if n == 0 {
        0
    } else {
        1 + bit_len(n / 2)
    }
}

/// Width in bits of one digit for a given base: the bit length of `base - 1`.
pub open spec fn width(base: nat) -> nat {
    bit_len((base - 1) as nat)
}

/// Digit `i` of the packed word `s`, for digit width `w`.
pub open spec fn digit_of(s: nat, i: nat, w: nat) -> nat {
    (s / pow2(i * w)) % pow2(w)
}

/// A packed word is well formed for `(base, len)` when it fits in `len`
/// digit fields and every digit is below `base`.
pub open spec fn state_wf(s: nat, base: nat, len: nat) -> bool {
    &&& s < pow2(len * width(base))
    &&& forall|i: nat| i < len ==> digit_of(s, i, width(base)) < base
}

/// `base^e`.
pub open spec fn pow_nat(b: nat, e: nat) -> nat
    decreases e,
{
    if e == 0 {
        1
    } else {
        b * pow_nat(b, (e - 1) as nat)
    }
}

/// Mixed-radix counter value of the first `len` digits of `s`:
/// `sum of digit_of(s, i, width(base)) * base^i` over `i < len`.
pub open spec fn cfg_value(s: nat, base: nat, len: nat) -> nat
    decreases len,
{
    if len == 0 {
        0
    } else {
        cfg_value(s, base, (len - 1) as nat) + digit_of(s, (len - 1) as nat, width(base))
            * pow_nat(base, (len - 1) as nat)
    }
}

pub proof fn lemma_pow_nat_pos(b: nat, e: nat)
    requires
        b >= 1,
    ensures
        pow_nat(b, e) >= 1,
    decreases e,
{
    if e > 0 {
        lemma_pow_nat_pos(b, (e - 1) as nat);
        assert(b * pow_nat(b, (e - 1) as nat) >= 1 * pow_nat(b, (e - 1) as nat))
            by (nonlinear_arith)
            requires b >= 1, pow_nat(b, (e - 1) as nat) >= 1,
        ;
    }
}

pub proof fn lemma_bit_len_bound(n: nat)
    ensures
        n < pow2(bit_len(n)),
    decreases n,
{
    if n == 0 {
        assert(pow2(0) == 1) by {
            lemma2_to64();
        }
    } else {
        lemma_bit_len_bound(n / 2);
        lemma_pow2_adds(bit_len(n / 2), 1);
        assert(pow2(1) == 2) by {
            lemma2_to64();
        }
        assert(n == 2 * (n / 2) + n % 2) by {
            lemma_fundamental_div_mod(n as int, 2);
        }
    }
}

pub proof fn lemma_bit_len_le(n: nat, k: nat)
    requires
        n < pow2(k),
    ensures
        bit_len(n) <= k,
    decreases n,
{
    if n > 0 {
        assert(pow2(0) == 1 && pow2(1) == 2) by {
            lemma2_to64();
        }
        if k == 0 {
            assert(false);
        }
        lemma_pow2_adds((k - 1) as nat, 1);
        assert(n / 2 < pow2((k - 1) as nat)) by {
            lemma_fundamental_div_mod(n as int, 2);
        }
        lemma_bit_len_le(n / 2, (k - 1) as nat);
    }
}

/// For a `u8` base the digit width is at most 8 bits.
pub proof fn lemma_width_le_8(base: nat)
    requires
        1 <= base <= 256,
    ensures
        width(base) <= 8,
{
    assert(pow2(8) == 256) by {
        lemma2_to64();
    }
    assert(((base - 1) as nat) < 256);
    lemma_bit_len_le((base - 1) as nat, 8);
}

/// The base fits in one digit field: `base <= 2^width(base)`.
pub proof fn lemma_base_fits(base: nat)
    requires
        base >= 1,
    ensures
        base <= pow2(width(base)),
{
    lemma_bit_len_bound((base - 1) as nat);
}

/// Decompose `s` around digit field `i`: `s == lo + d*2^(i*w) + hi*2^((i+1)*w)`
/// with `lo` carrying the digits below `i` and `hi` the digits above.
pub proof fn lemma_decompose(s: nat, i: nat, w: nat)
    ensures
        ({
            let p = pow2(i * w);
            let q = pow2(w);
            let lo = s % p;
            let hi = s / pow2((i + 1) * w);
            &&& s == lo + digit_of(s, i, w) * p + hi * pow2((i + 1) * w)
            &&& lo < p
            &&& forall|j: nat| j < i ==> digit_of(lo, j, w) == digit_of(s, j, w)
            &&& forall|j: nat| digit_of(hi, j, w) == digit_of(s, (j + i + 1) as nat, w)
        }),
{
    let p = pow2(i * w);
    let q = pow2(w);
    let pq = pow2((i + 1) * w);
    let lo = s % p;
    let hi = s / pq;
    let d = digit_of(s, i, w);
    lemma_pow2_pos(i * w);
    lemma_pow2_pos(w);
    lemma_pow2_pos((i + 1) * w);
    assert((i + 1) * w == i * w + w) by (nonlinear_arith);
    lemma_pow2_adds(i * w, w);
    assert(pq == p * q);
    // s % pq == d * p + lo
    assert(s % (p * q) == p * ((s / p) % q) + s % p) by {
        lemma_mod_breakdown(s as int, p as int, q as int);
    }
    // s == pq * hi + s % pq
    assert(s == pq * hi + s % pq) by {
        lemma_fundamental_div_mod(s as int, pq as int);
    }
    assert(s == lo + d * p + hi * pq) by (nonlinear_arith)
        requires
            s == pq * hi + s % pq,
            s % pq == p * ((s / p) % q) + s % p,
            lo == s % p,
            d == (s / p) % q,
            pq == p * q,
    ;
    assert(lo < p) by {
        vstd::arithmetic::div_mod::lemma_mod_bound(s as int, p as int);
    }
    // digits of lo below i
    assert forall|j: nat| j < i implies digit_of(lo, j, w) == digit_of(s, j, w) by {
        let r = pow2(j * w);
        let t = pow2(((i - j) as nat) * w);
        lemma_pow2_pos(j * w);
        lemma_pow2_pos(((i - j) as nat) * w);
        assert(i * w == j * w + ((i - j) as nat) * w) by (nonlinear_arith)
            requires j < i,
        ;
        lemma_pow2_adds(j * w, ((i - j) as nat) * w);
        assert(p == r * t);
        // (s % (r*t)) / r == (s / r) % t
        assert(s % (r * t) == r * ((s / r) % t) + s % r) by {
            lemma_mod_breakdown(s as int, r as int, t as int);
        }
        assert((s % (r * t)) / r == (s / r) % t) by {
            lemma_div_multiples_vanish_fancy(((s / r) % t) as int, (s % r) as int, r as int);
            vstd::arithmetic::div_mod::lemma_mod_bound(s as int, r as int);
        }
        // ((s / r) % t) % q == (s / r) % q  since q divides t
        assert(((s / r) % t) % q == (s / r) % q) by {
            let t1 = pow2(((i - j - 1) as nat) * w);
            assert(((i - j) as nat) * w == w + ((i - j - 1) as nat) * w) by (nonlinear_arith)
                requires i > j,
            ;
            lemma_pow2_adds(w, ((i - j - 1) as nat) * w);
            assert(t == q * t1);
            lemma_pow2_pos(((i - j - 1) as nat) * w);
            lemma_mod_mod((s / r) as int, q as int, t1 as int);
        }
    }
    // digits of hi
    assert forall|j: nat| digit_of(hi, j, w) == digit_of(s, (j + i + 1) as nat, w) by {
        let r = pow2(j * w);
        lemma_pow2_pos(j * w);
        assert((j + i + 1) * w == (i + 1) * w + j * w) by (nonlinear_arith);
        lemma_pow2_adds((i + 1) * w, j * w);
        assert(hi / r == s / pow2((j + i + 1) * w)) by {
            lemma_div_denominator(s as int, pq as int, r as int);
        }
    }
}

/// Compose a packed word from a low part, one digit field, and a high part,
/// and read off all of its digits.
pub proof fn lemma_compose(lo: nat, m: nat, hi: nat, i: nat, w: nat)
    requires
        lo < pow2(i * w),
        m < pow2(w),
    ensures
        ({
            let x = lo + m * pow2(i * w) + hi * pow2((i + 1) * w);
            &&& forall|j: nat| j < i ==> digit_of(x, j, w) == digit_of(lo, j, w)
            &&& digit_of(x, i, w) == m
            &&& forall|j: nat| j > i ==> digit_of(x, j, w) == digit_of(hi, (j - i - 1) as nat, w)
        }),
{
    let p = pow2(i * w);
    let q = pow2(w);
    let pq = pow2((i + 1) * w);
    let x = lo + m * p + hi * pq;
    lemma_pow2_pos(i * w);
    lemma_pow2_pos(w);
    lemma_pow2_pos((i + 1) * w);
    assert((i + 1) * w == i * w + w) by (nonlinear_arith);
    lemma_pow2_adds(i * w, w);
    assert(pq == p * q);
    let c = m + hi * q;
    assert(x == p * c + lo) by (nonlinear_arith)
        requires
            x == lo + m * p + hi * pq,
            pq == p * q,
            c == m + hi * q,
    ;
    // x / p == c  and  x % p == lo
    assert(x / p == c + lo / p && lo / p == 0) by {
        lemma_div_multiples_vanish_fancy(c as int, lo as int, p as int);
        lemma_basic_div(lo as int, p as int);
    }
    // digit i
    assert(digit_of(x, i, w) == m) by {
        assert((q * hi + m) % q == m % q) by {
            lemma_mod_multiples_vanish(hi as int, m as int, q as int);
        }
        lemma_small_mod(m, q);
        assert(c == q * hi + m) by (nonlinear_arith)
            requires c == m + hi * q,
        ;
    }
    // digits below i
    assert forall|j: nat| j < i implies digit_of(x, j, w) == digit_of(lo, j, w) by {
        let r = pow2(j * w);
        let t = pow2(((i - j) as nat) * w);
        lemma_pow2_pos(j * w);
        lemma_pow2_pos(((i - j) as nat) * w);
        assert(i * w == j * w + ((i - j) as nat) * w) by (nonlinear_arith)
            requires j < i,
        ;
        lemma_pow2_adds(j * w, ((i - j) as nat) * w);
        assert(p == r * t);
        assert(x == r * (c * t) + lo) by (nonlinear_arith)
            requires
                x == p * c + lo,
                p == r * t,
        ;
        assert(x / r == c * t + lo / r) by {
            vstd::arithmetic::div_mod::lemma_hoist_over_denominator(lo as int, (c * t) as int, r as nat);
            assert(lo + (c * t) * r == x) by (nonlinear_arith)
                requires x == r * (c * t) + lo,
            ;
        }
        // c * t is a multiple of q
        let t1 = pow2(((i - j - 1) as nat) * w);
        assert(((i - j) as nat) * w == w + ((i - j - 1) as nat) * w) by (nonlinear_arith)
            requires i > j,
        ;
        lemma_pow2_adds(w, ((i - j - 1) as nat) * w);
        assert(t == q * t1);
        assert((x / r) % q == (lo / r) % q) by {
            assert(x / r == q * (c * t1) + lo / r) by (nonlinear_arith)
                requires
                    x / r == c * t + lo / r,
                    t == q * t1,
            ;
            lemma_mod_multiples_vanish((c * t1) as int, (lo / r) as int, q as int);
        }
    }
    // digits above i
    assert forall|j: nat| j > i implies digit_of(x, j, w) == digit_of(hi, (j - i - 1) as nat, w) by {
        let j1 = (j - i - 1) as nat;
        let r = pow2(j * w);
        let t = pow2(j1 * w);
        lemma_pow2_pos(j1 * w);
        assert(j * w == (i + 1) * w + j1 * w) by (nonlinear_arith)
            requires j == i + 1 + j1,
        ;
        lemma_pow2_adds((i + 1) * w, j1 * w);
        assert(r == pq * t);
        // x / pq == hi
        assert(x / pq == hi) by {
            assert(x == pq * hi + (lo + m * p)) by (nonlinear_arith)
                requires x == lo + m * p + hi * pq,
            ;
            assert(lo + m * p < pq) by (nonlinear_arith)
                requires
                    lo < p,
                    m < q,
                    pq == p * q,
                    p >= 1,
                    q >= 1,
            ;
            lemma_div_multiples_vanish_fancy(hi as int, (lo + m * p) as int, pq as int);
        }
        assert(x / r == hi / t) by {
            lemma_div_denominator(x as int, pq as int, t as int);
        }
    }
}

/// Bound for composed words: with `hi` small enough the word fits `len` fields.
pub proof fn lemma_compose_bound(lo: nat, m: nat, hi: nat, i: nat, w: nat, len: nat)
    requires
        lo < pow2(i * w),
        m < pow2(w),
        i < len,
        hi < pow2(((len - i - 1) as nat) * w),
    ensures
        lo + m * pow2(i * w) + hi * pow2((i + 1) * w) < pow2(len * w),
{
    let p = pow2(i * w);
    let q = pow2(w);
    let pq = pow2((i + 1) * w);
    let h = pow2(((len - i - 1) as nat) * w);
    assert((i + 1) * w == i * w + w) by (nonlinear_arith);
    lemma_pow2_adds(i * w, w);
    assert(len * w == (i + 1) * w + ((len - i - 1) as nat) * w) by (nonlinear_arith)
        requires i < len,
    ;
    lemma_pow2_adds((i + 1) * w, ((len - i - 1) as nat) * w);
    lemma_pow2_pos(i * w);
    lemma_pow2_pos(w);
    assert(lo + m * p + hi * pq < pq * h) by (nonlinear_arith)
        requires
            lo < p,
            m < q,
            hi < h,
            pq == p * q,
            p >= 1,
            q >= 1,
    ;
}

/// Digits at or above `len` of a word fitting `len` fields are zero.
pub proof fn lemma_high_digits_zero(s: nat, len: nat, w: nat, j: nat)
    requires
        s < pow2(len * w),
        j >= len,
    ensures
        digit_of(s, j, w) == 0,
{
    let r = pow2(j * w);
    assert(len * w <= j * w) by (nonlinear_arith)
        requires len <= j,
    ;
    if len * w < j * w {
        lemma_pow2_strictly_increases(len * w, j * w);
    }
    assert(s < r);
    lemma_basic_div(s as int, r as int);
    lemma_pow2_pos(j * w);
    lemma_pow2_pos(w);
    assert(0nat % pow2(w) == 0) by {
        lemma_small_mod(0, pow2(w));
    }
}

/// Two words that fit `len` digit fields and agree on every digit are equal.
pub proof fn lemma_state_eq(s1: nat, s2: nat, len: nat, w: nat)
    requires
        s1 < pow2(len * w),
        s2 < pow2(len * w),
        forall|i: nat| i < len ==> digit_of(s1, i, w) == digit_of(s2, i, w),
    ensures
        s1 == s2,
    decreases len,
{
    let q = pow2(w);
    lemma_pow2_pos(w);
    if len == 0 {
        assert(pow2(0) == 1) by {
            lemma2_to64();
        }
        assert(0 * w == 0) by (nonlinear_arith);
    } else {
        // digit 0 equal: s % q
        assert(0 * w == 0) by (nonlinear_arith);
        assert(pow2(0) == 1) by {
            lemma2_to64();
        }
        assert(digit_of(s1, 0, w) == s1 % q && digit_of(s2, 0, w) == s2 % q) by {
            vstd::arithmetic::div_mod::lemma_div_basics(s1 as int);
            vstd::arithmetic::div_mod::lemma_div_basics(s2 as int);
        }
        let t1 = s1 / q;
        let t2 = s2 / q;
        let len1 = (len - 1) as nat;
        assert(len * w == w + len1 * w) by (nonlinear_arith)
            requires len >= 1, len1 == (len - 1) as nat,
        ;
        lemma_pow2_adds(w, len1 * w);
        assert(t1 < pow2(len1 * w) && t2 < pow2(len1 * w)) by {
            lemma_multiply_divide_lt(s1 as int, q as int, pow2(len1 * w) as int);
            lemma_multiply_divide_lt(s2 as int, q as int, pow2(len1 * w) as int);
        }
        assert forall|i: nat| i < len1 implies digit_of(t1, i, w) == digit_of(t2, i, w) by {
            lemma_shift_digit(s1, i, w);
            lemma_shift_digit(s2, i, w);
            assert(((i + 1) as nat) < len);
        }
        lemma_state_eq(t1, t2, len1, w);
        lemma_fundamental_div_mod(s1 as int, q as int);
        lemma_fundamental_div_mod(s2 as int, q as int);
    }
}

/// Shifting a word right by one digit field shifts its digit indices down.
pub proof fn lemma_shift_digit(s: nat, i: nat, w: nat)
    ensures
        digit_of(s / pow2(w), i, w) == digit_of(s, (i + 1) as nat, w),
{
    lemma_pow2_pos(w);
    lemma_pow2_pos(i * w);
    assert((i + 1) * w == w + i * w) by (nonlinear_arith);
    lemma_pow2_adds(w, i * w);
    lemma_div_denominator(s as int, pow2(w) as int, pow2(i * w) as int);
}

/// The counter value of `len` digits that are each below `base` is below `base^len`.
pub proof fn lemma_cfg_value_bound(s: nat, base: nat, len: nat)
    requires
        forall|i: nat| i < len ==> digit_of(s, i, width(base)) < base,
    ensures
        cfg_value(s, base, len) < pow_nat(base, len),
    decreases len,
{
    if len == 0 {
    } else {
        let len1 = (len - 1) as nat;
        lemma_cfg_value_bound(s, base, len1);
        let d = digit_of(s, len1, width(base));
        let bp = pow_nat(base, len1);
        assert(cfg_value(s, base, len1) + d * bp < base * bp) by (nonlinear_arith)
            requires
                cfg_value(s, base, len1) < bp,
                d < base,
        ;
    }
}

/// Two words agreeing on every digit below `k` have the same `k`-digit value.
pub proof fn lemma_cfg_value_agree(s1: nat, s2: nat, base: nat, k: nat)
    requires
        forall|i: nat| i < k ==> digit_of(s1, i, width(base)) == digit_of(s2, i, width(base)),
    ensures
        cfg_value(s1, base, k) == cfg_value(s2, base, k),
    decreases k,
{
    if k > 0 {
        lemma_cfg_value_agree(s1, s2, base, (k - 1) as nat);
    }
}

/// Words agreeing on every digit in `[k, len)` have counter values that
/// differ by the same amount as their `k`-digit prefixes.
pub proof fn lemma_cfg_value_agree_above(s1: nat, s2: nat, base: nat, k: nat, len: nat)
    requires
        k <= len,
        forall|i: nat| k <= i < len ==> digit_of(s1, i, width(base)) == digit_of(
            s2,
            i,
            width(base),
        ),
    ensures
        cfg_value(s1, base, len) - cfg_value(s1, base, k) == cfg_value(s2, base, len) - cfg_value(
            s2,
            base,
            k,
        ),
    decreases len,
{
    if len > k {
        lemma_cfg_value_agree_above(s1, s2, base, k, (len - 1) as nat);
    }
}

/// All-zero digits below `k` give a zero `k`-digit value.
pub proof fn lemma_cfg_value_zero_prefix(s: nat, base: nat, k: nat)
    requires
        forall|i: nat| i < k ==> digit_of(s, i, width(base)) == 0,
    ensures
        cfg_value(s, base, k) == 0,
    decreases k,
{
    if k > 0 {
        lemma_cfg_value_zero_prefix(s, base, (k - 1) as nat);
    }
}

/// All-maximal digits below `k` give the maximal `k`-digit value.
pub proof fn lemma_cfg_value_max_prefix(s: nat, base: nat, k: nat)
    requires
        base >= 1,
        forall|i: nat| i < k ==> digit_of(s, i, width(base)) == base - 1,
    ensures
        cfg_value(s, base, k) == pow_nat(base, k) - 1,
    decreases k,
{
    if k > 0 {
        let k1 = (k - 1) as nat;
        lemma_cfg_value_max_prefix(s, base, k1);
        let bp = pow_nat(base, k1);
        lemma_pow_nat_pos(base, k1);
        assert((bp - 1) + ((base - 1) as nat) * bp == base * bp - 1) by (nonlinear_arith)
            requires base >= 1, bp >= 1,
        ;
    }
}

/// Equal counter values of well-formed words force equal digits.
pub proof fn lemma_cfg_value_digits(s1: nat, s2: nat, base: nat, len: nat)
    requires
        base >= 1,
        forall|i: nat| i < len ==> digit_of(s1, i, width(base)) < base,
        forall|i: nat| i < len ==> digit_of(s2, i, width(base)) < base,
        cfg_value(s1, base, len) == cfg_value(s2, base, len),
    ensures
        forall|i: nat| i < len ==> digit_of(s1, i, width(base)) == digit_of(s2, i, width(base)),
    decreases len,
{
    if len > 0 {
        let len1 = (len - 1) as nat;
        let bp = pow_nat(base, len1);
        let d1 = digit_of(s1, len1, width(base));
        let d2 = digit_of(s2, len1, width(base));
        let v = cfg_value(s1, base, len);
        lemma_cfg_value_bound(s1, base, len1);
        lemma_cfg_value_bound(s2, base, len1);
        lemma_pow_nat_pos(base, len1);
        assert(d1 == v / bp && cfg_value(s1, base, len1) == v % bp) by {
            assert(v == d1 * bp + cfg_value(s1, base, len1));
            lemma_fundamental_div_mod_converse(
                v as int,
                bp as int,
                d1 as int,
                cfg_value(s1, base, len1) as int,
            );
        }
        assert(d2 == v / bp && cfg_value(s2, base, len1) == v % bp) by {
            assert(v == d2 * bp + cfg_value(s2, base, len1));
            lemma_fundamental_div_mod_converse(
                v as int,
                bp as int,
                d2 as int,
                cfg_value(s2, base, len1) as int,
            );
        }
        lemma_cfg_value_digits(s1, s2, base, len1);
        assert forall|i: nat| i < len implies digit_of(s1, i, width(base)) == digit_of(
            s2,
            i,
            width(base),
        ) by {
            if i < len1 {
            } else {
                assert(i == len1);
            }
        }
    }
}

/// The counter value is injective on well-formed words: the codec is lossless
/// in the value direction.
pub proof fn lemma_cfg_value_injective(s1: nat, s2: nat, base: nat, len: nat)
    requires
        base >= 1,
        state_wf(s1, base, len),
        state_wf(s2, base, len),
        cfg_value(s1, base, len) == cfg_value(s2, base, len),
    ensures
        s1 == s2,
{
    lemma_cfg_value_digits(s1, s2, base, len);
    lemma_state_eq(s1, s2, len, width(base));
}

/// Packing of the digits `f(0), ..., f(k-1)` into one word, low digit first.
pub open spec fn pack_prefix(f: spec_fn(nat) -> nat, k: nat, w: nat) -> nat
    decreases k,
{
    if k == 0 {
        0
    } else {
        pack_prefix(f, (k - 1) as nat, w) + f((k - 1) as nat) * pow2(((k - 1) as nat) * w)
    }
}

/// The packed word of `len` in-range digits reads back those digits.
pub proof fn lemma_pack_prefix(f: spec_fn(nat) -> nat, len: nat, w: nat)
    requires
        forall|i: nat| i < len ==> #[trigger] f(i) < pow2(w),
    ensures
        pack_prefix(f, len, w) < pow2(len * w),
        forall|i: nat| i < len ==> #[trigger] digit_of(pack_prefix(f, len, w), i, w) == f(i),
    decreases len,
{
    lemma_pow2_pos(w);
    if len == 0 {
        assert(0 * w == 0) by (nonlinear_arith);
        assert(pow2(0) == 1) by {
            lemma2_to64();
        }
    } else {
        let len1 = (len - 1) as nat;
        lemma_pack_prefix(f, len1, w);
        let lo = pack_prefix(f, len1, w);
        let m = f(len1);
        lemma_compose(lo, m, 0, len1, w);
        assert(lo + m * pow2(len1 * w) + 0 * pow2((len1 + 1) * w) == pack_prefix(f, len, w))
            by (nonlinear_arith)
            requires pack_prefix(f, len, w) == lo + m * pow2(len1 * w),
        ;
        assert(0 < pow2(((len - len1 - 1) as nat) * w)) by {
            lemma_pow2_pos(((len - len1 - 1) as nat) * w);
        }
        lemma_compose_bound(lo, m, 0, len1, w, len);
        assert forall|i: nat| i < len implies digit_of(pack_prefix(f, len, w), i, w) == f(i) by {
            if i < len1 {
            } else {
                assert(i == len1);
            }
        }
    }
}

/// Every power of two with exponent below 128 fits in a `u128`.
pub proof fn lemma_pow2_fits_u128(e: nat)
    requires
        e < 128,
    ensures
        pow2(e) <= u128::MAX,
{
    lemma2_to64();
    lemma_pow2_adds(64, 64);
    assert(pow2(64) * pow2(64) == 0x100000000000000000000000000000000) by (nonlinear_arith)
        requires pow2(64) == 0x10000000000000000,
    ;
    if e < 127 {
        lemma_pow2_strictly_increases(e, 127);
    }
    lemma_pow2_adds(127, 1);
    assert(pow2(127) * 2 == pow2(128));
}

/// A value below `2^e` with `e <= 128` fits in a `u128`.
pub proof fn lemma_fits_capacity(x: nat, e: nat)
    requires
        x < pow2(e),
        e <= 128,
    ensures
        x <= u128::MAX,
{
    lemma2_to64();
    lemma_pow2_adds(64, 64);
    assert(pow2(64) * pow2(64) == 0x100000000000000000000000000000000) by (nonlinear_arith)
        requires pow2(64) == 0x10000000000000000,
    ;
    if e < 128 {
        lemma_pow2_strictly_increases(e, 128);
    }
}

/// Every `u128` value lies below `2^128`.
pub proof fn lemma_u128_lt_pow2_128(x: u128)
    ensures
        (x as nat) < pow2(128),
{
    lemma2_to64();
    lemma_pow2_adds(64, 64);
    assert(pow2(64) * pow2(64) == 0x100000000000000000000000000000000) by (nonlinear_arith)
        requires pow2(64) == 0x10000000000000000,
    ;
}

/// Two well-formed packed words with the same digits are the same word.
/// Together with the contracts of `StateOps::to_vec` and
/// `StateOps::from_vec` this says the codec loses nothing: packing a digit
/// vector and unpacking it again gives the vector back, and unpacking a
/// packed word and repacking gives the word back.
pub proof fn lemma_codec_lossless(s1: u128, s2: u128, base: u8, len: usize)
    requires
        state_wf(s1 as nat, base as nat, len as nat),
        state_wf(s2 as nat, base as nat, len as nat),
        forall|i: nat| i < len ==> digit_of(s1 as nat, i, width(base as nat)) == digit_of(
            s2 as nat,
            i,
            width(base as nat),
        ),
    ensures
        s1 == s2,
{
    lemma_state_eq(s1 as nat, s2 as nat, len as nat, width(base as nat));
}

/// Exponent bound used by the digit arithmetic: a digit's field offset stays
/// below the 128-bit capacity.
proof fn lemma_offset_bound(idx: nat, len: nat, w: nat)
    requires
        idx < len,
        len * w <= 128,
    ensures
        idx * w + w <= 128,
        w <= 128,
        idx * w < 128,
{
    assert(idx * w + w <= len * w) by (nonlinear_arith)
        requires idx < len,
    ;
    assert(w <= len * w) by (nonlinear_arith)
        requires idx < len,
    ;
    if w == 0 {
        assert(idx * w == 0) by (nonlinear_arith)
            requires w == 0,
        ;
    }
}

/// Shift-and-mask codec over one `u128`, as associated functions.
pub struct StateOps;

impl StateOps {
    /// Bit width of one digit for the given base; `0` only for `base == 1`.
    pub fn bits_per_digit(base: u8) -> (r: usize)
        requires
            base >= 1,
        ensures
            r == width(base as nat),
            r <= 8,
    {
        proof {
            lemma_width_le_8(base as nat);
        }
        let mut bits: usize = 0;
        let mut v: u8 = base - 1;
        while v > 0
            invariant
                base >= 1,
                width(base as nat) <= 8,
                width(base as nat) == bits + bit_len(v as nat),
                bits <= 8,
            decreases v,
        {
            bits = bits + 1;
            v = v / 2;
        }
        bits
    }

    /// `2^e` as a `u128`.
    pub(crate) fn pow2_u128(e: usize) -> (r: u128)
        requires
            e < 128,
        ensures
            r as nat == pow2(e as nat),
    {
        let mut r: u128 = 1;
        let mut k: usize = 0;
        proof {
            assert(pow2(0) == 1) by {
                lemma2_to64();
            }
        }
        while k < e
            invariant
                k <= e,
                e < 128,
                r as nat == pow2(k as nat),
            decreases e - k,
        {
            proof {
                lemma_pow2_adds(k as nat, 1);
                assert(pow2(1) == 2) by {
                    lemma2_to64();
                }
                lemma_pow2_fits_u128((k + 1) as nat);
            }
            r = r * 2;
            k = k + 1;
        }
        r
    }

    /// Extract digit `idx` of `state`.
    pub fn get(state: u128, idx: usize, base: u8, length: usize) -> (r: u8)
        requires
            base >= 1,
            idx < length,
            (length as nat) * width(base as nat) <= 128,
        ensures
            r as nat == digit_of(state as nat, idx as nat, width(base as nat)),
    {
        let w = Self::bits_per_digit(base);
        proof {
            lemma_offset_bound(idx as nat, length as nat, w as nat);
        }
        let shift = idx * w;
        let m = Self::pow2_u128(w);
        proof {
            lemma_pow2_pos(w as nat);
            lemma_u128_shr_is_div(state, shift as u128);
            if (w as nat) < 8 {
                lemma_pow2_strictly_increases(w as nat, 8);
            }
            assert(pow2(8) == 256) by {
                lemma2_to64();
            }
        }
        let q = state >> (shift as u128);
        let d = q % m;
        d as u8
    }

    /// Replace digit `idx` of `state` with `value`, leaving every other digit
    /// unchanged.
    pub fn set(state: u128, idx: usize, value: u8, base: u8, length: usize) -> (r: u128)
        requires
            base >= 1,
            idx < length,
            (value as nat) < base as nat,
            (length as nat) * width(base as nat) <= 128,
            (state as nat) < pow2((length as nat) * width(base as nat)),
        ensures
            (r as nat) < pow2((length as nat) * width(base as nat)),
            digit_of(r as nat, idx as nat, width(base as nat)) == value as nat,
            forall|j: nat|
                j < length && j != idx ==> digit_of(r as nat, j, width(base as nat)) == digit_of(
                    state as nat,
                    j,
                    width(base as nat),
                ),
    {
        let ghost w = width(base as nat);
        let ghost len = length as nat;
        let wx = Self::bits_per_digit(base);
        proof {
            lemma_offset_bound(idx as nat, len, w);
        }
        let shift = idx * wx;
        let p = Self::pow2_u128(shift);
        let d = Self::get(state, idx, base, length);
        let ghost s = state as nat;
        let ghost i = idx as nat;
        let ghost pp = pow2(i * w);
        let ghost qq = pow2(w);
        let ghost pq = pow2((i + 1) * w);
        let ghost lo = s % pp;
        let ghost hi = s / pq;
        proof {
            lemma_pow2_pos(i * w);
            lemma_pow2_pos((i + 1) * w);
            lemma_pow2_pos(w);
            lemma_decompose(s, i, w);
            assert((d as nat) * (p as nat) <= s);
            // the new word stays within the capacity
            lemma_base_fits(base as nat);
            assert(hi < pow2(((len - i - 1) as nat) * w)) by {
                assert((i + 1) * w + ((len - i - 1) as nat) * w == len * w) by (nonlinear_arith)
                    requires i < len,
                ;
                lemma_pow2_adds((i + 1) * w, ((len - i - 1) as nat) * w);
                lemma_multiply_divide_lt(
                    s as int,
                    pq as int,
                    pow2(((len - i - 1) as nat) * w) as int,
                );
            }
            lemma_compose(lo, value as nat, hi, i, w);
            lemma_compose_bound(lo, value as nat, hi, i, w, len);
            lemma_fits_capacity(lo + (value as nat) * pp + hi * pq, len * w);
        }
        let cleared = state - (d as u128) * p;
        proof {
            assert(cleared as nat == lo + hi * pq);
            assert((value as nat) * (p as nat) + lo + hi * pq < pow2(len * w)) by (nonlinear_arith)
                requires
                    lo + (value as nat) * (p as nat) + hi * pq < pow2(len * w),
            ;
        }
        let r = cleared + (value as u128) * p;
        proof {
            assert(r as nat == lo + (value as nat) * pp + hi * pq);
        }
        r
    }

    /// Unpack a state into its dense digit vector.
    pub fn to_vec(state: u128, base: u8, length: usize) -> (r: Vec<u8>)
        requires
            base >= 1,
            (length as nat) * width(base as nat) <= 128,
        ensures
            r@.len() == length as nat,
            forall|i: nat|
                i < length ==> r@[i as int] as nat == digit_of(
                    state as nat,
                    i,
                    width(base as nat),
                ),
    {
        let mut v: Vec<u8> = Vec::new();
        let mut i: usize = 0;
        while i < length
            invariant
                i <= length,
                base >= 1,
                (length as nat) * width(base as nat) <= 128,
                v@.len() == i as nat,
                forall|k: nat|
                    k < i ==> v@[k as int] as nat == digit_of(state as nat, k, width(base as nat)),
            decreases length - i,
        {
            let d = Self::get(state, i, base, length);
            v.push(d);
            i = i + 1;
        }
        v
    }

    /// Pack a dense digit vector into a state; inverse of `to_vec`.
    pub fn from_vec(values: &Vec<u8>, base: u8) -> (r: u128)
        requires
            base >= 1,
            values@.len() * width(base as nat) <= 128,
            forall|i: nat| i < values@.len() ==> (values@[i as int] as nat) < base as nat,
        ensures
            state_wf(r as nat, base as nat, values@.len()),
            forall|i: nat|
                i < values@.len() ==> digit_of(r as nat, i, width(base as nat)) == values@[
                    i as int
                ] as nat,
    {
        let ghost w = width(base as nat);
        let ghost len = values@.len();
        let length = values.len();
        let mut s: u128 = 0;
        let mut i: usize = 0;
        proof {
            lemma_pow2_pos(len * w);
            assert forall|j: nat| j < len implies digit_of(0, j, w) == 0 by {
                lemma_pow2_pos(j * w);
                lemma_pow2_pos(w);
                lemma_basic_div(0, pow2(j * w) as int);
                lemma_small_mod(0, pow2(w));
            }
        }
        while i < length
            invariant
                i <= length,
                base >= 1,
                length == values@.len(),
                length == len,
                len * w <= 128,
                w == width(base as nat),
                forall|k: nat| k < len ==> (values@[k as int] as nat) < base as nat,
                (s as nat) < pow2(len * w),
                forall|k: nat| k < i ==> digit_of(s as nat, k, w) == values@[k as int] as nat,
                forall|k: nat| i <= k < len ==> digit_of(s as nat, k, w) == 0,
            decreases length - i,
        {
            let d = values[i];
            s = Self::set(s, i, d, base, length);
            i = i + 1;
        }
        proof {
            lemma_base_fits(base as nat);
            assert(forall|k: nat| k < len ==> digit_of(s as nat, k, w) < base as nat);
        }
        s
    }

    /// Mixed-radix successor: add one to the counter value of `state`, or
    /// report that the whole space has been visited.  The digits are wrapped
    /// low to high, each wrapping at `base` with a carry into the next.
    pub fn increment(state: u128, base: u8, length: usize) -> (r: Option<u128>)
        requires
            base >= 1,
            (length as nat) * width(base as nat) <= 128,
            state_wf(state as nat, base as nat, length as nat),
        ensures
            ({
                let b = base as nat;
                let len = length as nat;
                &&& (r is None <==> cfg_value(state as nat, b, len) + 1 == pow_nat(b, len))
                &&& (r is None ==> forall|i: nat|
                    i < len ==> digit_of(state as nat, i, width(b)) == b - 1)
                &&& (r matches Some(s2) ==> state_wf(s2 as nat, b, len) && cfg_value(
                    s2 as nat,
                    b,
                    len,
                ) == cfg_value(state as nat, b, len) + 1)
            }),
    {
        let ghost b = base as nat;
        let ghost w = width(b);
        let ghost len = length as nat;
        let ghost s0 = state as nat;
        let wx = Self::bits_per_digit(base);
        let mut t: u128 = state;
        let mut i: usize = 0;
        while i < length
            invariant
                i <= length,
                base >= 1,
                b == base as nat,
                w == width(b),
                len == length as nat,
                wx == w,
                len * w <= 128,
                state_wf(s0, b, len),
                s0 == state as nat,
                (t as nat) < pow2(len * w),
                forall|k: nat| i <= k < len ==> digit_of(t as nat, k, w) == digit_of(s0, k, w),
                forall|k: nat| k < i ==> digit_of(t as nat, k, w) == 0,
                forall|k: nat| k < i ==> digit_of(s0, k, w) == b - 1,
            decreases length - i,
        {
            proof {
                lemma_offset_bound(i as nat, len, w);
            }
            let shift = i * wx;
            let p = Self::pow2_u128(shift);
            let d = Self::get(t, i, base, length);
            let ghost ii = i as nat;
            let ghost pp = pow2(ii * w);
            let ghost qq = pow2(w);
            let ghost pq = pow2((ii + 1) * w);
            let ghost lo = (t as nat) % pp;
            let ghost hi = (t as nat) / pq;
            proof {
                lemma_pow2_pos(ii * w);
                lemma_pow2_pos((ii + 1) * w);
                lemma_pow2_pos(w);
                lemma_decompose(t as nat, ii, w);
                assert((d as nat) * (p as nat) <= t as nat);
                lemma_base_fits(b);
                assert(hi < pow2(((len - ii - 1) as nat) * w)) by {
                    assert((ii + 1) * w + ((len - ii - 1) as nat) * w == len * w)
                        by (nonlinear_arith)
                        requires ii < len,
                    ;
                    lemma_pow2_adds((ii + 1) * w, ((len - ii - 1) as nat) * w);
                    lemma_multiply_divide_lt(
                        t as int,
                        pq as int,
                        pow2(((len - ii - 1) as nat) * w) as int,
                    );
                }
                assert(lo == 0) by {
                    assert forall|k: nat| k < ii implies digit_of(0nat, k, w) == 0 by {
                        lemma_pow2_pos(k * w);
                        lemma_pow2_pos(w);
                        lemma_basic_div(0, pow2(k * w) as int);
                        lemma_small_mod(0, pow2(w));
                    }
                    assert(forall|k: nat| k < ii ==> digit_of(lo, k, w) == digit_of(t as nat, k, w));
                    assert(forall|k: nat| k < ii ==> digit_of(lo, k, w) == 0);
                    lemma_pow2_pos(ii * w);
                    lemma_state_eq(lo, 0nat, ii, w);
                }
            }
            if d + 1 < base {
                // bump this digit: the result is the successor configuration
                proof {
                    lemma_compose(0, (d + 1) as nat, hi, ii, w);
                    lemma_compose_bound(0, (d + 1) as nat, hi, ii, w, len);
                    lemma_fits_capacity(0 + ((d + 1) as nat) * pp + hi * pq, len * w);
                    assert(((d + 1) as nat) * pp == (d as nat) * pp + pp) by (nonlinear_arith);
                }
                let s2 = t + p;
                proof {
                    assert(s2 as nat == 0 + ((d + 1) as nat) * pp + hi * pq);
                    let ghost sn = s2 as nat;
                    // digits of the result
                    assert(forall|k: nat| k < ii ==> digit_of(sn, k, w) == 0);
                    assert(digit_of(sn, ii, w) == d + 1);
                    assert forall|k: nat| ii < k < len implies digit_of(sn, k, w) == digit_of(
                        s0,
                        k,
                        w,
                    ) by {
                        assert(digit_of(sn, k, w) == digit_of(hi, (k - ii - 1) as nat, w));
                        assert(digit_of(t as nat, k, w) == digit_of(hi, (k - ii - 1) as nat, w));
                    }
                    // well-formed
                    assert(state_wf(sn, b, len)) by {
                        assert forall|k: nat| k < len implies digit_of(sn, k, w) < b by {
                            if k < ii {
                            } else if k == ii {
                            } else {
                            }
                        }
                    }
                    // counter value goes up by one
                    assert(cfg_value(sn, b, len) == cfg_value(s0, b, len) + 1) by {
                        lemma_cfg_value_zero_prefix(sn, b, ii);
                        lemma_cfg_value_max_prefix(s0, b, ii);
                        lemma_cfg_value_agree_above(sn, s0, b, ii + 1, len);
                        lemma_pow_nat_pos(b, ii);
                        assert(cfg_value(sn, b, ii + 1) == cfg_value(sn, b, ii) + digit_of(
                            sn,
                            ii,
                            w,
                        ) * pow_nat(b, ii));
                        assert(cfg_value(s0, b, ii + 1) == cfg_value(s0, b, ii) + digit_of(
                            s0,
                            ii,
                            w,
                        ) * pow_nat(b, ii));
                        assert(((d + 1) as nat) * pow_nat(b, ii) == (d as nat) * pow_nat(b, ii)
                            + pow_nat(b, ii)) by (nonlinear_arith);
                    }
                    // this case cannot be the all-maximal configuration
                    lemma_cfg_value_bound(sn, b, len);
                }
                return Some(s2);
            } else {
                // wrap this digit to zero and carry
                proof {
                    lemma_compose(0, 0, hi, ii, w);
                    lemma_compose_bound(0, 0, hi, ii, w, len);
                    lemma_pow2_pos(ii * w);
                    lemma_pow2_pos(w);
                    assert(0 * pp == 0) by (nonlinear_arith);
                }
                let t2 = t - (d as u128) * p;
                proof {
                    assert(t2 as nat == 0 + 0 * pp + hi * pq);
                    let ghost tn = t2 as nat;
                    assert(forall|k: nat| k < ii ==> digit_of(tn, k, w) == 0);
                    assert(digit_of(tn, ii, w) == 0);
                    assert forall|k: nat| ii < k < len implies digit_of(tn, k, w) == digit_of(
                        s0,
                        k,
                        w,
                    ) by {
                        assert(digit_of(tn, k, w) == digit_of(hi, (k - ii - 1) as nat, w));
                        assert(digit_of(t as nat, k, w) == digit_of(hi, (k - ii - 1) as nat, w));
                    }
                    assert(digit_of(s0, ii, w) == b - 1);
                }
                t = t2;
                i = i + 1;
            }
        }
        proof {
            lemma_cfg_value_max_prefix(s0, b, len);
            lemma_pow_nat_pos(b, len);
        }
        None
    }
}

} // verus!
