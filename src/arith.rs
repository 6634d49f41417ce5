use crate::word::{
    lemma_overflow_bit, lemma_parity, lemma_value_bounds, lemma_word_of_between, lemma_word_of_mod,
    lemma_word_of_value, lemma_word_of_wrapped, limb_base, signed_value, word_modulus, word_of,
    Word,
};
use vstd::arithmetic::div_mod::{
    lemma_add_mod_noop, lemma_fundamental_div_mod, lemma_fundamental_div_mod_converse,
    lemma_mul_mod_noop_general, lemma_mul_mod_noop_left, lemma_small_mod,
};
use vstd::arithmetic::power::{lemma_pow1, lemma_pow_adds, lemma_pow_mod_noop, lemma_pow_multiplies, pow};
use vstd::arithmetic::power2::{
    lemma2_to64, lemma_pow2, lemma_pow2_adds, lemma_pow2_pos, lemma_pow2_strictly_increases,
    lemma_pow2_unfold, pow2,
};
use vstd::prelude::*;

verus! {

/// The word of an integer, taken modulo 2^256 (negative numbers in two's complement).
pub open spec fn word_of_int(i: int) -> Word {
    word_of((i % word_modulus() as int) as nat)
}

/// A shift count, with every count from 256 up standing as 256.
pub open spec fn shift_of(w: Word) -> nat {
    if w.value() < 256 {
        w.value()
    } else {
        256
    }
}

pub open spec fn abs(i: int) -> int {
    if i < 0 {
        -i
    } else {
        i
    }
}

/// `x` shifted left by `shift` bits, dropping what passes bit 255.
pub open spec fn shl_spec(shift: Word, x: Word) -> Word {
    word_of(x.value() * pow2(shift_of(shift)))
}

/// `x` shifted right by `shift` bits, filling with zeros.
pub open spec fn shr_spec(shift: Word, x: Word) -> Word {
    word_of(x.value() / pow2(shift_of(shift)))
}

/// `x` shifted right by `shift` bits, filling with its sign bit.
pub open spec fn sar_spec(shift: Word, x: Word) -> Word {
    word_of_int(signed_value(x) / pow2(shift_of(shift)) as int)
}

/// Byte `i` of `x`, counting from the most significant; 0 from `i = 32` up.
pub open spec fn byte_spec(i: Word, x: Word) -> Word {
    if i.value() < 32 {
        word_of((x.value() / pow2((8 * (31 - i.value())) as nat)) % 256)
    } else {
        word_of(0)
    }
}

/// `x` read as a signed number of `b + 1` bytes and widened to 256 bits; `x` itself
/// from `b = 31` up.
pub open spec fn sign_extend_spec(b: Word, x: Word) -> Word {
    if b.value() < 31 {
        let p = pow2((8 * b.value() + 8) as nat);
        let low = x.value() % p;
        if low >= p / 2 {
            word_of((word_modulus() + low - p) as nat)
        } else {
            word_of(low)
        }
    } else {
        x
    }
}

/// Signed division rounding toward zero; 0 for a zero divisor.
pub open spec fn sdiv_spec(a: Word, b: Word) -> Word {
    if b.value() == 0 {
        word_of(0)
    } else {
        let q = abs(signed_value(a)) / abs(signed_value(b));
        word_of_int(
            if (signed_value(a) < 0) != (signed_value(b) < 0) {
                -q
            } else {
                q
            },
        )
    }
}

/// Signed remainder, with the sign of the dividend; 0 for a zero divisor.
pub open spec fn smod_spec(a: Word, b: Word) -> Word {
    if b.value() == 0 {
        word_of(0)
    } else {
        let r = abs(signed_value(a)) % abs(signed_value(b));
        word_of_int(
            if signed_value(a) < 0 {
                -r
            } else {
                r
            },
        )
    }
}

/// `(a + b) mod n` on the full sum; 0 for `n = 0`.
pub open spec fn addmod_spec(a: Word, b: Word, n: Word) -> Word {
    if n.value() == 0 {
        word_of(0)
    } else {
        word_of((a.value() + b.value()) % n.value())
    }
}

/// `(a * b) mod n` on the full product; 0 for `n = 0`.
pub open spec fn mulmod_spec(a: Word, b: Word, n: Word) -> Word {
    if n.value() == 0 {
        word_of(0)
    } else {
        word_of((a.value() * b.value()) % n.value())
    }
}

/// `a` to the power `b`, modulo 2^256.
pub open spec fn exp_spec(a: Word, b: Word) -> Word {
    word_of_int(pow(a.value() as int, b.value()))
}

proof fn lemma_pow2_bounds()
    ensures
        pow2(128) == limb_base(),
        pow2(256) == word_modulus(),
{
    lemma2_to64();
    lemma_pow2_adds(64, 64);
    lemma_pow2_adds(128, 128);
}

/// `word_of` sees its argument only modulo 2^256.
proof fn lemma_word_of_reduce(n: nat)
    ensures
        word_of(n) == word_of(n % word_modulus()),
{
    lemma_word_of_mod(n);
    lemma_word_of_value(word_of(n));
}

/// A word's own value, as an integer, gives the word back.
proof fn lemma_word_of_int_value(w: Word)
    ensures
        word_of_int(w.value() as int) == w,
{
    lemma_value_bounds(w);
    lemma_small_mod(w.value(), word_modulus());
    lemma_word_of_value(w);
}

/// Negating `q` modulo 2^256 is subtracting it from 2^256.
proof fn lemma_word_of_neg(q: int)
    requires
        0 <= q <= word_modulus(),
    ensures
        word_of((word_modulus() - q) as nat) == word_of_int(-q),
{
    let m = word_modulus() as int;
    lemma_word_of_reduce((m - q) as nat);
    if q == 0 {
        lemma_fundamental_div_mod_converse(m, m, 1, 0);
    } else {
        lemma_fundamental_div_mod_converse(m - q, m, 0, m - q);
        lemma_fundamental_div_mod_converse(-q, m, -1, m - q);
    }
}

/// `2^s` as a word.
fn pow2_word(s: usize) -> (r: Word)
    requires
        s < 256,
    ensures
        r.value() == pow2(s as nat),
{
    let mut r = Word::from_u128(1);
    let mut i: usize = 0;
    proof {
        lemma2_to64();
    }
    while i < s
        invariant
            i <= s < 256,
            r.value() == pow2(i as nat),
        decreases s - i,
    {
        proof {
            lemma_pow2_unfold((i + 1) as nat);
            lemma_pow2_strictly_increases((i + 1) as nat, 256);
            lemma_pow2_bounds();
            lemma_word_of_between(2 * pow2(i as nat) as int, 0);
        }
        r = r.wrapping_add(r);
        i += 1;
    }
    r
}

pub fn shl(shift: Word, x: Word) -> (r: Word)
    ensures
        r == shl_spec(shift, x),
{
    match shift.to_usize() {
        Some(s) if s < 256 => {
            let p = pow2_word(s);
            x.wrapping_mul(p)
        },
        _ => {
            proof {
                lemma_pow2_bounds();
                lemma_word_of_wrapped(Word { lo: 0, hi: 0 }, x.value());
            }
            Word::zero()
        },
    }
}

pub fn shr(shift: Word, x: Word) -> (r: Word)
    ensures
        r == shr_spec(shift, x),
        r.value() == x.value() / pow2(shift_of(shift)),
{
    proof {
        lemma_pow2_pos(shift_of(shift));
    }
    match shift.to_usize() {
        Some(s) if s < 256 => {
            let p = pow2_word(s);
            let (q, _) = x.div_rem(p);
            proof {
                lemma_word_of_value(q);
            }
            q
        },
        _ => {
            proof {
                lemma_pow2_bounds();
                lemma_value_bounds(x);
                lemma_fundamental_div_mod_converse(x.value() as int, word_modulus() as int, 0, x.value() as int);
            }
            Word::zero()
        },
    }
}

pub fn sar(shift: Word, x: Word) -> (r: Word)
    ensures
        r == sar_spec(shift, x),
{
    let neg = x.hi >= 0x8000_0000_0000_0000_0000_0000_0000_0000;
    proof {
        lemma_overflow_bit(x, neg);
        lemma_value_bounds(x);
        lemma_pow2_pos(shift_of(shift));
    }
    let ghost p = pow2(shift_of(shift)) as int;
    let ghost m = word_modulus() as int;
    if !neg {
        let r = shr(shift, x);
        proof {
            lemma_word_of_int_value(r);
            lemma_word_of_value(r);
        }
        r
    } else {
        let n = x.bit_not();
        let q = shr(shift, n);
        let r = q.bit_not();
        proof {
            let (nv, qv) = (n.value() as int, q.value() as int);
            let sv = signed_value(x);
            assert(sv == -nv - 1);
            lemma_fundamental_div_mod(nv, p);
            assert(sv == (-qv - 1) * p + (p - 1 - nv % p)) by (nonlinear_arith)
                requires
                    sv == -nv - 1,
                    nv == p * qv + nv % p,
            ;
            lemma_fundamental_div_mod_converse(sv, p, -qv - 1, p - 1 - nv % p);
            lemma_value_bounds(q);
            lemma_fundamental_div_mod_converse(-qv - 1, m, -1, m - qv - 1);
            lemma_word_of_int_value(r);
        }
        r
    }
}

pub fn byte_at(i: Word, x: Word) -> (r: Word)
    ensures
        r == byte_spec(i, x),
{
    match i.to_usize() {
        Some(k) if k < 32 => {
            let s = Word::from_usize(8 * (31 - k));
            let q = shr(s, x);
            let b = q.low_byte();
            let r = Word::from_u128(b as u128);
            proof {
                lemma_word_of_value(r);
            }
            r
        },
        _ => Word::zero(),
    }
}

pub fn sign_extend(b: Word, x: Word) -> (r: Word)
    ensures
        r == sign_extend_spec(b, x),
{
    match b.to_usize() {
        Some(k) if k < 31 => {
            let p = pow2_word(8 * k + 8);
            proof {
                lemma_pow2_pos((8 * k + 8) as nat);
            }
            let (_, low) = x.div_rem(p);
            let half = p.halve();
            if !low.lt(&half) {
                low.wrapping_sub(p)
            } else {
                proof {
                    lemma_word_of_value(low);
                }
                low
            }
        },
        _ => x,
    }
}

/// The magnitude of a word read as a signed number.
fn abs_word(a: Word) -> (r: Word)
    ensures
        r.value() == abs(signed_value(a)),
        (r.value() == 0) == (a.value() == 0),
{
    let neg = a.hi >= 0x8000_0000_0000_0000_0000_0000_0000_0000;
    proof {
        lemma_overflow_bit(a, neg);
        lemma_value_bounds(a);
    }
    if neg {
        let r = Word::zero().wrapping_sub(a);
        proof {
            lemma_word_of_between(word_modulus() - a.value(), 0);
        }
        r
    } else {
        a
    }
}

/// `q` or its negation, as a word.
fn signed_word(q: Word, negate: bool) -> (r: Word)
    ensures
        r == word_of_int(if negate { -(q.value() as int) } else { q.value() as int }),
{
    proof {
        lemma_value_bounds(q);
    }
    if negate {
        proof {
            lemma_word_of_neg(q.value() as int);
        }
        Word::zero().wrapping_sub(q)
    } else {
        proof {
            lemma_word_of_int_value(q);
        }
        q
    }
}

pub fn sdiv(a: Word, b: Word) -> (r: Word)
    ensures
        r == sdiv_spec(a, b),
{
    if b.is_zero() {
        return Word::zero();
    }
    let (ua, ub) = (abs_word(a), abs_word(b));
    let (q, _) = ua.div_rem(ub);
    signed_word(q, a.signed_lt(&Word::zero()) != b.signed_lt(&Word::zero()))
}

pub fn smod(a: Word, b: Word) -> (r: Word)
    ensures
        r == smod_spec(a, b),
{
    if b.is_zero() {
        return Word::zero();
    }
    let (ua, ub) = (abs_word(a), abs_word(b));
    let (_, m) = ua.div_rem(ub);
    signed_word(m, a.signed_lt(&Word::zero()))
}

pub fn addmod(a: Word, b: Word, n: Word) -> (r: Word)
    ensures
        r == addmod_spec(a, b, n),
        n.value() > 0 ==> r.value() == (a.value() + b.value()) % n.value(),
{
    if n.is_zero() {
        return Word::zero();
    }
    let (_, a1) = a.div_rem(n);
    let (_, b1) = b.div_rem(n);
    let s = a1.wrapping_add(b1);
    let overflow = s.lt(&a1);
    let ghost (av, bv, nv, m) = (a1.value() as int, b1.value() as int, n.value() as int, word_modulus() as int);
    proof {
        lemma_value_bounds(n);
        lemma_word_of_mod((av + bv) as nat);
        let j: int = if av + bv >= m { 1 } else { 0 };
        lemma_word_of_between(av + bv, j);
        lemma_add_mod_noop(a.value() as int, b.value() as int, nv);
    }
    let r = if overflow || !s.lt(&n) {
        let r = s.wrapping_sub(n);
        proof {
            let j: int = if s.value() >= nv { 1 } else { 0 };
            lemma_word_of_between(m + s.value() - nv, j);
            lemma_fundamental_div_mod_converse(av + bv, nv, 1, av + bv - nv);
        }
        r
    } else {
        proof {
            lemma_fundamental_div_mod_converse(av + bv, nv, 0, av + bv);
        }
        s
    };
    proof {
        lemma_word_of_value(r);
    }
    r
}

/// `(x % n + (y % n) * h) % n == (x + y * h) % n`.
proof fn lemma_mod_combine(x: int, y: int, h: int, n: int)
    requires
        n > 0,
    ensures
        (x % n + (y % n) * h) % n == (x + y * h) % n,
{
    lemma_mul_mod_noop_left(y, h, n);
    lemma_add_mod_noop(x % n, (y % n) * h, n);
    lemma_add_mod_noop(x, y * h, n);
    vstd::arithmetic::div_mod::lemma_mod_twice(x, n);
    vstd::arithmetic::div_mod::lemma_mod_twice((y % n) * h, n);
}

pub fn mulmod(a: Word, b: Word, n: Word) -> (r: Word)
    ensures
        r == mulmod_spec(a, b, n),
{
    if n.is_zero() {
        return Word::zero();
    }
    let ghost nv = n.value();
    let (_, a1) = a.div_rem(n);
    let mut acc = Word::zero();
    let mut addend = a1;
    let mut rest = b;
    proof {
        lemma_mul_mod_noop_left(a.value() as int, b.value() as int, nv as int);
    }
    while !rest.is_zero()
        invariant
            nv == n.value() > 0,
            acc.value() < nv,
            addend.value() < nv,
            (acc.value() + addend.value() * rest.value()) % nv == (a.value() * b.value()) % nv,
        decreases rest.value(),
    {
        let ghost (x, y, z) = (acc.value() as int, addend.value() as int, rest.value() as int);
        let odd = rest.lo % 2 == 1;
        proof {
            lemma_parity(rest);
        }
        if odd {
            acc = addmod(acc, addend, n);
        }
        addend = addmod(addend, addend, n);
        rest = rest.halve();
        proof {
            let h = rest.value() as int;
            let bit: int = if odd { 1 } else { 0 };
            assert(z == 2 * h + bit);
            lemma_small_mod(x as nat, nv);
            assert(acc.value() == (x + bit * y) % (nv as int));
            lemma_mod_combine(x + bit * y, 2 * y, h, nv as int);
            assert(x + bit * y + 2 * y * h == x + y * z) by (nonlinear_arith)
                requires
                    z == 2 * h + bit,
            ;
        }
    }
    proof {
        lemma_small_mod(acc.value(), nv);
        lemma_word_of_value(acc);
    }
    acc
}

pub fn exp(a: Word, b: Word) -> (r: Word)
    ensures
        r == exp_spec(a, b),
{
    let ghost m = word_modulus() as int;
    let mut acc = Word::from_u128(1);
    let mut base = a;
    let mut rest = b;
    proof {
        reveal(pow);
        lemma_pow1(a.value() as int);
    }
    while !rest.is_zero()
        invariant
            m == word_modulus(),
            (acc.value() * pow(base.value() as int, rest.value())) % m == pow(
                a.value() as int,
                b.value(),
            ) % m,
        decreases rest.value(),
    {
        let ghost (x, y, z) = (acc.value() as int, base.value() as int, rest.value());
        let odd = rest.lo % 2 == 1;
        proof {
            lemma_parity(rest);
        }
        if odd {
            acc = acc.wrapping_mul(base);
        }
        base = base.wrapping_mul(base);
        rest = rest.halve();
        proof {
            let h = rest.value();
            let bit: nat = if odd { 1 } else { 0 };
            assert(z == 2 * h + bit);
            lemma_word_of_mod((x * y) as nat);
            lemma_word_of_mod((y * y) as nat);
            let x1 = if odd { x * y } else { x };
            assert(acc.value() == x1 % m);
            assert(base.value() == (y * y) % m);
            // pow(y * y, h) == pow(y, 2 * h)
            reveal(pow);
            assert(pow(y, 2) == y * y) by {
                reveal(pow);
                lemma_pow1(y);
            }
            lemma_pow_multiplies(y, 2, h);
            lemma_pow_mod_noop(y * y, h, m);
            lemma_pow_adds(y, 2 * h, bit);
            lemma_pow1(y);
            let ph = pow(y, 2 * h);
            assert(pow(y, bit) == if odd { y } else { 1 });
            assert(x * pow(y, z) == x1 * ph) by (nonlinear_arith)
                requires
                    pow(y, z) == ph * pow(y, bit),
                    pow(y, bit) == (if odd { y } else { 1 }),
                    x1 == (if odd { x * y } else { x }),
            ;
            lemma_mul_mod_noop_general(x1, ph, m);
            lemma_mul_mod_noop_general(x1, pow(y * y, h), m);
            lemma_mul_mod_noop_general(x1 % m, pow((y * y) % m, h), m);
        }
    }
    proof {
        reveal(pow);
        lemma_value_bounds(acc);
        lemma_small_mod(acc.value(), m as nat);
        lemma_word_of_int_value(acc);
        lemma_word_of_reduce(acc.value());
    }
    acc
}

} // verus!
