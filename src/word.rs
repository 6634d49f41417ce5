use vstd::arithmetic::div_mod::lemma_fundamental_div_mod_converse;
use vstd::prelude::*;

verus! {

/// 2^128, the base of one limb.
pub open spec fn limb_base() -> nat {
    0x1_0000_0000_0000_0000 * 0x1_0000_0000_0000_0000
}

/// 2^256, the modulus of word arithmetic.
pub open spec fn word_modulus() -> nat {
    limb_base() * limb_base()
}

/// A 256-bit machine word, held as two 128-bit limbs.
#[derive(Clone, Copy, Debug, PartialEq, Eq, Structural)]
pub struct Word {
    pub lo: u128,
    pub hi: u128,
}

/// The word whose value is `n` modulo 2^256.
pub open spec fn word_of(n: nat) -> Word {
    Word { lo: (n % limb_base()) as u128, hi: ((n / limb_base()) % limb_base()) as u128 }
}

/// A word's value is below 2^256, and its limbs are its digits in base 2^128.
pub proof fn lemma_value_bounds(w: Word)
    ensures
        w.value() < word_modulus(),
        w.value() % limb_base() == w.lo,
        w.value() / limb_base() == w.hi,
{
    let b = limb_base() as int;
    lemma_fundamental_div_mod_converse(w.value() as int, b, w.hi as int, w.lo as int);
    assert((w.hi as int) * b + (w.lo as int) < b * b) by (nonlinear_arith)
        requires
            0 <= w.hi < b,
            0 <= w.lo < b,
    ;
}

/// A word is determined by its value.
pub proof fn lemma_value_injective(a: Word, b: Word)
    ensures
        a.value() == b.value() <==> a == b,
{
    lemma_value_bounds(a);
    lemma_value_bounds(b);
}

/// `word_of` gives back the word of a value below 2^256.
pub proof fn lemma_word_of_value(w: Word)
    ensures
        word_of(w.value()) == w,
{
    lemma_value_bounds(w);
    assert(w.hi < limb_base());
    vstd::arithmetic::div_mod::lemma_small_mod(w.hi as nat, limb_base());
}

/// Reduces `q * 2^256 + w.value()` to `w`.
pub proof fn lemma_word_of_wrapped(w: Word, q: nat)
    ensures
        word_of(q * word_modulus() + w.value()) == w,
{
    lemma_value_bounds(w);
    let m = word_modulus() as int;
    let x = q * word_modulus() + w.value();
    lemma_fundamental_div_mod_converse(x as int, m, q as int, w.value() as int);
    let b = limb_base() as int;
    assert(x == (q * b + w.hi) * b + w.lo) by (nonlinear_arith)
        requires
            x == q * (b * b) + (w.hi * b + w.lo),
    ;
    lemma_fundamental_div_mod_converse(x as int, b, q * b + w.hi, w.lo as int);
    lemma_fundamental_div_mod_converse((q * b + w.hi) as int, b, q as int, w.hi as int);
}

/// The value of `word_of(n)` is `n` modulo 2^256.
pub proof fn lemma_word_of_mod(n: nat)
    ensures
        word_of(n).value() == n % word_modulus(),
        n == (n / word_modulus()) * word_modulus() + word_of(n).value(),
{
    let m = word_modulus() as int;
    let b = limb_base() as int;
    let r = (n % word_modulus()) as int;
    vstd::arithmetic::div_mod::lemma_fundamental_div_mod(n as int, m);
    vstd::arithmetic::div_mod::lemma_fundamental_div_mod(r, b);
    assert(r / b < b) by (nonlinear_arith)
        requires
            r == (r / b) * b + r % b,
            0 <= r % b,
            r < b * b,
            b > 0,
    ;
    vstd::arithmetic::div_mod::lemma_small_mod((r / b) as nat, b as nat);
    let w = word_of(r as nat);
    assert(w.value() == r);
    lemma_word_of_wrapped(w, n / word_modulus());
    assert(n == (n / word_modulus()) * word_modulus() + r);
}

/// The value read as two's complement: words from 2^255 up stand for negative numbers.
pub open spec fn signed_value(w: Word) -> int {
    if 2 * w.value() >= word_modulus() {
        w.value() - word_modulus()
    } else {
        w.value() as int
    }
}

/// Where `n - j * 2^256` lies in `[0, 2^256)`, it is the value of `word_of(n)`.
pub proof fn lemma_word_of_between(n: int, j: int)
    requires
        n >= 0,
        0 <= n - j * word_modulus() < word_modulus(),
    ensures
        word_of(n as nat).value() == n - j * word_modulus(),
{
    lemma_fundamental_div_mod_converse(n, word_modulus() as int, j, n - j * word_modulus());
    lemma_word_of_mod(n as nat);
}

/// The top bit of a word's high limb is set exactly when doubling it overflows.
pub proof fn lemma_overflow_bit(r: Word, overflow: bool)
    requires
        overflow == (r.hi >= 0x8000_0000_0000_0000_0000_0000_0000_0000),
    ensures
        overflow == (2 * r.value() >= word_modulus()),
{
    let hb: int = 0x8000_0000_0000_0000_0000_0000_0000_0000;
    let lb = limb_base() as int;
    assert(lb == 2 * hb);
    let (m, rv) = (word_modulus() as int, r.value() as int);
    assert(overflow == (2 * rv >= m)) by (nonlinear_arith)
        requires
            rv == r.hi * lb + r.lo,
            0 <= r.lo < lb,
            0 <= r.hi < lb,
            lb == 2 * hb,
            m == lb * lb,
            overflow == (r.hi >= hb),
    ;
}

/// One step of binary long division: from `h = q * b + r` to `2 * h + e`.
proof fn lemma_long_div_step(av: int, bv: int, h: int, qv: int, rv: int, e: int)
    requires
        av == 2 * h + e,
        0 <= e <= 1,
        h == qv * bv + rv,
        0 <= rv < bv,
        qv >= 0,
        bv <= av < word_modulus(),
    ensures
        2 * qv <= av,
        2 * rv + e >= bv ==> 2 * qv + 1 <= av,
        2 * rv + e >= bv ==> av / bv == 2 * qv + 1 && av % bv == 2 * rv + e - bv,
        2 * rv + e < bv ==> av / bv == 2 * qv && av % bv == 2 * rv + e,
{
    assert(qv <= h) by (nonlinear_arith)
        requires
            h == qv * bv + rv,
            bv >= 1,
            qv >= 0,
            rv >= 0,
    ;
    assert(av == (2 * qv) * bv + (2 * rv + e)) by (nonlinear_arith)
        requires
            av == 2 * h + e,
            h == qv * bv + rv,
    ;
    assert(2 * qv <= (2 * qv) * bv) by (nonlinear_arith)
        requires
            qv >= 0,
            bv >= 1,
    ;
    if 2 * rv + e >= bv {
        assert(av == (2 * qv + 1) * bv + (2 * rv + e - bv)) by (nonlinear_arith)
            requires
                av == (2 * qv) * bv + (2 * rv + e),
        ;
        assert(2 * qv + 1 <= (2 * qv + 1) * bv) by (nonlinear_arith)
            requires
                qv >= 0,
                bv >= 1,
        ;
        lemma_fundamental_div_mod_converse(av, bv, 2 * qv + 1, 2 * rv + e - bv);
    } else {
        lemma_fundamental_div_mod_converse(av, bv, 2 * qv, 2 * rv + e);
    }
}

/// One round of multiplication by doubling and halving keeps
/// `acc + addend * rest` fixed modulo 2^256; the result is the new multiple of 2^256.
proof fn lemma_mul_step(
    acc0: Word,
    addend0: Word,
    rest0: Word,
    acc1: Word,
    addend1: Word,
    rest1: Word,
    odd: bool,
    k: int,
) -> (k1: int)
    requires
        odd == (rest0.value() % 2 == 1),
        acc1 == (if odd {
            word_of(acc0.value() + addend0.value())
        } else {
            acc0
        }),
        addend1 == word_of(addend0.value() + addend0.value()),
        rest1.value() == rest0.value() / 2,
    ensures
        acc1.value() + addend1.value() * rest1.value() + k1 * word_modulus() == acc0.value()
            + addend0.value() * rest0.value() + k * word_modulus(),
{
    let m = word_modulus() as int;
    let (x, y, z, h) = (acc0.value() as int, addend0.value() as int, rest0.value() as int, rest1.value() as int);
    lemma_word_of_mod((x + y) as nat);
    lemma_word_of_mod((y + y) as nat);
    let q1: int = if odd { (x + y) / m } else { 0 };
    let bit: int = if odd { 1 } else { 0 };
    let q2 = (y + y) / m;
    let (x1, y1) = (acc1.value() as int, addend1.value() as int);
    assert(x1 == x + bit * y - q1 * m);
    assert(y1 == 2 * y - q2 * m);
    assert(z == 2 * h + bit);
    assert(x1 + y1 * h + (k + q1 + q2 * h) * m == x + y * z + k * m) by (nonlinear_arith)
        requires
            x1 == x + bit * y - q1 * m,
            y1 == 2 * y - q2 * m,
            z == 2 * h + bit,
    ;
    k + q1 + q2 * h
}

/// A word is odd exactly when its low limb is.
pub proof fn lemma_parity(w: Word)
    ensures
        w.value() % 2 == w.lo % 2,
{
    let b = limb_base() as int;
    let hb: int = 0x8000_0000_0000_0000_0000_0000_0000_0000;
    assert(b == 2 * hb);
    assert(w.value() == 2 * (w.hi * hb + w.lo / 2) + w.lo % 2) by (nonlinear_arith)
        requires
            w.value() == w.hi * b + w.lo,
            b == 2 * hb,
    ;
    lemma_fundamental_div_mod_converse(w.value() as int, 2, w.hi * hb + w.lo / 2, (w.lo % 2) as int);
}

impl Word {
    /// The number the word stands for, in `[0, 2^256)`.
    pub open spec fn value(self) -> nat {
        self.hi as nat * limb_base() + self.lo as nat
    }

    pub fn zero() -> (r: Word)
        ensures
            r.value() == 0,
    {
        Word { lo: 0, hi: 0 }
    }

    pub fn from_u128(x: u128) -> (r: Word)
        ensures
            r.value() == x,
    {
        Word { lo: x, hi: 0 }
    }

    pub fn from_usize(x: usize) -> (r: Word)
        ensures
            r.value() == x,
    {
        Word { lo: x as u128, hi: 0 }
    }

    pub fn is_zero(&self) -> (r: bool)
        ensures
            r == (self.value() == 0),
    {
        proof {
            lemma_value_bounds(*self);
        }
        self.lo == 0 && self.hi == 0
    }

    /// The value as a `usize`, where it fits.
    pub fn to_usize(&self) -> (r: Option<usize>)
        ensures
            r == (if self.value() <= usize::MAX {
                Some(self.value() as usize)
            } else {
                None::<usize>
            }),
    {
        if self.hi == 0 && self.lo <= usize::MAX as u128 {
            Some(self.lo as usize)
        } else {
            proof {
                if self.hi > 0 {
                    assert(self.hi as nat * limb_base() >= limb_base()) by (nonlinear_arith)
                        requires
                            self.hi > 0,
                    ;
                }
            }
            None
        }
    }

    /// The lowest byte of the value.
    pub fn low_byte(&self) -> (r: u8)
        ensures
            r == self.value() % 256,
    {
        proof {
            let b = limb_base() as int;
            assert((self.hi * b + self.lo) % 256 == self.lo % 256) by (nonlinear_arith)
                requires
                    b == 256 * 0x1_0000_0000_0000_0000_0000_0000_0000_00,
                    self.hi >= 0,
                    self.lo >= 0,
            ;
        }
        (self.lo % 256) as u8
    }

    /// Addition modulo 2^256.
    pub fn wrapping_add(self, o: Word) -> (r: Word)
        ensures
            r == word_of(self.value() + o.value()),
    {
        let (lo, carry) = if o.lo <= u128::MAX - self.lo {
            (self.lo + o.lo, 0u128)
        } else {
            (o.lo - (u128::MAX - self.lo) - 1, 1u128)
        };
        let (h1, d1) = if o.hi <= u128::MAX - self.hi {
            (self.hi + o.hi, 0u128)
        } else {
            (o.hi - (u128::MAX - self.hi) - 1, 1u128)
        };
        let (hi, d2) = if carry <= u128::MAX - h1 {
            (h1 + carry, 0u128)
        } else {
            (carry - (u128::MAX - h1) - 1, 1u128)
        };
        let r = Word { lo, hi };
        proof {
            let b = limb_base() as int;
            assert(self.value() + o.value() == (d1 + d2) * (b * b) + r.value()) by (nonlinear_arith)
                requires
                    self.lo + o.lo == lo + carry * b,
                    self.hi + o.hi == h1 + d1 * b,
                    h1 + carry == hi + d2 * b,
                    self.value() == self.hi * b + self.lo,
                    o.value() == o.hi * b + o.lo,
                    r.value() == hi * b + lo,
            ;
            lemma_word_of_wrapped(r, (d1 + d2) as nat);
        }
        r
    }

    /// Subtraction modulo 2^256.
    pub fn wrapping_sub(self, o: Word) -> (r: Word)
        ensures
            r == word_of((word_modulus() + self.value() - o.value()) as nat),
    {
        let (lo, borrow) = if o.lo <= self.lo {
            (self.lo - o.lo, 0u128)
        } else {
            (u128::MAX - (o.lo - self.lo) + 1, 1u128)
        };
        let (h1, d1) = if o.hi <= self.hi {
            (self.hi - o.hi, 0u128)
        } else {
            (u128::MAX - (o.hi - self.hi) + 1, 1u128)
        };
        let (hi, d2) = if borrow <= h1 {
            (h1 - borrow, 0u128)
        } else {
            (u128::MAX - (borrow - h1) + 1, 1u128)
        };
        let r = Word { lo, hi };
        proof {
            let b = limb_base() as int;
            lemma_value_bounds(o);
            assert(b * b + self.value() - o.value() == (1 - d1 - d2) * (b * b) + r.value())
                by (nonlinear_arith)
                requires
                    self.lo - o.lo == lo - borrow * b,
                    self.hi - o.hi == h1 - d1 * b,
                    h1 - borrow == hi - d2 * b,
                    self.value() == self.hi * b + self.lo,
                    o.value() == o.hi * b + o.lo,
                    r.value() == hi * b + lo,
            ;
            if d1 + d2 == 2 {
                // a borrow out of the high limb (`d1`) leaves `h1 >= 1`, so the low
                // borrow cannot borrow out of it again (`d2`)
                assert(false);
            }
            lemma_word_of_wrapped(r, (1 - d1 - d2) as nat);
        }
        r
    }

    /// The value halved, rounding down.
    pub fn halve(&self) -> (r: Word)
        ensures
            r.value() == self.value() / 2,
    {
        let top: u128 = if self.hi % 2 == 1 {
            0x8000_0000_0000_0000_0000_0000_0000_0000
        } else {
            0
        };
        let r = Word { lo: self.lo / 2 + top, hi: self.hi / 2 };
        proof {
            let b = limb_base() as int;
            let hb: int = 0x8000_0000_0000_0000_0000_0000_0000_0000;
            assert(b == 2 * hb);
            let (h, e, l, f) = (self.hi / 2, self.hi % 2, self.lo / 2, self.lo % 2);
            assert(top == e * hb);
            assert(self.value() == 2 * (h * b + e * hb + l) + f) by (nonlinear_arith)
                requires
                    self.value() == self.hi * b + self.lo,
                    self.hi == 2 * h + e,
                    self.lo == 2 * l + f,
                    b == 2 * hb,
            ;
            assert(r.value() == h * b + e * hb + l);
            lemma_fundamental_div_mod_converse(self.value() as int, 2, r.value() as int, f as int);
        }
        r
    }

    /// Multiplication modulo 2^256.
    pub fn wrapping_mul(self, o: Word) -> (r: Word)
        ensures
            r == word_of(self.value() * o.value()),
    {
        let mut acc = Word::zero();
        let mut addend = self;
        let mut rest = o;
        let ghost mut k: int = 0;
        while !rest.is_zero()
            invariant
                acc.value() + addend.value() * rest.value() + k * word_modulus() == self.value()
                    * o.value(),
            decreases rest.value(),
        {
            let ghost (acc0, addend0, rest0) = (acc, addend, rest);
            let odd = rest.lo % 2 == 1;
            proof {
                lemma_parity(rest);
            }
            if odd {
                acc = acc.wrapping_add(addend);
            }
            addend = addend.wrapping_add(addend);
            rest = rest.halve();
            proof {
                k = lemma_mul_step(acc0, addend0, rest0, acc, addend, rest, odd, k);
            }
        }
        proof {
            lemma_value_bounds(acc);
            assert(addend.value() * rest.value() == 0);
            let (p, a, m) = ((self.value() * o.value()) as int, acc.value() as int, word_modulus() as int);
            assert(k >= 0) by (nonlinear_arith)
                requires
                    a + k * m == p,
                    p >= 0,
                    0 <= a < m,
            ;
            lemma_word_of_wrapped(acc, k as nat);
        }
        acc
    }

    /// Quotient and remainder by a nonzero divisor.
    #[verifier::rlimit(30)]
    pub fn div_rem(self, b: Word) -> (r: (Word, Word))
        requires
            b.value() > 0,
        ensures
            r.0.value() == self.value() / b.value(),
            r.1.value() == self.value() % b.value(),
        decreases self.value(),
    {
        if self.lt(&b) {
            proof {
                lemma_fundamental_div_mod_converse(self.value() as int, b.value() as int, 0, self.value() as int);
            }
            return (Word::zero(), self);
        }
        let half = self.halve();
        let (q, r) = half.div_rem(b);
        let bit = Word::from_u128(self.lo % 2);
        let overflow = r.hi >= 0x8000_0000_0000_0000_0000_0000_0000_0000;
        let r2 = r.wrapping_add(r).wrapping_add(bit);
        let q2 = q.wrapping_add(q);
        let ghost m = word_modulus() as int;
        let ghost (av, bv, qv, rv, e) = (self.value() as int, b.value() as int, q.value() as int, r.value() as int, (self.lo % 2) as int);
        proof {
            lemma_parity(self);
            lemma_value_bounds(self);
            lemma_value_bounds(b);
            vstd::arithmetic::div_mod::lemma_fundamental_div_mod(half.value() as int, bv);
            assert(half.value() == qv * bv + rv) by (nonlinear_arith)
                requires
                    half.value() == bv * (half.value() as int / bv) + half.value() as int % bv,
                    qv == half.value() as int / bv,
                    rv == half.value() as int % bv,
            ;
            lemma_overflow_bit(r, overflow);
            lemma_long_div_step(av, bv, half.value() as int, qv, rv, e);
            let j: int = if overflow { 1 } else { 0 };
            lemma_word_of_between(2 * rv, j);
            lemma_word_of_between(2 * rv - j * m + e, 0);
            lemma_word_of_between(2 * qv, 0);
        }
        if overflow || !r2.lt(&b) {
            let q3 = q2.wrapping_add(Word::from_u128(1));
            let r3 = r2.wrapping_sub(b);
            proof {
                lemma_word_of_between(2 * qv + 1, 0);
                lemma_word_of_between(m + r2.value() - bv, 1);
            }
            (q3, r3)
        } else {
            (q2, r2)
        }
    }

    /// Unsigned comparison.
    pub fn lt(&self, o: &Word) -> (r: bool)
        ensures
            r == (self.value() < o.value()),
    {
        proof {
            let b = limb_base() as int;
            assert(self.hi < o.hi ==> self.value() < o.value()) by (nonlinear_arith)
                requires
                    0 <= self.lo < b,
                    0 <= o.lo < b,
                    self.value() == self.hi * b + self.lo,
                    o.value() == o.hi * b + o.lo,
            ;
            assert(self.hi > o.hi ==> self.value() > o.value()) by (nonlinear_arith)
                requires
                    0 <= self.lo < b,
                    0 <= o.lo < b,
                    self.value() == self.hi * b + self.lo,
                    o.value() == o.hi * b + o.lo,
            ;
        }
        self.hi < o.hi || (self.hi == o.hi && self.lo < o.lo)
    }

    /// Signed (two's complement) comparison.
    pub fn signed_lt(&self, o: &Word) -> (r: bool)
        ensures
            r == (signed_value(*self) < signed_value(*o)),
    {
        let neg_a = self.hi >= 0x8000_0000_0000_0000_0000_0000_0000_0000;
        let neg_b = o.hi >= 0x8000_0000_0000_0000_0000_0000_0000_0000;
        proof {
            lemma_overflow_bit(*self, neg_a);
            lemma_overflow_bit(*o, neg_b);
            lemma_value_bounds(*self);
            lemma_value_bounds(*o);
        }
        if neg_a != neg_b {
            neg_a
        } else {
            self.lt(o)
        }
    }

    pub fn eq_word(&self, o: &Word) -> (r: bool)
        ensures
            r == (self.value() == o.value()),
            r == (*self == *o),
    {
        proof {
            lemma_value_injective(*self, *o);
        }
        self.lo == o.lo && self.hi == o.hi
    }

    pub fn bit_and(&self, o: &Word) -> (r: Word)
        ensures
            r == (Word { lo: self.lo & o.lo, hi: self.hi & o.hi }),
    {
        Word { lo: self.lo & o.lo, hi: self.hi & o.hi }
    }

    pub fn bit_or(&self, o: &Word) -> (r: Word)
        ensures
            r == (Word { lo: self.lo | o.lo, hi: self.hi | o.hi }),
    {
        Word { lo: self.lo | o.lo, hi: self.hi | o.hi }
    }

    pub fn bit_xor(&self, o: &Word) -> (r: Word)
        ensures
            r == (Word { lo: self.lo ^ o.lo, hi: self.hi ^ o.hi }),
    {
        Word { lo: self.lo ^ o.lo, hi: self.hi ^ o.hi }
    }

    /// Bitwise complement: the value `2^256 - 1 - self`.
    pub fn bit_not(&self) -> (r: Word)
        ensures
            r == (Word { lo: !self.lo, hi: !self.hi }),
            r.value() == word_modulus() - 1 - self.value(),
    {
        let r = Word { lo: !self.lo, hi: !self.hi };
        proof {
            let (l, h) = (self.lo, self.hi);
            assert(!l == u128::MAX - l) by (bit_vector);
            assert(!h == u128::MAX - h) by (bit_vector);
            let b = limb_base() as int;
            assert(r.value() == b * b - 1 - self.value()) by (nonlinear_arith)
                requires
                    r.value() == (b - 1 - h) * b + (b - 1 - l),
                    self.value() == h * b + l,
            ;
        }
        r
    }
}

/// The number that bytes spell in big-endian order.
pub open spec fn be_value(s: Seq<u8>) -> nat
    decreases s.len(),
{
    if s.len() == 0 {
        0
    } else {
        be_value(s.drop_last()) * 256 + s.last() as nat
    }
}

/// 256 to the power `n`.
pub open spec fn byte_span(n: nat) -> nat
    decreases n,
{
    if n == 0 {
        1
    } else {
        256 * byte_span((n - 1) as nat)
    }
}

pub proof fn lemma_be_concat(a: Seq<u8>, b: Seq<u8>)
    ensures
        be_value(a + b) == be_value(a) * byte_span(b.len()) + be_value(b),
    decreases b.len(),
{
    if b.len() == 0 {
        assert(a + b =~= a);
        assert(byte_span(0) == 1);
        assert(be_value(a) * 1 == be_value(a));
    } else {
        let b0 = b.drop_last();
        assert((a + b).drop_last() =~= a + b0);
        assert((a + b).last() == b.last());
        lemma_be_concat(a, b0);
        let (x, y, s, l) = (be_value(a) as int, be_value(b0) as int, byte_span(b0.len()) as int, b.last() as int);
        assert((x * s + y) * 256 + l == x * (256 * s) + (y * 256 + l)) by (nonlinear_arith);
        assert(byte_span(b.len()) == 256 * byte_span(b0.len()));
        assert(be_value(b) == be_value(b0) * 256 + b.last() as nat);
        assert(be_value(a + b) == be_value(a + b0) * 256 + b.last() as nat);
        assert(be_value(a + b) == be_value(a) * byte_span(b.len()) + be_value(b));
    }
}

pub proof fn lemma_be_bound(s: Seq<u8>)
    ensures
        be_value(s) < byte_span(s.len()),
    decreases s.len(),
{
    if s.len() > 0 {
        let s0 = s.drop_last();
        lemma_be_bound(s0);
        let (x, p, l) = (be_value(s0) as int, byte_span(s0.len()) as int, s.last() as int);
        assert(x * 256 + l < 256 * p) by (nonlinear_arith)
            requires
                0 <= x < p,
                0 <= l < 256,
        ;
    }
}

proof fn lemma_span_mono(i: nat, j: nat)
    requires
        i <= j,
    ensures
        byte_span(i) <= byte_span(j),
    decreases j,
{
    if i < j {
        lemma_span_mono(i, (j - 1) as nat);
    }
}

proof fn lemma_span_limb()
    ensures
        byte_span(16) == limb_base(),
{
    reveal_with_fuel(byte_span, 17);
}

/// The big-endian number in `b[start..end]`, at most sixteen bytes.
fn be_limb(b: &[u8], start: usize, end: usize) -> (r: u128)
    requires
        start <= end <= b@.len(),
        end - start <= 16,
    ensures
        r == be_value(b@.subrange(start as int, end as int)),
{
    let mut acc: u128 = 0;
    let mut i: usize = start;
    while i < end
        invariant
            start <= i <= end,
            end <= b@.len(),
            end - start <= 16,
            acc == be_value(b@.subrange(start as int, i as int)),
        decreases end - i,
    {
        proof {
            let sub = b@.subrange(start as int, i as int);
            lemma_be_bound(sub);
            lemma_span_mono((i - start + 1) as nat, 16);
            lemma_span_limb();
            let p = byte_span(sub.len()) as int;
            assert(acc * 256 + 255 < 256 * p) by (nonlinear_arith)
                requires
                    0 <= acc < p,
            ;
            assert(b@.subrange(start as int, i + 1).drop_last() =~= sub);
        }
        acc = acc * 256 + b[i] as u128;
        i += 1;
    }
    acc
}

/// Reads `b[start..end]`, at most 32 bytes, as a big-endian word.
pub fn from_be_bytes(b: &[u8], start: usize, end: usize) -> (r: Word)
    requires
        start <= end <= b@.len(),
        end - start <= 32,
    ensures
        r.value() == be_value(b@.subrange(start as int, end as int)),
{
    let mid: usize = if end - start > 16 {
        end - 16
    } else {
        start
    };
    let hi = be_limb(b, start, mid);
    let lo = be_limb(b, mid, end);
    proof {
        let (s1, s2) = (b@.subrange(start as int, mid as int), b@.subrange(mid as int, end as int));
        assert(b@.subrange(start as int, end as int) =~= s1 + s2);
        lemma_be_concat(s1, s2);
        if end - start > 16 {
            lemma_span_limb();
        } else {
            assert(s1.len() == 0);
        }
    }
    Word { lo, hi }
}

/// Equal-length byte strings that spell the same number are equal.
pub proof fn lemma_be_injective(s: Seq<u8>, t: Seq<u8>)
    requires
        s.len() == t.len(),
        be_value(s) == be_value(t),
    ensures
        s == t,
    decreases s.len(),
{
    if s.len() > 0 {
        let (s0, t0) = (s.drop_last(), t.drop_last());
        lemma_fundamental_div_mod_converse(be_value(s) as int, 256, be_value(s0) as int, s.last() as int);
        lemma_fundamental_div_mod_converse(be_value(t) as int, 256, be_value(t0) as int, t.last() as int);
        lemma_be_injective(s0, t0);
        assert(s =~= s0.push(s.last()));
        assert(t =~= t0.push(t.last()));
    } else {
        assert(s =~= t);
    }
}

/// The 32 big-endian bytes of a word.
pub open spec fn word_bytes(w: Word) -> Seq<u8> {
    choose|s: Seq<u8>| s.len() == 32 && be_value(s) == w.value()
}

/// Writes `x` as sixteen big-endian bytes at `v[start..start + 16]`.
fn write_limb(v: &mut Vec<u8>, start: usize, x: u128)
    requires
        old(v)@.len() == 32,
        start == 0 || start == 16,
    ensures
        final(v)@.len() == 32,
        be_value(final(v)@.subrange(start as int, start + 16)) == x,
        forall|i: int|
            0 <= i < 32 && !(start <= i < start + 16) ==> final(v)@[i] == old(v)@[i],
{
    let mut cur: u128 = x;
    let mut j: usize = 0;
    proof {
        lemma_span_limb();
        assert(v@.subrange(start + 16 - j, start + 16) =~= Seq::<u8>::empty());
        assert(be_value(Seq::<u8>::empty()) == 0);
        assert(byte_span(0) == 1);
        assert(x == cur * 1);
    }
    while j < 16
        invariant
            j <= 16,
            v@.len() == 32,
            start == 0 || start == 16,
            x == cur * byte_span(j as nat) + be_value(v@.subrange(start + 16 - j, start + 16)),
            cur < byte_span((16 - j) as nat),
            forall|i: int|
                0 <= i < 32 && !(start <= i < start + 16) ==> v@[i] == old(v)@[i],
        decreases 16 - j,
    {
        let ghost suffix = v@.subrange(start + 16 - j, start + 16);
        let b = (cur % 256) as u8;
        v.set(start + 15 - j, b);
        proof {
            assert(v@.subrange(start + 16 - j, start + 16) =~= suffix);
            assert(v@.subrange(start + 15 - j, start + 16) =~= seq![b] + suffix);
            lemma_be_concat(seq![b], suffix);
            assert(seq![b].drop_last() =~= Seq::<u8>::empty());
            assert(seq![b].last() == b);
            assert(be_value(Seq::<u8>::empty()) == 0);
            assert(be_value(seq![b]) == be_value(seq![b].drop_last()) * 256 + b);
            assert(be_value(seq![b]) == b);
            let (c, sp, e) = (cur as int, byte_span(j as nat) as int, be_value(suffix) as int);
            assert(x == (c / 256) * (256 * sp) + (b * sp + e)) by (nonlinear_arith)
                requires
                    x == c * sp + e,
                    b == c % 256,
                    c >= 0,
            ;
            assert(byte_span((16 - j) as nat) == 256 * byte_span((15 - j) as nat));
        }
        cur = cur / 256;
        j += 1;
    }
    proof {
        assert(cur == 0);
    }
}

/// The 32 big-endian bytes of `w`.
pub fn to_be_bytes(w: &Word) -> (r: Vec<u8>)
    ensures
        r@ == word_bytes(*w),
        r@.len() == 32,
        be_value(r@) == w.value(),
{
    let mut v: Vec<u8> = Vec::new();
    let mut i: usize = 0;
    while i < 32
        invariant
            i <= 32,
            v@.len() == i,
        decreases 32 - i,
    {
        v.push(0u8);
        i += 1;
    }
    write_limb(&mut v, 0, w.hi);
    let ghost high = v@.subrange(0, 16);
    write_limb(&mut v, 16, w.lo);
    proof {
        assert(v@.subrange(0, 16) =~= high);
        assert(v@ =~= v@.subrange(0, 16) + v@.subrange(16, 32));
        lemma_be_concat(v@.subrange(0, 16), v@.subrange(16, 32));
        lemma_span_limb();
        let s = word_bytes(*w);
        assert(s.len() == 32 && be_value(s) == w.value());
        lemma_be_injective(s, v@);
    }
    v
}

} // verus!
