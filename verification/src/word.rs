//! The 256-bit unsigned machine word.
//!
//! A `Word` is four 64-bit limbs in little-endian order; its view is the
//! natural number it denotes, always below 2^256.  All arithmetic wraps
//! modulo 2^256.

use vstd::prelude::*;
use vstd::arithmetic::div_mod::{
    lemma_add_mod_noop, lemma_basic_div, lemma_breakdown, lemma_div_basics, lemma_div_denominator, lemma_div_of0,
    lemma_div_nonincreasing, lemma_fundamental_div_mod, lemma_fundamental_div_mod_converse,
    lemma_hoist_over_denominator, lemma_mod_bound, lemma_mod_multiples_vanish,
    lemma_mul_mod_noop_right, lemma_small_mod,
};
use vstd::arithmetic::mul::{
    lemma_mul_is_associative, lemma_mul_is_commutative, lemma_mul_is_distributive_add,
};
use vstd::arithmetic::power2::{
    lemma2_to64, lemma_pow2_adds, lemma_pow2_pos, lemma_pow2_strictly_increases,
    lemma_pow2_unfold, pow2,
};
use vstd::bits::lemma_u64_shr_is_div;

verus! {

/// 2^64, the radix of one limb.
pub open spec fn limb_base() -> nat {
    0x1_0000_0000_0000_0000nat
}

/// 2^128.
pub open spec fn limb_base2() -> nat {
    0x1_0000_0000_0000_0000_0000_0000_0000_0000nat
}

/// 2^192.
pub open spec fn limb_base3() -> nat {
    0x1_0000_0000_0000_0000_0000_0000_0000_0000_0000_0000_0000_0000nat
}

/// 2^256: every word denotes a natural number below this bound, and all
/// word arithmetic is modulo this.
pub open spec fn word_modulus() -> nat {
    0x1_0000_0000_0000_0000_0000_0000_0000_0000_0000_0000_0000_0000_0000_0000_0000_0000nat
}

/// The powers of two used by the limb encoding, as `pow2` values.
pub proof fn lemma_limb_bases()
    ensures
        pow2(64) == limb_base(),
        pow2(128) == limb_base2(),
        pow2(192) == limb_base3(),
        pow2(256) == word_modulus(),
{
    lemma2_to64();
    lemma_pow2_adds(64, 64);
    lemma_pow2_adds(128, 64);
    lemma_pow2_adds(192, 64);
}

/// The big-endian value of a byte string: the first byte is the most
/// significant.
pub open spec fn be_val(s: Seq<u8>) -> nat
    decreases s.len(),
{
    if s.len() == 0 {
        0nat
    } else {
        (be_val(s.drop_last()) * 256 + s.last()) as nat
    }
}

/// The word denoting the value `n`, for `n` below 2^256.
pub open spec fn word_of(n: nat) -> Word {
    Word {
        l0: (n % limb_base()) as u64,
        l1: ((n / limb_base()) % limb_base()) as u64,
        l2: ((n / limb_base2()) % limb_base()) as u64,
        l3: ((n / limb_base3()) % limb_base()) as u64,
    }
}

/// Bitwise and, limb by limb.
pub open spec fn and_words(a: Word, b: Word) -> Word {
    Word { l0: a.l0 & b.l0, l1: a.l1 & b.l1, l2: a.l2 & b.l2, l3: a.l3 & b.l3 }
}

/// Bitwise or, limb by limb.
pub open spec fn or_words(a: Word, b: Word) -> Word {
    Word { l0: a.l0 | b.l0, l1: a.l1 | b.l1, l2: a.l2 | b.l2, l3: a.l3 | b.l3 }
}

/// Bitwise exclusive or, limb by limb.
pub open spec fn xor_words(a: Word, b: Word) -> Word {
    Word { l0: a.l0 ^ b.l0, l1: a.l1 ^ b.l1, l2: a.l2 ^ b.l2, l3: a.l3 ^ b.l3 }
}

/// Bitwise complement, limb by limb.
pub open spec fn not_word(a: Word) -> Word {
    Word { l0: !a.l0, l1: !a.l1, l2: !a.l2, l3: !a.l3 }
}

/// A 256-bit unsigned integer: four 64-bit limbs, least significant first.
#[derive(Clone, Copy, PartialEq, Eq, Structural, Debug)]
pub struct Word {
    pub l0: u64,
    pub l1: u64,
    pub l2: u64,
    pub l3: u64,
}

impl View for Word {
    type V = nat;

    open spec fn view(&self) -> nat {
        (self.l0 + self.l1 * limb_base() + self.l2 * limb_base2() + self.l3 * limb_base3()) as nat
    }
}

/// Addition wrapping modulo 2^256, on the mathematical values.
pub open spec fn wrap_add(a: nat, b: nat) -> nat {
    (a + b) % word_modulus()
}

/// Subtraction wrapping modulo 2^256, on the mathematical values.
pub open spec fn wrap_sub(a: nat, b: nat) -> nat {
    (((a + word_modulus()) - b) % (word_modulus() as int)) as nat
}

/// Multiplication wrapping modulo 2^256, on the mathematical values.
pub open spec fn wrap_mul(a: nat, b: nat) -> nat {
    (a * b) % word_modulus()
}

/// Adding two limbs and a carry: the result is a limb plus a carry-out,
/// together denoting the exact sum.
fn add_limb(x: u64, y: u64, c: u64) -> (res: (u64, u64))
    requires
        c <= 1,
    ensures
        res.0 + res.1 * limb_base() == x + y + c,
        res.1 <= 1,
{
    let s: u128 = x as u128 + y as u128 + c as u128;
    if s >= 0x1_0000_0000_0000_0000u128 {
        ((s - 0x1_0000_0000_0000_0000u128) as u64, 1u64)
    } else {
        (s as u64, 0u64)
    }
}

impl Word {
    /// The word 0.
    pub fn zero() -> (r: Word)
        ensures
            r@ == 0,
    {
        Word { l0: 0, l1: 0, l2: 0, l3: 0 }
    }

    /// The word 1.
    pub fn one() -> (r: Word)
        ensures
            r@ == 1,
    {
        Word { l0: 1, l1: 0, l2: 0, l3: 0 }
    }

    /// The word 2^256 - 1, all bits set.
    pub fn max_word() -> (r: Word)
        ensures
            r@ == word_modulus() - 1,
    {
        Word { l0: u64::MAX, l1: u64::MAX, l2: u64::MAX, l3: u64::MAX }
    }

    /// The word denoting a small integer.
    pub fn from_u64(x: u64) -> (r: Word)
        ensures
            r@ == x,
    {
        Word { l0: x, l1: 0, l2: 0, l3: 0 }
    }

    /// The limbs of a word are determined by the value it denotes.
    pub proof fn lemma_limb_extract(self)
        ensures
            self.l0 == self@ % limb_base(),
            self.l1 == (self@ / limb_base()) % limb_base(),
            self.l2 == (self@ / limb_base2()) % limb_base(),
            self.l3 == self@ / limb_base3(),
    {
        let v = self@ as int;
        let h1 = self.l1 + self.l2 * limb_base() + self.l3 * limb_base2();
        lemma_fundamental_div_mod_converse(v, limb_base() as int, h1, self.l0 as int);
        let h1t = self.l2 + self.l3 * limb_base();
        lemma_fundamental_div_mod_converse(h1, limb_base() as int, h1t, self.l1 as int);
        let h2 = self.l2 + self.l3 * limb_base();
        lemma_fundamental_div_mod_converse(
            v,
            limb_base2() as int,
            h2,
            self.l0 + self.l1 * limb_base(),
        );
        lemma_fundamental_div_mod_converse(h2, limb_base() as int, self.l3 as int, self.l2 as int);
        lemma_fundamental_div_mod_converse(
            v,
            limb_base3() as int,
            self.l3 as int,
            self.l0 + self.l1 * limb_base() + self.l2 * limb_base2(),
        );
    }

    /// `word_of` inverts the view: the word denoting a word's value is
    /// the word itself.
    pub proof fn lemma_word_of_view(self)
        ensures
            word_of(self@) == self,
    {
        self.lemma_limb_extract();
        lemma_small_mod((self@ / limb_base3()) as nat, limb_base());
    }

    /// Two words are equal exactly when they denote the same value.
    pub proof fn lemma_view_injective(a: Word, b: Word)
        ensures
            (a == b) <==> (a@ == b@),
    {
        if a@ == b@ {
            a.lemma_limb_extract();
            b.lemma_limb_extract();
        }
    }

    /// Wrapping sum together with the carry flag: the pair denotes the
    /// exact (up to 257-bit) sum.
    pub fn overflowing_add(&self, other: &Word) -> (res: (Word, bool))
        ensures
            res.0@ + (if res.1 { word_modulus() } else { 0nat }) == self@ + other@,
            res.0@ == wrap_add(self@, other@),
    {
        let (r0, c0) = add_limb(self.l0, other.l0, 0);
        let (r1, c1) = add_limb(self.l1, other.l1, c0);
        let (r2, c2) = add_limb(self.l2, other.l2, c1);
        let (r3, c3) = add_limb(self.l3, other.l3, c2);
        let r = Word { l0: r0, l1: r1, l2: r2, l3: r3 };
        proof {
            let s = (self@ + other@) as int;
            if c3 == 1 {
                lemma_fundamental_div_mod_converse(s, word_modulus() as int, 1, r@ as int);
            } else {
                lemma_fundamental_div_mod_converse(s, word_modulus() as int, 0, r@ as int);
            }
        }
        (r, c3 == 1)
    }

    /// Sum modulo 2^256.
    pub fn wrapping_add(&self, other: &Word) -> (r: Word)
        ensures
            r@ == wrap_add(self@, other@),
    {
        self.overflowing_add(other).0
    }

    /// Bitwise complement; the value is 2^256 - 1 - self.
    pub fn bitnot(&self) -> (r: Word)
        ensures
            r == not_word(*self),
            r@ == word_modulus() - 1 - self@,
    {
        proof {
            lemma_u64_not(self.l0);
            lemma_u64_not(self.l1);
            lemma_u64_not(self.l2);
            lemma_u64_not(self.l3);
        }
        Word { l0: !self.l0, l1: !self.l1, l2: !self.l2, l3: !self.l3 }
    }

    /// Two's-complement negation: the value is (2^256 - self) mod 2^256.
    pub fn negate(&self) -> (r: Word)
        ensures
            r@ == wrap_sub(0, self@),
    {
        let r = self.bitnot().wrapping_add(&Word::one());
        proof {
            lemma_small_mod(r@, word_modulus());
            if self@ == 0 {
                lemma_mod_multiples_vanish(1, 0, word_modulus() as int);
            } else {
                lemma_small_mod((word_modulus() - self@) as nat, word_modulus());
            }
        }
        r
    }

    /// Difference modulo 2^256.
    pub fn wrapping_sub(&self, other: &Word) -> (r: Word)
        ensures
            r@ == wrap_sub(self@, other@),
    {
        let r = self.wrapping_add(&other.negate());
        proof {
            lemma_add_mod_noop(
                self@ as int,
                ((word_modulus() - other@) as int) % (word_modulus() as int),
                word_modulus() as int,
            );
            lemma_add_mod_noop(self@ as int, (word_modulus() - other@) as int, word_modulus() as int);
            lemma_small_mod(self@, word_modulus());
            lemma_mod_bound(((word_modulus() - other@) as int), word_modulus() as int);
        }
        r
    }

    /// Bitwise and, limb by limb.
    pub fn bitand(&self, other: &Word) -> (r: Word)
        ensures
            r == and_words(*self, *other),
    {
        Word {
            l0: self.l0 & other.l0,
            l1: self.l1 & other.l1,
            l2: self.l2 & other.l2,
            l3: self.l3 & other.l3,
        }
    }

    /// Bitwise or, limb by limb.
    pub fn bitor(&self, other: &Word) -> (r: Word)
        ensures
            r == or_words(*self, *other),
    {
        Word {
            l0: self.l0 | other.l0,
            l1: self.l1 | other.l1,
            l2: self.l2 | other.l2,
            l3: self.l3 | other.l3,
        }
    }

    /// Bitwise exclusive or, limb by limb.
    pub fn bitxor(&self, other: &Word) -> (r: Word)
        ensures
            r == xor_words(*self, *other),
    {
        Word {
            l0: self.l0 ^ other.l0,
            l1: self.l1 ^ other.l1,
            l2: self.l2 ^ other.l2,
            l3: self.l3 ^ other.l3,
        }
    }

    /// Unsigned comparison.
    pub fn lt(&self, other: &Word) -> (r: bool)
        ensures
            r == (self@ < other@),
    {
        if self.l3 != other.l3 {
            self.l3 < other.l3
        } else if self.l2 != other.l2 {
            self.l2 < other.l2
        } else if self.l1 != other.l1 {
            self.l1 < other.l1
        } else {
            self.l0 < other.l0
        }
    }

    /// The value as a machine integer, for words known to be small.
    pub fn to_u64(&self) -> (r: u64)
        requires
            self@ <= u64::MAX,
        ensures
            r == self@,
    {
        self.l0
    }

    /// Test for zero.
    pub fn is_zero(&self) -> (r: bool)
        ensures
            r == (self@ == 0),
    {
        self.l0 == 0 && self.l1 == 0 && self.l2 == 0 && self.l3 == 0
    }
}

/// Adding a word and then subtracting it again returns to the start:
/// wrapping addition and subtraction are inverse modulo 2^256, and
/// wrapping multiplication is by definition the product modulo 2^256.
pub proof fn lemma_add_then_sub(a: nat, b: nat)
    requires
        a < word_modulus(),
        b < word_modulus(),
    ensures
        wrap_sub(wrap_add(a, b), b) == a,
        wrap_mul(a, b) == (a * b) % word_modulus(),
{
    let m = word_modulus() as int;
    lemma_small_mod(a, word_modulus());
    lemma_mod_multiples_vanish(1, a as int, m);
    if b == 0 {
        lemma_small_mod((a + b) as nat, word_modulus());
        lemma_mod_multiples_vanish(1, ((a + b) % word_modulus()) as int, m);
    } else {
        lemma_small_mod((word_modulus() - b) as nat, word_modulus());
        lemma_add_mod_noop((a + b) as int, (word_modulus() - b) as int, m);
    }
}

/// The involution and identity laws of the bitwise operations: double
/// complement is the identity; a word exclusive-or'd with itself is
/// zero; and with all ones, or or with zero, give the word back.
pub proof fn lemma_bitwise_identities(a: Word)
    ensures
        not_word(not_word(a)) == a,
        xor_words(a, a)@ == 0,
        and_words(a, (Word { l0: u64::MAX, l1: u64::MAX, l2: u64::MAX, l3: u64::MAX })) == a,
        or_words(a, (Word { l0: 0, l1: 0, l2: 0, l3: 0 })) == a,
{
    lemma_u64_bit_identities();
}

/// The limb-level bitwise identities behind `lemma_bitwise_identities`.
proof fn lemma_u64_bit_identities()
    by (bit_vector)
    ensures
        forall|x: u64| #[trigger] (!(!x)) == x,
        forall|x: u64| #[trigger] (x ^ x) == 0,
        forall|x: u64| #[trigger] (x & 0xffff_ffff_ffff_ffffu64) == x,
        forall|x: u64| #[trigger] (x | 0u64) == x,
{
}

/// Complementing a limb subtracts it from the all-ones limb.
proof fn lemma_u64_not(x: u64)
    ensures
        !x == u64::MAX - x,
{
    assert(!x == 0xffff_ffff_ffff_ffffu64 - x) by (bit_vector);
}

/// Bit `i` of the natural number `n` (bit 0 is least significant).
pub open spec fn bit_of(n: nat, i: nat) -> bool {
    (n / pow2(i)) % 2 == 1
}

/// Bits below position `c` of `lo + 2^c * hi` are the bits of `lo`.
proof fn lemma_bit_low(lo: nat, hi: nat, c: nat, j: nat)
    requires
        lo < pow2(c),
        j < c,
    ensures
        bit_of(lo + pow2(c) * hi, j) == bit_of(lo, j),
{
    lemma_pow2_pos(j);
    lemma_pow2_pos(c);
    lemma_pow2_adds(j, (c - j) as nat);
    let k = pow2((c - j) as nat) * hi;
    assert(pow2(c) * hi == pow2(j) * k) by {
        lemma_mul_is_associative(pow2(j) as int, pow2((c - j) as nat) as int, hi as int);
    }
    assert((lo + pow2(c) * hi) as int / (pow2(j) as int) == lo / pow2(j) + k) by {
        lemma_mul_is_commutative(k as int, pow2(j) as int);
        lemma_hoist_over_denominator(lo as int, k as int, pow2(j));
    }
    assert((lo / pow2(j) + k) % 2 == (lo / pow2(j)) % 2) by {
        lemma_pow2_unfold((c - j) as nat);
        lemma_mul_is_associative(2, pow2((c - j - 1) as nat) as int, hi as int);
        lemma_mod_multiples_vanish(
            (pow2((c - j - 1) as nat) * hi) as int,
            (lo / pow2(j)) as int,
            2,
        );
    }
}

/// Bits at and above position `c` of `lo + 2^c * hi` are the bits of `hi`.
proof fn lemma_bit_high(lo: nat, hi: nat, c: nat, j: nat)
    requires
        lo < pow2(c),
    ensures
        bit_of(lo + pow2(c) * hi, (c + j) as nat) == bit_of(hi, j),
{
    lemma_pow2_pos(c);
    lemma_pow2_pos(j);
    lemma_pow2_adds(c, j);
    let n = lo + pow2(c) * hi;
    assert(n / pow2(c) == hi) by {
        lemma_mul_is_commutative(pow2(c) as int, hi as int);
        lemma_fundamental_div_mod_converse(n as int, pow2(c) as int, hi as int, lo as int);
    }
    lemma_div_denominator(n as int, pow2(c) as int, pow2(j) as int);
}

/// Each bit of a word is the corresponding bit of one of its limbs.
pub proof fn lemma_word_bit(w: Word, i: nat)
    requires
        i < 256,
    ensures
        i < 64 ==> bit_of(w@, i) == bit_of(w.l0 as nat, i),
        64 <= i < 128 ==> bit_of(w@, i) == bit_of(w.l1 as nat, (i - 64) as nat),
        128 <= i < 192 ==> bit_of(w@, i) == bit_of(w.l2 as nat, (i - 128) as nat),
        192 <= i ==> bit_of(w@, i) == bit_of(w.l3 as nat, (i - 192) as nat),
{
    lemma_limb_bases();
    lemma_pow2_adds(64, 64);
    if i < 64 {
        let hi = (w.l1 + w.l2 * limb_base() + w.l3 * limb_base2()) as nat;
        assert(w@ == w.l0 + pow2(64) * hi);
        lemma_bit_low(w.l0 as nat, hi, 64, i);
    } else if i < 128 {
        let hi = (w.l1 + w.l2 * limb_base() + w.l3 * limb_base2()) as nat;
        assert(w@ == w.l0 + pow2(64) * hi);
        lemma_bit_high(w.l0 as nat, hi, 64, (i - 64) as nat);
        let hi2 = (w.l2 + w.l3 * limb_base()) as nat;
        assert(hi == w.l1 + pow2(64) * hi2);
        lemma_bit_low(w.l1 as nat, hi2, 64, (i - 64) as nat);
    } else if i < 192 {
        let lo = (w.l0 + w.l1 * limb_base()) as nat;
        let hi = (w.l2 + w.l3 * limb_base()) as nat;
        assert(w@ == lo + pow2(128) * hi);
        lemma_bit_high(lo, hi, 128, (i - 128) as nat);
        lemma_bit_low(w.l2 as nat, w.l3 as nat, 64, (i - 128) as nat);
    } else {
        let lo = (w.l0 + w.l1 * limb_base() + w.l2 * limb_base2()) as nat;
        assert(w@ == lo + pow2(192) * w.l3);
        lemma_bit_high(lo, w.l3 as nat, 192, (i - 192) as nat);
    }
}

/// Doubling a reduced multiple of `a` steps the power of two along.
pub proof fn lemma_double_mod(a: nat, j: nat, r: nat, m: nat)
    requires
        m > 0,
        r == (a * pow2(j)) % m,
    ensures
        (r + r) % m == (a * pow2((j + 1) as nat)) % m,
{
    let m = m as int;
    lemma_mul_mod_noop_right(2, (a * pow2(j)) as int, m);
    assert(a * pow2((j + 1) as nat) == 2 * (a * pow2(j))) by {
        lemma_pow2_unfold((j + 1) as nat);
        lemma_mul_is_commutative(a as int, (2 * pow2(j)) as int);
        lemma_mul_is_associative(2, pow2(j) as int, a as int);
        lemma_mul_is_commutative(pow2(j) as int, a as int);
    }
}

/// One step of binary multiplication: folding in bit `i` of `b` extends
/// the product from the low `i` bits of `b` to its low `i + 1` bits.
pub proof fn lemma_mul_bit_step(a: nat, b: nat, i: nat, r: nat, acc: nat, m: nat)
    requires
        m > 0,
        r == (a * (b % pow2(i))) % m,
        acc == (a * pow2(i)) % m,
    ensures
        bit_of(b, i) ==> (r + acc) % m == (a * (b % pow2((i + 1) as nat))) % m,
        !bit_of(b, i) ==> r == (a * (b % pow2((i + 1) as nat))) % m,
{
    let m = m as int;
    let bi = b as int;
    let pi = pow2(i) as int;
    lemma_pow2_pos(i);
    assert(bi % (pow2((i + 1) as nat) as int) == pi * ((bi / pi) % 2) + bi % pi) by {
        lemma_pow2_unfold((i + 1) as nat);
        lemma_mul_is_commutative(pi, 2);
        lemma_breakdown(bi, pi, 2);
    }
    if bit_of(b, i) {
        assert(b % pow2((i + 1) as nat) == b % pow2(i) + pow2(i));
        lemma_mul_is_distributive_add(a as int, (b % pow2(i)) as int, pi);
        lemma_add_mod_noop((a * (b % pow2(i))) as int, (a * pow2(i)) as int, m);
    }
}

/// One step of binary long division, bringing bit `i - 1` of the
/// dividend `x` down into the running remainder.
proof fn lemma_div_bit_step(x: nat, d: nat, i: nat, q: nat, r: nat, b: nat)
    requires
        d > 0,
        i >= 1,
        q == (x / pow2(i)) / d,
        r == (x / pow2(i)) % d,
        b == (x / pow2((i - 1) as nat)) % 2,
    ensures
        2 * r + b >= d ==> (x / pow2((i - 1) as nat)) / d == 2 * q + 1 && (x / pow2(
            (i - 1) as nat,
        )) % d == 2 * r + b - d,
        2 * r + b < d ==> (x / pow2((i - 1) as nat)) / d == 2 * q && (x / pow2((i - 1) as nat)) % d
            == 2 * r + b,
{
    let h = (x / pow2(i)) as int;
    let h2 = (x / pow2((i - 1) as nat)) as int;
    lemma_pow2_pos((i - 1) as nat);
    assert(h == h2 / 2) by {
        lemma_pow2_unfold(i);
        lemma_mul_is_commutative(pow2((i - 1) as nat) as int, 2);
        lemma_div_denominator(x as int, pow2((i - 1) as nat) as int, 2);
    }
    lemma_fundamental_div_mod(h2, 2);
    assert(h2 == 2 * h + b);
    lemma_fundamental_div_mod(h, d as int);
    lemma_mod_bound(h, d as int);
    let di = d as int;
    let qi = q as int;
    let ri = r as int;
    let bi = b as int;
    assert(h2 == 2 * (di * qi) + 2 * ri + bi);
    if 2 * r + b >= d {
        assert(h2 == (2 * qi + 1) * di + (2 * ri + bi - di)) by {
            lemma_mul_is_distributive_add(di, 2 * qi, 1);
            lemma_mul_is_associative(2, qi, di);
            lemma_mul_is_commutative(di, 2 * qi + 1);
            lemma_mul_is_commutative(di, qi);
        }
        lemma_fundamental_div_mod_converse(h2, di, 2 * qi + 1, 2 * ri + bi - di);
    } else {
        assert(h2 == (2 * qi) * di + (2 * ri + bi)) by {
            lemma_mul_is_associative(2, qi, di);
            lemma_mul_is_commutative(di, qi);
            lemma_mul_is_commutative(di, 2 * qi);
        }
        lemma_fundamental_div_mod_converse(h2, di, 2 * qi, 2 * ri + bi);
    }
}

impl Word {
    /// Test bit `i` (bit 0 is least significant).
    pub fn bit(&self, i: usize) -> (r: bool)
        requires
            i < 256,
        ensures
            r == bit_of(self@, i as nat),
    {
        let limb: u64 = if i < 64 {
            self.l0
        } else if i < 128 {
            self.l1
        } else if i < 192 {
            self.l2
        } else {
            self.l3
        };
        let sh: u64 = (i as u64) % 64;
        let b = (limb >> sh) & 1;
        proof {
            lemma_word_bit(*self, i as nat);
            lemma_u64_shr_is_div(limb, sh);
            let y = limb >> sh;
            assert(y & 1 == y % 2) by (bit_vector);
            assert(y == limb as nat / pow2(sh as nat));
            assert((b == 1) == bit_of(limb as nat, sh as nat));
            assert(bit_of(self@, i as nat) == bit_of(limb as nat, sh as nat));
        }
        b == 1
    }

    /// Shift left by `k` bits: the value is multiplied by 2^k, modulo 2^256.
    pub fn shl_bits(&self, k: usize) -> (r: Word)
        requires
            k <= 256,
        ensures
            r@ == (self@ * pow2(k as nat)) % word_modulus(),
    {
        let mut r = *self;
        let mut j: usize = 0;
        proof {
            lemma2_to64();
            lemma_small_mod(self@, word_modulus());
        }
        while j < k
            invariant
                j <= k,
                r@ == (self@ * pow2(j as nat)) % word_modulus(),
            decreases k - j,
        {
            proof {
                lemma_double_mod(self@, j as nat, r@, word_modulus());
            }
            r = r.wrapping_add(&r);
            j += 1;
        }
        r
    }

    /// The word denoting 2^k.
    pub fn pow2_word(k: usize) -> (r: Word)
        requires
            k < 256,
        ensures
            r@ == pow2(k as nat),
    {
        let r = Word::one().shl_bits(k);
        proof {
            lemma_limb_bases();
            lemma_pow2_strictly_increases(k as nat, 256);
            lemma_small_mod(pow2(k as nat), word_modulus());
        }
        r
    }

    /// Product modulo 2^256, by binary expansion of the right factor.
    pub fn wrapping_mul(&self, other: &Word) -> (r: Word)
        ensures
            r@ == wrap_mul(self@, other@),
    {
        let mut r = Word::zero();
        let mut acc = *self;
        let mut i: usize = 0;
        proof {
            lemma2_to64();
            lemma_small_mod(self@, word_modulus());
            lemma_small_mod(0, word_modulus());
            assert(other@ % pow2(0) == 0) by {
                lemma_mod_bound(other@ as int, 1);
            }
            assert((self@ * 0) % word_modulus() == 0);
        }
        while i < 256
            invariant
                i <= 256,
                acc@ == (self@ * pow2(i as nat)) % word_modulus(),
                r@ == (self@ * (other@ % pow2(i as nat))) % word_modulus(),
            decreases 256 - i,
        {
            proof {
                lemma_mul_bit_step(self@, other@, i as nat, r@, acc@, word_modulus());
                lemma_double_mod(self@, i as nat, acc@, word_modulus());
            }
            if other.bit(i) {
                r = r.wrapping_add(&acc);
            }
            acc = acc.wrapping_add(&acc);
            i += 1;
        }
        proof {
            lemma_limb_bases();
            lemma_small_mod(other@, word_modulus());
        }
        r
    }

    /// Euclidean quotient and remainder, by binary long division.
    pub fn div_rem(&self, d: &Word) -> (res: (Word, Word))
        requires
            d@ != 0,
        ensures
            res.0@ == self@ / d@,
            res.1@ == self@ % d@,
    {
        let mut q = Word::zero();
        let mut r = Word::zero();
        let mut i: usize = 256;
        proof {
            lemma_limb_bases();
            lemma_basic_div(self@ as int, word_modulus() as int);
            lemma_div_of0(d@ as int);
            lemma_small_mod(0, d@);
        }
        while i > 0
            invariant
                d@ != 0,
                i <= 256,
                q@ == (self@ / pow2(i as nat)) / d@,
                r@ == (self@ / pow2(i as nat)) % d@,
                r@ < d@,
            decreases i,
        {
            let ghost q0 = q@;
            let ghost r0 = r@;
            let b = self.bit(i - 1);
            let ghost bb: nat = if b {
                1
            } else {
                0
            };
            let (r2, c) = r.overflowing_add(&r);
            let (r3, c2) = if b {
                r2.overflowing_add(&Word::one())
            } else {
                (r2, false)
            };
            let overflow = c || c2;
            proof {
                lemma_div_bit_step(self@, d@, i as nat, q0, r0, bb);
                lemma_pow2_pos((i - 1) as nat);
                lemma_div_nonincreasing(self@ as int, pow2((i - 1) as nat) as int);
                lemma_div_nonincreasing((self@ / pow2((i - 1) as nat)) as int, d@ as int);
                lemma_small_mod((word_modulus() - d@) as nat, word_modulus());
            }
            let qbit: bool;
            let r4: Word;
            if overflow {
                r4 = r3.wrapping_add(&d.negate());
                qbit = true;
                proof {
                    lemma_small_mod((r3@ + word_modulus() - d@) as nat, word_modulus());
                }
            } else if !r3.lt(d) {
                r4 = r3.wrapping_sub(d);
                qbit = true;
                proof {
                    lemma_mod_multiples_vanish(1, (r3@ - d@) as int, word_modulus() as int);
                    lemma_small_mod((r3@ - d@) as nat, word_modulus());
                }
            } else {
                r4 = r3;
                qbit = false;
            }
            let q2 = q.wrapping_add(&q);
            let q3 = if qbit {
                q2.wrapping_add(&Word::one())
            } else {
                q2
            };
            proof {
                lemma_small_mod((q0 + q0) as nat, word_modulus());
                lemma_small_mod((q0 + q0 + 1) as nat, word_modulus());
            }
            q = q3;
            r = r4;
            i -= 1;
        }
        proof {
            lemma2_to64();
            lemma_div_basics(self@ as int);
        }
        (q, r)
    }

    /// Logical shift right by `k` bits: the value is divided by 2^k.
    pub fn shr_bits(&self, k: usize) -> (r: Word)
        requires
            k < 256,
        ensures
            r@ == self@ / pow2(k as nat),
    {
        let p = Word::pow2_word(k);
        proof {
            lemma_pow2_pos(k as nat);
        }
        let res = self.div_rem(&p);
        res.0
    }

    /// The 32 bytes of the word, most significant first.
    pub fn to_big_endian(&self) -> (r: Vec<u8>)
        ensures
            r@.len() == 32,
            be_val(r@) == self@,
    {
        let mut r: Vec<u8> = Vec::with_capacity(32);
        let byte_div = Word::from_u64(256);
        let mut j: usize = 0;
        proof {
            lemma_limb_bases();
            lemma_basic_div(self@ as int, word_modulus() as int);
            assert(r@ =~= Seq::<u8>::empty());
        }
        #[verifier::loop_isolation(false)]
        while j < 32
            invariant
                r@.len() == j,
                j <= 32,
                be_val(r@) == self@ / pow2((8 * (32 - j)) as nat),
            decreases 32 - j,
        {
            let ghost r0 = r@;
            let sh: usize = 8 * (31 - j);
            let q = self.shr_bits(sh);
            let b = q.div_rem(&byte_div).1;
            proof {
                let x = self@;
                let xj = (x / pow2((8 * (31 - j)) as nat)) as int;
                lemma2_to64();
                lemma_pow2_pos((8 * (31 - j)) as nat);
                lemma_pow2_adds((8 * (31 - j)) as nat, 8);
                lemma_div_denominator(x as int, pow2((8 * (31 - j)) as nat) as int, 256);
                lemma_fundamental_div_mod(xj, 256);
                lemma_mod_bound(xj, 256);
            }
            let byte = b.to_u64() as u8;
            r.push(byte);
            proof {
                assert(r@.drop_last() =~= r0);
                assert(be_val(r@) == be_val(r0) * 256 + byte);
            }
            j += 1;
        }
        proof {
            lemma2_to64();
            lemma_div_basics(self@ as int);
        }
        r
    }
}

} // verus!
