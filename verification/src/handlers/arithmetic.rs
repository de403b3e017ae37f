//! The arithmetic, comparison and bitwise opcodes: each pops its
//! operands from the top of the stack and pushes one result word.  The
//! exact value of every result is given by the `*_val` functions below,
//! over the mathematical values of the operands.

use crate::error::EvmError;
use crate::opcodes;
use crate::stack::Stack;
use crate::word::{
    and_words, bit_of, lemma_double_mod, lemma_limb_bases, lemma_mul_bit_step, not_word, or_words,
    word_modulus, word_of, wrap_add, wrap_mul, wrap_sub, xor_words, Word,
};
use vstd::prelude::*;
use vstd::arithmetic::div_mod::{
    lemma_add_mod_noop, lemma_basic_div, lemma_breakdown, lemma_div_nonincreasing,
    lemma_fundamental_div_mod, lemma_fundamental_div_mod_converse, lemma_mod_bound,
    lemma_mod_multiples_vanish, lemma_mod_sub_multiples_vanish, lemma_mul_mod_noop_general,
    lemma_small_mod,
};
use vstd::arithmetic::mul::lemma_mul_is_commutative;
use vstd::arithmetic::power::{lemma_pow0, lemma_pow1, lemma_pow_adds, pow};
use vstd::arithmetic::power2::{lemma2_to64, lemma_pow2_adds, lemma_pow2_pos, lemma_pow2_unfold, pow2};

verus! {

/// 2^255: a word at or above this bound is negative when read as
/// two's-complement.
pub open spec fn sign_bound() -> nat {
    0x8000_0000_0000_0000_0000_0000_0000_0000_0000_0000_0000_0000_0000_0000_0000_0000nat
}

/// Is the value negative under the two's-complement reading?
pub open spec fn is_neg(a: nat) -> bool {
    a >= sign_bound()
}

/// The signed integer a word value denotes: bit 255 is the sign bit.
pub open spec fn to_signed(a: nat) -> int {
    if is_neg(a) {
        a - word_modulus()
    } else {
        a as int
    }
}

/// Two's-complement negation on values below 2^256.
pub open spec fn negate_val(a: nat) -> nat {
    if a == 0 {
        0nat
    } else {
        (word_modulus() - a) as nat
    }
}

/// The magnitude of the signed value a word denotes.
pub open spec fn abs_val(a: nat) -> nat {
    if is_neg(a) {
        negate_val(a)
    } else {
        a
    }
}

/// DIV: the quotient, or zero for a zero divisor.
pub open spec fn div_val(a: nat, b: nat) -> nat {
    if b == 0 {
        0nat
    } else {
        a / b
    }
}

/// MOD: the remainder, or zero for a zero divisor.
pub open spec fn mod_val(a: nat, b: nat) -> nat {
    if b == 0 {
        0nat
    } else {
        a % b
    }
}

/// SDIV: signed quotient truncated toward zero; the sign of the result
/// is the exclusive or of the operand signs; zero for a zero divisor.
pub open spec fn sdiv_val(a: nat, b: nat) -> nat {
    if b == 0 {
        0nat
    } else if is_neg(a) != is_neg(b) {
        negate_val(abs_val(a) / abs_val(b))
    } else {
        abs_val(a) / abs_val(b)
    }
}

/// SMOD: signed remainder with the sign of the dividend; zero for a
/// zero divisor.
pub open spec fn smod_val(a: nat, b: nat) -> nat {
    if b == 0 {
        0nat
    } else if is_neg(a) {
        negate_val(abs_val(a) % abs_val(b))
    } else {
        abs_val(a) % abs_val(b)
    }
}

/// ADDMOD: the exact sum reduced modulo `n`, or zero when `n` is zero.
pub open spec fn addmod_val(a: nat, b: nat, n: nat) -> nat {
    if n == 0 {
        0nat
    } else {
        (a + b) % n
    }
}

/// MULMOD: the exact product reduced modulo `n`, or zero when `n` is zero.
pub open spec fn mulmod_val(a: nat, b: nat, n: nat) -> nat {
    if n == 0 {
        0nat
    } else {
        (a * b) % n
    }
}

/// EXP: base to the power exponent, modulo 2^256.
pub open spec fn exp_val(b: nat, e: nat) -> nat {
    (pow(b as int, e) % (word_modulus() as int)) as nat
}

/// SIGNEXTEND: extend the sign bit of the low `b + 1` bytes of `x`
/// across the whole word; the identity for `b` of 32 or more.
pub open spec fn signext_val(b: nat, x: nat) -> nat {
    if b >= 32 {
        x
    } else {
        let m = pow2((8 * (b + 1)) as nat);
        let low = x % m;
        if low >= pow2((8 * b + 7) as nat) {
            ((low + word_modulus()) - m) as nat
        } else {
            low
        }
    }
}

/// BYTE: byte `i` of `x`, counting the most significant byte as 0;
/// zero for `i` of 32 or more.
pub open spec fn byte_val(i: nat, x: nat) -> nat {
    if i >= 32 {
        0nat
    } else {
        (x / pow2((8 * (31 - i)) as nat)) % 256
    }
}

/// SHL: the value shifted left, modulo 2^256; zero for shifts of 256
/// or more.
pub open spec fn shl_val(s: nat, v: nat) -> nat {
    if s >= 256 {
        0nat
    } else {
        (v * pow2(s)) % word_modulus()
    }
}

/// SHR: the value shifted right logically; zero for shifts of 256 or
/// more.
pub open spec fn shr_val(s: nat, v: nat) -> nat {
    if s >= 256 {
        0nat
    } else {
        v / pow2(s)
    }
}

/// SAR: the value shifted right arithmetically; for shifts of 256 or
/// more, all ones when the value is negative, else zero.
pub open spec fn sar_val(s: nat, v: nat) -> nat {
    if s >= 256 {
        if is_neg(v) {
            (word_modulus() - 1) as nat
        } else {
            0nat
        }
    } else if is_neg(v) {
        ((word_modulus() - 1) - ((word_modulus() - 1 - v) as nat / pow2(s))) as nat
    } else {
        v / pow2(s)
    }
}

/// 1 for a true comparison, 0 for a false one.
pub open spec fn bool_word(c: bool) -> nat {
    if c {
        1nat
    } else {
        0nat
    }
}

/// Does the byte name an opcode this handler implements?
pub open spec fn is_arith_opcode(op: u8) -> bool {
    ||| op == opcodes::ADD
    ||| op == opcodes::MUL
    ||| op == opcodes::SUB
    ||| op == opcodes::DIV
    ||| op == opcodes::SDIV
    ||| op == opcodes::MOD
    ||| op == opcodes::SMOD
    ||| op == opcodes::ADDMOD
    ||| op == opcodes::MULMOD
    ||| op == opcodes::EXP
    ||| op == opcodes::SIGNEXTEND
    ||| op == opcodes::LT
    ||| op == opcodes::GT
    ||| op == opcodes::SLT
    ||| op == opcodes::SGT
    ||| op == opcodes::EQ
    ||| op == opcodes::ISZERO
    ||| op == opcodes::AND
    ||| op == opcodes::OR
    ||| op == opcodes::XOR
    ||| op == opcodes::NOT
    ||| op == opcodes::BYTE
    ||| op == opcodes::SHL
    ||| op == opcodes::SHR
    ||| op == opcodes::SAR
}

/// How many operands the opcode pops.
pub open spec fn arith_arity(op: u8) -> nat {
    if op == opcodes::ISZERO || op == opcodes::NOT {
        1nat
    } else if op == opcodes::ADDMOD || op == opcodes::MULMOD {
        3nat
    } else {
        2nat
    }
}

/// The value pushed by the opcode, from the operands in pop order:
/// `a` was the top of the stack, then `b`, then `c`.
pub open spec fn arith_value(op: u8, a: Word, b: Word, c: Word) -> nat {
    if op == opcodes::ADD {
        wrap_add(a@, b@)
    } else if op == opcodes::MUL {
        wrap_mul(a@, b@)
    } else if op == opcodes::SUB {
        wrap_sub(a@, b@)
    } else if op == opcodes::DIV {
        div_val(a@, b@)
    } else if op == opcodes::SDIV {
        sdiv_val(a@, b@)
    } else if op == opcodes::MOD {
        mod_val(a@, b@)
    } else if op == opcodes::SMOD {
        smod_val(a@, b@)
    } else if op == opcodes::ADDMOD {
        addmod_val(a@, b@, c@)
    } else if op == opcodes::MULMOD {
        mulmod_val(a@, b@, c@)
    } else if op == opcodes::EXP {
        exp_val(a@, b@)
    } else if op == opcodes::SIGNEXTEND {
        signext_val(a@, b@)
    } else if op == opcodes::LT {
        bool_word(a@ < b@)
    } else if op == opcodes::GT {
        bool_word(b@ < a@)
    } else if op == opcodes::SLT {
        bool_word(to_signed(a@) < to_signed(b@))
    } else if op == opcodes::SGT {
        bool_word(to_signed(b@) < to_signed(a@))
    } else if op == opcodes::EQ {
        bool_word(a@ == b@)
    } else if op == opcodes::ISZERO {
        bool_word(a@ == 0)
    } else if op == opcodes::AND {
        and_words(a, b)@
    } else if op == opcodes::OR {
        or_words(a, b)@
    } else if op == opcodes::XOR {
        xor_words(a, b)@
    } else if op == opcodes::NOT {
        not_word(a)@
    } else if op == opcodes::BYTE {
        byte_val(a@, b@)
    } else if op == opcodes::SHL {
        shl_val(a@, b@)
    } else if op == opcodes::SHR {
        shr_val(a@, b@)
    } else {
        sar_val(a@, b@)
    }
}

/// The stack after the opcode: the operands replaced by the result word.
pub open spec fn arith_stack(op: u8, s: Seq<Word>) -> Seq<Word> {
    let k = arith_arity(op);
    let a = s[s.len() - 1];
    let b = if k >= 2 {
        s[s.len() - 2]
    } else {
        a
    };
    let c = if k >= 3 {
        s[s.len() - 3]
    } else {
        a
    };
    s.take(s.len() - k).push(word_of(arith_value(op, a, b, c)))
}

/// Division and remainder, signed or unsigned, and the modular sum and
/// product all yield zero when the divisor or the modulus is zero.
pub proof fn lemma_zero_divisor_yields_zero(a: nat, b: nat)
    ensures
        div_val(a, 0) == 0,
        mod_val(a, 0) == 0,
        sdiv_val(a, 0) == 0,
        smod_val(a, 0) == 0,
        addmod_val(a, b, 0) == 0,
        mulmod_val(a, b, 0) == 0,
{
}

/// A shift of 256 or more clears the word under SHL and SHR; under SAR
/// it leaves all ones for a negative value and zero otherwise.
pub proof fn lemma_shift_saturates(s: nat, v: nat)
    requires
        s >= 256,
    ensures
        shl_val(s, v) == 0,
        shr_val(s, v) == 0,
        is_neg(v) ==> sar_val(s, v) == word_modulus() - 1,
        !is_neg(v) ==> sar_val(s, v) == 0,
{
}

/// For shifts below 256, SAR computes the floor of the signed value
/// divided by 2^s: Euclidean division of an integer by a positive
/// divisor is floor division.
pub proof fn lemma_sar_is_signed_div(s: nat, v: nat)
    requires
        s < 256,
        v < word_modulus(),
    ensures
        to_signed(sar_val(s, v)) == to_signed(v) / (pow2(s) as int),
{
    let m = word_modulus() as int;
    let p = pow2(s) as int;
    lemma_pow2_pos(s);
    if is_neg(v) {
        let u = (word_modulus() - 1 - v) as nat;
        lemma_fundamental_div_mod(u as int, p);
        lemma_mod_bound(u as int, p);
        lemma_div_nonincreasing(u as int, p);
        let k = u as int / p;
        assert((-1 - k) * p == -p - k * p) by (nonlinear_arith);
        assert(k * p == p * k) by (nonlinear_arith);
        lemma_fundamental_div_mod_converse(v - m, p, -1 - k, p - 1 - (u as int % p));
    } else {
        lemma_div_nonincreasing(v as int, p);
    }
}

/// SIGNEXTEND with a byte index of 32 or more is the identity.
pub proof fn lemma_signextend_identity(b: nat, x: nat)
    requires
        b >= 32,
    ensures
        signext_val(b, x) == x,
{
}

/// Does the byte name an opcode this handler implements?  The handled
/// opcodes fill two contiguous ranges.
pub fn is_arithmetic_opcode(op: u8) -> (r: bool)
    ensures
        r == is_arith_opcode(op),
{
    (opcodes::ADD <= op && op <= opcodes::SIGNEXTEND) || (opcodes::LT <= op && op <= opcodes::SAR)
}

/// `StackUnderflow` unless the stack holds at least `required` entries.
fn ensure_stack_size(stack: &Stack, required: usize) -> (r: Result<(), EvmError>)
    ensures
        stack@.len() >= required ==> r == Ok::<(), EvmError>(()),
        stack@.len() < required ==> r == Err::<(), EvmError>(EvmError::StackUnderflow),
{
    if stack.len() < required {
        return Err(EvmError::StackUnderflow);
    }
    Ok(())
}

/// Is the word negative under the two's-complement reading (bit 255 set)?
fn is_negative(value: &Word) -> (r: bool)
    ensures
        r == is_neg(value@),
{
    let b = value.bit(255);
    proof {
        lemma_limb_bases();
        lemma_pow2_adds(192, 63);
        lemma2_to64();
        vstd::arithmetic::power2::lemma2_to64_rest();
        if value@ >= sign_bound() {
            lemma_fundamental_div_mod_converse(
                value@ as int,
                pow2(255) as int,
                1,
                (value@ - sign_bound()) as int,
            );
        } else {
            lemma_basic_div(value@ as int, pow2(255) as int);
        }
    }
    b
}

/// Two's-complement negation: `(!x) + 1` with wrap-around.
fn negate(value: &Word) -> (r: Word)
    ensures
        r@ == negate_val(value@),
{
    let r = value.negate();
    proof {
        if value@ == 0 {
            lemma_mod_multiples_vanish(1, 0, word_modulus() as int);
        } else {
            lemma_small_mod((word_modulus() - value@) as nat, word_modulus());
        }
    }
    r
}

/// Signed quotient: sign from the exclusive or of the operand signs,
/// magnitude from the unsigned quotient of the magnitudes.
fn signed_div(a: &Word, b: &Word) -> (r: Word)
    requires
        b@ != 0,
    ensures
        r@ == sdiv_val(a@, b@),
{
    let a_neg = is_negative(a);
    let b_neg = is_negative(b);
    let a_abs = if a_neg {
        negate(a)
    } else {
        *a
    };
    let b_abs = if b_neg {
        negate(b)
    } else {
        *b
    };
    let res = a_abs.div_rem(&b_abs);
    if a_neg != b_neg {
        negate(&res.0)
    } else {
        res.0
    }
}

/// Signed remainder: the sign of the dividend, the magnitude of the
/// unsigned remainder of the magnitudes.
fn signed_mod(a: &Word, b: &Word) -> (r: Word)
    requires
        b@ != 0,
    ensures
        r@ == smod_val(a@, b@),
{
    let a_neg = is_negative(a);
    let b_neg = is_negative(b);
    let a_abs = if a_neg {
        negate(a)
    } else {
        *a
    };
    let b_abs = if b_neg {
        negate(b)
    } else {
        *b
    };
    let res = a_abs.div_rem(&b_abs);
    if a_neg {
        negate(&res.1)
    } else {
        res.1
    }
}

/// Signed comparison: a negative word is below any non-negative one;
/// words of one sign compare as their unsigned values.
fn signed_lt(a: &Word, b: &Word) -> (r: bool)
    ensures
        r == (to_signed(a@) < to_signed(b@)),
{
    let a_neg = is_negative(a);
    let b_neg = is_negative(b);
    if a_neg && !b_neg {
        true
    } else if !a_neg && b_neg {
        false
    } else {
        a.lt(b)
    }
}

/// Arithmetic shift right: the sign bit is copied into the vacated
/// positions; a shift of 256 or more leaves all ones or all zeroes.
fn signed_shr(value: &Word, shift: &Word) -> (r: Word)
    ensures
        r@ == sar_val(shift@, value@),
{
    if !shift.lt(&Word::from_u64(256)) {
        if is_negative(value) {
            Word::max_word()
        } else {
            Word::zero()
        }
    } else {
        let k = shift.to_u64() as usize;
        if is_negative(value) {
            value.bitnot().shr_bits(k).bitnot()
        } else {
            value.shr_bits(k)
        }
    }
}

/// The exact sum of `a` and `b` reduced modulo `n`, handling the wrap
/// of the 257-bit intermediate sum.
fn addmod_words(a: &Word, b: &Word, n: &Word) -> (r: Word)
    requires
        n@ != 0,
    ensures
        r@ == (a@ + b@) % n@,
{
    let ra = a.div_rem(n).1;
    let rb = b.div_rem(n).1;
    proof {
        lemma_add_mod_noop(a@ as int, b@ as int, n@ as int);
        lemma_mod_bound(a@ as int, n@ as int);
        lemma_mod_bound(b@ as int, n@ as int);
    }
    let (s, carry) = ra.overflowing_add(&rb);
    if carry {
        let r = s.wrapping_add(&n.negate());
        proof {
            lemma_small_mod((word_modulus() - n@) as nat, word_modulus());
            lemma_small_mod((s@ + (word_modulus() - n@)) as nat, word_modulus());
            lemma_mod_sub_multiples_vanish((ra@ + rb@) as int, n@ as int);
            lemma_small_mod((ra@ + rb@ - n@) as nat, n@);
        }
        r
    } else if !s.lt(n) {
        let r = s.wrapping_sub(n);
        proof {
            lemma_mod_multiples_vanish(1, (s@ - n@) as int, word_modulus() as int);
            lemma_small_mod((s@ - n@) as nat, word_modulus());
            lemma_mod_sub_multiples_vanish((ra@ + rb@) as int, n@ as int);
            lemma_small_mod((ra@ + rb@ - n@) as nat, n@);
        }
        r
    } else {
        proof {
            lemma_small_mod((ra@ + rb@) as nat, n@);
        }
        s
    }
}

/// The exact 512-bit product of `a` and `b` reduced modulo `n`, by
/// binary expansion of `b` with a reduced accumulator.
fn mulmod_words(a: &Word, b: &Word, n: &Word) -> (r: Word)
    requires
        n@ != 0,
    ensures
        r@ == (a@ * b@) % n@,
{
    let mut result = Word::zero();
    let mut acc = a.div_rem(n).1;
    let mut i: usize = 0;
    proof {
        lemma2_to64();
        lemma_small_mod(0, n@);
        assert(b@ % pow2(0) == 0) by {
            lemma_mod_bound(b@ as int, 1);
        }
        assert((a@ * 0) % n@ == 0);
    }
    while i < 256
        invariant
            n@ != 0,
            i <= 256,
            acc@ == (a@ * pow2(i as nat)) % n@,
            result@ == (a@ * (b@ % pow2(i as nat))) % n@,
        decreases 256 - i,
    {
        proof {
            lemma_mul_bit_step(a@, b@, i as nat, result@, acc@, n@);
            lemma_double_mod(a@, i as nat, acc@, n@);
        }
        if b.bit(i) {
            result = addmod_words(&result, &acc, n);
        }
        acc = addmod_words(&acc, &acc, n);
        i += 1;
    }
    proof {
        lemma_limb_bases();
        lemma_small_mod(b@, word_modulus());
    }
    result
}

/// One step of square-and-multiply: folding in bit `i` of the exponent
/// extends the power from the low `i` bits to the low `i + 1` bits.
proof fn lemma_exp_bit_step(b: nat, e: nat, i: nat, r: nat, sq: nat)
    requires
        r == pow(b as int, (e % pow2(i)) as nat) % (word_modulus() as int),
        sq == pow(b as int, pow2(i)) % (word_modulus() as int),
    ensures
        bit_of(e, i) ==> (r * sq) % word_modulus() == pow(
            b as int,
            (e % pow2((i + 1) as nat)) as nat,
        ) % (word_modulus() as int),
        !bit_of(e, i) ==> r == pow(b as int, (e % pow2((i + 1) as nat)) as nat) % (
        word_modulus() as int),
        (sq * sq) % word_modulus() == pow(b as int, pow2((i + 1) as nat)) % (word_modulus() as int),
{
    let m = word_modulus() as int;
    let bi = b as int;
    let ei = e as int;
    let pi = pow2(i) as int;
    lemma_pow2_pos(i);
    assert(ei % (pow2((i + 1) as nat) as int) == pi * ((ei / pi) % 2) + ei % pi) by {
        lemma_pow2_unfold((i + 1) as nat);
        lemma_mul_is_commutative(pi, 2);
        lemma_breakdown(ei, pi, 2);
    }
    lemma_mul_mod_noop_general(pow(bi, pow2(i)), pow(bi, pow2(i)), m);
    lemma_pow_adds(bi, pow2(i), pow2(i));
    lemma_pow2_unfold((i + 1) as nat);
    if bit_of(e, i) {
        assert(e % pow2((i + 1) as nat) == e % pow2(i) + pow2(i));
        lemma_mul_mod_noop_general(pow(bi, (e % pow2(i)) as nat), pow(bi, pow2(i)), m);
        lemma_pow_adds(bi, (e % pow2(i)) as nat, pow2(i));
    }
}

/// Base to the power exponent modulo 2^256, by square-and-multiply.
fn exp_by_squaring(base: &Word, exp: &Word) -> (r: Word)
    ensures
        r@ == exp_val(base@, exp@),
{
    let mut result = Word::one();
    let mut sq = *base;
    let mut i: usize = 0;
    proof {
        lemma2_to64();
        lemma_pow0(base@ as int);
        lemma_pow1(base@ as int);
        lemma_small_mod(1, word_modulus());
        lemma_small_mod(base@, word_modulus());
        assert(exp@ % pow2(0) == 0) by {
            lemma_mod_bound(exp@ as int, 1);
        }
    }
    while i < 256
        invariant
            i <= 256,
            result@ == pow(base@ as int, (exp@ % pow2(i as nat)) as nat) % (word_modulus() as int),
            sq@ == pow(base@ as int, pow2(i as nat)) % (word_modulus() as int),
        decreases 256 - i,
    {
        proof {
            lemma_exp_bit_step(base@, exp@, i as nat, result@, sq@);
        }
        if exp.bit(i) {
            result = result.wrapping_mul(&sq);
        }
        sq = sq.wrapping_mul(&sq);
        i += 1;
    }
    proof {
        lemma_limb_bases();
        lemma_small_mod(exp@, word_modulus());
    }
    result
}

/// Sign-extend `x` from the low `b + 1` bytes; the identity for `b` of
/// 32 or more.
fn signextend_words(b: &Word, x: &Word) -> (r: Word)
    ensures
        r@ == signext_val(b@, x@),
{
    if !b.lt(&Word::from_u64(32)) {
        return *x;
    }
    let bu = b.to_u64() as usize;
    if bu == 31 {
        proof {
            lemma_limb_bases();
            lemma_small_mod(x@, word_modulus());
        }
        return *x;
    }
    let bits: usize = 8 * (bu + 1);
    let m = Word::pow2_word(bits);
    let half = Word::pow2_word(bits - 1);
    proof {
        lemma_pow2_pos(bits as nat);
    }
    let low = x.div_rem(&m).1;
    proof {
        lemma_mod_bound(x@ as int, m@ as int);
    }
    if low.lt(&half) {
        low
    } else {
        let r = low.wrapping_add(&m.negate());
        proof {
            lemma_small_mod((word_modulus() - m@) as nat, word_modulus());
            lemma_small_mod((low@ + (word_modulus() - m@)) as nat, word_modulus());
        }
        r
    }
}

/// Byte `i` of `x`, counting the most significant byte as byte 0.
fn byte_of(i: &Word, x: &Word) -> (r: Word)
    ensures
        r@ == byte_val(i@, x@),
{
    if !i.lt(&Word::from_u64(32)) {
        return Word::zero();
    }
    let iv = i.to_u64();
    let sh: usize = (8 * (31 - iv)) as usize;
    let q = x.shr_bits(sh);
    let r = q.div_rem(&Word::from_u64(256)).1;
    r
}

/// 1 for true, 0 for false.
fn from_bool(c: bool) -> (r: Word)
    ensures
        r@ == bool_word(c),
{
    if c {
        Word::one()
    } else {
        Word::zero()
    }
}

/// Dropping the last entry is taking all but one.
proof fn lemma_shrink1(s: Seq<Word>)
    requires
        s.len() >= 1,
    ensures
        s.drop_last() == s.take(s.len() - 1),
{
    assert(s.drop_last() =~= s.take(s.len() - 1));
}

/// Dropping the last two entries is taking all but two.
proof fn lemma_shrink2(s: Seq<Word>)
    requires
        s.len() >= 2,
    ensures
        s.drop_last().drop_last() == s.take(s.len() - 2),
{
    assert(s.drop_last().drop_last() =~= s.take(s.len() - 2));
}

/// Dropping the last three entries is taking all but three.
proof fn lemma_shrink3(s: Seq<Word>)
    requires
        s.len() >= 3,
    ensures
        s.drop_last().drop_last().drop_last() == s.take(s.len() - 3),
{
    assert(s.drop_last().drop_last().drop_last() =~= s.take(s.len() - 3));
}

/// Execute one arithmetic, comparison or bitwise opcode against the
/// stack.  On success the operands are replaced by the result word;
/// a too-shallow stack fails with `StackUnderflow` and any byte this
/// handler does not implement fails with `InvalidOpcode`, the stack
/// unchanged either way.
pub fn handle_arithmetic(opcode: u8, stack: &mut Stack) -> (r: Result<(), EvmError>)
    requires
        old(stack).wf(),
    ensures
        final(stack).wf(),
        !is_arith_opcode(opcode) ==> r == Err::<(), EvmError>(EvmError::InvalidOpcode(opcode))
            && final(stack)@ == old(stack)@,
        is_arith_opcode(opcode) && old(stack)@.len() < arith_arity(opcode) ==> r == Err::<
            (),
            EvmError,
        >(EvmError::StackUnderflow) && final(stack)@ == old(stack)@,
        is_arith_opcode(opcode) && old(stack)@.len() >= arith_arity(opcode) ==> r == Ok::<
            (),
            EvmError,
        >(()) && final(stack)@ == arith_stack(opcode, old(stack)@),
{
    if opcode == opcodes::ADD {
        ensure_stack_size(stack, 2)?;
        let a = stack.pop()?;
        let b = stack.pop()?;
        let res = a.wrapping_add(&b);
        stack.push(res)?;
        proof {
            res.lemma_word_of_view();
            lemma_shrink2(old(stack)@);
        }
        Ok(())
    } else if opcode == opcodes::MUL {
        ensure_stack_size(stack, 2)?;
        let a = stack.pop()?;
        let b = stack.pop()?;
        let res = a.wrapping_mul(&b);
        stack.push(res)?;
        proof {
            res.lemma_word_of_view();
            lemma_shrink2(old(stack)@);
        }
        Ok(())
    } else if opcode == opcodes::SUB {
        ensure_stack_size(stack, 2)?;
        let a = stack.pop()?;
        let b = stack.pop()?;
        let res = a.wrapping_sub(&b);
        stack.push(res)?;
        proof {
            res.lemma_word_of_view();
            lemma_shrink2(old(stack)@);
        }
        Ok(())
    } else if opcode == opcodes::DIV {
        ensure_stack_size(stack, 2)?;
        let a = stack.pop()?;
        let b = stack.pop()?;
        let res = if b.is_zero() {
            Word::zero()
        } else {
            a.div_rem(&b).0
        };
        stack.push(res)?;
        proof {
            res.lemma_word_of_view();
            lemma_shrink2(old(stack)@);
        }
        Ok(())
    } else if opcode == opcodes::SDIV {
        ensure_stack_size(stack, 2)?;
        let a = stack.pop()?;
        let b = stack.pop()?;
        let res = if b.is_zero() {
            Word::zero()
        } else {
            signed_div(&a, &b)
        };
        stack.push(res)?;
        proof {
            res.lemma_word_of_view();
            lemma_shrink2(old(stack)@);
        }
        Ok(())
    } else if opcode == opcodes::MOD {
        ensure_stack_size(stack, 2)?;
        let a = stack.pop()?;
        let b = stack.pop()?;
        let res = if b.is_zero() {
            Word::zero()
        } else {
            a.div_rem(&b).1
        };
        stack.push(res)?;
        proof {
            res.lemma_word_of_view();
            lemma_shrink2(old(stack)@);
        }
        Ok(())
    } else if opcode == opcodes::SMOD {
        ensure_stack_size(stack, 2)?;
        let a = stack.pop()?;
        let b = stack.pop()?;
        let res = if b.is_zero() {
            Word::zero()
        } else {
            signed_mod(&a, &b)
        };
        stack.push(res)?;
        proof {
            res.lemma_word_of_view();
            lemma_shrink2(old(stack)@);
        }
        Ok(())
    } else if opcode == opcodes::ADDMOD {
        ensure_stack_size(stack, 3)?;
        let a = stack.pop()?;
        let b = stack.pop()?;
        let n = stack.pop()?;
        let res = if n.is_zero() {
            Word::zero()
        } else {
            addmod_words(&a, &b, &n)
        };
        stack.push(res)?;
        proof {
            res.lemma_word_of_view();
            lemma_shrink3(old(stack)@);
        }
        Ok(())
    } else if opcode == opcodes::MULMOD {
        ensure_stack_size(stack, 3)?;
        let a = stack.pop()?;
        let b = stack.pop()?;
        let n = stack.pop()?;
        let res = if n.is_zero() {
            Word::zero()
        } else {
            mulmod_words(&a, &b, &n)
        };
        stack.push(res)?;
        proof {
            res.lemma_word_of_view();
            lemma_shrink3(old(stack)@);
        }
        Ok(())
    } else if opcode == opcodes::EXP {
        ensure_stack_size(stack, 2)?;
        let base = stack.pop()?;
        let exponent = stack.pop()?;
        let res = exp_by_squaring(&base, &exponent);
        stack.push(res)?;
        proof {
            res.lemma_word_of_view();
            lemma_shrink2(old(stack)@);
        }
        Ok(())
    } else if opcode == opcodes::SIGNEXTEND {
        ensure_stack_size(stack, 2)?;
        let b = stack.pop()?;
        let x = stack.pop()?;
        let res = signextend_words(&b, &x);
        stack.push(res)?;
        proof {
            res.lemma_word_of_view();
            lemma_shrink2(old(stack)@);
        }
        Ok(())
    } else if opcode == opcodes::LT {
        ensure_stack_size(stack, 2)?;
        let a = stack.pop()?;
        let b = stack.pop()?;
        let res = from_bool(a.lt(&b));
        stack.push(res)?;
        proof {
            res.lemma_word_of_view();
            lemma_shrink2(old(stack)@);
        }
        Ok(())
    } else if opcode == opcodes::GT {
        ensure_stack_size(stack, 2)?;
        let a = stack.pop()?;
        let b = stack.pop()?;
        let res = from_bool(b.lt(&a));
        stack.push(res)?;
        proof {
            res.lemma_word_of_view();
            lemma_shrink2(old(stack)@);
        }
        Ok(())
    } else if opcode == opcodes::SLT {
        ensure_stack_size(stack, 2)?;
        let a = stack.pop()?;
        let b = stack.pop()?;
        let res = from_bool(signed_lt(&a, &b));
        stack.push(res)?;
        proof {
            res.lemma_word_of_view();
            lemma_shrink2(old(stack)@);
        }
        Ok(())
    } else if opcode == opcodes::SGT {
        ensure_stack_size(stack, 2)?;
        let a = stack.pop()?;
        let b = stack.pop()?;
        let res = from_bool(signed_lt(&b, &a));
        stack.push(res)?;
        proof {
            res.lemma_word_of_view();
            lemma_shrink2(old(stack)@);
        }
        Ok(())
    } else if opcode == opcodes::EQ {
        ensure_stack_size(stack, 2)?;
        let a = stack.pop()?;
        let b = stack.pop()?;
        proof {
            Word::lemma_view_injective(a, b);
        }
        let res = from_bool(a == b);
        stack.push(res)?;
        proof {
            res.lemma_word_of_view();
            lemma_shrink2(old(stack)@);
        }
        Ok(())
    } else if opcode == opcodes::ISZERO {
        ensure_stack_size(stack, 1)?;
        let a = stack.pop()?;
        let res = from_bool(a.is_zero());
        stack.push(res)?;
        proof {
            res.lemma_word_of_view();
            lemma_shrink1(old(stack)@);
        }
        Ok(())
    } else if opcode == opcodes::AND {
        ensure_stack_size(stack, 2)?;
        let a = stack.pop()?;
        let b = stack.pop()?;
        let res = a.bitand(&b);
        stack.push(res)?;
        proof {
            res.lemma_word_of_view();
            lemma_shrink2(old(stack)@);
        }
        Ok(())
    } else if opcode == opcodes::OR {
        ensure_stack_size(stack, 2)?;
        let a = stack.pop()?;
        let b = stack.pop()?;
        let res = a.bitor(&b);
        stack.push(res)?;
        proof {
            res.lemma_word_of_view();
            lemma_shrink2(old(stack)@);
        }
        Ok(())
    } else if opcode == opcodes::XOR {
        ensure_stack_size(stack, 2)?;
        let a = stack.pop()?;
        let b = stack.pop()?;
        let res = a.bitxor(&b);
        stack.push(res)?;
        proof {
            res.lemma_word_of_view();
            lemma_shrink2(old(stack)@);
        }
        Ok(())
    } else if opcode == opcodes::NOT {
        ensure_stack_size(stack, 1)?;
        let a = stack.pop()?;
        let res = a.bitnot();
        stack.push(res)?;
        proof {
            res.lemma_word_of_view();
            lemma_shrink1(old(stack)@);
        }
        Ok(())
    } else if opcode == opcodes::BYTE {
        ensure_stack_size(stack, 2)?;
        let i = stack.pop()?;
        let x = stack.pop()?;
        let res = byte_of(&i, &x);
        stack.push(res)?;
        proof {
            res.lemma_word_of_view();
            lemma_shrink2(old(stack)@);
        }
        Ok(())
    } else if opcode == opcodes::SHL {
        ensure_stack_size(stack, 2)?;
        let shift = stack.pop()?;
        let value = stack.pop()?;
        let res = if !shift.lt(&Word::from_u64(256)) {
            Word::zero()
        } else {
            value.shl_bits(shift.to_u64() as usize)
        };
        stack.push(res)?;
        proof {
            res.lemma_word_of_view();
            lemma_shrink2(old(stack)@);
        }
        Ok(())
    } else if opcode == opcodes::SHR {
        ensure_stack_size(stack, 2)?;
        let shift = stack.pop()?;
        let value = stack.pop()?;
        let res = if !shift.lt(&Word::from_u64(256)) {
            Word::zero()
        } else {
            value.shr_bits(shift.to_u64() as usize)
        };
        stack.push(res)?;
        proof {
            res.lemma_word_of_view();
            lemma_shrink2(old(stack)@);
        }
        Ok(())
    } else if opcode == opcodes::SAR {
        ensure_stack_size(stack, 2)?;
        let shift = stack.pop()?;
        let value = stack.pop()?;
        let res = signed_shr(&value, &shift);
        stack.push(res)?;
        proof {
            res.lemma_word_of_view();
            lemma_shrink2(old(stack)@);
        }
        Ok(())
    } else {
        Err(EvmError::InvalidOpcode(opcode))
    }
}

} // verus!
