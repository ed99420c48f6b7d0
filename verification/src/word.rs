//! Word arithmetic of the DSL: every operator works within a `bits`-wide word, with shift and rotate counts taken
//! modulo the word width, matching the Rust/WASM operator semantics the DSL borrows.

use vstd::prelude::*;
use vstd::arithmetic::power2::*;
use vstd::arithmetic::div_mod::*;
use vstd::arithmetic::mul::*;
use vstd::bits::*;

use crate::ast::BinOp;

verus! {

/// `v` reduced to its low `bits` bits.
pub open spec fn low(v: int, bits: nat) -> int {
    v % (pow2(bits) as int)
}

/// The two's-complement reading of a `bits`-wide word `x`.
pub open spec fn signed(x: int, bits: nat) -> int {
    if x >= pow2((bits - 1) as nat) {
        x - pow2(bits)
    } else {
        x
    }
}

/// The value of `a op b` in a `bits`-wide word. Both operands are first reduced to the word; a shift or rotate count
/// is taken modulo the width. Sums, differences and left shifts wrap around the word; `mod` by zero gives zero; the
/// arithmetic right shift floors the signed reading of the word.
pub open spec fn binop_value(op: BinOp, a: u64, b: u64, bits: nat) -> int {
    let m = pow2(bits) as int;
    let x = low(a as int, bits);
    let y = low(b as int, bits);
    let s = (y % (bits as int)) as nat;
    match op {
        BinOp::Or => ((x as u64) | (y as u64)) as int,
        BinOp::Xor => ((x as u64) ^ (y as u64)) as int,
        BinOp::And => ((x as u64) & (y as u64)) as int,
        BinOp::Add => (x + y) % m,
        BinOp::Sub => (x - y) % m,
        BinOp::Mod => if y == 0 {
            0
        } else {
            x % y
        },
        BinOp::Shl => (x * pow2(s)) % m,
        BinOp::ShrU => x / (pow2(s) as int),
        BinOp::ShrS => (signed(x, bits) / (pow2(s) as int)) % m,
        BinOp::RotrU | BinOp::RotrS => x / (pow2(s) as int) + (x % (pow2(s) as int)) * pow2(
            (bits - s) as nat,
        ),
        BinOp::RotlU | BinOp::RotlS => (x % (pow2((bits - s) as nat) as int)) * pow2(s) + x / (pow2(
            (bits - s) as nat,
        ) as int),
    }
}

proof fn lemma_pow2_64()
    ensures
        pow2(64) == 0x1_0000_0000_0000_0000,
        pow2(0) == 1,
{
    lemma2_to64();
}

/// `1 << n` is `2^n` for a shift that stays inside the word.
proof fn lemma_one_shl(n: u64)
    requires
        n < 64,
    ensures
        (1u64 << n) == pow2(n as nat),
        pow2(n as nat) < u64::MAX,
        ((1u64 << n) - 1) as u64 == low_bits_mask(n as nat) as u64,
{
    lemma_u64_pow2_no_overflow(n as nat);
    lemma_u64_shl_is_mul(1, n);
}

/// Masking with `(1 << n) - 1` keeps the low `n` bits.
proof fn lemma_and_low_mask(v: u64, n: u64)
    requires
        n < 64,
    ensures
        (v & ((1u64 << n) - 1) as u64) as int == low(v as int, n as nat),
{
    lemma_one_shl(n);
    lemma_u64_low_bits_mask_is_mod(v, n as nat);
}

/// A value below `2^bits` is unchanged by reduction to `bits` bits.
proof fn lemma_low_small(v: int, bits: nat)
    requires
        0 <= v < pow2(bits),
    ensures
        low(v, bits) == v,
{
    lemma_small_mod(v as nat, pow2(bits));
}

/// Reduction to `bits` bits lands in `[0, 2^bits)`.
pub proof fn lemma_low_range(v: int, bits: nat)
    ensures
        0 <= low(v, bits) < pow2(bits),
{
    lemma_pow2_pos(bits);
    lemma_mod_bound(v, pow2(bits) as int);
}

/// Reducing to 64 bits and then to `bits <= 64` bits is the same as reducing to `bits` bits.
proof fn lemma_low_low(v: int, bits: nat)
    requires
        bits <= 64,
    ensures
        low(v % pow2(64) as int, bits) == low(v, bits),
{
    lemma_pow2_pos(bits);
    lemma_pow2_pos((64 - bits) as nat);
    lemma_pow2_adds(bits, (64 - bits) as nat);
    lemma_mod_mod(v, pow2(bits) as int, pow2((64 - bits) as nat) as int);
}

/// A left shift inside the word multiplies, wrapping around `2^64`.
proof fn lemma_shl_wraps(a: u64, s: u64)
    requires
        s < 64,
    ensures
        (a << s) as int == (a as int * pow2(s as nat)) % (pow2(64) as int),
{
    lemma_pow2_64();
    if s == 0 {
        assert(a << 0u64 == a) by (bit_vector);
        lemma_small_mod(a as nat, pow2(64));
    } else {
        let k: u64 = (64 - s) as u64;
        assert((a << s) == ((a & ((1u64 << k) - 1) as u64) << s)) by (bit_vector)
            requires
                1 <= s < 64,
                k == 64 - s,
        ;
        lemma_and_low_mask(a, k);
        let lo: u64 = a & ((1u64 << k) - 1) as u64;
        lemma_low_range(a as int, k as nat);
        lemma_pow2_pos(s as nat);
        lemma_pow2_adds(k as nat, s as nat);
        lemma_mul_strict_inequality(lo as int, pow2(k as nat) as int, pow2(s as nat) as int);
        lemma_u64_shl_is_mul(lo, s);
        lemma_pow2_pos(k as nat);
        lemma_truncate_middle(a as int, pow2(s as nat) as int, pow2(k as nat) as int);
        lemma_mul_is_commutative(pow2(s as nat) as int, a as int);
        lemma_mul_is_commutative(pow2(s as nat) as int, lo as int);
        lemma_mul_is_commutative(pow2(s as nat) as int, pow2(k as nat) as int);
    }
}

/// Bits of two values whose set bits do not overlap add up.
proof fn lemma_or_disjoint(x: u64, z: u64, k: u64)
    requires
        k < 64,
        x < (1u64 << k),
    ensures
        (x | (z << k)) == (x + (z << k)) as u64,
        (x as int) + ((z << k) as int) <= u64::MAX,
{
    assert(x & (z << k) == 0) by (bit_vector)
        requires
            k < 64,
            x < (1u64 << k),
    ;
    let y = z << k;
    assert((x & y) == 0 ==> (x | y) == x + y && x + y <= 0xffff_ffff_ffff_ffffu64) by (bit_vector);
}

/// Keeps only the low `bits` bits of `v`.
pub fn mask(v: u64, bits: u32) -> (r: u64)
    ensures
        r as int == low(v as int, bits as nat),
{
    if bits >= 64 {
        proof {
            lemma_pow2_64();
            if bits > 64 {
                lemma_pow2_strictly_increases(64, bits as nat);
            }
            lemma_low_small(v as int, bits as nat);
        }
        v
    } else {
        let n = bits as u64;
        proof {
            lemma_and_low_mask(v, n);
            lemma_one_shl(n);
            lemma_pow2_pos(n as nat);
        }
        v & ((1u64 << n) - 1)
    }
}

/// Arithmetic (sign-propagating) right shift of a `bits`-wide value.
fn arith_shr(a: u64, shift: u64, bits: u64) -> (r: u64)
    requires
        1 <= bits <= 64,
        shift < bits,
        (a as int) < pow2(bits as nat),
    ensures
        r as int == (signed(a as int, bits as nat) / (pow2(shift as nat) as int)) % (pow2(
            bits as nat,
        ) as int),
{
    proof {
        lemma_pow2_64();
        lemma_pow2_pos(bits as nat);
        lemma_pow2_pos(shift as nat);
    }
    if shift == 0 {
        proof {
            lemma_arith_shr_zero(a, bits);
        }
        return a;
    }
    let logical = a >> shift;
    let negative = (a >> (bits - 1)) & 1 == 1;
    proof {
        lemma_u64_shr_is_div(a, shift);
        lemma_u64_shr_is_div(a, (bits - 1) as u64);
        lemma_sign_bit(a, bits);
    }
    if negative {
        let k: u64 = (bits - shift) as u64;
        let high: u64 = !0u64 << k;
        let r = mask(logical | high, bits as u32);
        proof {
            lemma_arith_shr_negative(a, shift, bits, logical, high, r);
        }
        r
    } else {
        proof {
            lemma_arith_shr_positive(a, shift, bits);
        }
        logical
    }
}

proof fn lemma_arith_shr_zero(a: u64, bits: u64)
    requires
        1 <= bits <= 64,
        (a as int) < pow2(bits as nat),
    ensures
        a as int == (signed(a as int, bits as nat) / (pow2(0) as int)) % (pow2(bits as nat) as int),
{
    lemma_pow2_64();
    lemma_pow2_pos(bits as nat);
    let m = pow2(bits as nat) as int;
    let x = signed(a as int, bits as nat);
    lemma_div_basics_2(x);
    if x < 0 {
        assert(x == -m + a);
        lemma_mod_sub_multiples_vanish(a as int, m);
    }
    lemma_small_mod(a as nat, m as nat);
}

/// The sign bit of a `bits`-wide word tells whether its signed reading is negative.
proof fn lemma_sign_bit(a: u64, bits: u64)
    requires
        1 <= bits <= 64,
        (a as int) < pow2(bits as nat),
        (a >> (bits - 1) as u64) == (a as nat) / pow2((bits - 1) as nat),
    ensures
        (((a >> (bits - 1) as u64) & 1) == 1) == ((a as int) >= pow2((bits - 1) as nat)),
{
    let h = (bits - 1) as nat;
    lemma_pow2_unfold(bits as nat);
    lemma_pow2_pos(h);
    let q = a >> (bits - 1) as u64;
    if (a as int) >= pow2(h) {
        lemma_div_is_ordered(pow2(h) as int, a as int, pow2(h) as int);
        lemma_div_by_self(pow2(h) as int);
        lemma_div_is_ordered(a as int, 2 * pow2(h) - 1, pow2(h) as int);
        lemma_fundamental_div_mod_converse(2 * pow2(h) - 1, pow2(h) as int, 1, pow2(h) - 1);
        assert(q == 1);
    } else {
        lemma_small_div_converse(a as int, pow2(h) as int);
        lemma_basic_div(a as int, pow2(h) as int);
        assert(q == 0);
    }
    assert(q == 0 || q == 1);
    assert(q <= 1 ==> ((q & 1) == 1) == (q == 1)) by (bit_vector);
}

proof fn lemma_arith_shr_positive(a: u64, shift: u64, bits: u64)
    requires
        1 <= bits <= 64,
        1 <= shift < bits,
        (a as int) < pow2((bits - 1) as nat),
    ensures
        (a as nat / pow2(shift as nat)) as int == (signed(a as int, bits as nat) / (pow2(shift as nat) as int))
            % (pow2(bits as nat) as int),
{
    let m = pow2(bits as nat) as int;
    lemma_pow2_pos(shift as nat);
    lemma_pow2_unfold(bits as nat);
    lemma_div_is_ordered_by_denominator(a as int, 1, pow2(shift as nat) as int);
    lemma_div_pos_is_pos(a as int, pow2(shift as nat) as int);
    lemma_small_mod((a as nat / pow2(shift as nat)) as nat, m as nat);
}

proof fn lemma_arith_shr_negative(a: u64, shift: u64, bits: u64, logical: u64, high: u64, r: u64)
    requires
        1 <= bits <= 64,
        1 <= shift < bits,
        pow2((bits - 1) as nat) <= (a as int) < pow2(bits as nat),
        logical as int == a as nat / pow2(shift as nat),
        high == !0u64 << ((bits - shift) as u64),
        r as int == low((logical | high) as int, bits as nat),
    ensures
        r as int == (signed(a as int, bits as nat) / (pow2(shift as nat) as int)) % (pow2(
            bits as nat,
        ) as int),
{
    let k: u64 = (bits - shift) as u64;
    let m = pow2(bits as nat) as int;
    let ps = pow2(shift as nat) as int;
    let pk = pow2(k as nat) as int;
    lemma_pow2_64();
    lemma_pow2_pos(shift as nat);
    lemma_pow2_pos(k as nat);
    lemma_pow2_adds(k as nat, shift as nat);
    assert(m == pk * ps);
    // logical < 2^k
    lemma_mul_is_commutative(pk, ps);
    lemma_div_is_ordered(a as int, m - 1, ps);
    assert(m - 1 == (pk - 1) * ps + (ps - 1)) by {
        lemma_mul_is_distributive_sub(ps, pk, 1);
        lemma_mul_is_commutative(ps, pk - 1);
    }
    lemma_fundamental_div_mod_converse(m - 1, ps, pk - 1, ps - 1);
    assert((logical as int) < pk);
    lemma_one_shl(k);
    // high == 2^64 - 2^k, a multiple of 2^k
    lemma_shl_wraps(!0u64, k);
    assert(!0u64 == 0xffff_ffff_ffff_ffffu64) by (bit_vector);
    let big = pow2(64) as int;
    lemma_pow2_adds(k as nat, (64 - k) as nat);
    let pr = pow2((64 - k) as nat) as int;
    lemma_pow2_pos((64 - k) as nat);
    assert((big - 1) * pk == pk * pr * pk - pk) by (nonlinear_arith)
        requires
            big == pk * pr,
    ;
    assert(((big - 1) * pk) % big == big - pk) by {
        lemma_mul_is_distributive_sub(pk, big, 1);
        lemma_mul_is_commutative(pk, big);
        lemma_mul_is_commutative(pk, big - 1);
        assert((big - 1) * pk == big * pk - pk);
        assert(big * pk - pk == (pk - 1) * big + (big - pk)) by (nonlinear_arith);
        lemma_fundamental_div_mod_converse((big - 1) * pk, big, pk - 1, big - pk);
    }
    assert(high as int == big - pk);
    // the OR is a sum
    let z: u64 = !0u64;
    assert(high == z << k);
    lemma_or_disjoint(logical, z, k);
    assert((logical | high) as int == logical as int + big - pk);
    // reduce to the word
    let sum = logical as int + big - pk;
    assert(sum == (logical as int + m - pk) + (pr / pow2(shift as nat) as int - 1) * m) by {
        lemma_pow2_adds(bits as nat, (64 - bits) as nat);
        assert((64 - k) as nat == shift as nat + (64 - bits) as nat);
        lemma_pow2_adds(shift as nat, (64 - bits) as nat);
        let pb = pow2((64 - bits) as nat) as int;
        assert(pr == ps * pb);
        lemma_div_multiples_vanish(pb, ps);
        lemma_mul_is_commutative(pb, ps);
        assert(pr / ps == pb);
        assert(big == m * pb) by {
            lemma_pow2_adds(bits as nat, (64 - bits) as nat);
        }
        assert(sum == logical as int + m - pk + (pb - 1) * m) by (nonlinear_arith)
            requires
                sum == logical as int + big - pk,
                big == m * pb,
        ;
    }
    let target = logical as int + m - pk;
    assert(0 <= target < m);
    lemma_pow2_adds(bits as nat, (64 - bits) as nat);
    lemma_mod_multiples_vanish(pr / ps - 1, target, m);
    lemma_small_mod(target as nat, m as nat);
    // the floored quotient of the signed reading
    let sx = a as int - m;
    assert(sx == (logical as int - pk) * ps + (a as int % ps)) by {
        lemma_fundamental_div_mod(a as int, ps);
        lemma_mul_is_commutative(ps, a as int / ps);
        lemma_mul_is_distributive_sub(ps, logical as int, pk);
        lemma_mul_is_commutative(ps, logical as int - pk);
        lemma_mul_is_commutative(ps, pk);
    }
    lemma_mod_bound(a as int, ps);
    lemma_fundamental_div_mod_converse(sx, ps, logical as int - pk, a as int % ps);
    assert(-pk <= logical as int - pk < 0);
    lemma_mod_add_multiples_vanish(logical as int - pk, m);
    lemma_small_mod(target as nat, m as nat);
}

/// Applies a binary operator within a `bits`-wide word, matching the Rust/WASM operator semantics the DSL borrows
/// (shift/rotate counts are taken modulo the word width; shifts and rotates respect signedness where it matters).
pub fn apply_binop(op: &BinOp, a: u64, b: u64, bits: u32) -> (r: u64)
    requires
        1 <= bits <= 64,
    ensures
        r as int == binop_value(*op, a, b, bits as nat),
{
    let w = bits as u64;
    let a = mask(a, bits);
    let b = mask(b, bits);
    let shift = b % w;
    proof {
        lemma_pow2_64();
        lemma_low_range(a as int, bits as nat);
    }
    match op {
        BinOp::Or => a | b,
        BinOp::Xor => a ^ b,
        BinOp::And => a & b,
        BinOp::Add => {
            let r = mask(a.wrapping_add(b), bits);
            proof {
                lemma_wrapping_low(a as int + b as int, bits as nat);
            }
            r
        },
        BinOp::Sub => {
            let r = mask(a.wrapping_sub(b), bits);
            proof {
                lemma_wrapping_low(a as int - b as int, bits as nat);
            }
            r
        },
        BinOp::Mod => {
            if b == 0 {
                0
            } else {
                a % b
            }
        },
        BinOp::Shl => {
            let r = mask(a << shift, bits);
            proof {
                lemma_shl_wraps(a, shift);
                lemma_low_low(a as int * pow2(shift as nat), bits as nat);
            }
            r
        },
        BinOp::ShrU => {
            proof {
                lemma_u64_shr_is_div(a, shift);
            }
            a >> shift
        },
        BinOp::ShrS => arith_shr(a, shift, w),
        BinOp::RotrU | BinOp::RotrS => {
            let back = ((w - shift) % w) as u64;
            let r = mask((a >> shift) | (a << back), bits);
            proof {
                lemma_rotr(a, shift, w, back, r);
            }
            r
        },
        BinOp::RotlU | BinOp::RotlS => {
            let back = ((w - shift) % w) as u64;
            let r = mask((a << shift) | (a >> back), bits);
            proof {
                lemma_rotl(a, shift, w, back, r);
            }
            r
        },
    }
}

/// A value that wrapped around `2^64` reduces to the same word as the unwrapped value.
proof fn lemma_wrapping_low(v: int, bits: nat)
    requires
        1 <= bits <= 64,
        -0x1_0000_0000_0000_0000 < v < 0x1_0000_0000_0000_0000 * 2,
    ensures
        low(
            (if v > u64::MAX {
                v - 0x1_0000_0000_0000_0000
            } else if v < 0 {
                v + 0x1_0000_0000_0000_0000
            } else {
                v
            }),
            bits,
        ) == low(v, bits),
{
    lemma_pow2_64();
    lemma_pow2_pos(bits);
    lemma_pow2_pos((64 - bits) as nat);
    lemma_pow2_adds(bits, (64 - bits) as nat);
    let m = pow2(bits) as int;
    let q = pow2((64 - bits) as nat) as int;
    assert(0x1_0000_0000_0000_0000 == q * m) by {
        lemma_mul_is_commutative(q, m);
    }
    if v > u64::MAX {
        lemma_mod_multiples_vanish(-q, v, m);
        assert(v - 0x1_0000_0000_0000_0000 == -q * m + v) by (nonlinear_arith)
            requires
                0x1_0000_0000_0000_0000 == q * m,
        ;
    } else if v < 0 {
        lemma_mod_multiples_vanish(q, v, m);
    }
}

/// Rotating by zero leaves a word that fits unchanged.
proof fn lemma_rotate_zero(a: u64, w: u64)
    requires
        1 <= w <= 64,
        (a as int) < pow2(w as nat),
    ensures
        low(((a >> 0u64) | (a << 0u64)) as int, w as nat) == a as int,
        low(((a << 0u64) | (a >> 0u64)) as int, w as nat) == a as int,
        (a as int) / (pow2(0) as int) + ((a as int) % (pow2(0) as int)) * pow2(w as nat) == a as int,
        ((a as int) % (pow2(w as nat) as int)) * pow2(0) + (a as int) / (pow2(w as nat) as int) == a as int,
{
    lemma_pow2_64();
    assert((a >> 0u64) | (a << 0u64) == a) by (bit_vector);
    assert((a << 0u64) | (a >> 0u64) == a) by (bit_vector);
    lemma_low_small(a as int, w as nat);
    lemma_div_basics_2(a as int);
    lemma_fundamental_div_mod_converse(a as int, 1, a as int, 0);
    lemma_small_mod(a as nat, pow2(w as nat));
    lemma_small_div_converse(a as int, pow2(w as nat) as int);
    lemma_basic_div(a as int, pow2(w as nat) as int);
}

/// Reducing a 64-bit value to `w <= 64` bits is masking (or nothing, for the full word).
proof fn lemma_low_u64(v: u64, w: u64)
    requires
        1 <= w <= 64,
    ensures
        w < 64 ==> low(v as int, w as nat) == (v & ((1u64 << w) - 1) as u64) as int,
        w == 64 ==> low(v as int, w as nat) == v as int,
{
    lemma_pow2_64();
    if w < 64 {
        lemma_and_low_mask(v, w);
    } else {
        lemma_low_small(v as int, 64);
    }
}

/// `a / 2^k < 2^(w - k)` for a word `a < 2^w`.
proof fn lemma_high_part_small(a: u64, k: u64, w: u64)
    requires
        k <= w <= 64,
        (a as int) < pow2(w as nat),
    ensures
        (a as int) / (pow2(k as nat) as int) < pow2((w - k) as nat),
{
    lemma_pow2_pos(k as nat);
    lemma_pow2_adds(k as nat, (w - k) as nat);
    lemma_multiply_divide_lt(a as int, pow2(k as nat) as int, pow2((w - k) as nat) as int);
}

/// `(a % 2^k) * 2^(w - k)` fits in the word (and below `2^w`).
proof fn lemma_low_part_shifted(a: u64, k: u64, w: u64)
    requires
        k <= w <= 64,
    ensures
        0 <= ((a as int) % (pow2(k as nat) as int)) * pow2((w - k) as nat) < pow2(w as nat),
{
    lemma_pow2_pos(k as nat);
    lemma_pow2_pos((w - k) as nat);
    lemma_pow2_adds(k as nat, (w - k) as nat);
    lemma_mod_bound(a as int, pow2(k as nat) as int);
    lemma_mul_strict_inequality(
        (a as int) % (pow2(k as nat) as int),
        pow2(k as nat) as int,
        pow2((w - k) as nat) as int,
    );
    lemma_mul_nonnegative((a as int) % (pow2(k as nat) as int), pow2((w - k) as nat) as int);
}

/// Proof that the rotate-right implementation matches its arithmetic statement.
proof fn lemma_rotr(a: u64, shift: u64, w: u64, back: u64, r: u64)
    requires
        1 <= w <= 64,
        shift < w,
        (a as int) < pow2(w as nat),
        back == (w - shift) % (w as int),
        r as int == low(((a >> shift) | (a << back)) as int, w as nat),
    ensures
        r as int == (a as int) / (pow2(shift as nat) as int) + ((a as int) % (pow2(shift as nat) as int))
            * pow2((w - shift) as nat),
{
    lemma_pow2_64();
    if shift == 0 {
        lemma_mod_self_0(w as int);
        lemma_rotate_zero(a, w);
        return;
    }
    lemma_small_mod((w - shift) as nat, w as nat);
    assert(back == w - shift);
    let k: u64 = (w - shift) as u64;
    let s = shift;
    let hi: u64 = a >> s;
    let z: u64 = a & ((1u64 << s) - 1) as u64;
    lemma_low_u64((a >> s) | (a << back), w);
    if w < 64 {
        lemma_one_shl(w);
        assert(((a >> s) | (a << k)) & ((1u64 << w) - 1) as u64 == (a >> s) | ((a & ((1u64 << s) - 1) as u64)
            << k)) by (bit_vector)
            requires
                1 <= s < w < 64,
                k == w - s,
                a < (1u64 << w),
        ;
    } else {
        assert((a >> s) | (a << k) == (a >> s) | ((a & ((1u64 << s) - 1) as u64) << k)) by (bit_vector)
            requires
                1 <= s < 64,
                k == 64 - s,
        ;
    }
    assert(r == hi | (z << k));
    lemma_u64_shr_is_div(a, s);
    lemma_high_part_small(a, s, w);
    lemma_one_shl(k);
    lemma_or_disjoint(hi, z, k);
    lemma_and_low_mask(a, s);
    lemma_low_part_shifted(a, s, w);
    if w == 64 {
        lemma_u64_shl_is_mul(z, k);
    } else {
        lemma_u64_pow2_no_overflow(w as nat);
        lemma_u64_shl_is_mul(z, k);
    }
}

/// Proof that the rotate-left implementation matches its arithmetic statement.
proof fn lemma_rotl(a: u64, shift: u64, w: u64, back: u64, r: u64)
    requires
        1 <= w <= 64,
        shift < w,
        (a as int) < pow2(w as nat),
        back == (w - shift) % (w as int),
        r as int == low(((a << shift) | (a >> back)) as int, w as nat),
    ensures
        r as int == ((a as int) % (pow2((w - shift) as nat) as int)) * pow2(shift as nat) + (a as int) / (
        pow2((w - shift) as nat) as int),
{
    lemma_pow2_64();
    if shift == 0 {
        lemma_mod_self_0(w as int);
        lemma_rotate_zero(a, w);
        return;
    }
    lemma_small_mod((w - shift) as nat, w as nat);
    assert(back == w - shift);
    let k: u64 = (w - shift) as u64;
    let s = shift;
    let hi: u64 = a >> k;
    let z: u64 = a & ((1u64 << k) - 1) as u64;
    lemma_low_u64((a << s) | (a >> back), w);
    if w < 64 {
        lemma_one_shl(w);
        assert(((a << s) | (a >> k)) & ((1u64 << w) - 1) as u64 == (a >> k) | ((a & ((1u64 << k) - 1) as u64)
            << s)) by (bit_vector)
            requires
                1 <= s < w < 64,
                k == w - s,
                a < (1u64 << w),
        ;
    } else {
        assert((a << s) | (a >> k) == (a >> k) | ((a & ((1u64 << k) - 1) as u64) << s)) by (bit_vector)
            requires
                1 <= s < 64,
                k == 64 - s,
        ;
    }
    assert(r == hi | (z << s));
    lemma_u64_shr_is_div(a, k);
    lemma_high_part_small(a, k, w);
    assert((w - k) as nat == s as nat);
    lemma_one_shl(s);
    lemma_or_disjoint(hi, z, s);
    lemma_and_low_mask(a, k);
    lemma_low_part_shifted(a, k, w);
    lemma_u64_pow2_no_overflow(s as nat);
    lemma_u64_shl_is_mul(z, s);
}

// - - - - - - - - - - - - - - - - - - - - - - - - - - - - - - - - - - - - - - - - - - - - - - - - - - - - - - - - - - -
// Laws of word arithmetic
// - - - - - - - - - - - - - - - - - - - - - - - - - - - - - - - - - - - - - - - - - - - - - - - - - - - - - - - - - - -

/// A word of at most 64 bits fits a `u64`.
proof fn lemma_word_fits(bits: nat)
    requires
        bits <= 64,
    ensures
        pow2(bits) <= 0x1_0000_0000_0000_0000,
{
    lemma_pow2_64();
    if bits < 64 {
        lemma_pow2_strictly_increases(bits, 64);
    }
}

/// The two halves of a rotation fit the word together: `x / 2^k + (x % 2^k) * 2^(n - k) < 2^n` for `x < 2^n`.
proof fn lemma_rotate_bound(x: int, k: nat, n: nat)
    requires
        k <= n,
        0 <= x < pow2(n),
    ensures
        0 <= x / (pow2(k) as int) + (x % (pow2(k) as int)) * pow2((n - k) as nat) < pow2(n),
{
    let pk = pow2(k) as int;
    let pr = pow2((n - k) as nat) as int;
    lemma_pow2_pos(k);
    lemma_pow2_pos((n - k) as nat);
    lemma_pow2_adds(k, (n - k) as nat);
    assert(pow2(n) == pk * pr);
    lemma_multiply_divide_lt(x, pk, pr);
    lemma_div_pos_is_pos(x, pk);
    lemma_mod_bound(x, pk);
    lemma_mul_inequality(x % pk, pk - 1, pr);
    lemma_mul_is_distributive_sub(pr, pk, 1);
    lemma_mul_is_commutative(pr, pk);
    lemma_mul_is_commutative(pr, pk - 1);
    lemma_mul_nonnegative(x % pk, pr);
}

/// Every operator stays within the word: its result is a `bits`-wide word.
pub proof fn lemma_binop_in_word(op: BinOp, a: u64, b: u64, bits: nat)
    requires
        1 <= bits <= 64,
    ensures
        0 <= binop_value(op, a, b, bits) < pow2(bits),
{
    let m = pow2(bits) as int;
    let x = low(a as int, bits);
    let y = low(b as int, bits);
    lemma_pow2_64();
    lemma_pow2_pos(bits);
    lemma_low_range(a as int, bits);
    lemma_low_range(b as int, bits);
    if bits < 64 {
        lemma_pow2_strictly_increases(bits, 64);
    }
    let s = (y % (bits as int)) as nat;
    lemma_mod_bound(y, bits as int);
    match op {
        BinOp::Or | BinOp::Xor | BinOp::And => {
            let xx = x as u64;
            let yy = y as u64;
            if bits < 64 {
                let n = bits as u64;
                lemma_one_shl(n);
                assert(xx < (1u64 << n) && yy < (1u64 << n) ==> (xx | yy) < (1u64 << n) && (xx ^ yy) < (1u64 << n)
                    && (xx & yy) < (1u64 << n)) by (bit_vector)
                    requires
                        n < 64,
                ;
            }
        },
        BinOp::Add | BinOp::Sub | BinOp::Shl | BinOp::ShrS => {
            lemma_mod_bound(x + y, m);
            lemma_mod_bound(x - y, m);
            lemma_mod_bound(x * pow2(s), m);
            lemma_mod_bound(signed(x, bits) / (pow2(s) as int), m);
        },
        BinOp::Mod => {
            if y != 0 {
                lemma_mod_bound(x, y);
            }
        },
        BinOp::ShrU => {
            lemma_pow2_pos(s);
            lemma_div_pos_is_pos(x, pow2(s) as int);
            lemma_high_part_small(x as u64, s as u64, bits as u64);
            if s > 0 {
                lemma_pow2_strictly_increases((bits - s) as nat, bits);
            }
        },
        BinOp::RotrU | BinOp::RotrS => {
            lemma_rotate_bound(x, s, bits);
        },
        BinOp::RotlU | BinOp::RotlS => {
            lemma_rotate_bound(x, (bits - s) as nat, bits);
            assert((bits - (bits - s)) as nat == s);
        },
    }
}

/// Rotations do not depend on signedness: the `_s` and `_u` forms of each rotation agree.
pub proof fn lemma_rotation_ignores_signedness(a: u64, b: u64, bits: nat)
    ensures
        binop_value(BinOp::RotrS, a, b, bits) == binop_value(BinOp::RotrU, a, b, bits),
        binop_value(BinOp::RotlS, a, b, bits) == binop_value(BinOp::RotlU, a, b, bits),
{
}

/// Splitting `x < 2^n` at bit `k` and joining the halves the other way round: `y = x / 2^k + (x % 2^k) * 2^(n - k)`
/// has `y / 2^(n - k) == x % 2^k` and `y % 2^(n - k) == x / 2^k`.
proof fn lemma_rotate_halves(x: int, k: nat, n: nat)
    requires
        k <= n,
        0 <= x < pow2(n),
    ensures
        ({
            let y = x / (pow2(k) as int) + (x % (pow2(k) as int)) * pow2((n - k) as nat);
            &&& y / (pow2((n - k) as nat) as int) == x % (pow2(k) as int)
            &&& y % (pow2((n - k) as nat) as int) == x / (pow2(k) as int)
        }),
{
    let pk = pow2(k) as int;
    let pr = pow2((n - k) as nat) as int;
    lemma_pow2_pos(k);
    lemma_pow2_pos((n - k) as nat);
    lemma_pow2_adds(k, (n - k) as nat);
    lemma_multiply_divide_lt(x, pk, pr);
    lemma_div_pos_is_pos(x, pk);
    let y = x / pk + (x % pk) * pr;
    lemma_fundamental_div_mod_converse(y, pr, x % pk, x / pk);
}

/// Rotating left by the count of a right rotation undoes it, and rotating right undoes a left rotation: both give back
/// the word.
pub proof fn lemma_rotations_undo(a: u64, b: u64, bits: nat)
    requires
        1 <= bits <= 64,
    ensures
        binop_value(BinOp::RotlU, binop_value(BinOp::RotrU, a, b, bits) as u64, b, bits) == low(a as int, bits),
        binop_value(BinOp::RotrU, binop_value(BinOp::RotlU, a, b, bits) as u64, b, bits) == low(a as int, bits),
{
    let x = low(a as int, bits);
    let yb = low(b as int, bits);
    let s = (yb % (bits as int)) as nat;
    lemma_pow2_64();
    lemma_low_range(a as int, bits);
    lemma_mod_bound(yb, bits as int);
    lemma_pow2_pos(s);
    lemma_pow2_pos((bits - s) as nat);
    // Right, then left.
    lemma_word_fits(bits);
    lemma_binop_in_word(BinOp::RotrU, a, b, bits);
    let r = binop_value(BinOp::RotrU, a, b, bits);
    assert((r as u64) as int == r);
    lemma_low_small(r, bits);
    assert(low((r as u64) as int, bits) == r);
    lemma_rotate_halves(x, s, bits);
    lemma_fundamental_div_mod(x, pow2(s) as int);
    lemma_mul_is_commutative(pow2(s) as int, x / (pow2(s) as int));
    // Left, then right.
    lemma_binop_in_word(BinOp::RotlU, a, b, bits);
    let l = binop_value(BinOp::RotlU, a, b, bits);
    assert((l as u64) as int == l);
    lemma_low_small(l, bits);
    assert(low((l as u64) as int, bits) == l);
    let k = (bits - s) as nat;
    assert((bits - k) as nat == s);
    lemma_rotate_halves(x, k, bits);
    lemma_fundamental_div_mod(x, pow2(k) as int);
    lemma_mul_is_commutative(pow2(k) as int, x / (pow2(k) as int));
}

/// Exclusive-or with the same word twice gives the word back.
pub proof fn lemma_xor_undoes_itself(a: u64, b: u64, bits: nat)
    requires
        1 <= bits <= 64,
    ensures
        binop_value(BinOp::Xor, binop_value(BinOp::Xor, a, b, bits) as u64, b, bits) == low(a as int, bits),
{
    let x = low(a as int, bits);
    let y = low(b as int, bits);
    lemma_pow2_64();
    lemma_low_range(a as int, bits);
    lemma_low_range(b as int, bits);
    lemma_word_fits(bits);
    lemma_binop_in_word(BinOp::Xor, a, b, bits);
    let r = binop_value(BinOp::Xor, a, b, bits);
    assert((r as u64) as int == r);
    lemma_low_small(r, bits);
    let xx = x as u64;
    let yy = y as u64;
    assert((xx ^ yy) ^ yy == xx) by (bit_vector);
}

/// Subtracting what was added gives the word back.
pub proof fn lemma_sub_undoes_add(a: u64, b: u64, bits: nat)
    requires
        1 <= bits <= 64,
    ensures
        binop_value(BinOp::Sub, binop_value(BinOp::Add, a, b, bits) as u64, b, bits) == low(a as int, bits),
{
    let m = pow2(bits) as int;
    let x = low(a as int, bits);
    let y = low(b as int, bits);
    lemma_pow2_64();
    lemma_pow2_pos(bits);
    lemma_low_range(a as int, bits);
    lemma_low_range(b as int, bits);
    lemma_word_fits(bits);
    lemma_binop_in_word(BinOp::Add, a, b, bits);
    let r = binop_value(BinOp::Add, a, b, bits);
    assert((r as u64) as int == r);
    lemma_low_small(r, bits);
    lemma_fundamental_div_mod(x + y, m);
    let t = (x + y) / m;
    assert(r - y == m * (-t) + x) by {
        lemma_mul_unary_negation(m, t);
    }
    lemma_mod_multiples_vanish(-t, x, m);
    lemma_low_small(x, bits);
}


/// Flipping every bit of a 64-bit word and reducing to `bits <= 64` bits flips every bit of the `bits`-wide word:
/// the result is `2^bits - 1` minus the word's low `bits` bits.
pub proof fn lemma_not_low(v: u64, bits: nat)
    requires
        bits <= 64,
    ensures
        low((!v) as int, bits) == pow2(bits) - 1 - (v as int) % (pow2(bits) as int),
{
    assert(!v == 0xffff_ffff_ffff_ffffu64 - v) by (bit_vector);
    lemma_pow2_64();
    lemma_pow2_pos(bits);
    lemma_pow2_pos((64 - bits) as nat);
    lemma_pow2_adds(bits, (64 - bits) as nat);
    let p = pow2(bits) as int;
    let big = pow2((64 - bits) as nat) as int;
    assert(p * big == 0x1_0000_0000_0000_0000int);
    let q = v as int / p;
    let r = v as int % p;
    lemma_fundamental_div_mod(v as int, p);
    lemma_mod_bound(v as int, p);
    assert(q < big) by (nonlinear_arith)
        requires
            v as int == p * q + r,
            0 <= r,
            v < 0x1_0000_0000_0000_0000int,
            p * big == 0x1_0000_0000_0000_0000int,
            p > 0,
    ;
    assert(q >= 0) by (nonlinear_arith)
        requires
            v as int == p * q + r,
            0 <= r < p,
            v >= 0,
            p > 0,
    ;
    let x = 0xffff_ffff_ffff_ffffint - v;
    assert(x == (big - q - 1) * p + (p - 1 - r)) by (nonlinear_arith)
        requires
            x == 0xffff_ffff_ffff_ffffint - v,
            v as int == p * q + r,
            p * big == 0x1_0000_0000_0000_0000int,
    ;
    lemma_fundamental_div_mod_converse(x, p, big - q - 1, p - 1 - r);
}

} // verus!
