//! The pairing function behind probe values: two integers are packed into one
//! by writing the second operand's bits each behind a `1` marker, then a `0`
//! separator, then the first operand's bits plain. The encoding is
//! self-delimiting, so it is order-sensitive.

use vstd::arithmetic::div_mod::{
    lemma_div_denominator, lemma_fundamental_div_mod_converse_div,
    lemma_fundamental_div_mod_converse_mod,
};
use vstd::arithmetic::power2::*;
use vstd::prelude::*;

verus! {

/// Minimal bit-length of `x`, with `bit_len(0) == 0`.
pub open spec fn bit_len(x: nat) -> nat
    decreases x,
{
    if x == 0 {
        0
    } else {
        1 + bit_len(x / 2)
    }
}

/// The marker encoding of `b`: each effective bit of `b`, most significant
/// first, preceded by a literal `1`. Occupies `2 * bit_len(b)` bits.
pub open spec fn marked(b: nat) -> nat
    decreases b,
{
    if b == 0 {
        0
    } else {
        marked(b / 2) * 4 + 2 + b % 2
    }
}

/// The pairing function: the marker encoding of `b`, a `0` separator, then
/// the effective bits of `a`.
pub open spec fn phi_spec(a: nat, b: nat) -> nat {
    marked(b) * 2 * pow2(bit_len(a)) + a
}

/// `x` fits in `k` bits exactly when `bit_len(x) <= k`.
pub proof fn lemma_bit_len_le(x: nat, k: nat)
    requires
        x < pow2(k),
    ensures
        bit_len(x) <= k,
    decreases x,
{
    if x > 0 {
        if k == 0 {
            assert(pow2(0) == 1) by {
                lemma2_to64();
            }
        } else {
            assert(pow2(k) == 2 * pow2((k - 1) as nat)) by {
                lemma_pow2_unfold(k);
            }
            lemma_bit_len_le(x / 2, (k - 1) as nat);
        }
    }
}

/// A positive `x` lies between the two powers of two its bit-length names.
pub proof fn lemma_bit_len_bounds(x: nat)
    requires
        x >= 1,
    ensures
        pow2((bit_len(x) - 1) as nat) <= x < pow2(bit_len(x)),
    decreases x,
{
    if x / 2 == 0 {
        assert(bit_len(0) == 0);
        assert(bit_len(x) == 1);
        assert(pow2(0) == 1 && pow2(1) == 2) by {
            lemma2_to64();
        }
    } else {
        lemma_bit_len_bounds(x / 2);
        let n = bit_len(x / 2);
        assert(pow2(n) == 2 * pow2((n - 1) as nat)) by {
            lemma_pow2_unfold(n);
        }
        assert(pow2(n + 1) == 2 * pow2(n)) by {
            lemma_pow2_unfold(n + 1);
        }
        assert(bit_len(x) == n + 1);
        assert(x >= 2 * (x / 2));
        assert(x <= 2 * (x / 2) + 1);
    }
}

/// The marker encoding of `b` occupies exactly `2 * bit_len(b)` bits:
/// it is below `pow2(2 * bit_len(b))`, and for positive `b` at least
/// `pow2(2 * bit_len(b) - 1)`.
pub proof fn lemma_marked_bounds(b: nat)
    ensures
        marked(b) < pow2(2 * bit_len(b)),
        b >= 1 ==> marked(b) >= pow2((2 * bit_len(b) - 1) as nat),
    decreases b,
{
    if b == 0 {
        assert(pow2(0) == 1) by {
            lemma2_to64();
        }
    } else {
        lemma_marked_bounds(b / 2);
        let n = bit_len(b / 2);
        assert(bit_len(b) == n + 1);
        assert(pow2(2 * n + 2) == pow2(2 * n) * pow2(2)) by {
            lemma_pow2_adds(2 * n, 2);
        }
        assert(pow2(2 * n + 1) == pow2(2 * n) * pow2(1)) by {
            lemma_pow2_adds(2 * n, 1);
        }
        assert(pow2(1) == 2 && pow2(2) == 4) by {
            lemma2_to64();
        }
        if b / 2 == 0 {
            assert(marked(b) == 2 + b % 2);
            assert(pow2(0) == 1) by {
                lemma2_to64();
            }
        } else {
            assert(marked(b / 2) >= pow2((2 * n - 1) as nat));
            assert(pow2(2 * n) == pow2((2 * n - 1) as nat) * pow2(1)) by {
                lemma_pow2_adds((2 * n - 1) as nat, 1);
            }
        }
    }
}

/// The marker encoding is injective: no two operands share it.
pub proof fn lemma_marked_injective(a: nat, b: nat)
    requires
        marked(a) == marked(b),
    ensures
        a == b,
    decreases a,
{
    if a == 0 || b == 0 {
        if a != b {
            let p = if a == 0 { b } else { a };
            assert(marked(p) >= 2);
        }
    } else {
        assert(marked(a) == marked(a / 2) * 4 + 2 + a % 2);
        assert(marked(b) == marked(b / 2) * 4 + 2 + b % 2);
        assert(a % 2 == b % 2 && marked(a / 2) == marked(b / 2)) by (nonlinear_arith)
            requires
                marked(a / 2) * 4 + 2 + a % 2 == marked(b / 2) * 4 + 2 + b % 2,
                a % 2 < 2,
                b % 2 < 2,
        ;
        lemma_marked_injective(a / 2, b / 2);
    }
}

/// A probe value's bit-length is determined by the two operands' bit-lengths:
/// the marker part, one separator bit, and the plain part.
pub proof fn lemma_phi_bit_len(a: nat, b: nat)
    requires
        a >= 1,
        b >= 1,
    ensures
        bit_len(phi_spec(a, b)) == 2 * bit_len(b) + 1 + bit_len(a),
{
    let m = marked(b);
    let na = bit_len(a);
    let nb = bit_len(b);
    lemma_marked_bounds(b);
    lemma_bit_len_bounds(a);
    assert(pow2(2 * nb + na) == pow2((2 * nb - 1) as nat) * pow2(1) * pow2(na)) by {
        lemma_pow2_adds((2 * nb - 1) as nat, 1);
        lemma_pow2_adds(2 * nb, na);
    }
    assert(pow2(2 * nb + 1 + na) == pow2(2 * nb) * pow2(1) * pow2(na)) by {
        lemma_pow2_adds(2 * nb, 1);
        lemma_pow2_adds(2 * nb + 1, na);
    }
    assert(pow2(1) == 2) by {
        lemma2_to64();
    }
    assert(phi_spec(a, b) >= pow2(2 * nb + na)) by (nonlinear_arith)
        requires
            phi_spec(a, b) == m * 2 * pow2(na) + a,
            m >= pow2((2 * nb - 1) as nat),
            pow2(2 * nb + na) == pow2((2 * nb - 1) as nat) * 2 * pow2(na),
    ;
    assert(phi_spec(a, b) < pow2(2 * nb + 1 + na)) by (nonlinear_arith)
        requires
            phi_spec(a, b) == m * 2 * pow2(na) + a,
            m < pow2(2 * nb),
            a < pow2(na),
            pow2(na) >= 1,
            pow2(2 * nb + 1 + na) == pow2(2 * nb) * 2 * pow2(na),
    ;
    lemma_bit_len_le(phi_spec(a, b), 2 * nb + 1 + na);
    if bit_len(phi_spec(a, b)) < 2 * nb + 1 + na {
        lemma_bit_len_bounds(phi_spec(a, b));
        lemma_pow2_strictly_increases((bit_len(phi_spec(a, b))) as nat, 2 * nb + na + 1);
        if bit_len(phi_spec(a, b)) <= 2 * nb + na {
            if bit_len(phi_spec(a, b)) < 2 * nb + na {
                lemma_pow2_strictly_increases(bit_len(phi_spec(a, b)), 2 * nb + na);
            }
            assert(phi_spec(a, b) < pow2(2 * nb + na));
        }
    }
}

/// In the marker encoding of `b`, the bit at each odd position below the
/// `2 * bit_len(b)`th is a `1` marker.
proof fn lemma_marked_marker_bits(b: nat, t: nat)
    requires
        b >= 1,
        1 <= t <= bit_len(b),
    ensures
        (marked(b) as int / pow2((2 * t - 1) as nat) as int) % 2 == 1,
    decreases b,
{
    let m = marked(b) as int;
    let mp = marked(b / 2) as int;
    let r = (b % 2) as int;
    assert(m == mp * 4 + 2 + r);
    if t == 1 {
        assert(pow2(1) == 2) by {
            lemma2_to64();
        }
        assert(m == (2 * mp + 1) * 2 + r) by (nonlinear_arith)
            requires
                m == mp * 4 + 2 + r,
        ;
        lemma_fundamental_div_mod_converse_div(m, 2, 2 * mp + 1, r);
        lemma_fundamental_div_mod_converse_mod(2 * mp + 1, 2, mp, 1);
    } else {
        assert(bit_len(b) == 1 + bit_len(b / 2));
        assert(bit_len(0) == 0);
        assert(b / 2 >= 1);
        lemma_fundamental_div_mod_converse_div(m, 4, mp, 2 + r);
        let q = pow2((2 * t - 3) as nat) as int;
        assert(pow2((2 * t - 1) as nat) == 4 * pow2((2 * t - 3) as nat)) by {
            lemma_pow2_adds(2, (2 * t - 3) as nat);
            lemma2_to64();
        }
        lemma_pow2_pos((2 * t - 3) as nat);
        lemma_div_denominator(m, 4, q);
        lemma_marked_marker_bits(b / 2, (t - 1) as nat);
    }
}

/// The bit of a probe value just above its plain part is the `0` separator.
proof fn lemma_phi_separator_bit(c: nat, d: nat)
    requires
        c >= 1,
        d >= 1,
    ensures
        (phi_spec(c, d) as int / pow2(bit_len(c)) as int) % 2 == 0,
{
    let v = phi_spec(c, d) as int;
    let pc = pow2(bit_len(c)) as int;
    lemma_pow2_pos(bit_len(c));
    lemma_bit_len_bounds(c);
    assert(v == (2 * marked(d)) * pc + c) by (nonlinear_arith)
        requires
            v == marked(d) * 2 * pow2(bit_len(c)) + c,
            pc == pow2(bit_len(c)),
    ;
    lemma_fundamental_div_mod_converse_div(v, pc, 2 * marked(d) as int, c as int);
    lemma_fundamental_div_mod_converse_mod(2 * marked(d) as int, 2, marked(d) as int, 0);
}

/// The bit of a probe value at each odd position inside its marker part is a
/// `1` marker.
proof fn lemma_phi_marker_bit(a: nat, b: nat, s: nat)
    requires
        a >= 1,
        b >= 1,
        1 <= s <= bit_len(b),
    ensures
        (phi_spec(a, b) as int / pow2(bit_len(a) + 2 * s) as int) % 2 == 1,
{
    let v = phi_spec(a, b) as int;
    let pa1 = pow2(bit_len(a) + 1) as int;
    lemma_pow2_pos(bit_len(a) + 1);
    lemma_bit_len_bounds(a);
    assert(pa1 == 2 * pow2(bit_len(a))) by {
        lemma_pow2_adds(bit_len(a), 1);
        lemma2_to64();
    }
    assert(v == marked(b) * pa1 + a) by (nonlinear_arith)
        requires
            v == marked(b) * 2 * pow2(bit_len(a)) + a,
            pa1 == 2 * pow2(bit_len(a)),
    ;
    assert(a < pa1);
    lemma_fundamental_div_mod_converse_div(v, pa1, marked(b) as int, a as int);
    let q = pow2((2 * s - 1) as nat) as int;
    lemma_pow2_pos((2 * s - 1) as nat);
    assert(pow2(bit_len(a) + 2 * s) as int == pa1 * q) by {
        lemma_pow2_adds(bit_len(a) + 1, (2 * s - 1) as nat);
    }
    lemma_div_denominator(v, pa1, q);
    lemma_marked_marker_bits(b, s);
}

/// The pairing is injective on positive operands: a probe value determines
/// both of them.
pub proof fn lemma_phi_injective(a: nat, b: nat, c: nat, d: nat)
    requires
        a >= 1,
        b >= 1,
        c >= 1,
        d >= 1,
        phi_spec(a, b) == phi_spec(c, d),
    ensures
        a == c,
        b == d,
{
    lemma_phi_bit_len(a, b);
    lemma_phi_bit_len(c, d);
    if bit_len(a) < bit_len(c) {
        // The separator that `(c, d)` puts at position `bit_len(c)` falls on
        // a `1` marker of `(a, b)`: the decompositions cannot coexist.
        let s = bit_len(b) - bit_len(d);
        assert(bit_len(c) == bit_len(a) + 2 * s && 1 <= s <= bit_len(b));
        lemma_phi_separator_bit(c, d);
        lemma_phi_marker_bit(a, b, s as nat);
    } else if bit_len(c) < bit_len(a) {
        let s = bit_len(d) - bit_len(b);
        assert(bit_len(a) == bit_len(c) + 2 * s && 1 <= s <= bit_len(d));
        lemma_phi_separator_bit(a, b);
        lemma_phi_marker_bit(c, d, s as nat);
    } else {
        let v = phi_spec(a, b) as int;
        let pa1 = pow2(bit_len(a) + 1) as int;
        lemma_pow2_pos(bit_len(a) + 1);
        lemma_bit_len_bounds(a);
        lemma_bit_len_bounds(c);
        assert(pa1 == 2 * pow2(bit_len(a))) by {
            lemma_pow2_adds(bit_len(a), 1);
            lemma2_to64();
        }
        assert(v == marked(b) * pa1 + a && v == marked(d) * pa1 + c) by (nonlinear_arith)
            requires
                v == marked(b) * 2 * pow2(bit_len(a)) + a,
                v == marked(d) * 2 * pow2(bit_len(c)) + c,
                bit_len(a) == bit_len(c),
                pa1 == 2 * pow2(bit_len(a)),
        ;
        assert(a < pa1 && c < pa1);
        lemma_fundamental_div_mod_converse_mod(v, pa1, marked(b) as int, a as int);
        lemma_fundamental_div_mod_converse_mod(v, pa1, marked(d) as int, c as int);
        assert(a == c);
        lemma_fundamental_div_mod_converse_div(v, pa1, marked(b) as int, a as int);
        lemma_fundamental_div_mod_converse_div(v, pa1, marked(d) as int, c as int);
        assert(marked(b) == marked(d));
        lemma_marked_injective(b, d);
    }
}

/// The pairing is order-sensitive: swapping two distinct positive operands
/// always changes the probe value.
pub proof fn lemma_phi_order_sensitive(a: nat, b: nat)
    requires
        a != b,
        a >= 1,
        b >= 1,
    ensures
        phi_spec(a, b) != phi_spec(b, a),
{
    if phi_spec(a, b) == phi_spec(b, a) {
        lemma_phi_injective(a, b, b, a);
    }
}

/// Exec form of the marker encoding, proved against `marked`.
pub(crate) fn encode_marked(b: u32) -> (r: u128)
    ensures
        r as nat == marked(b as nat),
    decreases b,
{
    if b == 0 {
        0
    } else {
        let rest = encode_marked(b / 2);
        proof {
            assert(pow2(32) == 0x100000000 && pow2(64) == 0x10000000000000000) by {
                lemma2_to64();
            }
            lemma_marked_bounds((b / 2) as nat);
            lemma_bit_len_le((b / 2) as nat, 32);
            lemma_pow2_le_max64(2 * bit_len((b / 2) as nat));
        }
        rest * 4 + 2 + (b % 2) as u128
    }
}

/// Exec form of `bit_len` for 32-bit operands.
pub(crate) fn bit_len_exec(x: u32) -> (r: u32)
    ensures
        r as nat == bit_len(x as nat),
        r <= 32,
    decreases x,
{
    proof {
        assert(pow2(32) == 0x100000000) by {
            lemma2_to64();
        }
        lemma_bit_len_le(x as nat, 32);
    }
    if x == 0 {
        0
    } else {
        1 + bit_len_exec(x / 2)
    }
}

/// `pow2` as an exec function, for exponents up to 64.
pub(crate) fn pow2_u128(e: u32) -> (r: u128)
    requires
        e <= 64,
    ensures
        r as nat == pow2(e as nat),
    decreases e,
{
    if e == 0 {
        proof {
            lemma2_to64();
        }
        1
    } else {
        let rest = pow2_u128(e - 1);
        proof {
            lemma_pow2_unfold(e as nat);
            lemma_pow2_le_max64((e - 1) as nat);
        }
        2 * rest
    }
}

/// Every power of two up to the 64th fits in 64 bits.
proof fn lemma_pow2_le_max64(e: nat)
    requires
        e <= 64,
    ensures
        pow2(e) <= 0x10000000000000000,
{
    assert(pow2(64) == 0x10000000000000000) by {
        lemma2_to64();
    }
    if e < 64 {
        lemma_pow2_strictly_increases(e, 64);
    }
}

} // verus!
