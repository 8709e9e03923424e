//! Byte strings as sequences of bits, most significant bit first.
use vstd::arithmetic::power2::*;
use vstd::prelude::*;

verus! {

/// Bit `i` of a byte, counted from the most significant one.
pub open spec fn byte_bit(b: u8, i: int) -> bool {
    (b >> ((7 - i) as u8)) & 1u8 == 1u8
}

/// The bits of a byte string in reading order.
pub open spec fn bits_of(data: Seq<u8>) -> Seq<bool> {
    Seq::new(8 * data.len(), |i: int| byte_bit(data[i / 8], i % 8))
}

/// A bit as a number.
pub open spec fn bit_value(b: bool) -> nat {
    if b {
        1
    } else {
        0
    }
}

/// The number that the `n` bits from `pos` on write in binary.
pub open spec fn bits_value(bits: Seq<bool>, pos: int, n: nat) -> nat
    decreases n,
{
    if n == 0 {
        0
    } else {
        2 * bits_value(bits, pos, (n - 1) as nat) + bit_value(bits[pos + n - 1])
    }
}

pub proof fn lemma_bits_value_bound(bits: Seq<bool>, pos: int, n: nat)
    ensures
        bits_value(bits, pos, n) < pow2(n),
    decreases n,
{
    lemma_pow2_pos(n);
    if n > 0 {
        lemma_bits_value_bound(bits, pos, (n - 1) as nat);
        lemma_pow2_unfold(n);
    }
}

/// The bits `n + m` long from `pos` on are the first `n` followed by the other `m`.
pub proof fn lemma_bits_value_split(bits: Seq<bool>, pos: int, n: nat, m: nat)
    ensures
        bits_value(bits, pos, n + m) == bits_value(bits, pos, n) * pow2(m) + bits_value(
            bits,
            pos + n,
            m,
        ),
    decreases m,
{
    if m == 0 {
        lemma2_to64();
    } else {
        let k = (m - 1) as nat;
        lemma_bits_value_split(bits, pos, n, k);
        lemma_pow2_unfold(m);
        let a = bits_value(bits, pos, n);
        let p = pow2(k);
        assert(2 * (a * p) == a * (2 * p)) by (nonlinear_arith);
        assert(pos + n + m - 1 == (pos + n) + m - 1);
    }
}

/// The `take` bits of `b` that follow its first `off` bits.
pub open spec fn byte_field(b: u8, off: u8, take: u8) -> u8 {
    (b >> ((8 - off - take) as u8)) & (0xffu8 >> ((8 - take) as u8))
}

pub proof fn lemma_byte_field(data: Seq<u8>, p: int, off: u8, take: u8)
    requires
        0 <= p,
        p / 8 < data.len(),
        p % 8 == off,
        1 <= take,
        off + take <= 8,
    ensures
        byte_field(data[p / 8], off, take) == bits_value(bits_of(data), p, take as nat),
        byte_field(data[p / 8], off, take) < pow2(take as nat),
    decreases take,
{
    let bits = bits_of(data);
    let b = data[p / 8];
    let q = p + take - 1;
    assert(q / 8 == p / 8 && q % 8 == off + take - 1);
    assert(bits[q] == byte_bit(b, (off + take - 1) as int));
    lemma_bits_value_bound(bits, p, take as nat);
    if take == 1 {
        assert(bits_value(bits, p, 1) == 2 * bits_value(bits, p, 0) + bit_value(bits[p]));
        assert(((b >> ((8 - off - 1) as u8)) & (0xffu8 >> 7u8)) == (if (b >> ((7 - off) as u8))
            & 1u8 == 1u8 {
            1u8
        } else {
            0u8
        })) by (bit_vector)
            requires
                off <= 7u8,
        ;
    } else {
        let t = (take - 1) as u8;
        lemma_byte_field(data, p, off, t);
        assert(((b >> ((8 - off - take) as u8)) & (0xffu8 >> ((8 - take) as u8))) == 2 * ((b >> ((8
            - off - t) as u8)) & (0xffu8 >> ((8 - t) as u8))) + (if (b >> ((7 - (off + take - 1))
            as u8)) & 1u8 == 1u8 {
            1u8
        } else {
            0u8
        })) by (bit_vector)
            requires
                2u8 <= take,
                take <= 8u8,
                off + take <= 8,
                t == take - 1,
        ;
        assert((take - 1) as nat == t as nat);
    }
}

/// Bit `i` of byte `k`, counted from the most significant one, stands at place
/// `8 * k + i`, and there are eight for each byte.
pub proof fn bits_are_of_the_byte(data: Seq<u8>, k: int, i: int)
    requires
        0 <= k < data.len(),
        0 <= i < 8,
    ensures
        bits_of(data).len() == 8 * data.len(),
        bits_of(data)[8 * k + i] <==> (data[k] as nat / pow2((7 - i) as nat)) % 2 == 1,
{
    lemma2_to64();
    let b = data[k];
    assert((8 * k + i) / 8 == k && (8 * k + i) % 8 == i);
    assert((b >> 7u8) & 1u8 == (b / 128) % 2 && (b >> 6u8) & 1u8 == (b / 64) % 2 && (b >> 5u8) & 1u8
        == (b / 32) % 2 && (b >> 4u8) & 1u8 == (b / 16) % 2 && (b >> 3u8) & 1u8 == (b / 8) % 2 && (b
        >> 2u8) & 1u8 == (b / 4) % 2 && (b >> 1u8) & 1u8 == (b / 2) % 2 && (b >> 0u8) & 1u8 == (b
        / 1) % 2) by (bit_vector);
    if i == 0 {
    } else if i == 1 {
    } else if i == 2 {
    } else if i == 3 {
    } else if i == 4 {
    } else if i == 5 {
    } else if i == 6 {
    } else {
        assert((7 - i) as u8 == 0u8);
    }
}

} // verus!
