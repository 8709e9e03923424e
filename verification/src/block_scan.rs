//! The search for block boundaries, at any bit of a byte string.
use vstd::arithmetic::power2::*;
use vstd::prelude::*;

use crate::bitreader::BitReader;
use crate::bits;
use crate::BLOCK_MAGIC;

verus! {

/// The place of the magic number in front of a block.
#[derive(Clone, Copy, Debug, PartialEq, Eq, Structural)]
pub struct BlockBoundary {
    pub bit_offset: u64,
}

impl BlockBoundary {
    /// The byte that holds the first bit of the magic number.
    pub fn byte_offset(&self) -> (r: usize)
        requires
            self.bit_offset / 8 <= usize::MAX,
        ensures
            r == self.bit_offset / 8,
    {
        (self.bit_offset / 8) as usize
    }
}

/// The boundaries as numbers.
pub open spec fn offsets_of(boundaries: Seq<BlockBoundary>) -> Seq<int> {
    boundaries.map_values(|b: BlockBoundary| b.bit_offset as int)
}

/// The magic number of a block stands at bit `p`.
pub open spec fn magic_at(all: Seq<bool>, p: int) -> bool {
    p + 48 <= all.len() && bits::bits_value(all, p, 48) == BLOCK_MAGIC
}

/// The 73 bits behind the checksum at bit `p` can be the head of a block: it is
/// not randomised, its origin lies within a block of `max` bytes, and at least
/// one range of bytes occurs.
pub open spec fn head_plausible(all: Seq<bool>, p: int, max: nat) -> bool {
    &&& p + 73 <= all.len()
    &&& !all[p + 32]
    &&& bits::bits_value(all, p + 33, 24) < max
    &&& bits::bits_value(all, p + 57, 16) != 0
}

/// A block can begin at bit `p`: its magic number stands there, and a plausible
/// head behind it.
pub open spec fn block_plausible(all: Seq<bool>, p: int, max: nat) -> bool {
    magic_at(all, p) && head_plausible(all, p + 48, max)
}

/// The first bit from `from` on at which a magic number stands.
pub open spec fn next_magic(all: Seq<bool>, from: int) -> Option<int>
    decreases all.len() - from,
{
    if from + 48 > all.len() {
        None
    } else if magic_at(all, from) {
        Some(from)
    } else {
        next_magic(all, from + 1)
    }
}

/// The first bit from `from` on at which a block can begin.
pub open spec fn next_plausible(all: Seq<bool>, from: int, max: nat) -> Option<int>
    decreases all.len() - from,
{
    match next_magic(all, from) {
        None => None,
        Some(p) => {
            proof {
                next_magic_is_first(all, from);
            }
            if head_plausible(all, p + 48, max) {
                Some(p)
            } else {
                next_plausible(all, p + 1, max)
            }
        },
    }
}

/// All bits from `from` on at which a magic number stands, in order.
pub open spec fn all_magics(all: Seq<bool>, from: int) -> Seq<int>
    decreases all.len() - from,
{
    if from + 48 > all.len() {
        Seq::empty()
    } else if magic_at(all, from) {
        seq![from] + all_magics(all, from + 1)
    } else {
        all_magics(all, from + 1)
    }
}

/// `next_magic` finds a magic number, and the first one there is.
pub proof fn next_magic_is_first(all: Seq<bool>, from: int)
    ensures
        match next_magic(all, from) {
            Some(p) => from <= p && magic_at(all, p) && forall|q: int|
                from <= q < p ==> !#[trigger] magic_at(all, q),
            None => forall|q: int| from <= q ==> !#[trigger] magic_at(all, q),
        },
    decreases all.len() - from,
{
    if from + 48 <= all.len() && !magic_at(all, from) {
        next_magic_is_first(all, from + 1);
    }
}

/// `next_plausible` finds a place where a block can begin, and the first one
/// there is.
pub proof fn next_plausible_is_first(all: Seq<bool>, from: int, max: nat)
    ensures
        match next_plausible(all, from, max) {
            Some(p) => from <= p && block_plausible(all, p, max) && forall|q: int|
                from <= q < p ==> !#[trigger] block_plausible(all, q, max),
            None => forall|q: int| from <= q ==> !#[trigger] block_plausible(all, q, max),
        },
    decreases all.len() - from,
{
    next_magic_is_first(all, from);
    if let Some(p) = next_magic(all, from) {
        if !head_plausible(all, p + 48, max) {
            next_plausible_is_first(all, p + 1, max);
        }
    }
}

/// `all_magics` lists exactly the places of a magic number, in increasing order.
pub proof fn all_magics_is_complete(all: Seq<bool>, from: int)
    ensures
        forall|q: int| #[trigger]
            all_magics(all, from).contains(q) <==> from <= q && magic_at(all, q),
        forall|i: int, j: int|
            0 <= i < j < all_magics(all, from).len() ==> all_magics(all, from)[i] < all_magics(
                all,
                from,
            )[j],
    decreases all.len() - from,
{
    let list = all_magics(all, from);
    if from + 48 > all.len() {
        assert(forall|q: int| !list.contains(q));
    } else {
        let rest = all_magics(all, from + 1);
        all_magics_is_complete(all, from + 1);
        assert forall|i: int| 0 <= i < rest.len() implies from < #[trigger] rest[i] by {
            assert(rest.contains(rest[i]));
        }
        if magic_at(all, from) {
            assert forall|q: int| #[trigger] list.contains(q) <==> from <= q && magic_at(
                all,
                q,
            ) by {
                if list.contains(q) {
                    let i = choose|i: int| 0 <= i < list.len() && list[i] == q;
                    if i > 0 {
                        assert(rest[i - 1] == q);
                        assert(rest.contains(q));
                    }
                }
                if from <= q && magic_at(all, q) {
                    if q == from {
                        assert(list[0] == q);
                    } else {
                        assert(rest.contains(q));
                        let i = choose|i: int| 0 <= i < rest.len() && rest[i] == q;
                        assert(list[i + 1] == q);
                    }
                }
            }
        } else {
            assert forall|q: int| #[trigger] list.contains(q) <==> from <= q && magic_at(
                all,
                q,
            ) by {
                assert(rest.contains(q) <==> from + 1 <= q && magic_at(all, q));
            }
        }
    }
}

/// The list of all magic numbers, by its first one.
proof fn lemma_all_magics_next(all: Seq<bool>, from: int)
    ensures
        all_magics(all, from) == match next_magic(all, from) {
            None => Seq::<int>::empty(),
            Some(p) => seq![p] + all_magics(all, p + 1),
        },
    decreases all.len() - from,
{
    if from + 48 <= all.len() && !magic_at(all, from) {
        lemma_all_magics_next(all, from + 1);
    }
}

/// Moving a window of 48 bits on by one bit.
proof fn lemma_window_step(all: Seq<bool>, p: int)
    ensures
        bits::bits_value(all, p, 48) < 0x1_0000_0000_0000,
        bits::bits_value(all, p + 1, 48) == 2 * (bits::bits_value(all, p, 48)
            % 0x8000_0000_0000) + bits::bit_value(all[p + 48]),
{
    lemma2_to64();
    lemma2_to64_rest();
    bits::lemma_bits_value_bound(all, p, 48);
    bits::lemma_bits_value_split(all, p, 1, 47);
    bits::lemma_bits_value_bound(all, p + 1, 47);
    let first = bits::bits_value(all, p, 1);
    let rest = bits::bits_value(all, p + 1, 47);
    assert(bits::bits_value(all, p, 0) == 0);
    assert(first <= 1);
    assert(rest < 0x8000_0000_0000);
    assert(bits::bits_value(all, p, 48) % 0x8000_0000_0000 == rest);
    assert(p + 1 + 48 - 1 == p + 48);
}

/// Finds the first block boundary at or behind bit `start_bit`.
pub fn find_next_block(data: &[u8], start_bit: u64) -> (r: Option<BlockBoundary>)
    requires
        8 * data@.len() <= usize::MAX,
    ensures
        match next_magic(bits::bits_of(data@), start_bit as int) {
            Some(p) => r matches Some(b) && b.bit_offset == p,
            None => r is None,
        },
{
    let ghost all = bits::bits_of(data@);
    let total: usize = 8 * data.len();
    if start_bit > total as u64 {
        return None;
    }
    let mut pos: usize = start_bit as usize;
    let mut reader: BitReader<'_> = BitReader::from_bit_offset(data, pos);
    let mut window: u64 = match reader.read_u64(48) {
        Some(v) => v,
        None => {
            return None;
        },
    };
    loop
        invariant
            all == bits::bits_of(data@),
            total == all.len(),
            reader.bits() == all,
            reader.pos() == pos + 48,
            pos + 48 <= total,
            window == bits::bits_value(all, pos as int, 48),
            next_magic(all, start_bit as int) == next_magic(all, pos as int),
        decreases total - pos,
    {
        if window == BLOCK_MAGIC {
            return Some(BlockBoundary { bit_offset: pos as u64 });
        }
        let bit: bool = match reader.read_bit() {
            Some(b) => b,
            None => {
                assert(next_magic(all, pos + 1) is None);
                return None;
            },
        };
        proof {
            lemma_window_step(all, pos as int);
        }
        window = 2 * (window % 0x8000_0000_0000) + if bit {
            1
        } else {
            0
        };
        pos = pos + 1;
    }
}

/// Finds every block boundary behind the head of a stream, in order.
pub fn find_all_blocks(data: &[u8]) -> (r: Vec<BlockBoundary>)
    requires
        8 * data@.len() <= usize::MAX,
    ensures
        offsets_of(r@) == all_magics(bits::bits_of(data@), 32),
{
    let ghost all = bits::bits_of(data@);
    let mut found: Vec<BlockBoundary> = Vec::new();
    let mut from: u64 = 32;
    proof {
        assert(offsets_of(found@) + all_magics(all, 32) == all_magics(all, 32));
    }
    loop
        invariant
            all == bits::bits_of(data@),
            8 * data@.len() <= usize::MAX,
            offsets_of(found@) + all_magics(all, from as int) == all_magics(all, 32),
        decreases u64::MAX - from,
    {
        proof {
            lemma_all_magics_next(all, from as int);
            next_magic_is_first(all, from as int);
        }
        match find_next_block(data, from) {
            None => {
                assert(offsets_of(found@) + Seq::<int>::empty() == offsets_of(found@));
                return found;
            },
            Some(b) => {
                proof {
                    let p = b.bit_offset as int;
                    assert(offsets_of(found@.push(b)) == offsets_of(found@).push(p));
                    assert(offsets_of(found@).push(p) + all_magics(all, p + 1) == offsets_of(found@)
                        + (seq![p] + all_magics(all, p + 1)));
                }
                found.push(b);
                from = b.bit_offset + 1;
            },
        }
    }
}

/// Tells whether the 73 bits at `bit` can be the head of a block.
pub fn quick_verify(data: &[u8], bit: u64, max_blocksize: u32) -> (r: bool)
    requires
        8 * data@.len() <= usize::MAX,
    ensures
        r == head_plausible(bits::bits_of(data@), bit as int, max_blocksize as nat),
{
    let total: usize = 8 * data.len();
    if bit > total as u64 || total as u64 - bit < 73 {
        return false;
    }
    let mut reader: BitReader<'_> = BitReader::from_bit_offset(data, bit as usize);
    reader.skip(32);
    let randomised: Option<bool> = reader.read_bit();
    let origin: Option<u32> = reader.read_u32(24);
    let ranges: Option<u16> = reader.read_u16(16);
    match (randomised, origin, ranges) {
        (Some(randomised), Some(origin), Some(ranges)) => !randomised && origin < max_blocksize
            && ranges != 0,
        _ => false,
    }
}

/// Finds the first place at or behind bit `start_bit` at which a block can begin.
pub fn find_plausible_block(data: &[u8], start_bit: u64, max_blocksize: u32) -> (r: Option<
    BlockBoundary,
>)
    requires
        8 * data@.len() <= usize::MAX,
    ensures
        match next_plausible(bits::bits_of(data@), start_bit as int, max_blocksize as nat) {
            Some(p) => r matches Some(b) && b.bit_offset == p,
            None => r is None,
        },
{
    let ghost all = bits::bits_of(data@);
    let mut from: u64 = start_bit;
    loop
        invariant
            all == bits::bits_of(data@),
            8 * data@.len() <= usize::MAX,
            next_plausible(all, start_bit as int, max_blocksize as nat) == next_plausible(
                all,
                from as int,
                max_blocksize as nat,
            ),
        decreases u64::MAX - from,
    {
        proof {
            next_magic_is_first(all, from as int);
        }
        match find_next_block(data, from) {
            None => {
                return None;
            },
            Some(b) => {
                if quick_verify(data, b.bit_offset + 48, max_blocksize) {
                    return Some(b);
                }
                from = b.bit_offset + 1;
            },
        }
    }
}

/// The bit at which the search for split point `k` of `n` begins: the parts of
/// `len` bytes are equally long.
pub open spec fn nominal_split(len: nat, n: nat, k: nat) -> int {
    8 * ((len / n) * k) as int
}

/// The first `k` of the split points between `n` parts, where one is found.
pub open spec fn split_points(data: Seq<u8>, n: nat, max: nat, k: nat) -> Seq<int>
    decreases k,
{
    if k == 0 {
        Seq::empty()
    } else {
        let before = split_points(data, n, max, (k - 1) as nat);
        match next_plausible(bits::bits_of(data), nominal_split(data.len(), n, k), max) {
            Some(p) => before.push(p),
            None => before,
        }
    }
}

/// Finds places at which the blocks in `data` can be split among `n_segments`:
/// for each of the equally spaced points between the segments, the first place
/// from it on at which a block can begin.
pub fn split_boundaries(data: &[u8], n_segments: usize, max_blocksize: u32) -> (r: Vec<
    BlockBoundary,
>)
    requires
        8 * data@.len() <= usize::MAX,
    ensures
        offsets_of(r@) == split_points(
            data@,
            n_segments as nat,
            max_blocksize as nat,
            if n_segments == 0 {
                0
            } else {
                (n_segments - 1) as nat
            },
        ),
{
    let mut found: Vec<BlockBoundary> = Vec::new();
    if n_segments == 0 {
        assert(offsets_of(found@) == Seq::<int>::empty());
        return found;
    }
    let part: usize = data.len() / n_segments;
    let mut k: usize = 1;
    let mut at: usize = 0;
    assert(offsets_of(found@) == Seq::<int>::empty());
    while k < n_segments
        invariant
            8 * data@.len() <= usize::MAX,
            1 <= k <= n_segments,
            part == data@.len() / n_segments as nat,
            at == part * (k - 1),
            offsets_of(found@) == split_points(
                data@,
                n_segments as nat,
                max_blocksize as nat,
                (k - 1) as nat,
            ),
        decreases n_segments - k,
    {
        proof {
            let len = data@.len() as int;
            let n = n_segments as int;
            assert(part * (k - 1) + part == part * k) by (nonlinear_arith);
            assert(part * k <= part * n) by (nonlinear_arith)
                requires
                    k <= n,
                    part >= 0,
            ;
            vstd::arithmetic::div_mod::lemma_fundamental_div_mod(len, n);
            vstd::arithmetic::mul::lemma_mul_is_commutative(n, part as int);
            vstd::arithmetic::div_mod::lemma_mod_bound(len, n);
        }
        at = at + part;
        match find_plausible_block(data, 8 * at as u64, max_blocksize) {
            Some(b) => {
                assert(offsets_of(found@.push(b)) == offsets_of(found@).push(b.bit_offset as int));
                found.push(b);
            },
            None => {},
        }
        k = k + 1;
    }
    found
}

/// The boundaries as numbers are their bits, one for each.
pub proof fn offsets_are_the_bits(boundaries: Seq<BlockBoundary>, i: int)
    requires
        0 <= i < boundaries.len(),
    ensures
        offsets_of(boundaries).len() == boundaries.len(),
        offsets_of(boundaries)[i] == boundaries[i].bit_offset,
{
}

} // verus!
