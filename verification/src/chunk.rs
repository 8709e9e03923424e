//! Chunks of compressed data, cut into segments of blocks that workers can
//! decode independently of each other.
//!
//! A chunk need not end where a block does. The segments that
//! [`split_chunk`] lists are complete but for the last one, and the caller puts
//! the bytes from `consumed` on in front of the next chunk. [`ChunkDecoder`]
//! decodes the complete segments of a chunk itself, one after the other.
use vstd::arithmetic::power2::*;
use vstd::prelude::*;

use crate::bitreader::BitReader;
use crate::bits;
use crate::block;
use crate::block::BlockError;
use crate::block_scan;
use crate::block_scan::BlockBoundary;
use crate::grammar;
use crate::stream;
use crate::{BLOCK_MAGIC, FINAL_MAGIC};

verus! {

/// How many segments a chunk is cut into where nothing else is asked for: eight
/// for each of four workers.
pub const DEFAULT_SEGMENTS: usize = 32;

/// How a chunk is cut into segments.
#[derive(Debug)]
pub struct ChunkSplit {
    /// Where each segment begins.
    pub segment_starts: Vec<BlockBoundary>,
    /// The number of segments to decode: all of them in the last chunk, all but
    /// one in the others.
    pub decode_segments: usize,
    /// The number of bytes that the segments to decode take up.
    pub consumed: usize,
}

/// `first`, followed by the first `n` of the points but for those that repeat
/// the one before.
pub open spec fn distinct_points(first: int, points: Seq<int>, n: nat) -> Seq<int>
    decreases n,
{
    if n == 0 {
        seq![first]
    } else {
        let before = distinct_points(first, points, (n - 1) as nat);
        if before.last() == points[n - 1] {
            before
        } else {
            before.push(points[n - 1])
        }
    }
}

/// Where the segments begin when `data` is cut into at most `n` of them: at the
/// first block, and at the split points.
pub open spec fn segment_starts(data: Seq<u8>, n: nat, max: nat) -> Option<Seq<int>> {
    match block_scan::next_magic(bits::bits_of(data), 0) {
        None => None,
        Some(first) => {
            let points = block_scan::split_points(
                data,
                n,
                max,
                if n == 0 {
                    0
                } else {
                    (n - 1) as nat
                },
            );
            Some(distinct_points(first, points, points.len()))
        },
    }
}

/// The segments, how many of them are complete, and how many bytes these take
/// up. In a chunk that is not the last, the last segment may go on behind the
/// end, and is left for the next chunk.
pub open spec fn split_of(data: Seq<u8>, n: nat, max: nat, is_last: bool) -> Option<
    (Seq<int>, int, int),
> {
    match segment_starts(data, n, max) {
        None => None,
        Some(starts) => if is_last {
            Some((starts, starts.len() as int, data.len() as int))
        } else if starts.len() > 1 {
            Some((starts, starts.len() - 1, starts.last() / 8))
        } else {
            None
        },
    }
}

/// Cuts a chunk into at most `n_segments` segments, each of which begins with a
/// block.
pub fn split_chunk(data: &[u8], n_segments: usize, max_blocksize: u32, is_last: bool) -> (r: Option<
    ChunkSplit,
>)
    requires
        8 * data@.len() <= usize::MAX,
    ensures
        match split_of(data@, n_segments as nat, max_blocksize as nat, is_last) {
            None => r is None,
            Some((starts, decoded, consumed)) => r matches Some(split) && block_scan::offsets_of(
                split.segment_starts@,
            ) == starts && split.decode_segments == decoded && split.consumed == consumed,
        },
{
    let first: BlockBoundary = match block_scan::find_next_block(data, 0) {
        Some(b) => b,
        None => {
            return None;
        },
    };
    let points: Vec<BlockBoundary> = block_scan::split_boundaries(data, n_segments, max_blocksize);
    let ghost offsets = block_scan::offsets_of(points@);
    let mut starts: Vec<BlockBoundary> = Vec::new();
    starts.push(first);
    let mut last: BlockBoundary = first;
    let mut i: usize = 0;
    assert(block_scan::offsets_of(starts@) == seq![first.bit_offset as int]);
    while i < points.len()
        invariant
            i <= points@.len(),
            offsets == block_scan::offsets_of(points@),
            starts@.len() > 0,
            last == starts@.last(),
            starts@.len() <= i + 1,
            block_scan::offsets_of(starts@) == distinct_points(
                first.bit_offset as int,
                offsets,
                i as nat,
            ),
        decreases points.len() - i,
    {
        let next: BlockBoundary = points[i];
        assert(offsets[i as int] == next.bit_offset);
        assert(block_scan::offsets_of(starts@).last() == last.bit_offset);
        if last.bit_offset != next.bit_offset {
            assert(block_scan::offsets_of(starts@.push(next)) == block_scan::offsets_of(
                starts@,
            ).push(next.bit_offset as int));
            starts.push(next);
            last = next;
        }
        i = i + 1;
    }
    let n: usize = starts.len();
    if is_last {
        return Some(
            ChunkSplit { segment_starts: starts, decode_segments: n, consumed: data.len() },
        );
    }
    if n <= 1 {
        return None;
    }
    proof {
        split_is_ordered(data@, n_segments as nat, max_blocksize as nat);
        let all_starts = block_scan::offsets_of(starts@);
        assert(all_starts.last() == last.bit_offset);
        assert(block_scan::magic_at(bits::bits_of(data@), all_starts[n - 1]));
    }
    let consumed: usize = last.byte_offset();
    Some(ChunkSplit { segment_starts: starts, decode_segments: n - 1, consumed })
}

/// The split points come in order, each at the magic number of a block.
proof fn lemma_split_points(data: Seq<u8>, n: nat, max: nat, k: nat)
    requires
        n > 0,
    ensures
        ({
            let points = block_scan::split_points(data, n, max, k);
            let all = bits::bits_of(data);
            &&& forall|i: int|
                0 <= i < points.len() ==> #[trigger] block_scan::magic_at(all, points[i])
                    && 0 <= points[i]
            &&& forall|i: int, q: int|
                #![trigger points[i], block_scan::block_plausible(all, q, max)]
                0 <= i < points.len() && block_scan::nominal_split(data.len(), n, k) <= q
                    && block_scan::block_plausible(all, q, max) ==> points[i] <= q
            &&& forall|i: int, j: int|
                0 <= i < j < points.len() ==> points[i] <= points[j]
        }),
    decreases k,
{
    let all = bits::bits_of(data);
    let points = block_scan::split_points(data, n, max, k);
    if k > 0 {
        let before = block_scan::split_points(data, n, max, (k - 1) as nat);
        lemma_split_points(data, n, max, (k - 1) as nat);
        let from = block_scan::nominal_split(data.len(), n, (k - 1) as nat);
        let to = block_scan::nominal_split(data.len(), n, k);
        let part = (data.len() / n) as int;
        assert(0 <= part * (k - 1) <= part * k) by (nonlinear_arith)
            requires
                part >= 0,
                k >= 1,
        ;
        assert(0 <= from <= to);
        block_scan::next_plausible_is_first(all, to, max);
        if let Some(p) = block_scan::next_plausible(all, to, max) {
            assert(points == before.push(p));
            assert(block_scan::block_plausible(all, p, max));
            assert forall|i: int, q: int|
                #![trigger points[i], block_scan::block_plausible(all, q, max)]
                0 <= i < points.len() && to <= q && block_scan::block_plausible(
                    all,
                    q,
                    max,
                ) implies points[i] <= q by {
                if i < before.len() {
                    assert(before[i] <= q);
                }
            }
            assert forall|i: int, j: int| 0 <= i < j < points.len() implies points[i]
                <= points[j] by {
                if j == before.len() {
                    assert(before[i] <= p);
                }
            }
        }
    }
}

proof fn lemma_distinct_points(first: int, points: Seq<int>, n: nat)
    requires
        n <= points.len(),
        forall|i: int| 0 <= i < points.len() ==> first <= points[i],
        forall|i: int, j: int| 0 <= i < j < points.len() ==> points[i] <= points[j],
    ensures
        ({
            let d = distinct_points(first, points, n);
            &&& d.len() > 0
            &&& d[0] == first
            &&& d.last() == if n == 0 {
                first
            } else {
                points[n - 1]
            }
            &&& forall|i: int|
                0 <= i < d.len() ==> #[trigger] d[i] == first || points.contains(d[i])
            &&& forall|i: int, j: int| 0 <= i < j < d.len() ==> d[i] < d[j]
        }),
    decreases n,
{
    if n > 0 {
        lemma_distinct_points(first, points, (n - 1) as nat);
        let before = distinct_points(first, points, (n - 1) as nat);
        let d = distinct_points(first, points, n);
        assert(points.contains(points[n - 1]));
        assert forall|i: int, j: int| 0 <= i < j < d.len() implies d[i] < d[j] by {
            if j == before.len() {
                assert(before[i] <= before.last());
            }
        }
    }
}

/// The segments of a chunk follow each other: the first begins at the first
/// block, each of the others at the magic number of a later one.
pub proof fn split_is_ordered(data: Seq<u8>, n: nat, max: nat)
    ensures
        segment_starts(data, n, max) matches Some(starts) ==> {
            &&& starts.len() > 0
            &&& block_scan::next_magic(bits::bits_of(data), 0) == Some(starts[0])
            &&& forall|i: int|
                0 <= i < starts.len() ==> 0 <= starts[i] && #[trigger] block_scan::magic_at(
                    bits::bits_of(data),
                    starts[i],
                )
            &&& forall|i: int, j: int| 0 <= i < j < starts.len() ==> starts[i] < starts[j]
        },
{
    let all = bits::bits_of(data);
    block_scan::next_magic_is_first(all, 0);
    if let Some(first) = block_scan::next_magic(all, 0) {
        let k = if n == 0 {
            0
        } else {
            (n - 1) as nat
        };
        let points = block_scan::split_points(data, n, max, k);
        if n > 0 {
            lemma_split_points(data, n, max, k);
        }
        assert forall|i: int| 0 <= i < points.len() implies first <= points[i] by {
            assert(block_scan::magic_at(all, points[i]));
        }
        lemma_distinct_points(first, points, points.len());
        let starts = distinct_points(first, points, points.len());
        assert forall|i: int| 0 <= i < starts.len() implies 0 <= starts[i]
            && #[trigger] block_scan::magic_at(all, starts[i]) by {
            if starts[i] != first {
                let j = choose|j: int| 0 <= j < points.len() && points[j] == starts[i];
                assert(block_scan::magic_at(all, points[j]));
            }
        }
    }
}

// Segments.

/// The next bit from `p` on with which a byte begins.
pub open spec fn byte_aligned(p: int) -> int {
    p + (8 - p % 8) % 8
}

/// The text of what stands at bit `pos` of a segment, and the bit behind it:
/// a block, or the end of one stream and the head of the next. `None` where
/// neither does.
pub open spec fn step_at(all: Seq<bool>, pos: int, max: nat) -> Option<(Seq<u8>, int)> {
    if pos + 48 > all.len() {
        None
    } else if bits::bits_value(all, pos, 48) == BLOCK_MAGIC {
        match grammar::block_at(all, pos + 48, max) {
            grammar::Parsed::Done(text, next) => Some((text, next)),
            grammar::Parsed::Fail(_, _) => None,
        }
    } else if bits::bits_value(all, pos, 48) == FINAL_MAGIC {
        let head = byte_aligned(pos + 80);
        if head + 32 <= all.len() && bits::bits_value(all, head, 24) == 0x425a68 {
            Some((Seq::empty(), head + 32))
        } else {
            None
        }
    } else {
        None
    }
}

pub proof fn lemma_step_end(all: Seq<bool>, pos: int, max: nat)
    ensures
        step_at(all, pos, max) matches Some((_, next)) ==> pos + 48 < next <= all.len(),
{
    grammar::lemma_block_end(all, pos + 48, max);
}

/// The text of everything from bit `pos` on that begins in front of bit `end`.
pub open spec fn text_until(all: Seq<bool>, pos: int, end: int, max: nat) -> Seq<u8>
    decreases all.len() - pos,
{
    if pos >= end {
        Seq::empty()
    } else {
        match step_at(all, pos, max) {
            None => Seq::empty(),
            Some((text, next)) => {
                proof {
                    lemma_step_end(all, pos, max);
                }
                text + text_until(all, next, end, max)
            },
        }
    }
}

/// The text of the segment whose first block has its magic number at bit
/// `start`, and which ends at bit `end`.
pub open spec fn segment_text(all: Seq<bool>, start: int, end: int, max: nat) -> Seq<u8> {
    match grammar::block_at(all, start + 48, max) {
        grammar::Parsed::Fail(_, _) => Seq::empty(),
        grammar::Parsed::Done(text, next) => text + text_until(all, next, end, max),
    }
}

/// Decodes a segment: the block whose magic number stands at `start_bit`, and
/// the blocks that follow it and begin in front of `end_bit`. Goes on from one
/// stream to the next, and stops at what is not a block.
pub fn decode_segment(data: &[u8], start_bit: u64, end_bit: u64, max_blocksize: u32) -> (r: Vec<u8>)
    requires
        8 * data@.len() <= usize::MAX,
        start_bit + 48 <= u64::MAX,
    ensures
        r@ == segment_text(
            bits::bits_of(data@),
            start_bit as int,
            end_bit as int,
            max_blocksize as nat,
        ),
{
    let ghost all = bits::bits_of(data@);
    let ghost end = end_bit as int;
    let ghost max = max_blocksize as nat;
    let ghost goal = segment_text(all, start_bit as int, end, max);
    let total: usize = 8 * data.len();
    let mut tt: Vec<u32> = Vec::new();
    let mut output: Vec<u8> = Vec::new();
    if start_bit + 48 > total as u64 {
        proof {
            grammar::lemma_block_end(all, start_bit + 48, max);
        }
        return output;
    }
    let mut reader: BitReader<'_> = BitReader::from_bit_offset(data, (start_bit + 48) as usize);
    match block::decode_block_with(&mut reader, max_blocksize, &mut tt, &mut output) {
        Ok(()) => {},
        Err(_) => {
            return output;
        },
    }
    loop
        invariant
            all == bits::bits_of(data@),
            end == end_bit as int,
            max == max_blocksize as nat,
            reader.bits() == all,
            total == all.len(),
            total % 8 == 0,
            goal == segment_text(all, start_bit as int, end, max),
            output@ + text_until(all, reader.pos() as int, end, max) == goal,
        decreases all.len() - reader.pos(),
    {
        let pos: usize = reader.position();
        proof {
            lemma_step_end(all, pos as int, max);
            assert(output@ + Seq::<u8>::empty() == output@);
        }
        if total - pos < 48 || pos as u64 >= end_bit {
            return output;
        }
        let magic: u64 = match reader.read_u64(48) {
            Some(v) => v,
            None => {
                return output;
            },
        };
        if magic == BLOCK_MAGIC {
            let ghost before = output@;
            match block::decode_block_with(&mut reader, max_blocksize, &mut tt, &mut output) {
                Ok(()) => {},
                Err(_) => {
                    return output;
                },
            }
            proof {
                let (text, next) = step_at(all, pos as int, max)->0;
                assert(before + (text + text_until(all, next, end, max)) == before + text
                    + text_until(all, next, end, max));
            }
        } else if magic == FINAL_MAGIC {
            if reader.read_u32(32).is_none() {
                return output;
            }
            let behind: usize = reader.position();
            let pad: usize = (8 - behind % 8) % 8;
            reader.skip(pad);
            match reader.read_u32(32) {
                Some(head) => {
                    proof {
                        let at = byte_aligned(pos + 80);
                        lemma2_to64();
                        bits::lemma_bits_value_split(all, at, 24, 8);
                        bits::lemma_bits_value_bound(all, at + 24, 8);
                        assert(head / 256 == bits::bits_value(all, at, 24));
                        let next = at + 32;
                        assert(Seq::<u8>::empty() + text_until(all, next, end, max) == text_until(
                            all,
                            next,
                            end,
                            max,
                        ));
                    }
                    if head / 256 != 0x425a68 {
                        return output;
                    }
                },
                None => {
                    return output;
                },
            }
        } else {
            return output;
        }
    }
}

/// The bit at which segment `i` ends: the start of the next, or the end of the
/// data.
pub open spec fn end_of(starts: Seq<int>, i: int, total: int) -> int {
    if i + 1 < starts.len() {
        starts[i + 1]
    } else {
        total
    }
}

/// Which bits a worker is to decode.
#[derive(Clone, Copy, Debug, PartialEq, Eq, Structural)]
pub struct SegmentRange {
    pub start_bit: u64,
    pub end_bit: u64,
}

impl ChunkSplit {
    /// The bit at which segment `i` ends, in a chunk of `total_bits`.
    pub fn segment_end(&self, i: usize, total_bits: u64) -> (r: u64)
        requires
            i < self.segment_starts@.len(),
        ensures
            r == end_of(
                block_scan::offsets_of(self.segment_starts@),
                i as int,
                total_bits as int,
            ),
    {
        if self.segment_starts.len() - i > 1 {
            self.segment_starts[i + 1].bit_offset
        } else {
            total_bits
        }
    }

    /// The segments to decode, in a chunk of `total_bits`.
    pub fn work(&self, total_bits: u64) -> (r: Vec<SegmentRange>)
        requires
            self.decode_segments <= self.segment_starts@.len(),
        ensures
            r@.len() == self.decode_segments,
            forall|i: int|
                0 <= i < r@.len() ==> {
                    &&& (#[trigger] r@[i]).start_bit == self.segment_starts@[i].bit_offset
                    &&& r@[i].end_bit == end_of(
                        block_scan::offsets_of(self.segment_starts@),
                        i,
                        total_bits as int,
                    )
                },
    {
        let mut ranges: Vec<SegmentRange> = Vec::new();
        let mut i: usize = 0;
        while i < self.decode_segments
            invariant
                self.decode_segments <= self.segment_starts@.len(),
                i <= self.decode_segments,
                ranges@.len() == i,
                forall|k: int|
                    0 <= k < i ==> {
                        &&& (#[trigger] ranges@[k]).start_bit == self.segment_starts@[k].bit_offset
                        &&& ranges@[k].end_bit == end_of(
                            block_scan::offsets_of(self.segment_starts@),
                            k,
                            total_bits as int,
                        )
                    },
            decreases self.decode_segments - i,
        {
            let start_bit: u64 = self.segment_starts[i].bit_offset;
            let end_bit: u64 = self.segment_end(i, total_bits);
            ranges.push(SegmentRange { start_bit, end_bit });
            i = i + 1;
        }
        ranges
    }
}

/// What to do with a chunk: hand its segments out, put all of it in front of the
/// next, or stop.
#[derive(Debug)]
pub enum ChunkStep {
    Decode(ChunkSplit),
    Carry,
    Stop,
}

/// What to do with a chunk, as contracts speak of it: the segments, how many of
/// them to decode, and how many bytes these take up, where there is anything to
/// decode.
pub enum Plan {
    Decode(Seq<int>, int, int),
    Carry,
    Stop,
}

/// What to do with a chunk that begins with `carried` bytes of the one before.
/// Where more chunks follow, it is cut in two at least, so that a single worker
/// gets on, too.
pub open spec fn plan_of(data: Seq<u8>, carried: nat, n: nat, max: nat, is_last: bool) -> Plan {
    if carried == data.len() && carried <= 4 {
        Plan::Stop
    } else {
        let at_least = if !is_last && n < 2 {
            2
        } else {
            n
        };
        match split_of(data, at_least, max, is_last) {
            Some((starts, decoded, consumed)) => Plan::Decode(starts, decoded, consumed),
            None => if is_last {
                Plan::Stop
            } else {
                Plan::Carry
            },
        }
    }
}

/// Decides what to do with a chunk: `carried` bytes that were left of the one
/// before, followed by those that were read. A chunk with nothing new stops the
/// work, unless more than the head of a stream was carried into it. One without a
/// complete segment is kept for the next, and no byte of it is lost.
pub fn plan_chunk(
    data: &[u8],
    carried: usize,
    n_segments: usize,
    max_blocksize: u32,
    is_last: bool,
) -> (r: ChunkStep)
    requires
        8 * data@.len() <= usize::MAX,
        carried <= data@.len(),
    ensures
        match plan_of(
            data@,
            carried as nat,
            n_segments as nat,
            max_blocksize as nat,
            is_last,
        ) {
            Plan::Decode(starts, decoded, consumed) => r matches ChunkStep::Decode(split)
                && block_scan::offsets_of(split.segment_starts@) == starts && split.decode_segments
                == decoded && split.consumed == consumed,
            Plan::Carry => r is Carry,
            Plan::Stop => r is Stop,
        },
{
    if carried == data.len() && carried <= 4 {
        return ChunkStep::Stop;
    }
    let at_least: usize = if !is_last && n_segments < 2 {
        2
    } else {
        n_segments
    };
    match split_chunk(data, at_least, max_blocksize, is_last) {
        Some(split) => ChunkStep::Decode(split),
        None => if is_last {
            ChunkStep::Stop
        } else {
            ChunkStep::Carry
        },
    }
}

/// The texts of the first `n` segments of a chunk, in order.
pub open spec fn segments_text(
    all: Seq<bool>,
    starts: Seq<int>,
    total: int,
    max: nat,
    n: nat,
) -> Seq<u8>
    decreases n,
{
    if n == 0 {
        Seq::empty()
    } else {
        segments_text(all, starts, total, max, (n - 1) as nat) + segment_text(
            all,
            starts[n - 1],
            end_of(starts, n - 1, total),
            max,
        )
    }
}

/// Decodes chunks of one stream, segment after segment.
#[derive(Clone, Copy, Debug)]
pub struct ChunkDecoder {
    max_blocksize: u32,
    n_segments: usize,
}

impl ChunkDecoder {
    /// The size of the largest block.
    pub closed spec fn max_blocksize(self) -> nat {
        self.max_blocksize as nat
    }

    /// How many segments a chunk is cut into at most.
    pub closed spec fn n_segments(self) -> nat {
        self.n_segments as nat
    }

    /// A decoder for the stream that begins with the given bytes.
    pub fn from_header(header: &[u8]) -> (r: Result<ChunkDecoder, BlockError>)
        ensures
            match r {
                Ok(decoder) => stream::head_error(header@) is None && decoder.max_blocksize()
                    == stream::head_blocksize(header@) && decoder.n_segments() == DEFAULT_SEGMENTS,
                Err(e) => stream::head_error(header@) == Some(e.0@),
            },
            r matches Ok(decoder) ==> decoder.n_segments() == 32,
    {
        match stream::read_head(header) {
            Ok(max_blocksize) => Ok(ChunkDecoder { max_blocksize, n_segments: DEFAULT_SEGMENTS }),
            Err(e) => Err(e),
        }
    }

    /// The decoder with another number of segments.
    pub fn with_segments(self, n_segments: usize) -> (r: ChunkDecoder)
        ensures
            r.max_blocksize() == self.max_blocksize(),
            r.n_segments() == n_segments,
    {
        ChunkDecoder { max_blocksize: self.max_blocksize, n_segments }
    }

    /// Decodes the complete segments of a chunk. Returns their texts, in order,
    /// and the number of bytes that they take up. `None` where the chunk has no
    /// complete segment.
    pub fn decode_chunk_segments(&self, data: &[u8], is_last: bool) -> (r: Option<
        (Vec<Vec<u8>>, usize),
    >)
        requires
            8 * data@.len() <= usize::MAX,
        ensures
            match split_of(data@, self.n_segments(), self.max_blocksize(), is_last) {
                None => r is None,
                Some((starts, decoded, consumed)) => r matches Some((texts, n)) && n == consumed
                    && texts@.len() == decoded && forall|i: int|
                    0 <= i < decoded ==> (#[trigger] texts@[i])@ == segment_text(
                        bits::bits_of(data@),
                        starts[i],
                        end_of(starts, i, 8 * data@.len() as int),
                        self.max_blocksize(),
                    ),
            },
    {
        let split: ChunkSplit = match split_chunk(
            data,
            self.n_segments,
            self.max_blocksize,
            is_last,
        ) {
            Some(split) => split,
            None => {
                return None;
            },
        };
        let ghost starts = block_scan::offsets_of(split.segment_starts@);
        let ghost total = 8 * data@.len() as int;
        let ranges: Vec<SegmentRange> = split.work((8 * data.len()) as u64);
        let mut texts: Vec<Vec<u8>> = Vec::new();
        let mut i: usize = 0;
        proof {
            split_is_ordered(data@, self.n_segments(), self.max_blocksize());
        }
        while i < ranges.len()
            invariant
                8 * data@.len() <= usize::MAX,
                total == 8 * data@.len(),
                i <= ranges@.len() <= starts.len(),
                starts.len() == split.segment_starts@.len(),
                starts == block_scan::offsets_of(split.segment_starts@),
                forall|k: int|
                    0 <= k < starts.len() ==> #[trigger] block_scan::magic_at(
                        bits::bits_of(data@),
                        starts[k],
                    ),
                forall|k: int|
                    0 <= k < ranges@.len() ==> {
                        &&& (#[trigger] ranges@[k]).start_bit == split.segment_starts@[k].bit_offset
                        &&& ranges@[k].end_bit == end_of(starts, k, total)
                    },
                texts@.len() == i,
                forall|k: int|
                    0 <= k < i ==> (#[trigger] texts@[k])@ == segment_text(
                        bits::bits_of(data@),
                        starts[k],
                        end_of(starts, k, total),
                        self.max_blocksize(),
                    ),
            decreases ranges.len() - i,
        {
            let range: SegmentRange = ranges[i];
            proof {
                assert(starts[i as int] == range.start_bit);
                assert(block_scan::magic_at(bits::bits_of(data@), starts[i as int]));
            }
            texts.push(decode_segment(data, range.start_bit, range.end_bit, self.max_blocksize));
            i = i + 1;
        }
        Some((texts, split.consumed))
    }

    /// Decodes the complete segments of a chunk into one text.
    pub fn decode_chunk(&self, data: &[u8], is_last: bool) -> (r: Option<(Vec<u8>, usize)>)
        requires
            8 * data@.len() <= usize::MAX,
        ensures
            match split_of(data@, self.n_segments(), self.max_blocksize(), is_last) {
                None => r is None,
                Some((starts, decoded, consumed)) => r matches Some((text, n)) && n == consumed
                    && text@ == segments_text(
                    bits::bits_of(data@),
                    starts,
                    8 * data@.len() as int,
                    self.max_blocksize(),
                    decoded as nat,
                ),
            },
    {
        let (texts, consumed): (Vec<Vec<u8>>, usize) = match self.decode_chunk_segments(
            data,
            is_last,
        ) {
            Some(decoded) => decoded,
            None => {
                return None;
            },
        };
        let ghost all = bits::bits_of(data@);
        let ghost total = 8 * data@.len() as int;
        let ghost max = self.max_blocksize();
        let ghost starts = (split_of(data@, self.n_segments(), max, is_last)->0).0;
        let mut output: Vec<u8> = Vec::new();
        let mut i: usize = 0;
        while i < texts.len()
            invariant
                i <= texts@.len(),
                forall|k: int|
                    0 <= k < texts@.len() ==> (#[trigger] texts@[k])@ == segment_text(
                        all,
                        starts[k],
                        end_of(starts, k, total),
                        max,
                    ),
                output@ == segments_text(all, starts, total, max, i as nat),
            decreases texts.len() - i,
        {
            let ghost before = output@;
            output.extend_from_slice(&texts[i]);
            assert(output@ == before + texts@[i as int]@);
            i = i + 1;
        }
        Some((output, consumed))
    }
}

/// What follows a stream begins with the next whole byte.
pub proof fn next_byte_is_nearest(p: int)
    requires
        0 <= p,
    ensures
        byte_aligned(p) % 8 == 0,
        p <= byte_aligned(p) < p + 8,
{
}

// How far a segment is read.

/// Where a block stands in front of the end, its text comes first, and then that of
/// what follows it. It may go on behind the end.
pub proof fn block_is_read_on(all: Seq<bool>, pos: int, end: int, max: nat)
    requires
        pos < end,
        pos + 48 <= all.len(),
        bits::bits_value(all, pos, 48) == 0x314159265359,
    ensures
        match grammar::block_at(all, pos + 48, max) {
            grammar::Parsed::Done(text, next) => text_until(all, pos, end, max) == text
                + text_until(all, next, end, max),
            grammar::Parsed::Fail(_, _) => text_until(all, pos, end, max) == Seq::<u8>::empty(),
        },
{
}

/// Where a stream ends in front of the end, and behind its checksum, from the next
/// whole byte on, the letters `BZh` and one more byte stand, reading goes on behind
/// them, whatever that byte is. Otherwise it stops.
pub proof fn next_stream_is_read_on(all: Seq<bool>, pos: int, end: int, max: nat, at: int)
    requires
        0 <= pos < end,
        pos + 48 <= all.len(),
        bits::bits_value(all, pos, 48) == 0x177245385090,
        at % 8 == 0,
        pos + 48 + 32 <= at < pos + 48 + 32 + 8,
    ensures
        at + 32 <= all.len() && bits::bits_value(all, at, 24) == 0x425a68 ==> text_until(
            all,
            pos,
            end,
            max,
        ) == text_until(all, at + 32, end, max),
        at + 32 > all.len() || bits::bits_value(all, at, 24) != 0x425a68 ==> text_until(
            all,
            pos,
            end,
            max,
        ) == Seq::<u8>::empty(),
{
    let rest = text_until(all, at + 32, end, max);
    next_byte_is_nearest(pos + 80);
    assert(byte_aligned(pos + 80) == at);
    assert(Seq::<u8>::empty() + rest == rest);
}

/// Reading stops at what is neither a block nor the end of a stream, and at the end
/// of the segment.
pub proof fn reading_stops(all: Seq<bool>, pos: int, end: int, max: nat)
    requires
        pos >= end || pos + 48 > all.len() || (bits::bits_value(all, pos, 48) != 0x314159265359
            && bits::bits_value(all, pos, 48) != 0x177245385090),
    ensures
        text_until(all, pos, end, max) == Seq::<u8>::empty(),
{
}

/// The first block of a segment is read wherever the segment ends, and then what
/// follows it. Where it cannot be decoded nothing is.
pub proof fn first_block_is_read(all: Seq<bool>, start: int, end: int, max: nat)
    ensures
        match grammar::block_at(all, start + 48, max) {
            grammar::Parsed::Done(text, next) => segment_text(all, start, end, max) == text
                + text_until(all, next, end, max),
            grammar::Parsed::Fail(_, _) => segment_text(all, start, end, max)
                == Seq::<u8>::empty(),
        },
{
}

/// The texts of the segments of a chunk are those of each, one behind the other.
pub proof fn segments_follow_each_other(
    all: Seq<bool>,
    starts: Seq<int>,
    total: int,
    max: nat,
    n: nat,
)
    ensures
        segments_text(all, starts, total, max, n) == Seq::new(
            n,
            |i: int|
                segment_text(
                    all,
                    starts[i],
                    if i + 1 < starts.len() {
                        starts[i + 1]
                    } else {
                        total
                    },
                    max,
                ),
        ).flatten(),
    decreases n,
{
    let texts = Seq::new(
        n,
        |i: int|
            segment_text(
                all,
                starts[i],
                if i + 1 < starts.len() {
                    starts[i + 1]
                } else {
                    total
                },
                max,
            ),
    );
    texts.lemma_flatten_and_flatten_alt_are_equivalent();
    if n > 0 {
        let m = (n - 1) as nat;
        segments_follow_each_other(all, starts, total, max, m);
        let before = texts.drop_last();
        before.lemma_flatten_and_flatten_alt_are_equivalent();
        assert(before == Seq::new(
            m,
            |i: int|
                segment_text(
                    all,
                    starts[i],
                    if i + 1 < starts.len() {
                        starts[i + 1]
                    } else {
                        total
                    },
                    max,
                ),
        ));
    }
}

} // verus!
