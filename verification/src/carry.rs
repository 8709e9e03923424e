//! Decoding in chunks gives what decoding in one go gives.
//!
//! The bytes of a chunk that belong to no complete segment are put in front of
//! the next chunk. Nothing is lost and nothing is decoded twice.
use vstd::arithmetic::div_mod::*;
use vstd::arithmetic::power2::*;
use vstd::prelude::*;

use crate::bits;
use crate::block_scan;
use crate::chunk;
use crate::chunk::Plan;
use crate::codes;
use crate::grammar;
use crate::locality;
use crate::parts;
use crate::stream;
use crate::stream::Decoded;
use crate::BLOCK_MAGIC;

verus! {

// What stands in a part of the data.

/// What stands at a bit of a segment can be moved, by whole bytes.
pub proof fn lemma_step_alike(
    a: Seq<bool>,
    b: Seq<bool>,
    shift: int,
    from: int,
    limit: int,
    pos: int,
    max: nat,
)
    requires
        locality::alike(a, b, shift, from, limit),
        from <= pos,
        shift % 8 == 0,
        chunk::step_at(a, pos, max) matches Some((_, next)) && (next + codes::FAST_BITS <= limit
            || locality::both_end(a, b, shift, limit)),
    ensures
        chunk::step_at(b, pos + shift, max) == Some(
            (
                (chunk::step_at(a, pos, max)->0).0,
                (chunk::step_at(a, pos, max)->0).1 + shift,
            ),
        ),
{
    chunk::lemma_step_end(a, pos, max);
    locality::lemma_value_alike(a, b, shift, from, limit, pos, 48);
    if bits::bits_value(a, pos, 48) == BLOCK_MAGIC {
        assert(locality::alike(a, b, shift, pos + 48 + 32, limit));
        locality::block_is_local(a, b, shift, limit, pos + 48, max);
        assert(pos + 48 + shift == pos + shift + 48);
    } else {
        let head = chunk::byte_aligned(pos + 80);
        assert(chunk::byte_aligned(pos + shift + 80) == head + shift) by {
            assert((pos + shift + 80) % 8 == (pos + 80) % 8);
        }
        locality::lemma_value_alike(a, b, shift, from, limit, head, 24);
    }
}

/// The text up to a bit does not depend on what stands more than 48 bits behind
/// it.
pub proof fn lemma_text_before_alike(
    a: Seq<bool>,
    b: Seq<bool>,
    limit: int,
    pos: int,
    mid: int,
    max: nat,
)
    requires
        locality::alike(a, b, 0, 0, limit),
        0 <= pos,
        mid + 48 <= limit,
        parts::reaches(a, pos, mid, max),
    ensures
        parts::reaches(b, pos, mid, max),
        chunk::text_until(a, pos, mid, max) == chunk::text_until(b, pos, mid, max),
    decreases a.len() - pos,
{
    if pos < mid {
        let (text, next) = chunk::step_at(a, pos, max)->0;
        chunk::lemma_step_end(a, pos, max);
        parts::lemma_reaches_later(a, next, mid, max);
        lemma_step_alike(a, b, 0, 0, limit, pos, max);
        lemma_text_before_alike(a, b, limit, next, mid, max);
    }
}

/// The text up to the end, and what reading on comes to, do not depend on what
/// stands in front.
pub proof fn lemma_text_after_alike(
    a: Seq<bool>,
    b: Seq<bool>,
    shift: int,
    from: int,
    pos: int,
    max: nat,
)
    requires
        locality::alike(a, b, shift, from, a.len() as int),
        a.len() + shift == b.len(),
        shift % 8 == 0,
        from <= pos,
    ensures
        chunk::text_until(a, pos, a.len() as int, max) == chunk::text_until(
            b,
            pos + shift,
            b.len() as int,
            max,
        ),
    decreases a.len() - pos,
{
    assert forall|i: int| from + shift <= i < b.len() implies #[trigger] b[i] == a[i
        + (-shift)] by {
        assert(a[i - shift] == b[i - shift + shift]);
    }
    assert(locality::alike(b, a, -shift, from + shift, b.len() as int));
    assert((-shift) % 8 == 0);
    if chunk::step_at(a, pos, max) is Some {
        let next = (chunk::step_at(a, pos, max)->0).1;
        chunk::lemma_step_end(a, pos, max);
        lemma_step_alike(a, b, shift, from, a.len() as int, pos, max);
        lemma_text_after_alike(a, b, shift, from, next, max);
    } else if chunk::step_at(b, pos + shift, max) is Some {
        lemma_step_alike(b, a, -shift, from + shift, b.len() as int, pos + shift, max);
        assert(pos + shift + (-shift) == pos);
    }
}

pub proof fn lemma_reaches_alike(
    a: Seq<bool>,
    b: Seq<bool>,
    shift: int,
    from: int,
    pos: int,
    mid: int,
    max: nat,
)
    requires
        locality::alike(a, b, shift, from, a.len() as int),
        a.len() + shift == b.len(),
        shift % 8 == 0,
        from <= pos,
        parts::reaches(a, pos, mid, max),
    ensures
        parts::reaches(b, pos + shift, mid + shift, max),
    decreases a.len() - pos,
{
    if pos < mid {
        let next = (chunk::step_at(a, pos, max)->0).1;
        chunk::lemma_step_end(a, pos, max);
        lemma_step_alike(a, b, shift, from, a.len() as int, pos, max);
        lemma_reaches_alike(a, b, shift, from, next, mid, max);
    }
}

proof fn lemma_reaches_between(all: Seq<bool>, pos: int, mid: int, end: int, max: nat)
    requires
        parts::reaches(all, pos, mid, max),
        parts::reaches(all, pos, end, max),
        mid <= end,
    ensures
        parts::reaches(all, mid, end, max),
    decreases all.len() - pos,
{
    if pos < mid {
        let next = (chunk::step_at(all, pos, max)->0).1;
        chunk::lemma_step_end(all, pos, max);
        lemma_reaches_between(all, next, mid, end, max);
    }
}

/// The bits of a string of which a number is made up twice, `high` and `low`
/// being the weights of its two ends.
proof fn lemma_middle(whole: int, before: int, middle: int, after: int, high: int, low: int)
    requires
        whole == before * high + middle,
        whole == middle * low + after,
        0 <= middle < high,
        0 <= after < low,
    ensures
        whole % high == whole / low,
{
    lemma_fundamental_div_mod_converse(whole, high, before, middle);
    lemma_fundamental_div_mod_converse(whole, low, middle, after);
}

/// Magic numbers do not overlap by all but a few bits.
proof fn lemma_magics_apart(all: Seq<bool>, q: int, d: nat)
    requires
        1 <= d <= 7,
        block_scan::magic_at(all, q),
    ensures
        !block_scan::magic_at(all, q + d),
{
    lemma2_to64();
    lemma2_to64_rest();
    let k = (48 - d) as nat;
    bits::lemma_bits_value_split(all, q, d, k);
    bits::lemma_bits_value_split(all, q + d, k, d);
    bits::lemma_bits_value_bound(all, q + d, k);
    bits::lemma_bits_value_bound(all, q + d + k, d);
    if bits::bits_value(all, q + d, 48) == BLOCK_MAGIC {
        lemma_middle(
            BLOCK_MAGIC as int,
            bits::bits_value(all, q, d) as int,
            bits::bits_value(all, q + d, k) as int,
            bits::bits_value(all, q + d + k, d) as int,
            pow2(k) as int,
            pow2(d) as int,
        );
        if d == 1 {
            assert(BLOCK_MAGIC as int % 0x800000000000 != BLOCK_MAGIC as int / 2);
        } else if d == 2 {
            assert(BLOCK_MAGIC as int % 0x400000000000 != BLOCK_MAGIC as int / 4);
        } else if d == 3 {
            assert(BLOCK_MAGIC as int % 0x200000000000 != BLOCK_MAGIC as int / 8);
        } else if d == 4 {
            assert(BLOCK_MAGIC as int % 0x100000000000 != BLOCK_MAGIC as int / 16);
        } else if d == 5 {
            assert(BLOCK_MAGIC as int % 0x80000000000 != BLOCK_MAGIC as int / 32);
        } else if d == 6 {
            assert(BLOCK_MAGIC as int % 0x40000000000 != BLOCK_MAGIC as int / 64);
        } else {
            assert(BLOCK_MAGIC as int % 0x20000000000 != BLOCK_MAGIC as int / 128);
        }
    }
}

pub proof fn lemma_bits_taken(data: Seq<u8>, mid: int)
    requires
        0 <= mid <= data.len(),
    ensures
        locality::alike(bits::bits_of(data.take(mid)), bits::bits_of(data), 0, 0, 8 * mid),
        locality::alike(bits::bits_of(data), bits::bits_of(data.take(mid)), 0, 0, 8 * mid),
{
}

pub proof fn lemma_bits_skipped(data: Seq<u8>, n: int)
    requires
        0 <= n <= data.len(),
    ensures
        locality::alike(
            bits::bits_of(data),
            bits::bits_of(data.skip(n)),
            -8 * n,
            8 * n,
            8 * data.len() as int,
        ),
        (-8 * n) % 8 == 0,
{
    let a = bits::bits_of(data);
    let b = bits::bits_of(data.skip(n));
    assert forall|i: int| 8 * n <= i < a.len() implies #[trigger] a[i] == b[i + (-8 * n)] by {
        assert((i - 8 * n) / 8 == i / 8 - n);
        assert((i - 8 * n) % 8 == i % 8);
    }
}

pub proof fn lemma_bits_behind(first: Seq<u8>, second: Seq<u8>)
    ensures
        locality::alike(
            bits::bits_of(second),
            bits::bits_of(first + second),
            8 * first.len() as int,
            0,
            8 * second.len() as int,
        ),
        (8 * first.len() as int) % 8 == 0,
{
    let len = first.len() as int;
    let all = bits::bits_of(first + second);
    let rest = bits::bits_of(second);
    assert forall|i: int| 0 <= i < rest.len() implies #[trigger] rest[i] == all[i + 8 * len] by {
        assert((i + 8 * len) / 8 == i / 8 + len);
        assert((i + 8 * len) % 8 == i % 8);
        assert((first + second)[i / 8 + len] == second[i / 8]);
    }
}

// Two chunks.

/// The data up to a block that reading on in the first `mid` bytes comes to.
proof fn lemma_first_chunk(data: Seq<u8>, mid: int, start: int, last: int, max: nat)
    requires
        0 <= mid <= data.len(),
        0 <= start < last,
        block_scan::magic_at(bits::bits_of(data.take(mid)), start),
        block_scan::magic_at(bits::bits_of(data.take(mid)), last),
        parts::reaches(bits::bits_of(data.take(mid)), start, last, max),
    ensures
        block_scan::magic_at(bits::bits_of(data), start),
        block_scan::magic_at(bits::bits_of(data), last),
        parts::reaches(bits::bits_of(data), start, last, max),
        chunk::segment_text(bits::bits_of(data.take(mid)), start, last, max)
            == chunk::segment_text(bits::bits_of(data), start, last, max),
{
    let first = bits::bits_of(data.take(mid));
    let all = bits::bits_of(data);
    lemma_bits_taken(data, mid);
    locality::lemma_value_alike(first, all, 0, 0, 8 * mid, start, 48);
    locality::lemma_value_alike(first, all, 0, 0, 8 * mid, last, 48);
    lemma_text_before_alike(first, all, 8 * mid, start, last, max);
    parts::lemma_segment_text(first, start, last, max);
    parts::lemma_segment_text(all, start, last, max);
}

/// A segment with a block in it that is decoded is not empty.
proof fn lemma_segment_some(all: Seq<bool>, start: int, last: int, max: nat)
    requires
        start < last,
        block_scan::magic_at(all, start),
        parts::reaches(all, start, last, max),
    ensures
        chunk::segment_text(all, start, last, max).len() > 0,
{
    grammar::lemma_block_some(all, start + 48, max);
}

/// The data from the byte on in which a block begins.
proof fn lemma_next_chunk(data: Seq<u8>, consumed: int, last: int, max: nat)
    requires
        0 <= consumed <= data.len(),
        8 * consumed <= last < 8 * consumed + 8,
        block_scan::magic_at(bits::bits_of(data), last),
    ensures
        block_scan::magic_at(bits::bits_of(data.skip(consumed)), last - 8 * consumed),
        block_scan::next_magic(bits::bits_of(data.skip(consumed)), 0) == Some(
            last - 8 * consumed,
        ),
        chunk::segment_text(bits::bits_of(data), last, 8 * data.len() as int, max)
            == chunk::segment_text(
            bits::bits_of(data.skip(consumed)),
            last - 8 * consumed,
            8 * data.skip(consumed).len() as int,
            max,
        ),
{
    let all = bits::bits_of(data);
    let rest = bits::bits_of(data.skip(consumed));
    let shift = -8 * consumed;
    let from = 8 * consumed;
    lemma_bits_skipped(data, consumed);
    locality::lemma_value_alike(all, rest, shift, from, all.len() as int, last, 48);
    assert(block_scan::magic_at(rest, last + shift));
    parts::lemma_segment_text(all, last, all.len() as int, max);
    parts::lemma_segment_text(rest, last + shift, rest.len() as int, max);
    lemma_text_after_alike(all, rest, shift, from, last, max);
    block_scan::next_magic_is_first(rest, 0);
    let found = block_scan::next_magic(rest, 0)->0;
    if found < last + shift {
        lemma_magics_apart(rest, found, (last + shift - found) as nat);
    }
}

/// Data can be decoded in chunks. What was not consumed of the first `mid` bytes
/// is put in front of the bytes behind them: the search in this next chunk finds
/// the block with which the last segment of the first chunk begins, and the text
/// of the complete segments of the first chunk, which is not empty, followed by
/// that of the next chunk, is the text of the data. This holds where the segments
/// of the first chunk follow each other.
pub proof fn chunks_join(data: Seq<u8>, mid: int, n: nat, max: nat)
    requires
        0 <= mid <= data.len(),
        chunk::split_of(data.take(mid), n, max, false) matches Some((starts, _, _))
            && parts::segments_follow(bits::bits_of(data.take(mid)), starts, 8 * mid, max),
    ensures
        ({
            let (starts, decoded, consumed) = chunk::split_of(data.take(mid), n, max, false)->0;
            let next = data.skip(consumed);
            let front = chunk::segments_text(
                bits::bits_of(data.take(mid)),
                starts,
                8 * mid,
                max,
                decoded as nat,
            );
            &&& 0 <= consumed <= mid
            &&& front.len() > 0
            &&& block_scan::next_magic(bits::bits_of(next), 0) == Some(
                starts.last() - 8 * consumed,
            )
            &&& chunk::segment_text(bits::bits_of(data), starts[0], 8 * data.len() as int, max)
                == front + chunk::segment_text(
                bits::bits_of(next),
                starts.last() - 8 * consumed,
                8 * next.len() as int,
                max,
            )
        }),
{
    let (starts, decoded, consumed) = chunk::split_of(data.take(mid), n, max, false)->0;
    let first = bits::bits_of(data.take(mid));
    let last = starts.last();
    chunk::split_is_ordered(data.take(mid), n, max);
    assert(block_scan::magic_at(first, starts[0]));
    assert(block_scan::magic_at(first, starts[starts.len() - 1]));
    assert(parts::reaches(first, starts[0], starts[starts.len() - 1], max));
    parts::segments_join(first, starts, 8 * mid, max, decoded as nat);
    assert(chunk::end_of(starts, decoded - 1, 8 * mid) == last);
    lemma_segment_some(first, starts[0], last, max);
    lemma_first_chunk(data, mid, starts[0], last, max);
    parts::segment_splits(bits::bits_of(data), starts[0], last, 8 * data.len() as int, max);
    lemma_next_chunk(data, consumed, last, max);
}

/// Reading on from `pos` comes to each of the starts, `shift` bits further on.
pub open spec fn found_reached(
    all: Seq<bool>,
    pos: int,
    starts: Seq<int>,
    shift: int,
    max: nat,
) -> bool {
    forall|i: int|
        0 <= i < starts.len() ==> parts::reaches(all, pos, #[trigger] starts[i] + shift, max)
}

/// The segments of a chunk at the front of the data follow each other, where
/// reading on comes to each of them.
proof fn lemma_first_follows(data: Seq<u8>, mid: int, n: nat, max: nat, pos: int)
    requires
        0 <= mid <= data.len(),
        0 <= pos,
        block_scan::magic_at(bits::bits_of(data), pos),
        chunk::segment_starts(data.take(mid), n, max) matches Some(starts) && found_reached(
            bits::bits_of(data),
            pos,
            starts,
            0,
            max,
        ),
    ensures
        ({
            let starts = chunk::segment_starts(data.take(mid), n, max)->0;
            &&& parts::segments_follow(bits::bits_of(data.take(mid)), starts, 8 * mid, max)
            &&& starts[0] == pos
        }),
{
    let all = bits::bits_of(data);
    let first = bits::bits_of(data.take(mid));
    let starts = chunk::segment_starts(data.take(mid), n, max)->0;
    chunk::split_is_ordered(data.take(mid), n, max);
    lemma_bits_taken(data, mid);
    assert(block_scan::magic_at(first, starts[0]));
    assert(parts::reaches(all, pos, starts[0] + 0, max));
    parts::lemma_reaches_later(all, pos, starts[0], max);
    locality::lemma_value_alike(all, first, 0, 0, 8 * mid, pos, 48);
    assert(block_scan::magic_at(first, pos));
    assert forall|i: int| 0 <= i < starts.len() implies parts::reaches(
        first,
        pos,
        #[trigger] starts[i],
        max,
    ) by {
        assert(block_scan::magic_at(first, starts[i]));
        assert(parts::reaches(all, pos, starts[i] + 0, max));
        lemma_text_before_alike(all, first, 8 * mid, pos, starts[i], max);
    }
    parts::lemma_found_follow(data.take(mid), n, max, pos);
}

/// The segments of a chunk that begins with a block follow each other, where
/// reading on comes to each of them.
proof fn lemma_rest_follows(data: Seq<u8>, consumed: int, last: int, n: nat, max: nat, pos: int)
    requires
        0 <= consumed <= data.len(),
        8 * consumed <= last < 8 * consumed + 8,
        block_scan::magic_at(bits::bits_of(data), last),
        parts::reaches(bits::bits_of(data), pos, last, max),
        chunk::segment_starts(data.skip(consumed), n, max) matches Some(starts) ==> found_reached(
            bits::bits_of(data),
            pos,
            starts,
            8 * consumed,
            max,
        ),
    ensures
        chunk::segment_starts(data.skip(consumed), n, max) matches Some(starts) && starts.len() > 0
            && parts::segments_follow(
            bits::bits_of(data.skip(consumed)),
            starts,
            8 * data.skip(consumed).len() as int,
            max,
        ) && starts[0] == last - 8 * consumed,
{
    let all = bits::bits_of(data);
    let rest = bits::bits_of(data.skip(consumed));
    let shift = -8 * consumed;
    lemma_next_chunk(data, consumed, last, max);
    lemma_bits_skipped(data, consumed);
    chunk::split_is_ordered(data.skip(consumed), n, max);
    block_scan::next_magic_is_first(rest, 0);
    let starts = chunk::segment_starts(data.skip(consumed), n, max)->0;
    assert forall|i: int| 0 <= i < starts.len() implies parts::reaches(
        rest,
        last + shift,
        #[trigger] starts[i],
        max,
    ) by {
        assert(block_scan::magic_at(rest, starts[i]));
        let q = starts[i] + 8 * consumed;
        assert(parts::reaches(all, pos, q, max));
        lemma_reaches_between(all, pos, last, q, max);
        lemma_reaches_alike(all, rest, shift, 8 * consumed, last, q, max);
        assert(q + shift == starts[i]);
    }
    parts::lemma_found_follow(data.skip(consumed), n, max, last + shift);
}

/// The texts of two chunks make up the text of the data.
proof fn lemma_two_chunks(data: Seq<u8>, mid: int, n: nat, m: nat, max: nat)
    requires
        0 <= mid <= data.len(),
        block_scan::magic_at(bits::bits_of(data), 32),
        chunk::split_of(data.take(mid), n, max, false) matches Some((starts, _, consumed))
            && found_reached(bits::bits_of(data), 32, starts, 0, max) && (chunk::segment_starts(
            data.skip(consumed),
            m,
            max,
        ) matches Some(more) ==> found_reached(
            bits::bits_of(data),
            32,
            more,
            8 * consumed,
            max,
        )),
    ensures
        two_chunks_give(
            data,
            mid,
            n,
            m,
            max,
            chunk::segment_text(bits::bits_of(data), 32, 8 * data.len() as int, max),
        ),
{
    let all = bits::bits_of(data);
    let first = bits::bits_of(data.take(mid));
    let (starts, decoded, consumed) = chunk::split_of(data.take(mid), n, max, false)->0;
    let next = data.skip(consumed);
    let last = starts.last();
    chunk::split_is_ordered(data.take(mid), n, max);
    lemma_first_follows(data, mid, n, max, 32);
    chunks_join(data, mid, n, max);
    assert(block_scan::magic_at(first, starts[starts.len() - 1]));
    lemma_bits_taken(data, mid);
    locality::lemma_value_alike(first, all, 0, 0, 8 * mid, last, 48);
    assert(parts::reaches(all, 32, starts[starts.len() - 1] + 0, max));
    lemma_rest_follows(data, consumed, last, m, max, 32);
    let more = chunk::segment_starts(next, m, max)->0;
    parts::segments_join(bits::bits_of(next), more, 8 * next.len() as int, max, more.len());
}

/// The first `mid` bytes are decoded in at most `n` segments, and what is left of
/// them, with the bytes behind, in at most `m`. The first chunk takes up no more
/// than there is of it, and gives some text, and the two together give `text`.
pub open spec fn two_chunks_give(
    data: Seq<u8>,
    mid: int,
    n: nat,
    m: nat,
    max: nat,
    text: Seq<u8>,
) -> bool {
    let (starts, decoded, consumed) = chunk::split_of(data.take(mid), n, max, false)->0;
    let next = data.skip(consumed);
    let front = chunk::segments_text(
        bits::bits_of(data.take(mid)),
        starts,
        8 * mid,
        max,
        decoded as nat,
    );
    &&& 0 <= consumed <= mid
    &&& front.len() > 0
    &&& chunk::split_of(next, m, max, true) matches Some((more, all_of_them, _)) && text == front
        + chunk::segments_text(
        bits::bits_of(next),
        more,
        8 * next.len() as int,
        max,
        all_of_them as nat,
    )
}

/// Decoding a stream in two chunks gives what decoding it in order gives, wherever
/// it is cut and however many segments there are, and then the text of whatever
/// stream follows it in the data. This holds where each segment that is found
/// begins with a block.
pub proof fn chunks_are_sequential(data: Seq<u8>, mid: int, n: nat, m: nat)
    requires
        stream::stream_text(data) is Text,
        block_scan::magic_at(bits::bits_of(data), 32),
        0 <= mid <= data.len(),
        chunk::split_of(data.take(mid), n, stream::head_blocksize(data), false) matches Some(
            (starts, _, consumed),
        ) && found_reached(bits::bits_of(data), 32, starts, 0, stream::head_blocksize(data)) && (
        chunk::segment_starts(data.skip(consumed), m, stream::head_blocksize(data)) matches Some(
            more,
        ) ==> found_reached(
            bits::bits_of(data),
            32,
            more,
            8 * consumed,
            stream::head_blocksize(data),
        )),
    ensures
        ({
            let all = bits::bits_of(data);
            let max = stream::head_blocksize(data);
            let end = parts::blocks_end(all, 32, max);
            let rest = chunk::text_until(all, end, all.len() as int, max);
            &&& stream::stream_text(data) matches Decoded::Text(text) && two_chunks_give(
                data,
                mid,
                n,
                m,
                max,
                text + rest,
            )
            &&& chunk::step_at(all, end, max) is None ==> rest.len() == 0
        }),
{
    lemma_two_chunks(data, mid, n, m, stream::head_blocksize(data));
    parts::segment_reads_stream(data);
}

/// Every magic number in a part of the data is one in the data.
proof fn lemma_magics_found_in_part(
    data: Seq<u8>,
    part: Seq<u8>,
    shift: int,
    n: nat,
    max: nat,
    pos: int,
)
    requires
        parts::magics_reached(bits::bits_of(data), 0, pos, max),
        locality::alike(bits::bits_of(part), bits::bits_of(data), shift, 0, 8 * part.len() as int),
        shift >= 0,
    ensures
        chunk::segment_starts(part, n, max) matches Some(starts) ==> found_reached(
            bits::bits_of(data),
            pos,
            starts,
            shift,
            max,
        ),
{
    let all = bits::bits_of(data);
    chunk::split_is_ordered(part, n, max);
    if let Some(starts) = chunk::segment_starts(part, n, max) {
        assert forall|i: int| 0 <= i < starts.len() implies parts::reaches(
            all,
            pos,
            #[trigger] starts[i] + shift,
            max,
        ) by {
            assert(block_scan::magic_at(bits::bits_of(part), starts[i]));
            locality::lemma_value_alike(
                bits::bits_of(part),
                all,
                shift,
                0,
                8 * part.len() as int,
                starts[i],
                48,
            );
            assert(block_scan::magic_at(all, starts[i] + shift));
            parts::lemma_starts_reached(all, pos, max, starts[i] + shift);
        }
    }
}

proof fn lemma_rest_alike(data: Seq<u8>, n: int)
    requires
        0 <= n <= data.len(),
    ensures
        locality::alike(
            bits::bits_of(data.skip(n)),
            bits::bits_of(data),
            8 * n,
            0,
            8 * data.skip(n).len() as int,
        ),
{
    lemma_bits_skipped(data, n);
    let a = bits::bits_of(data.skip(n));
    let b = bits::bits_of(data);
    assert forall|i: int| 0 <= i < a.len() implies #[trigger] a[i] == b[i + 8 * n] by {
        assert(b[i + 8 * n] == a[i + 8 * n + (-8 * n)]);
    }
}

/// Data of one stream behind the other can be decoded in two chunks, wherever it
/// is cut and however many segments there are: they hold what one segment in
/// their place holds. This holds where every magic number in the data is the
/// start of a block.
pub proof fn chunks_of_streams_join(data: Seq<u8>, mid: int, n: nat, m: nat, max: nat)
    requires
        block_scan::magic_at(bits::bits_of(data), 32),
        parts::magics_reached(bits::bits_of(data), 0, 32, max),
        0 <= mid <= data.len(),
        chunk::split_of(data.take(mid), n, max, false) is Some,
    ensures
        two_chunks_give(
            data,
            mid,
            n,
            m,
            max,
            chunk::segment_text(bits::bits_of(data), 32, 8 * data.len() as int, max),
        ),
{
    let (starts, _, consumed) = chunk::split_of(data.take(mid), n, max, false)->0;
    let first = bits::bits_of(data.take(mid));
    chunk::split_is_ordered(data.take(mid), n, max);
    assert(block_scan::magic_at(first, starts[starts.len() - 1]));
    lemma_bits_taken(data, mid);
    lemma_magics_found_in_part(data, data.take(mid), 0, n, max, 32);
    lemma_rest_alike(data, consumed);
    lemma_magics_found_in_part(data, data.skip(consumed), 8 * consumed, m, max, 32);
    lemma_two_chunks(data, mid, n, m, max);
}

// Any number of chunks.

/// The text that comes out where `carry` is left of what was read before, and the
/// pieces are read one after the other, each becoming a chunk with what is left of
/// the one before.
pub open spec fn pipeline_text(carry: Seq<u8>, pieces: Seq<Seq<u8>>, n: nat, max: nat) -> Seq<u8>
    decreases pieces.len(),
{
    if pieces.len() == 0 {
        Seq::empty()
    } else {
        let data = carry + pieces[0];
        match chunk::plan_of(data, carry.len(), n, max, pieces.len() == 1) {
            Plan::Stop => Seq::empty(),
            Plan::Carry => pipeline_text(data, pieces.drop_first(), n, max),
            Plan::Decode(starts, decoded, consumed) => chunk::segments_text(
                bits::bits_of(data),
                starts,
                8 * data.len() as int,
                max,
                decoded as nat,
            ) + pipeline_text(data.skip(consumed), pieces.drop_first(), n, max),
        }
    }
}

/// What is left of the data behind a chunk has its magic numbers in the same
/// blocks.
proof fn lemma_rest_reached(data: Seq<u8>, consumed: int, pos: int, last: int, max: nat)
    requires
        0 <= consumed <= data.len(),
        8 * consumed <= last < 8 * consumed + 8,
        block_scan::magic_at(bits::bits_of(data), last),
        parts::magics_reached(bits::bits_of(data), 0, pos, max),
    ensures
        parts::magics_reached(
            bits::bits_of(data.skip(consumed)),
            0,
            last - 8 * consumed,
            max,
        ),
{
    let all = bits::bits_of(data);
    let rest = bits::bits_of(data.skip(consumed));
    let shift = -8 * consumed;
    lemma_next_chunk(data, consumed, last, max);
    block_scan::next_magic_is_first(rest, 0);
    lemma_rest_alike(data, consumed);
    lemma_bits_skipped(data, consumed);
    parts::lemma_starts_reached(all, pos, max, last);
    assert forall|q: int| 0 <= q && #[trigger] block_scan::magic_at(
        rest,
        q,
    ) implies parts::starts_reached(rest, last + shift, max).contains(q) by {
        let p = q + 8 * consumed;
        locality::lemma_value_alike(rest, all, 8 * consumed, 0, rest.len() as int, q, 48);
        assert(block_scan::magic_at(all, p));
        parts::lemma_starts_reached(all, pos, max, p);
        lemma_reaches_between(all, pos, last, p, max);
        lemma_reaches_alike(all, rest, shift, 8 * consumed, last, p, max);
        assert(p + shift == q);
        parts::lemma_starts_reached(rest, last + shift, max, q);
    }
}

/// One chunk of many.
proof fn lemma_pipeline_step(data: Seq<u8>, mid: int, n: nat, max: nat, pos: int)
    requires
        0 <= mid <= data.len(),
        block_scan::next_magic(bits::bits_of(data), 0) == Some(pos),
        parts::magics_reached(bits::bits_of(data), 0, pos, max),
        chunk::split_of(data.take(mid), n, max, false) is Some,
    ensures
        ({
            let (starts, decoded, consumed) = chunk::split_of(data.take(mid), n, max, false)->0;
            let next = data.skip(consumed);
            let found = starts.last() - 8 * consumed;
            &&& 0 <= consumed <= mid
            &&& block_scan::next_magic(bits::bits_of(next), 0) == Some(found)
            &&& parts::magics_reached(bits::bits_of(next), 0, found, max)
            &&& chunk::segment_text(bits::bits_of(data), pos, 8 * data.len() as int, max)
                == chunk::segments_text(
                bits::bits_of(data.take(mid)),
                starts,
                8 * mid,
                max,
                decoded as nat,
            ) + chunk::segment_text(bits::bits_of(next), found, 8 * next.len() as int, max)
        }),
{
    let all = bits::bits_of(data);
    let first = bits::bits_of(data.take(mid));
    let (starts, _, consumed) = chunk::split_of(data.take(mid), n, max, false)->0;
    let last = starts.last();
    block_scan::next_magic_is_first(all, 0);
    lemma_bits_taken(data, mid);
    lemma_magics_found_in_part(data, data.take(mid), 0, n, max, pos);
    lemma_first_follows(data, mid, n, max, pos);
    chunks_join(data, mid, n, max);
    chunk::split_is_ordered(data.take(mid), n, max);
    assert(block_scan::magic_at(first, starts[starts.len() - 1]));
    locality::lemma_value_alike(first, all, 0, 0, 8 * mid, last, 48);
    lemma_rest_reached(data, consumed, pos, last, max);
}

/// The last chunk.
proof fn lemma_pipeline_end(data: Seq<u8>, n: nat, max: nat, pos: int)
    requires
        block_scan::next_magic(bits::bits_of(data), 0) == Some(pos),
        parts::magics_reached(bits::bits_of(data), 0, pos, max),
    ensures
        chunk::split_of(data, n, max, true) matches Some((starts, decoded, _))
            && chunk::segments_text(
            bits::bits_of(data),
            starts,
            8 * data.len() as int,
            max,
            decoded as nat,
        ) == chunk::segment_text(bits::bits_of(data), pos, 8 * data.len() as int, max),
{
    block_scan::next_magic_is_first(bits::bits_of(data), 0);
    parts::lemma_magics_found(data, n, max, pos);
    parts::lemma_found_follow(data, n, max, pos);
    let starts = chunk::segment_starts(data, n, max)->0;
    parts::segments_join(
        bits::bits_of(data),
        starts,
        8 * data.len() as int,
        max,
        starts.len(),
    );
}

/// Decoding data in any number of chunks, as they are read, gives what decoding it
/// in one go gives: no byte is lost, whatever the number of workers, and none is
/// decoded twice. This holds where every magic number in the data is the start of
/// a block. No piece but the last is empty.
pub proof fn pipeline_reads_all(
    carry: Seq<u8>,
    pieces: Seq<Seq<u8>>,
    n: nat,
    max: nat,
    pos: int,
)
    requires
        pieces.len() > 0,
        forall|i: int| 0 <= i < pieces.len() - 1 ==> (#[trigger] pieces[i]).len() > 0,
        block_scan::next_magic(bits::bits_of(carry + pieces.flatten()), 0) == Some(pos),
        parts::magics_reached(bits::bits_of(carry + pieces.flatten()), 0, pos, max),
    ensures
        pipeline_text(carry, pieces, n, max) == chunk::segment_text(
            bits::bits_of(carry + pieces.flatten()),
            pos,
            8 * (carry + pieces.flatten()).len() as int,
            max,
        ),
    decreases pieces.len(),
{
    let whole = carry + pieces.flatten();
    let all = bits::bits_of(whole);
    let rest = pieces.drop_first();
    let data = carry + pieces[0];
    let mid = data.len() as int;
    let text = chunk::segment_text(all, pos, 8 * whole.len() as int, max);
    block_scan::next_magic_is_first(all, 0);
    assert(whole == data + rest.flatten());
    assert(whole.take(mid) == data);
    if pieces.len() == 1 {
        assert(rest.flatten() == Seq::<u8>::empty());
        assert(whole == data);
        lemma_pipeline_end(data, n, max, pos);
        assert(pipeline_text(data.skip(mid), rest, n, max) == Seq::<u8>::empty());
        assert(text + Seq::<u8>::empty() == text);
    } else {
        assert(pieces[0].len() > 0);
        assert forall|i: int| 0 <= i < rest.len() - 1 implies (#[trigger] rest[i]).len() > 0 by {
            assert(rest[i] == pieces[i + 1]);
        }
        match chunk::plan_of(data, carry.len(), n, max, false) {
            Plan::Stop => {},
            Plan::Carry => {
                pipeline_reads_all(data, rest, n, max, pos);
            },
            Plan::Decode(starts, _, consumed) => {
                let at_least = if n < 2 {
                    2
                } else {
                    n
                };
                lemma_pipeline_step(whole, mid, at_least, max, pos);
                assert(whole.skip(consumed) == data.skip(consumed) + rest.flatten());
                pipeline_reads_all(
                    data.skip(consumed),
                    rest,
                    n,
                    max,
                    starts.last() - 8 * consumed,
                );
            },
        }
    }
}

} // verus!
