//! Decoding in parts gives what decoding in one go gives.
//!
//! A stream can be decoded block after block, by all the blocks that a search
//! finds, or in segments. These are the conditions under which the results are
//! the same. [`crate::carry`] goes on to chunks of segments.
use vstd::prelude::*;

use crate::bits;
use crate::block_scan;
use crate::chunk;
use crate::grammar;
use crate::parallel;
use crate::stream;
use crate::stream::Decoded;
use crate::FINAL_MAGIC;

verus! {

/// The bits at which the blocks of a stream begin, from `pos` on.
pub open spec fn block_starts(all: Seq<bool>, pos: int, max: nat) -> Seq<int>
    decreases all.len() - pos,
{
    if !block_scan::magic_at(all, pos) {
        Seq::empty()
    } else {
        match grammar::block_at(all, pos + 48, max) {
            grammar::Parsed::Fail(_, _) => seq![pos],
            grammar::Parsed::Done(_, next) => {
                proof {
                    grammar::lemma_block_end(all, pos + 48, max);
                }
                seq![pos] + block_starts(all, next, max)
            },
        }
    }
}

/// The bit at which the blocks of a stream end, from `pos` on.
pub open spec fn blocks_end(all: Seq<bool>, pos: int, max: nat) -> int
    decreases all.len() - pos,
{
    if !block_scan::magic_at(all, pos) {
        pos
    } else {
        match grammar::block_at(all, pos + 48, max) {
            grammar::Parsed::Fail(_, _) => pos,
            grammar::Parsed::Done(_, next) => {
                proof {
                    grammar::lemma_block_end(all, pos + 48, max);
                }
                blocks_end(all, next, max)
            },
        }
    }
}

/// Every magic number from `pos` on is the start of a block: none stands by
/// chance within one, or behind the end of the stream.
pub open spec fn magics_are_blocks(all: Seq<bool>, pos: int, max: nat) -> bool {
    forall|q: int|
        pos <= q && #[trigger] block_scan::magic_at(all, q) ==> block_starts(
            all,
            pos,
            max,
        ).contains(q)
}

/// The parts from the front.
pub proof fn lemma_joined_front(first: Decoded, rest: Seq<Decoded>)
    ensures
        parallel::joined(seq![first] + rest) == match (first, parallel::joined(rest)) {
            (Decoded::Error(why), _) => Decoded::Error(why),
            (Decoded::Text(_), Decoded::Error(why)) => Decoded::Error(why),
            (Decoded::Text(text), Decoded::Text(more)) => Decoded::Text(text + more),
        },
    decreases rest.len(),
{
    let parts = seq![first] + rest;
    if rest.len() == 0 {
        assert(parts.drop_last() == rest);
        assert(parts.last() == first);
        assert(parallel::joined(rest) == Decoded::Text(Seq::empty()));
        if let Decoded::Text(text) = first {
            assert(Seq::<u8>::empty() + text == text);
            assert(text + Seq::<u8>::empty() == text);
        }
    } else {
        lemma_joined_front(first, rest.drop_last());
        assert(parts.drop_last() == seq![first] + rest.drop_last());
        assert(parts.last() == rest.last());
        if let (Decoded::Text(a), Decoded::Text(b), Decoded::Text(c)) = (
            first,
            parallel::joined(rest.drop_last()),
            rest.last(),
        ) {
            assert(a + b + c == a + (b + c));
        }
    }
}

proof fn lemma_block_starts_later(all: Seq<bool>, pos: int, max: nat, q: int)
    requires
        block_starts(all, pos, max).contains(q),
    ensures
        pos <= q,
        block_scan::magic_at(all, q),
    decreases all.len() - pos,
{
    let starts = block_starts(all, pos, max);
    let i = choose|i: int| 0 <= i < starts.len() && starts[i] == q;
    if i > 0 {
        if let grammar::Parsed::Done(_, next) = grammar::block_at(all, pos + 48, max) {
            grammar::lemma_block_end(all, pos + 48, max);
            assert(block_starts(all, next, max)[i - 1] == q);
            lemma_block_starts_later(all, next, max, q);
        }
    }
}

/// Where no magic number stands, the search for all of them can begin later.
proof fn lemma_all_magics_skip(all: Seq<bool>, from: int, to: int)
    requires
        from <= to,
        forall|q: int| from <= q < to ==> !#[trigger] block_scan::magic_at(all, q),
    ensures
        block_scan::all_magics(all, from) == block_scan::all_magics(all, to),
    decreases to - from,
{
    if from < to {
        assert(!block_scan::magic_at(all, from));
        lemma_all_magics_skip(all, from + 1, to);
        if from + 48 > all.len() {
            assert(block_scan::all_magics(all, to) == Seq::<int>::empty());
        }
    }
}

/// The magic numbers of the blocks are all there are.
proof fn lemma_starts_are_magics(all: Seq<bool>, pos: int, max: nat)
    requires
        magics_are_blocks(all, pos, max),
    ensures
        block_scan::all_magics(all, pos) == block_starts(all, pos, max),
    decreases all.len() - pos,
{
    let starts = block_starts(all, pos, max);
    let end = if pos <= all.len() {
        all.len() as int
    } else {
        pos
    };
    if !block_scan::magic_at(all, pos) {
        assert(!starts.contains(pos));
        assert forall|q: int| pos <= q < end implies !#[trigger] block_scan::magic_at(all, q) by {
            assert(!starts.contains(q));
        }
        lemma_all_magics_skip(all, pos, end);
    } else {
        match grammar::block_at(all, pos + 48, max) {
            grammar::Parsed::Fail(_, _) => {
                assert forall|q: int| pos + 1 <= q < end implies !#[trigger] block_scan::magic_at(
                    all,
                    q,
                ) by {
                    assert(!starts.contains(q));
                }
                lemma_all_magics_skip(all, pos + 1, end);
                assert(starts == seq![pos] + Seq::<int>::empty());
            },
            grammar::Parsed::Done(_, next) => {
                grammar::lemma_block_end(all, pos + 48, max);
                let rest = block_starts(all, next, max);
                assert forall|q: int|
                    pos + 1 <= q && #[trigger] block_scan::magic_at(all, q) implies rest.contains(
                    q,
                ) by {
                    assert(starts.contains(q));
                    let i = choose|i: int| 0 <= i < starts.len() && starts[i] == q;
                    assert(rest[i - 1] == q);
                }
                assert forall|q: int| pos + 1 <= q < next implies !#[trigger] block_scan::magic_at(
                    all,
                    q,
                ) by {
                    if block_scan::magic_at(all, q) {
                        lemma_block_starts_later(all, next, max, q);
                    }
                }
                lemma_all_magics_skip(all, pos + 1, next);
                lemma_starts_are_magics(all, next, max);
            },
        }
    }
}

/// Decoding the blocks one by one gives what decoding them in order gives.
proof fn lemma_blocks_joined(all: Seq<bool>, pos: int, max: nat, text: Seq<u8>)
    ensures
        ({
            let apart = parallel::joined(
                parallel::block_results(all, block_starts(all, pos, max), max),
            );
            &&& stream::blocks_at(all, pos, max, text) matches Decoded::Text(t) ==> (
            apart matches Decoded::Text(more) && t == text + more)
            &&& apart matches Decoded::Error(why) ==> stream::blocks_at(all, pos, max, text)
                == Decoded::Error(why)
        }),
    decreases all.len() - pos,
{
    let starts = block_starts(all, pos, max);
    let parts = parallel::block_results(all, starts, max);
    if !block_scan::magic_at(all, pos) {
        assert(parts == Seq::<Decoded>::empty());
        assert(text + Seq::<u8>::empty() == text);
    } else {
        let first = parallel::block_result(all, pos, max);
        match grammar::block_at(all, pos + 48, max) {
            grammar::Parsed::Fail(_, _) => {
                assert(parts == seq![first] + Seq::<Decoded>::empty());
                lemma_joined_front(first, Seq::empty());
            },
            grammar::Parsed::Done(t, next) => {
                grammar::lemma_block_end(all, pos + 48, max);
                let rest = parallel::block_results(all, block_starts(all, next, max), max);
                assert(parts == seq![first] + rest);
                lemma_joined_front(first, rest);
                lemma_blocks_joined(all, next, max, text + t);
                if let Decoded::Text(more) = parallel::joined(rest) {
                    assert(text + t + more == text + (t + more));
                }
            },
        }
    }
}

/// Decoding all blocks that a search finds gives what decoding the stream in
/// order gives, provided that what is found are the blocks. Where the former
/// fails, the latter fails with the same error.
pub proof fn parallel_is_sequential(data: Seq<u8>)
    requires
        stream::head_error(data) is None ==> magics_are_blocks(
            bits::bits_of(data),
            32,
            stream::head_blocksize(data),
        ),
    ensures
        stream::stream_text(data) is Text ==> parallel::scanned_text(data) == stream::stream_text(
            data,
        ),
        parallel::scanned_text(data) is Error ==> stream::stream_text(data)
            == parallel::scanned_text(data),
{
    if stream::head_error(data) is None {
        let all = bits::bits_of(data);
        let max = stream::head_blocksize(data);
        lemma_starts_are_magics(all, 32, max);
        lemma_blocks_joined(all, 32, max, Seq::empty());
        if let Decoded::Text(t) = stream::stream_text(data) {
            assert(Seq::<u8>::empty() + t == t);
            if let Decoded::Text(more) = parallel::scanned_text(data) {
                assert(Seq::<u8>::empty() + more == more);
            }
        }
    }
}

/// Reading on from `pos` comes to `mid`.
pub open spec fn reaches(all: Seq<bool>, pos: int, mid: int, max: nat) -> bool
    decreases all.len() - pos,
{
    pos == mid || (pos < mid && match chunk::step_at(all, pos, max) {
        None => false,
        Some((_, next)) => {
            proof {
                chunk::lemma_step_end(all, pos, max);
            }
            reaches(all, next, mid, max)
        },
    })
}

pub proof fn lemma_text_splits(all: Seq<bool>, pos: int, mid: int, end: int, max: nat)
    requires
        reaches(all, pos, mid, max),
        mid <= end,
    ensures
        chunk::text_until(all, pos, end, max) == chunk::text_until(all, pos, mid, max)
            + chunk::text_until(all, mid, end, max),
    decreases all.len() - pos,
{
    let rest = chunk::text_until(all, mid, end, max);
    if pos == mid {
        assert(Seq::<u8>::empty() + rest == rest);
    } else {
        let (text, next) = chunk::step_at(all, pos, max)->0;
        chunk::lemma_step_end(all, pos, max);
        lemma_text_splits(all, next, mid, end, max);
        assert(text + (chunk::text_until(all, next, mid, max) + rest) == text + chunk::text_until(
            all,
            next,
            mid,
            max,
        ) + rest);
    }
}

/// A segment as everything from its first block on.
pub proof fn lemma_segment_text(all: Seq<bool>, start: int, end: int, max: nat)
    requires
        block_scan::magic_at(all, start),
        start < end,
    ensures
        chunk::segment_text(all, start, end, max) == chunk::text_until(all, start, end, max),
{
}

/// A segment can be cut in two at any block in it: the texts of the two parts
/// make up the text of the whole.
pub proof fn segment_splits(all: Seq<bool>, start: int, mid: int, end: int, max: nat)
    requires
        block_scan::magic_at(all, start),
        block_scan::magic_at(all, mid),
        start < mid < end,
        reaches(all, start, mid, max),
    ensures
        chunk::segment_text(all, start, end, max) == chunk::segment_text(all, start, mid, max)
            + chunk::segment_text(all, mid, end, max),
{
    lemma_text_splits(all, start, mid, end, max);
    lemma_segment_text(all, start, end, max);
    lemma_segment_text(all, start, mid, max);
    lemma_segment_text(all, mid, end, max);
}

/// The segments follow each other: each begins with a block that reading on from
/// the first comes to.
pub open spec fn segments_follow(all: Seq<bool>, starts: Seq<int>, total: int, max: nat) -> bool {
    &&& forall|i: int| 0 <= i < starts.len() ==> #[trigger] block_scan::magic_at(all, starts[i])
    &&& forall|i: int, j: int| 0 <= i < j < starts.len() ==> starts[i] < starts[j]
    &&& forall|i: int|
        0 < i < starts.len() ==> #[trigger] reaches(all, starts[0], starts[i], max)
    &&& starts.last() < total
}

/// The first `n` segments of a chunk hold what one segment in their place holds.
pub proof fn segments_join(all: Seq<bool>, starts: Seq<int>, total: int, max: nat, n: nat)
    requires
        segments_follow(all, starts, total, max),
        1 <= n <= starts.len(),
    ensures
        chunk::segments_text(all, starts, total, max, n) == chunk::segment_text(
            all,
            starts[0],
            chunk::end_of(starts, n - 1, total),
            max,
        ),
    decreases n,
{
    let end = chunk::end_of(starts, n - 1, total);
    assert(block_scan::magic_at(all, starts[0]));
    if n == 1 {
        let text = chunk::segment_text(all, starts[0], end, max);
        assert(chunk::segments_text(all, starts, total, max, 0) == Seq::<u8>::empty());
        assert(Seq::<u8>::empty() + text == text);
    } else {
        segments_join(all, starts, total, max, (n - 1) as nat);
        let mid = starts[n - 1];
        assert(block_scan::magic_at(all, starts[n - 1]));
        assert(reaches(all, starts[0], starts[n - 1], max));
        segment_splits(all, starts[0], mid, end, max);
    }
}

/// The blocks of a stream, as a segment reads them.
pub proof fn lemma_blocks_as_segment(all: Seq<bool>, pos: int, max: nat, text: Seq<u8>)
    requires
        stream::blocks_at(all, pos, max, text) is Text,
    ensures
        stream::blocks_at(all, pos, max, text) == Decoded::Text(
            text + chunk::text_until(all, pos, blocks_end(all, pos, max), max),
        ),
        reaches(all, pos, blocks_end(all, pos, max), max),
        pos <= blocks_end(all, pos, max),
        blocks_end(all, pos, max) + 48 <= all.len(),
        bits::bits_value(all, blocks_end(all, pos, max), 48) == FINAL_MAGIC,
    decreases all.len() - pos,
{
    let end = blocks_end(all, pos, max);
    if block_scan::magic_at(all, pos) {
        if let grammar::Parsed::Done(t, next) = grammar::block_at(all, pos + 48, max) {
            grammar::lemma_block_end(all, pos + 48, max);
            lemma_blocks_as_segment(all, next, max, text + t);
            let rest = chunk::text_until(all, next, end, max);
            assert(text + t + rest == text + (t + rest));
        }
    } else {
        assert(text + Seq::<u8>::empty() == text);
    }
}

/// A stream with a block in it, read as one segment, gives the text of the stream
/// and then that of whatever stream follows it in the data.
pub proof fn segment_reads_stream(data: Seq<u8>)
    requires
        stream::stream_text(data) is Text,
        block_scan::magic_at(bits::bits_of(data), 32),
    ensures
        ({
            let all = bits::bits_of(data);
            let max = stream::head_blocksize(data);
            stream::stream_text(data) matches Decoded::Text(text) && chunk::segment_text(
                all,
                32,
                all.len() as int,
                max,
            ) == text + chunk::text_until(
                all,
                blocks_end(all, 32, max),
                all.len() as int,
                max,
            )
        }),
{
    let all = bits::bits_of(data);
    let max = stream::head_blocksize(data);
    let end = blocks_end(all, 32, max);
    lemma_blocks_as_segment(all, 32, max, Seq::empty());
    lemma_text_splits(all, 32, end, all.len() as int, max);
    lemma_segment_text(all, 32, all.len() as int, max);
    let text = chunk::text_until(all, 32, end, max);
    assert(Seq::<u8>::empty() + text == text);
}

/// The bits at which blocks begin that reading on from `pos` comes to, from one
/// stream to the next.
pub open spec fn starts_reached(all: Seq<bool>, pos: int, max: nat) -> Seq<int>
    decreases all.len() - pos,
{
    let here = if block_scan::magic_at(all, pos) {
        seq![pos]
    } else {
        Seq::empty()
    };
    match chunk::step_at(all, pos, max) {
        None => here,
        Some((_, next)) => {
            proof {
                chunk::lemma_step_end(all, pos, max);
            }
            here + starts_reached(all, next, max)
        },
    }
}

/// Every magic number from bit `from` on is the start of a block that reading on
/// from `pos` comes to: none stands there by chance.
pub open spec fn magics_reached(all: Seq<bool>, from: int, pos: int, max: nat) -> bool {
    forall|q: int|
        from <= q && #[trigger] block_scan::magic_at(all, q) ==> starts_reached(
            all,
            pos,
            max,
        ).contains(q)
}

/// The starts that are listed are those that reading on comes to.
pub proof fn lemma_starts_reached(all: Seq<bool>, pos: int, max: nat, q: int)
    ensures
        starts_reached(all, pos, max).contains(q) <==> block_scan::magic_at(all, q) && reaches(
            all,
            pos,
            q,
            max,
        ),
    decreases all.len() - pos,
{
    let starts = starts_reached(all, pos, max);
    let here = if block_scan::magic_at(all, pos) {
        seq![pos]
    } else {
        Seq::empty()
    };
    chunk::lemma_step_end(all, pos, max);
    match chunk::step_at(all, pos, max) {
        None => {
            if block_scan::magic_at(all, pos) {
                assert(starts[0] == pos);
            }
        },
        Some((_, next)) => {
            let rest = starts_reached(all, next, max);
            lemma_starts_reached(all, next, max, q);
            lemma_reaches_later(all, next, q, max);
            if starts.contains(q) {
                let i = choose|i: int| 0 <= i < starts.len() && starts[i] == q;
                if i >= here.len() {
                    assert(rest[i - here.len()] == q);
                }
            }
            if rest.contains(q) {
                let i = choose|i: int| 0 <= i < rest.len() && rest[i] == q;
                assert(starts[i + here.len()] == q);
            }
            if q == pos && block_scan::magic_at(all, pos) {
                assert(starts[0] == pos);
            }
        },
    }
}

pub proof fn lemma_reaches_later(all: Seq<bool>, pos: int, mid: int, max: nat)
    ensures
        reaches(all, pos, mid, max) ==> pos <= mid,
{
}

pub proof fn lemma_reaches_on(all: Seq<bool>, pos: int, mid: int, end: int, max: nat)
    requires
        reaches(all, pos, mid, max),
        reaches(all, mid, end, max),
    ensures
        reaches(all, pos, end, max),
    decreases all.len() - pos,
{
    lemma_reaches_later(all, pos, mid, max);
    lemma_reaches_later(all, mid, end, max);
    if pos < mid {
        chunk::lemma_step_end(all, pos, max);
        lemma_reaches_on(all, (chunk::step_at(all, pos, max)->0).1, mid, end, max);
    }
}

/// Where reading on from the first block comes to each segment that was found,
/// the segments follow each other.
pub proof fn lemma_found_follow(data: Seq<u8>, n: nat, max: nat, pos: int)
    requires
        0 <= pos,
        block_scan::magic_at(bits::bits_of(data), pos),
        chunk::segment_starts(data, n, max) matches Some(starts) ==> forall|i: int|
            0 <= i < starts.len() ==> reaches(
                bits::bits_of(data),
                pos,
                #[trigger] starts[i],
                max,
            ),
    ensures
        chunk::segment_starts(data, n, max) matches Some(starts) && starts.len() > 0 && starts[0]
            == pos && segments_follow(bits::bits_of(data), starts, 8 * data.len() as int, max),
{
    let all = bits::bits_of(data);
    block_scan::next_magic_is_first(all, 0);
    chunk::split_is_ordered(data, n, max);
    let starts = chunk::segment_starts(data, n, max)->0;
    lemma_reaches_later(all, pos, starts[0], max);
    assert(starts[0] == pos);
    assert(block_scan::magic_at(all, starts[starts.len() - 1]));
}

/// Where every magic number is one that reading on comes to, so is each segment
/// that is found.
pub proof fn lemma_magics_found(data: Seq<u8>, n: nat, max: nat, pos: int)
    requires
        magics_reached(bits::bits_of(data), 0, pos, max),
    ensures
        chunk::segment_starts(data, n, max) matches Some(starts) ==> forall|i: int|
            0 <= i < starts.len() ==> reaches(
                bits::bits_of(data),
                pos,
                #[trigger] starts[i],
                max,
            ),
{
    let all = bits::bits_of(data);
    chunk::split_is_ordered(data, n, max);
    if let Some(starts) = chunk::segment_starts(data, n, max) {
        assert forall|i: int| 0 <= i < starts.len() implies reaches(
            all,
            pos,
            #[trigger] starts[i],
            max,
        ) by {
            assert(block_scan::magic_at(all, starts[i]));
            lemma_starts_reached(all, pos, max, starts[i]);
        }
    }
}

/// Data of one stream behind the other can be decoded in segments, however many
/// there are: they hold what one segment in their place holds. This holds where
/// every magic number in the data is the start of a block.
pub proof fn segments_of_streams_join(data: Seq<u8>, n: nat, max: nat)
    requires
        block_scan::magic_at(bits::bits_of(data), 32),
        magics_reached(bits::bits_of(data), 0, 32, max),
    ensures
        chunk::segment_starts(data, n, max) matches Some(starts) && chunk::segments_text(
            bits::bits_of(data),
            starts,
            8 * data.len() as int,
            max,
            starts.len(),
        ) == chunk::segment_text(bits::bits_of(data), 32, 8 * data.len() as int, max),
{
    lemma_magics_found(data, n, max, 32);
    lemma_found_follow(data, n, max, 32);
    let starts = chunk::segment_starts(data, n, max)->0;
    segments_join(bits::bits_of(data), starts, 8 * data.len() as int, max, starts.len());
}

/// Decoding a stream in segments gives what decoding it in order gives, however
/// many there are, and then the text of whatever stream follows it in the data.
/// This holds where each segment that is found begins with a block.
pub proof fn segments_are_sequential(data: Seq<u8>, n: nat)
    requires
        stream::stream_text(data) is Text,
        block_scan::magic_at(bits::bits_of(data), 32),
        chunk::segment_starts(data, n, stream::head_blocksize(data)) matches Some(starts)
            ==> forall|i: int|
            0 <= i < starts.len() ==> reaches(
                bits::bits_of(data),
                32,
                #[trigger] starts[i],
                stream::head_blocksize(data),
            ),
    ensures
        ({
            let all = bits::bits_of(data);
            let max = stream::head_blocksize(data);
            let end = blocks_end(all, 32, max);
            let rest = chunk::text_until(all, end, all.len() as int, max);
            &&& chunk::segment_starts(data, n, max) matches Some(starts) && stream::stream_text(
                data,
            ) matches Decoded::Text(text) && chunk::segments_text(
                all,
                starts,
                8 * data.len() as int,
                max,
                starts.len(),
            ) == text + rest
            &&& chunk::step_at(all, end, max) is None ==> rest.len() == 0
        }),
{
    let all = bits::bits_of(data);
    let max = stream::head_blocksize(data);
    lemma_found_follow(data, n, max, 32);
    let starts = chunk::segment_starts(data, n, max)->0;
    segments_join(all, starts, all.len() as int, max, starts.len());
    segment_reads_stream(data);
}

/// Where every magic number is one that reading on comes to, the list of all of
/// them is that of the starts that reading on comes to.
pub proof fn lemma_reached_are_magics(all: Seq<bool>, pos: int, max: nat)
    requires
        magics_reached(all, pos, pos, max),
    ensures
        block_scan::all_magics(all, pos) == starts_reached(all, pos, max),
    decreases all.len() - pos,
{
    let starts = starts_reached(all, pos, max);
    let end = if pos <= all.len() {
        all.len() as int
    } else {
        pos
    };
    chunk::lemma_step_end(all, pos, max);
    match chunk::step_at(all, pos, max) {
        None => {
            assert forall|q: int| pos + 1 <= q implies !#[trigger] block_scan::magic_at(all, q) by {
                lemma_starts_reached(all, pos, max, q);
            }
            if block_scan::magic_at(all, pos) {
                lemma_all_magics_skip(all, pos + 1, end);
            } else {
                lemma_all_magics_skip(all, pos, end);
            }
            assert(block_scan::all_magics(all, end) == Seq::<int>::empty());
        },
        Some((_, next)) => {
            assert forall|q: int|
                pos + 1 <= q && #[trigger] block_scan::magic_at(all, q) implies starts_reached(
                all,
                next,
                max,
            ).contains(q) && next <= q by {
                lemma_starts_reached(all, pos, max, q);
                lemma_starts_reached(all, next, max, q);
                lemma_reaches_later(all, next, q, max);
            }
            lemma_reached_are_magics(all, next, max);
            assert forall|q: int| pos + 1 <= q < next implies !#[trigger] block_scan::magic_at(
                all,
                q,
            ) by {}
            lemma_all_magics_skip(all, pos + 1, next);
            if !block_scan::magic_at(all, pos) {
                assert(Seq::<int>::empty() + starts_reached(all, next, max) == starts_reached(
                    all,
                    next,
                    max,
                ));
            }
        },
    }
}

} // verus!
