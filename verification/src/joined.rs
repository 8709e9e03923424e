//! Streams one behind the other.
//!
//! A file can hold any number of streams, as parallel compressors write them.
//! Each begins with a byte of its own, behind the checksum of the one before.
use vstd::arithmetic::power2::*;
use vstd::prelude::*;

use crate::bits;
use crate::block_scan;
use crate::carry;
use crate::chunk;
use crate::grammar;
use crate::locality;
use crate::parallel;
use crate::parts;
use crate::stream;
use crate::stream::Decoded;
use crate::FINAL_MAGIC;

verus! {

/// The bit behind the last block of a stream, at which the number stands that ends
/// it.
pub open spec fn stream_end(data: Seq<u8>) -> int {
    parts::blocks_end(bits::bits_of(data), 32, stream::head_blocksize(data))
}

/// The data is one stream that can be decoded, and ends with its checksum and the
/// bits that fill the last byte up.
pub open spec fn complete_stream(data: Seq<u8>) -> bool {
    stream::stream_text(data) is Text && chunk::byte_aligned(stream_end(data) + 80) == 8
        * data.len()
}

/// A whole byte as a number.
proof fn lemma_whole_byte(data: Seq<u8>, k: int)
    requires
        0 <= k < data.len(),
    ensures
        bits::bits_value(bits::bits_of(data), 8 * k, 8) == data[k],
{
    let b = data[k];
    bits::lemma_byte_field(data, 8 * k, 0, 8);
    assert((b >> 0u8) & (0xffu8 >> 0u8) == b) by (bit_vector);
}

/// The letters with which the head of a stream begins, as a number.
proof fn lemma_head_letters(data: Seq<u8>)
    requires
        stream::head_error(data) is None,
    ensures
        bits::bits_value(bits::bits_of(data), 0, 24) == 0x425a68,
{
    let all = bits::bits_of(data);
    lemma2_to64();
    lemma_whole_byte(data, 0);
    lemma_whole_byte(data, 1);
    lemma_whole_byte(data, 2);
    bits::lemma_bits_value_split(all, 0, 8, 8);
    bits::lemma_bits_value_split(all, 0, 16, 8);
    assert(0x42nat * pow2(8) == 0x4200) by (nonlinear_arith)
        requires
            pow2(8) == 0x100,
    ;
    assert(0x425anat * pow2(8) == 0x425a00) by (nonlinear_arith)
        requires
            pow2(8) == 0x100,
    ;
}

/// The stream can be decoded as one whose blocks have at most `max` bytes: this is
/// what its head allows, or none of its blocks is larger.
pub open spec fn fits_in(data: Seq<u8>, max: nat) -> bool {
    stream::head_blocksize(data) <= max || stream::blocks_at(
        bits::bits_of(data),
        32,
        max,
        Seq::empty(),
    ) is Text
}

/// Blocks that can be decoded can be decoded where larger ones are allowed.
proof fn lemma_blocks_larger(all: Seq<bool>, pos: int, max: nat, larger: nat, text: Seq<u8>)
    requires
        stream::blocks_at(all, pos, max, text) is Text,
        max <= larger,
    ensures
        stream::blocks_at(all, pos, larger, text) == stream::blocks_at(all, pos, max, text),
        parts::blocks_end(all, pos, larger) == parts::blocks_end(all, pos, max),
    decreases all.len() - pos,
{
    if block_scan::magic_at(all, pos) {
        grammar::lemma_block_end(all, pos + 48, max);
        grammar::lemma_block_larger(all, pos + 48, max, larger);
        if let grammar::Parsed::Done(t, next) = grammar::block_at(all, pos + 48, max) {
            lemma_blocks_larger(all, next, max, larger, text + t);
        }
    }
}

/// A stream gives the same text whichever of the two sizes is allowed.
proof fn lemma_fits_in(data: Seq<u8>, max: nat)
    requires
        stream::stream_text(data) is Text,
        fits_in(data, max),
    ensures
        stream::blocks_at(bits::bits_of(data), 32, max, Seq::empty()) == stream::stream_text(data),
        parts::blocks_end(bits::bits_of(data), 32, max) == stream_end(data),
{
    let all = bits::bits_of(data);
    let allowed = stream::head_blocksize(data);
    if allowed <= max {
        lemma_blocks_larger(all, 32, allowed, max, Seq::empty());
    } else {
        lemma_blocks_larger(all, 32, max, allowed, Seq::empty());
    }
}

/// The blocks of a stream, whatever follows it.
proof fn lemma_stream_in_front(first: Seq<u8>, second: Seq<u8>, max: nat)
    requires
        stream::stream_text(first) is Text,
        fits_in(first, max),
    ensures
        ({
            let all = bits::bits_of(first + second);
            let end = stream_end(first);
            &&& 32 <= end
            &&& end + 48 <= 8 * first.len()
            &&& bits::bits_value(all, end, 48) == FINAL_MAGIC
            &&& parts::reaches(all, 32, end, max)
            &&& stream::stream_text(first) == Decoded::Text(chunk::text_until(all, 32, end, max))
        }),
{
    let data = first + second;
    let front = bits::bits_of(first);
    let all = bits::bits_of(data);
    let end = stream_end(first);
    let len = first.len() as int;
    assert(data.take(len) == first);
    carry::lemma_bits_taken(data, len);
    lemma_fits_in(first, max);
    parts::lemma_blocks_as_segment(front, 32, max, Seq::empty());
    carry::lemma_text_before_alike(front, all, 8 * len, 32, end, max);
    locality::lemma_value_alike(front, all, 0, 0, 8 * len, end, 48);
    let text = chunk::text_until(front, 32, end, max);
    assert(Seq::<u8>::empty() + text == text);
}

/// The step from the end of one stream to the next.
proof fn lemma_step_to_next(first: Seq<u8>, second: Seq<u8>, max: nat)
    requires
        complete_stream(first),
        fits_in(first, max),
        stream::head_error(second) is None,
    ensures
        chunk::step_at(bits::bits_of(first + second), stream_end(first), max) == Some(
            (Seq::<u8>::empty(), 8 * first.len() as int + 32),
        ),
{
    let data = first + second;
    let all = bits::bits_of(data);
    let rest = bits::bits_of(second);
    let len = first.len() as int;
    lemma_stream_in_front(first, second, max);
    assert(data.skip(len) == second);
    carry::lemma_bits_skipped(data, len);
    lemma_head_letters(second);
    locality::lemma_value_alike(all, rest, -8 * len, 8 * len, all.len() as int, 8 * len, 24);
}

/// A stream and what follows it, read on from the first bit behind its head.
proof fn lemma_streams_join(first: Seq<u8>, second: Seq<u8>, max: nat)
    requires
        complete_stream(first),
        fits_in(first, max),
        stream::head_error(second) is None,
    ensures
        stream::stream_text(first) matches Decoded::Text(text) && chunk::text_until(
            bits::bits_of(first + second),
            32,
            8 * (first + second).len() as int,
            max,
        ) == text + chunk::text_until(
            bits::bits_of(second),
            32,
            8 * second.len() as int,
            max,
        ),
{
    let data = first + second;
    let all = bits::bits_of(data);
    let rest = bits::bits_of(second);
    let end = stream_end(first);
    let len = first.len() as int;
    lemma_stream_in_front(first, second, max);
    lemma_step_to_next(first, second, max);
    parts::lemma_text_splits(all, 32, end, all.len() as int, max);
    assert(data.skip(len) == second);
    carry::lemma_bits_skipped(data, len);
    carry::lemma_text_after_alike(all, rest, -8 * len, 8 * len, 8 * len + 32, max);
    let more = chunk::text_until(rest, 32, rest.len() as int, max);
    assert(Seq::<u8>::empty() + more == more);
}

/// Streams can be written one behind the other: reading both as one segment gives
/// the text of the first, which has a block in it, and then whatever the second
/// holds.
pub proof fn streams_join(first: Seq<u8>, second: Seq<u8>)
    requires
        complete_stream(first),
        block_scan::magic_at(bits::bits_of(first), 32),
        stream::head_error(second) is None,
    ensures
        stream::stream_text(first) matches Decoded::Text(text) && chunk::segment_text(
            bits::bits_of(first + second),
            32,
            8 * (first + second).len() as int,
            stream::head_blocksize(first),
        ) == text + chunk::text_until(
            bits::bits_of(second),
            32,
            8 * second.len() as int,
            stream::head_blocksize(first),
        ),
{
    let max = stream::head_blocksize(first);
    lemma_streams_join(first, second, max);
    lemma_magic_in_front(first, second);
    parts::lemma_segment_text(
        bits::bits_of(first + second),
        32,
        8 * (first + second).len() as int,
        max,
    );
}

pub proof fn lemma_magic_in_front(first: Seq<u8>, second: Seq<u8>)
    requires
        block_scan::magic_at(bits::bits_of(first), 32),
    ensures
        block_scan::magic_at(bits::bits_of(first + second), 32),
{
    let data = first + second;
    let len = first.len() as int;
    assert(data.take(len) == first);
    carry::lemma_bits_taken(data, len);
    locality::lemma_value_alike(
        bits::bits_of(first),
        bits::bits_of(data),
        0,
        0,
        8 * len,
        32,
        48,
    );
}

/// The streams are complete, hold the texts, and can be decoded as ones whose
/// blocks have at most `max` bytes.
pub open spec fn streams_hold(streams: Seq<Seq<u8>>, texts: Seq<Seq<u8>>, max: nat) -> bool {
    &&& streams.len() == texts.len()
    &&& forall|i: int|
        0 <= i < streams.len() ==> {
            &&& complete_stream(#[trigger] streams[i])
            &&& stream::stream_text(streams[i]) == Decoded::Text(texts[i])
            &&& fits_in(streams[i], max)
        }
}

/// Where reading on ends.
pub open spec fn reading_end(all: Seq<bool>, pos: int, max: nat) -> int
    decreases all.len() - pos,
{
    match chunk::step_at(all, pos, max) {
        None => pos,
        Some((_, next)) => {
            proof {
                chunk::lemma_step_end(all, pos, max);
            }
            reading_end(all, next, max)
        },
    }
}

proof fn lemma_reading_end(all: Seq<bool>, pos: int, mid: int, max: nat)
    requires
        parts::reaches(all, pos, mid, max),
    ensures
        reading_end(all, pos, max) == reading_end(all, mid, max),
    decreases all.len() - pos,
{
    if pos < mid {
        chunk::lemma_step_end(all, pos, max);
        lemma_reading_end(all, (chunk::step_at(all, pos, max)->0).1, mid, max);
    }
}

proof fn lemma_reading_end_alike(
    a: Seq<bool>,
    b: Seq<bool>,
    shift: int,
    from: int,
    pos: int,
    end: int,
    max: nat,
)
    requires
        locality::alike(a, b, shift, from, a.len() as int),
        a.len() + shift == b.len(),
        shift % 8 == 0,
        from <= pos,
        reading_end(b, pos + shift, max) == end,
    ensures
        reading_end(a, pos, max) == end - shift,
    decreases a.len() - pos,
{
    assert forall|i: int| from + shift <= i < b.len() implies #[trigger] b[i] == a[i
        + (-shift)] by {
        assert(a[i - shift] == b[i - shift + shift]);
    }
    assert(locality::alike(b, a, -shift, from + shift, b.len() as int));
    assert((-shift) % 8 == 0);
    if chunk::step_at(a, pos, max) is Some {
        let next = (chunk::step_at(a, pos, max)->0).1;
        chunk::lemma_step_end(a, pos, max);
        carry::lemma_step_alike(a, b, shift, from, a.len() as int, pos, max);
        lemma_reading_end_alike(a, b, shift, from, next, end, max);
    } else if chunk::step_at(b, pos + shift, max) is Some {
        carry::lemma_step_alike(b, a, -shift, from + shift, b.len() as int, pos + shift, max);
        assert(pos + shift + (-shift) == pos);
    }
}

proof fn lemma_reading_end_bound(all: Seq<bool>, pos: int, max: nat)
    ensures
        pos <= reading_end(all, pos, max),
    decreases all.len() - pos,
{
    if chunk::step_at(all, pos, max) is Some {
        chunk::lemma_step_end(all, pos, max);
        lemma_reading_end_bound(all, (chunk::step_at(all, pos, max)->0).1, max);
    }
}

/// The data is read up to a number that ends a stream, and holds the text.
#[verifier::opaque]
spec fn all_read(data: Seq<u8>, max: nat, text: Seq<u8>) -> bool {
    let all = bits::bits_of(data);
    let end = reading_end(all, 32, max);
    &&& stream::head_error(data) is None
    &&& chunk::text_until(all, 32, 8 * data.len() as int, max) == text
    &&& end + 48 <= all.len()
    &&& bits::bits_value(all, end, 48) == FINAL_MAGIC
}

proof fn lemma_last_read(last: Seq<u8>, text: Seq<u8>, max: nat)
    requires
        complete_stream(last),
        stream::stream_text(last) == Decoded::Text(text),
        fits_in(last, max),
    ensures
        all_read(last, max, text),
{
    reveal(all_read);
    let all = bits::bits_of(last);
    let end = stream_end(last);
    assert(last + Seq::<u8>::empty() == last);
    lemma_stream_in_front(last, Seq::empty(), max);
    lemma_reading_end(all, 32, end, max);
    assert(chunk::step_at(all, end, max) is None);
    parts::lemma_text_splits(all, 32, end, all.len() as int, max);
    assert(chunk::text_until(all, end, all.len() as int, max) == Seq::<u8>::empty());
    assert(text + Seq::<u8>::empty() == text);
}

/// Reading on ends where it ends in the streams behind the first.
proof fn lemma_more_end(first: Seq<u8>, second: Seq<u8>, max: nat)
    requires
        complete_stream(first),
        fits_in(first, max),
        stream::head_error(second) is None,
    ensures
        reading_end(bits::bits_of(first + second), 32, max) == 8 * first.len() + reading_end(
            bits::bits_of(second),
            32,
            max,
        ),
{
    let data = first + second;
    let all = bits::bits_of(data);
    let rest = bits::bits_of(second);
    let len = first.len() as int;
    lemma_stream_in_front(first, second, max);
    lemma_reading_end(all, 32, stream_end(first), max);
    lemma_step_to_next(first, second, max);
    assert(data.skip(len) == second);
    carry::lemma_bits_skipped(data, len);
    lemma_reading_end_alike(
        all,
        rest,
        -8 * len,
        8 * len,
        8 * len + 32,
        reading_end(rest, 32, max),
        max,
    );
}

/// What reading on comes to in the streams behind the first.
pub proof fn lemma_streams_reach(first: Seq<u8>, second: Seq<u8>, max: nat, pos: int)
    requires
        complete_stream(first),
        fits_in(first, max),
        stream::head_error(second) is None,
        parts::reaches(bits::bits_of(second), 32, pos, max),
    ensures
        parts::reaches(bits::bits_of(first + second), 32, 8 * first.len() + pos, max),
{
    let data = first + second;
    let all = bits::bits_of(data);
    let rest = bits::bits_of(second);
    let len = first.len() as int;
    let end = stream_end(first);
    lemma_stream_in_front(first, second, max);
    lemma_step_to_next(first, second, max);
    parts::lemma_reaches_later(rest, 32, pos, max);
    carry::lemma_bits_behind(first, second);
    carry::lemma_reaches_alike(rest, all, 8 * len, 0, 32, pos, max);
    parts::lemma_reaches_on(all, 32, end, 8 * len + pos, max);
}

/// Bits behind a stream, as bits of the streams behind it.
proof fn lemma_value_behind(first: Seq<u8>, second: Seq<u8>, pos: int)
    requires
        0 <= pos,
        pos + 48 <= 8 * second.len(),
    ensures
        bits::bits_value(bits::bits_of(first + second), 8 * first.len() + pos, 48)
            == bits::bits_value(bits::bits_of(second), pos, 48),
{
    let data = first + second;
    let len = first.len() as int;
    assert(data.skip(len) == second);
    carry::lemma_bits_skipped(data, len);
    locality::lemma_value_alike(
        bits::bits_of(data),
        bits::bits_of(second),
        -8 * len,
        8 * len,
        8 * data.len() as int,
        8 * len + pos,
        48,
    );
}

/// The head of a stream is at its front.
pub proof fn lemma_head_in_front(first: Seq<u8>, second: Seq<u8>)
    requires
        stream::head_error(first) is None,
    ensures
        stream::head_error(first + second) is None,
        stream::head_blocksize(first + second) == stream::head_blocksize(first),
{
    let data = first + second;
    assert(data[0] == first[0] && data[1] == first[1] && data[2] == first[2] && data[3]
        == first[3]);
}

proof fn lemma_more_read(
    first: Seq<u8>,
    second: Seq<u8>,
    text: Seq<u8>,
    more: Seq<u8>,
    max: nat,
)
    requires
        complete_stream(first),
        stream::stream_text(first) == Decoded::Text(text),
        fits_in(first, max),
        all_read(second, max, more),
    ensures
        all_read(first + second, max, text + more),
{
    reveal(all_read);
    lemma_head_in_front(first, second);
    lemma_streams_join(first, second, max);
    lemma_more_end(first, second, max);
    lemma_reading_end_bound(bits::bits_of(second), 32, max);
    lemma_value_behind(first, second, reading_end(bits::bits_of(second), 32, max));
}

/// All of the streams are read, up to the number that ends the last.
proof fn lemma_streams_read(streams: Seq<Seq<u8>>, texts: Seq<Seq<u8>>, max: nat)
    requires
        streams.len() > 0,
        streams_hold(streams, texts, max),
    ensures
        all_read(streams.flatten(), max, texts.flatten()),
        stream::head_blocksize(streams.flatten()) == stream::head_blocksize(streams[0]),
    decreases streams.len(),
{
    let others = streams.drop_first();
    let more = texts.drop_first();
    let data = streams.flatten();
    assert(complete_stream(streams[0]));
    lemma_head_in_front(streams[0], others.flatten());
    assert(data == streams[0] + others.flatten());
    assert(texts.flatten() == texts[0] + more.flatten());
    if streams.len() == 1 {
        assert(others.flatten() == Seq::<u8>::empty());
        assert(more.flatten() == Seq::<u8>::empty());
        assert(data == streams[0]);
        assert(texts.flatten() == texts[0]);
        lemma_last_read(streams[0], texts[0], max);
    } else {
        assert forall|i: int| 0 <= i < others.len() implies {
            &&& complete_stream(#[trigger] others[i])
            &&& stream::stream_text(others[i]) == Decoded::Text(more[i])
            &&& fits_in(others[i], max)
        } by {
            assert(others[i] == streams[i + 1]);
            assert(more[i] == texts[i + 1]);
        }
        lemma_streams_read(others, more, max);
        lemma_more_read(streams[0], others.flatten(), texts[0], more.flatten(), max);
    }
}

/// Any number of streams one behind the other, read as one segment, give their
/// texts one behind the other. The first has a block in it, and none has larger
/// blocks than the first allows.
pub proof fn streams_give_texts(streams: Seq<Seq<u8>>, texts: Seq<Seq<u8>>)
    requires
        streams.len() > 0,
        streams_hold(streams, texts, stream::head_blocksize(streams[0])),
        block_scan::magic_at(bits::bits_of(streams[0]), 32),
    ensures
        chunk::segment_text(
            bits::bits_of(streams.flatten()),
            32,
            8 * streams.flatten().len() as int,
            stream::head_blocksize(streams[0]),
        ) == texts.flatten(),
{
    let max = stream::head_blocksize(streams[0]);
    let data = streams.flatten();
    reveal(all_read);
    lemma_streams_read(streams, texts, max);
    lemma_magic_in_front(streams[0], streams.drop_first().flatten());
    assert(data == streams[0] + streams.drop_first().flatten());
    parts::lemma_segment_text(bits::bits_of(data), 32, 8 * data.len() as int, max);
}

/// Decoding all blocks that a search finds in any number of streams one behind the
/// other gives their texts one behind the other, provided that what is found are
/// the blocks. None of the streams has larger blocks than the first allows.
pub proof fn parallel_reads_streams(streams: Seq<Seq<u8>>, texts: Seq<Seq<u8>>)
    requires
        streams.len() > 0,
        streams_hold(streams, texts, stream::head_blocksize(streams[0])),
        parts::magics_reached(
            bits::bits_of(streams.flatten()),
            32,
            32,
            stream::head_blocksize(streams[0]),
        ),
    ensures
        parallel::scanned_text(streams.flatten()) == Decoded::Text(texts.flatten()),
{
    let max = stream::head_blocksize(streams[0]);
    let all = bits::bits_of(streams.flatten());
    reveal(all_read);
    lemma_streams_read(streams, texts, max);
    parts::lemma_reached_are_magics(all, 32, max);
    lemma_blocks_apart(all, 32, max);
}

/// Decoding apart the blocks that reading on comes to gives what reading on gives,
/// where it does not end at a block.
proof fn lemma_blocks_apart(all: Seq<bool>, pos: int, max: nat)
    requires
        !block_scan::magic_at(all, reading_end(all, pos, max)),
    ensures
        parallel::joined(
            parallel::block_results(all, parts::starts_reached(all, pos, max), max),
        ) == Decoded::Text(chunk::text_until(all, pos, all.len() as int, max)),
    decreases all.len() - pos,
{
    let starts = parts::starts_reached(all, pos, max);
    let results = parallel::block_results(all, starts, max);
    chunk::lemma_step_end(all, pos, max);
    match chunk::step_at(all, pos, max) {
        None => {
            assert(results == Seq::<Decoded>::empty());
        },
        Some((text, next)) => {
            lemma_blocks_apart(all, next, max);
            let others = parallel::block_results(
                all,
                parts::starts_reached(all, next, max),
                max,
            );
            let more = chunk::text_until(all, next, all.len() as int, max);
            if block_scan::magic_at(all, pos) {
                let first = parallel::block_result(all, pos, max);
                assert(first == Decoded::Text(text));
                assert(results == seq![first] + others);
                parts::lemma_joined_front(first, others);
            } else {
                assert(results == others);
                assert(text + more == more);
            }
        },
    }
}

/// Streams one behind the other, read in pieces of any size and decoded in chunks
/// by any number of workers, give their texts one behind the other. This holds
/// where every magic number in the data is the start of a block.
pub proof fn pipeline_reads_streams(
    streams: Seq<Seq<u8>>,
    texts: Seq<Seq<u8>>,
    read: Seq<u8>,
    pieces: Seq<Seq<u8>>,
    n: nat,
)
    requires
        streams.len() > 0,
        streams_hold(streams, texts, stream::head_blocksize(streams[0])),
        block_scan::magic_at(bits::bits_of(streams[0]), 32),
        parts::magics_reached(
            bits::bits_of(streams.flatten()),
            0,
            32,
            stream::head_blocksize(streams[0]),
        ),
        pieces.len() > 0,
        forall|i: int| 0 <= i < pieces.len() - 1 ==> (#[trigger] pieces[i]).len() > 0,
        read + pieces.flatten() == streams.flatten(),
    ensures
        carry::pipeline_text(read, pieces, n, stream::head_blocksize(streams[0]))
            == texts.flatten(),
{
    let max = stream::head_blocksize(streams[0]);
    let data = streams.flatten();
    let all = bits::bits_of(data);
    streams_give_texts(streams, texts);
    lemma_magic_in_front(streams[0], streams.drop_first().flatten());
    assert(data == streams[0] + streams.drop_first().flatten());
    block_scan::next_magic_is_first(all, 0);
    let found = block_scan::next_magic(all, 0)->0;
    parts::lemma_starts_reached(all, 32, max, found);
    parts::lemma_reaches_later(all, 32, found, max);
    carry::pipeline_reads_all(read, pieces, n, max, 32);
}

proof fn lemma_blocks_in_front(a: Seq<bool>, b: Seq<bool>, pos: int, max: nat, text: Seq<u8>)
    requires
        locality::alike(a, b, 0, 0, a.len() as int),
        0 <= pos,
        stream::blocks_at(a, pos, max, text) is Text,
    ensures
        stream::blocks_at(b, pos, max, text) == stream::blocks_at(a, pos, max, text),
    decreases a.len() - pos,
{
    locality::lemma_value_alike(a, b, 0, 0, a.len() as int, pos, 48);
    if block_scan::magic_at(a, pos) {
        if let grammar::Parsed::Done(t, next) = grammar::block_at(a, pos + 48, max) {
            grammar::lemma_block_end(a, pos + 48, max);
            assert(stream::blocks_at(a, next, max, text + t) is Text);
            assert(locality::alike(a, b, 0, pos + 48 + 32, a.len() as int));
            locality::block_is_local(a, b, 0, a.len() as int, pos + 48, max);
            lemma_blocks_in_front(a, b, next, max, text + t);
        }
    }
}

/// What follows a stream in the data does not matter to the decoder of one stream.
pub proof fn what_follows_is_ignored(data: Seq<u8>, more: Seq<u8>)
    requires
        stream::stream_text(data) is Text,
    ensures
        stream::stream_text(data + more) == stream::stream_text(data),
{
    let whole = data + more;
    let len = data.len() as int;
    assert(whole.take(len) == data);
    carry::lemma_bits_taken(whole, len);
    lemma_head_in_front(data, more);
    lemma_blocks_in_front(
        bits::bits_of(data),
        bits::bits_of(whole),
        32,
        stream::head_blocksize(data),
        Seq::empty(),
    );
}

} // verus!
