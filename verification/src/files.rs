//! Files as compressors write them.
//!
//! Such a file is one stream behind the other, each filled up to a whole byte.
//! Every way of decoding it gives the texts that were written into it.
use vstd::arithmetic::power2::*;
use vstd::prelude::*;

use crate::bits;
use crate::block_scan;
use crate::carry;
use crate::chunk;
use crate::encoding;
use crate::encoding::Block;
use crate::grammar;
use crate::joined;
use crate::parallel;
use crate::parts;
use crate::stream;
use crate::stream::Decoded;
use crate::writing;

verus! {

/// A stream as a compressor writes it: its bytes, its level, and the blocks.
pub struct Written {
    pub data: Seq<u8>,
    pub level: nat,
    pub blocks: Seq<Block>,
}

impl Written {
    /// The bytes are the stream and nothing else: behind the number that ends it
    /// stand the 32 bits of the checksum, and less than a byte that fills the
    /// last one up.
    pub open spec fn complete(self) -> bool {
        let end = 32 + encoding::stream_bits(self.blocks).len() + 32;
        &&& encoding::stream_written(self.data, self.level, self.blocks)
        &&& end <= 8 * self.data.len() < end + 8
    }

    /// The text of the stream.
    pub open spec fn text(self) -> Seq<u8> {
        encoding::texts_of(self.blocks).flatten()
    }

    /// No block has more than `max` bytes.
    pub open spec fn fits(self, max: nat) -> bool {
        forall|i: int| 0 <= i < self.blocks.len() ==> (#[trigger] self.blocks[i]).valid(max)
    }
}

/// The streams are complete, and none has larger blocks than level `d` allows.
pub open spec fn all_complete(streams: Seq<Written>, d: nat) -> bool {
    forall|i: int|
        0 <= i < streams.len() ==> (#[trigger] streams[i]).complete() && streams[i].fits(
            100_000 * d,
        )
}

/// The bytes of the streams, one behind the other.
pub open spec fn bytes_of(streams: Seq<Written>) -> Seq<u8> {
    streams.map_values(|s: Written| s.data).flatten()
}

/// The texts of the streams, one behind the other.
pub open spec fn text_of(streams: Seq<Written>) -> Seq<u8> {
    streams.map_values(|s: Written| s.text()).flatten()
}

/// A block begins `at` bits behind the first of the blocks.
pub open spec fn begins_block(blocks: Seq<Block>, at: int) -> bool
    decreases blocks.len(),
{
    blocks.len() > 0 && (at == 0 || begins_block(
        blocks.drop_first(),
        at - 48 - blocks[0].bits().len(),
    ))
}

/// A block of one of the streams begins at bit `at`.
pub open spec fn begins_in(streams: Seq<Written>, at: int) -> bool
    decreases streams.len(),
{
    streams.len() > 0 && (begins_block(streams[0].blocks, at - 32) || begins_in(
        streams.drop_first(),
        at - 8 * streams[0].data.len(),
    ))
}

/// The number that marks a block stands, from bit `from` on, only where one was
/// written.
pub open spec fn no_chance_marks(streams: Seq<Written>, from: int) -> bool {
    let all = bits::bits_of(bytes_of(streams));
    forall|q: int|
        from <= q && q + 48 <= all.len() && #[trigger] bits::bits_value(all, q, 48)
            == 0x314159265359 ==> begins_in(streams, q)
}

/// The blocks end where they were written to end.
proof fn lemma_blocks_end(all: Seq<bool>, pos: int, max: nat, blocks: Seq<Block>)
    requires
        forall|i: int| 0 <= i < blocks.len() ==> (#[trigger] blocks[i]).valid(max),
        writing::stands_at(all, pos, encoding::stream_bits(blocks)),
    ensures
        parts::blocks_end(all, pos, max) == pos + encoding::stream_bits(blocks).len() - 48,
    decreases blocks.len(),
{
    lemma2_to64();
    lemma2_to64_rest();
    if blocks.len() == 0 {
        writing::lemma_number_len(0x177245385090, 48);
        writing::number_is_read_back(all, pos, 0x177245385090, 48);
    } else {
        let rest = blocks.drop_first();
        lemma_first_block(all, pos, max, blocks);
        lemma_blocks_end(all, pos + 48 + blocks[0].bits().len(), max, rest);
    }
}

/// The first of the blocks, and those behind it.
proof fn lemma_first_block(all: Seq<bool>, pos: int, max: nat, blocks: Seq<Block>)
    requires
        blocks.len() > 0,
        forall|i: int| 0 <= i < blocks.len() ==> (#[trigger] blocks[i]).valid(max),
        writing::stands_at(all, pos, encoding::stream_bits(blocks)),
    ensures
        ({
            let rest = blocks.drop_first();
            let next = pos + 48 + blocks[0].bits().len();
            &&& block_scan::magic_at(all, pos)
            &&& chunk::step_at(all, pos, max) == Some((blocks[0].text(), next))
            &&& grammar::block_at(all, pos + 48, max) == grammar::Parsed::Done(
                blocks[0].text(),
                next,
            )
            &&& writing::stands_at(all, next, encoding::stream_bits(rest))
            &&& encoding::stream_bits(blocks).len() == 48 + blocks[0].bits().len()
                + encoding::stream_bits(rest).len()
            &&& forall|i: int| 0 <= i < rest.len() ==> (#[trigger] rest[i]).valid(max)
        }),
{
    lemma2_to64();
    lemma2_to64_rest();
    let block = blocks[0];
    let rest = blocks.drop_first();
    let magic = writing::number_bits(0x314159265359, 48);
    writing::lemma_number_len(0x314159265359, 48);
    writing::lemma_stands_apart(all, pos, magic, block.bits() + encoding::stream_bits(rest));
    writing::lemma_stands_apart(all, pos + 48, block.bits(), encoding::stream_bits(rest));
    writing::number_is_read_back(all, pos, 0x314159265359, 48);
    assert(blocks[0].valid(max));
    encoding::block_is_read_back(all, pos + 48, max, block);
    assert forall|i: int| 0 <= i < rest.len() implies (#[trigger] rest[i]).valid(max) by {
        assert(rest[i] == blocks[i + 1]);
    }
}

/// A complete stream gives its text, and ends where it was written to end.
proof fn lemma_stream_end(s: Written)
    requires
        s.complete(),
    ensures
        stream::stream_text(s.data) == Decoded::Text(s.text()),
        stream::head_error(s.data) is None,
        stream::head_blocksize(s.data) == 100_000 * s.level,
        joined::stream_end(s.data) == 32 + encoding::stream_bits(s.blocks).len() - 48,
{
    encoding::head_is_accepted(s.data, s.level);
    encoding::stream_is_read_back(s.data, s.level, s.blocks);
    lemma_blocks_end(bits::bits_of(s.data), 32, 100_000 * s.level, s.blocks);
}

/// A whole byte is the next one from any bit of the one before on.
proof fn lemma_next_byte(p: int, len: nat)
    requires
        0 <= p <= 8 * len < p + 8,
    ensures
        chunk::byte_aligned(p) == 8 * len,
{
    chunk::next_byte_is_nearest(p);
}

/// The blocks of a stream can be read where blocks of `max` bytes are allowed.
proof fn lemma_fits(s: Written, max: nat)
    requires
        s.complete(),
        s.fits(max),
    ensures
        joined::fits_in(s.data, max),
{
    encoding::blocks_are_read_back(bits::bits_of(s.data), 32, max, s.blocks);
}

/// A complete stream is one that other streams can follow.
proof fn lemma_complete(s: Written, max: nat)
    requires
        s.complete(),
        s.fits(max),
    ensures
        joined::complete_stream(s.data),
        joined::fits_in(s.data, max),
        stream::stream_text(s.data) == Decoded::Text(s.text()),
        stream::head_error(s.data) is None,
        stream::head_blocksize(s.data) == 100_000 * s.level,
{
    lemma_stream_end(s);
    lemma_fits(s, max);
    lemma_next_byte(joined::stream_end(s.data) + 80, s.data.len());
}

proof fn lemma_streams_hold(streams: Seq<Written>, d: nat)
    requires
        all_complete(streams, d),
    ensures
        joined::streams_hold(
            streams.map_values(|s: Written| s.data),
            streams.map_values(|s: Written| s.text()),
            100_000 * d,
        ),
{
    let all_data = streams.map_values(|s: Written| s.data);
    let texts = streams.map_values(|s: Written| s.text());
    assert forall|i: int| 0 <= i < all_data.len() implies {
        &&& joined::complete_stream(#[trigger] all_data[i])
        &&& stream::stream_text(all_data[i]) == Decoded::Text(texts[i])
        &&& joined::fits_in(all_data[i], 100_000 * d)
    } by {
        assert(streams[i].complete());
        lemma_complete(streams[i], 100_000 * d);
    }
}

/// A stream with a block has its number behind the head.
proof fn lemma_block_in_front(s: Written)
    requires
        s.complete(),
        s.blocks.len() > 0,
    ensures
        block_scan::magic_at(bits::bits_of(s.data), 32),
{
    lemma_first_block(bits::bits_of(s.data), 32, 100_000 * s.level, s.blocks);
}

/// Streams that were written one behind the other, read as one segment, give
/// their texts one behind the other. The first has a block in it, and none has
/// larger blocks than the first allows.
pub proof fn file_is_read_back(streams: Seq<Written>)
    requires
        streams.len() > 0,
        all_complete(streams, streams[0].level),
        streams[0].blocks.len() > 0,
    ensures
        chunk::segment_text(
            bits::bits_of(bytes_of(streams)),
            32,
            8 * bytes_of(streams).len() as int,
            100_000 * streams[0].level,
        ) == text_of(streams),
{
    let all_data = streams.map_values(|s: Written| s.data);
    let texts = streams.map_values(|s: Written| s.text());
    lemma_streams_hold(streams, streams[0].level);
    assert(streams[0].complete());
    lemma_complete(streams[0], 100_000 * streams[0].level);
    lemma_block_in_front(streams[0]);
    joined::streams_give_texts(all_data, texts);
}

/// Reading on from the first block comes to each of the blocks.
proof fn lemma_blocks_reached(all: Seq<bool>, pos: int, max: nat, blocks: Seq<Block>, at: int)
    requires
        forall|i: int| 0 <= i < blocks.len() ==> (#[trigger] blocks[i]).valid(max),
        writing::stands_at(all, pos, encoding::stream_bits(blocks)),
        begins_block(blocks, at),
    ensures
        parts::reaches(all, pos, pos + at, max),
    decreases blocks.len(),
{
    if at != 0 {
        let next = pos + 48 + blocks[0].bits().len();
        let rest = blocks.drop_first();
        lemma_first_block(all, pos, max, blocks);
        lemma_blocks_reached(all, next, max, rest, at - 48 - blocks[0].bits().len());
        parts::lemma_reaches_later(all, next, pos + at, max);
    }
}

/// The bits in front of others stand where they stood.
proof fn lemma_stands_in_front(first: Seq<u8>, second: Seq<u8>, pos: int, written: Seq<bool>)
    requires
        writing::stands_at(bits::bits_of(first), pos, written),
    ensures
        writing::stands_at(bits::bits_of(first + second), pos, written),
{
    let all = bits::bits_of(first + second);
    let front = bits::bits_of(first);
    assert forall|i: int| #![trigger written[i]] 0 <= i < written.len() implies all[pos + i]
        == written[i] by {
        let k = pos + i;
        assert(front[k] == written[i]);
        assert((first + second)[k / 8] == first[k / 8]);
    }
}

proof fn lemma_bytes_of(streams: Seq<Written>)
    requires
        streams.len() > 0,
    ensures
        bytes_of(streams) == streams[0].data + bytes_of(streams.drop_first()),
{
    let all_data = streams.map_values(|s: Written| s.data);
    assert(all_data.drop_first() == streams.drop_first().map_values(|s: Written| s.data));
}

proof fn lemma_rest_complete(streams: Seq<Written>, d: nat)
    requires
        streams.len() > 0,
        all_complete(streams, d),
    ensures
        all_complete(streams.drop_first(), d),
{
    let rest = streams.drop_first();
    assert forall|i: int| 0 <= i < rest.len() implies (#[trigger] rest[i]).complete()
        && rest[i].fits(100_000 * d) by {
        assert(rest[i] == streams[i + 1]);
    }
}

/// Reading on comes to each of the blocks of the streams.
proof fn lemma_streams_reached(streams: Seq<Written>, d: nat, at: int)
    requires
        all_complete(streams, d),
        begins_in(streams, at),
    ensures
        parts::reaches(bits::bits_of(bytes_of(streams)), 32, at, 100_000 * d),
    decreases streams.len(),
{
    let max = 100_000 * d;
    let first = streams[0];
    let others = streams.drop_first();
    let rest = bytes_of(others);
    let all = bits::bits_of(bytes_of(streams));
    lemma_bytes_of(streams);
    assert(first.complete() && first.fits(max));
    if begins_block(first.blocks, at - 32) {
        lemma_stands_in_front(first.data, rest, 32, encoding::stream_bits(first.blocks));
        lemma_blocks_reached(all, 32, max, first.blocks, at - 32);
    } else {
        let len = first.data.len() as int;
        assert(begins_in(others, at - 8 * len));
        assert(others.len() > 0);
        lemma_rest_complete(streams, d);
        lemma_streams_reached(others, d, at - 8 * len);
        lemma_bytes_of(others);
        assert(others[0].complete() && others[0].fits(max));
        lemma_complete(first, max);
        lemma_complete(others[0], max);
        joined::lemma_head_in_front(others[0].data, bytes_of(others.drop_first()));
        joined::lemma_streams_reach(first.data, rest, max, at - 8 * len);
    }
}

/// Where no mark stands by chance, reading on comes to all of them.
proof fn lemma_marks_reached(streams: Seq<Written>, d: nat, from: int)
    requires
        all_complete(streams, d),
        no_chance_marks(streams, from),
    ensures
        parts::magics_reached(bits::bits_of(bytes_of(streams)), from, 32, 100_000 * d),
{
    let all = bits::bits_of(bytes_of(streams));
    let max = 100_000 * d;
    assert forall|q: int|
        from <= q && #[trigger] block_scan::magic_at(all, q) implies parts::starts_reached(
        all,
        32,
        max,
    ).contains(q) by {
        assert(bits::bits_value(all, q, 48) == 0x314159265359);
        lemma_streams_reached(streams, d, q);
        parts::lemma_starts_reached(all, 32, max, q);
    }
}

/// Decoding all blocks that a search finds in streams that were written one behind
/// the other gives their texts one behind the other, where the number that marks a
/// block does not stand elsewhere by chance.
pub proof fn file_is_read_in_parallel(streams: Seq<Written>)
    requires
        streams.len() > 0,
        all_complete(streams, streams[0].level),
        no_chance_marks(streams, 32),
    ensures
        parallel::scanned_text(bytes_of(streams)) == Decoded::Text(text_of(streams)),
{
    let d = streams[0].level;
    lemma_streams_hold(streams, d);
    assert(streams[0].complete());
    lemma_complete(streams[0], 100_000 * d);
    lemma_marks_reached(streams, d, 32);
    joined::parallel_reads_streams(
        streams.map_values(|s: Written| s.data),
        streams.map_values(|s: Written| s.text()),
    );
}

/// Streams that were written one behind the other can be cut into any number of
/// segments: all of the data is taken up, and the texts of the segments make up
/// those of the streams.
pub proof fn file_is_read_in_segments(streams: Seq<Written>, n: nat)
    requires
        streams.len() > 0,
        all_complete(streams, streams[0].level),
        streams[0].blocks.len() > 0,
        no_chance_marks(streams, 0),
    ensures
        ({
            let data = bytes_of(streams);
            let max = 100_000 * streams[0].level;
            chunk::split_of(data, n, max, true) matches Some((starts, decoded, consumed))
                && consumed == data.len() && decoded == starts.len() && chunk::segments_text(
                bits::bits_of(data),
                starts,
                8 * data.len() as int,
                max,
                decoded as nat,
            ) == text_of(streams)
        }),
{
    let d = streams[0].level;
    let data = bytes_of(streams);
    assert(streams[0].complete());
    lemma_marks_reached(streams, d, 0);
    lemma_bytes_of(streams);
    lemma_block_in_front(streams[0]);
    joined::lemma_magic_in_front(streams[0].data, bytes_of(streams.drop_first()));
    file_is_read_back(streams);
    parts::segments_of_streams_join(data, n, 100_000 * d);
}

/// Streams that were written one behind the other, read in pieces of any size and
/// decoded in chunks by any number of workers, give their texts one behind the
/// other.
pub proof fn file_is_read_in_chunks(
    streams: Seq<Written>,
    read: Seq<u8>,
    pieces: Seq<Seq<u8>>,
    n: nat,
)
    requires
        streams.len() > 0,
        all_complete(streams, streams[0].level),
        streams[0].blocks.len() > 0,
        no_chance_marks(streams, 0),
        pieces.len() > 0,
        forall|i: int| 0 <= i < pieces.len() - 1 ==> (#[trigger] pieces[i]).len() > 0,
        read + pieces.flatten() == bytes_of(streams),
    ensures
        carry::pipeline_text(read, pieces, n, 100_000 * streams[0].level) == text_of(streams),
{
    let d = streams[0].level;
    lemma_streams_hold(streams, d);
    assert(streams[0].complete());
    lemma_complete(streams[0], 100_000 * d);
    lemma_block_in_front(streams[0]);
    lemma_marks_reached(streams, d, 0);
    joined::pipeline_reads_streams(
        streams.map_values(|s: Written| s.data),
        streams.map_values(|s: Written| s.text()),
        read,
        pieces,
        n,
    );
}

} // verus!
