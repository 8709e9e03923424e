//! The decoder for one stream whose blocks are found first and then decoded
//! independently of each other.
//!
//! [`decompress_parallel`] is made of three steps, and the second is the one to
//! hand out to workers: [`find_blocks`] finds the blocks, [`decode_found`]
//! decodes one of them, and [`assemble`] joins the results.
use vstd::prelude::*;

use crate::bitreader::BitReader;
use crate::bits;
use crate::block;
use crate::block::BlockError;
use crate::block_scan;
use crate::block_scan::BlockBoundary;
use crate::grammar;
use crate::stream;
use crate::stream::Decoded;

verus! {

/// What decoding one block gives.
pub open spec fn block_result(all: Seq<bool>, start: int, max: nat) -> Decoded {
    match grammar::block_at(all, start + 48, max) {
        grammar::Parsed::Done(text, _) => Decoded::Text(text),
        grammar::Parsed::Fail(why, _) => Decoded::Error(why),
    }
}

/// The texts in their order, or the first error among them.
pub open spec fn joined(parts: Seq<Decoded>) -> Decoded
    decreases parts.len(),
{
    if parts.len() == 0 {
        Decoded::Text(Seq::empty())
    } else {
        match (joined(parts.drop_last()), parts.last()) {
            (Decoded::Error(why), _) => Decoded::Error(why),
            (Decoded::Text(_), Decoded::Error(why)) => Decoded::Error(why),
            (Decoded::Text(text), Decoded::Text(more)) => Decoded::Text(text + more),
        }
    }
}

/// What the blocks at the given bits hold.
pub open spec fn block_results(all: Seq<bool>, starts: Seq<int>, max: nat) -> Seq<Decoded> {
    starts.map_values(|start: int| block_result(all, start, max))
}

/// What a stream holds, by all the magic numbers in it.
pub open spec fn scanned_text(data: Seq<u8>) -> Decoded {
    match stream::head_error(data) {
        Some(why) => Decoded::Error(why),
        None => {
            let all = bits::bits_of(data);
            joined(
                block_results(all, block_scan::all_magics(all, 32), stream::head_blocksize(data)),
            )
        },
    }
}

/// A result as contracts speak of it.
pub open spec fn decoded_of(r: Result<Vec<u8>, BlockError>) -> Decoded {
    match r {
        Ok(text) => Decoded::Text(text@),
        Err(e) => Decoded::Error(e.0@),
    }
}

/// The results as contracts speak of them.
pub open spec fn all_decoded(results: Seq<Result<Vec<u8>, BlockError>>) -> Seq<Decoded> {
    results.map_values(|r: Result<Vec<u8>, BlockError>| decoded_of(r))
}

/// Reads the head of a stream, and finds the blocks in it. Returns the size of
/// the largest block with them.
pub fn find_blocks(data: &[u8]) -> (r: Result<(u32, Vec<BlockBoundary>), BlockError>)
    requires
        8 * data@.len() <= usize::MAX,
    ensures
        match r {
            Ok((max, found)) => stream::head_error(data@) is None && max == stream::head_blocksize(
                data@,
            ) && block_scan::offsets_of(found@) == block_scan::all_magics(bits::bits_of(data@), 32),
            Err(e) => stream::head_error(data@) == Some(e.0@),
        },
{
    match stream::read_head(data) {
        Ok(max) => Ok((max, block_scan::find_all_blocks(data))),
        Err(e) => Err(e),
    }
}

/// Decodes the block at a boundary.
pub fn decode_found(data: &[u8], boundary: BlockBoundary, max_blocksize: u32) -> (r: Result<
    Vec<u8>,
    BlockError,
>)
    requires
        8 * data@.len() <= usize::MAX,
        boundary.bit_offset + 48 <= 8 * data@.len(),
    ensures
        decoded_of(r) == block_result(
            bits::bits_of(data@),
            boundary.bit_offset as int,
            max_blocksize as nat,
        ),
{
    let mut reader: BitReader<'_> = BitReader::from_bit_offset(
        data,
        (boundary.bit_offset + 48) as usize,
    );
    block::decode_block(&mut reader, max_blocksize)
}

/// Joins the texts of blocks in their order. Fails with the first error, where
/// there is one.
pub fn assemble(results: &[Result<Vec<u8>, BlockError>]) -> (r: Result<Vec<u8>, BlockError>)
    ensures
        decoded_of(r) == joined(all_decoded(results@)),
{
    let ghost parts = all_decoded(results@);
    let mut output: Vec<u8> = Vec::new();
    let mut i: usize = 0;
    while i < results.len()
        invariant
            i <= results@.len(),
            parts == all_decoded(results@),
            joined(parts.take(i as int)) == Decoded::Text(output@),
        decreases results.len() - i,
    {
        proof {
            assert(parts.take(i + 1).drop_last() == parts.take(i as int));
            assert(parts.take(i + 1).last() == decoded_of(results@[i as int]));
        }
        match &results[i] {
            Ok(text) => {
                let ghost before = output@;
                output.extend_from_slice(text);
                assert(output@ == before + text@);
            },
            Err(e) => {
                proof {
                    lemma_joined_error(parts, i as int);
                }
                return Err(BlockError(e.0));
            },
        }
        i = i + 1;
    }
    assert(parts.take(i as int) == parts);
    Ok(output)
}

/// The first error among the parts is what the whole is.
proof fn lemma_joined_error(parts: Seq<Decoded>, i: int)
    requires
        0 <= i < parts.len(),
        joined(parts.take(i + 1)) is Error,
    ensures
        joined(parts) == joined(parts.take(i + 1)),
    decreases parts.len(),
{
    if i + 1 == parts.len() {
        assert(parts.take(i + 1) == parts);
    } else {
        assert(parts.drop_last().take(i + 1) == parts.take(i + 1));
        lemma_joined_error(parts.drop_last(), i);
    }
}

/// Decodes the stream in `data` by finding all blocks in it first.
pub fn decompress_parallel(data: &[u8]) -> (r: Result<Vec<u8>, BlockError>)
    requires
        8 * data@.len() <= usize::MAX,
    ensures
        stream::is_outcome(r, scanned_text(data@)),
{
    let (max, found): (u32, Vec<BlockBoundary>) = match find_blocks(data) {
        Ok(plan) => plan,
        Err(e) => {
            return Err(e);
        },
    };
    let ghost all = bits::bits_of(data@);
    let ghost starts = block_scan::offsets_of(found@);
    let ghost parts = block_results(all, starts, max as nat);
    let mut results: Vec<Result<Vec<u8>, BlockError>> = Vec::new();
    let mut i: usize = 0;
    assert(all_decoded(results@) == parts.take(0));
    while i < found.len()
        invariant
            8 * data@.len() <= usize::MAX,
            i <= found@.len(),
            all == bits::bits_of(data@),
            starts == block_scan::offsets_of(found@),
            starts == block_scan::all_magics(all, 32),
            parts == block_results(all, starts, max as nat),
            all_decoded(results@) == parts.take(i as int),
        decreases found.len() - i,
    {
        let boundary: BlockBoundary = found[i];
        proof {
            block_scan::all_magics_is_complete(all, 32);
            assert(starts[i as int] == boundary.bit_offset);
            assert(block_scan::all_magics(all, 32).contains(starts[i as int]));
        }
        let result: Result<Vec<u8>, BlockError> = decode_found(data, boundary, max);
        proof {
            assert(all_decoded(results@.push(result)) == all_decoded(results@).push(
                decoded_of(result),
            ));
            assert(parts.take(i + 1) == parts.take(i as int).push(parts[i as int]));
        }
        results.push(result);
        i = i + 1;
    }
    assert(parts.take(i as int) == parts);
    assemble(&results)
}

/// What contracts say of a result is what it is.
pub proof fn result_is_told(results: Seq<Result<Vec<u8>, BlockError>>, i: int)
    requires
        0 <= i < results.len(),
    ensures
        all_decoded(results).len() == results.len(),
        match results[i] {
            Ok(text) => all_decoded(results)[i] == Decoded::Text(text@),
            Err(e) => all_decoded(results)[i] == Decoded::Error(e.0@),
        },
        all_decoded(results)[i] == decoded_of(results[i]),
{
}

/// Where every part has a text, the whole is these one behind the other.
pub proof fn texts_are_joined(parts: Seq<Decoded>)
    requires
        forall|i: int| 0 <= i < parts.len() ==> (#[trigger] parts[i]) is Text,
    ensures
        joined(parts) == Decoded::Text(parts.map_values(|p: Decoded| p->Text_0).flatten()),
    decreases parts.len(),
{
    let texts = parts.map_values(|p: Decoded| p->Text_0);
    texts.lemma_flatten_and_flatten_alt_are_equivalent();
    if parts.len() > 0 {
        let before = parts.drop_last();
        texts_are_joined(before);
        let front = before.map_values(|p: Decoded| p->Text_0);
        assert(texts.drop_last() == front);
        front.lemma_flatten_and_flatten_alt_are_equivalent();
        assert(parts[parts.len() - 1] is Text);
    }
}

/// Where a part has an error, the whole has the first.
pub proof fn first_error_is_told(parts: Seq<Decoded>, i: int)
    requires
        0 <= i < parts.len(),
        parts[i] is Error,
        forall|j: int| 0 <= j < i ==> (#[trigger] parts[j]) is Text,
    ensures
        joined(parts) == parts[i],
{
    let front = parts.take(i);
    assert forall|j: int| 0 <= j < front.len() implies (#[trigger] front[j]) is Text by {
        assert(front[j] == parts[j]);
    }
    texts_are_joined(front);
    assert(parts.take(i + 1).drop_last() == front);
    assert(parts.take(i + 1).last() == parts[i]);
    lemma_joined_error(parts, i);
}

/// Each block that is found is decoded apart. Where all of them can be decoded, the
/// texts follow each other. Where one cannot, the reason is that of the first.
pub proof fn blocks_are_decoded_apart(data: Seq<u8>, texts: Seq<Seq<u8>>)
    requires
        stream::head_error(data) is None,
        texts.len() <= block_scan::all_magics(bits::bits_of(data), 32).len(),
        forall|i: int|
            0 <= i < texts.len() ==> (grammar::block_at(
                bits::bits_of(data),
                block_scan::all_magics(bits::bits_of(data), 32)[i] + 48,
                stream::head_blocksize(data),
            ) matches grammar::Parsed::Done(text, _) && text == #[trigger] texts[i]),
    ensures
        ({
            let all = bits::bits_of(data);
            let starts = block_scan::all_magics(all, 32);
            let k = texts.len() as int;
            &&& k == starts.len() ==> scanned_text(data) == Decoded::Text(texts.flatten())
            &&& k < starts.len() ==> (grammar::block_at(
                all,
                starts[k] + 48,
                stream::head_blocksize(data),
            ) matches grammar::Parsed::Fail(why, _) ==> scanned_text(data) == Decoded::Error(why))
        }),
{
    let all = bits::bits_of(data);
    let max = stream::head_blocksize(data);
    let starts = block_scan::all_magics(all, 32);
    let parts = block_results(all, starts, max);
    assert forall|i: int| 0 <= i < texts.len() implies parts[i] == Decoded::Text(
        #[trigger] texts[i],
    ) by {}
    if texts.len() == starts.len() {
        assert forall|i: int| 0 <= i < parts.len() implies (#[trigger] parts[i]) is Text by {
            assert(parts[i] == Decoded::Text(texts[i]));
        }
        texts_are_joined(parts);
        assert(parts.map_values(|p: Decoded| p->Text_0) == texts);
    } else if grammar::block_at(all, starts[texts.len() as int] + 48, max) is Fail {
        assert forall|j: int| 0 <= j < texts.len() implies (#[trigger] parts[j]) is Text by {
            assert(parts[j] == Decoded::Text(texts[j]));
        }
        first_error_is_told(parts, texts.len() as int);
    }
}

/// What is wrong with the head of a stream is what is wrong with the stream.
pub proof fn bad_head_is_refused(data: Seq<u8>)
    ensures
        stream::head_error(data) matches Some(why) ==> scanned_text(data) == Decoded::Error(why),
{
}

/// What is told of a block that is decoded apart is its text, or the reason why it
/// cannot be decoded.
pub proof fn block_is_told(all: Seq<bool>, start: int, max: nat)
    ensures
        match grammar::block_at(all, start + 48, max) {
            grammar::Parsed::Done(text, _) => block_result(all, start, max) == Decoded::Text(text),
            grammar::Parsed::Fail(why, _) => block_result(all, start, max) == Decoded::Error(why),
        },
{
}

} // verus!
