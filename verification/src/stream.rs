//! The decoder for one stream, block after block.
use vstd::prelude::*;

use crate::bitreader::BitReader;
use crate::bits;
use crate::block;
use crate::block::BlockError;
use crate::grammar;
use crate::{BLOCK_MAGIC, FINAL_MAGIC};

verus! {

/// What a stream holds, or why it cannot be decoded.
pub enum Decoded {
    Text(Seq<u8>),
    Error(Seq<char>),
}

/// The outcome is what `decoded` says.
pub open spec fn is_outcome(r: Result<Vec<u8>, BlockError>, decoded: Decoded) -> bool {
    match decoded {
        Decoded::Text(text) => r matches Ok(v) && v@ == text,
        Decoded::Error(why) => r matches Err(e) && e.0@ == why,
    }
}

/// Why the first four bytes are not the head of a stream.
pub open spec fn head_error(data: Seq<u8>) -> Option<Seq<char>> {
    if data.len() < 4 {
        Some("input too short for bzip2 header"@)
    } else if data[0] != 0x42 || data[1] != 0x5a {
        Some("bad bzip2 signature"@)
    } else if data[2] != 0x68 {
        Some("only huffman bzip2 supported"@)
    } else if data[3] < 0x31 || data[3] > 0x39 {
        Some("invalid bzip2 block size level"@)
    } else {
        None
    }
}

/// The size of the largest block, by the digit in the head of a stream.
pub open spec fn head_blocksize(data: Seq<u8>) -> nat {
    (100_000 * (data[3] - 0x30)) as nat
}

/// Reads the head of a stream: the letters `BZh` and the digit that gives the
/// size of the largest block.
pub fn read_head(data: &[u8]) -> (r: Result<u32, BlockError>)
    ensures
        match r {
            Ok(max) => head_error(data@) is None && max == head_blocksize(data@),
            Err(e) => head_error(data@) == Some(e.0@),
        },
{
    if data.len() < 4 {
        return Err(BlockError("input too short for bzip2 header"));
    }
    if data[0] != 0x42 || data[1] != 0x5a {
        return Err(BlockError("bad bzip2 signature"));
    }
    if data[2] != 0x68 {
        return Err(BlockError("only huffman bzip2 supported"));
    }
    let level: u8 = data[3];
    if level < 0x31 || level > 0x39 {
        return Err(BlockError("invalid bzip2 block size level"));
    }
    Ok(100_000 * (level - 0x30) as u32)
}

/// What the blocks from `pos` to the end of the stream add to the text.
pub open spec fn blocks_at(all: Seq<bool>, pos: int, max: nat, text: Seq<u8>) -> Decoded
    decreases all.len() - pos,
{
    if pos + 48 > all.len() {
        Decoded::Error("unexpected end of stream"@)
    } else if bits::bits_value(all, pos, 48) == BLOCK_MAGIC {
        proof {
            grammar::lemma_block_end(all, pos + 48, max);
        }
        match grammar::block_at(all, pos + 48, max) {
            grammar::Parsed::Fail(why, _) => Decoded::Error(why),
            grammar::Parsed::Done(t, next) => blocks_at(all, next, max, text + t),
        }
    } else if bits::bits_value(all, pos, 48) == FINAL_MAGIC {
        Decoded::Text(text)
    } else {
        Decoded::Error("invalid block magic"@)
    }
}

/// What a stream holds.
pub open spec fn stream_text(data: Seq<u8>) -> Decoded {
    match head_error(data) {
        Some(why) => Decoded::Error(why),
        None => blocks_at(bits::bits_of(data), 32, head_blocksize(data), Seq::empty()),
    }
}

/// Decodes the stream that `data` begins with.
pub fn decompress(data: &[u8]) -> (r: Result<Vec<u8>, BlockError>)
    requires
        8 * data@.len() <= usize::MAX,
    ensures
        is_outcome(r, stream_text(data@)),
{
    let max: u32 = match read_head(data) {
        Ok(m) => m,
        Err(e) => {
            return Err(e);
        },
    };
    let ghost all = bits::bits_of(data@);
    let ghost goal = stream_text(data@);
    let mut reader: BitReader<'_> = BitReader::from_bit_offset(data, 32);
    let mut tt: Vec<u32> = Vec::new();
    let mut output: Vec<u8> = Vec::new();
    loop
        invariant
            goal == stream_text(data@),
            reader.bits() == all,
            goal == blocks_at(all, reader.pos() as int, max as nat, output@),
        decreases all.len() - reader.pos(),
    {
        let magic: u64 = match reader.read_u64(48) {
            Some(v) => v,
            None => {
                return Err(BlockError("unexpected end of stream"));
            },
        };
        if magic == BLOCK_MAGIC {
            proof {
                grammar::lemma_block_end(all, reader.pos() as int, max as nat);
            }
            match block::decode_block_with(&mut reader, max, &mut tt, &mut output) {
                Ok(()) => {},
                Err(e) => {
                    return Err(e);
                },
            }
        } else if magic == FINAL_MAGIC {
            return Ok(output);
        } else {
            return Err(BlockError("invalid block magic"));
        }
    }
}

/// What is told of an outcome is what it is: the text of a success, and the reason
/// of a failure.
pub proof fn outcome_is_told(r: Result<Vec<u8>, BlockError>, decoded: Decoded)
    ensures
        is_outcome(r, decoded) <==> match r {
            Ok(text) => decoded == Decoded::Text(text@),
            Err(e) => decoded == Decoded::Error(e.0@),
        },
{
}

/// Exactly the four bytes `BZh` and a digit from 1 on are the head of a stream.
/// What is wrong with others is told of the first of them that is.
pub proof fn head_is_told(data: Seq<u8>)
    ensures
        data.len() < 4 ==> head_error(data) == Some("input too short for bzip2 header"@),
        data.len() >= 4 && data.take(2) != seq![0x42u8, 0x5au8] ==> head_error(data) == Some(
            "bad bzip2 signature"@,
        ),
        data.len() >= 4 && data.take(2) == seq![0x42u8, 0x5au8] && data[2] != 0x68 ==> head_error(
            data,
        ) == Some("only huffman bzip2 supported"@),
        data.len() >= 4 && data.take(3) == seq![0x42u8, 0x5au8, 0x68u8] && !(0x31 <= data[3]
            <= 0x39) ==> head_error(data) == Some("invalid bzip2 block size level"@),
        data.len() >= 4 && data.take(3) == seq![0x42u8, 0x5au8, 0x68u8] && 0x31 <= data[3] <= 0x39
            <==> head_error(data) is None,
{
    if data.len() >= 4 {
        let two = data.take(2);
        let three = data.take(3);
        assert(two[0] == data[0] && two[1] == data[1]);
        assert(three[0] == data[0] && three[1] == data[1] && three[2] == data[2]);
        if data[0] == 0x42 && data[1] == 0x5a {
            assert(two == seq![0x42u8, 0x5au8]);
            if data[2] == 0x68 {
                assert(three == seq![0x42u8, 0x5au8, 0x68u8]);
            }
        }
    }
}

/// What is wrong with the head of a stream is what is wrong with the stream.
pub proof fn bad_head_is_refused(data: Seq<u8>)
    ensures
        head_error(data) matches Some(why) ==> stream_text(data) == Decoded::Error(why),
{
}

} // verus!
