use lbzip2::bitreader::BitReader;
use lbzip2::block::{decode_block, BlockError};
use lbzip2::block_scan::{
    find_all_blocks, find_next_block, find_plausible_block, quick_verify, split_boundaries,
    BlockBoundary,
};
use lbzip2::chunk::{
    decode_segment, plan_chunk, split_chunk, ChunkDecoder, ChunkStep, SegmentRange,
};
use lbzip2::parallel::{assemble, decode_found, decompress_parallel, find_blocks};
use lbzip2::stream::{decompress, read_head};
use lbzip2::BLOCK_MAGIC;

/// "Hello, World!\n" as a stream of one block, with level 9.
const HELLO: [u8; 58] = [
    66, 90, 104, 57, 49, 65, 89, 38, 83, 89, 153, 172, 34, 86, 0, 0, 2, 87, 128, 0, 16, 96, 4, 0,
    64, 0, 128, 6, 4, 144, 0, 32, 0, 34, 6, 129, 144, 128, 105, 166, 137, 24, 106, 206, 164, 25,
    111, 139, 185, 34, 156, 40, 72, 76, 214, 17, 43, 0,
];

/// The letters from a to z over and over, 250,000 bytes in three blocks, with
/// level 1.
const ALPHABET: [u8; 361] = [
    66, 90, 104, 49, 49, 65, 89, 38, 83, 89, 206, 113, 74, 25, 0, 7, 130, 129, 128, 63, 255, 255,
    240, 48, 0, 248, 2, 128, 0, 3, 38, 65, 64, 0, 1, 147, 32, 41, 85, 13, 3, 38, 128, 52, 105, 172,
    129, 86, 91, 84, 10, 183, 40, 21, 96, 160, 85, 189, 64, 171, 130, 129, 87, 21, 2, 174, 74, 5,
    92, 212, 10, 177, 80, 42, 201, 64, 171, 25, 2, 174, 146, 5, 89, 200, 21, 117, 144, 42, 237, 32,
    85, 222, 64, 171, 196, 129, 87, 153, 2, 175, 82, 5, 94, 228, 10, 190, 72, 21, 105, 32, 85, 246,
    64, 171, 244, 129, 86, 178, 5, 95, 204, 80, 86, 73, 148, 214, 107, 197, 27, 240, 192, 22, 135,
    128, 96, 15, 255, 255, 252, 12, 0, 62, 0, 160, 0, 0, 201, 144, 80, 0, 0, 100, 200, 10, 85, 67,
    64, 201, 160, 13, 26, 107, 32, 85, 178, 64, 171, 108, 129, 86, 233, 2, 172, 36, 10, 183, 200,
    21, 112, 144, 42, 227, 32, 85, 202, 64, 171, 156, 129, 86, 50, 5, 89, 72, 21, 105, 154, 129,
    87, 85, 2, 174, 202, 5, 93, 212, 10, 188, 40, 21, 121, 80, 42, 244, 160, 85, 237, 64, 171, 226,
    129, 86, 138, 5, 88, 200, 21, 125, 144, 42, 253, 32, 85, 172, 129, 87, 243, 20, 21, 146, 101,
    53, 154, 186, 95, 18, 224, 5, 43, 16, 24, 3, 255, 255, 255, 3, 0, 13, 180, 69, 0, 0, 6, 76,
    129, 53, 85, 0, 52, 200, 104, 50, 1, 74, 168, 26, 13, 50, 1, 166, 143, 210, 10, 182, 72, 42,
    219, 32, 171, 116, 130, 173, 242, 40, 112, 74, 161, 197, 42, 135, 36, 170, 28, 210, 168, 116,
    144, 85, 208, 130, 172, 72, 42, 234, 65, 86, 68, 21, 102, 65, 87, 98, 10, 187, 144, 85, 224,
    130, 175, 36, 21, 122, 32, 171, 217, 5, 95, 8, 42, 199, 66, 16, 213, 42, 135, 212, 170, 31,
    146, 168, 127, 23, 114, 69, 56, 80, 144, 204, 72, 6, 206,
];

/// 40,000 times each letter from a on, 250,000 bytes in one block, with level 1.
const RUNS: [u8; 100] = [
    66, 90, 104, 49, 49, 65, 89, 38, 83, 89, 19, 181, 33, 100, 0, 0, 78, 137, 2, 136, 0, 63, 128,
    0, 64, 0, 8, 32, 0, 144, 32, 6, 2, 106, 170, 126, 164, 253, 83, 101, 61, 237, 10, 207, 4, 140,
    161, 93, 209, 35, 40, 86, 126, 18, 50, 133, 103, 162, 70, 80, 172, 224, 145, 148, 43, 58, 36,
    117, 224, 175, 49, 35, 156, 231, 57, 205, 161, 91, 66, 182, 133, 109, 10, 218, 21, 180, 43,
    240, 175, 226, 238, 72, 167, 10, 18, 2, 118, 164, 44, 128,
];

/// No text at all, with level 5.
const NOTHING: [u8; 14] = [
    66, 90, 104, 53, 23, 114, 69, 56, 80, 144, 0, 0, 0, 0,
];

fn alphabet() -> Vec<u8> {
    (0..250_000usize).map(|i| b'a' + (i % 26) as u8).collect()
}

fn max_blocksize(data: &[u8]) -> u32 {
    100_000 * (data[3] - b'0') as u32
}

#[test]
fn decode_known_block() {
    let compressed = &HELLO;
    let expected = b"Hello, World!\n";

    assert_eq!(&compressed[..3], b"BZh");
    let level = compressed[3] - b'0';
    let max_blocksize = 100_000 * level as u32;

    // Skip header, read block magic.
    let mut reader = BitReader::from_bit_offset(compressed, 4 * 8);
    let magic = reader.read_u64(48).unwrap();
    assert_eq!(magic, BLOCK_MAGIC, "expected block magic");

    let output = decode_block(&mut reader, max_blocksize).unwrap();
    assert_eq!(&output, expected);
}

#[test]
fn decompress_hello() {
    let output = decompress(&HELLO).unwrap();
    assert_eq!(&output, b"Hello, World!\n");
}

#[test]
fn parallel_hello() {
    let output = decompress_parallel(&HELLO).unwrap();
    assert_eq!(&output, b"Hello, World!\n");
}

#[test]
fn chunk_hello() {
    let data = &HELLO;
    let split = split_chunk(data, 4, max_blocksize(data), true).unwrap();
    let total_bits = data.len() as u64 * 8;
    let mut output = Vec::new();
    for i in 0..split.decode_segments {
        let start = split.segment_starts[i].bit_offset;
        let end = if i + 1 < split.segment_starts.len() {
            split.segment_starts[i + 1].bit_offset
        } else {
            total_bits
        };
        output.extend_from_slice(&decode_segment(data, start, end, max_blocksize(data)));
    }
    assert_eq!(&output, b"Hello, World!\n");
}

/// Decodes a chunk in segments, one after the other.
fn in_segments(data: &[u8], n: usize, max: u32, is_last: bool) -> (Vec<u8>, usize) {
    let split = split_chunk(data, n, max, is_last).unwrap();
    let mut output = Vec::new();
    for range in split.work(data.len() as u64 * 8) {
        output.extend_from_slice(&decode_segment(data, range.start_bit, range.end_bit, max));
    }
    (output, split.consumed)
}

#[test]
fn several_blocks() {
    assert_eq!(decompress(&ALPHABET).unwrap(), alphabet());
}

#[test]
fn long_runs() {
    let output = decompress(&RUNS).unwrap();
    assert_eq!(output.len(), 250_000);
    assert!((0..250_000).all(|i| output[i] == b'a' + (i / 40_000) as u8));
    assert_eq!(decode_segment(&RUNS, 32, 8 * RUNS.len() as u64, 100_000), output);
}

#[test]
fn empty_stream() {
    assert_eq!(decompress(&NOTHING).unwrap(), b"");
    assert_eq!(decompress_parallel(&NOTHING).unwrap(), b"");
    assert!(split_chunk(&NOTHING, 4, 500_000, true).is_none());
}

#[test]
fn heads_are_refused() {
    let refused = [
        (&b"BZh"[..], "input too short for bzip2 header"),
        (&b"BXh9"[..], "bad bzip2 signature"),
        (&b"AZh9"[..], "bad bzip2 signature"),
        (&b"BZ09"[..], "only huffman bzip2 supported"),
        (&b"BZh0"[..], "invalid bzip2 block size level"),
        (&b"BZh:"[..], "invalid bzip2 block size level"),
    ];
    for (data, why) in refused {
        assert_eq!(read_head(data).unwrap_err().0, why);
        assert_eq!(decompress(data).unwrap_err().0, why);
        assert_eq!(decompress_parallel(data).unwrap_err().0, why);
    }
    assert_eq!(read_head(b"BZh1").unwrap(), 100_000);
    assert_eq!(read_head(b"BZh9").unwrap(), 900_000);
}

#[test]
fn streams_are_refused() {
    assert_eq!(decompress(b"BZh9").unwrap_err().0, "unexpected end of stream");
    assert_eq!(decompress(&HELLO[..9]).unwrap_err().0, "unexpected end of stream");
    assert_eq!(decompress(b"BZh9aaaaaa").unwrap_err().0, "invalid block magic");
    let mut damaged = HELLO;
    damaged[14] |= 0x80;
    assert_eq!(decompress(&damaged).unwrap_err().0, "randomised blocks not supported");
    assert_eq!(
        decompress_parallel(&damaged).unwrap_err().0,
        "randomised blocks not supported"
    );
    // The first of the errors counts.
    let mut both = ALPHABET;
    both[14] |= 0x80;
    both[(962 + 80) / 8] |= 0x20;
    assert_eq!(decompress(&both).unwrap_err().0, "randomised blocks not supported");
    assert_eq!(
        decompress_parallel(&both).unwrap_err().0,
        "randomised blocks not supported"
    );
}

#[test]
fn what_follows_is_ignored() {
    let mut data = HELLO.to_vec();
    data.extend_from_slice(b"and so on");
    assert_eq!(decompress(&data).unwrap(), b"Hello, World!\n");
}

#[test]
fn blocks_are_found() {
    let found: Vec<u64> = find_all_blocks(&ALPHABET).iter().map(|b| b.bit_offset).collect();
    assert_eq!(found, vec![32, 962, 1892]);
    assert_eq!(find_next_block(&ALPHABET, 0), Some(BlockBoundary { bit_offset: 32 }));
    assert_eq!(find_next_block(&ALPHABET, 32), Some(BlockBoundary { bit_offset: 32 }));
    assert_eq!(find_next_block(&ALPHABET, 33), Some(BlockBoundary { bit_offset: 962 }));
    assert_eq!(find_next_block(&ALPHABET, 1893), None);
    assert_eq!(find_next_block(&ALPHABET, u64::MAX), None);
    assert_eq!(BlockBoundary { bit_offset: 962 }.byte_offset(), 120);
    assert!(find_all_blocks(&NOTHING).is_empty());
    assert!(find_all_blocks(b"").is_empty());
}

#[test]
fn false_blocks_are_told_apart() {
    // The magic number, and behind it a block that nothing can be in.
    let mut data = vec![0u8; 4];
    data.extend_from_slice(&BLOCK_MAGIC.to_be_bytes()[2..]);
    data.extend_from_slice(&[0; 10]);
    assert_eq!(find_next_block(&data, 0), Some(BlockBoundary { bit_offset: 32 }));
    assert!(!quick_verify(&data, 80, 100_000));
    assert_eq!(find_plausible_block(&data, 0, 100_000), None);
    // The row of the text lies behind the largest block.
    data[18] = 0x01;
    assert!(quick_verify(&data, 80, 100_000));
    data[14] = 0x7f;
    assert!(!quick_verify(&data, 80, 100_000));
    // Too short to tell.
    assert!(!quick_verify(&HELLO[..19], 80, 900_000));
    assert!(quick_verify(&HELLO[..20], 80, 900_000));
    assert!(!quick_verify(&HELLO, u64::MAX, 900_000));
}

#[test]
fn split_points_are_spread() {
    let points = |n| -> Vec<u64> {
        split_boundaries(&ALPHABET, n, 100_000).iter().map(|b| b.bit_offset).collect()
    };
    assert_eq!(points(0), vec![]);
    assert_eq!(points(1), vec![]);
    assert_eq!(points(2), vec![1892]);
    assert_eq!(points(3), vec![962]);
    assert_eq!(points(4), vec![962, 1892]);
}

#[test]
fn chunk_is_cut_into_segments() {
    let last = split_chunk(&ALPHABET, 8, 100_000, true).unwrap();
    let starts: Vec<u64> = last.segment_starts.iter().map(|b| b.bit_offset).collect();
    assert_eq!(starts, vec![32, 962, 1892]);
    assert_eq!(last.decode_segments, 3);
    assert_eq!(last.consumed, ALPHABET.len());
    assert_eq!(last.segment_end(0, 2888), 962);
    assert_eq!(last.segment_end(2, 2888), 2888);

    let more = split_chunk(&ALPHABET, 8, 100_000, false).unwrap();
    assert_eq!(more.decode_segments, 2);
    assert_eq!(more.consumed, 1892 / 8);
    assert_eq!(
        more.work(2888),
        vec![
            SegmentRange { start_bit: 32, end_bit: 962 },
            SegmentRange { start_bit: 962, end_bit: 1892 },
        ]
    );
    // A single segment may go on in the next chunk.
    assert!(split_chunk(&ALPHABET, 1, 100_000, false).is_none());
    assert!(split_chunk(b"no block at all", 4, 100_000, true).is_none());
}

#[test]
fn chunk_is_planned() {
    assert!(matches!(plan_chunk(b"BZh9", 4, 4, 900_000, true), ChunkStep::Stop));
    assert!(matches!(plan_chunk(b"BZh9", 4, 4, 900_000, false), ChunkStep::Stop));
    assert!(matches!(plan_chunk(b"BZh9 and on", 4, 4, 900_000, false), ChunkStep::Carry));
    assert!(matches!(plan_chunk(b"BZh9 and on", 4, 4, 900_000, true), ChunkStep::Stop));
    assert!(matches!(plan_chunk(b"carry", 5, 4, 900_000, false), ChunkStep::Carry));
    // One block that may go on in the next chunk is kept.
    assert!(matches!(plan_chunk(&HELLO, 4, 4, 900_000, false), ChunkStep::Carry));
    // A single worker gets the blocks up to the middle.
    match plan_chunk(&ALPHABET, 4, 1, 100_000, false) {
        ChunkStep::Decode(split) => {
            assert_eq!(split.decode_segments, 1);
            assert_eq!(split.consumed, 1892 / 8);
        }
        step => panic!("{:?}", step),
    }
    match plan_chunk(&HELLO, 4, 4, 900_000, true) {
        ChunkStep::Decode(split) => assert_eq!(split.consumed, HELLO.len()),
        step => panic!("{:?}", step),
    }
}

#[test]
fn parallel_is_sequential() {
    assert_eq!(decompress_parallel(&ALPHABET).unwrap(), decompress(&ALPHABET).unwrap());
    assert_eq!(decompress_parallel(&RUNS).unwrap(), decompress(&RUNS).unwrap());
}

#[test]
fn parallel_is_made_of_steps() {
    let (max, found) = find_blocks(&ALPHABET).unwrap();
    assert_eq!(max, 100_000);
    let results: Vec<_> = found.iter().map(|b| decode_found(&ALPHABET, *b, max)).collect();
    assert_eq!(results.len(), 3);
    assert_eq!(assemble(&results).unwrap(), alphabet());
    assert_eq!(assemble(&[]).unwrap(), b"");
    let mixed = [
        Ok(b"text".to_vec()),
        Err(BlockError("first")),
        Ok(b"more".to_vec()),
        Err(BlockError("second")),
    ];
    assert_eq!(assemble(&mixed).unwrap_err().0, "first");
    assert_eq!(find_blocks(b"BZh").unwrap_err().0, "input too short for bzip2 header");
}

#[test]
fn segments_are_sequential() {
    let whole = decompress(&ALPHABET).unwrap();
    for n in 0..10 {
        let (output, consumed) = in_segments(&ALPHABET, n, 100_000, true);
        assert_eq!(output, whole);
        assert_eq!(consumed, ALPHABET.len());
    }
}

#[test]
fn segment_splits_at_a_block() {
    let total = 8 * ALPHABET.len() as u64;
    let mut output = decode_segment(&ALPHABET, 32, 962, 100_000);
    assert!(output.len() < 250_000);
    output.extend_from_slice(&decode_segment(&ALPHABET, 962, total, 100_000));
    assert_eq!(output, decode_segment(&ALPHABET, 32, total, 100_000));
}

#[test]
fn segment_goes_on_to_the_next_stream() {
    let mut data = HELLO.to_vec();
    data.extend_from_slice(&HELLO);
    data.extend_from_slice(&NOTHING);
    data.extend_from_slice(&HELLO);
    let total = 8 * data.len() as u64;
    assert_eq!(
        decode_segment(&data, 32, total, 900_000),
        b"Hello, World!\nHello, World!\nHello, World!\n"
    );
    // Up to the head of the second stream.
    assert_eq!(decode_segment(&data, 32, 8 * 58, 900_000), b"Hello, World!\n");
    // What is not a stream ends it.
    data[58] = b'X';
    assert_eq!(decode_segment(&data, 32, total, 900_000), b"Hello, World!\n");
}

#[test]
fn segment_without_a_block_is_empty() {
    assert_eq!(decode_segment(&HELLO, 40, 464, 900_000), b"");
    assert_eq!(decode_segment(&HELLO, 10_000, 20_000, 900_000), b"");
    assert_eq!(decode_segment(b"", 0, 0, 900_000), b"");
}

#[test]
fn chunks_are_sequential() {
    let whole = decompress(&ALPHABET).unwrap();
    for mid in (150..ALPHABET.len()).step_by(17) {
        for n in [2, 3, 8] {
            if split_chunk(&ALPHABET[..mid], n, 100_000, false).is_none() {
                continue;
            }
            let (mut output, consumed) = in_segments(&ALPHABET[..mid], n, 100_000, false);
            assert!(consumed <= mid);
            let (rest, _) = in_segments(&ALPHABET[consumed..], n, 100_000, true);
            output.extend_from_slice(&rest);
            assert_eq!(output, whole);
        }
    }
}

#[test]
fn chunk_decoder_gives_segments() {
    let decoder = ChunkDecoder::from_header(&ALPHABET[..4]).unwrap();
    let (segments, consumed) = decoder.decode_chunk_segments(&ALPHABET, true).unwrap();
    assert_eq!(segments.len(), 3);
    assert_eq!(segments.concat(), alphabet());
    assert_eq!(consumed, ALPHABET.len());

    let (segments, consumed) = decoder.decode_chunk_segments(&ALPHABET, false).unwrap();
    assert_eq!(segments.len(), 2);
    assert_eq!(consumed, 1892 / 8);
    let (rest, _) = decoder.decode_chunk_segments(&ALPHABET[consumed..], true).unwrap();
    assert_eq!([segments, rest].concat().concat(), alphabet());

    let one = decoder.with_segments(1);
    assert_eq!(one.decode_chunk_segments(&ALPHABET, true).unwrap().0.len(), 1);
    assert!(one.decode_chunk_segments(&ALPHABET, false).is_none());
    assert!(decoder.decode_chunk_segments(&NOTHING, true).is_none());
    assert_eq!(ChunkDecoder::from_header(b"BZ").unwrap_err().0, "input too short for bzip2 header");
}

#[test]
fn chunk_decoder_gives_text() {
    let decoder = ChunkDecoder::from_header(&ALPHABET).unwrap();
    let (text, consumed) = decoder.decode_chunk(&ALPHABET, true).unwrap();
    assert_eq!(text, alphabet());
    assert_eq!(consumed, ALPHABET.len());
    let (front, consumed) = decoder.decode_chunk(&ALPHABET[..300], false).unwrap();
    let (back, _) = decoder.decode_chunk(&ALPHABET[consumed..], true).unwrap();
    assert_eq!([front, back].concat(), alphabet());
    assert!(decoder.decode_chunk(b"no block at all", true).is_none());
}

#[test]
fn block_is_local() {
    // The block of HELLO three bits further on, with other bits around it.
    let mut bytes = vec![0xa5u8];
    bytes.extend_from_slice(&HELLO[4..]);
    bytes.push(0xff);
    let moved: Vec<u8> = (0..bytes.len())
        .map(|i| {
            let before = if i == 0 { 0 } else { bytes[i - 1] };
            (before << 5) | (bytes[i] >> 3)
        })
        .collect();
    assert_eq!(find_next_block(&moved, 0), Some(BlockBoundary { bit_offset: 11 }));
    let mut reader = BitReader::from_bit_offset(&moved, 11 + 48);
    assert_eq!(decode_block(&mut reader, 900_000).unwrap(), b"Hello, World!\n");
    let mut in_place = BitReader::from_bit_offset(&HELLO, 32 + 48);
    decode_block(&mut in_place, 900_000).unwrap();
    assert_eq!(reader.position() - (11 + 48), in_place.position() - (32 + 48));
}

#[test]
fn streams_join() {
    let mut data = HELLO.to_vec();
    data.extend_from_slice(&ALPHABET);
    let mut expected = b"Hello, World!\n".to_vec();
    expected.extend_from_slice(&alphabet());
    assert_eq!(decode_segment(&data, 32, 8 * data.len() as u64, 900_000), expected);
    // A stream alone ends where it ends.
    assert_eq!(decompress(&data).unwrap(), b"Hello, World!\n");
}

/// Reads the pieces one after the other, as chunks with a carry.
fn in_pieces(pieces: &[&[u8]], n: usize, max: u32) -> Vec<u8> {
    let mut carry: Vec<u8> = Vec::new();
    let mut output = Vec::new();
    for (i, piece) in pieces.iter().enumerate() {
        let carried = carry.len();
        let mut data = carry.clone();
        data.extend_from_slice(piece);
        match plan_chunk(&data, carried, n, max, i + 1 == pieces.len()) {
            ChunkStep::Decode(split) => {
                for range in split.work(data.len() as u64 * 8) {
                    let text = decode_segment(&data, range.start_bit, range.end_bit, max);
                    output.extend_from_slice(&text);
                }
                carry = data[split.consumed..].to_vec();
            }
            ChunkStep::Carry => carry = data,
            ChunkStep::Stop => break,
        }
    }
    output
}

#[test]
fn pipeline_reads_all() {
    for workers in [1, 2, 3, 8] {
        for size in [7, 50, 119, 130, 240, 400] {
            let pieces: Vec<&[u8]> = ALPHABET.chunks(size).collect();
            assert_eq!(in_pieces(&pieces, workers, 100_000), alphabet());
        }
        // The end of the input can come as an empty piece.
        assert_eq!(in_pieces(&[&HELLO, b""], workers, 900_000), b"Hello, World!\n");
    }
}

#[test]
fn pipeline_reads_streams() {
    let mut data = ALPHABET.to_vec();
    let mut expected = alphabet();
    for _ in 0..20 {
        data.extend_from_slice(&HELLO);
        expected.extend_from_slice(b"Hello, World!\n");
    }
    for workers in [1, 4] {
        for size in [64, 333, 5000] {
            let pieces: Vec<&[u8]> = data.chunks(size).collect();
            assert_eq!(in_pieces(&pieces, workers, 100_000), expected);
        }
    }
}

#[test]
fn segments_of_streams_join() {
    let mut data = Vec::new();
    for _ in 0..9 {
        data.extend_from_slice(&HELLO);
    }
    for n in [1, 2, 5, 9, 40] {
        assert_eq!(in_segments(&data, n, 900_000, true).0, b"Hello, World!\n".repeat(9));
    }
}

#[test]
fn parallel_reads_streams() {
    let mut data = HELLO.to_vec();
    data.extend_from_slice(&ALPHABET);
    data.extend_from_slice(&NOTHING);
    data.extend_from_slice(&HELLO);
    let mut expected = b"Hello, World!\n".to_vec();
    expected.extend_from_slice(&alphabet());
    expected.extend_from_slice(b"Hello, World!\n");
    assert_eq!(decompress_parallel(&data).unwrap(), expected);
}

#[test]
fn checksum_and_what_follows_do_not_matter() {
    let mut first = BitReader::from_bit_offset(&HELLO, 80);
    let text = decode_block(&mut first, 900_000).unwrap();
    let end = first.position();
    let mut other = HELLO.to_vec();
    for byte in &mut other[..14] {
        *byte ^= 0xff;
    }
    other[end / 8] ^= 0xff >> (end % 8);
    other.truncate(end / 8 + 1);
    let mut second = BitReader::from_bit_offset(&other, 80);
    assert_eq!(decode_block(&mut second, 900_000).unwrap(), text);
    assert_eq!(second.position(), end);
}

#[test]
fn cut_block_fails() {
    let mut reader = BitReader::from_bit_offset(&HELLO, 80);
    decode_block(&mut reader, 900_000).unwrap();
    let end = reader.position();
    for len in 10..HELLO.len() {
        let mut cut = BitReader::from_bit_offset(&HELLO[..len], 80);
        assert_eq!(decode_block(&mut cut, 900_000).is_ok(), 8 * len >= end);
    }
}
