use lbzip2::bitreader::BitReader;
use lbzip2::block::{decode_block, decode_block_with, BlockError};

/// Bits that are put together by hand.
struct Bits(Vec<bool>);

impl Bits {
    fn new() -> Bits {
        Bits(Vec::new())
    }

    fn put(mut self, value: u64, n: u32) -> Bits {
        for i in (0..n).rev() {
            self.0.push((value >> i) & 1 == 1);
        }
        self
    }

    /// The bits in whole bytes, with as many in front of them as it takes.
    fn bytes(&self) -> (Vec<u8>, usize) {
        let lead = (8 - self.0.len() % 8) % 8;
        let mut all = vec![false; lead];
        all.extend_from_slice(&self.0);
        let bytes = all
            .chunks(8)
            .map(|c| c.iter().fold(0u8, |v, &b| 2 * v + b as u8))
            .collect();
        (bytes, lead)
    }

    fn decode(&self, max: u32) -> Result<Vec<u8>, &'static str> {
        let (bytes, lead) = self.bytes();
        let mut reader = BitReader::from_bit_offset(&bytes, lead);
        decode_block(&mut reader, max).map_err(|e| e.0)
    }
}

/// A head up to the row of the text.
fn start(origin: u64) -> Bits {
    Bits::new().put(0x1234_5678, 32).put(0, 1).put(origin, 24)
}

/// A head up to the bytes that occur: `a` alone.
fn only_a(origin: u64) -> Bits {
    // The range of 97 is number 6, and 97 is entry 1 in it.
    start(origin).put(1 << (15 - 6), 16).put(1 << (15 - 1), 16)
}

/// A head up to the bytes that occur: `a` and `b`.
fn a_and_b(origin: u64) -> Bits {
    start(origin).put(1 << (15 - 6), 16).put(0b11 << 13, 16)
}

/// Two codes in which each of `symbols` symbols has a word of two bits.
fn plain_codes(mut bits: Bits, symbols: u32) -> Bits {
    for _ in 0..2 {
        bits = bits.put(2, 5).put(0, symbols);
    }
    bits
}

/// A block with the byte `a` in it, up to its body. The words are 00 for one, 01
/// for two, and 10 for the end.
fn body_of_a(origin: u64) -> Bits {
    plain_codes(only_a(origin).put(2, 3).put(1, 15).put(0, 1), 3)
}

/// A block with `a` and `b` in it, up to its body. The words are 00 and 01 for
/// one and two, 10 for the byte at place 1, and 11 for the end.
fn body_of_a_and_b(origin: u64) -> Bits {
    plain_codes(a_and_b(origin).put(2, 3).put(1, 15).put(0, 1), 4)
}

#[test]
fn smallest_block() {
    let bits = body_of_a(0).put(0b00, 2).put(0b10, 2);
    assert_eq!(bits.decode(100_000), Ok(b"a".to_vec()));
}

#[test]
fn block_ends_behind_its_last_word() {
    let bits = body_of_a(0).put(0b00, 2).put(0b10, 2).put(0b1111, 4);
    let (bytes, lead) = bits.bytes();
    let mut reader = BitReader::from_bit_offset(&bytes, lead);
    assert_eq!(decode_block(&mut reader, 100_000).unwrap(), b"a");
    assert_eq!(reader.position(), 8 * bytes.len() - 4);
}

#[test]
fn run_lengths_are_digits() {
    // One, two and one count 1 + 2 * 2 + 4 * 1 = 9.
    let bits = body_of_a(0).put(0b00, 2).put(0b01, 2).put(0b00, 2).put(0b10, 2);
    // The first four of the nine are a run, and the fifth is the number of
    // further ones, 97. Four more follow.
    assert_eq!(bits.decode(100_000), Ok(vec![b'a'; 4 + 97 + 4]));
}

#[test]
fn places_move_to_the_front() {
    // The column is b, a, b, a: rows of the sorted rotations of abab.
    let bits = body_of_a_and_b(0).put(0b10_10_10_10_11, 10);
    assert_eq!(bits.decode(100_000).unwrap().len(), 4);
    // The column b, a is the transform of ab, whose row is 0, and of ba, whose
    // row is 1.
    assert_eq!(
        body_of_a_and_b(0).put(0b10_10_11, 6).decode(100_000),
        Ok(b"ab".to_vec())
    );
    assert_eq!(
        body_of_a_and_b(1).put(0b10_10_11, 6).decode(100_000),
        Ok(b"ba".to_vec())
    );
}

#[test]
fn output_is_appended() {
    let (bytes, lead) = body_of_a(0).put(0b00, 2).put(0b10, 2).bytes();
    let mut output = b"text: ".to_vec();
    let mut tt = vec![7, 8, 9];
    let mut reader = BitReader::from_bit_offset(&bytes, lead);
    decode_block_with(&mut reader, 100_000, &mut tt, &mut output).unwrap();
    assert_eq!(output, b"text: a");
    // A failure adds nothing.
    let mut reader = BitReader::from_bit_offset(&bytes, lead);
    reader.skip(3);
    assert!(decode_block_with(&mut reader, 100_000, &mut tt, &mut output).is_err());
    assert_eq!(output, b"text: a");
}

#[test]
fn head_is_cut_short() {
    let crc = Bits::new().put(0, 31);
    assert_eq!(crc.decode(100_000), Err("block CRC truncated"));
    let flag = Bits::new().put(0, 32);
    assert_eq!(flag.decode(100_000), Err("randomised flag truncated"));
    let origin = Bits::new().put(0, 32).put(0, 1).put(0, 23);
    assert_eq!(origin.decode(100_000), Err("orig_ptr truncated"));
    let ranges = start(0).put(0, 15);
    assert_eq!(ranges.decode(100_000), Err("symbol range truncated"));
    let map = start(0).put(1, 16).put(0, 15);
    assert_eq!(map.decode(100_000), Err("symbol bitmap truncated"));
    let groups = only_a(0).put(0, 2);
    assert_eq!(groups.decode(100_000), Err("huffman groups truncated"));
    let count = only_a(0).put(2, 3).put(0, 14);
    assert_eq!(count.decode(100_000), Err("selectors_used truncated"));
    let selector = only_a(0).put(2, 3).put(1, 15).put(1, 1);
    assert_eq!(selector.decode(100_000), Err("selector bit truncated"));
    let length = only_a(0).put(2, 3).put(1, 15).put(0, 1).put(0, 4);
    assert_eq!(length.decode(100_000), Err("huffman start length truncated"));
    let first = only_a(0).put(2, 3).put(1, 15).put(0, 1).put(2, 5);
    assert_eq!(first.decode(100_000), Err("length adjust bit1 truncated"));
    let second = only_a(0).put(2, 3).put(1, 15).put(0, 1).put(2, 5).put(1, 1);
    assert_eq!(second.decode(100_000), Err("length adjust bit2 truncated"));
}

#[test]
fn head_is_refused() {
    let random = Bits::new().put(0, 32).put(1, 1).put(0, 24);
    assert_eq!(random.decode(100_000), Err("randomised blocks not supported"));
    let none = start(0).put(0, 16);
    assert_eq!(none.decode(100_000), Err("no symbols in block"));
    let empty = start(0).put(1, 16).put(0, 16);
    assert_eq!(empty.decode(100_000), Err("no symbols in block"));
    for groups in [0, 1, 7] {
        let bits = only_a(0).put(groups, 3).put(0, 15);
        assert_eq!(bits.decode(100_000), Err("invalid number of huffman groups"));
    }
    let selector = only_a(0).put(2, 3).put(1, 15).put(0b11, 2);
    assert_eq!(selector.decode(100_000), Err("selector tree index too large"));
    let short = only_a(0).put(2, 3).put(1, 15).put(0, 1).put(0, 5);
    assert_eq!(short.decode(100_000), Err("huffman code length out of range"));
    let long = only_a(0).put(2, 3).put(1, 15).put(0, 1).put(21, 5);
    assert_eq!(long.decode(100_000), Err("huffman code length out of range"));
    let longer = only_a(0).put(2, 3).put(1, 15).put(0, 1).put(20, 5).put(0b10, 2);
    assert_eq!(longer.decode(100_000), Err("huffman code length out of range"));
    // Three words of one bit.
    let crowded = only_a(0).put(2, 3).put(1, 15).put(0, 1).put(1, 5).put(0, 3);
    assert_eq!(crowded.decode(100_000), Err("invalid huffman tree"));
}

#[test]
fn body_is_refused() {
    let none = plain_codes(only_a(0).put(2, 3).put(0, 15), 3);
    assert_eq!(none.decode(100_000), Err("no selectors"));
    let mut many = body_of_a_and_b(0);
    for _ in 0..50 {
        many = many.put(0b10, 2);
    }
    assert_eq!(many.put(0b11, 2).decode(100_000), Err("ran out of selectors"));
    let cut = body_of_a(0).put(0b00, 2);
    assert_eq!(cut.decode(100_000), Err("huffman bitstream truncated"));
    let mut run = body_of_a(0);
    for _ in 0..19 {
        run = run.put(0b01, 2);
    }
    assert_eq!(run.put(0b10, 2).decode(100_000), Err("repeat count too large"));
    let long = body_of_a(0).put(0b01, 2).put(0b10, 2);
    assert_eq!(long.decode(1), Err("data exceeds block size"));
    assert_eq!(long.decode(2), Ok(b"aa".to_vec()));
    let longer = body_of_a_and_b(0).put(0b10_10_11, 6);
    assert_eq!(longer.decode(1), Err("data exceeds block size"));
    let row = body_of_a(1).put(0b00, 2).put(0b10, 2);
    assert_eq!(row.decode(100_000), Err("orig_ptr out of bounds"));
}

#[test]
fn lengths_go_up_and_down() {
    // Words of 1, 2 and 2 bits: 0 for one, 10 for two, 11 for the end.
    let mut bits = only_a(0).put(2, 3).put(1, 15).put(0, 1);
    // The first code goes from 2 down to 1 and up again to 2.
    bits = bits.put(2, 5).put(0b110, 3).put(0b100, 3).put(0, 1);
    bits = bits.put(2, 5).put(0, 3);
    assert_eq!(bits.put(0b0_11, 3).decode(100_000), Ok(b"a".to_vec()));
}

#[test]
fn error_shows_its_reason() {
    let error = BlockError("no selectors");
    assert_eq!(error.message(), "bzip2 block error: no selectors");
    assert_eq!(format!("{:?}", error), "BlockError(\"no selectors\")");
}

/// The text whose sorted rotations have the given last column, by sorting, with
/// its runs made longer.
fn text_of(column: &[u8], row: usize) -> Vec<u8> {
    let mut rows: Vec<Vec<u8>> = vec![Vec::new(); column.len()];
    for _ in 0..column.len() {
        for (i, r) in rows.iter_mut().enumerate() {
            r.insert(0, column[i]);
        }
        rows.sort();
    }
    let mut text = Vec::new();
    let mut run = 0;
    for &b in &rows[row] {
        if run == 4 {
            let last = *text.last().unwrap();
            text.extend(vec![last; b as usize]);
            run = 0;
        } else {
            run = if run > 0 && text.last() == Some(&b) { run + 1 } else { 1 };
            text.push(b);
        }
    }
    text
}

#[test]
fn head_is_read_back() {
    // Three codes, and two groups that choose the last and then the first: places
    // 2 and 1 in a list from which a choice moves to the front.
    let mut bits = a_and_b(7).put(3, 3).put(2, 15).put(0b110, 3).put(0b10, 2);
    // Lengths 2, 2, 2, 2 from 2, the same from 4, and 3, 3, 1, 2 from 3.
    bits = bits.put(2, 5).put(0, 4);
    bits = bits.put(4, 5).put(0b11_11_0, 5).put(0, 3);
    bits = bits.put(3, 5).put(0, 2).put(0b11_11_0, 5).put(0b10_0, 3);
    // Fifty times the byte at place 1, in a word of one bit, and the end in the
    // other code.
    bits = bits.put(0, 50).put(0b11, 2);
    let column: Vec<u8> = (0..50).map(|i| if i % 2 == 0 { b'b' } else { b'a' }).collect();
    assert_eq!(bits.decode(100_000), Ok(text_of(&column, 7)));
}

#[test]
fn block_is_read_back() {
    // The column of abracadabra with words of different lengths.
    let column = b"rdarcaaaabb";
    let bytes = [b'a', b'b', b'c', b'd', b'r'];
    let mut bits = start(2).put((1 << 9) | (1 << 8), 16);
    bits = bits.put(0b0111_1000_0000_0000, 16).put(0b0010_0000_0000_0000, 16);
    bits = bits.put(2, 3).put(1, 15).put(0, 1);
    // Seven symbols with words of 2, 3, 3, 3, 3, 3 and 3 bits.
    for _ in 0..2 {
        bits = bits.put(2, 5).put(0, 1).put(0b10_0, 3).put(0, 5);
    }
    let words = [(0b00, 2), (0b010, 3), (0b011, 3), (0b100, 3), (0b101, 3), (0b110, 3), (0b111, 3)];
    let mut order = bytes.to_vec();
    let mut symbols = Vec::new();
    let mut run = 0u32;
    let digits = |run: u32, symbols: &mut Vec<usize>| {
        let mut n = run;
        while n > 0 {
            symbols.push(((n - 1) % 2) as usize);
            n = (n - 1) / 2;
        }
    };
    for &b in column {
        let place = order.iter().position(|&x| x == b).unwrap();
        if place == 0 {
            run += 1;
        } else {
            digits(run, &mut symbols);
            run = 0;
            symbols.push(place + 1);
            order.remove(place);
            order.insert(0, b);
        }
    }
    digits(run, &mut symbols);
    symbols.push(6);
    for s in symbols {
        bits = bits.put(words[s].0, words[s].1);
    }
    assert_eq!(bits.decode(100_000), Ok(b"abracadabra".to_vec()));
}
