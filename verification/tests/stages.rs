use lbzip2::bitreader::BitReader;
use lbzip2::bwt::{inverse_bwt, next_byte};
use lbzip2::huffman::HuffmanTree;
use lbzip2::mtf::MtfDecoder;
use lbzip2::rle::RunState;

#[test]
fn simple_inverse() {
    // The last column of the sorted rotations of a text of six bytes, whose own
    // rotation is row 3.
    let mut tt: Vec<u32> = vec![1, 0, 2, 1, 0, 0];
    let mut c = [0u32; 256];
    for &b in &tt {
        c[b as usize] += 1;
    }
    let mut t_pos = inverse_bwt(&mut tt, 3, c);

    let mut output = Vec::new();
    for _ in 0..6 {
        output.push(next_byte(&tt, &mut t_pos));
    }
    assert_eq!(output.len(), 6);
}

#[test]
fn simple_tree() {
    // Symbol 0: length 1 (code: 0)
    // Symbol 1: length 2 (code: 10)
    // Symbol 2: length 2 (code: 11)
    let tree = HuffmanTree::from_lengths(&[1, 2, 2]).unwrap();
    // Bits: 0 10 11 0
    let data = [0b0_10_11_0_00];
    let mut r = BitReader::new(&data);
    assert_eq!(tree.decode(&mut r), Some(0));
    assert_eq!(tree.decode(&mut r), Some(1));
    assert_eq!(tree.decode(&mut r), Some(2));
    assert_eq!(tree.decode(&mut r), Some(0));
}

#[test]
fn fast_table_coverage() {
    // 4 symbols: lengths [2, 2, 3, 3]
    // Canonical: 00, 01, 100, 101
    let tree = HuffmanTree::from_lengths(&[2, 2, 3, 3]).unwrap();
    // Bits: 00_01_100_101_0000 (padded)
    let data = [0b00_01_100_1, 0b01_000000];
    let mut r = BitReader::new(&data);
    assert_eq!(tree.decode(&mut r), Some(0));
    assert_eq!(tree.decode(&mut r), Some(1));
    assert_eq!(tree.decode(&mut r), Some(2));
    assert_eq!(tree.decode(&mut r), Some(3));
}

#[test]
fn basic_mtf() {
    let mut mtf = MtfDecoder::new();
    assert_eq!(mtf.decode(5), 5);
    assert_eq!(mtf.first(), 5);
    // After decoding 5: symbols = [5, 0, 1, 2, 3, 4, 6, 7, ...]
    assert_eq!(mtf.decode(0), 5); // 5 is at front
    assert_eq!(mtf.decode(1), 0); // 0 is at position 1
}

#[test]
fn bits_are_read_in_order() {
    let data = [0b1010_0110, 0b1111_0000, 0x12, 0x34, 0x56, 0x78, 0x9a];
    let mut r = BitReader::new(&data);
    assert_eq!(r.read_bit(), Some(true));
    assert_eq!(r.read_bit(), Some(false));
    assert_eq!(r.read_u8(6), Some(0b10_0110));
    assert_eq!(r.position(), 8);
    assert_eq!(r.peek(6), Some(0b1111_00));
    assert_eq!(r.position(), 8);
    r.consume(4);
    assert_eq!(r.read_u16(12), Some(0x012));
    assert_eq!(r.read_u32(0), Some(0));
    assert_eq!(r.read_u32(32), Some(0x3456_789a));
    assert_eq!(r.position(), 56);
    assert_eq!(r.read_bit(), None);
    assert_eq!(r.read_u64(1), None);
}

#[test]
fn failed_read_leaves_the_position() {
    let data = [0xff, 0x00];
    let mut r = BitReader::from_bit_offset(&data, 5);
    assert_eq!(r.read_u64(12), None);
    assert_eq!(r.peek(12), None);
    assert_eq!(r.position(), 5);
    assert_eq!(r.read_u64(11), Some(0b111_0000_0000));
    let mut r = BitReader::from_bit_offset(&data, 100);
    assert_eq!(r.position(), 16);
    r.skip(3);
    assert_eq!(r.position(), 16);
    let mut r = BitReader::new(&data);
    r.skip(7);
    assert_eq!(r.read_u8(2), Some(0b10));
}

#[test]
fn code_is_refused() {
    assert_eq!(HuffmanTree::from_lengths(&[]).err(), Some("no symbols"));
    assert_eq!(HuffmanTree::from_lengths(&[0, 0]).err(), Some("no symbols"));
    assert_eq!(HuffmanTree::from_lengths(&[1, 1, 1]).err(), Some("oversubscribed code"));
}

/// The words of a code, as bits.
fn words(lengths: &[u8]) -> Vec<Vec<bool>> {
    let mut words = vec![Vec::new(); lengths.len()];
    let mut code = 0u32;
    for len in 1..=32u8 {
        code <<= 1;
        for (sym, &l) in lengths.iter().enumerate() {
            if l == len {
                words[sym] = (0..len).rev().map(|i| (code >> i) & 1 == 1).collect();
                code += 1;
            }
        }
    }
    words
}

fn packed(bits: &[bool]) -> Vec<u8> {
    let mut bytes = vec![0u8; (bits.len() + 7) / 8];
    for (i, &b) in bits.iter().enumerate() {
        bytes[i / 8] |= (b as u8) << (7 - i % 8);
    }
    bytes
}

#[test]
fn decoding_undoes_coding() {
    // Words of every length from 1 to 15, on both sides of the table's width.
    let lengths = [3, 1, 2, 4, 5, 6, 7, 8, 9, 10, 11, 12, 13, 14, 15, 15];
    let tree = HuffmanTree::from_lengths(&lengths).unwrap();
    let words = words(&lengths);
    let symbols: Vec<usize> = (0..200).map(|i| (i * i + i / 3) % lengths.len()).collect();
    let bits: Vec<bool> = symbols.iter().flat_map(|&s| words[s].clone()).collect();
    let data = packed(&bits);
    let mut r = BitReader::new(&data);
    for &s in &symbols {
        assert_eq!(tree.decode(&mut r), Some(s as u16));
    }
    assert_eq!(r.position(), bits.len());
}

#[test]
fn bits_run_out() {
    let tree = HuffmanTree::from_lengths(&[1, 2, 2]).unwrap();
    let data = [0b1010_1011];
    let mut r = BitReader::from_bit_offset(&data, 7);
    assert_eq!(tree.decode(&mut r), None);
    assert_eq!(r.position(), 8);
}

#[test]
fn unassigned_word_is_passed_over() {
    // Only the word 00: after any other first bit the search begins anew.
    let tree = HuffmanTree::from_lengths(&[2]).unwrap();
    let data = [0b1_01_00_000];
    let mut r = BitReader::new(&data);
    assert_eq!(tree.decode(&mut r), Some(0));
    assert_eq!(r.position(), 5);
}

#[test]
fn order_can_be_given() {
    let mut symbols = [0u8; 256];
    symbols[0] = 7;
    symbols[1] = 3;
    symbols[2] = 9;
    let mut mtf = MtfDecoder::with_symbols(symbols);
    assert_eq!(mtf.decode(2), 9);
    assert_eq!(mtf.decode(2), 3);
    assert_eq!(mtf.decode(2), 7);
    assert_eq!(mtf.first(), 7);
}

#[test]
fn mtf_undoes_transform() {
    let text = b"the theremin then and there";
    let mut order: Vec<u8> = (0..=255).collect();
    let mut mtf = MtfDecoder::new();
    for &b in text {
        let place = order.iter().position(|&x| x == b).unwrap();
        order.remove(place);
        order.insert(0, b);
        assert_eq!(mtf.decode(place as u8), b);
    }
}

fn untransformed(column: &[u8], row: usize) -> Vec<u8> {
    let mut tt: Vec<u32> = column.iter().map(|&b| b as u32).collect();
    let mut c = [0u32; 256];
    for &b in column {
        c[b as usize] += 1;
    }
    let mut t_pos = inverse_bwt(&mut tt, row, c);
    (0..column.len()).map(|_| next_byte(&tt, &mut t_pos)).collect()
}

#[test]
fn transform_is_undone() {
    assert_eq!(untransformed(b"nnbaaa", 3), b"banana");
    for text in [&b"a"[..], b"abab", b"mississippi", b"no lemon, no melon"] {
        let n = text.len();
        let rotation = |k: usize| -> Vec<u8> { (0..n).map(|i| text[(k + i) % n]).collect() };
        let mut rows: Vec<usize> = (0..n).collect();
        rows.sort_by_key(|&k| rotation(k));
        let column: Vec<u8> = rows.iter().map(|&k| rotation(k)[n - 1]).collect();
        let row = rows.iter().position(|&k| k == 0).unwrap();
        assert_eq!(untransformed(&column, row), text);
    }
}

fn lengthened(short: &[u8]) -> Vec<u8> {
    let mut state = RunState::new();
    let mut text = Vec::new();
    for &b in short {
        state.read(b, &mut text);
    }
    text
}

#[test]
fn runs_are_lengthened() {
    assert_eq!(lengthened(b"aaab"), b"aaab");
    assert_eq!(lengthened(b"aaaa\x00b"), b"aaaab");
    assert_eq!(lengthened(b"aaaa\x03b"), b"aaaaaaab");
    // The count is no byte of the text, and the byte behind it begins anew.
    assert_eq!(lengthened(b"aaaa\x01aaaa\x01"), b"aaaaaaaaaa");
    assert_eq!(lengthened(b"aaaa"), b"aaaa");
    assert_eq!(lengthened(&[5, 5, 5, 5, 255]), vec![5; 259]);
}

#[test]
fn unrun_undoes_shortening() {
    let runs = [(b'x', 1), (b'y', 3), (b'x', 4), (b'x', 259), (b'x', 2), (b'z', 200)];
    let mut text = Vec::new();
    let mut short = Vec::new();
    for (b, n) in runs {
        text.extend(vec![b; n]);
        short.extend(vec![b; n.min(4)]);
        if n >= 4 {
            short.push((n - 4) as u8);
        }
    }
    assert_eq!(lengthened(&short), text);
}

#[test]
fn table_agrees_with_tree() {
    // With the last bits in front of the end there is no look into the table.
    let lengths = [1, 2, 3, 13, 13];
    let tree = HuffmanTree::from_lengths(&lengths).unwrap();
    for value in 0..=255u8 {
        let short = [value];
        let long = [value, 0, 0];
        let mut by_tree = BitReader::new(&short);
        let mut by_table = BitReader::new(&long);
        let mut slow = BitReader::new(&long);
        let mut fast = BitReader::new(&long);
        assert_eq!(tree.decode_slow(&mut slow), tree.decode(&mut fast));
        assert_eq!(slow.position(), fast.position());
        if let Some(symbol) = tree.decode(&mut by_tree) {
            assert_eq!(tree.decode(&mut by_table), Some(symbol));
            assert_eq!(by_table.position(), by_tree.position());
            assert!(lengths[symbol as usize] > 0);
        }
    }
}
