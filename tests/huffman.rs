use mu_rust_helpers::bit_reader::BitReader;
use mu_rust_helpers::huffman::{build_huffman_table, decode_symbol, NODE_CAP};
use mu_rust_helpers::DecompressError;

/// Builds the tables for `lens` with an 8-bit fixed table.
fn build(lens: &[u8]) -> (Result<(), DecompressError>, Vec<u16>, Vec<u16>, Vec<u16>, Vec<u32>) {
    let mut table = vec![0u16; 256];
    let mut left = vec![0u16; NODE_CAP];
    let mut right = vec![0u16; NODE_CAP];
    let mut codes = vec![0u32; lens.len()];
    let r = build_huffman_table(lens.len(), lens, 8, &mut table, &mut left, &mut right, &mut codes);
    (r, table, left, right, codes)
}

/// Packs bit strings, most significant bit first, and pads with zero bytes.
fn pack(bits: &str) -> Vec<u8> {
    let mut out = Vec::new();
    let mut cur = 0u8;
    let mut n = 0;
    for c in bits.chars().filter(|c| *c == '0' || *c == '1') {
        cur = (cur << 1) | if c == '1' { 1 } else { 0 };
        n += 1;
        if n == 8 {
            out.push(cur);
            cur = 0;
            n = 0;
        }
    }
    if n > 0 {
        out.push(cur << (8 - n));
    }
    out.extend_from_slice(&[0, 0, 0]);
    out
}

fn decode_all(lens: &[u8], bits: &str, count: usize) -> Vec<usize> {
    let (r, table, left, right, codes) = build(lens);
    assert_eq!(r, Ok(()));
    let data = pack(bits);
    let mut reader = BitReader::new(&data);
    let mut out = Vec::new();
    for _ in 0..count {
        out.push(decode_symbol(&mut reader, &table, &left, &right, lens, &codes, lens.len(), 8, None).unwrap());
    }
    out
}

#[test]
fn complete_lengths_decode_every_codeword() {
    // canonical codes of [1, 2, 3, 3]: 0, 10, 110, 111
    assert_eq!(decode_all(&[1, 2, 3, 3], "0 10 110 111 111 0 10", 7), vec![0, 1, 2, 3, 3, 0, 1]);
}

#[test]
fn codes_are_assigned_by_length_then_symbol() {
    // [3, 3, 2, 1]: symbol 3 gets 0, symbol 2 gets 10, symbols 0 and 1 get 110 and 111
    let (r, _, _, _, codes) = build(&[3, 3, 2, 1]);
    assert_eq!(r, Ok(()));
    assert_eq!(codes, vec![0xc000, 0xe000, 0x8000, 0x0000]);
    assert_eq!(decode_all(&[3, 3, 2, 1], "110 111 10 0", 4), vec![0, 1, 2, 3]);
}

#[test]
fn two_one_bit_codes_are_complete() {
    assert_eq!(decode_all(&[1, 1], "1 0 0 1", 4), vec![1, 0, 0, 1]);
}

#[test]
fn codes_longer_than_the_fixed_table_decode() {
    // one code of each length 1..=15 and two of length 16: 111...10 is
    // the length-15 code, 1111111111111110 and 1111111111111111 the last two
    let mut lens: Vec<u8> = (1..=15).collect();
    lens.push(16);
    lens.push(16);
    let mut bits = String::new();
    let expected: Vec<usize> = vec![16, 15, 14, 9, 0, 8];
    for &s in &expected {
        let l = lens[s] as usize;
        let ones = if s >= 15 { 15 } else { s };
        let mut code = "1".repeat(ones);
        code.push_str(if s == 16 { "1" } else { "0" });
        assert_eq!(code.len(), l);
        bits.push_str(&code);
        bits.push(' ');
    }
    assert_eq!(decode_all(&lens, &bits, expected.len()), expected);
}

#[test]
fn over_subscribed_lengths_are_rejected() {
    assert_eq!(build(&[1, 1, 1]).0, Err(DecompressError::MalformedSrcData));
    assert_eq!(build(&[1, 1, 2, 2]).0, Err(DecompressError::MalformedSrcData));
}

#[test]
fn incomplete_lengths_are_rejected() {
    assert_eq!(build(&[1, 2]).0, Err(DecompressError::MalformedSrcData));
    assert_eq!(build(&[0, 0, 0]).0, Err(DecompressError::MalformedSrcData));
}

#[test]
fn length_above_sixteen_is_rejected() {
    assert_eq!(build(&[17, 1, 1]).0, Err(DecompressError::MalformedSrcData));
}

#[test]
fn decoding_past_the_end_fails() {
    let (r, table, left, right, codes) = build(&[1, 1]);
    assert_eq!(r, Ok(()));
    // fewer than the 8 bits that the fixed table is indexed by
    let data = [0u8; 0];
    let mut reader = BitReader::new(&data);
    assert_eq!(decode_symbol(&mut reader, &table, &left, &right, &[1, 1], &codes, 2, 8, None), None);
}

#[test]
fn single_symbol_table_consumes_no_bits() {
    let table = vec![0u16; 256];
    let left = vec![0u16; NODE_CAP];
    let right = vec![0u16; NODE_CAP];
    let data = [0xffu8];
    let mut reader = BitReader::new(&data);
    for _ in 0..3 {
        assert_eq!(decode_symbol(&mut reader, &table, &left, &right, &[0, 0, 0], &[0, 0, 0], 3, 8, Some(2)), Some(2));
    }
    assert_eq!(reader.peek_bits(8), Some(0xff));
}

#[test]
fn bit_reader_reads_most_significant_bit_first() {
    let data = [0b1011_0010u8, 0x0f];
    let mut reader = BitReader::new(&data);
    assert_eq!(reader.peek_bits(3), Some(0b101));
    assert_eq!(reader.pop_bits(4), Some(0b1011));
    assert_eq!(reader.pop_bits(8), Some(0b0010_0000));
    assert_eq!(reader.pop_bits(4), Some(0xf));
    assert_eq!(reader.pop_bits(1), None);
    assert_eq!(reader.pop_bits(0), Some(0));
}

#[test]
fn trie_nodes_are_numbered_from_the_alphabet_size() {
    // lengths 1..=9 and 9: the two 9-bit codes 111111110 and 111111111
    // share the 8-bit prefix 11111111, which gets the first node, id 10
    let lens = [1u8, 2, 3, 4, 5, 6, 7, 8, 9, 9];
    let (r, table, left, right, _) = build(&lens);
    assert_eq!(r, Ok(()));
    assert!(table[0..128].iter().all(|&e| e == 0));
    assert_eq!(table[254], 7);
    assert_eq!(table[255], 10);
    assert_eq!(left[10], 8);
    assert_eq!(right[10], 9);
}

#[test]
fn rejected_lengths_leave_the_tables_alone() {
    let mut table = vec![7u16; 256];
    let mut left = vec![5u16; NODE_CAP];
    let mut right = vec![6u16; NODE_CAP];
    let mut codes = vec![0u32; 2];
    let r = build_huffman_table(2, &[1, 2], 8, &mut table, &mut left, &mut right, &mut codes);
    assert_eq!(r, Err(DecompressError::MalformedSrcData));
    assert!(table.iter().all(|&e| e == 7));
    assert!(left.iter().all(|&e| e == 5) && right.iter().all(|&e| e == 6));
}
