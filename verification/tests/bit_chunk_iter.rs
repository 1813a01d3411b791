use renderer::bit_chunk_iter::{align, read_word};

#[test]
fn align_simple() {
    let arr: [u8; 12] = [0xFF; 12];

    let out = align::<96>(&arr);
    let expected = vec![0xFFFFFFFFFFFFFFFF, 0xFFFFFFFF00000000];
    assert_eq!(out, expected);
}

#[test]
fn align_two_lines() {
    let arr: [u8; 23] = [
        0xFF, 0xFF, 0xFF, 0xFF, 0xFF, 0xFF, 0xFF, 0xFF, 0xFF, 0xFF, 0xFF, 0xFF, 0xFF, 0xFF,
        0xFF, 0xFF, 0xFF, 0xFF, 0xFF, 0xFF, 0xFF, 0xFF, 0xF0,
    ];

    let out = align::<90>(&arr);
    let expected = vec![
        0xFFFFFFFFFFFFFFFF,
        0xFFFFFFC000000000,
        0xFFFFFFFFFFFFFFFF,
        0xFFFFFFC000000000,
    ];
    assert_eq!(out, expected);
}

#[test]
fn align_64() {
    let arr: [u8; 16] = [0xFF; 16];

    let out = align::<64>(&arr);
    let expected = vec![0xFFFFFFFFFFFFFFFF, 0xFFFFFFFFFFFFFFFF];
    assert_eq!(out, expected);
}

#[test]
fn align_random() {
    let arr: [u8; 8] = [0xA1, 0xB2, 0xC3, 0xD4, 0xE5, 0xF6, 0x78, 0x90];

    let out = align::<32>(&arr);
    let expected = vec![0xA1B2C3D400000000, 0xE5F6789000000000];
    assert_eq!(out, expected);
}

/// Bit `i` of a buffer, most significant bit of each byte first.
fn bit(data: &[u8], i: usize) -> bool {
    (data[i / 8] >> (7 - i % 8)) & 1 == 1
}

/// The rows of `w` bits of a buffer, built bit by bit.
fn rows_by_bits(data: &[u8], w: usize) -> Vec<u64> {
    let words = (w + 63) / 64;
    let lines = data.len() * 8 / w;
    let mut out = vec![0u64; lines * words];
    for r in 0..lines {
        for c in 0..w {
            if bit(data, r * w + c) {
                out[r * words + c / 64] |= 1u64 << (63 - c % 64);
            }
        }
    }
    out
}

fn sample(n: usize) -> Vec<u8> {
    (0..n).map(|i| (i * 37 + 11) as u8 ^ (i / 3) as u8).collect()
}

#[test]
fn align_rows_that_start_inside_a_byte() {
    let data = [0b1010_1100, 0b0111_0001, 0b1111_0000];

    // rows of 5 bits: 10101 10001 11000 11111 and four bits left over
    let out = align::<5>(&data);
    assert_eq!(
        out,
        vec![
            0b10101u64 << 59,
            0b10001u64 << 59,
            0b11000u64 << 59,
            0b11111u64 << 59,
        ]
    );
}

#[test]
fn align_wide_rows_carry_the_offset() {
    let data = sample(64);
    assert_eq!(align::<90>(&data), rows_by_bits(&data, 90));
    assert_eq!(align::<90>(&data).len(), 5 * 2);
}

#[test]
fn align_matches_the_bits_for_many_widths() {
    let data = sample(200);
    assert_eq!(align::<1>(&data), rows_by_bits(&data, 1));
    assert_eq!(align::<3>(&data), rows_by_bits(&data, 3));
    assert_eq!(align::<7>(&data), rows_by_bits(&data, 7));
    assert_eq!(align::<8>(&data), rows_by_bits(&data, 8));
    assert_eq!(align::<13>(&data), rows_by_bits(&data, 13));
    assert_eq!(align::<63>(&data), rows_by_bits(&data, 63));
    assert_eq!(align::<65>(&data), rows_by_bits(&data, 65));
    assert_eq!(align::<71>(&data), rows_by_bits(&data, 71));
    assert_eq!(align::<127>(&data), rows_by_bits(&data, 127));
    assert_eq!(align::<129>(&data), rows_by_bits(&data, 129));
    assert_eq!(align::<480>(&data), rows_by_bits(&data, 480));
    assert_eq!(align::<1601>(&data), rows_by_bits(&data, 1601));
}

#[test]
fn align_drops_what_is_less_than_a_row() {
    let data = [0xFFu8; 5];

    assert_eq!(align::<41>(&data), Vec::<u64>::new());
    assert_eq!(align::<40>(&data), vec![0xFFFFFFFFFF000000]);
    assert_eq!(align::<39>(&data), vec![0xFFFFFFFFFE000000]);
    assert_eq!(align::<16>(&data), vec![0xFFFFu64 << 48, 0xFFFFu64 << 48]);
    assert_eq!(align::<8>(&[]), Vec::<u64>::new());
}

#[test]
fn align_in_whole_words_copies_the_buffer() {
    let data = sample(35);

    let out = align::<128>(&data);
    let expected: Vec<u64> = (0..4)
        .map(|i| {
            let mut bytes = [0u8; 8];
            bytes.copy_from_slice(&data[8 * i..8 * i + 8]);
            u64::from_be_bytes(bytes)
        })
        .collect();
    assert_eq!(out, expected);
}

#[test]
fn align_of_ones_has_ones_in_the_row_and_zeros_after() {
    let data = [0xFFu8; 40];

    let out = align::<70>(&data);
    assert_eq!(out.len(), 4 * 2);
    for row in out.chunks(2) {
        assert_eq!(row[0], u64::MAX);
        assert_eq!(row[1], 0b111111u64 << 58);
    }
}

#[test]
fn read_word_reads_across_bytes() {
    let data = [0x12, 0x34, 0x56, 0x78, 0x9A, 0xBC, 0xDE, 0xF0, 0x0F];

    assert_eq!(read_word(&data, 0, 0), 0x123456789ABCDEF0);
    assert_eq!(read_word(&data, 0, 4), 0x23456789ABCDEF00);
    assert_eq!(read_word(&data, 1, 0), 0x3456789ABCDEF00F);
    assert_eq!(read_word(&data, 0, 7), 0x1A2B3C4D5E6F7807);
}

#[test]
fn read_word_pads_a_short_tail_with_zeros() {
    let data = [0xAB, 0xCD];

    assert_eq!(read_word(&data, 0, 0), 0xABCD000000000000);
    assert_eq!(read_word(&data, 1, 4), 0xD000000000000000);
    assert_eq!(read_word(&data, 2, 0), 0);
    assert_eq!(read_word(&data, 9, 3), 0);
}
