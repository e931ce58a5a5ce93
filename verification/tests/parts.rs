use linesplit::lines::NEWLINE;
use linesplit::mask::{compress, lowest_bit_or_zero, newline_mask16, newline_mask32, newline_mask64};
use linesplit::prep::{
    prep_all_lines, prep_single_line, prep_vec_range, ALL_LINES_CAP, FILLER, RANGE_CAP,
};
use linesplit::text::cut;

#[test]
fn newline_is_the_line_feed() {
    assert_eq!(NEWLINE, b'\n');
    assert_eq!(FILLER, b'a');
}

#[test]
fn mask_of_16_bytes() {
    let bytes = b"xxa\nbcdefNhijkl\nmo\nabcdefghijklmnopqrstuvwxyz";
    // newlines at 3, 15 and 18
    assert_eq!(newline_mask16(bytes, 0), 0b1000_0000_0000_1000);
    assert_eq!(newline_mask16(bytes, 2), 0b0010_0000_0000_0010);
    assert_eq!(newline_mask16(bytes, 3), 0b1001_0000_0000_0001);
    assert_eq!(newline_mask16(bytes, 19), 0);
    assert_eq!(newline_mask16(&[b'\n'; 16], 0), 0xFFFF);
}

#[test]
fn mask_of_32_bytes() {
    let mut bytes = [b'a'; 40];
    bytes[4] = b'\n';
    bytes[35] = b'\n';
    assert_eq!(newline_mask32(&bytes, 0), 1 << 4);
    assert_eq!(newline_mask32(&bytes, 4), 1 | (1 << 31));
    assert_eq!(newline_mask32(&bytes, 8), 1 << 27);
    assert_eq!(newline_mask32(&[b'\n'; 32], 0), u32::MAX);
}

#[test]
fn mask_of_64_bytes() {
    let mut bytes = [b'a'; 70];
    bytes[0] = b'\n';
    bytes[63] = b'\n';
    bytes[64] = b'\n';
    assert_eq!(newline_mask64(&bytes, 0), 1 | (1 << 63));
    assert_eq!(newline_mask64(&bytes, 1), (1 << 62) | (1 << 63));
    assert_eq!(newline_mask64(&[b'\n'; 64], 0), u64::MAX);
    assert_eq!(newline_mask64(&[b'\r'; 64], 0), 0);
}

#[test]
fn lowest_bit_of_a_mask() {
    assert_eq!(lowest_bit_or_zero(0), 0);
    assert_eq!(lowest_bit_or_zero(1), 0);
    assert_eq!(lowest_bit_or_zero(8), 3);
    assert_eq!(lowest_bit_or_zero(0b1010_0000), 5);
    assert_eq!(lowest_bit_or_zero(1 << 63), 63);
}

#[test]
fn compress_packs_the_selected_lanes() {
    let mut lanes = [0u8; 64];
    for (place, lane) in lanes.iter_mut().enumerate() {
        *lane = 100 + place as u8;
    }
    let packed = compress(0b1010 | (1 << 63), &lanes);
    let mut expected = [0u8; 64];
    expected[0] = 101;
    expected[1] = 103;
    expected[2] = 163;
    assert_eq!(packed, expected);
    assert_eq!(compress(0, &lanes), [0u8; 64]);
    assert_eq!(compress(u64::MAX, &lanes), lanes);
}

#[test]
fn cut_takes_bytes_between_line_edges() {
    let input = "h\u{e9}llo\nw\u{f6}rld\n";
    assert_eq!(cut(input, 0, 6), "h\u{e9}llo");
    assert_eq!(cut(input, 7, 13), "w\u{f6}rld");
    assert_eq!(cut(input, 7, 14), "w\u{f6}rld\n");
    assert_eq!(cut(input, 14, 14), "");
    assert_eq!(cut(input, 0, 0), "");
    assert_eq!(cut(input, 0, 14), input);
}

#[test]
fn single_line_stage() {
    let mut buffer = vec![b'x'; 1000];
    buffer[10] = b'\n';
    let active = prep_single_line(&mut buffer);
    assert_eq!(active, 1000);
    assert_eq!(buffer, vec![b'a'; 1000]);
}

#[test]
fn all_lines_stage() {
    let mut buffer = vec![b'x'; 1000];
    let active = prep_all_lines(&mut buffer);
    assert_eq!(active, 1000);
    assert_eq!(buffer, vec![b'\n'; 1000]);
    assert_eq!(ALL_LINES_CAP, 64 * 1024 * 1024);
    let mut empty: Vec<u8> = Vec::new();
    assert_eq!(prep_all_lines(&mut empty), 0);
}

#[test]
fn range_stage_on_a_small_buffer() {
    // 100 bytes, lengths 1..=20: 2 * 100 / 21 = 9 rounds, the cursor goes
    // 1, 3, 6, 10, 15, 21, 28, 36, 45
    let mut buffer = vec![b'x'; 100];
    let active = prep_vec_range::<1, 20>(&mut buffer);
    assert_eq!(active, 100);
    let mut expected = vec![b'a'; 100];
    for at in [1usize, 3, 6, 10, 15, 21, 28, 36, 45] {
        expected[at] = b'\n';
    }
    assert_eq!(buffer, expected);
}

#[test]
fn range_stage_with_one_length() {
    // 101 bytes, length 5 only: 2 * 101 / 10 = 20 rounds, the cursor goes
    // 5, 10, and so on to 100
    let mut buffer = vec![b'x'; 101];
    let active = prep_vec_range::<5, 5>(&mut buffer);
    assert_eq!(active, 101);
    for (at, byte) in buffer.iter().enumerate() {
        let expected = if at > 0 && at % 5 == 0 { b'\n' } else { b'a' };
        assert_eq!(*byte, expected, "byte {at}");
    }
}

#[test]
fn range_stage_wraps_round_the_interval() {
    // 60 bytes, lengths 0..=2: 2 * 60 / 2 = 60 rounds of 0, 1, 2, 0, 1, 2:
    // the cursor goes 0, 1, 3, 3, 4, 6, 6, 7, 9 and so on to 57, 58, 60
    let mut buffer = vec![b'x'; 61];
    let active = prep_vec_range::<0, 2>(&mut buffer);
    assert_eq!(active, 61);
    for (at, byte) in buffer.iter().enumerate() {
        let expected = if at % 3 == 2 { b'a' } else { b'\n' };
        assert_eq!(*byte, expected, "byte {at}");
    }
}

#[test]
fn range_stage_without_a_round() {
    let mut buffer = vec![b'x'; 3];
    let active = prep_vec_range::<40, 120>(&mut buffer);
    assert_eq!(active, 3);
    assert_eq!(buffer, vec![b'a'; 3]);
    assert_eq!(RANGE_CAP, 256 * 1024 * 1024);
}
