use linesplit::compressed::x86_64::{
    avx2_unroll, avx2_unrollx2, avx2_unrollx2_ya, avx512_compress, can_run_avx2,
    can_run_avx512_compress, sse2, sse2_unroll, sse2_unrollx4, sse2_unrollx4_ya,
};
use linesplit::compressed::{iter, tail, LineIndex};
use linesplit::cpu::CpuFeatures;

fn empty_index() -> LineIndex {
    LineIndex {
        lows: Vec::new(),
        high_starts: Vec::new(),
    }
}

/// The index of `input` found without the library.
fn index_by_hand(input: &str) -> LineIndex {
    let mut index = empty_index();
    for (offset, byte) in input.bytes().enumerate() {
        if offset % 65536 == 0 {
            index.high_starts.push(index.lows.len());
        }
        if byte == b'\n' {
            index.lows.push((offset % 65536) as u16);
        }
    }
    index
}

fn mixed_buffer(len: usize, per_mille: u64, seed: u64) -> String {
    let mut state = seed;
    let mut text = String::with_capacity(len);
    for _ in 0..len {
        state = state
            .wrapping_mul(6364136223846793005)
            .wrapping_add(1442695040888963407);
        if (state >> 33) % 1000 < per_mille {
            text.push('\n');
        } else {
            text.push('a');
        }
    }
    text
}

fn run_all(input: &str) -> Vec<(&'static str, LineIndex)> {
    let mut results = Vec::new();
    let mut out = empty_index();
    iter(input, &mut out);
    results.push(("iter", out));
    let mut out = empty_index();
    sse2(input, &mut out);
    results.push(("sse2", out));
    let mut out = empty_index();
    sse2_unroll(input, &mut out);
    results.push(("sse2_unroll", out));
    let mut out = empty_index();
    sse2_unrollx4(input, &mut out);
    results.push(("sse2_unrollx4", out));
    let mut out = empty_index();
    sse2_unrollx4_ya(input, &mut out);
    results.push(("sse2_unrollx4_ya", out));
    let mut out = empty_index();
    avx2_unroll(input, &mut out);
    results.push(("avx2_unroll", out));
    let mut out = empty_index();
    avx2_unrollx2(input, &mut out);
    results.push(("avx2_unrollx2", out));
    let mut out = empty_index();
    avx2_unrollx2_ya(input, &mut out);
    results.push(("avx2_unrollx2_ya", out));
    let mut out = empty_index();
    avx512_compress(input, &mut out);
    results.push(("avx512_compress", out));
    results
}

fn assert_all_agree(input: &str) {
    let expected = index_by_hand(input);
    for (name, out) in run_all(input) {
        assert_eq!(out, expected, "kernel {name}, input of {} bytes", input.len());
    }
}

#[test]
fn index_of_a_small_buffer() {
    for (name, out) in run_all("a\nbc\n") {
        assert_eq!(out.lows, vec![1, 4], "kernel {name}");
        assert_eq!(out.high_starts, vec![0], "kernel {name}");
    }
}

#[test]
fn index_of_the_empty_buffer() {
    for (name, out) in run_all("") {
        assert!(out.lows.is_empty(), "kernel {name}");
        assert!(out.high_starts.is_empty(), "kernel {name}");
    }
}

#[test]
fn index_without_newlines_still_enters_the_block() {
    for (name, out) in run_all("abc") {
        assert!(out.lows.is_empty(), "kernel {name}");
        assert_eq!(out.high_starts, vec![0], "kernel {name}");
    }
}

#[test]
fn index_across_two_blocks() {
    let mut bytes = vec![b'a'; 65536 + 10];
    bytes[0] = b'\n';
    bytes[65535] = b'\n';
    bytes[65536] = b'\n';
    bytes[65540] = b'\n';
    let input = String::from_utf8(bytes).unwrap();
    for (name, out) in run_all(&input) {
        assert_eq!(out.lows, vec![0, 65535, 0, 4], "kernel {name}");
        assert_eq!(out.high_starts, vec![0, 2], "kernel {name}");
    }
}

#[test]
fn a_buffer_of_one_whole_block_has_one_block() {
    let mut bytes = vec![b'a'; 65536];
    bytes[65535] = b'\n';
    let input = String::from_utf8(bytes).unwrap();
    for (name, out) in run_all(&input) {
        assert_eq!(out.lows, vec![65535], "kernel {name}");
        assert_eq!(out.high_starts, vec![0], "kernel {name}");
    }
}

#[test]
fn blocks_without_newlines_have_empty_runs() {
    let mut bytes = vec![b'a'; 3 * 65536 + 5];
    bytes[7] = b'\n';
    bytes[3 * 65536 + 1] = b'\n';
    let input = String::from_utf8(bytes).unwrap();
    for (name, out) in run_all(&input) {
        assert_eq!(out.lows, vec![7, 1], "kernel {name}");
        assert_eq!(out.high_starts, vec![0, 1, 1, 1], "kernel {name}");
    }
}

#[test]
fn every_kernel_agrees_with_the_scalar_index() {
    for (index, per_mille) in [0u64, 10, 100, 500, 1000].into_iter().enumerate() {
        for len in [0usize, 1, 15, 16, 17, 63, 64, 65, 100, 256, 1000, 4097, 70000, 140000] {
            let input = mixed_buffer(len, per_mille, 3 + index as u64 * 977 + len as u64);
            assert_all_agree(&input);
        }
    }
}

#[test]
fn index_of_newlines_only() {
    for len in [1usize, 64, 65, 256, 1000, 65536, 65537, 131072 + 33] {
        let input = "\n".repeat(len);
        let expected = index_by_hand(&input);
        assert_eq!(expected.lows.len(), len);
        for (name, out) in run_all(&input) {
            assert_eq!(out, expected, "kernel {name}, {len} newlines");
        }
    }
}

#[test]
fn index_of_a_single_line() {
    let input = "a".repeat(200000);
    for (name, out) in run_all(&input) {
        assert!(out.lows.is_empty(), "kernel {name}");
        assert_eq!(out.high_starts, vec![0, 0, 0, 0], "kernel {name}");
    }
}

#[test]
fn odd_and_even_numbers_of_newlines_in_a_chunk() {
    for count in 0..=64usize {
        let mut bytes = vec![b'a'; 64 * 1024 + 64];
        // the last chunk of the first block, and the chunk behind it
        for k in 0..count {
            bytes[65536 - 64 + (k * 37) % 64] = b'\n';
            bytes[65536 + 63 - (k * 11) % 64] = b'\n';
        }
        let input = String::from_utf8(bytes).unwrap();
        assert_all_agree(&input);
    }
}

#[test]
fn chunks_with_more_than_32_newlines() {
    let mut bytes = vec![b'\n'; 640];
    for at in [3usize, 64, 70, 100, 129, 200, 201, 202, 400, 639] {
        bytes[at] = b'a';
    }
    let input = String::from_utf8(bytes).unwrap();
    let expected = index_by_hand(&input);
    assert_eq!(expected.lows.len(), 630);
    let mut out = empty_index();
    avx512_compress(&input, &mut out);
    assert_eq!(out, expected);
    assert_all_agree(&input);
}

#[test]
fn kernels_append_to_what_the_index_held() {
    let mut out = empty_index();
    iter("a\nb\n", &mut out);
    sse2_unrollx4_ya("\nxyz", &mut out);
    avx512_compress("", &mut out);
    avx2_unroll("q\n", &mut out);
    assert_eq!(out.lows, vec![1, 3, 0, 1]);
    assert_eq!(out.high_starts, vec![0, 2, 3]);
}

#[test]
fn a_second_run_gives_the_same_index() {
    let input = mixed_buffer(100000, 80, 99);
    assert_eq!(run_all(&input), run_all(&input));
}

#[test]
fn tail_reports_what_lies_behind_the_whole_chunks() {
    let input = "aaaaaaaaaaaaaaa\n\nb\n";
    let mut out = LineIndex {
        lows: vec![9],
        high_starts: vec![0],
    };
    tail(16, input, &mut out);
    assert_eq!(out.lows, vec![9, 16, 18]);
    assert_eq!(out.high_starts, vec![0]);

    let mut out = empty_index();
    tail(1, input, &mut out);
    assert!(out.lows.is_empty());
    assert!(out.high_starts.is_empty());

    let mut out = empty_index();
    tail(64, input, &mut out);
    assert_eq!(out.lows, vec![15, 16, 18]);

    // 19 bytes in chunks of 5: three whole chunks, four bytes are left
    let mut out = empty_index();
    tail(5, input, &mut out);
    assert_eq!(out.lows, vec![15, 16, 18]);
    let mut out = empty_index();
    tail(17, input, &mut out);
    assert_eq!(out.lows, vec![18]);
}

#[test]
fn tail_gives_the_low_bits_of_the_whole_offset() {
    let mut bytes = vec![b'a'; 65536 + 40];
    bytes[65536 + 33] = b'\n';
    bytes[65536 + 39] = b'\n';
    let input = String::from_utf8(bytes).unwrap();
    let mut out = empty_index();
    tail(32, &input, &mut out);
    assert_eq!(out.lows, vec![33, 39]);
}

#[test]
fn offsets_are_found_again_from_the_index() {
    let input = mixed_buffer(200000, 30, 7);
    let mut index = empty_index();
    iter(&input, &mut index);
    let mut found = Vec::new();
    for block in 0..index.high_starts.len() {
        let from = index.high_starts[block];
        let to = if block + 1 < index.high_starts.len() {
            index.high_starts[block + 1]
        } else {
            index.lows.len()
        };
        for place in from..to {
            found.push(block * 65536 + index.lows[place] as usize);
        }
    }
    let expected: Vec<usize> = input
        .bytes()
        .enumerate()
        .filter(|(_, byte)| *byte == b'\n')
        .map(|(offset, _)| offset)
        .collect();
    assert_eq!(found, expected);
    assert!(found.windows(2).all(|pair| pair[0] < pair[1]));
    assert_eq!(index.high_starts[0], 0);
    assert!(index.high_starts.windows(2).all(|pair| pair[0] <= pair[1]));
}

#[test]
fn predicates_follow_the_features() {
    let all = CpuFeatures {
        popcnt: true,
        sse42: true,
        avx2: true,
        avx512f: true,
        avx512bw: true,
        avx512vbmi2: true,
    };
    assert!(can_run_avx2(&all));
    assert!(can_run_avx512_compress(&all));
    assert!(!can_run_avx2(&CpuFeatures { avx2: false, ..all }));
    assert!(can_run_avx512_compress(&CpuFeatures { avx2: false, sse42: false, ..all }));
    assert!(!can_run_avx512_compress(&CpuFeatures { popcnt: false, ..all }));
    assert!(!can_run_avx512_compress(&CpuFeatures { avx512f: false, ..all }));
    assert!(!can_run_avx512_compress(&CpuFeatures { avx512bw: false, ..all }));
    assert!(!can_run_avx512_compress(&CpuFeatures { avx512vbmi2: false, ..all }));
}
