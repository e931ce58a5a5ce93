use linesplit::slice::x86_64::{
    avx2, avx2_unroll, avx2_unrollx2, avx2_unrollx2_interleavex2, avx2_unsafe, can_run_avx2,
    can_run_sse42, sse2, sse2_unroll, sse2_unrollx4, sse2_unsafe, sse42_unrollx4_interleavex2,
};
use linesplit::slice::{split, std_reuse};
use linesplit::cpu::CpuFeatures;

/// The lines of `input` found without the library: cut at every newline,
/// and drop what follows the last newline if that is empty.
fn lines_by_hand(input: &str) -> Vec<&str> {
    let mut lines: Vec<&str> = input.split('\n').collect();
    if lines.last() == Some(&"") {
        lines.pop();
    }
    lines
}

/// A buffer of `len` bytes over the letters `a` and newline, where about
/// `per_mille` of a thousand bytes are newlines.
fn mixed_buffer(len: usize, per_mille: u64, seed: u64) -> String {
    let mut state = seed;
    let mut text = String::with_capacity(len);
    for _ in 0..len {
        state = state
            .wrapping_mul(6364136223846793005)
            .wrapping_add(1442695040888963407);
        if (state >> 33) % 1000 < per_mille {
            text.push('\n');
        } else {
            text.push('a');
        }
    }
    text
}

fn run_all<'a>(input: &'a str) -> Vec<(&'static str, Vec<&'a str>)> {
    let mut results = Vec::new();
    let mut out = Vec::new();
    std_reuse(input, &mut out);
    results.push(("std_reuse", out));
    let mut out = Vec::new();
    sse2(input, &mut out);
    results.push(("sse2", out));
    let mut out = Vec::new();
    sse2_unsafe(input, &mut out);
    results.push(("sse2_unsafe", out));
    let mut out = Vec::new();
    sse2_unroll(input, &mut out);
    results.push(("sse2_unroll", out));
    let mut out = Vec::new();
    sse2_unrollx4(input, &mut out);
    results.push(("sse2_unrollx4", out));
    let mut out = Vec::new();
    avx2(input, &mut out);
    results.push(("avx2", out));
    let mut out = Vec::new();
    avx2_unsafe(input, &mut out);
    results.push(("avx2_unsafe", out));
    let mut out = Vec::new();
    avx2_unroll(input, &mut out);
    results.push(("avx2_unroll", out));
    let mut out = Vec::new();
    avx2_unrollx2(input, &mut out);
    results.push(("avx2_unrollx2", out));
    let mut out = Vec::new();
    avx2_unrollx2_interleavex2(input, &mut out);
    results.push(("avx2_unrollx2_interleavex2", out));
    let mut out = Vec::new();
    sse42_unrollx4_interleavex2(input, &mut out);
    results.push(("sse42_unrollx4_interleavex2", out));
    results
}

fn assert_all_agree(input: &str) {
    let expected = lines_by_hand(input);
    assert_eq!(split(input), expected, "split");
    for (name, out) in run_all(input) {
        assert_eq!(out, expected, "kernel {name}, input of {} bytes", input.len());
    }
}

#[test]
fn empty_input_gives_no_line() {
    assert_eq!(split(""), Vec::<&str>::new());
    for (name, out) in run_all("") {
        assert!(out.is_empty(), "kernel {name}");
    }
}

#[test]
fn boundary_cases_on_every_kernel() {
    let cases: Vec<(&str, Vec<&str>)> = vec![
        ("a", vec!["a"]),
        ("\n", vec![""]),
        ("\nab", vec!["", "ab"]),
        ("a\n", vec!["a"]),
        ("a\nbc", vec!["a", "bc"]),
        ("\n\n", vec!["", ""]),
        ("\n\n\n", vec!["", "", ""]),
    ];
    for (input, expected) in cases {
        for (name, out) in run_all(input) {
            assert_eq!(out, expected, "kernel {name}, input `{input}`");
        }
    }
}

#[test]
fn carriage_return_is_payload() {
    for (name, out) in run_all("a\r\nb\r") {
        assert_eq!(out, vec!["a\r", "b\r"], "kernel {name}");
    }
    assert_eq!(split("a\r\nb\r"), vec!["a\r", "b\r"]);
}

#[test]
fn characters_of_several_bytes_are_kept_whole() {
    let input = "h\u{e9}llo\nw\u{f6}rld \u{2713}\n\u{1f600}\n\nlast \u{20ac}";
    let expected = vec!["h\u{e9}llo", "w\u{f6}rld \u{2713}", "\u{1f600}", "", "last \u{20ac}"];
    assert_eq!(split(input), expected);
    for (name, out) in run_all(input) {
        assert_eq!(out, expected, "kernel {name}");
    }
    let long = input.repeat(40);
    assert_all_agree(&long);
}

#[test]
fn lines_across_chunk_boundaries() {
    let input = "123\n123456\n123456789012\n".repeat(30);
    let mut expected = Vec::new();
    for _ in 0..30 {
        expected.push("123");
        expected.push("123456");
        expected.push("123456789012");
    }
    for (name, out) in run_all(&input) {
        assert_eq!(out, expected, "kernel {name}");
    }
    for shift in 0..70 {
        let mut text = "x".repeat(shift);
        text.push('\n');
        text.push_str(&"y".repeat(70 - shift));
        text.push('\n');
        text.push_str("tail");
        assert_all_agree(&text);
    }
}

#[test]
fn lines_longer_than_a_chunk() {
    let input = "12345678901234567\n".repeat(50);
    let expected = vec!["12345678901234567"; 50];
    for (name, out) in run_all(&input) {
        assert_eq!(out, expected, "kernel {name}");
    }
    let long_line = "z".repeat(200);
    let input = format!("{long_line}\n{long_line}\n{long_line}");
    for (name, out) in run_all(&input) {
        assert_eq!(out, vec![long_line.as_str(); 3], "kernel {name}");
    }
}

#[test]
fn buffer_of_newlines_only() {
    for len in [1usize, 15, 16, 17, 63, 64, 65, 255, 256, 257, 1000, 5000] {
        let input = "\n".repeat(len);
        for (name, out) in run_all(&input) {
            assert_eq!(out.len(), len, "kernel {name}, {len} newlines");
            assert!(out.iter().all(|line| line.is_empty()), "kernel {name}");
        }
    }
}

#[test]
fn single_line_without_newline() {
    for len in [1usize, 15, 16, 17, 31, 32, 33, 63, 64, 65, 1000, 70000] {
        let input = "a".repeat(len);
        for (name, out) in run_all(&input) {
            assert_eq!(out, vec![input.as_str()], "kernel {name}, {len} bytes");
        }
    }
}

#[test]
fn every_kernel_agrees_with_the_scalar_reference() {
    for (index, per_mille) in [0u64, 10, 100, 500, 1000].into_iter().enumerate() {
        for len in [0usize, 1, 7, 16, 31, 64, 100, 255, 256, 1023, 4096, 20000] {
            let input = mixed_buffer(len, per_mille, 17 + index as u64 * 1000 + len as u64);
            assert_all_agree(&input);
        }
    }
}

#[test]
fn kernels_append_and_keep_what_was_there() {
    let first = "one\ntwo\n";
    let second = "three\nfour";
    let mut out = Vec::new();
    std_reuse(first, &mut out);
    sse2_unroll(second, &mut out);
    avx2_unrollx2(first, &mut out);
    sse2_unrollx4(second, &mut out);
    assert_eq!(
        out,
        vec!["one", "two", "three", "four", "one", "two", "three", "four"]
    );
}

#[test]
fn joined_lines_give_the_input_back() {
    for input in ["", "a", "\n", "a\n", "a\nbc", "a\nbc\n", "\n\n", "a\n\nb\n\n"] {
        let joined = split(input).join("\n");
        let expected = input.strip_suffix('\n').unwrap_or(input);
        assert_eq!(joined, expected, "input `{input}`");
    }
    let input = mixed_buffer(3000, 100, 5);
    for (name, out) in run_all(&input) {
        let joined = out.join("\n");
        assert_eq!(
            joined,
            input.strip_suffix('\n').unwrap_or(&input),
            "kernel {name}"
        );
    }
}

#[test]
fn no_line_holds_a_newline() {
    let input = mixed_buffer(5000, 300, 11);
    for (name, out) in run_all(&input) {
        assert!(out.iter().all(|line| !line.contains('\n')), "kernel {name}");
    }
}

#[test]
fn a_second_run_gives_the_same() {
    let input = mixed_buffer(5000, 50, 23);
    let first = run_all(&input);
    let second = run_all(&input);
    assert_eq!(first, second);
}

#[test]
fn views_point_into_the_input() {
    let input = String::from("ab\ncde\n\nf");
    let start = input.as_ptr() as usize;
    for (name, out) in run_all(&input) {
        let offsets: Vec<usize> = out.iter().map(|line| line.as_ptr() as usize - start).collect();
        assert_eq!(offsets, vec![0, 3, 7, 8], "kernel {name}");
    }
}

#[test]
fn two_strides_with_unequal_numbers_of_newlines() {
    // the first stride of each pair has `in_a` newlines, the second `in_b`
    for in_a in [0usize, 1, 2, 31, 32, 33, 63, 64] {
        for in_b in [0usize, 1, 2, 31, 32, 33, 63, 64] {
            let mut bytes = vec![b'a'; 128 * 5 + 17];
            for pair in 0..5 {
                for k in 0..in_a {
                    bytes[pair * 128 + 63 - k] = b'\n';
                }
                for k in 0..in_b {
                    bytes[pair * 128 + 64 + (k * 5) % 64] = b'\n';
                }
            }
            let input = String::from_utf8(bytes).unwrap();
            assert_all_agree(&input);
        }
    }
}

#[test]
fn sse42_predicate_follows_the_features() {
    let all = CpuFeatures {
        popcnt: true,
        sse42: true,
        avx2: true,
        avx512f: true,
        avx512bw: true,
        avx512vbmi2: true,
    };
    assert!(can_run_sse42(&all));
    assert!(can_run_sse42(&CpuFeatures { avx2: false, avx512f: false, ..all }));
    assert!(!can_run_sse42(&CpuFeatures { sse42: false, ..all }));
    assert!(!can_run_sse42(&CpuFeatures { popcnt: false, ..all }));
}

#[test]
fn avx2_predicate_follows_the_feature() {
    let mut cpu = CpuFeatures {
        popcnt: true,
        sse42: true,
        avx2: false,
        avx512f: true,
        avx512bw: true,
        avx512vbmi2: true,
    };
    assert!(!can_run_avx2(&cpu));
    cpu.avx2 = true;
    cpu.popcnt = false;
    cpu.avx512f = false;
    assert!(can_run_avx2(&cpu));
}
