use linesplit::slice::x86_64;
use linesplit::slice::{split, std_reuse};

fn test_cases() -> Vec<(&'static str, Vec<&'static str>)> {
    vec![
        ("", vec![]),
        ("a", vec!["a"]),
        ("\n", vec![""]),
        ("\nab", vec!["", "ab"]),
        ("a\n", vec!["a"]),
        ("a\nbc", vec!["a", "bc"]),
        ("\n\n", vec!["", ""]),
        ("\n\n\n", vec!["", "", ""]),
        (
            "123\n123456\n123456789012\n",
            vec!["123", "123456", "123456789012"],
        ),
        (
            "12345678901234567\n12345678901234567\n12345678901234567\n",
            vec![
                "12345678901234567",
                "12345678901234567",
                "12345678901234567",
            ],
        ),
    ]
}

#[test]
fn test_std() {
    for (input, expected) in test_cases() {
        let out = split(input);
        assert_eq!(expected, out, "input: `{input}`");
    }
}

#[test]
fn test_std_reuse() {
    let mut buf = Vec::new();
    for (input, expected) in test_cases() {
        buf.clear();
        std_reuse(input, &mut buf);
        assert_eq!(expected, buf, "input: `{input}`");
    }
}

#[test]
fn test_sse2() {
    let mut buf = Vec::new();
    for (input, expected) in test_cases() {
        buf.clear();
        x86_64::sse2(input, &mut buf);
        assert_eq!(expected, buf, "input: `{input}`");
    }
}

#[test]
fn test_sse2_unroll() {
    let mut buf = Vec::new();
    for (input, expected) in test_cases() {
        buf.clear();
        x86_64::sse2_unroll(input, &mut buf);
        assert_eq!(expected, buf, "input: `{input}`");
    }
}

#[test]
fn test_sse2_unrollx4() {
    let mut buf = Vec::new();
    for (input, expected) in test_cases() {
        buf.clear();
        x86_64::sse2_unrollx4(input, &mut buf);
        assert_eq!(expected, buf, "input: `{input}`");
    }
}

#[test]
fn test_avx2() {
    let mut buf = Vec::new();
    for (input, expected) in test_cases() {
        buf.clear();
        x86_64::avx2(input, &mut buf);
        assert_eq!(expected, buf, "input: `{input}`");
    }
}

#[test]
fn test_avx2_unroll() {
    let mut buf = Vec::new();
    for (input, expected) in test_cases() {
        buf.clear();
        x86_64::avx2_unroll(input, &mut buf);
        assert_eq!(expected, buf, "input: `{input}`");
    }
}

#[test]
fn test_avx2_unrollx2() {
    let mut buf = Vec::new();
    for (input, expected) in test_cases() {
        buf.clear();
        x86_64::avx2_unrollx2(input, &mut buf);
        assert_eq!(expected, buf, "input: `{input}`");
    }
}

#[test]
fn test_sse2_unsafe() {
    let mut buf = Vec::new();
    for (input, expected) in test_cases() {
        buf.clear();
        x86_64::sse2_unsafe(input, &mut buf);
        assert_eq!(expected, buf, "input: `{input}`");
    }
}

#[test]
fn test_avx2_unsafe() {
    let mut buf = Vec::new();
    for (input, expected) in test_cases() {
        buf.clear();
        x86_64::avx2_unsafe(input, &mut buf);
        assert_eq!(expected, buf, "input: `{input}`");
    }
}
