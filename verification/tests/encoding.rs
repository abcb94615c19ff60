use normalization_tables::encoding::{digits, long_literal, push_decimal, text};
use normalization_tables::fingerprint::fingerprint;
use normalization_tables::rng::Rng;

#[test]
fn digits_are_base64_most_significant_first() {
    let mut out = String::new();
    digits(&mut out, 5, 2);
    assert_eq!(out, "05");
    let mut out = String::new();
    digits(&mut out, 63, 1);
    assert_eq!(out, "o");
    let mut out = String::from("x");
    digits(&mut out, 64 * 3 + 1, 2);
    assert_eq!(out, "x31");
    let mut out = String::new();
    digits(&mut out, 0x10FFFF, 4);
    assert_eq!(out, "4?oo");
}

#[test]
fn digits_zero_width_writes_nothing() {
    let mut out = String::new();
    digits(&mut out, 0, 0);
    assert_eq!(out, "");
}

#[test]
fn digits_decode_back() {
    for value in [0u64, 1, 63, 64, 4095, 4096, 262143, 16777215] {
        let mut out = String::new();
        digits(&mut out, value, 4);
        let decoded = out.chars().fold(0u64, |v, c| v * 64 + (c as u64 - '0' as u64));
        assert_eq!(decoded, value);
        assert!(out.chars().all(|c| ('0'..='o').contains(&c)));
    }
}

#[test]
fn text_counts_bytes() {
    let mut out = String::new();
    text(&mut out, "ab");
    assert_eq!(out, "002ab");
    let mut out = String::new();
    text(&mut out, "\u{e9}");
    assert_eq!(out, "002\u{e9}");
    let mut out = String::new();
    text(&mut out, "\u{1F600}x");
    assert_eq!(out, "005\u{1F600}x");
    let mut out = String::new();
    text(&mut out, "");
    assert_eq!(out, "000");
}

#[test]
fn long_literal_escapes() {
    assert_eq!(long_literal("a\"b\\c$d", 96), "\"a\\\"b\\\\c\\$d\"");
    assert_eq!(long_literal("\u{e9}\u{7f}\n", 96), "\"\\u{E9}\\u{7F}\\u{A}\"");
    assert_eq!(long_literal("", 96), "\"\"");
    assert_eq!(long_literal("~ ", 96), "\"~ \"");
}

#[test]
fn long_literal_breaks_lines() {
    assert_eq!(long_literal("abcde", 2), "\"ab\\\n    cd\\\n    e\"");
    assert_eq!(long_literal("ab cd", 2), "\"ab\\\n    \\x20c\\\n    d\"");
    assert_eq!(long_literal("abcd", 4), "\"abcd\"");
}

#[test]
fn long_literal_is_printable_ascii() {
    let lit = long_literal("x\u{301}\u{10FFFF} \"$\t", 3);
    assert!(lit.chars().all(|c| c == '\n' || (' '..='~').contains(&c)));
}

#[test]
fn decimal_numbers() {
    let mut out = String::new();
    push_decimal(&mut out, 0);
    push_decimal(&mut out, 7);
    push_decimal(&mut out, 3400);
    assert_eq!(out, "073400");
}

#[test]
fn fingerprint_is_fnv1a() {
    assert_eq!(fingerprint(""), 0xcbf2_9ce4_8422_2325);
    assert_eq!(fingerprint("a"), 0xaf63_dc4c_8601_ec8c);
    assert_ne!(fingerprint("ab"), fingerprint("ba"));
}

#[test]
fn rng_is_xorshift64_star() {
    let mut rng = Rng(1);
    assert_eq!(rng.next(), 5180492295206395165);
    assert_eq!(rng.0, 33554433);
    let mut a = Rng(0x0f0c_7a4a_c0ff_ee42);
    let mut b = Rng(0x0f0c_7a4a_c0ff_ee42);
    for _ in 0..100 {
        assert_eq!(a.next(), b.next());
    }
}

#[test]
fn rng_below_stays_below() {
    let mut rng = Rng(0x0f0c_7a4a_c0ff_ee42);
    for n in 1..200usize {
        assert!(rng.below(n) < n);
    }
    let mut a = Rng(99);
    let mut b = Rng(99);
    let x = a.next();
    assert_eq!(b.below(7), (x % 7) as usize);
}
