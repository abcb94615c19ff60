use normalization_tables::composition_source::composition_entries;
use normalization_tables::encoding::digits;
use normalization_tables::fingerprint::fingerprint;
use normalization_tables::rng::Rng;
use normalization_tables::tables::{decomposition_maps, decomposition_table, fits_table};

fn enc(v: u64, n: u32) -> String {
    let mut s = String::new();
    digits(&mut s, v, n);
    s
}

fn fnv_steps(mut h: u64, bytes: &[u8]) -> u64 {
    for b in bytes {
        h ^= u64::from(*b);
        h = h.wrapping_mul(0x0100_0000_01b3);
    }
    h
}

#[test]
fn digit_fields_sort_as_numbers() {
    let values = [0u64, 1, 63, 64, 65, 4095, 4096, 100_000, 262_143];
    for &a in &values {
        for &b in &values {
            assert_eq!(enc(a, 3) < enc(b, 3), a < b);
            assert_eq!(enc(a, 3) == enc(b, 3), a == b);
        }
    }
}

#[test]
fn fingerprint_continues_from_a_prefix() {
    let (a, b) = ("src/lib.rs", "fn main() {}\n");
    let whole = format!("{a}{b}");
    assert_eq!(fingerprint(&whole), fnv_steps(fingerprint(a), b.as_bytes()));
    assert_eq!(fingerprint(""), 0xcbf2_9ce4_8422_2325);
}

#[test]
fn one_byte_changes_the_fingerprint() {
    assert_ne!(fingerprint("compose"), fingerprint("compost"));
    assert_ne!(fingerprint("abc"), fingerprint("bbc"));
    assert_ne!(fingerprint("\u{e9}"), fingerprint("\u{e8}"));
}

#[test]
fn the_generator_reaches_zero_only_from_zero() {
    let mut zero = Rng(0);
    for _ in 0..5 {
        assert_eq!(zero.next(), 0);
        assert_eq!(zero.0, 0);
    }
    let mut r = Rng(0x0f0c_7a4a_c0ff_ee42);
    for _ in 0..1000 {
        r.next();
        assert_ne!(r.0, 0);
    }
}

#[test]
fn decomposition_index_ascends() {
    let (canon, _, _) = decomposition_maps();
    assert!(fits_table(&canon));
    let (index, _) = decomposition_table(&canon);
    let keys: Vec<&str> = (0..canon.len()).map(|i| &index[8 * i..8 * i + 4]).collect();
    assert_eq!(keys.len(), canon.len());
    assert!(keys.windows(2).all(|w| w[0] < w[1]));
    assert_eq!(keys[0], enc(u32::from(canon[0].0).into(), 4));
    assert_eq!(canon[0].0, '\u{C0}');
}

#[test]
fn composition_entries_counted_between_the_marks() {
    let text = "const X: &[(u32, char)] = &[(0x1, 'a')];\n\
        pub(crate) const COMPOSITION_TABLE_KV: &[(u32, char)] = &[\n    (0x3B1, '\\u{1}'),\n    (0x3B2, '\\u{2}'),\n];\n\
        const Y: &[(u32, u32)] = &[(0x5, 0x6)];\n\
        pub(crate) fn composition_table_astral(c1: char, c2: char) -> Option<char> {\n    match (c1, c2) {\n        ('\\u{1}', '\\u{2}') => Some('\\u{3}'),\n        _ => None,\n    }\n}\n\
        fn other() -> Option<char> { None.or(Some('x')) }\n";
    assert_eq!(composition_entries(text), Some(3));
}

#[test]
fn composition_entries_need_the_marks() {
    assert_eq!(composition_entries(""), None);
    assert_eq!(composition_entries("COMPOSITION_TABLE_KV = &[(0x1, 'a')];"), None);
    assert_eq!(
        composition_entries("COMPOSITION_TABLE_KV = &[(0x1, 'a')"),
        None
    );
    assert_eq!(
        composition_entries("COMPOSITION_TABLE_KV [];\nfn composition_table_astral() {\n}"),
        Some(0)
    );
}
