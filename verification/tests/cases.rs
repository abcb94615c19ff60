use normalization_tables::cases::{
    cases, char_cases_text, hangul_edge_chars, push_char_case, push_string_case, hangul_pair_strings, hangul_pairs, interesting,
    long_runs, pair_cases_text, quick_index, select_code_points,
};
use normalization_tables::normalization::QuickCheck;
use normalization_tables::official::{
    lines, official_test_strings, parse_column, parse_hex, split_chars, split_tokens,
};
use normalization_tables::order::{compare_strings, sort_dedup, Order};

fn v(s: &str) -> Vec<char> {
    s.chars().collect()
}

#[test]
fn splitting_like_str_split() {
    let r = split_chars(&v("a;b;;c;"), ';');
    assert_eq!(r, vec![v("a"), v("b"), v(""), v("c"), v("")]);
    assert_eq!(split_chars(&v(""), ';'), vec![v("")]);
}

#[test]
fn lines_like_str_lines() {
    assert_eq!(lines(&v("foo\r\nbar\n\nbaz\r")), vec![v("foo"), v("bar"), v(""), v("baz\r")]);
    assert_eq!(lines(&v("a\n")), vec![v("a")]);
    assert_eq!(lines(&v("")), Vec::<Vec<char>>::new());
}

#[test]
fn tokens_like_split_whitespace() {
    assert_eq!(split_tokens(&v("  0044 \t0307\u{3000}x ")), vec![v("0044"), v("0307"), v("x")]);
    assert_eq!(split_tokens(&v("   ")), Vec::<Vec<char>>::new());
}

#[test]
fn hex_like_from_str_radix() {
    assert_eq!(parse_hex(&v("1E0A")), Some(0x1E0A));
    assert_eq!(parse_hex(&v("+ff")), Some(255));
    assert_eq!(parse_hex(&v("FFFFFFFF")), Some(u32::MAX));
    assert_eq!(parse_hex(&v("100000000")), None);
    assert_eq!(parse_hex(&v("")), None);
    assert_eq!(parse_hex(&v("+")), None);
    assert_eq!(parse_hex(&v("-1")), None);
    assert_eq!(parse_hex(&v("12g")), None);
}

#[test]
fn columns_of_code_points() {
    assert_eq!(parse_column(&v("0044 0307")), Some(v("D\u{307}")));
    assert_eq!(parse_column(&v("")), Some(v("")));
    assert_eq!(parse_column(&v("D800")), None);
    assert_eq!(parse_column(&v("110000")), None);
}

#[test]
fn official_strings_every_tenth_data_line() {
    let mut text = String::from("# header\n@Part0\n");
    for k in 0..12u32 {
        text.push_str(&format!("{:04X};{:04X} {:04X};;X;0041;0042; # comment\n", 0x41 + k, 0x61, 0x62));
    }
    let r = official_test_strings(&text);
    assert_eq!(
        r,
        vec![v("A"), v("ab"), v(""), v("A"), v("K"), v("ab"), v(""), v("A")]
    );
}

#[test]
fn strings_in_string_order() {
    assert_eq!(compare_strings(&v("a"), &v("b")), Order::Before);
    assert_eq!(compare_strings(&v("ab"), &v("a")), Order::After);
    assert_eq!(compare_strings(&v("\u{e9}"), &v("\u{e9}")), Order::Same);
    assert_eq!(compare_strings(&v("\u{FFFF}"), &v("\u{10000}")), Order::Before);
    let r = sort_dedup(vec![v("b"), v("a"), v("b"), v(""), v("ab")]);
    assert_eq!(r, vec![v(""), v("a"), v("ab"), v("b")]);
}

#[test]
fn quick_index_numbers() {
    assert_eq!(quick_index(QuickCheck::Yes), 0);
    assert_eq!(quick_index(QuickCheck::No), 1);
    assert_eq!(quick_index(QuickCheck::Maybe), 2);
}

#[test]
fn the_pool() {
    let pool = interesting();
    assert!(pool.windows(2).all(|w| w[0] < w[1]));
    for c in ['a', 'A', 'e', 'o', 'z', '.', '1', ' ', '\u{7f}', '\u{AC01}', '\u{0F73}', '\u{0301}'] {
        assert!(pool.contains(&c));
    }
}

#[test]
fn long_runs_and_hangul_strings() {
    let pool = vec!['x', 'y', 'z'];
    let r = long_runs(&pool);
    assert_eq!(r.len(), 18);
    assert_eq!(r[0].len(), 30);
    assert_eq!(r[1][0..5], ['a', 'x', 'y', 'z', 'x']);
    assert_eq!(*r[1].last().unwrap(), 'b');
    assert_eq!(r[17].len(), 63);
    let edges = hangul_edge_chars();
    assert_eq!(edges.len(), 20);
    assert_eq!(edges[0], '\u{10FF}');
    let h = hangul_pair_strings(&edges);
    assert_eq!(h.len(), 800);
    assert_eq!(h[1], vec!['\u{10FF}', '\u{10FF}', '\u{11A8}']);
    assert_eq!(hangul_pairs(&edges).len(), 400);
}

#[test]
fn pair_records() {
    let t = pair_cases_text(&vec![('A', '\u{30A}'), ('a', 'b')]);
    assert_eq!(t, "2001100<:00352001Q001R0000");
}

#[test]
fn character_cases() {
    let pool = vec!['a'];
    let mark = select_code_points(&pool);
    assert!(mark[0x61]);
    assert!(mark[0]);
    assert!(mark[0x2FF] && mark[0x300]);
    assert!(!mark[0xD800]);
    let (text, count) = char_cases_text(&pool).unwrap();
    assert!(count > 100);
    assert!(text.starts_with("1000000001\u{0}001\u{0}001\u{0}"));
}

#[test]
fn cases_file() {
    let text = "# test\n0044 0307;1E0A;0044 0307;1E0A;0044 0307; # D\n";
    let out = cases(text).unwrap();
    assert!(out.starts_with("-- GENERATED by scripts/generate.sh from unicode-normalization 0.1.25.\n"));
    assert!(out.contains(" of\n-- them from the official NormalizationTest.txt; "));
    assert!(out.contains("strings, 2 of\n"));
    assert!(out.contains(" characters; and\n-- 3400 pairs composed.\n"));
    assert!(out.ends_with("\"\n"));
}

#[test]
fn a_string_case() {
    let mut out = String::new();
    assert!(push_string_case(&mut out, &v("D\u{307}")));
    assert_eq!(
        out,
        "0003D\u{307}003D\u{307}003D\u{307}003\u{1E0A}003\u{1E0A}003D\u{307}003D\u{307}220020001101"
    );
    let mut out = String::new();
    assert!(push_string_case(&mut out, &v("\u{FB01}")));
    assert!(out.starts_with("0003\u{FB01}003\u{FB01}002fi003\u{FB01}002fi"));
}

#[test]
fn a_char_case() {
    let mut out = String::new();
    assert!(push_char_case(&mut out, '\u{e9}'));
    assert_eq!(out, "1003Y00003e\u{301}003e\u{301}002\u{e9}01");
    let mut out = String::new();
    assert!(push_char_case(&mut out, '\u{301}'));
    assert_eq!(out, "100<13V002\u{301}002\u{301}002\u{301}11");
}
