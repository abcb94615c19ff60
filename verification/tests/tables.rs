use normalization_tables::normalization::QuickCheck;
use normalization_tables::runs::runs;
use normalization_tables::scalars::{
    canonical, chars, cjk_variant, collect, compatible, is_hangul_syllable, Decomposition,
    NUM_SCALARS,
};
use normalization_tables::tables::{
    composites, decomposition_table, fits_table, property_runs, property_value_of, qc, range_table, tables,
    value_table, Property, TablesError,
};

#[test]
fn chars_are_the_scalar_values() {
    let all = chars();
    assert_eq!(all.len(), NUM_SCALARS);
    assert_eq!(all[0], '\0');
    assert_eq!(all[0xD7FF], '\u{D7FF}');
    assert_eq!(all[0xD800], '\u{E000}');
    assert_eq!(*all.last().unwrap(), '\u{10FFFF}');
    assert!(all.windows(2).all(|w| w[0] < w[1]));
}

#[test]
fn hangul_syllables() {
    assert!(is_hangul_syllable('\u{AC00}'));
    assert!(is_hangul_syllable('\u{D7A3}'));
    assert!(!is_hangul_syllable('\u{ABFF}'));
    assert!(!is_hangul_syllable('\u{D7A4}'));
}

#[test]
fn decompositions_of_one_character() {
    assert_eq!(canonical('\u{e9}'), vec!['e', '\u{301}']);
    assert_eq!(canonical('a'), vec!['a']);
    assert_eq!(compatible('\u{fb01}'), vec!['f', 'i']);
    assert_eq!(canonical('\u{fb01}'), vec!['\u{fb01}']);
    assert_eq!(canonical('\u{AC01}'), vec!['\u{1100}', '\u{1161}', '\u{11A8}']);
    assert_eq!(cjk_variant('\u{F900}'), vec!['\u{8C48}', '\u{FE00}']);
    assert_eq!(collect('\u{2460}', Decomposition::Compatible), vec!['1']);
}

#[test]
fn quick_check_numbers() {
    assert_eq!(qc(QuickCheck::Yes), 0);
    assert_eq!(qc(QuickCheck::No), 1);
    assert_eq!(qc(QuickCheck::Maybe), 2);
}

#[test]
fn runs_are_maximal() {
    let r = runs(|c| if c == 'b' || c == 'c' || c == 'e' { 1 } else { 0 }, 0);
    assert_eq!(r, vec![(0x62, 0x63, 1), (0x65, 0x65, 1)]);
    let r = runs(|c| if ('\u{D7FE}'..='\u{E001}').contains(&c) { 3 } else { 0 }, 0);
    assert_eq!(r, vec![(0xD7FE, 0xE001, 3)]);
    let r = runs(|c| if c < 'c' { 1 } else if c < 'e' { 2 } else { 5 }, 5);
    assert_eq!(r, vec![(0, 0x62, 1), (0x63, 0x64, 2)]);
}

#[test]
fn value_and_range_tables() {
    let r = vec![(0x300, 0x314, 230), (0x10FFFF, 0x10FFFF, 1)];
    assert_eq!(value_table(&r, 2), "00<000<D3V4?oo4?oo01");
    assert_eq!(range_table(&r), "00<000<D4?oo4?oo");
}

#[test]
fn decomposition_table_records() {
    let map = vec![('\u{C0}', vec!['A', '\u{300}']), ('\u{1E08}', vec!['C', '\u{327}', '\u{301}'])];
    assert!(fits_table(&map));
    let (index, data) = decomposition_table(&map);
    assert_eq!(index, "0030000201h80083");
    assert_eq!(data, "001100<0001300<W00<1");
    let too_long = vec![('x', vec!['a'; 64])];
    assert!(!fits_table(&too_long));
}

#[test]
fn composites_of_parts() {
    let r = composites(&vec!['A', '\u{30A}', 'e']);
    assert_eq!(r, vec![('A', '\u{30A}', '\u{C5}')]);
    let r = composites(&vec!['\u{1100}', '\u{1161}']);
    assert_eq!(r, vec![('\u{1100}', '\u{1161}', '\u{AC00}')]);
}

#[test]
fn property_runs_of_combining_class() {
    let r = property_runs(Property::CombiningClass);
    assert!(r.contains(&(0x300, 0x314, 230)));
    assert!(r.iter().all(|x| x.2 != 0));
}

#[test]
fn tables_check_the_composite_count() {
    assert_eq!(
        tables(0),
        Err(TablesError::CompositeCount { found: 961, expected: 0 })
    );
}

#[test]
fn tables_file() {
    let t = tables(961).unwrap();
    assert!(t.starts_with("-- GENERATED by scripts/generate.sh from unicode-normalization 0.1.25.\n"));
    assert!(t.contains("@pub(pkg) def unicodeVersion = (17, 0, 0)\n\n-- The canonical combining class"));
    assert!(t.contains("@pub(pkg) def combiningClasses =\n  \"00<000<D3V"));
    assert!(t.contains("\n@pub(pkg) def quickNfkd =\n  \""));
    assert!(t.ends_with("\"\n"));
    assert!(!t.ends_with("\"\n\n"));
    assert!(t.contains("\"\n\n-- Code points, 4 digits each.\n@pub(pkg) def canonicalData =\n  \""));
}

#[test]
fn property_values_of_characters() {
    assert_eq!(property_value_of(Property::CombiningClass, '\u{301}'), 230);
    assert_eq!(property_value_of(Property::QuickNfc, '\u{301}'), 2);
    assert_eq!(property_value_of(Property::QuickNfd, '\u{e9}'), 1);
    assert_eq!(property_value_of(Property::QuickNfkc, '\u{fb01}'), 1);
    assert_eq!(property_value_of(Property::QuickNfkd, 'a'), 0);
    assert_eq!(property_value_of(Property::CombiningMark, '\u{301}'), 1);
    assert_eq!(property_value_of(Property::CombiningMark, 'a'), 0);
    assert_eq!(property_value_of(Property::PublicAssigned, 'a'), 1);
    assert_eq!(property_value_of(Property::PublicAssigned, '\u{E000}'), 0);
}
