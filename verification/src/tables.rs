//! The per-character tables: every fact the crate's algorithms consult, read
//! off its public functions for every code point, as strings of fixed-width
//! records of base-64 digits.

use crate::encoding::{
    base64_digits, decimal, digits, digits_value, law_digits_roundtrip, literal, long_literal,
    pow64, push_decimal, string_push, string_push_str,
};
use crate::normalization::{
    canonical_decomposition, combining_class, combining_class_of, compatibility_decomposition,
    combining_mark, combining_mark_of, compose_pair, composition, nfc_quick, nfd_quick, nfkc_quick,
    nfkd_quick, public_assigned, public_assigned_of, quick_nfc, quick_nfd, quick_nfkc, quick_nfkd,
    unicode_version,
    spec_is_hangul_syllable, variant_decomposition, QuickCheck,
};
use crate::order::lemma_chars_deep_view_is_view;
use crate::cases::{chars_in, lemma_chars_in};
use crate::composition_source::matches_at;
use crate::records::{
    field, joined, lemma_field_in_piece, lemma_joined_chunk, lemma_joined_len, lemma_joined_occurs,
    lemma_joined_push,
};
use crate::runs::{in_run, lemma_runs_bounded, runs, runs_of, Run};
use crate::scalars::{
    all_scalars, canonical, chars, cjk_variant, compatible, decomposition_of, is_hangul_syllable,
    is_scalar_value,
    lemma_scalar_at, lemma_scalar_index, scalar_at, scalar_char, scalar_index, Decomposition,
    NUM_SCALARS,
};
use vstd::prelude::*;

verus! {

/// A character and one of its decompositions.
pub type Entry = (char, Seq<char>);

/// The number a quick-check answer is written as: 0 for Yes, 1 for No and 2
/// for Maybe.
pub open spec fn quick_value(r: QuickCheck) -> u8 {
    match r {
        QuickCheck::Yes => 0,
        QuickCheck::No => 1,
        QuickCheck::Maybe => 2,
    }
}

/// The number a quick-check answer is written as.
pub fn qc(r: QuickCheck) -> (v: u8)
    ensures
        v == quick_value(r),
{
    match r {
        QuickCheck::Yes => 0,
        QuickCheck::No => 1,
        QuickCheck::Maybe => 2,
    }
}

/// The number of characters in the decompositions of the first `n` entries.
pub open spec fn total_len(e: Seq<Entry>, n: nat) -> nat
    decreases n,
{
    if n == 0 || n > e.len() {
        0
    } else {
        total_len(e, (n - 1) as nat) + e[n - 1].1.len()
    }
}

/// The characters `d` as code points of 4 digits each.
pub open spec fn code_points(d: Seq<char>) -> Seq<char>
    decreases d.len(),
{
    if d.len() == 0 {
        Seq::empty()
    } else {
        code_points(d.drop_last()) + base64_digits(d.last() as u32 as nat, 4)
    }
}

/// The index record of entry `i`: its code point, where its decomposition
/// starts in the data (in digits) and how many characters it has.
pub open spec fn index_record(e: Seq<Entry>, i: int) -> Seq<char> {
    base64_digits(e[i].0 as u32 as nat, 4) + base64_digits(4 * total_len(e, i as nat), 3)
        + base64_digits(e[i].1.len(), 1)
}

/// The index of the first `n` entries.
pub open spec fn table_index(e: Seq<Entry>, n: nat) -> Seq<char>
    decreases n,
{
    if n == 0 || n > e.len() {
        Seq::empty()
    } else {
        table_index(e, (n - 1) as nat) + index_record(e, n - 1)
    }
}

/// The data of the first `n` entries: their decompositions one after another.
pub open spec fn table_data(e: Seq<Entry>, n: nat) -> Seq<char>
    decreases n,
{
    if n == 0 || n > e.len() {
        Seq::empty()
    } else {
        table_data(e, (n - 1) as nat) + code_points(e[n - 1].1)
    }
}

/// Whether every record's fields fit their digits: a decomposition has fewer
/// than 64 characters and starts before digit 64^3 of the data.
pub open spec fn table_fits(e: Seq<Entry>) -> bool {
    forall|i: int|
        0 <= i < e.len() ==> (#[trigger] e[i]).1.len() < 64 && 4 * total_len(e, i as nat) < pow64(3)
}

pub(crate) proof fn lemma_pow64_values()
    ensures
        pow64(1) == 64,
        pow64(2) == 4096,
        pow64(3) == 262144,
        pow64(4) == 16777216,
{
    reveal_with_fuel(pow64, 5);
}

/// Appends the characters `d` as code points of 4 digits each.
fn push_code_points(out: &mut String, d: &Vec<char>)
    ensures
        final(out)@ == old(out)@ + code_points(d@),
{
    proof {
        lemma_pow64_values();
    }
    let ghost start = out@;
    let mut j: usize = 0;
    while j < d.len()
        invariant
            j <= d@.len(),
            pow64(4) == 16777216,
            out@ == start + code_points(d@.take(j as int)),
        decreases d@.len() - j,
    {
        let x = d[j];
        proof {
            vstd::utf8::char_is_scalar(x);
        }
        let ghost before = out@;
        digits(out, x as u32 as u64, 4);
        proof {
            assert(d@.take(j + 1).drop_last() =~= d@.take(j as int));
            assert(d@.take(j + 1).last() == x);
            assert(code_points(d@.take(j + 1)) == code_points(d@.take(j as int)) + base64_digits(x as u32 as nat, 4));
            assert(out@ =~= start + code_points(d@.take(j + 1)));
        }
        j = j + 1;
    }
    assert(d@.take(d@.len() as int) =~= d@);
}

/// A decomposition table: an index of `cp start length` records (4, 3 and 1
/// digits), in the order of the entries, into a string of code points (4
/// digits each).
#[verifier::rlimit(40)]
pub fn decomposition_table(map: &Vec<(char, Vec<char>)>) -> (r: (String, String))
    requires
        table_fits(map.deep_view()),
    ensures
        r.0@ == table_index(map.deep_view(), map.deep_view().len()),
        r.1@ == table_data(map.deep_view(), map.deep_view().len()),
{
    let ghost e = map.deep_view();
    proof {
        lemma_pow64_values();
    }
    let mut index = String::new();
    let mut data = String::new();
    let mut at: u64 = 0;
    let mut i: usize = 0;
    while i < map.len()
        invariant
            e == map.deep_view(),
            table_fits(e),
            i <= e.len(),
            pow64(1) == 64 && pow64(3) == 262144 && pow64(4) == 16777216,
            at == 4 * total_len(e, i as nat),
            index@ == table_index(e, i as nat),
            data@ == table_data(e, i as nat),
        decreases e.len() - i,
    {
        let c = map[i].0;
        let d = &map[i].1;
        assert(e[i as int].1 == d@);
        assert(e[i as int].0 == c);
        assert(d@.len() < 64 && 4 * total_len(e, i as nat) < 262144);
        proof {
            vstd::utf8::char_is_scalar(c);
        }
        let ghost before = index@;
        digits(&mut index, c as u32 as u64, 4);
        digits(&mut index, at, 3);
        digits(&mut index, d.len() as u64, 1);
        push_code_points(&mut data, d);
        at = at + 4 * d.len() as u64;
        proof {
            assert(index@ =~= before + index_record(e, i as int));
            assert(table_index(e, (i + 1) as nat) == table_index(e, i as nat) + index_record(e, i as int));
            assert(index@ =~= table_index(e, (i + 1) as nat));
            assert(total_len(e, (i + 1) as nat) == total_len(e, i as nat) + d@.len());
        }
        i = i + 1;
    }
    (index, data)
}

proof fn lemma_digits_len(v: nat, n: nat)
    ensures
        base64_digits(v, n).len() == n,
    decreases n,
{
    if n > 0 {
        lemma_digits_len(v / 64, (n - 1) as nat);
    }
}

proof fn lemma_code_points(d: Seq<char>)
    ensures
        code_points(d).len() == 4 * d.len(),
        forall|j: int|
            0 <= j < d.len() ==> #[trigger] code_points(d).subrange(4 * j, 4 * j + 4) == base64_digits(
                d[j] as u32 as nat,
                4,
            ),
    decreases d.len(),
{
    if d.len() > 0 {
        let p = d.drop_last();
        lemma_code_points(p);
        lemma_digits_len(d.last() as u32 as nat, 4);
        let c = code_points(d);
        assert forall|j: int| 0 <= j < d.len() implies #[trigger] c.subrange(4 * j, 4 * j + 4)
            == base64_digits(d[j] as u32 as nat, 4) by {
            if j < p.len() {
                assert(c.subrange(4 * j, 4 * j + 4) =~= code_points(p).subrange(4 * j, 4 * j + 4));
                assert(p[j] == d[j]);
            } else {
                assert(c.subrange(4 * j, 4 * j + 4) =~= base64_digits(d.last() as u32 as nat, 4));
            }
        }
    }
}

proof fn lemma_table_prefix(e: Seq<Entry>, m: nat, n: nat)
    requires
        m <= n <= e.len(),
    ensures
        table_index(e, n).len() == 8 * n,
        table_index(e, n).subrange(0, (8 * m) as int) == table_index(e, m),
        table_data(e, n).len() == 4 * total_len(e, n),
        table_data(e, n).subrange(0, (4 * total_len(e, m)) as int) == table_data(e, m),
        total_len(e, m) <= total_len(e, n),
    decreases n,
{
    if n > 0 {
        if m < n {
            lemma_table_prefix(e, m, (n - 1) as nat);
        }
        lemma_table_prefix(e, (n - 1) as nat, (n - 1) as nat);
        let i = n - 1;
        lemma_digits_len(e[i].0 as u32 as nat, 4);
        lemma_digits_len(4 * total_len(e, i as nat), 3);
        lemma_digits_len(e[i].1.len(), 1);
        lemma_code_points(e[i].1);
        if m < n {
            assert(table_index(e, n).subrange(0, (8 * m) as int) =~= table_index(e, (n - 1) as nat).subrange(0, (8 * m) as int));
            assert(table_data(e, n).subrange(0, (4 * total_len(e, m)) as int) =~= table_data(e, (n - 1) as nat).subrange(0, (4 * total_len(e, m)) as int));
        } else {
            assert(table_index(e, n).subrange(0, (8 * m) as int) =~= table_index(e, n));
            assert(table_data(e, n).subrange(0, (4 * total_len(e, m)) as int) =~= table_data(e, n));
        }
    } else {
        assert(table_index(e, n).subrange(0, 0) =~= table_index(e, 0));
        assert(table_data(e, n).subrange(0, 0) =~= table_data(e, 0));
    }
}

/// A decomposition table is read in place: record `i` of the index is the
/// eight digits from `8 * i`, and holds the entry's code point, where its
/// decomposition starts in the data and how many characters it has; the data
/// there holds the decomposition's code points, four digits each.
#[verifier::spinoff_prover]
#[verifier::rlimit(40)]
pub proof fn law_decomposition_lookup(e: Seq<Entry>, i: int)
    requires
        table_fits(e),
        0 <= i < e.len(),
    ensures
        ({
            let index = table_index(e, e.len());
            let data = table_data(e, e.len());
            let record = index.subrange(8 * i, 8 * i + 8);
            let start = digits_value(record.subrange(4, 7));
            let len = digits_value(record.subrange(7, 8));
            &&& index.len() == 8 * e.len()
            &&& digits_value(record.subrange(0, 4)) == e[i].0 as u32
            &&& start == 4 * total_len(e, i as nat)
            &&& len == e[i].1.len()
            &&& start + 4 * len <= data.len()
            &&& forall|j: int|
                0 <= j < len ==> digits_value(#[trigger] data.subrange(start + 4 * j, start + 4 * j + 4))
                    == e[i].1[j] as u32
        }),
{
    let n = e.len();
    let index = table_index(e, n);
    let data = table_data(e, n);
    lemma_table_prefix(e, (i + 1) as nat, n);
    lemma_table_prefix(e, i as nat, (i + 1) as nat);
    lemma_pow64_values();
    let cp = e[i].0 as u32 as nat;
    let start = 4 * total_len(e, i as nat);
    let len = e[i].1.len();
    vstd::utf8::char_is_scalar(e[i].0);
    law_digits_roundtrip(cp, 4);
    law_digits_roundtrip(start, 3);
    law_digits_roundtrip(len, 1);
    let record = index.subrange(8 * i, 8 * i + 8);
    assert(record =~= index_record(e, i)) by {
        assert(index.subrange(0, 8 * (i + 1)) == table_index(e, (i + 1) as nat));
        assert(table_index(e, (i + 1) as nat) == table_index(e, i as nat) + index_record(e, i));
        assert forall|k: int| 0 <= k < 8 implies #[trigger] record[k] == index_record(e, i)[k] by {
            assert(record[k] == index.subrange(0, 8 * (i + 1))[8 * i + k]);
        }
    }
    assert(record.subrange(0, 4) =~= base64_digits(cp, 4));
    assert(record.subrange(4, 7) =~= base64_digits(start, 3));
    assert(record.subrange(7, 8) =~= base64_digits(len, 1));
    lemma_code_points(e[i].1);
    let cps = code_points(e[i].1);
    assert(total_len(e, (i + 1) as nat) == total_len(e, i as nat) + len);
    assert(data.subrange(0, (4 * total_len(e, (i + 1) as nat)) as int) == table_data(e, (i + 1) as nat));
    assert(table_data(e, (i + 1) as nat) == table_data(e, i as nat) + cps);
    assert forall|j: int| 0 <= j < len implies digits_value(#[trigger] data.subrange(start + 4 * j, start + 4 * j + 4))
        == e[i].1[j] as u32 by {
        assert(data.subrange(start + 4 * j, start + 4 * j + 4) =~= cps.subrange(4 * j, 4 * j + 4)) by {
            assert forall|k: int| 0 <= k < 4 implies #[trigger] data.subrange(start + 4 * j, start + 4 * j + 4)[k] == cps.subrange(4 * j, 4 * j + 4)[k] by {
                assert(data[start + 4 * j + k] == data.subrange(0, (4 * total_len(e, (i + 1) as nat)) as int)[start + 4 * j + k]);
            }
        }
        vstd::utf8::char_is_scalar(e[i].1[j]);
        law_digits_roundtrip(e[i].1[j] as u32 as nat, 4);
    }
}

/// The records `lo hi value` (4, 4 and `width` digits) of the runs.
pub open spec fn value_records(r: Seq<Run>, width: nat, n: nat) -> Seq<char>
    decreases n,
{
    if n == 0 || n > r.len() {
        Seq::empty()
    } else {
        value_records(r, width, (n - 1) as nat) + base64_digits(r[n - 1].0 as nat, 4)
            + base64_digits(r[n - 1].1 as nat, 4) + base64_digits(r[n - 1].2 as nat, width)
    }
}

/// The records `lo hi` (4 digits each) of the runs.
pub open spec fn range_records(r: Seq<Run>, n: nat) -> Seq<char>
    decreases n,
{
    if n == 0 || n > r.len() {
        Seq::empty()
    } else {
        range_records(r, (n - 1) as nat) + base64_digits(r[n - 1].0 as nat, 4)
            + base64_digits(r[n - 1].1 as nat, 4)
    }
}

/// Whether the runs' code points fit 4 digits and their values `width`.
pub open spec fn runs_fit(r: Seq<Run>, width: nat) -> bool {
    forall|a: int|
        0 <= a < r.len() ==> (#[trigger] r[a]).1 <= 0x10FFFF && r[a].0 <= r[a].1 && (r[a].2
            as nat) < pow64(width)
}

/// A table of runs with their values: `lo hi value` records.
pub fn value_table(runs: &Vec<Run>, width: u32) -> (s: String)
    requires
        width <= 10,
        runs_fit(runs@, width as nat),
    ensures
        s@ == value_records(runs@, width as nat, runs@.len()),
{
    proof {
        lemma_pow64_values();
    }
    let mut s = String::new();
    let mut i: usize = 0;
    while i < runs.len()
        invariant
            i <= runs@.len(),
            width <= 10,
            runs_fit(runs@, width as nat),
            pow64(4) == 16777216,
            s@ == value_records(runs@, width as nat, i as nat),
        decreases runs@.len() - i,
    {
        let (lo, hi, v) = runs[i];
        assert(runs@[i as int].1 <= 0x10FFFF);
        digits(&mut s, lo as u64, 4);
        digits(&mut s, hi as u64, 4);
        digits(&mut s, v as u64, width);
        proof {
            assert(s@ =~= value_records(runs@, width as nat, (i + 1) as nat));
        }
        i = i + 1;
    }
    s
}

/// A table of runs without their values: `lo hi` records.
pub fn range_table(runs: &Vec<Run>) -> (s: String)
    requires
        runs_fit(runs@, 1),
    ensures
        s@ == range_records(runs@, runs@.len()),
{
    proof {
        lemma_pow64_values();
    }
    let mut s = String::new();
    let mut i: usize = 0;
    while i < runs.len()
        invariant
            i <= runs@.len(),
            runs_fit(runs@, 1),
            pow64(4) == 16777216,
            s@ == range_records(runs@, i as nat),
        decreases runs@.len() - i,
    {
        let (lo, hi, _) = runs[i];
        assert(runs@[i as int].1 <= 0x10FFFF);
        digits(&mut s, lo as u64, 4);
        digits(&mut s, hi as u64, 4);
        proof {
            assert(s@ =~= range_records(runs@, (i + 1) as nat));
        }
        i = i + 1;
    }
    s
}

/// Whether the tables hold `c`'s decompositions: ASCII and the Hangul
/// syllables decompose by rule, not by table.
pub open spec fn is_tabled(c: char) -> bool {
    c as u32 > 0x7f && !spec_is_hangul_syllable(c)
}

/// Whether the table of decompositions of kind `kind` holds `c`: its canonical
/// and its variant decomposition where they are not `c` itself, and its
/// compatibility decomposition where it differs from the canonical one.
pub open spec fn kept(kind: Decomposition, c: char) -> bool {
    is_tabled(c) && match kind {
        Decomposition::Canonical => canonical_decomposition(c) != seq![c],
        Decomposition::Compatible => compatibility_decomposition(c) != canonical_decomposition(c),
        Decomposition::CjkVariant => variant_decomposition(c) != seq![c],
    }
}

/// The entries of kind `kind` among the first `n` characters, in order.
pub open spec fn entries_upto(kind: Decomposition, n: nat) -> Seq<Entry>
    decreases n,
{
    if n == 0 {
        Seq::empty()
    } else {
        let prev = entries_upto(kind, (n - 1) as nat);
        let c = scalar_char(n - 1);
        if kept(kind, c) {
            prev.push((c, decomposition_of(kind, c)))
        } else {
            prev
        }
    }
}

/// The table of decompositions of kind `kind`, in the order of the characters.
pub open spec fn table_entries(kind: Decomposition) -> Seq<Entry> {
    entries_upto(kind, NUM_SCALARS as nat)
}

proof fn lemma_entries_upto(kind: Decomposition, n: nat)
    requires
        n <= NUM_SCALARS,
    ensures
        forall|i: int, j: int|
            0 <= i < j < entries_upto(kind, n).len() ==> ((#[trigger] entries_upto(kind, n)[i]).0 as u32)
                < ((#[trigger] entries_upto(kind, n)[j]).0 as u32),
        forall|i: int|
            0 <= i < entries_upto(kind, n).len() ==> {
                let x = #[trigger] entries_upto(kind, n)[i];
                &&& kept(kind, x.0)
                &&& x.1 == decomposition_of(kind, x.0)
                &&& scalar_index(x.0) < n
                &&& (x.0 as u32) <= scalar_at(n - 1)
            },
        forall|k: int|
            0 <= k < n && kept(kind, #[trigger] scalar_char(k)) ==> exists|i: int|
                0 <= i < entries_upto(kind, n).len() && (#[trigger] entries_upto(kind, n)[i]).0
                    == scalar_char(k),
    decreases n,
{
    if n > 0 {
        let n1 = (n - 1) as nat;
        lemma_entries_upto(kind, n1);
        lemma_scalar_at(n1 as int);
        if n1 > 0 {
            lemma_scalar_at(n1 - 1);
        }
        let prev = entries_upto(kind, n1);
        let e = entries_upto(kind, n);
        let c = scalar_char(n1 as int);
        assert forall|i: int| 0 <= i < prev.len() implies (#[trigger] prev[i]).0 as u32 <= scalar_at(n1 - 1)
            && scalar_index(prev[i].0) < n1 by {}
        if kept(kind, c) {
            assert(e == prev.push((c, decomposition_of(kind, c))));
            assert forall|k: int| 0 <= k < n && kept(kind, #[trigger] scalar_char(k)) implies exists|i: int|
                0 <= i < e.len() && (#[trigger] e[i]).0 == scalar_char(k) by {
                if k == n1 {
                    assert(e[prev.len() as int].0 == scalar_char(k));
                } else {
                    let i = choose|i: int| 0 <= i < prev.len() && (#[trigger] prev[i]).0 == scalar_char(k);
                    assert(e[i] == prev[i]);
                }
            }
            assert forall|i: int| 0 <= i < e.len() implies {
                let x = #[trigger] e[i];
                &&& kept(kind, x.0)
                &&& x.1 == decomposition_of(kind, x.0)
                &&& scalar_index(x.0) < n
                &&& (x.0 as u32) <= scalar_at(n - 1)
            } by {
                if i < prev.len() {
                    assert(e[i] == prev[i]);
                }
            }
            assert forall|i: int, j: int| 0 <= i < j < e.len() implies ((#[trigger] e[i]).0 as u32)
                < ((#[trigger] e[j]).0 as u32) by {
                assert(e[i] == prev[i]);
                if j < prev.len() {
                    assert(e[j] == prev[j]);
                }
            }
        } else {
            assert(e == prev);
            assert forall|k: int| 0 <= k < n && kept(kind, #[trigger] scalar_char(k)) implies exists|i: int|
                0 <= i < e.len() && (#[trigger] e[i]).0 == scalar_char(k) by {
                if k < n1 {
                    let i = choose|i: int| 0 <= i < prev.len() && (#[trigger] prev[i]).0 == scalar_char(k);
                    assert(e[i] == prev[i]);
                }
            }
        }
    }
}

/// Each decomposition table lists its characters in increasing order, each
/// once, with the decomposition of the table's kind; and it lists exactly
/// the characters that the table keeps.
pub proof fn law_table_entries_sorted(kind: Decomposition)
    ensures
        forall|i: int, j: int|
            0 <= i < j < table_entries(kind).len() ==> ((#[trigger] table_entries(kind)[i]).0 as u32)
                < ((#[trigger] table_entries(kind)[j]).0 as u32),
        forall|i: int|
            0 <= i < table_entries(kind).len() ==> kept(kind, (#[trigger] table_entries(kind)[i]).0)
                && table_entries(kind)[i].1 == decomposition_of(kind, table_entries(kind)[i].0),
        forall|c: char|
            kept(kind, c) <==> exists|i: int|
                0 <= i < table_entries(kind).len() && (#[trigger] table_entries(kind)[i]).0 == c,
{
    lemma_entries_upto(kind, NUM_SCALARS as nat);
    let e = table_entries(kind);
    assert forall|c: char| kept(kind, c) implies exists|i: int|
        0 <= i < e.len() && (#[trigger] e[i]).0 == c by {
        lemma_scalar_index(c);
        assert(kept(kind, scalar_char(scalar_index(c))));
    }
}

/// The code point that record `i` of the index of `e` holds.
pub open spec fn index_key(e: Seq<Entry>, i: int) -> int {
    digits_value(table_index(e, e.len()).subrange(8 * i, 8 * i + 4))
}

proof fn lemma_index_key(e: Seq<Entry>, i: int)
    requires
        table_fits(e),
        0 <= i < e.len(),
    ensures
        index_key(e, i) == e[i].0 as u32,
{
    law_decomposition_lookup(e, i);
    let index = table_index(e, e.len());
    assert(index.subrange(8 * i, 8 * i + 8).subrange(0, 4) =~= index.subrange(8 * i, 8 * i + 4));
}

/// Read in place, the code points of a decomposition table's index strictly
/// ascend, so a lookup can search it by halves.
pub proof fn law_table_index_ascending(kind: Decomposition)
    requires
        table_fits(table_entries(kind)),
    ensures
        forall|i: int, j: int|
            0 <= i < j < table_entries(kind).len() ==> #[trigger] index_key(table_entries(kind), i)
                < #[trigger] index_key(table_entries(kind), j),
{
    let e = table_entries(kind);
    law_table_entries_sorted(kind);
    assert forall|i: int, j: int| 0 <= i < j < e.len() implies #[trigger] index_key(e, i) < #[trigger] index_key(e, j) by {
        lemma_index_key(e, i);
        lemma_index_key(e, j);
    }
}

/// Whether two strings of characters are equal.
pub fn same_chars(a: &Vec<char>, b: &Vec<char>) -> (r: bool)
    ensures
        r == (a@ == b@),
{
    if a.len() != b.len() {
        return false;
    }
    let mut i: usize = 0;
    while i < a.len()
        invariant
            i <= a@.len(),
            a@.len() == b@.len(),
            forall|j: int| 0 <= j < i ==> a@[j] == b@[j],
        decreases a@.len() - i,
    {
        if a[i] != b[i] {
            return false;
        }
        i = i + 1;
    }
    assert(a@ =~= b@);
    true
}

/// Whether `d` is the one character `c`.
pub(crate) fn is_only(d: &Vec<char>, c: char) -> (r: bool)
    ensures
        r == (d@ == seq![c]),
{
    let r = d.len() == 1 && d[0] == c;
    proof {
        if d@.len() == 1 && d@[0] == c {
            assert(d@ =~= seq![c]);
        }
    }
    r
}

/// The three decomposition tables: canonical, compatibility (where it
/// differs from the canonical one) and CJK variant, each in the order of the
/// characters.
pub fn decomposition_maps() -> (r: (Vec<(char, Vec<char>)>, Vec<(char, Vec<char>)>, Vec<(char, Vec<char>)>))
    ensures
        r.0.deep_view() == table_entries(Decomposition::Canonical),
        r.1.deep_view() == table_entries(Decomposition::Compatible),
        r.2.deep_view() == table_entries(Decomposition::CjkVariant),
{
    let all = chars();
    let mut canon: Vec<(char, Vec<char>)> = Vec::new();
    let mut compat: Vec<(char, Vec<char>)> = Vec::new();
    let mut variants: Vec<(char, Vec<char>)> = Vec::new();
    let mut i: usize = 0;
    while i < NUM_SCALARS
        invariant
            i <= NUM_SCALARS,
            all@ == all_scalars(),
            canon.deep_view() == entries_upto(Decomposition::Canonical, i as nat),
            compat.deep_view() == entries_upto(Decomposition::Compatible, i as nat),
            variants.deep_view() == entries_upto(Decomposition::CjkVariant, i as nat),
        decreases NUM_SCALARS - i,
    {
        let c = all[i];
        assert(c == scalar_char(i as int));
        if c > '\x7f' && !is_hangul_syllable(c) {
            let d = canonical(c);
            let k = compatible(c);
            let v = cjk_variant(c);
            let keep_canon = !is_only(&d, c);
            let keep_compat = !same_chars(&k, &d);
            let keep_variant = !is_only(&v, c);
            proof {
                lemma_chars_deep_view_is_view(d);
                lemma_chars_deep_view_is_view(k);
                lemma_chars_deep_view_is_view(v);
            }
            if keep_canon {
                let ghost before = canon.deep_view();
                canon.push((c, d));
                assert(canon.deep_view() =~= before.push((c, canonical_decomposition(c))));
            }
            if keep_compat {
                let ghost before = compat.deep_view();
                compat.push((c, k));
                assert(compat.deep_view() =~= before.push((c, compatibility_decomposition(c))));
            }
            if keep_variant {
                let ghost before = variants.deep_view();
                variants.push((c, v));
                assert(variants.deep_view() =~= before.push((c, variant_decomposition(c))));
            }
        }
        i = i + 1;
    }
    (canon, compat, variants)
}

/// The characters that take part in the first `n` canonical decompositions:
/// each decomposed character, then what it decomposes to.
pub open spec fn part_chars(e: Seq<Entry>, n: nat) -> Seq<char>
    decreases n,
{
    if n == 0 || n > e.len() {
        Seq::empty()
    } else {
        part_chars(e, (n - 1) as nat) + seq![e[n - 1].0] + e[n - 1].1
    }
}

/// Whether `c` takes part in a canonical decomposition of `e`.
pub open spec fn in_parts(e: Seq<Entry>, c: char) -> bool {
    part_chars(e, e.len()).contains(c)
}

/// The characters among the first `n` that take part in a decomposition of
/// `e`, in increasing order and each once.
pub open spec fn parts_upto(e: Seq<Entry>, n: nat) -> Seq<char>
    decreases n,
{
    if n == 0 {
        Seq::empty()
    } else {
        let prev = parts_upto(e, (n - 1) as nat);
        if in_parts(e, scalar_char(n - 1)) {
            prev.push(scalar_char(n - 1))
        } else {
            prev
        }
    }
}

/// Every character that takes part in a decomposition of `e`, in increasing
/// order and each once.
pub open spec fn parts_of(e: Seq<Entry>) -> Seq<char> {
    parts_upto(e, NUM_SCALARS as nat)
}

/// The characters that take part in the decompositions, one after another.
fn flat_parts(map: &Vec<(char, Vec<char>)>) -> (p: Vec<char>)
    ensures
        p@ == part_chars(map.deep_view(), map.deep_view().len()),
{
    let ghost e = map.deep_view();
    let mut p: Vec<char> = Vec::new();
    let mut i: usize = 0;
    while i < map.len()
        invariant
            e == map.deep_view(),
            i <= e.len(),
            p@ == part_chars(e, i as nat),
        decreases e.len() - i,
    {
        let ghost before = p@;
        p.push(map[i].0);
        let d = &map[i].1;
        proof {
            lemma_chars_deep_view_is_view(*d);
            assert(e[i as int] == (map@[i as int].0, d@));
        }
        let mut j: usize = 0;
        while j < d.len()
            invariant
                j <= d@.len(),
                p@ == before + seq![e[i as int].0] + d@.take(j as int),
            decreases d@.len() - j,
        {
            p.push(d[j]);
            proof {
                assert(d@.take(j + 1) =~= d@.take(j as int).push(d@[j as int]));
                assert(p@ =~= before + seq![e[i as int].0] + d@.take(j + 1));
            }
            j = j + 1;
        }
        proof {
            assert(d@.take(d@.len() as int) =~= d@);
            assert(p@ =~= part_chars(e, (i + 1) as nat));
        }
        i = i + 1;
    }
    p
}

/// Every character that takes part in a canonical decomposition: a
/// decomposed character or one it decomposes to, in increasing order and each
/// once.
pub fn composition_parts(canon: &Vec<(char, Vec<char>)>) -> (p: Vec<char>)
    ensures
        p@ == parts_of(canon.deep_view()),
{
    let ghost e = canon.deep_view();
    let flat = flat_parts(canon);
    let mut mark: Vec<bool> = vec![false; 0x11_0000];
    let mut k: usize = 0;
    while k < flat.len()
        invariant
            k <= flat@.len(),
            mark@.len() == 0x11_0000,
            forall|cp: int|
                0 <= cp < 0x11_0000 ==> #[trigger] mark@[cp] == exists|q: int|
                    0 <= q < k && flat@[q] as u32 == cp,
        decreases flat@.len() - k,
    {
        let x = flat[k];
        proof {
            vstd::utf8::char_is_scalar(x);
        }
        mark.set(x as u32 as usize, true);
        proof {
            assert forall|cp: int| 0 <= cp < 0x11_0000 implies #[trigger] mark@[cp] == exists|q: int|
                0 <= q < k + 1 && flat@[q] as u32 == cp by {
                if cp == x as u32 {
                    assert(flat@[k as int] as u32 == cp);
                }
            }
        }
        k = k + 1;
    }
    let all = chars();
    let mut p: Vec<char> = Vec::new();
    let mut i: usize = 0;
    while i < NUM_SCALARS
        invariant
            i <= NUM_SCALARS,
            all@ == all_scalars(),
            e == canon.deep_view(),
            flat@ == part_chars(e, e.len()),
            mark@.len() == 0x11_0000,
            forall|cp: int|
                0 <= cp < 0x11_0000 ==> #[trigger] mark@[cp] == exists|q: int|
                    0 <= q < flat@.len() && flat@[q] as u32 == cp,
            p@ == parts_upto(e, i as nat),
        decreases NUM_SCALARS - i,
    {
        let c = all[i];
        proof {
            vstd::utf8::char_is_scalar(c);
            assert(c == scalar_char(i as int));
        }
        let m = mark[c as u32 as usize];
        proof {
            let cp = c as u32 as int;
            assert(m == exists|q: int| 0 <= q < flat@.len() && flat@[q] as u32 == cp);
            if m {
                let q = choose|q: int| 0 <= q < flat@.len() && flat@[q] as u32 == cp;
                vstd::utf8::char_u32_cast(flat@[q], flat@[q] as u32);
                vstd::utf8::char_u32_cast(c, c as u32);
                assert(flat@[q] == c);
                assert(flat@.contains(c));
            }
            if flat@.contains(c) {
                let q = choose|q: int| 0 <= q < flat@.len() && flat@[q] == c;
                assert(flat@[q] as u32 == cp);
            }
            assert(m == in_parts(e, c));
        }
        if m {
            p.push(c);
        }
        i = i + 1;
    }
    p
}

/// The composites of `a` with the first `n` of `p`: `(a, b, composite)` for
/// each `b` that `a` composes with.
pub open spec fn composite_row(a: char, p: Seq<char>, n: nat) -> Seq<(char, char, char)>
    decreases n,
{
    if n == 0 || n > p.len() {
        Seq::empty()
    } else {
        let prev = composite_row(a, p, (n - 1) as nat);
        match composition(a, p[n - 1]) {
            Some(c) => prev.push((a, p[n - 1], c)),
            None => prev,
        }
    }
}

/// The composites of the first `m` characters of `p` with each of `p`.
pub open spec fn composites_upto(p: Seq<char>, m: nat) -> Seq<(char, char, char)>
    decreases m,
{
    if m == 0 || m > p.len() {
        Seq::empty()
    } else {
        composites_upto(p, (m - 1) as nat) + composite_row(p[m - 1], p, p.len())
    }
}

/// The primary composites: every pair of `parts` that composes, with its
/// composite, trying each character against every other in order.
pub fn composites(parts: &Vec<char>) -> (r: Vec<(char, char, char)>)
    ensures
        r@ == composites_upto(parts@, parts@.len()),
{
    let mut r: Vec<(char, char, char)> = Vec::new();
    let mut i: usize = 0;
    while i < parts.len()
        invariant
            i <= parts@.len(),
            r@ == composites_upto(parts@, i as nat),
        decreases parts@.len() - i,
    {
        let a = parts[i];
        let ghost before = r@;
        let mut j: usize = 0;
        while j < parts.len()
            invariant
                i < parts@.len(),
                a == parts@[i as int],
                j <= parts@.len(),
                r@ == before + composite_row(a, parts@, j as nat),
            decreases parts@.len() - j,
        {
            let b = parts[j];
            if let Some(c) = compose_pair(a, b) {
                r.push((a, b, c));
            }
            proof {
                assert(r@ =~= before + composite_row(a, parts@, (j + 1) as nat));
            }
            j = j + 1;
        }
        i = i + 1;
    }
    r
}

/// The records `first second composite` (4 digits each) of the first `n`
/// composites.
pub open spec fn composite_records(r: Seq<(char, char, char)>, n: nat) -> Seq<char>
    decreases n,
{
    if n == 0 || n > r.len() {
        Seq::empty()
    } else {
        composite_records(r, (n - 1) as nat) + base64_digits(r[n - 1].0 as u32 as nat, 4)
            + base64_digits(r[n - 1].1 as u32 as nat, 4) + base64_digits(r[n - 1].2 as u32 as nat, 4)
    }
}

/// Whether the pair of `x` comes before that of `y`: by first code point, then
/// by second.
pub open spec fn pair_before(x: (char, char, char), y: (char, char, char)) -> bool {
    (x.0 as u32) < (y.0 as u32) || (x.0 == y.0 && (x.1 as u32) < (y.1 as u32))
}

/// Whether the characters of `p` are in increasing order, each once.
pub open spec fn increasing_chars(p: Seq<char>) -> bool {
    forall|i: int, j: int| 0 <= i < j < p.len() ==> ((#[trigger] p[i]) as u32) < ((#[trigger] p[j]) as u32)
}

proof fn lemma_parts_increasing(e: Seq<Entry>, n: nat)
    requires
        n <= NUM_SCALARS,
    ensures
        increasing_chars(parts_upto(e, n)),
        forall|a: int|
            0 <= a < parts_upto(e, n).len() ==> n > 0 && ((#[trigger] parts_upto(e, n)[a]) as u32)
                <= scalar_at(n - 1),
    decreases n,
{
    if n > 0 {
        lemma_parts_increasing(e, (n - 1) as nat);
        lemma_scalar_at(n - 1);
        if n > 1 {
            lemma_scalar_at(n - 2);
        }
    }
}

proof fn lemma_row_ordered(a: char, p: Seq<char>, n: nat)
    requires
        increasing_chars(p),
        n <= p.len(),
    ensures
        forall|x: int| 0 <= x < composite_row(a, p, n).len() ==> (#[trigger] composite_row(a, p, n)[x]).0 == a
            && composition(a, composite_row(a, p, n)[x].1) == Some(composite_row(a, p, n)[x].2),
        forall|x: int, y: int|
            0 <= x < y < composite_row(a, p, n).len() ==> ((#[trigger] composite_row(a, p, n)[x]).1 as u32)
                < ((#[trigger] composite_row(a, p, n)[y]).1 as u32),
        forall|x: int|
            0 <= x < composite_row(a, p, n).len() ==> n > 0 && ((#[trigger] composite_row(a, p, n)[x]).1
                as u32) <= (p[n - 1] as u32),
    decreases n,
{
    if n > 0 {
        lemma_row_ordered(a, p, (n - 1) as nat);
        if n > 1 {
            assert((p[n - 2] as u32) < (p[n - 1] as u32));
        }
    }
}

proof fn lemma_composites_ordered(p: Seq<char>, m: nat)
    requires
        increasing_chars(p),
        m <= p.len(),
    ensures
        forall|x: int, y: int|
            0 <= x < y < composites_upto(p, m).len() ==> pair_before(
                #[trigger] composites_upto(p, m)[x],
                #[trigger] composites_upto(p, m)[y],
            ),
        forall|x: int|
            0 <= x < composites_upto(p, m).len() ==> m > 0 && ((#[trigger] composites_upto(p, m)[x]).0
                as u32) <= (p[m - 1] as u32) && composition(composites_upto(p, m)[x].0, composites_upto(p, m)[x].1)
                == Some(composites_upto(p, m)[x].2),
    decreases m,
{
    if m > 0 {
        lemma_composites_ordered(p, (m - 1) as nat);
        let prev = composites_upto(p, (m - 1) as nat);
        let row = composite_row(p[m - 1], p, p.len());
        lemma_row_ordered(p[m - 1], p, p.len());
        let c = composites_upto(p, m);
        assert(c == prev + row);
        if m > 1 {
            assert((p[m - 2] as u32) < (p[m - 1] as u32));
        }
        assert forall|x: int, y: int| 0 <= x < y < c.len() implies pair_before(#[trigger] c[x], #[trigger] c[y]) by {
            if y < prev.len() {
                assert(c[x] == prev[x] && c[y] == prev[y]);
            } else if x < prev.len() {
                assert(c[x] == prev[x]);
                assert(c[y] == row[y - prev.len()]);
            } else {
                assert(c[x] == row[x - prev.len()]);
                assert(c[y] == row[y - prev.len()]);
            }
        }
        assert forall|x: int| 0 <= x < c.len() implies ((#[trigger] c[x]).0 as u32) <= (p[m - 1] as u32)
            && composition(c[x].0, c[x].1) == Some(c[x].2) by {
            if x < prev.len() {
                assert(c[x] == prev[x]);
            } else {
                assert(c[x] == row[x - prev.len()]);
            }
        }
    }
}

/// The composites are sorted by their first character, then their second,
/// each pair once, and each is what the crate composes the pair to.
pub proof fn law_composites_sorted()
    ensures
        forall|x: int, y: int|
            0 <= x < y < composites_spec().len() ==> pair_before(
                #[trigger] composites_spec()[x],
                #[trigger] composites_spec()[y],
            ),
        forall|x: int|
            0 <= x < composites_spec().len() ==> composition(
                (#[trigger] composites_spec()[x]).0,
                composites_spec()[x].1,
            ) == Some(composites_spec()[x].2),
{
    lemma_parts_increasing(table_entries(Decomposition::Canonical), NUM_SCALARS as nat);
    lemma_composites_ordered(parts_spec(), parts_spec().len());
}

/// The record of one composite: `first second composite`, 4 digits each.
spec fn composite_piece(x: (char, char, char)) -> Seq<char> {
    base64_digits(x.0 as u32 as nat, 4) + base64_digits(x.1 as u32 as nat, 4) + base64_digits(
        x.2 as u32 as nat,
        4,
    )
}

proof fn lemma_composite_records_joined(r: Seq<(char, char, char)>, n: nat)
    requires
        n <= r.len(),
    ensures
        composite_records(r, n) == joined(Seq::new(n, |i: int| composite_piece(r[i]))),
    decreases n,
{
    if n > 0 {
        lemma_composite_records_joined(r, (n - 1) as nat);
        let ps = Seq::new(n, |i: int| composite_piece(r[i]));
        assert(ps.drop_last() =~= Seq::new((n - 1) as nat, |i: int| composite_piece(r[i])));
        assert(composite_records(r, n) =~= joined(ps));
    }
}

/// Read back, the composites table gives for each record `i`, at offset
/// `12 * i`, a first character, a second and their composite: the crate
/// composes the two to the third, and the records ascend by first character
/// and then by second.
pub proof fn law_composite_table_read_back()
    ensures
        ({
            let r = composites_spec();
            let t = composite_records(r, r.len());
            &&& t.len() == 12 * r.len()
            &&& forall|i: int|
                0 <= i < r.len() ==> {
                    &&& #[trigger] field(t, 12 * i, 4) == r[i].0 as u32
                    &&& field(t, 12 * i + 4, 4) == r[i].1 as u32
                    &&& field(t, 12 * i + 8, 4) == r[i].2 as u32
                    &&& composition(r[i].0, r[i].1) == Some(r[i].2)
                }
            &&& forall|i: int, j: int|
                0 <= i < j < r.len() ==> #[trigger] field(t, 12 * i, 4) < #[trigger] field(t, 12 * j, 4)
                    || (field(t, 12 * i, 4) == field(t, 12 * j, 4) && field(t, 12 * i + 4, 4) < field(
                    t,
                    12 * j + 4,
                    4,
                ))
        }),
{
    let r = composites_spec();
    let t = composite_records(r, r.len());
    let ps = Seq::new(r.len(), |i: int| composite_piece(r[i]));
    lemma_composite_records_joined(r, r.len());
    law_composites_sorted();
    lemma_pow64_values();
    assert forall|i: int| 0 <= i < ps.len() implies (#[trigger] ps[i]).len() == 12 by {
        vstd::utf8::char_is_scalar(r[i].0);
        vstd::utf8::char_is_scalar(r[i].1);
        vstd::utf8::char_is_scalar(r[i].2);
        law_digits_roundtrip(r[i].0 as u32 as nat, 4);
        law_digits_roundtrip(r[i].1 as u32 as nat, 4);
        law_digits_roundtrip(r[i].2 as u32 as nat, 4);
    }
    lemma_joined_len(ps, 12);
    assert forall|i: int| 0 <= i < r.len() implies {
        &&& #[trigger] field(t, 12 * i, 4) == r[i].0 as u32
        &&& field(t, 12 * i + 4, 4) == r[i].1 as u32
        &&& field(t, 12 * i + 8, 4) == r[i].2 as u32
    } by {
        lemma_joined_chunk(ps, 12, i);
        let p = ps[i];
        vstd::utf8::char_is_scalar(r[i].0);
        vstd::utf8::char_is_scalar(r[i].1);
        vstd::utf8::char_is_scalar(r[i].2);
        law_digits_roundtrip(r[i].0 as u32 as nat, 4);
        law_digits_roundtrip(r[i].1 as u32 as nat, 4);
        law_digits_roundtrip(r[i].2 as u32 as nat, 4);
        assert(p.subrange(0, 4) =~= base64_digits(r[i].0 as u32 as nat, 4));
        assert(p.subrange(4, 8) =~= base64_digits(r[i].1 as u32 as nat, 4));
        assert(p.subrange(8, 12) =~= base64_digits(r[i].2 as u32 as nat, 4));
        lemma_field_in_piece(t, 12 * i, 12, p, 0, 4, r[i].0 as u32 as nat);
        lemma_field_in_piece(t, 12 * i, 12, p, 4, 4, r[i].1 as u32 as nat);
        lemma_field_in_piece(t, 12 * i, 12, p, 8, 4, r[i].2 as u32 as nat);
    }
    assert forall|i: int, j: int| 0 <= i < j < r.len() implies #[trigger] field(t, 12 * i, 4) < #[trigger] field(t, 12 * j, 4)
        || (field(t, 12 * i, 4) == field(t, 12 * j, 4) && field(t, 12 * i + 4, 4) < field(t, 12 * j + 4, 4)) by {
        assert(field(t, 12 * i, 4) == r[i].0 as u32);
        assert(field(t, 12 * j, 4) == r[j].0 as u32);
        assert(pair_before(r[i], r[j]));
    }
}

/// The table of composites: `first second composite` records.
pub fn composite_table(r: &Vec<(char, char, char)>) -> (s: String)
    ensures
        s@ == composite_records(r@, r@.len()),
{
    proof {
        lemma_pow64_values();
    }
    let mut s = String::new();
    let mut i: usize = 0;
    while i < r.len()
        invariant
            i <= r@.len(),
            pow64(4) == 16777216,
            s@ == composite_records(r@, i as nat),
        decreases r@.len() - i,
    {
        let (a, b, c) = r[i];
        proof {
            vstd::utf8::char_is_scalar(a);
            vstd::utf8::char_is_scalar(b);
            vstd::utf8::char_is_scalar(c);
        }
        digits(&mut s, a as u32 as u64, 4);
        digits(&mut s, b as u32 as u64, 4);
        digits(&mut s, c as u32 as u64, 4);
        proof {
            assert(s@ =~= composite_records(r@, (i + 1) as nat));
        }
        i = i + 1;
    }
    s
}

/// The number of non-starters (characters of a combining class other than 0)
/// at the start of `s` from index `j` on.
pub open spec fn lead_from(s: Seq<char>, j: nat) -> nat
    decreases s.len() - j,
{
    if j >= s.len() {
        0
    } else if combining_class_of(s[j as int]) != 0 {
        1 + lead_from(s, j + 1)
    } else {
        0
    }
}

/// The number of non-starters that `s` starts with.
pub open spec fn leading_nonstarters(s: Seq<char>) -> nat {
    lead_from(s, 0)
}

/// The number of non-starters at the end of the first `j` characters of `s`.
pub open spec fn trail_to(s: Seq<char>, j: nat) -> nat
    decreases j,
{
    if j == 0 || j > s.len() {
        0
    } else if combining_class_of(s[j - 1]) != 0 {
        1 + trail_to(s, (j - 1) as nat)
    } else {
        0
    }
}

/// The number of non-starters that `s` ends with.
pub open spec fn trailing_nonstarters(s: Seq<char>) -> nat {
    trail_to(s, s.len())
}

/// Whether `c` is in the canonical or the compatibility table, so that the
/// non-starters of its full decomposition are counted. For such a character
/// the full decomposition is the compatibility one, which is the canonical one
/// where the compatibility table has no entry.
pub open spec fn decomposes(c: char) -> bool {
    kept(Decomposition::Canonical, c) || kept(Decomposition::Compatible, c)
}

/// Whether `c` has a record in the non-starter table: it decomposes, and its
/// decomposition starts or ends with non-starters.
pub open spec fn has_nonstarter_record(c: char) -> bool {
    decomposes(c) && (leading_nonstarters(compatibility_decomposition(c)) > 0
        || trailing_nonstarters(compatibility_decomposition(c)) > 0)
}

/// The record `cp leading trailing` (4, 1 and 1 digits) of `c`.
pub open spec fn nonstarter_record(c: char) -> Seq<char> {
    base64_digits(c as u32 as nat, 4) + base64_digits(
        leading_nonstarters(compatibility_decomposition(c)),
        1,
    ) + base64_digits(trailing_nonstarters(compatibility_decomposition(c)), 1)
}

/// The non-starter records of the first `n` characters.
pub open spec fn nonstarter_records(n: nat) -> Seq<char>
    decreases n,
{
    if n == 0 {
        Seq::empty()
    } else {
        let prev = nonstarter_records((n - 1) as nat);
        let c = scalar_char(n - 1);
        if has_nonstarter_record(c) {
            prev + nonstarter_record(c)
        } else {
            prev
        }
    }
}

/// Whether the counts of the `i`-th character fit one digit each.
pub open spec fn nonstarter_counts_fit(i: int) -> bool {
    decomposes(scalar_char(i)) ==> leading_nonstarters(
        compatibility_decomposition(scalar_char(i)),
    ) < 64 && trailing_nonstarters(compatibility_decomposition(scalar_char(i))) < 64
}

/// Whether every decomposing character's counts fit one digit each.
pub open spec fn nonstarters_fit() -> bool {
    forall|i: int| 0 <= i < NUM_SCALARS ==> #[trigger] nonstarter_counts_fit(i)
}

proof fn lemma_lead_from(s: Seq<char>, j: nat)
    requires
        j <= s.len(),
    ensures
        j + lead_from(s, j) <= s.len(),
        forall|k: int| j <= k < j + lead_from(s, j) ==> combining_class_of(#[trigger] s[k]) != 0,
        j + lead_from(s, j) < s.len() ==> combining_class_of(s[(j + lead_from(s, j)) as int]) == 0,
    decreases s.len() - j,
{
    if j < s.len() && combining_class_of(s[j as int]) != 0 {
        lemma_lead_from(s, j + 1);
    }
}

proof fn lemma_trail_to(s: Seq<char>, j: nat)
    requires
        j <= s.len(),
    ensures
        trail_to(s, j) <= j,
        forall|k: int| j - trail_to(s, j) <= k < j ==> combining_class_of(#[trigger] s[k]) != 0,
        trail_to(s, j) < j ==> combining_class_of(s[j - 1 - trail_to(s, j)]) == 0,
    decreases j,
{
    if j > 0 && combining_class_of(s[j - 1]) != 0 {
        lemma_trail_to(s, (j - 1) as nat);
    }
}

/// The characters with a record in the non-starter table, in increasing order.
pub open spec fn nonstarter_chars() -> Seq<char> {
    chars_in(Set::new(|c: char| has_nonstarter_record(c)), NUM_SCALARS as nat)
}

proof fn lemma_nonstarter_records_joined(n: nat)
    requires
        n <= NUM_SCALARS,
    ensures
        nonstarter_records(n) == joined(
            chars_in(Set::new(|c: char| has_nonstarter_record(c)), n).map_values(
                |c: char| nonstarter_record(c),
            ),
        ),
    decreases n,
{
    if n > 0 {
        lemma_nonstarter_records_joined((n - 1) as nat);
        let set = Set::new(|c: char| has_nonstarter_record(c));
        let prev = chars_in(set, (n - 1) as nat);
        let c = scalar_char(n - 1);
        if has_nonstarter_record(c) {
            assert(chars_in(set, n) == prev.push(c));
            assert(prev.push(c).map_values(|c: char| nonstarter_record(c)) =~= prev.map_values(
                |c: char| nonstarter_record(c),
            ).push(nonstarter_record(c)));
            lemma_joined_push(prev.map_values(|c: char| nonstarter_record(c)), nonstarter_record(c));
        }
    }
}

/// Read back, the non-starter table has one record of six digits for each
/// character whose full decomposition starts or ends with non-starters, in
/// increasing order: its code point, then how many characters of class other
/// than 0 its decomposition starts with, then how many it ends with.
pub proof fn law_nonstarter_table_read_back()
    requires
        nonstarters_fit(),
    ensures
        ({
            let t = nonstarter_records(NUM_SCALARS as nat);
            let cs = nonstarter_chars();
            &&& t.len() == 6 * cs.len()
            &&& forall|c: char| #[trigger] cs.contains(c) <==> has_nonstarter_record(c)
            &&& forall|i: int, j: int| 0 <= i < j < cs.len() ==> (#[trigger] cs[i] as u32) < (#[trigger] cs[j] as u32)
            &&& forall|i: int|
                0 <= i < cs.len() ==> {
                    let c = #[trigger] cs[i];
                    let d = compatibility_decomposition(c);
                    let lead = field(t, 6 * i + 4, 1);
                    let trail = field(t, 6 * i + 5, 1);
                    &&& field(t, 6 * i, 4) == c as u32
                    &&& decomposes(c)
                    &&& lead > 0 || trail > 0
                    &&& 0 <= lead <= d.len()
                    &&& forall|k: int| 0 <= k < lead ==> combining_class_of(#[trigger] d[k]) != 0
                    &&& lead < d.len() ==> combining_class_of(d[lead]) == 0
                    &&& 0 <= trail <= d.len()
                    &&& forall|k: int| d.len() - trail <= k < d.len() ==> combining_class_of(#[trigger] d[k]) != 0
                    &&& trail < d.len() ==> combining_class_of(d[d.len() - 1 - trail]) == 0
                }
        }),
{
    let t = nonstarter_records(NUM_SCALARS as nat);
    let set = Set::new(|c: char| has_nonstarter_record(c));
    let cs = nonstarter_chars();
    let ps = cs.map_values(|c: char| nonstarter_record(c));
    lemma_nonstarter_records_joined(NUM_SCALARS as nat);
    lemma_chars_in(set, NUM_SCALARS as nat);
    lemma_pow64_values();
    assert forall|c: char| #[trigger] cs.contains(c) <==> has_nonstarter_record(c) by {
        lemma_scalar_index(c);
    }
    assert forall|i: int| 0 <= i < cs.len() implies {
        let c = #[trigger] cs[i];
        let d = compatibility_decomposition(c);
        &&& leading_nonstarters(d) < 64
        &&& trailing_nonstarters(d) < 64
        &&& decomposes(c)
        &&& ps[i].len() == 6
    } by {
        let c = cs[i];
        assert(cs.contains(c));
        lemma_scalar_index(c);
        assert(nonstarter_counts_fit(scalar_index(c)));
        vstd::utf8::char_is_scalar(c);
        let d = compatibility_decomposition(c);
        law_digits_roundtrip(c as u32 as nat, 4);
        law_digits_roundtrip(leading_nonstarters(d), 1);
        law_digits_roundtrip(trailing_nonstarters(d), 1);
    }
    assert forall|i: int| 0 <= i < ps.len() implies (#[trigger] ps[i]).len() == 6 by {
        assert(cs[i] == cs[i]);
    }
    lemma_joined_len(ps, 6);
    assert forall|i: int| 0 <= i < cs.len() implies {
        let c = #[trigger] cs[i];
        let d = compatibility_decomposition(c);
        let lead = field(t, 6 * i + 4, 1);
        let trail = field(t, 6 * i + 5, 1);
        &&& field(t, 6 * i, 4) == c as u32
        &&& decomposes(c)
        &&& lead > 0 || trail > 0
        &&& 0 <= lead <= d.len()
        &&& forall|k: int| 0 <= k < lead ==> combining_class_of(#[trigger] d[k]) != 0
        &&& lead < d.len() ==> combining_class_of(d[lead]) == 0
        &&& 0 <= trail <= d.len()
        &&& forall|k: int| d.len() - trail <= k < d.len() ==> combining_class_of(#[trigger] d[k]) != 0
        &&& trail < d.len() ==> combining_class_of(d[d.len() - 1 - trail]) == 0
    } by {
        let c = cs[i];
        assert(cs.contains(c));
        let d = compatibility_decomposition(c);
        let (l, r) = (leading_nonstarters(d), trailing_nonstarters(d));
        vstd::utf8::char_is_scalar(c);
        lemma_scalar_index(c);
        assert(nonstarter_counts_fit(scalar_index(c)));
        law_digits_roundtrip(c as u32 as nat, 4);
        law_digits_roundtrip(l, 1);
        law_digits_roundtrip(r, 1);
        lemma_joined_chunk(ps, 6, i);
        let p = ps[i];
        assert(p == nonstarter_record(c));
        assert(p.subrange(0, 4) =~= base64_digits(c as u32 as nat, 4));
        assert(p.subrange(4, 5) =~= base64_digits(l, 1));
        assert(p.subrange(5, 6) =~= base64_digits(r, 1));
        lemma_field_in_piece(t, 6 * i, 6, p, 0, 4, c as u32 as nat);
        lemma_field_in_piece(t, 6 * i, 6, p, 4, 1, l);
        lemma_field_in_piece(t, 6 * i, 6, p, 5, 1, r);
        lemma_lead_from(d, 0);
        lemma_trail_to(d, d.len());
    }
}

/// How many non-starters `s` starts with.
fn count_leading(s: &Vec<char>) -> (n: usize)
    ensures
        n == leading_nonstarters(s@),
{
    let mut j: usize = 0;
    while j < s.len() && combining_class(s[j]) != 0
        invariant
            j <= s@.len(),
            lead_from(s@, 0) == j + lead_from(s@, j as nat),
        decreases s@.len() - j,
    {
        j = j + 1;
    }
    j
}

/// How many non-starters `s` ends with.
fn count_trailing(s: &Vec<char>) -> (n: usize)
    ensures
        n == trailing_nonstarters(s@),
{
    let mut j: usize = s.len();
    while j > 0 && combining_class(s[j - 1]) != 0
        invariant
            j <= s@.len(),
            trail_to(s@, s@.len()) == (s@.len() - j) + trail_to(s@, j as nat),
        decreases j,
    {
        j = j - 1;
    }
    s.len() - j
}

/// The leading and trailing non-starters in each decomposition, as the crate's
/// generator counts them: `cp leading trailing` records for each decomposing
/// character whose full decomposition starts or ends with non-starters, or
/// nothing where a count does not fit one digit.
pub fn nonstarter_table() -> (r: Option<String>)
    ensures
        r is Some <==> nonstarters_fit(),
        r matches Some(s) ==> s@ == nonstarter_records(NUM_SCALARS as nat),
{
    proof {
        lemma_pow64_values();
    }
    let all = chars();
    let mut out = String::new();
    let mut i: usize = 0;
    while i < NUM_SCALARS
        invariant
            i <= NUM_SCALARS,
            all@ == all_scalars(),
            pow64(1) == 64 && pow64(4) == 16777216,
            forall|q: int| 0 <= q < i ==> #[trigger] nonstarter_counts_fit(q),
            out@ == nonstarter_records(i as nat),
        decreases NUM_SCALARS - i,
    {
        let c = all[i];
        assert(c == scalar_char(i as int));
        if c > '\x7f' && !is_hangul_syllable(c) {
            let d = canonical(c);
            let k = compatible(c);
            if !is_only(&d, c) || !same_chars(&k, &d) {
                let lead = count_leading(&k);
                let trail = count_trailing(&k);
                if lead >= 64 || trail >= 64 {
                    assert(!nonstarter_counts_fit(i as int));
                    return None;
                }
                if lead > 0 || trail > 0 {
                    proof {
                        vstd::utf8::char_is_scalar(c);
                    }
                    let ghost before = out@;
                    digits(&mut out, c as u32 as u64, 4);
                    digits(&mut out, lead as u64, 1);
                    digits(&mut out, trail as u64, 1);
                    assert(out@ =~= before + nonstarter_record(c));
                }
            }
        }
        assert(nonstarter_counts_fit(i as int));
        i = i + 1;
    }
    Some(out)
}

/// A per-character property that a table gives as runs of code points.
#[derive(Clone, Copy, Debug, PartialEq, Eq, Structural)]
pub enum Property {
    CombiningClass,
    QuickNfc,
    QuickNfkc,
    QuickNfd,
    QuickNfkd,
    CombiningMark,
    PublicAssigned,
}

/// The value of the property `p` for `c`: the combining class, a quick-check
/// answer's number, or 1 for true and 0 for false.
pub open spec fn property_value(p: Property, c: char) -> u8 {
    match p {
        Property::CombiningClass => combining_class_of(c),
        Property::QuickNfc => quick_value(nfc_quick(seq![c])),
        Property::QuickNfkc => quick_value(nfkc_quick(seq![c])),
        Property::QuickNfd => quick_value(nfd_quick(seq![c])),
        Property::QuickNfkd => quick_value(nfkd_quick(seq![c])),
        Property::CombiningMark => if combining_mark(c) { 1 } else { 0 },
        Property::PublicAssigned => if public_assigned(c) { 1 } else { 0 },
    }
}

/// The values of the property `p` for every character in order.
pub open spec fn property_values(p: Property) -> Seq<u8> {
    Seq::new(NUM_SCALARS as nat, |i: int| property_value(p, scalar_char(i)))
}

/// The runs of the property `p`, leaving out 0 (class 0, Yes, false).
pub open spec fn property_runs_spec(p: Property) -> Seq<Run> {
    runs_of(property_values(p), 0, NUM_SCALARS as nat)
}

/// The one-character string `c`.
pub(crate) fn single(c: char) -> (v: Vec<char>)
    ensures
        v@ == seq![c],
{
    let mut v: Vec<char> = Vec::new();
    v.push(c);
    v
}

/// The value of the property `p` for `c`.
pub fn property_value_of(p: Property, c: char) -> (v: u8)
    ensures
        v == property_value(p, c),
{
    match p {
        Property::CombiningClass => combining_class(c),
        Property::QuickNfc => qc(quick_nfc(&single(c))),
        Property::QuickNfkc => qc(quick_nfkc(&single(c))),
        Property::QuickNfd => qc(quick_nfd(&single(c))),
        Property::QuickNfkd => qc(quick_nfkd(&single(c))),
        Property::CombiningMark => if combining_mark_of(c) { 1 } else { 0 },
        Property::PublicAssigned => if public_assigned_of(c) { 1 } else { 0 },
    }
}

/// The maximal runs of code points with the same value of the property `p`,
/// leaving out 0.
pub fn property_runs(p: Property) -> (r: Vec<Run>)
    ensures
        r@ == property_runs_spec(p),
        forall|a: int|
            0 <= a < r@.len() ==> (#[trigger] r@[a]).0 <= r@[a].1 <= 0x10FFFF && (p
                != Property::CombiningClass ==> r@[a].2 <= 2),
        runs_fit(r@, 2),
        p != Property::CombiningClass ==> runs_fit(r@, 1),
{
    proof {
        lemma_pow64_values();
    }
    let f = |c: char| -> (v: u8)
        ensures
            v == property_value(p, c),
        { property_value_of(p, c) };
    let r = runs(f, 0);
    proof {
        let vals = choose|vals: Seq<u8>|
            {
                &&& vals.len() == NUM_SCALARS
                &&& forall|i: int|
                    0 <= i < NUM_SCALARS ==> f.ensures((scalar_char(i),), #[trigger] vals[i])
                &&& r@ == runs_of(vals, 0, NUM_SCALARS as nat)
            };
        assert forall|i: int| 0 <= i < NUM_SCALARS implies vals[i] == property_value(
            p,
            scalar_char(i),
        ) by {
            assert(f.ensures((scalar_char(i),), vals[i]));
        }
        assert(vals =~= property_values(p));
        if p == Property::CombiningClass {
            lemma_runs_bounded(vals, 0, NUM_SCALARS as nat, 255);
        } else {
            lemma_runs_bounded(vals, 0, NUM_SCALARS as nat, 2);
        }
    }
    r
}

/// The version of `unicode-normalization` that the files describe.
pub const UPSTREAM_VERSION: &'static str = "0.1.25";

/// The licence lines that head each file.
pub const HEADER: &'static str = "-- Copyright 2012-2025 The Rust Project Developers, and the Meadow port's\n-- authors. Dual-licensed under Apache-2.0 or MIT: see COPYRIGHT.";

/// The first line of each file, up to the version.
pub const GENERATED_FROM: &'static str = "-- GENERATED by scripts/generate.sh from unicode-normalization ";

/// What follows the version in the tables file, up to the licence.
pub const TABLES_INTRO: &'static str = ".\n-- Do not edit: run the script again instead.\n--\n-- Every table is a string of fixed-width records, each field written in the\n-- base-64 digits '0' ('0' + 0) to 'o' ('0' + 63), most significant first, and\n-- is read in place by `Lookup.mw`. Tables of ranges hold `lo hi`, 4 digits\n-- each, and sometimes a value after.\n--\n";

/// What follows the licence, up to the Unicode version's numbers.
pub const VERSION_INTRO: &'static str = "\n\n-- The Unicode version the tables describe.\n@pub(pkg) def unicodeVersion = (";

/// What separates the numbers of a version.
pub const COMMA: &'static str = ", ";

/// The documentation of each table.
pub const DOC_COMBINING_CLASSES: &'static str = "-- The canonical combining class of each code point that has one: ranges and\n-- the class (2 digits).";
pub const DOC_CANONICAL_INDEX: &'static str = "-- Each code point's full canonical decomposition, for all but ASCII and Hangul syllables: `cp start length` (4, 3, 1 digits),\n-- where `start` is an offset into `canonicalData`.";
pub const DOC_COMPATIBILITY_INDEX: &'static str = "-- Each code point's full compatibility decomposition, where it differs from the canonical one: `cp start length` (4, 3, 1 digits),\n-- where `start` is an offset into `compatibilityData`.";
pub const DOC_VARIANT_INDEX: &'static str = "-- Each code point's CJK compatibility variant (standardized variation sequence): `cp start length` (4, 3, 1 digits),\n-- where `start` is an offset into `variantData`.";
pub const DOC_DATA: &'static str = "-- Code points, 4 digits each.";
pub const DOC_COMPOSITES: &'static str = "-- The primary composites, as `first second composite` (4 digits each), sorted.\n-- Hangul syllables compose by rule and are not here.";
pub const DOC_NONSTARTERS: &'static str = "-- For each decomposable code point whose decomposition starts or ends with\n-- non-starters: `cp leading trailing` (4, 1, 1 digits).";
pub const DOC_COMBINING_MARKS: &'static str = "-- The code points with General_Category=Mark.";
pub const DOC_PUBLIC_ASSIGNED: &'static str = "-- The code points assigned for public use.";
pub const DOC_QUICK_NFC: &'static str = "-- The quickNfc quick-check property, where it is not Yes: ranges and 1 for\n-- No, 2 for Maybe.";
pub const DOC_QUICK_NFKC: &'static str = "-- The quickNfkc quick-check property, where it is not Yes: ranges and 1 for\n-- No, 2 for Maybe.";
pub const DOC_QUICK_NFD: &'static str = "-- The quickNfd quick-check property, where it is not Yes: ranges and 1 for\n-- No, 2 for Maybe.";
pub const DOC_QUICK_NFKD: &'static str = "-- The quickNfkd quick-check property, where it is not Yes: ranges and 1 for\n-- No, 2 for Maybe.";

/// The text that introduces the name of a definition.
pub const DEF_OPEN: &'static str = "\n@pub(pkg) def ";

/// The text between a definition's name and its literal.
pub const DEF_EQUALS: &'static str = " =\n  ";

/// A definition in the file: a blank line, its documentation, and the name
/// bound to `body` as one literal broken every 96 characters.
pub open spec fn def_block(name: Seq<char>, doc: Seq<char>, body: Seq<char>) -> Seq<char> {
    seq!['\n'] + doc + DEF_OPEN@ + name + DEF_EQUALS@ + literal(body, 96) + seq!['\n']
}

/// The opening of the tables file: where it comes from, the format, the
/// licence and the Unicode version.
pub open spec fn tables_preamble() -> Seq<char> {
    GENERATED_FROM@ + UPSTREAM_VERSION@ + TABLES_INTRO@ + HEADER@ + VERSION_INTRO@ + decimal(17)
        + COMMA@ + decimal(0) + COMMA@ + decimal(0) + seq![')', '\n']
}

/// The index of a decomposition table.
pub open spec fn index_text(kind: Decomposition) -> Seq<char> {
    table_index(table_entries(kind), table_entries(kind).len())
}

/// The data of a decomposition table.
pub open spec fn data_text(kind: Decomposition) -> Seq<char> {
    table_data(table_entries(kind), table_entries(kind).len())
}

/// The characters that take part in a canonical decomposition.
pub open spec fn parts_spec() -> Seq<char> {
    parts_of(table_entries(Decomposition::Canonical))
}

/// The primary composites.
pub open spec fn composites_spec() -> Seq<(char, char, char)> {
    composites_upto(parts_spec(), parts_spec().len())
}

/// The whole tables file.
pub open spec fn tables_text() -> Seq<char> {
    tables_preamble() + def_block(
        "combiningClasses"@,
        DOC_COMBINING_CLASSES@,
        value_records(property_runs_spec(Property::CombiningClass), 2, property_runs_spec(Property::CombiningClass).len()),
    ) + def_block("canonicalIndex"@, DOC_CANONICAL_INDEX@, index_text(Decomposition::Canonical))
        + def_block("canonicalData"@, DOC_DATA@, data_text(Decomposition::Canonical))
        + def_block("compatibilityIndex"@, DOC_COMPATIBILITY_INDEX@, index_text(Decomposition::Compatible))
        + def_block("compatibilityData"@, DOC_DATA@, data_text(Decomposition::Compatible))
        + def_block("variantIndex"@, DOC_VARIANT_INDEX@, index_text(Decomposition::CjkVariant))
        + def_block("variantData"@, DOC_DATA@, data_text(Decomposition::CjkVariant))
        + def_block("composites"@, DOC_COMPOSITES@, composite_records(composites_spec(), composites_spec().len()))
        + def_block("nonstarters"@, DOC_NONSTARTERS@, nonstarter_records(NUM_SCALARS as nat))
        + def_block("combiningMarks"@, DOC_COMBINING_MARKS@, range_records(property_runs_spec(Property::CombiningMark), property_runs_spec(Property::CombiningMark).len()))
        + def_block("publicAssigned"@, DOC_PUBLIC_ASSIGNED@, range_records(property_runs_spec(Property::PublicAssigned), property_runs_spec(Property::PublicAssigned).len()))
        + def_block("quickNfc"@, DOC_QUICK_NFC@, value_records(property_runs_spec(Property::QuickNfc), 1, property_runs_spec(Property::QuickNfc).len()))
        + def_block("quickNfkc"@, DOC_QUICK_NFKC@, value_records(property_runs_spec(Property::QuickNfkc), 1, property_runs_spec(Property::QuickNfkc).len()))
        + def_block("quickNfd"@, DOC_QUICK_NFD@, value_records(property_runs_spec(Property::QuickNfd), 1, property_runs_spec(Property::QuickNfd).len()))
        + def_block("quickNfkd"@, DOC_QUICK_NFKD@, value_records(property_runs_spec(Property::QuickNfkd), 1, property_runs_spec(Property::QuickNfkd).len()))
}

/// Whether the code point `cp` lies in one of the `lo hi` ranges (4 digits
/// each) that the table `m` holds.
pub open spec fn in_range_table(m: Seq<char>, cp: int) -> bool {
    exists|k: int|
        0 <= k && 8 * k + 8 <= m.len() && #[trigger] field(m, 8 * k, 4) <= cp && cp <= field(
            m,
            8 * k + 4,
            4,
        )
}

/// The record `lo hi` of one run.
spec fn range_piece(x: Run) -> Seq<char> {
    base64_digits(x.0 as nat, 4) + base64_digits(x.1 as nat, 4)
}

proof fn lemma_range_records_joined(r: Seq<Run>, n: nat)
    requires
        n <= r.len(),
    ensures
        range_records(r, n) == joined(Seq::new(n, |a: int| range_piece(r[a]))),
    decreases n,
{
    if n > 0 {
        lemma_range_records_joined(r, (n - 1) as nat);
        let ps = Seq::new(n, |a: int| range_piece(r[a]));
        assert(ps.drop_last() =~= Seq::new((n - 1) as nat, |a: int| range_piece(r[a])));
        assert(range_records(r, n) =~= joined(ps));
    }
}

/// Read back, a range table holds a code point exactly when one of its runs
/// does.
proof fn lemma_range_table_runs(r: Seq<Run>, cp: int)
    requires
        forall|a: int| 0 <= a < r.len() ==> (#[trigger] r[a]).0 <= r[a].1 <= 0x10FFFF,
    ensures
        in_range_table(range_records(r, r.len()), cp) <==> exists|a: int|
            0 <= a < r.len() && (#[trigger] r[a]).0 <= cp <= r[a].1,
{
    let m = range_records(r, r.len());
    let ps = Seq::new(r.len(), |a: int| range_piece(r[a]));
    lemma_range_records_joined(r, r.len());
    lemma_pow64_values();
    assert forall|a: int| 0 <= a < ps.len() implies (#[trigger] ps[a]).len() == 8 by {
        law_digits_roundtrip(r[a].0 as nat, 4);
        law_digits_roundtrip(r[a].1 as nat, 4);
    }
    lemma_joined_len(ps, 8);
    assert forall|a: int| 0 <= a < r.len() implies #[trigger] field(m, 8 * a, 4) == r[a].0 && field(
        m,
        8 * a + 4,
        4,
    ) == r[a].1 by {
        law_digits_roundtrip(r[a].0 as nat, 4);
        law_digits_roundtrip(r[a].1 as nat, 4);
        lemma_joined_chunk(ps, 8, a);
        let p = ps[a];
        assert(p.subrange(0, 4) =~= base64_digits(r[a].0 as nat, 4));
        assert(p.subrange(4, 8) =~= base64_digits(r[a].1 as nat, 4));
        lemma_field_in_piece(m, 8 * a, 8, p, 0, 4, r[a].0 as nat);
        lemma_field_in_piece(m, 8 * a, 8, p, 4, 4, r[a].1 as nat);
    }
    if in_range_table(m, cp) {
        let k = choose|k: int|
            0 <= k && 8 * k + 8 <= m.len() && #[trigger] field(m, 8 * k, 4) <= cp && cp <= field(
                m,
                8 * k + 4,
                4,
            );
        assert(k < r.len()) by (nonlinear_arith)
            requires
                8 * k + 8 <= m.len(),
                m.len() == 8 * r.len(),
        ;
        assert(r[k].0 <= cp <= r[k].1);
    }
    if exists|a: int| 0 <= a < r.len() && (#[trigger] r[a]).0 <= cp <= r[a].1 {
        let a = choose|a: int| 0 <= a < r.len() && (#[trigger] r[a]).0 <= cp <= r[a].1;
        assert(field(m, 8 * a, 4) == r[a].0);
        assert(8 * a + 8 <= m.len()) by (nonlinear_arith)
            requires
                a < r.len(),
                m.len() == 8 * r.len(),
        ;
    }
}

/// Read back, the range table of a property of one bit holds a character
/// exactly when the property holds of it.
proof fn lemma_property_range_table(p: Property, c: char)
    requires
        p == Property::CombiningMark || p == Property::PublicAssigned,
    ensures
        in_range_table(
            range_records(property_runs_spec(p), property_runs_spec(p).len()),
            c as u32 as int,
        ) <==> property_value(p, c) != 0,
{
    let vals = property_values(p);
    let r = property_runs_spec(p);
    lemma_runs_bounded(vals, 0, NUM_SCALARS as nat, 1);
    lemma_range_table_runs(r, c as u32 as int);
    crate::runs::law_runs_maximal(vals, 0);
    lemma_scalar_index(c);
    let k = scalar_index(c);
    lemma_scalar_at(k);
    assert(scalar_at(k) == c as u32);
    assert(vals[k] == property_value(p, c));
    if property_value(p, c) != 0 {
        let a = choose|a: int| 0 <= a < r.len() && #[trigger] in_run(r[a], scalar_at(k));
        assert(r[a].0 <= c as u32 <= r[a].1);
    }
    if exists|a: int| 0 <= a < r.len() && (#[trigger] r[a]).0 <= c as u32 <= r[a].1 {
        let a = choose|a: int| 0 <= a < r.len() && (#[trigger] r[a]).0 <= c as u32 <= r[a].1;
        assert(in_run(r[a], scalar_at(k)));
    }
}

/// The tables file defines `combiningMarks` as ranges that hold exactly the
/// characters for which `is_combining_mark` holds, and `publicAssigned` as
/// ranges that hold exactly those for which `is_public_assigned` holds.
pub proof fn law_tables_mark_and_assigned_ranges()
    ensures
        exists|m: Seq<char>, i: int|
            #[trigger] matches_at(tables_text(), def_block("combiningMarks"@, DOC_COMBINING_MARKS@, m), i)
                && forall|c: char| #[trigger] in_range_table(m, c as u32 as int) <==> combining_mark(c),
        exists|m: Seq<char>, i: int|
            #[trigger] matches_at(tables_text(), def_block("publicAssigned"@, DOC_PUBLIC_ASSIGNED@, m), i)
                && forall|c: char| #[trigger] in_range_table(m, c as u32 as int) <==> public_assigned(c),
{
    let pre = tables_preamble() + def_block(
        "combiningClasses"@,
        DOC_COMBINING_CLASSES@,
        value_records(property_runs_spec(Property::CombiningClass), 2, property_runs_spec(Property::CombiningClass).len()),
    ) + def_block("canonicalIndex"@, DOC_CANONICAL_INDEX@, index_text(Decomposition::Canonical))
        + def_block("canonicalData"@, DOC_DATA@, data_text(Decomposition::Canonical))
        + def_block("compatibilityIndex"@, DOC_COMPATIBILITY_INDEX@, index_text(Decomposition::Compatible))
        + def_block("compatibilityData"@, DOC_DATA@, data_text(Decomposition::Compatible))
        + def_block("variantIndex"@, DOC_VARIANT_INDEX@, index_text(Decomposition::CjkVariant))
        + def_block("variantData"@, DOC_DATA@, data_text(Decomposition::CjkVariant))
        + def_block("composites"@, DOC_COMPOSITES@, composite_records(composites_spec(), composites_spec().len()))
        + def_block("nonstarters"@, DOC_NONSTARTERS@, nonstarter_records(NUM_SCALARS as nat));
    let mr = property_runs_spec(Property::CombiningMark);
    let pr = property_runs_spec(Property::PublicAssigned);
    let mm = range_records(mr, mr.len());
    let pm = range_records(pr, pr.len());
    let bm = def_block("combiningMarks"@, DOC_COMBINING_MARKS@, mm);
    let bp = def_block("publicAssigned"@, DOC_PUBLIC_ASSIGNED@, pm);
    let rest = def_block("quickNfc"@, DOC_QUICK_NFC@, value_records(property_runs_spec(Property::QuickNfc), 1, property_runs_spec(Property::QuickNfc).len()))
        + def_block("quickNfkc"@, DOC_QUICK_NFKC@, value_records(property_runs_spec(Property::QuickNfkc), 1, property_runs_spec(Property::QuickNfkc).len()))
        + def_block("quickNfd"@, DOC_QUICK_NFD@, value_records(property_runs_spec(Property::QuickNfd), 1, property_runs_spec(Property::QuickNfd).len()))
        + def_block("quickNfkd"@, DOC_QUICK_NFKD@, value_records(property_runs_spec(Property::QuickNfkd), 1, property_runs_spec(Property::QuickNfkd).len()));
    let tt = tables_text();
    assert(tt =~= pre + bm + bp + rest);
    assert(tt.subrange(pre.len() as int, (pre.len() + bm.len()) as int) =~= bm);
    assert(tt.subrange((pre.len() + bm.len()) as int, (pre.len() + bm.len() + bp.len()) as int) =~= bp);
    assert(matches_at(tt, bm, pre.len() as int));
    assert(matches_at(tt, bp, (pre.len() + bm.len()) as int));
    assert forall|c: char| #[trigger] in_range_table(mm, c as u32 as int) <==> combining_mark(c) by {
        lemma_property_range_table(Property::CombiningMark, c);
    }
    assert forall|c: char| #[trigger] in_range_table(pm, c as u32 as int) <==> public_assigned(c) by {
        lemma_property_range_table(Property::PublicAssigned, c);
    }
}

/// The first `n` blocks of the tables file: the preamble, then each
/// definition in the order the file holds them.
spec fn tables_blocks_upto(n: nat) -> Seq<Seq<char>>
    decreases n,
{
    if n == 0 {
        Seq::empty()
    } else {
        tables_blocks_upto((n - 1) as nat).push(tables_block((n - 1) as nat))
    }
}

/// Block `k` of the tables file.
spec fn tables_block(k: nat) -> Seq<char> {
    if k == 0 {
        tables_preamble()
    } else if k == 1 {
        def_block("combiningClasses"@, DOC_COMBINING_CLASSES@, value_records(property_runs_spec(Property::CombiningClass), 2, property_runs_spec(Property::CombiningClass).len()))
    } else if k == 2 {
        def_block("canonicalIndex"@, DOC_CANONICAL_INDEX@, index_text(Decomposition::Canonical))
    } else if k == 3 {
        def_block("canonicalData"@, DOC_DATA@, data_text(Decomposition::Canonical))
    } else if k == 4 {
        def_block("compatibilityIndex"@, DOC_COMPATIBILITY_INDEX@, index_text(Decomposition::Compatible))
    } else if k == 5 {
        def_block("compatibilityData"@, DOC_DATA@, data_text(Decomposition::Compatible))
    } else if k == 6 {
        def_block("variantIndex"@, DOC_VARIANT_INDEX@, index_text(Decomposition::CjkVariant))
    } else if k == 7 {
        def_block("variantData"@, DOC_DATA@, data_text(Decomposition::CjkVariant))
    } else if k == 8 {
        def_block("composites"@, DOC_COMPOSITES@, composite_records(composites_spec(), composites_spec().len()))
    } else if k == 9 {
        def_block("nonstarters"@, DOC_NONSTARTERS@, nonstarter_records(NUM_SCALARS as nat))
    } else if k == 10 {
        def_block("combiningMarks"@, DOC_COMBINING_MARKS@, range_records(property_runs_spec(Property::CombiningMark), property_runs_spec(Property::CombiningMark).len()))
    } else if k == 11 {
        def_block("publicAssigned"@, DOC_PUBLIC_ASSIGNED@, range_records(property_runs_spec(Property::PublicAssigned), property_runs_spec(Property::PublicAssigned).len()))
    } else if k == 12 {
        def_block("quickNfc"@, DOC_QUICK_NFC@, value_records(property_runs_spec(Property::QuickNfc), 1, property_runs_spec(Property::QuickNfc).len()))
    } else if k == 13 {
        def_block("quickNfkc"@, DOC_QUICK_NFKC@, value_records(property_runs_spec(Property::QuickNfkc), 1, property_runs_spec(Property::QuickNfkc).len()))
    } else if k == 14 {
        def_block("quickNfd"@, DOC_QUICK_NFD@, value_records(property_runs_spec(Property::QuickNfd), 1, property_runs_spec(Property::QuickNfd).len()))
    } else if k == 15 {
        def_block("quickNfkd"@, DOC_QUICK_NFKD@, value_records(property_runs_spec(Property::QuickNfkd), 1, property_runs_spec(Property::QuickNfkd).len()))
    } else {
        Seq::empty()
    }
}

proof fn lemma_tables_blocks()
    ensures
        tables_text() == joined(tables_blocks_upto(16)),
        tables_blocks_upto(16).len() == 16,
        forall|k: int| 0 <= k < 16 ==> #[trigger] tables_blocks_upto(16)[k] == tables_block(k as nat),
{
    lemma_joined_push(tables_blocks_upto(0), tables_block(0));
    lemma_joined_push(tables_blocks_upto(1), tables_block(1));
    lemma_joined_push(tables_blocks_upto(2), tables_block(2));
    lemma_joined_push(tables_blocks_upto(3), tables_block(3));
    lemma_joined_push(tables_blocks_upto(4), tables_block(4));
    lemma_joined_push(tables_blocks_upto(5), tables_block(5));
    lemma_joined_push(tables_blocks_upto(6), tables_block(6));
    lemma_joined_push(tables_blocks_upto(7), tables_block(7));
    lemma_joined_push(tables_blocks_upto(8), tables_block(8));
    lemma_joined_push(tables_blocks_upto(9), tables_block(9));
    lemma_joined_push(tables_blocks_upto(10), tables_block(10));
    lemma_joined_push(tables_blocks_upto(11), tables_block(11));
    lemma_joined_push(tables_blocks_upto(12), tables_block(12));
    lemma_joined_push(tables_blocks_upto(13), tables_block(13));
    lemma_joined_push(tables_blocks_upto(14), tables_block(14));
    lemma_joined_push(tables_blocks_upto(15), tables_block(15));
    reveal_with_fuel(tables_blocks_upto, 17);
    assert(joined(Seq::<Seq<char>>::empty()) == Seq::<char>::empty());
    assert(tables_text() =~= joined(tables_blocks_upto(16)));
    assert forall|k: int| 0 <= k < 16 implies #[trigger] tables_blocks_upto(16)[k] == tables_block(k as nat) by {
        lemma_blocks_prefix(k as nat, 16);
    }
}

proof fn lemma_blocks_prefix(k: nat, n: nat)
    requires
        k < n,
    ensures
        tables_blocks_upto(n).len() == n,
        tables_blocks_upto(n)[k as int] == tables_block(k),
    decreases n,
{
    lemma_blocks_len(n);
    if k < n - 1 {
        lemma_blocks_prefix(k, (n - 1) as nat);
    }
}

proof fn lemma_blocks_len(n: nat)
    ensures
        tables_blocks_upto(n).len() == n,
    decreases n,
{
    if n > 0 {
        lemma_blocks_len((n - 1) as nat);
    }
}

/// Block `k` of the tables file occurs in it.
proof fn lemma_tables_block_occurs(k: nat)
    requires
        k < 16,
    ensures
        exists|i: int| #[trigger] matches_at(tables_text(), tables_block(k), i),
{
    lemma_tables_blocks();
    lemma_joined_occurs(tables_blocks_upto(16), k as int);
    let i = joined(tables_blocks_upto(16).take(k as int)).len() as int;
    assert(matches_at(tables_text(), tables_block(k), i));
}

/// Whether the code point `cp` lies in record `k` of the table `m` of `lo hi
/// value` records, the value `w` digits wide.
pub open spec fn in_value_record(m: Seq<char>, w: int, k: int, cp: int) -> bool {
    &&& 0 <= k
    &&& (8 + w) * k + 8 + w <= m.len()
    &&& field(m, (8 + w) * k, 4) <= cp
    &&& cp <= field(m, (8 + w) * k + 4, 4)
}

/// Whether the code point `cp` lies in a record of the table `m`.
pub open spec fn in_value_table(m: Seq<char>, w: int, cp: int) -> bool {
    exists|k: int| #[trigger] in_value_record(m, w, k, cp)
}

/// Whether the table `m` of `lo hi value` records says of each character `c`
/// what `e` does: a record that holds `c` has the value `e(c)`, which is not
/// 0, and every character whose value is not 0 lies in a record.
pub open spec fn value_table_means(m: Seq<char>, w: int, e: spec_fn(char) -> int) -> bool {
    &&& forall|k: int, c: char| #[trigger] in_value_record(m, w, k, c as u32 as int) ==> field(
        m,
        (8 + w) * k + 8,
        w,
    ) == e(c) && e(c) != 0
    &&& forall|c: char| e(c) != 0 ==> #[trigger] in_value_table(m, w, c as u32 as int)
}

/// The record `lo hi value` of one run.
spec fn value_piece(x: Run, w: nat) -> Seq<char> {
    base64_digits(x.0 as nat, 4) + base64_digits(x.1 as nat, 4) + base64_digits(x.2 as nat, w)
}

proof fn lemma_value_records_joined(r: Seq<Run>, w: nat, n: nat)
    requires
        n <= r.len(),
    ensures
        value_records(r, w, n) == joined(Seq::new(n, |a: int| value_piece(r[a], w))),
    decreases n,
{
    if n > 0 {
        lemma_value_records_joined(r, w, (n - 1) as nat);
        let ps = Seq::new(n, |a: int| value_piece(r[a], w));
        assert(ps.drop_last() =~= Seq::new((n - 1) as nat, |a: int| value_piece(r[a], w)));
        assert(value_records(r, w, n) =~= joined(ps));
    }
}

/// Read back, the value table of a property says of each character what the
/// property's value is.
proof fn lemma_property_value_table(p: Property, w: nat, e: spec_fn(char) -> int)
    requires
        w == 1 || w == 2,
        p == Property::CombiningClass ==> w == 2,
        forall|c: char| #[trigger] e(c) == property_value(p, c) as int,
    ensures
        value_table_means(
            value_records(property_runs_spec(p), w, property_runs_spec(p).len()),
            w as int,
            e,
        ),
{
    let vals = property_values(p);
    let r = property_runs_spec(p);
    let m = value_records(r, w, r.len());
    let ps = Seq::new(r.len(), |a: int| value_piece(r[a], w));
    lemma_pow64_values();
    assert(pow64(w) >= 64) by {
        if w == 2 {
            assert(pow64(2) == 4096);
        }
    }
    if p == Property::CombiningClass {
        lemma_runs_bounded(vals, 0, NUM_SCALARS as nat, 255);
    } else {
        assert forall|k: int| 0 <= k < NUM_SCALARS implies #[trigger] vals[k] <= 2 by {}
        lemma_runs_bounded(vals, 0, NUM_SCALARS as nat, 2);
    }
    crate::runs::law_runs_maximal(vals, 0);
    lemma_value_records_joined(r, w, r.len());
    assert forall|a: int| 0 <= a < ps.len() implies (#[trigger] ps[a]).len() == 8 + w by {
        law_digits_roundtrip(r[a].0 as nat, 4);
        law_digits_roundtrip(r[a].1 as nat, 4);
        law_digits_roundtrip(r[a].2 as nat, w);
    }
    lemma_joined_len(ps, 8 + w);
    assert forall|a: int| 0 <= a < r.len() implies #[trigger] field(m, (8 + w) * a, 4) == r[a].0
        && field(m, (8 + w) * a + 4, 4) == r[a].1 && field(m, (8 + w) * a + 8, w as int) == r[a].2 by {
        law_digits_roundtrip(r[a].0 as nat, 4);
        law_digits_roundtrip(r[a].1 as nat, 4);
        law_digits_roundtrip(r[a].2 as nat, w);
        lemma_joined_chunk(ps, 8 + w, a);
        let q = ps[a];
        assert(q.subrange(0, 4) =~= base64_digits(r[a].0 as nat, 4));
        assert(q.subrange(4, 8) =~= base64_digits(r[a].1 as nat, 4));
        assert(q.subrange(8, (8 + w) as int) =~= base64_digits(r[a].2 as nat, w));
        assert((8 + w) * a + (8 + w) <= m.len()) by (nonlinear_arith)
            requires
                0 <= a < r.len(),
                m.len() == (8 + w) * r.len(),
        ;
        assert(0 <= (8 + w) * a) by (nonlinear_arith)
            requires
                0 <= a,
        ;
        lemma_field_in_piece(m, (8 + w) * a, (8 + w) as int, q, 0, 4, r[a].0 as nat);
        lemma_field_in_piece(m, (8 + w) * a, (8 + w) as int, q, 4, 4, r[a].1 as nat);
        lemma_field_in_piece(m, (8 + w) * a, (8 + w) as int, q, 8, w, r[a].2 as nat);
    }
    assert forall|k: int, c: char| #[trigger] in_value_record(m, w as int, k, c as u32 as int) implies field(
        m,
        (8 + w) * k + 8,
        w as int,
    ) == e(c) && e(c) != 0 by {
        assert(k < r.len()) by (nonlinear_arith)
            requires
                (8 + w) * k + 8 + w <= m.len(),
                m.len() == (8 + w) * r.len(),
                k >= 0,
                w >= 1,
        ;
        lemma_scalar_index(c);
        let i = scalar_index(c);
        lemma_scalar_at(i);
        assert(in_run(r[k], scalar_at(i)));
        assert(vals[i] == property_value(p, c));
    }
    assert forall|c: char| e(c) != 0 implies #[trigger] in_value_table(m, w as int, c as u32 as int) by {
        lemma_scalar_index(c);
        let i = scalar_index(c);
        lemma_scalar_at(i);
        assert(vals[i] == property_value(p, c));
        let a = choose|a: int| 0 <= a < r.len() && #[trigger] in_run(r[a], scalar_at(i));
        assert((8 + w) * a + 8 + w <= m.len()) by (nonlinear_arith)
            requires
                0 <= a < r.len(),
                m.len() == (8 + w) * r.len(),
        ;
        assert(field(m, (8 + w) * a, 4) == r[a].0);
        assert(field(m, (8 + w) * a + 4, 4) == r[a].1);
        assert(in_value_record(m, w as int, a, c as u32 as int));
    }
}

/// Where block `k` of the tables file is the value table of `p`, named
/// `name`, the file defines `name` as a table that says what `e` does.
proof fn lemma_value_block(
    k: nat,
    p: Property,
    w: nat,
    name: Seq<char>,
    doc: Seq<char>,
    e: spec_fn(char) -> int,
)
    requires
        k < 16,
        w == 1 || w == 2,
        p == Property::CombiningClass ==> w == 2,
        forall|c: char| #[trigger] e(c) == property_value(p, c) as int,
        tables_block(k) == def_block(
            name,
            doc,
            value_records(property_runs_spec(p), w, property_runs_spec(p).len()),
        ),
    ensures
        exists|m: Seq<char>, i: int|
            #[trigger] matches_at(tables_text(), def_block(name, doc, m), i) && value_table_means(
                m,
                w as int,
                e,
            ),
{
    lemma_tables_block_occurs(k);
    lemma_property_value_table(p, w, e);
    let i = choose|i: int| #[trigger] matches_at(tables_text(), tables_block(k), i);
    let m = value_records(property_runs_spec(p), w, property_runs_spec(p).len());
    assert(matches_at(tables_text(), def_block(name, doc, m), i));
}

/// The tables file defines `combiningClasses` as `lo hi class` records that
/// give each character's canonical combining class, and `quickNfc`,
/// `quickNfkc`, `quickNfd` and `quickNfkd` as `lo hi answer` records that give
/// each character's answer to that quick check (1 for No, 2 for Maybe), the
/// characters outside every record being of class 0 or answered Yes.
pub proof fn law_tables_value_tables()
    ensures
        exists|m: Seq<char>, i: int|
            #[trigger] matches_at(tables_text(), def_block("combiningClasses"@, DOC_COMBINING_CLASSES@, m), i)
                && value_table_means(m, 2, |c: char| combining_class_of(c) as int),
        exists|m: Seq<char>, i: int|
            #[trigger] matches_at(tables_text(), def_block("quickNfc"@, DOC_QUICK_NFC@, m), i)
                && value_table_means(m, 1, |c: char| quick_value(nfc_quick(seq![c])) as int),
        exists|m: Seq<char>, i: int|
            #[trigger] matches_at(tables_text(), def_block("quickNfkc"@, DOC_QUICK_NFKC@, m), i)
                && value_table_means(m, 1, |c: char| quick_value(nfkc_quick(seq![c])) as int),
        exists|m: Seq<char>, i: int|
            #[trigger] matches_at(tables_text(), def_block("quickNfd"@, DOC_QUICK_NFD@, m), i)
                && value_table_means(m, 1, |c: char| quick_value(nfd_quick(seq![c])) as int),
        exists|m: Seq<char>, i: int|
            #[trigger] matches_at(tables_text(), def_block("quickNfkd"@, DOC_QUICK_NFKD@, m), i)
                && value_table_means(m, 1, |c: char| quick_value(nfkd_quick(seq![c])) as int),
{
    lemma_value_block(1, Property::CombiningClass, 2, "combiningClasses"@, DOC_COMBINING_CLASSES@,
        |c: char| combining_class_of(c) as int);
    lemma_value_block(12, Property::QuickNfc, 1, "quickNfc"@, DOC_QUICK_NFC@,
        |c: char| quick_value(nfc_quick(seq![c])) as int);
    lemma_value_block(13, Property::QuickNfkc, 1, "quickNfkc"@, DOC_QUICK_NFKC@,
        |c: char| quick_value(nfkc_quick(seq![c])) as int);
    lemma_value_block(14, Property::QuickNfd, 1, "quickNfd"@, DOC_QUICK_NFD@,
        |c: char| quick_value(nfd_quick(seq![c])) as int);
    lemma_value_block(15, Property::QuickNfkd, 1, "quickNfkd"@, DOC_QUICK_NFKD@,
        |c: char| quick_value(nfkd_quick(seq![c])) as int);
}

/// Whether record `k` of the index `ix` names the character `c`.
pub open spec fn index_names(ix: Seq<char>, k: int, c: char) -> bool {
    0 <= k && 8 * k + 8 <= ix.len() && field(ix, 8 * k, 4) == c as u32
}

/// Whether the index `ix` of `cp start length` records (4, 3, 1 digits) and
/// the data `dt` of code points (4 digits each) hold, for exactly the
/// characters `keep` holds of, in increasing order, the decomposition `d`.
pub open spec fn decomposition_table_means(
    ix: Seq<char>,
    dt: Seq<char>,
    keep: spec_fn(char) -> bool,
    d: spec_fn(char) -> Seq<char>,
) -> bool {
    &&& ix.len() % 8 == 0
    &&& forall|k: int| 0 <= k && 8 * k + 8 <= ix.len() ==> is_scalar_value(#[trigger] field(ix, 8 * k, 4))
    &&& forall|k1: int, k2: int|
        0 <= k1 < k2 && 8 * k2 + 8 <= ix.len() ==> #[trigger] field(ix, 8 * k1, 4) < #[trigger] field(
            ix,
            8 * k2,
            4,
        )
    &&& forall|k: int, c: char|
        #[trigger] index_names(ix, k, c) ==> {
            let start = field(ix, 8 * k + 4, 3);
            &&& keep(c)
            &&& field(ix, 8 * k + 7, 1) == d(c).len()
            &&& start + 4 * d(c).len() <= dt.len()
            &&& forall|j: int| 0 <= j < d(c).len() ==> #[trigger] field(dt, start + 4 * j, 4) == d(c)[j] as u32
        }
    &&& forall|c: char| keep(c) ==> #[trigger] in_index(ix, c)
}

/// Whether a record of the index `ix` names the character `c`.
pub open spec fn in_index(ix: Seq<char>, c: char) -> bool {
    exists|k: int| #[trigger] index_names(ix, k, c)
}

/// What record `k` of a decomposition table reads back to.
#[verifier::spinoff_prover]
proof fn lemma_index_facts(e: Seq<Entry>, k: int)
    requires
        table_fits(e),
        0 <= k < e.len(),
    ensures
        ({
            let ix = table_index(e, e.len());
            let dt = table_data(e, e.len());
            let start = field(ix, 8 * k + 4, 3);
            &&& ix.len() == 8 * e.len()
            &&& field(ix, 8 * k, 4) == e[k].0 as u32
            &&& field(ix, 8 * k + 7, 1) == e[k].1.len()
            &&& start + 4 * e[k].1.len() <= dt.len()
            &&& forall|j: int|
                0 <= j < e[k].1.len() ==> #[trigger] field(dt, start + 4 * j, 4) == e[k].1[j] as u32
        }),
{
    law_decomposition_lookup(e, k);
    lemma_index_key(e, k);
    let ix = table_index(e, e.len());
    let record = ix.subrange(8 * k, 8 * k + 8);
    assert(record.subrange(4, 7) =~= ix.subrange(8 * k + 4, 8 * k + 7));
    assert(record.subrange(7, 8) =~= ix.subrange(8 * k + 7, 8 * k + 8));
}

#[verifier::spinoff_prover]
proof fn lemma_decomposition_means(kind: Decomposition, keep: spec_fn(char) -> bool, d: spec_fn(char) -> Seq<char>)
    requires
        table_fits(table_entries(kind)),
        forall|c: char| #[trigger] keep(c) == kept(kind, c),
        forall|c: char| #[trigger] d(c) == decomposition_of(kind, c),
    ensures
        decomposition_table_means(index_text(kind), data_text(kind), keep, d),
{
    let e = table_entries(kind);
    let ix = index_text(kind);
    let dt = data_text(kind);
    law_table_entries_sorted(kind);
    if e.len() > 0 {
        lemma_index_facts(e, 0);
    }
    assert(ix.len() == 8 * e.len());
    assert forall|k: int| 0 <= k && 8 * k + 8 <= ix.len() implies is_scalar_value(#[trigger] field(ix, 8 * k, 4))
        && field(ix, 8 * k, 4) == e[k].0 as u32 by {
        assert(k < e.len()) by (nonlinear_arith)
            requires
                8 * k + 8 <= ix.len(),
                ix.len() == 8 * e.len(),
        ;
        lemma_index_facts(e, k);
        vstd::utf8::char_is_scalar(e[k].0);
    }
    assert forall|k1: int, k2: int| 0 <= k1 < k2 && 8 * k2 + 8 <= ix.len() implies #[trigger] field(ix, 8 * k1, 4)
        < #[trigger] field(ix, 8 * k2, 4) by {
        assert(field(ix, 8 * k1, 4) == e[k1].0 as u32);
        assert(field(ix, 8 * k2, 4) == e[k2].0 as u32);
    }
    assert forall|k: int, c: char| #[trigger] index_names(ix, k, c) implies {
        let start = field(ix, 8 * k + 4, 3);
        &&& keep(c)
        &&& field(ix, 8 * k + 7, 1) == d(c).len()
        &&& start + 4 * d(c).len() <= dt.len()
        &&& forall|j: int| 0 <= j < d(c).len() ==> #[trigger] field(dt, start + 4 * j, 4) == d(c)[j] as u32
    } by {
        assert(field(ix, 8 * k, 4) == e[k].0 as u32);
        vstd::utf8::char_u32_cast(c, c as u32);
        vstd::utf8::char_u32_cast(e[k].0, e[k].0 as u32);
        assert(e[k].0 == c);
        lemma_index_facts(e, k);
    }
    assert forall|c: char| keep(c) implies #[trigger] in_index(ix, c) by {
        let k = choose|i: int| 0 <= i < e.len() && (#[trigger] e[i]).0 == c;
        assert(field(ix, 8 * k, 4) == e[k].0 as u32);
        assert(8 * k + 8 <= ix.len()) by (nonlinear_arith)
            requires
                0 <= k < e.len(),
                ix.len() == 8 * e.len(),
        ;
        assert(index_names(ix, k, c));
    }
}

/// Where blocks `ki` and `kd` of the tables file are the index and the data of
/// the table of `kind`, named `iname` and `dname`, the file defines them as a
/// table that holds `d` for exactly the characters `keep` holds of.
proof fn lemma_decomposition_blocks(
    kind: Decomposition,
    ki: nat,
    kd: nat,
    iname: Seq<char>,
    idoc: Seq<char>,
    dname: Seq<char>,
    keep: spec_fn(char) -> bool,
    d: spec_fn(char) -> Seq<char>,
)
    requires
        ki < 16,
        kd < 16,
        table_fits(table_entries(kind)),
        forall|c: char| #[trigger] keep(c) == kept(kind, c),
        forall|c: char| #[trigger] d(c) == decomposition_of(kind, c),
        tables_block(ki) == def_block(iname, idoc, index_text(kind)),
        tables_block(kd) == def_block(dname, DOC_DATA@, data_text(kind)),
    ensures
        exists|ix: Seq<char>, dt: Seq<char>, i: int, j: int|
            #[trigger] matches_at(tables_text(), def_block(iname, idoc, ix), i) && #[trigger] matches_at(
                tables_text(),
                def_block(dname, DOC_DATA@, dt),
                j,
            ) && decomposition_table_means(ix, dt, keep, d),
{
    lemma_tables_block_occurs(ki);
    lemma_tables_block_occurs(kd);
    lemma_decomposition_means(kind, keep, d);
    let i = choose|i: int| #[trigger] matches_at(tables_text(), tables_block(ki), i);
    let j = choose|j: int| #[trigger] matches_at(tables_text(), tables_block(kd), j);
    assert(matches_at(tables_text(), def_block(iname, idoc, index_text(kind)), i));
    assert(matches_at(tables_text(), def_block(dname, DOC_DATA@, data_text(kind)), j));
}

/// Where its records fit their fields, the tables file defines
/// `canonicalIndex` and `canonicalData` as a table that holds the full
/// canonical decomposition of exactly the characters past ASCII and outside
/// the Hangul syllables that decompose canonically, in increasing order.
pub proof fn law_tables_canonical_table()
    requires
        table_fits(table_entries(Decomposition::Canonical)),
    ensures
        exists|ix: Seq<char>, dt: Seq<char>, i: int, j: int|
            #[trigger] matches_at(tables_text(), def_block("canonicalIndex"@, DOC_CANONICAL_INDEX@, ix), i)
                && #[trigger] matches_at(tables_text(), def_block("canonicalData"@, DOC_DATA@, dt), j)
                && decomposition_table_means(
                ix,
                dt,
                |c: char| (c as u32) > 0x7f && !spec_is_hangul_syllable(c) && canonical_decomposition(c) != seq![c],
                |c: char| canonical_decomposition(c),
            ),
{
    lemma_decomposition_blocks(Decomposition::Canonical, 2, 3, "canonicalIndex"@, DOC_CANONICAL_INDEX@, "canonicalData"@,
        |c: char| (c as u32) > 0x7f && !spec_is_hangul_syllable(c) && canonical_decomposition(c) != seq![c],
        |c: char| canonical_decomposition(c));
}

/// Where its records fit their fields, the tables file defines
/// `compatibilityIndex` and `compatibilityData` as a table that holds the full
/// compatibility decomposition of exactly the characters past ASCII and
/// outside the Hangul syllables where it differs from the canonical one, in
/// increasing order.
pub proof fn law_tables_compatibility_table()
    requires
        table_fits(table_entries(Decomposition::Compatible)),
    ensures
        exists|ix: Seq<char>, dt: Seq<char>, i: int, j: int|
            #[trigger] matches_at(tables_text(), def_block("compatibilityIndex"@, DOC_COMPATIBILITY_INDEX@, ix), i)
                && #[trigger] matches_at(tables_text(), def_block("compatibilityData"@, DOC_DATA@, dt), j)
                && decomposition_table_means(
                ix,
                dt,
                |c: char| (c as u32) > 0x7f && !spec_is_hangul_syllable(c) && compatibility_decomposition(c) != canonical_decomposition(c),
                |c: char| compatibility_decomposition(c),
            ),
{
    lemma_decomposition_blocks(Decomposition::Compatible, 4, 5, "compatibilityIndex"@, DOC_COMPATIBILITY_INDEX@, "compatibilityData"@,
        |c: char| (c as u32) > 0x7f && !spec_is_hangul_syllable(c) && compatibility_decomposition(c) != canonical_decomposition(c),
        |c: char| compatibility_decomposition(c));
}

/// Where its records fit their fields, the tables file defines `variantIndex`
/// and `variantData` as a table that holds the CJK variant of exactly the
/// characters past ASCII and outside the Hangul syllables that have one, in
/// increasing order.
pub proof fn law_tables_variant_table()
    requires
        table_fits(table_entries(Decomposition::CjkVariant)),
    ensures
        exists|ix: Seq<char>, dt: Seq<char>, i: int, j: int|
            #[trigger] matches_at(tables_text(), def_block("variantIndex"@, DOC_VARIANT_INDEX@, ix), i)
                && #[trigger] matches_at(tables_text(), def_block("variantData"@, DOC_DATA@, dt), j)
                && decomposition_table_means(
                ix,
                dt,
                |c: char| (c as u32) > 0x7f && !spec_is_hangul_syllable(c) && variant_decomposition(c) != seq![c],
                |c: char| variant_decomposition(c),
            ),
{
    lemma_decomposition_blocks(Decomposition::CjkVariant, 6, 7, "variantIndex"@, DOC_VARIANT_INDEX@, "variantData"@,
        |c: char| (c as u32) > 0x7f && !spec_is_hangul_syllable(c) && variant_decomposition(c) != seq![c],
        |c: char| variant_decomposition(c));
}

/// Why the tables could not be written.
#[derive(Clone, Copy, Debug, PartialEq, Eq, Structural)]
pub enum TablesError {
    /// The composites found are not the crate's whole composition table.
    CompositeCount { found: usize, expected: usize },
    /// A count of non-starters does not fit one digit.
    NonstarterCountTooLarge,
    /// A decomposition table's records do not fit their fields.
    DecompositionTableTooLarge(Decomposition),
}

/// Why the tables cannot be written, checked in the order the file is built,
/// if anything stops them.
pub open spec fn tables_error(expected_composites: usize) -> Option<TablesError> {
    if composites_spec().len() != expected_composites {
        Some(
            TablesError::CompositeCount {
                found: composites_spec().len() as usize,
                expected: expected_composites,
            },
        )
    } else if !nonstarters_fit() {
        Some(TablesError::NonstarterCountTooLarge)
    } else if !table_fits(table_entries(Decomposition::Canonical)) {
        Some(TablesError::DecompositionTableTooLarge(Decomposition::Canonical))
    } else if !table_fits(table_entries(Decomposition::Compatible)) {
        Some(TablesError::DecompositionTableTooLarge(Decomposition::Compatible))
    } else if !table_fits(table_entries(Decomposition::CjkVariant)) {
        Some(TablesError::DecompositionTableTooLarge(Decomposition::CjkVariant))
    } else {
        None
    }
}

/// Whether the records of `map` fit their fields.
#[verifier::spinoff_prover]
#[verifier::rlimit(60)]
pub fn fits_table(map: &Vec<(char, Vec<char>)>) -> (r: bool)
    ensures
        r == table_fits(map.deep_view()),
{
    proof {
        lemma_pow64_values();
    }
    let ghost e = map.deep_view();
    let mut total: u64 = 0;
    let mut i: usize = 0;
    while i < map.len()
        invariant
            e == map.deep_view(),
            i <= e.len(),
            pow64(3) == 262144,
            total == total_len(e, i as nat),
            total < 65600,
            forall|q: int|
                0 <= q < i ==> (#[trigger] e[q]).1.len() < 64 && 4 * total_len(e, q as nat) < pow64(3),
        decreases e.len() - i,
    {
        let n = map[i].1.len();
        assert(e[i as int].1.len() == n);
        if n >= 64 || total >= 65536 {
            assert(!(e[i as int].1.len() < 64 && 4 * total_len(e, i as nat) < pow64(3)));
            return false;
        }
        assert(total_len(e, (i + 1) as nat) == total_len(e, i as nat) + e[i as int].1.len());
        total = total + n as u64;
        i = i + 1;
    }
    assert(table_fits(e));
    true
}

/// Appends one definition: a blank line, its documentation, and the name bound
/// to `body` as one literal broken every 96 characters.
fn push_def(out: &mut String, name: &str, doc: &str, body: &str)
    ensures
        final(out)@ == old(out)@ + def_block(name@, doc@, body@),
{
    let ghost start = out@;
    string_push(out, '\n');
    string_push_str(out, doc);
    string_push_str(out, DEF_OPEN);
    string_push_str(out, name);
    string_push_str(out, DEF_EQUALS);
    let lit = long_literal(body, 96);
    string_push_str(out, lit.as_str());
    string_push(out, '\n');
    assert(out@ =~= start + def_block(name@, doc@, body@));
}

/// Every per-character fact the crate's algorithms consult, as the tables
/// file: combining classes, full canonical, compatibility and CJK-variant
/// decompositions, the primary composites, the leading and trailing
/// non-starter counts, combining marks, public assignment and the quick-check
/// properties. `expected_composites` is the size of the crate's whole
/// composition table, which the composites found must match.
pub fn tables(expected_composites: usize) -> (r: Result<String, TablesError>)
    ensures
        match r {
            Ok(text) => tables_error(expected_composites) is None && text@ == tables_text(),
            Err(e) => tables_error(expected_composites) == Some(e),
        },
{
    let (maj, min, pat) = unicode_version();
    let (canon, compat, variants) = decomposition_maps();
    let parts = composition_parts(&canon);
    let comps = composites(&parts);
    if comps.len() != expected_composites {
        return Err(TablesError::CompositeCount { found: comps.len(), expected: expected_composites });
    }
    let nonstarters = match nonstarter_table() {
        Some(text) => text,
        None => return Err(TablesError::NonstarterCountTooLarge),
    };
    if !fits_table(&canon) {
        return Err(TablesError::DecompositionTableTooLarge(Decomposition::Canonical));
    }
    if !fits_table(&compat) {
        return Err(TablesError::DecompositionTableTooLarge(Decomposition::Compatible));
    }
    if !fits_table(&variants) {
        return Err(TablesError::DecompositionTableTooLarge(Decomposition::CjkVariant));
    }
    let mut out = String::new();
    string_push_str(&mut out, GENERATED_FROM);
    string_push_str(&mut out, UPSTREAM_VERSION);
    string_push_str(&mut out, TABLES_INTRO);
    string_push_str(&mut out, HEADER);
    string_push_str(&mut out, VERSION_INTRO);
    push_decimal(&mut out, maj as u64);
    string_push_str(&mut out, COMMA);
    push_decimal(&mut out, min as u64);
    string_push_str(&mut out, COMMA);
    push_decimal(&mut out, pat as u64);
    string_push(&mut out, ')');
    string_push(&mut out, '\n');
    assert(out@ =~= tables_preamble());

    let classes = value_table(&property_runs(Property::CombiningClass), 2);
    push_def(&mut out, "combiningClasses", DOC_COMBINING_CLASSES, classes.as_str());
    let (canon_index, canon_data) = decomposition_table(&canon);
    let (compat_index, compat_data) = decomposition_table(&compat);
    let (variant_index, variant_data) = decomposition_table(&variants);
    push_def(&mut out, "canonicalIndex", DOC_CANONICAL_INDEX, canon_index.as_str());
    push_def(&mut out, "canonicalData", DOC_DATA, canon_data.as_str());
    push_def(&mut out, "compatibilityIndex", DOC_COMPATIBILITY_INDEX, compat_index.as_str());
    push_def(&mut out, "compatibilityData", DOC_DATA, compat_data.as_str());
    push_def(&mut out, "variantIndex", DOC_VARIANT_INDEX, variant_index.as_str());
    push_def(&mut out, "variantData", DOC_DATA, variant_data.as_str());
    let pairs = composite_table(&comps);
    push_def(&mut out, "composites", DOC_COMPOSITES, pairs.as_str());
    push_def(&mut out, "nonstarters", DOC_NONSTARTERS, nonstarters.as_str());
    let marks = range_table(&property_runs(Property::CombiningMark));
    push_def(&mut out, "combiningMarks", DOC_COMBINING_MARKS, marks.as_str());
    let assigned = range_table(&property_runs(Property::PublicAssigned));
    push_def(&mut out, "publicAssigned", DOC_PUBLIC_ASSIGNED, assigned.as_str());
    let quick = value_table(&property_runs(Property::QuickNfc), 1);
    push_def(&mut out, "quickNfc", DOC_QUICK_NFC, quick.as_str());
    let quick = value_table(&property_runs(Property::QuickNfkc), 1);
    push_def(&mut out, "quickNfkc", DOC_QUICK_NFKC, quick.as_str());
    let quick = value_table(&property_runs(Property::QuickNfd), 1);
    push_def(&mut out, "quickNfd", DOC_QUICK_NFD, quick.as_str());
    let quick = value_table(&property_runs(Property::QuickNfkd), 1);
    push_def(&mut out, "quickNfkd", DOC_QUICK_NFKD, quick.as_str());
    assert(out@ =~= tables_text());
    Ok(out)
}

} // verus!
