//! The test cases: strings, characters and pairs, with what the crate makes of
//! them.

use crate::encoding::{
    base64_digits, byte_len, decimal, digits, literal, long_literal, pow64, push_decimal, push_text,
    string_push, string_push_str, text_record,
};
use crate::official::{official_strings, official_test_strings};
use crate::order::{
    insert_sorted, law_sorted_strings_of, lemma_lex_irreflexive, lex_less, sort_dedup,
    sorted_strings, strictly_sorted,
};
use crate::normalization::{
    canonical_decomposition, cjk_variant_form, combining_class, combining_class_of, combining_mark,
    combining_mark_of, compatibility_decomposition, compose_pair, composition, form_cjk_variants,
    form_nfc, form_nfd, form_nfkc, form_nfkd, form_stream_safe, holds_nfc, holds_nfc_stream_safe,
    holds_nfd, holds_nfd_stream_safe, holds_nfkc, holds_nfkd, nfc_form, nfc_holds, nfc_quick,
    nfc_stream_safe_holds, nfc_stream_safe_quick, nfd_form, nfd_holds, nfd_quick,
    nfd_stream_safe_holds, nfd_stream_safe_quick, nfkc_form, nfkc_holds, nfkc_quick, nfkd_form,
    nfkd_holds, nfkd_quick, public_assigned, public_assigned_of, quick_nfc, quick_nfc_stream_safe,
    quick_nfd, quick_nfd_stream_safe, quick_nfkc, quick_nfkd, stream_safe_form,
    variant_decomposition, QuickCheck,
};
use crate::scalars::{
    all_scalars, canonical, char_from_u32, chars, cjk_variant, compatible, lemma_scalar_at,
    lemma_scalar_index, scalar_at, scalar_char, scalar_index, NUM_SCALARS,
};
use crate::order::lemma_deep_view_push;
use crate::records::field;
use crate::rng::{xorshift_output, xorshift_step, Rng};
use crate::scalars::{is_scalar_value};
use crate::tables::{
    is_only, lemma_pow64_values, qc, quick_value, same_chars, single, GENERATED_FROM, HEADER,
    UPSTREAM_VERSION,
};
use vstd::prelude::*;

verus! {

/// What picking characters keeps: the picks, how many of each combining class
/// were taken, and how many characters were taken for their canonical,
/// compatibility and variant decompositions.
pub type Picking = (Set<char>, Map<u8, nat>, nat, nat, nat);

/// The characters picked before any other: a few letters, a digit, a full
/// stop, a space and DEL.
pub open spec fn first_picks() -> Set<char> {
    set!['a', 'A', 'e', 'o', 'z', '.', '1', ' ', '\u{7f}']
}

/// How many characters of the combining class `k` were taken so far.
pub open spec fn class_count(seen: Map<u8, nat>, k: u8) -> nat {
    if seen.contains_key(k) {
        seen[k]
    } else {
        0
    }
}

/// One step of picking, at the character `c`: the first three of each
/// combining class; sixty characters with a canonical decomposition whose code
/// point is a multiple of 7, with what they decompose to; forty whose
/// compatibility decomposition differs, at multiples of 11; and the first ten
/// with a CJK variant.
pub open spec fn pick_step(st: Picking, c: char) -> Picking {
    let class = combining_class_of(c);
    let count = class_count(st.1, class);
    let picks = if count < 3 { st.0.insert(c) } else { st.0 };
    let seen = st.1.insert(class, if count < 3 { count + 1 } else { count });
    let d = canonical_decomposition(c);
    let take_canon = d != seq![c] && st.2 < 60 && (c as u32) % 7 == 0;
    let picks = if take_canon { picks.insert(c) + d.to_set() } else { picks };
    let canon = if take_canon { st.2 + 1 } else { st.2 };
    let take_compat = compatibility_decomposition(c) != d && st.3 < 40 && (c as u32) % 11 == 0;
    let picks = if take_compat { picks.insert(c) } else { picks };
    let compat = if take_compat { st.3 + 1 } else { st.3 };
    let take_variant = variant_decomposition(c) != seq![c] && st.4 < 10;
    let picks = if take_variant { picks.insert(c) } else { picks };
    let variant = if take_variant { st.4 + 1 } else { st.4 };
    (picks, seen, canon, compat, variant)
}

/// Picking over the first `n` characters.
pub open spec fn picking(n: nat) -> Picking
    decreases n,
{
    if n == 0 {
        (first_picks(), Map::empty(), 0, 0, 0)
    } else {
        pick_step(picking((n - 1) as nat), scalar_char(n - 1))
    }
}

/// Hangul jamo of each kind, and syllables with and without a trailing
/// consonant.
pub open spec fn hangul_picks() -> Seq<char> {
    seq![
        '\u{1100}',
        '\u{1112}',
        '\u{1161}',
        '\u{1175}',
        '\u{11A7}',
        '\u{11A8}',
        '\u{11C2}',
        '\u{11C3}',
        '\u{AC00}',
        '\u{AC01}',
        '\u{D7A3}',
    ]
}

/// Characters with leading or trailing non-starters in their decompositions.
pub open spec fn nonstarter_picks() -> Seq<char> {
    seq![
        '\u{0340}',
        '\u{0344}',
        '\u{0F73}',
        '\u{0F75}',
        '\u{0F81}',
        '\u{FF9E}',
        '\u{1E0B}',
        '\u{1E0D}',
        '\u{0323}',
        '\u{0307}',
        '\u{0301}',
    ]
}

/// Every character picked.
pub open spec fn interesting_set() -> Set<char> {
    picking(NUM_SCALARS as nat).0 + hangul_picks().to_set() + nonstarter_picks().to_set()
}

/// The characters among the first `n` that are in `s`, in increasing order.
pub open spec fn chars_in(s: Set<char>, n: nat) -> Seq<char>
    decreases n,
{
    if n == 0 {
        Seq::empty()
    } else {
        let prev = chars_in(s, (n - 1) as nat);
        if s.contains(scalar_char(n - 1)) {
            prev.push(scalar_char(n - 1))
        } else {
            prev
        }
    }
}

/// The picked characters in increasing order.
pub open spec fn interesting_spec() -> Seq<char> {
    chars_in(interesting_set(), NUM_SCALARS as nat)
}

/// Marks `c` as picked.
fn mark_char(mark: &mut Vec<bool>, c: char)
    requires
        old(mark)@.len() == NUM_SCALARS,
    ensures
        final(mark)@ == old(mark)@.update(scalar_index(c), true),
{
    proof {
        lemma_scalar_index(c);
        vstd::utf8::char_is_scalar(c);
    }
    let cp = c as u32;
    let i = if cp < 0xD800 { cp } else { cp - 0x800 };
    mark.set(i as usize, true);
}

/// Whether the marks are exactly the characters of `s`.
pub open spec fn marks_are(mark: Seq<bool>, s: Set<char>) -> bool {
    &&& mark.len() == NUM_SCALARS
    &&& forall|j: int| 0 <= j < NUM_SCALARS ==> #[trigger] mark[j] == s.contains(scalar_char(j))
}

proof fn lemma_mark_insert(mark: Seq<bool>, s: Set<char>, c: char)
    requires
        marks_are(mark, s),
    ensures
        marks_are(mark.update(scalar_index(c), true), s.insert(c)),
{
    lemma_scalar_index(c);
    assert forall|j: int| 0 <= j < NUM_SCALARS implies #[trigger] mark.update(scalar_index(c), true)[j]
        == s.insert(c).contains(scalar_char(j)) by {
        lemma_scalar_at(j);
        if j == scalar_index(c) {
        } else {
            assert(scalar_char(j) != c);
        }
    }
}

/// Taking one more element of a sequence adds it to the set taken.
pub proof fn lemma_take_step_set<A>(s: Seq<A>, k: int)
    requires
        0 <= k < s.len(),
    ensures
        s.take(k + 1).to_set() == s.take(k).to_set().insert(s[k]),
{
    assert(s.take(k + 1) =~= s.take(k).push(s[k]));
    s.take(k).lemma_push_to_set_commute(s[k]);
}

/// Marks every character of `d` as picked.
fn mark_all(mark: &mut Vec<bool>, d: &Vec<char>, Ghost(s): Ghost<Set<char>>)
    requires
        marks_are(old(mark)@, s),
    ensures
        marks_are(final(mark)@, s + d@.to_set()),
{
    let mut k: usize = 0;
    while k < d.len()
        invariant
            k <= d@.len(),
            marks_are(mark@, s + d@.take(k as int).to_set()),
        decreases d@.len() - k,
    {
        let ghost before = s + d@.take(k as int).to_set();
        proof {
            lemma_mark_insert(mark@, before, d@[k as int]);
        }
        mark_char(mark, d[k]);
        proof {
            lemma_take_step_set(d@, k as int);
            assert(before.insert(d@[k as int]) =~= s + d@.take(k + 1).to_set());
        }
        k = k + 1;
    }
    assert(d@.take(d@.len() as int) =~= d@);
}

/// The marked characters in increasing order.
fn marked_chars(mark: &Vec<bool>, Ghost(s): Ghost<Set<char>>) -> (v: Vec<char>)
    requires
        marks_are(mark@, s),
    ensures
        v@ == chars_in(s, NUM_SCALARS as nat),
{
    let all = chars();
    let mut v: Vec<char> = Vec::new();
    let mut i: usize = 0;
    while i < NUM_SCALARS
        invariant
            i <= NUM_SCALARS,
            all@ == all_scalars(),
            marks_are(mark@, s),
            v@ == chars_in(s, i as nat),
        decreases NUM_SCALARS - i,
    {
        if mark[i] {
            v.push(all[i]);
        }
        i = i + 1;
    }
    v
}

/// Characters of every kind the algorithms treat differently, in increasing
/// order.
pub fn interesting() -> (pool: Vec<char>)
    ensures
        pool@ == interesting_spec(),
{
    let mut mark: Vec<bool> = vec![false; NUM_SCALARS];
    proof {
        assert(marks_are(mark@, Set::empty())) by {
            assert forall|j: int| 0 <= j < NUM_SCALARS implies #[trigger] mark@[j] == Set::<char>::empty().contains(
                scalar_char(j),
            ) by {}
        }
    }
    let first = ['a', 'A', 'e', 'o', 'z', '.', '1', ' ', '\u{7f}'];
    let ghost mut s: Set<char> = Set::empty();
    let mut k: usize = 0;
    while k < 9
        invariant
            k <= 9,
            first@ == seq!['a', 'A', 'e', 'o', 'z', '.', '1', ' ', '\u{7f}'],
            marks_are(mark@, s),
            s == first@.take(k as int).to_set(),
        decreases 9 - k,
    {
        proof {
            lemma_mark_insert(mark@, s, first@[k as int]);
        }
        mark_char(&mut mark, first[k]);
        proof {
            lemma_take_step_set(first@, k as int);
            s = s.insert(first@[k as int]);
        }
        k = k + 1;
    }
    assert(s =~= first_picks()) by {
        assert(first@.take(9) =~= first@);
        assert forall|x: char| #[trigger] first_picks().contains(x) implies s.contains(x) by {
            if x == 'a' { assert(first@[0] == x); }
            else if x == 'A' { assert(first@[1] == x); }
            else if x == 'e' { assert(first@[2] == x); }
            else if x == 'o' { assert(first@[3] == x); }
            else if x == 'z' { assert(first@[4] == x); }
            else if x == '.' { assert(first@[5] == x); }
            else if x == '1' { assert(first@[6] == x); }
            else if x == ' ' { assert(first@[7] == x); }
            else { assert(first@[8] == x); }
        }
    }
    let mut seen: Vec<u8> = vec![0u8; 256];
    let mut canon_n: u32 = 0;
    let mut compat_n: u32 = 0;
    let mut variant_n: u32 = 0;
    let all = chars();
    let mut i: usize = 0;
    while i < NUM_SCALARS
        invariant
            i <= NUM_SCALARS,
            all@ == all_scalars(),
            marks_are(mark@, picking(i as nat).0),
            seen@.len() == 256,
            forall|q: u8| #[trigger] seen@[q as int] as nat == class_count(picking(i as nat).1, q),
            forall|q: u8| #[trigger] class_count(picking(i as nat).1, q) <= 3,
            canon_n as nat == picking(i as nat).2,
            compat_n as nat == picking(i as nat).3,
            variant_n as nat == picking(i as nat).4,
            canon_n <= 60 && compat_n <= 40 && variant_n <= 10,
        decreases NUM_SCALARS - i,
    {
        let c = all[i];
        let ghost st = picking(i as nat);
        assert(c == scalar_char(i as int));
        assert(picking((i + 1) as nat) == pick_step(st, c));
        let class = combining_class(c);
        let count = seen[class as usize];
        assert(count as nat == class_count(st.1, class));
        let ghost mut picks = st.0;
        if count < 3 {
            proof {
                lemma_mark_insert(mark@, picks, c);
                picks = picks.insert(c);
            }
            mark_char(&mut mark, c);
            seen.set(class as usize, count + 1);
        }
        proof {
            let new_seen = st.1.insert(class, if class_count(st.1, class) < 3 { class_count(st.1, class) + 1 } else { class_count(st.1, class) });
            assert forall|q: u8| #[trigger] seen@[q as int] as nat == class_count(new_seen, q) by {}
            assert forall|q: u8| #[trigger] class_count(new_seen, q) <= 3 by {
                assert(class_count(st.1, q) <= 3);
            }
            assert(picking((i + 1) as nat).1 == new_seen);
        }
        proof {
            vstd::utf8::char_is_scalar(c);
        }
        let cp = c as u32;
        let d = canonical(c);
        let one = single(c);
        if !same_chars(&d, &one) && canon_n < 60 && cp % 7 == 0 {
            proof {
                lemma_mark_insert(mark@, picks, c);
                picks = picks.insert(c);
            }
            mark_char(&mut mark, c);
            mark_all(&mut mark, &d, Ghost(picks));
            proof {
                picks = picks + d@.to_set();
            }
            canon_n = canon_n + 1;
        }
        let k = compatible(c);
        if !same_chars(&k, &d) && compat_n < 40 && cp % 11 == 0 {
            proof {
                lemma_mark_insert(mark@, picks, c);
                picks = picks.insert(c);
            }
            mark_char(&mut mark, c);
            compat_n = compat_n + 1;
        }
        let v = cjk_variant(c);
        if !same_chars(&v, &one) && variant_n < 10 {
            proof {
                lemma_mark_insert(mark@, picks, c);
                picks = picks.insert(c);
            }
            mark_char(&mut mark, c);
            variant_n = variant_n + 1;
        }
        assert(picks == picking((i + 1) as nat).0);
        i = i + 1;
    }
    let extra = [
        '\u{1100}', '\u{1112}', '\u{1161}', '\u{1175}', '\u{11A7}', '\u{11A8}', '\u{11C2}',
        '\u{11C3}', '\u{AC00}', '\u{AC01}', '\u{D7A3}', '\u{0340}', '\u{0344}', '\u{0F73}',
        '\u{0F75}', '\u{0F81}', '\u{FF9E}', '\u{1E0B}', '\u{1E0D}', '\u{0323}', '\u{0307}',
        '\u{0301}',
    ];
    let ghost base = picking(NUM_SCALARS as nat).0;
    let mut j: usize = 0;
    while j < 22
        invariant
            j <= 22,
            extra@ == hangul_picks() + nonstarter_picks(),
            marks_are(mark@, base + extra@.take(j as int).to_set()),
        decreases 22 - j,
    {
        let ghost before = base + extra@.take(j as int).to_set();
        proof {
            lemma_mark_insert(mark@, before, extra@[j as int]);
        }
        mark_char(&mut mark, extra[j]);
        proof {
            lemma_take_step_set(extra@, j as int);
            assert(before.insert(extra@[j as int]) =~= base + extra@.take(j + 1).to_set());
        }
        j = j + 1;
    }
    proof {
        assert(extra@.take(22) =~= extra@);
        assert(base + extra@.to_set() =~= interesting_set()) by {
            assert forall|x: char| #[trigger] extra@.to_set().contains(x) implies (hangul_picks().to_set()
                + nonstarter_picks().to_set()).contains(x) by {
                let q = choose|q: int| 0 <= q < extra@.len() && #[trigger] extra@[q] == x;
                if q < 11 {
                    assert(hangul_picks()[q] == x);
                } else {
                    assert(nonstarter_picks()[q - 11] == x);
                }
            }
            assert forall|x: char| #[trigger] (hangul_picks().to_set() + nonstarter_picks().to_set()).contains(x)
                implies extra@.to_set().contains(x) by {
                if hangul_picks().to_set().contains(x) {
                    let q = choose|q: int| 0 <= q < 11 && #[trigger] hangul_picks()[q] == x;
                    assert(extra@[q] == x);
                } else {
                    let q = choose|q: int| 0 <= q < 11 && #[trigger] nonstarter_picks()[q] == x;
                    assert(extra@[q + 11] == x);
                }
            }
        }
    }
    marked_chars(&mark, Ghost(interesting_set()))
}


/// One draw below `n` from the state `s`: the new state and the number.
pub open spec fn draw(s: u64, n: nat) -> (u64, nat) {
    (xorshift_step(s), xorshift_output(xorshift_step(s)) as nat % n)
}

/// `k` characters drawn from `pool` from the state `s`, and the state after.
pub open spec fn random_chars(s: u64, pool: Seq<char>, k: nat) -> (Seq<char>, u64)
    decreases k,
{
    if k == 0 {
        (Seq::empty(), s)
    } else {
        let (prev, t) = random_chars(s, pool, (k - 1) as nat);
        let (u, i) = draw(t, pool.len());
        (prev.push(pool[i as int]), u)
    }
}

/// A random string from the state `s`: its length, 1 to 8, is drawn first,
/// then its characters from `pool`.
pub open spec fn random_string(s: u64, pool: Seq<char>) -> (Seq<char>, u64) {
    let (t, len) = draw(s, 8);
    random_chars(t, pool, len + 1)
}

/// `m` random strings from the state `s`, and the state after.
pub open spec fn random_strings(s: u64, pool: Seq<char>, m: nat) -> (Seq<Seq<char>>, u64)
    decreases m,
{
    if m == 0 {
        (Seq::empty(), s)
    } else {
        let (prev, t) = random_strings(s, pool, (m - 1) as nat);
        let (x, u) = random_string(t, pool);
        (prev.push(x), u)
    }
}

/// `m` random pairs of characters of `pool` from the state `s`, the first
/// drawn before the second, and the state after.
pub open spec fn random_pairs(s: u64, pool: Seq<char>, m: nat) -> (Seq<(char, char)>, u64)
    decreases m,
{
    if m == 0 {
        (Seq::empty(), s)
    } else {
        let (prev, t) = random_pairs(s, pool, (m - 1) as nat);
        let (u, i) = draw(t, pool.len());
        let (w, j) = draw(u, pool.len());
        (prev.push((pool[i as int], pool[j as int])), w)
    }
}

/// Draws `k` characters from `pool`.
fn draw_chars(rng: &mut Rng, pool: &Vec<char>, k: usize) -> (r: Vec<char>)
    requires
        pool@.len() > 0,
    ensures
        (r@, final(rng).0) == random_chars(old(rng).0, pool@, k as nat),
{
    let ghost s0 = rng.0;
    let mut r: Vec<char> = Vec::new();
    let mut q: usize = 0;
    while q < k
        invariant
            q <= k,
            pool@.len() > 0,
            (r@, rng.0) == random_chars(s0, pool@, q as nat),
        decreases k - q,
    {
        let i = rng.below(pool.len());
        r.push(pool[i]);
        q = q + 1;
    }
    r
}

/// Draws `m` random strings of characters from `pool`.
pub fn draw_strings(rng: &mut Rng, pool: &Vec<char>, m: usize) -> (r: Vec<Vec<char>>)
    requires
        pool@.len() > 0,
    ensures
        (r.deep_view(), final(rng).0) == random_strings(old(rng).0, pool@, m as nat),
{
    let ghost s0 = rng.0;
    let mut r: Vec<Vec<char>> = Vec::new();
    let mut q: usize = 0;
    while q < m
        invariant
            q <= m,
            pool@.len() > 0,
            (r.deep_view(), rng.0) == random_strings(s0, pool@, q as nat),
        decreases m - q,
    {
        let len = 1 + rng.below(8);
        let x = draw_chars(rng, pool, len);
        let ghost old_r = r;
        let ghost xv = x;
        r.push(x);
        proof {
            lemma_deep_view_push(old_r, r, xv);
        }
        q = q + 1;
    }
    r
}

/// Draws `m` random pairs of characters from `pool`.
pub fn draw_pairs(rng: &mut Rng, pool: &Vec<char>, m: usize) -> (r: Vec<(char, char)>)
    requires
        pool@.len() > 0,
    ensures
        (r@, final(rng).0) == random_pairs(old(rng).0, pool@, m as nat),
{
    let ghost s0 = rng.0;
    let mut r: Vec<(char, char)> = Vec::new();
    let mut q: usize = 0;
    while q < m
        invariant
            q <= m,
            pool@.len() > 0,
            (r@, rng.0) == random_pairs(s0, pool@, q as nat),
        decreases m - q,
    {
        let i = rng.below(pool.len());
        let j = rng.below(pool.len());
        r.push((pool[i], pool[j]));
        q = q + 1;
    }
    r
}

/// `n` copies of `c`.
pub open spec fn repeat(c: char, n: nat) -> Seq<char> {
    Seq::new(n, |_k: int| c)
}

/// `n` characters of `pool`, taking every seventh, round and round.
pub open spec fn run_marks(pool: Seq<char>, n: nat) -> Seq<char> {
    Seq::new(n, |k: int| pool[(k * 7) % (pool.len() as int)])
}

/// The strings with long runs of non-starters, for stream safety, of `n`
/// non-starters: `a` and `n` acute accents; `a`, `n` characters of the pool
/// and `b`; and U+0344, `n` diaereses and U+0F73.
pub open spec fn run_strings(pool: Seq<char>, n: nat) -> Seq<Seq<char>> {
    seq![
        seq!['a'] + repeat('\u{0301}', n),
        seq!['a'] + run_marks(pool, n) + seq!['b'],
        seq!['\u{0344}'] + repeat('\u{0308}', n) + seq!['\u{0F73}'],
    ]
}

/// The lengths of the runs of non-starters.
pub open spec fn run_lengths() -> Seq<nat> {
    seq![29, 30, 31, 32, 45, 61]
}

/// The strings with long runs for the first `m` lengths.
pub open spec fn long_run_strings(pool: Seq<char>, m: nat) -> Seq<Seq<char>>
    decreases m,
{
    if m == 0 || m > 6 {
        Seq::empty()
    } else {
        long_run_strings(pool, (m - 1) as nat) + run_strings(pool, run_lengths()[m - 1])
    }
}

/// The code points at the edges of the Hangul jamo and syllable ranges.
pub open spec fn hangul_edges() -> Seq<u32> {
    seq![
        0x10FFu32, 0x1100, 0x1112, 0x1113, 0x1160, 0x1161, 0x1175, 0x1176, 0x11A6, 0x11A7, 0x11A8,
        0x11C2, 0x11C3, 0xABFF, 0xAC00, 0xAC01, 0xAC1B, 0xAC1C, 0xD7A3, 0xD7A4,
    ]
}

/// The characters at the edges of the Hangul ranges.
pub open spec fn edge_chars() -> Seq<char> {
    Seq::new(20, |i: int| hangul_edges()[i] as char)
}

/// The strings of the first `q` pairs of edge characters: each pair, and each
/// pair followed by U+11A8, a trailing consonant.
pub open spec fn hangul_strings(q: nat) -> Seq<Seq<char>>
    decreases q,
{
    if q == 0 || q > 400 {
        Seq::empty()
    } else {
        let a = edge_chars()[(q - 1) / 20];
        let b = edge_chars()[(q - 1) % 20];
        hangul_strings((q - 1) as nat) + seq![seq![a, b], seq![a, b, '\u{11A8}']]
    }
}

/// The characters at the edges of the Hangul ranges.
pub fn hangul_edge_chars() -> (r: Vec<char>)
    ensures
        r@ == edge_chars(),
{
    let edges: [u32; 20] = [
        0x10FF, 0x1100, 0x1112, 0x1113, 0x1160, 0x1161, 0x1175, 0x1176, 0x11A6, 0x11A7, 0x11A8,
        0x11C2, 0x11C3, 0xABFF, 0xAC00, 0xAC01, 0xAC1B, 0xAC1C, 0xD7A3, 0xD7A4,
    ];
    assert(edges@ == hangul_edges());
    let mut r: Vec<char> = Vec::new();
    let mut i: usize = 0;
    while i < 20
        invariant
            i <= 20,
            edges@ == hangul_edges(),
            r@ == edge_chars().take(i as int),
        decreases 20 - i,
    {
        let cp = edges[i];
        assert(0x10FF <= cp <= 0xD7A4);
        if let Some(c) = char_from_u32(cp) {
            proof {
                vstd::utf8::char_u32_cast(c, cp);
            }
            r.push(c);
        }
        assert(r@ =~= edge_chars().take(i + 1));
        i = i + 1;
    }
    assert(edge_chars().take(20) =~= edge_chars());
    r
}

/// Pushes one string onto a vector of strings.
fn push_string(r: &mut Vec<Vec<char>>, x: Vec<char>)
    ensures
        final(r).deep_view() == old(r).deep_view().push(x@),
{
    let ghost old_r = *r;
    let ghost xv = x;
    r.push(x);
    proof {
        lemma_deep_view_push(old_r, *r, xv);
    }
}

/// `n` copies of `c`, after `v`.
fn push_repeat(v: &mut Vec<char>, c: char, n: usize)
    ensures
        final(v)@ == old(v)@ + repeat(c, n as nat),
{
    let ghost start = v@;
    let mut k: usize = 0;
    while k < n
        invariant
            k <= n,
            v@ == start + repeat(c, k as nat),
        decreases n - k,
    {
        v.push(c);
        assert(v@ =~= start + repeat(c, (k + 1) as nat));
        k = k + 1;
    }
}

/// The strings with long runs of non-starters.
pub fn long_runs(pool: &Vec<char>) -> (r: Vec<Vec<char>>)
    requires
        pool@.len() > 0,
    ensures
        r.deep_view() == long_run_strings(pool@, 6),
{
    let lengths: [usize; 6] = [29, 30, 31, 32, 45, 61];
    let mut r: Vec<Vec<char>> = Vec::new();
    let mut m: usize = 0;
    while m < 6
        invariant
            m <= 6,
            pool@.len() > 0,
            forall|q: int| 0 <= q < 6 ==> lengths@[q] as nat == #[trigger] run_lengths()[q],
            r.deep_view() == long_run_strings(pool@, m as nat),
        decreases 6 - m,
    {
        let n = lengths[m];
        assert(n as nat == run_lengths()[m as int]);
        assert(n <= 61);
        let mut first: Vec<char> = Vec::new();
        first.push('a');
        push_repeat(&mut first, '\u{0301}', n);
        let mut second: Vec<char> = Vec::new();
        second.push('a');
        let mut k: usize = 0;
        while k < n
            invariant
                k <= n <= 61,
                pool@.len() > 0,
                second@ == seq!['a'] + run_marks(pool@, n as nat).take(k as int),
            decreases n - k,
        {
            second.push(pool[(k * 7) % pool.len()]);
            assert(second@ =~= seq!['a'] + run_marks(pool@, n as nat).take(k + 1));
            k = k + 1;
        }
        second.push('b');
        assert(run_marks(pool@, n as nat).take(n as int) =~= run_marks(pool@, n as nat));
        let mut third: Vec<char> = Vec::new();
        third.push('\u{0344}');
        push_repeat(&mut third, '\u{0308}', n);
        third.push('\u{0F73}');
        let ghost before = r.deep_view();
        let ghost x1 = first@;
        let ghost x2 = second@;
        let ghost x3 = third@;
        push_string(&mut r, first);
        push_string(&mut r, second);
        push_string(&mut r, third);
        proof {
            assert(x1 =~= seq!['a'] + repeat('\u{0301}', n as nat));
            assert(x2 =~= seq!['a'] + run_marks(pool@, n as nat) + seq!['b']);
            assert(x3 =~= seq!['\u{0344}'] + repeat('\u{0308}', n as nat) + seq!['\u{0F73}']);
            assert(r.deep_view() =~= before + run_strings(pool@, n as nat));
        }
        m = m + 1;
    }
    r
}

/// Every pair of Hangul edge characters as a string, and followed by U+11A8.
pub fn hangul_pair_strings(edges: &Vec<char>) -> (r: Vec<Vec<char>>)
    requires
        edges@ == edge_chars(),
    ensures
        r.deep_view() == hangul_strings(400),
{
    let mut r: Vec<Vec<char>> = Vec::new();
    let mut a: usize = 0;
    while a < 20
        invariant
            a <= 20,
            edges@ == edge_chars(),
            r.deep_view() == hangul_strings((20 * a) as nat),
        decreases 20 - a,
    {
        let mut b: usize = 0;
        while b < 20
            invariant
                a < 20,
                b <= 20,
                edges@ == edge_chars(),
                r.deep_view() == hangul_strings((20 * a + b) as nat),
            decreases 20 - b,
        {
            let x = edges[a];
            let y = edges[b];
            let mut two: Vec<char> = Vec::new();
            two.push(x);
            two.push(y);
            let mut three: Vec<char> = Vec::new();
            three.push(x);
            three.push(y);
            three.push('\u{11A8}');
            let ghost before = r.deep_view();
            let ghost t2 = two@;
            let ghost t3 = three@;
            push_string(&mut r, two);
            push_string(&mut r, three);
            proof {
                let q = (20 * a + b + 1) as nat;
                assert((q - 1) / 20 == a);
                assert((q - 1) % 20 == b);
                assert(t2 =~= seq![x, y]);
                assert(t3 =~= seq![x, y, '\u{11A8}']);
                assert(r.deep_view() =~= hangul_strings(q));
            }
            b = b + 1;
        }
        a = a + 1;
    }
    r
}

/// 1 for true, 0 for false.
pub open spec fn bit(b: bool) -> nat {
    if b {
        1
    } else {
        0
    }
}

/// The number that a quick check is written as, as a `u64`.
pub fn quick_index(r: QuickCheck) -> (v: u64)
    ensures
        v as nat == quick_value(r) as nat,
{
    qc(r) as u64
}

/// The six normal forms of `s`: NFD, NFKD, NFC, NFKC, CJK variants and
/// stream-safe.
pub open spec fn normal_forms(s: Seq<char>) -> Seq<Seq<char>> {
    seq![
        nfd_form(s),
        nfkd_form(s),
        nfc_form(s),
        nfkc_form(s),
        cjk_variant_form(s),
        stream_safe_form(s),
    ]
}

/// The six quick checks of `s`: NFC, NFKC, NFD, NFKD, stream-safe NFC and
/// stream-safe NFD.
pub open spec fn quick_checks(s: Seq<char>) -> Seq<QuickCheck> {
    seq![
        nfc_quick(s),
        nfkc_quick(s),
        nfd_quick(s),
        nfkd_quick(s),
        nfc_stream_safe_quick(s),
        nfd_stream_safe_quick(s),
    ]
}

/// The six full checks of `s`, in the order of the quick checks.
pub open spec fn full_checks(s: Seq<char>) -> Seq<bool> {
    seq![
        nfc_holds(s),
        nfkc_holds(s),
        nfd_holds(s),
        nfkd_holds(s),
        nfc_stream_safe_holds(s),
        nfd_stream_safe_holds(s),
    ]
}

/// The case of a string: its kind 0, the string and its six normal forms,
/// the six quick checks and the six full checks.
pub open spec fn string_case(s: Seq<char>) -> Seq<char> {
    base64_digits(0, 1) + text_record(s) + text_records(normal_forms(s), 6) + quick_records(
        quick_checks(s),
        6,
    ) + bit_records(full_checks(s), 6)
}

/// Whether the string and each of its normal forms is shorter than 64^3 bytes,
/// so that its length fits 3 digits.
pub open spec fn string_case_fits(s: Seq<char>) -> bool {
    &&& byte_len(s) < pow64(3)
    &&& forall|q: int| 0 <= q < 6 ==> byte_len(#[trigger] normal_forms(s)[q]) < pow64(3)
}

/// Appends the case of the string `s`, if its lengths fit.
pub fn push_string_case(out: &mut String, s: &Vec<char>) -> (ok: bool)
    ensures
        ok == string_case_fits(s@),
        ok ==> final(out)@ == old(out)@ + string_case(s@),
{
    proof {
        lemma_pow64_values();
    }
    let ghost start = out@;
    assert(pow64(1) == 64);
    digits(out, 0, 1);
    if !push_text(out, s) {
        return false;
    }
    let forms = [
        form_nfd(s), form_nfkd(s), form_nfc(s), form_nfkc(s), form_cjk_variants(s),
        form_stream_safe(s),
    ];
    let ghost fv = normal_forms(s@);
    let mut k: usize = 0;
    while k < 6
        invariant
            k <= 6,
            forall|q: int| 0 <= q < 6 ==> #[trigger] forms@[q]@ == fv[q],
            fv == normal_forms(s@),
            byte_len(s@) < pow64(3),
            forall|q: int| 0 <= q < k ==> byte_len(#[trigger] fv[q]) < pow64(3),
            out@ == start + base64_digits(0, 1) + text_record(s@) + text_records(fv, k as nat),
        decreases 6 - k,
    {
        if !push_text(out, &forms[k]) {
            return false;
        }
        k = k + 1;
    }
    let quick = [
        quick_nfc(s), quick_nfkc(s), quick_nfd(s), quick_nfkd(s), quick_nfc_stream_safe(s),
        quick_nfd_stream_safe(s),
    ];
    assert(quick@ =~= quick_checks(s@));
    let mut k: usize = 0;
    let ghost mid = out@;
    while k < 6
        invariant
            k <= 6,
            pow64(1) == 64,
            quick@ == quick_checks(s@),
            out@ == mid + quick_records(quick@, k as nat),
        decreases 6 - k,
    {
        digits(out, quick_index(quick[k]), 1);
        k = k + 1;
    }
    let full = [
        holds_nfc(s), holds_nfkc(s), holds_nfd(s), holds_nfkd(s), holds_nfc_stream_safe(s),
        holds_nfd_stream_safe(s),
    ];
    assert(full@ =~= full_checks(s@));
    let mut k: usize = 0;
    let ghost mid2 = out@;
    while k < 6
        invariant
            k <= 6,
            pow64(1) == 64,
            full@ == full_checks(s@),
            out@ == mid2 + bit_records(full@, k as nat),
        decreases 6 - k,
    {
        digits(out, if full[k] { 1 } else { 0 }, 1);
        k = k + 1;
    }
    assert(out@ =~= start + string_case(s@));
    true
}

/// The text records of the first `n` strings.
pub open spec fn text_records(v: Seq<Seq<char>>, n: nat) -> Seq<char>
    decreases n,
{
    if n == 0 || n > v.len() {
        Seq::empty()
    } else {
        text_records(v, (n - 1) as nat) + text_record(v[n - 1])
    }
}

/// The first `n` quick-check answers, one digit each.
pub open spec fn quick_records(v: Seq<QuickCheck>, n: nat) -> Seq<char>
    decreases n,
{
    if n == 0 || n > v.len() {
        Seq::empty()
    } else {
        quick_records(v, (n - 1) as nat) + base64_digits(quick_value(v[n - 1]) as nat, 1)
    }
}

/// The first `n` truth values, one digit each.
pub open spec fn bit_records(v: Seq<bool>, n: nat) -> Seq<char>
    decreases n,
{
    if n == 0 || n > v.len() {
        Seq::empty()
    } else {
        bit_records(v, (n - 1) as nat) + base64_digits(bit(v[n - 1]), 1)
    }
}

/// What the character functions say of `c`, in short: its combining class,
/// whether it decomposes canonically, whether its compatibility decomposition
/// differs, whether it has a CJK variant, whether it is a mark, and whether it
/// is assigned for public use.
pub open spec fn shape(c: char) -> (u8, bool, bool, bool, bool, bool) {
    let d = canonical_decomposition(c);
    (
        combining_class_of(c),
        d.len() > 1 || d != seq![c],
        compatibility_decomposition(c) != d,
        variant_decomposition(c) != seq![c],
        combining_mark(c),
        public_assigned(c),
    )
}

/// Whether what the character functions say changes at the `i`-th character:
/// at the first, and wherever the shape differs from the one before.
pub open spec fn shape_changes(i: int) -> bool {
    i == 0 || shape(scalar_char(i)) != shape(scalar_char(i - 1))
}

/// The code point before `cp`, or 0 for 0.
pub open spec fn before_cp(cp: u32) -> int {
    if cp == 0 {
        0
    } else {
        cp - 1
    }
}

/// Whether the code point `cp` is a character case: a character of the pool,
/// or one on either side of a change in what the character functions say.
pub open spec fn selected(pool: Seq<char>, cp: int) -> bool {
    ||| exists|k: int| 0 <= k < pool.len() && #[trigger] pool[k] as u32 == cp
    ||| exists|i: int|
        0 <= i < NUM_SCALARS && #[trigger] shape_changes(i) && (scalar_at(i) == cp || before_cp(
            scalar_at(i),
        ) == cp)
}

/// The case of a character: its kind 1, its code point, its combining class,
/// its three decompositions, and whether it is a mark and publicly assigned.
pub open spec fn char_case(c: char) -> Seq<char> {
    base64_digits(1, 1) + base64_digits(c as u32 as nat, 4) + base64_digits(
        combining_class_of(c) as nat,
        2,
    ) + text_record(canonical_decomposition(c)) + text_record(compatibility_decomposition(c))
        + text_record(variant_decomposition(c)) + base64_digits(bit(combining_mark(c)), 1)
        + base64_digits(bit(public_assigned(c)), 1)
}

/// Whether the decompositions of `c` are shorter than 64^3 bytes.
pub open spec fn char_case_fits(c: char) -> bool {
    &&& byte_len(canonical_decomposition(c)) < pow64(3)
    &&& byte_len(compatibility_decomposition(c)) < pow64(3)
    &&& byte_len(variant_decomposition(c)) < pow64(3)
}

/// Whether the code point `cp` is a character case that is a scalar value.
pub open spec fn is_char_case(pool: Seq<char>, cp: int) -> bool {
    selected(pool, cp) && is_scalar_value(cp)
}

/// The character cases among the first `n` code points.
pub open spec fn char_cases(pool: Seq<char>, n: nat) -> Seq<char>
    decreases n,
{
    if n == 0 {
        Seq::empty()
    } else if is_char_case(pool, n - 1) {
        char_cases(pool, (n - 1) as nat) + char_case(((n - 1) as u32) as char)
    } else {
        char_cases(pool, (n - 1) as nat)
    }
}

/// How many character cases there are among the first `n` code points.
pub open spec fn char_case_count(pool: Seq<char>, n: nat) -> nat
    decreases n,
{
    if n == 0 {
        0
    } else if is_char_case(pool, n - 1) {
        char_case_count(pool, (n - 1) as nat) + 1
    } else {
        char_case_count(pool, (n - 1) as nat)
    }
}

/// Whether every character case's decompositions fit.
pub open spec fn chars_fit(pool: Seq<char>) -> bool {
    forall|cp: int|
        0 <= cp < 0x11_0000 && #[trigger] is_char_case(pool, cp) ==> char_case_fits(
            (cp as u32) as char,
        )
}

/// What the character functions say of `c`, in short.
fn shape_of(c: char) -> (r: (u8, bool, bool, bool, bool, bool))
    ensures
        r == shape(c),
{
    let d = canonical(c);
    let k = compatible(c);
    let v = cjk_variant(c);
    (
        combining_class(c),
        d.len() > 1 || !is_only(&d, c),
        !same_chars(&k, &d),
        !is_only(&v, c),
        combining_mark_of(c),
        public_assigned_of(c),
    )
}

/// Marks every code point that is a character case.
pub fn select_code_points(pool: &Vec<char>) -> (mark: Vec<bool>)
    ensures
        mark@.len() == 0x11_0000,
        forall|cp: int| 0 <= cp < 0x11_0000 ==> #[trigger] mark@[cp] == selected(pool@, cp),
{
    let mut mark: Vec<bool> = vec![false; 0x11_0000];
    let mut k: usize = 0;
    while k < pool.len()
        invariant
            k <= pool@.len(),
            mark@.len() == 0x11_0000,
            forall|cp: int|
                0 <= cp < 0x11_0000 ==> #[trigger] mark@[cp] == exists|q: int|
                    0 <= q < k && #[trigger] pool@[q] as u32 == cp,
        decreases pool@.len() - k,
    {
        let c = pool[k];
        proof {
            vstd::utf8::char_is_scalar(c);
        }
        mark.set(c as u32 as usize, true);
        proof {
            assert forall|cp: int| 0 <= cp < 0x11_0000 implies #[trigger] mark@[cp] == exists|q: int|
                0 <= q < k + 1 && #[trigger] pool@[q] as u32 == cp by {
                if cp == c as u32 {
                    assert(pool@[k as int] as u32 == cp);
                }
            }
        }
        k = k + 1;
    }
    let all = chars();
    let mut last: (u8, bool, bool, bool, bool, bool) = (0, false, false, false, false, false);
    let mut i: usize = 0;
    while i < NUM_SCALARS
        invariant
            i <= NUM_SCALARS,
            all@ == all_scalars(),
            mark@.len() == 0x11_0000,
            i > 0 ==> last == shape(scalar_char(i - 1)),
            forall|cp: int|
                0 <= cp < 0x11_0000 ==> #[trigger] mark@[cp] == ((exists|q: int|
                    0 <= q < pool@.len() && #[trigger] pool@[q] as u32 == cp) || exists|j: int|
                    0 <= j < i && #[trigger] shape_changes(j) && (scalar_at(j) == cp || before_cp(
                        scalar_at(j),
                    ) == cp)),
        decreases NUM_SCALARS - i,
    {
        let c = all[i];
        proof {
            lemma_scalar_at(i as int);
        }
        assert(c == scalar_char(i as int));
        let now = shape_of(c);
        let changed = i == 0 || !(now.0 == last.0 && now.1 == last.1 && now.2 == last.2 && now.3
            == last.3 && now.4 == last.4 && now.5 == last.5);
        assert(changed == shape_changes(i as int));
        let cp = c as u32;
        if changed {
            let below = cp.saturating_sub(1);
            mark.set(below as usize, true);
            mark.set(cp as usize, true);
        }
        proof {
            assert forall|x: int| 0 <= x < 0x11_0000 implies #[trigger] mark@[x] == ((exists|q: int|
                0 <= q < pool@.len() && #[trigger] pool@[q] as u32 == x) || exists|j: int|
                0 <= j < i + 1 && #[trigger] shape_changes(j) && (scalar_at(j) == x || before_cp(
                    scalar_at(j),
                ) == x)) by {
                if changed && (x == cp || x == before_cp(cp)) {
                    assert(shape_changes(i as int) && (scalar_at(i as int) == x || before_cp(
                        scalar_at(i as int),
                    ) == x));
                }
            }
        }
        last = now;
        i = i + 1;
    }
    mark
}

/// Appends the case of the character `c`, if its decompositions fit.
pub fn push_char_case(out: &mut String, c: char) -> (ok: bool)
    ensures
        ok == char_case_fits(c),
        ok ==> final(out)@ == old(out)@ + char_case(c),
{
    proof {
        lemma_pow64_values();
        vstd::utf8::char_is_scalar(c);
    }
    let ghost start = out@;
    digits(out, 1, 1);
    digits(out, c as u32 as u64, 4);
    digits(out, combining_class(c) as u64, 2);
    let d = canonical(c);
    let k = compatible(c);
    let v = cjk_variant(c);
    if !push_text(out, &d) {
        return false;
    }
    if !push_text(out, &k) {
        return false;
    }
    if !push_text(out, &v) {
        return false;
    }
    digits(out, if combining_mark_of(c) { 1 } else { 0 }, 1);
    digits(out, if public_assigned_of(c) { 1 } else { 0 }, 1);
    assert(out@ =~= start + char_case(c));
    true
}

/// The character cases, in increasing order, and how many there are, if every
/// decomposition fits.
pub fn char_cases_text(pool: &Vec<char>) -> (r: Option<(String, usize)>)
    ensures
        r is Some <==> chars_fit(pool@),
        r matches Some((text, count)) ==> text@ == char_cases(pool@, 0x11_0000) && count
            == char_case_count(pool@, 0x11_0000),
{
    let mark = select_code_points(pool);
    let mut out = String::new();
    let mut count: usize = 0;
    let mut cp: u32 = 0;
    while cp < 0x11_0000
        invariant
            cp <= 0x11_0000,
            mark@.len() == 0x11_0000,
            forall|x: int| 0 <= x < 0x11_0000 ==> #[trigger] mark@[x] == selected(pool@, x),
            forall|x: int| 0 <= x < cp && #[trigger] is_char_case(pool@, x) ==> char_case_fits((x as u32) as char),
            out@ == char_cases(pool@, cp as nat),
            count == char_case_count(pool@, cp as nat),
            count <= cp,
        decreases 0x11_0000 - cp,
    {
        if mark[cp as usize] {
            if let Some(c) = char_from_u32(cp) {
                proof {
                    vstd::utf8::char_u32_cast(c, cp);
                }
                assert(is_char_case(pool@, cp as int));
                if !push_char_case(&mut out, c) {
                    return None;
                }
                count = count + 1;
            }
        }
        cp = cp + 1;
    }
    Some((out, count))
}

/// The pairs of Hangul edge characters, each with each.
pub open spec fn edge_pairs() -> Seq<(char, char)> {
    Seq::new(400, |q: int| (edge_chars()[q / 20], edge_chars()[q % 20]))
}

/// The code point of the composite of `a` and `b`, or 0 if they do not
/// compose.
pub open spec fn composite_value(a: char, b: char) -> nat {
    match composition(a, b) {
        Some(c) => c as u32 as nat,
        None => 0,
    }
}

/// The case of a pair: its kind 2, the two code points and that of their
/// composite (0 for none), 4 digits each.
pub open spec fn pair_case(p: (char, char)) -> Seq<char> {
    base64_digits(2, 1) + base64_digits(p.0 as u32 as nat, 4) + base64_digits(p.1 as u32 as nat, 4)
        + base64_digits(composite_value(p.0, p.1), 4)
}

/// The cases of the first `n` pairs.
pub open spec fn pair_cases(ps: Seq<(char, char)>, n: nat) -> Seq<char>
    decreases n,
{
    if n == 0 || n > ps.len() {
        Seq::empty()
    } else {
        pair_cases(ps, (n - 1) as nat) + pair_case(ps[n - 1])
    }
}

/// Every pair of Hangul edge characters.
pub fn hangul_pairs(edges: &Vec<char>) -> (r: Vec<(char, char)>)
    requires
        edges@ == edge_chars(),
    ensures
        r@ == edge_pairs(),
{
    let mut r: Vec<(char, char)> = Vec::new();
    let mut a: usize = 0;
    while a < 20
        invariant
            a <= 20,
            edges@ == edge_chars(),
            r@ == edge_pairs().take(20 * a),
        decreases 20 - a,
    {
        let mut b: usize = 0;
        while b < 20
            invariant
                a < 20,
                b <= 20,
                edges@ == edge_chars(),
                r@ == edge_pairs().take(20 * a + b),
            decreases 20 - b,
        {
            r.push((edges[a], edges[b]));
            proof {
                let q = 20 * a + b;
                assert(q / 20 == a);
                assert(q % 20 == b);
                assert(r@ =~= edge_pairs().take(q + 1));
            }
            b = b + 1;
        }
        a = a + 1;
    }
    assert(edge_pairs().take(400) =~= edge_pairs());
    r
}

/// The cases of the pairs.
pub fn pair_cases_text(ps: &Vec<(char, char)>) -> (s: String)
    ensures
        s@ == pair_cases(ps@, ps@.len()),
{
    proof {
        lemma_pow64_values();
    }
    let mut s = String::new();
    let mut i: usize = 0;
    while i < ps.len()
        invariant
            i <= ps@.len(),
            pow64(1) == 64 && pow64(4) == 16777216,
            s@ == pair_cases(ps@, i as nat),
        decreases ps@.len() - i,
    {
        let (a, b) = ps[i];
        proof {
            vstd::utf8::char_is_scalar(a);
            vstd::utf8::char_is_scalar(b);
        }
        let composite: u32 = match compose_pair(a, b) {
            Some(c) => {
                proof {
                    vstd::utf8::char_is_scalar(c);
                }
                c as u32
            },
            None => 0,
        };
        assert(composite as nat == composite_value(a, b));
        let ghost before = s@;
        digits(&mut s, 2, 1);
        digits(&mut s, a as u32 as u64, 4);
        digits(&mut s, b as u32 as u64, 4);
        digits(&mut s, composite as u64, 4);
        assert(s@ =~= before + pair_case(ps@[i as int]));
        i = i + 1;
    }
    s
}

/// The seed of the generator, so that the cases are the same on every run.
pub const RNG_SEED: u64 = 0x0f0c_7a4a_c0ff_ee42;

/// How many random strings, and how many random pairs, are drawn.
pub const DRAWS: usize = 3000;

/// What follows the version in the cases file, up to the number of strings.
pub const CASES_INTRO: &'static str = ".\n-- Do not edit: run the script again instead.\n--\n-- Inputs, with what the crate makes of them, for `Tests.mw`: ";

/// What follows the number of strings.
pub const CASES_STRINGS: &'static str = " strings, ";

/// What follows the number of strings from the official test.
pub const CASES_OFFICIAL: &'static str = " of\n-- them from the official NormalizationTest.txt; ";

/// What follows the number of characters.
pub const CASES_CHARS: &'static str = " characters; and\n-- ";

/// What follows the number of pairs, up to the licence.
pub const CASES_PAIRS: &'static str = " pairs composed.\n--\n";

/// What follows the licence, up to the literal of the cases.
pub const CASES_FORMAT: &'static str = "\n\n-- Each case starts with its kind (1 base-64 digit), and its fields follow in\n-- the order `Tests.mw` reads them. A string is its length in bytes (3 digits)\n-- and then its bytes; a quick check is 0, 1 or 2 for Yes, No or Maybe.\n@cfg(test)\n@pub(pkg) def cases =\n  ";

/// Every string case before sorting: those of the official test `t`, then the
/// random ones, the long runs and the Hangul pairs.
pub open spec fn case_strings(t: Seq<char>) -> Seq<Seq<char>> {
    let pool = interesting_spec();
    official_strings(t) + random_strings(RNG_SEED, pool, DRAWS as nat).0 + long_run_strings(pool, 6)
        + hangul_strings(400)
}

/// The string cases, sorted, each once.
pub open spec fn final_strings(t: Seq<char>) -> Seq<Seq<char>> {
    sorted_strings(case_strings(t).to_set())
}

/// The pairs composed: every pair of Hangul edge characters, then random pairs
/// drawn after the random strings.
pub open spec fn case_pairs() -> Seq<(char, char)> {
    let pool = interesting_spec();
    edge_pairs() + random_pairs(
        random_strings(RNG_SEED, pool, DRAWS as nat).1,
        pool,
        DRAWS as nat,
    ).0
}

/// The cases of the first `n` strings.
pub open spec fn string_cases(ss: Seq<Seq<char>>, n: nat) -> Seq<char>
    decreases n,
{
    if n == 0 || n > ss.len() {
        Seq::empty()
    } else {
        string_cases(ss, (n - 1) as nat) + string_case(ss[n - 1])
    }
}

/// Whether the lengths of every string case fit.
pub open spec fn strings_fit(ss: Seq<Seq<char>>) -> bool {
    forall|k: int| 0 <= k < ss.len() ==> string_case_fits(#[trigger] ss[k])
}

/// Every case, one after another: strings, characters, pairs.
pub open spec fn cases_body(t: Seq<char>) -> Seq<char> {
    string_cases(final_strings(t), final_strings(t).len()) + char_cases(interesting_spec(), 0x11_0000)
        + pair_cases(case_pairs(), case_pairs().len())
}

/// The cases file for the official test `t`.
pub open spec fn cases_text(t: Seq<char>) -> Seq<char> {
    GENERATED_FROM@ + UPSTREAM_VERSION@ + CASES_INTRO@ + decimal(final_strings(t).len())
        + CASES_STRINGS@ + decimal(official_strings(t).to_set().len()) + CASES_OFFICIAL@ + decimal(
        char_case_count(interesting_spec(), 0x11_0000),
    ) + CASES_CHARS@ + decimal(case_pairs().len()) + CASES_PAIRS@ + HEADER@ + CASES_FORMAT@
        + literal(cases_body(t), 96) + seq!['\n']
}

/// Why the cases could not be written.
#[derive(Clone, Copy, Debug, PartialEq, Eq, Structural)]
pub enum CasesError {
    /// A string, or one of its normal forms, is 64^3 bytes or longer.
    StringTooLong,
    /// A decomposition of a character case is 64^3 bytes or longer.
    DecompositionTooLong,
}

/// Why the cases for the official test `t` cannot be written, if anything
/// stops them: the strings are written first, then the characters.
pub open spec fn cases_error(t: Seq<char>) -> Option<CasesError> {
    if !strings_fit(final_strings(t)) {
        Some(CasesError::StringTooLong)
    } else if !chars_fit(interesting_spec()) {
        Some(CasesError::DecompositionTooLong)
    } else {
        None
    }
}

proof fn lemma_first_picks_kept(n: nat)
    ensures
        first_picks().subset_of(picking(n).0),
    decreases n,
{
    if n > 0 {
        lemma_first_picks_kept((n - 1) as nat);
    }
}

proof fn lemma_chars_in_nonempty(s: Set<char>, n: nat, j: int)
    requires
        0 <= j < n,
        s.contains(scalar_char(j)),
    ensures
        chars_in(s, n).len() > 0,
    decreases n,
{
    if j < n - 1 {
        lemma_chars_in_nonempty(s, (n - 1) as nat, j);
    }
}

/// The pool of characters is never empty: it holds `a`.
pub proof fn lemma_pool_nonempty()
    ensures
        interesting_spec().len() > 0,
{
    lemma_first_picks_kept(NUM_SCALARS as nat);
    lemma_scalar_index('a');
    assert(first_picks().contains('a'));
    lemma_chars_in_nonempty(interesting_set(), NUM_SCALARS as nat, scalar_index('a'));
}

/// `chars_in` lists the characters of `s` among the first `n` in increasing
/// order, each once.
pub proof fn lemma_chars_in(s: Set<char>, n: nat)
    requires
        n <= NUM_SCALARS,
    ensures
        forall|i: int, j: int|
            0 <= i < j < chars_in(s, n).len() ==> ((#[trigger] chars_in(s, n)[i]) as u32) < ((
            #[trigger] chars_in(s, n)[j]) as u32),
        forall|c: char| #[trigger] chars_in(s, n).contains(c) <==> (s.contains(c) && scalar_index(c) < n),
    decreases n,
{
    if n > 0 {
        lemma_chars_in(s, (n - 1) as nat);
        lemma_scalar_at(n - 1);
        if n > 1 {
            lemma_scalar_at(n - 2);
        }
        let prev = chars_in(s, (n - 1) as nat);
        let r = chars_in(s, n);
        let c = scalar_char(n - 1);
        assert forall|x: char| #[trigger] prev.contains(x) implies (x as u32) <= scalar_at(n - 2) by {
            lemma_scalar_index(x);
            lemma_scalar_at(scalar_index(x));
            if scalar_index(x) < n - 2 {
                lemma_scalar_at(scalar_index(x) + 1);
                assert(scalar_at(scalar_index(x)) < scalar_at(n - 2)) by {
                    lemma_scalar_order_cases(scalar_index(x), n - 2);
                }
            }
        }
        if s.contains(c) {
            assert(r == prev.push(c));
            assert forall|i: int, j: int| 0 <= i < j < r.len() implies ((#[trigger] r[i]) as u32) < ((
            #[trigger] r[j]) as u32) by {
                if j == prev.len() {
                    assert(prev.contains(r[i]));
                }
            }
            assert forall|x: char| #[trigger] r.contains(x) <==> (s.contains(x) && scalar_index(x) < n) by {
                lemma_scalar_index(x);
                if x == c {
                    assert(r[prev.len() as int] == x);
                } else if r.contains(x) {
                    let k = choose|k: int| 0 <= k < r.len() && r[k] == x;
                    assert(prev[k] == x);
                    assert(prev.contains(x));
                } else if s.contains(x) && scalar_index(x) < n {
                    assert(scalar_index(x) != n - 1);
                    assert(prev.contains(x));
                    let k = choose|k: int| 0 <= k < prev.len() && prev[k] == x;
                    assert(r[k] == x);
                }
            }
        } else {
            assert(r == prev);
            assert forall|x: char| #[trigger] r.contains(x) <==> (s.contains(x) && scalar_index(x) < n) by {
                lemma_scalar_index(x);
            }
        }
    }
}

proof fn lemma_scalar_order_cases(i: int, j: int)
    requires
        0 <= i < j < NUM_SCALARS,
    ensures
        scalar_at(i) < scalar_at(j),
{
}

/// The pool holds exactly the picked characters, in increasing order, each
/// once; among them the first picks, the Hangul jamo and syllables and the
/// characters with non-starters at the ends of their decompositions.
pub proof fn law_pool_sorted()
    ensures
        forall|i: int, j: int|
            0 <= i < j < interesting_spec().len() ==> ((#[trigger] interesting_spec()[i]) as u32) < ((
            #[trigger] interesting_spec()[j]) as u32),
        forall|c: char| #[trigger] interesting_spec().contains(c) <==> interesting_set().contains(c),
        first_picks().subset_of(interesting_set()),
        forall|k: int| 0 <= k < 11 ==> interesting_set().contains(#[trigger] hangul_picks()[k]),
        forall|k: int| 0 <= k < 11 ==> interesting_set().contains(#[trigger] nonstarter_picks()[k]),
{
    lemma_chars_in(interesting_set(), NUM_SCALARS as nat);
    lemma_first_picks_kept(NUM_SCALARS as nat);
    assert forall|c: char| #[trigger] interesting_spec().contains(c) <==> interesting_set().contains(c) by {
        lemma_scalar_index(c);
    }
    assert forall|k: int| 0 <= k < 11 implies interesting_set().contains(#[trigger] hangul_picks()[k]) by {
        assert(hangul_picks().to_set().contains(hangul_picks()[k]));
    }
    assert forall|k: int| 0 <= k < 11 implies interesting_set().contains(#[trigger] nonstarter_picks()[k]) by {
        assert(nonstarter_picks().to_set().contains(nonstarter_picks()[k]));
    }
}

/// Whether `c` is of the kind taken for its canonical decomposition: it
/// decomposes, and its code point is a multiple of 7.
pub open spec fn canon_candidate(c: char) -> bool {
    canonical_decomposition(c) != seq![c] && (c as u32) % 7 == 0
}

/// Whether `c` is of the kind taken for its compatibility decomposition: it
/// differs from the canonical one, and its code point is a multiple of 11.
pub open spec fn compat_candidate(c: char) -> bool {
    compatibility_decomposition(c) != canonical_decomposition(c) && (c as u32) % 11 == 0
}

/// Whether `c` has a CJK variant.
pub open spec fn variant_candidate(c: char) -> bool {
    variant_decomposition(c) != seq![c]
}

/// How many of the first `n` characters are canonical candidates.
pub open spec fn canon_candidates(n: nat) -> nat
    decreases n,
{
    if n == 0 {
        0
    } else {
        canon_candidates((n - 1) as nat) + if canon_candidate(scalar_char(n - 1)) {
            1nat
        } else {
            0nat
        }
    }
}

/// How many of the first `n` characters are compatibility candidates.
pub open spec fn compat_candidates(n: nat) -> nat
    decreases n,
{
    if n == 0 {
        0
    } else {
        compat_candidates((n - 1) as nat) + if compat_candidate(scalar_char(n - 1)) {
            1nat
        } else {
            0nat
        }
    }
}

/// How many of the first `n` characters have a CJK variant.
pub open spec fn variant_candidates(n: nat) -> nat
    decreases n,
{
    if n == 0 {
        0
    } else {
        variant_candidates((n - 1) as nat) + if variant_candidate(scalar_char(n - 1)) {
            1nat
        } else {
            0nat
        }
    }
}

/// How many of the first `n` characters have the combining class `k`.
pub open spec fn class_members(k: u8, n: nat) -> nat
    decreases n,
{
    if n == 0 {
        0
    } else {
        class_members(k, (n - 1) as nat) + if combining_class_of(scalar_char(n - 1)) == k {
            1nat
        } else {
            0nat
        }
    }
}

/// `x`, but at most `cap`.
pub open spec fn capped(x: nat, cap: nat) -> nat {
    if x < cap {
        x
    } else {
        cap
    }
}

proof fn lemma_picking_counts(n: nat)
    ensures
        picking(n).2 == capped(canon_candidates(n), 60),
        picking(n).3 == capped(compat_candidates(n), 40),
        picking(n).4 == capped(variant_candidates(n), 10),
        forall|k: u8| #[trigger] class_count(picking(n).1, k) == capped(class_members(k, n), 3),
    decreases n,
{
    if n > 0 {
        lemma_picking_counts((n - 1) as nat);
        let st = picking((n - 1) as nat);
        let c = scalar_char(n - 1);
        let class = combining_class_of(c);
        let count = class_count(st.1, class);
        let seen = st.1.insert(class, if count < 3 { count + 1 } else { count });
        assert(picking(n).1 == seen);
        assert forall|k: u8| #[trigger] class_count(picking(n).1, k) == capped(class_members(k, n), 3) by {
            assert(class_count(st.1, k) == capped(class_members(k, (n - 1) as nat), 3));
            if k == class {
                assert(seen.contains_key(k));
            } else {
                if st.1.contains_key(k) {
                    assert(seen.contains_key(k) && seen[k] == st.1[k]);
                } else {
                    assert(!seen.contains_key(k));
                }
            }
        }
    }
}

proof fn lemma_picks_grow(m: nat, n: nat)
    requires
        m <= n,
    ensures
        picking(m).0.subset_of(picking(n).0),
    decreases n,
{
    if m < n {
        lemma_picks_grow(m, (n - 1) as nat);
    }
}

/// Which characters the pool is sure to hold: the first three of each
/// combining class; each of the first sixty characters that decompose
/// canonically at a multiple of 7, with every character it decomposes to;
/// each of the first forty whose compatibility decomposition differs, at a
/// multiple of 11; and each of the first ten with a CJK variant.
pub proof fn law_pool_picks()
    ensures
        forall|c: char|
            class_members(combining_class_of(c), scalar_index(c) as nat) < 3 ==> #[trigger] interesting_spec().contains(c),
        forall|c: char|
            #[trigger] canon_candidate(c) && canon_candidates(scalar_index(c) as nat) < 60 ==> {
                &&& interesting_spec().contains(c)
                &&& forall|j: int|
                    0 <= j < canonical_decomposition(c).len() ==> interesting_spec().contains(
                        #[trigger] canonical_decomposition(c)[j],
                    )
            },
        forall|c: char|
            #[trigger] compat_candidate(c) && compat_candidates(scalar_index(c) as nat) < 40
                ==> interesting_spec().contains(c),
        forall|c: char|
            #[trigger] variant_candidate(c) && variant_candidates(scalar_index(c) as nat) < 10
                ==> interesting_spec().contains(c),
{
    law_pool_sorted();
    let all = NUM_SCALARS as nat;
    assert forall|c: char| #[trigger] picking(all).0.contains(c) implies interesting_spec().contains(c) by {}
    assert forall|c: char|
        class_members(combining_class_of(c), scalar_index(c) as nat) < 3 implies #[trigger] interesting_spec().contains(c) by {
        lemma_step_picks(c);
    }
    assert forall|c: char| #[trigger] canon_candidate(c) && canon_candidates(scalar_index(c) as nat) < 60 implies {
        &&& interesting_spec().contains(c)
        &&& forall|j: int|
            0 <= j < canonical_decomposition(c).len() ==> interesting_spec().contains(
                #[trigger] canonical_decomposition(c)[j],
            )
    } by {
        lemma_step_picks(c);
        assert forall|j: int| 0 <= j < canonical_decomposition(c).len() implies interesting_spec().contains(
            #[trigger] canonical_decomposition(c)[j],
        ) by {
            assert(canonical_decomposition(c).to_set().contains(canonical_decomposition(c)[j]));
        }
    }
    assert forall|c: char| #[trigger] compat_candidate(c) && compat_candidates(scalar_index(c) as nat) < 40
        implies interesting_spec().contains(c) by {
        lemma_step_picks(c);
    }
    assert forall|c: char| #[trigger] variant_candidate(c) && variant_candidates(scalar_index(c) as nat) < 10
        implies interesting_spec().contains(c) by {
        lemma_step_picks(c);
    }
}

/// What the step at `c` adds to the picks, kept to the end.
proof fn lemma_step_picks(c: char)
    ensures
        ({
            let k = scalar_index(c) as nat;
            let picks = picking(NUM_SCALARS as nat).0;
            &&& class_members(combining_class_of(c), k) < 3 ==> picks.contains(c)
            &&& canon_candidate(c) && canon_candidates(k) < 60 ==> picks.contains(c)
                && canonical_decomposition(c).to_set().subset_of(picks)
            &&& compat_candidate(c) && compat_candidates(k) < 40 ==> picks.contains(c)
            &&& variant_candidate(c) && variant_candidates(k) < 10 ==> picks.contains(c)
        }),
{
    lemma_scalar_index(c);
    let k = scalar_index(c) as nat;
    lemma_picking_counts(k);
    lemma_picks_grow(k + 1, NUM_SCALARS as nat);
    let st = picking(k);
    assert(scalar_char(k as int) == c);
    assert(picking(k + 1) == pick_step(st, c));
    assert(class_count(st.1, combining_class_of(c)) == capped(class_members(combining_class_of(c), k), 3));
}

/// The digit a quick-check answer is written as: `0` for Yes, `1` for No and
/// `2` for Maybe.
pub open spec fn quick_digit(q: QuickCheck) -> char {
    match q {
        QuickCheck::Yes => '0',
        QuickCheck::No => '1',
        QuickCheck::Maybe => '2',
    }
}

/// The digit a truth value is written as: `1` for true, `0` for false.
pub open spec fn bit_digit(b: bool) -> char {
    if b {
        '1'
    } else {
        '0'
    }
}

proof fn lemma_one_digit(v: nat)
    requires
        v < 64,
    ensures
        base64_digits(v, 1) == seq![(48 + v) as char],
{
    assert(base64_digits(v / 64, 0) =~= Seq::<char>::empty());
    assert(base64_digits(v, 1) =~= seq![(48 + v) as char]);
}

proof fn lemma_quick_digit(x: QuickCheck)
    ensures
        base64_digits(quick_value(x) as nat, 1) == seq![quick_digit(x)],
{
    lemma_one_digit(quick_value(x) as nat);
}

proof fn lemma_bit_digit(b: bool)
    ensures
        base64_digits(bit(b), 1) == seq![bit_digit(b)],
{
    lemma_one_digit(bit(b));
}

proof fn lemma_quick_records_six(q: Seq<QuickCheck>)
    requires
        q.len() == 6,
    ensures
        quick_records(q, 6) == seq![
            quick_digit(q[0]),
            quick_digit(q[1]),
            quick_digit(q[2]),
            quick_digit(q[3]),
            quick_digit(q[4]),
            quick_digit(q[5]),
        ],
{
    lemma_quick_digit(q[0]);
    lemma_quick_digit(q[1]);
    lemma_quick_digit(q[2]);
    lemma_quick_digit(q[3]);
    lemma_quick_digit(q[4]);
    lemma_quick_digit(q[5]);
    assert(quick_records(q, 0) == Seq::<char>::empty());
    assert(quick_records(q, 1) =~= seq![quick_digit(q[0])]);
    assert(quick_records(q, 2) =~= seq![quick_digit(q[0]), quick_digit(q[1])]);
    assert(quick_records(q, 3) =~= seq![quick_digit(q[0]), quick_digit(q[1]), quick_digit(q[2])]);
    assert(quick_records(q, 4) =~= seq![
        quick_digit(q[0]),
        quick_digit(q[1]),
        quick_digit(q[2]),
        quick_digit(q[3]),
    ]);
    assert(quick_records(q, 5) =~= seq![
        quick_digit(q[0]),
        quick_digit(q[1]),
        quick_digit(q[2]),
        quick_digit(q[3]),
        quick_digit(q[4]),
    ]);
    assert(quick_records(q, 6) =~= seq![
        quick_digit(q[0]),
        quick_digit(q[1]),
        quick_digit(q[2]),
        quick_digit(q[3]),
        quick_digit(q[4]),
        quick_digit(q[5]),
    ]);
}

proof fn lemma_bit_records_six(f: Seq<bool>)
    requires
        f.len() == 6,
    ensures
        bit_records(f, 6) == seq![
            bit_digit(f[0]),
            bit_digit(f[1]),
            bit_digit(f[2]),
            bit_digit(f[3]),
            bit_digit(f[4]),
            bit_digit(f[5]),
        ],
{
    lemma_bit_digit(f[0]);
    lemma_bit_digit(f[1]);
    lemma_bit_digit(f[2]);
    lemma_bit_digit(f[3]);
    lemma_bit_digit(f[4]);
    lemma_bit_digit(f[5]);
    assert(bit_records(f, 0) == Seq::<char>::empty());
    assert(bit_records(f, 1) =~= seq![bit_digit(f[0])]);
    assert(bit_records(f, 2) =~= seq![bit_digit(f[0]), bit_digit(f[1])]);
    assert(bit_records(f, 3) =~= seq![bit_digit(f[0]), bit_digit(f[1]), bit_digit(f[2])]);
    assert(bit_records(f, 4) =~= seq![bit_digit(f[0]), bit_digit(f[1]), bit_digit(f[2]), bit_digit(f[3])]);
    assert(bit_records(f, 5) =~= seq![
        bit_digit(f[0]),
        bit_digit(f[1]),
        bit_digit(f[2]),
        bit_digit(f[3]),
        bit_digit(f[4]),
    ]);
    assert(bit_records(f, 6) =~= seq![
        bit_digit(f[0]),
        bit_digit(f[1]),
        bit_digit(f[2]),
        bit_digit(f[3]),
        bit_digit(f[4]),
        bit_digit(f[5]),
    ]);
}

proof fn lemma_text_records_six(v: Seq<Seq<char>>)
    requires
        v.len() == 6,
    ensures
        text_records(v, 6) == text_record(v[0]) + text_record(v[1]) + text_record(v[2]) + text_record(
            v[3],
        ) + text_record(v[4]) + text_record(v[5]),
{
    assert(text_records(v, 0) == Seq::<char>::empty());
    assert(text_records(v, 1) =~= text_record(v[0]));
    assert(text_records(v, 2) == text_records(v, 1) + text_record(v[1]));
    assert(text_records(v, 3) == text_records(v, 2) + text_record(v[2]));
    assert(text_records(v, 4) == text_records(v, 3) + text_record(v[3]));
    assert(text_records(v, 5) == text_records(v, 4) + text_record(v[4]));
    assert(text_records(v, 6) == text_records(v, 5) + text_record(v[5]));
}

/// A string case is the digit `0`; the string; its NFD, NFKD, NFC, NFKC,
/// CJK-variant and stream-safe forms; its NFC, NFKC, NFD, NFKD, stream-safe
/// NFC and stream-safe NFD quick checks, one digit each; and the same six
/// full checks, one digit each.
pub proof fn law_string_case_layout(s: Seq<char>)
    ensures
        string_case(s) == seq!['0'] + text_record(s) + text_record(nfd_form(s)) + text_record(
            nfkd_form(s),
        ) + text_record(nfc_form(s)) + text_record(nfkc_form(s)) + text_record(cjk_variant_form(s))
            + text_record(stream_safe_form(s)) + seq![
            quick_digit(nfc_quick(s)),
            quick_digit(nfkc_quick(s)),
            quick_digit(nfd_quick(s)),
            quick_digit(nfkd_quick(s)),
            quick_digit(nfc_stream_safe_quick(s)),
            quick_digit(nfd_stream_safe_quick(s)),
            bit_digit(nfc_holds(s)),
            bit_digit(nfkc_holds(s)),
            bit_digit(nfd_holds(s)),
            bit_digit(nfkd_holds(s)),
            bit_digit(nfc_stream_safe_holds(s)),
            bit_digit(nfd_stream_safe_holds(s)),
        ],
{
    lemma_one_digit(0);
    lemma_quick_records_six(quick_checks(s));
    lemma_bit_records_six(full_checks(s));
    lemma_text_records_six(normal_forms(s));
    let tail = seq![
        quick_digit(nfc_quick(s)),
        quick_digit(nfkc_quick(s)),
        quick_digit(nfd_quick(s)),
        quick_digit(nfkd_quick(s)),
        quick_digit(nfc_stream_safe_quick(s)),
        quick_digit(nfd_stream_safe_quick(s)),
        bit_digit(nfc_holds(s)),
        bit_digit(nfkc_holds(s)),
        bit_digit(nfd_holds(s)),
        bit_digit(nfkd_holds(s)),
        bit_digit(nfc_stream_safe_holds(s)),
        bit_digit(nfd_stream_safe_holds(s)),
    ];
    assert(quick_records(quick_checks(s), 6) + bit_records(full_checks(s), 6) =~= tail);
    assert(string_case(s) =~= seq!['0'] + text_record(s) + text_record(nfd_form(s)) + text_record(
        nfkd_form(s),
    ) + text_record(nfc_form(s)) + text_record(nfkc_form(s)) + text_record(cjk_variant_form(s))
        + text_record(stream_safe_form(s)) + tail);
}

/// A character case is the digit `1`, the code point (4 digits) and the
/// combining class (2 digits), which read back; the canonical, compatibility
/// and CJK-variant decompositions; and whether the character is a mark and
/// whether it is assigned for public use, one digit each.
pub proof fn law_char_case_layout(c: char)
    ensures
        char_case(c) == seq!['1'] + base64_digits(c as u32 as nat, 4) + base64_digits(
            combining_class_of(c) as nat,
            2,
        ) + text_record(canonical_decomposition(c)) + text_record(compatibility_decomposition(c))
            + text_record(variant_decomposition(c)) + seq![
            bit_digit(combining_mark(c)),
            bit_digit(public_assigned(c)),
        ],
        field(char_case(c), 1, 4) == c as u32,
        field(char_case(c), 5, 2) == combining_class_of(c),
{
    lemma_one_digit(1);
    lemma_bit_digit(combining_mark(c));
    lemma_bit_digit(public_assigned(c));
    lemma_pow64_values();
    vstd::utf8::char_is_scalar(c);
    let t = char_case(c);
    let cp = base64_digits(c as u32 as nat, 4);
    let cl = base64_digits(combining_class_of(c) as nat, 2);
    crate::encoding::law_digits_roundtrip(c as u32 as nat, 4);
    crate::encoding::law_digits_roundtrip(combining_class_of(c) as nat, 2);
    assert(t =~= seq!['1'] + cp + cl + text_record(canonical_decomposition(c)) + text_record(
        compatibility_decomposition(c),
    ) + text_record(variant_decomposition(c)) + seq![
        bit_digit(combining_mark(c)),
        bit_digit(public_assigned(c)),
    ]);
    assert(t.subrange(1, 5) =~= cp);
    assert(t.subrange(5, 7) =~= cl);
}

/// A pair case is the digit `2`, then the two characters and their
/// composite, 4 digits each, which read back: the composite's code point
/// where the crate composes the pair, 0 where it does not.
pub proof fn law_pair_case_layout(p: (char, char))
    ensures
        pair_case(p).len() == 13,
        pair_case(p)[0] == '2',
        field(pair_case(p), 1, 4) == p.0 as u32,
        field(pair_case(p), 5, 4) == p.1 as u32,
        field(pair_case(p), 9, 4) == match composition(p.0, p.1) {
            Some(x) => x as u32 as int,
            None => 0,
        },
{
    lemma_one_digit(2);
    lemma_pow64_values();
    vstd::utf8::char_is_scalar(p.0);
    vstd::utf8::char_is_scalar(p.1);
    let v = composite_value(p.0, p.1);
    if let Some(x) = composition(p.0, p.1) {
        vstd::utf8::char_is_scalar(x);
    }
    crate::encoding::law_digits_roundtrip(p.0 as u32 as nat, 4);
    crate::encoding::law_digits_roundtrip(p.1 as u32 as nat, 4);
    crate::encoding::law_digits_roundtrip(v, 4);
    let t = pair_case(p);
    assert(t.subrange(1, 5) =~= base64_digits(p.0 as u32 as nat, 4));
    assert(t.subrange(5, 9) =~= base64_digits(p.1 as u32 as nat, 4));
    assert(t.subrange(9, 13) =~= base64_digits(v, 4));
}

/// Inserts each of `more` into the sorted, duplicate-free `v`.
fn insert_all(v: &mut Vec<Vec<char>>, more: Vec<Vec<char>>)
    requires
        strictly_sorted(old(v).deep_view()),
    ensures
        strictly_sorted(final(v).deep_view()),
        final(v).deep_view().to_set() == old(v).deep_view().to_set() + more.deep_view().to_set(),
{
    broadcast use crate::order::lemma_chars_deep_view_is_view;
    let ghost orig = more.deep_view();
    let ghost start = v.deep_view().to_set();
    let mut more = more;
    assert(orig.skip(orig.len() as int).to_set() =~= Set::<Seq<char>>::empty());
    assert(start + Set::<Seq<char>>::empty() =~= start);
    while more.len() > 0
        invariant
            more.deep_view() == orig.take(more@.len() as int),
            more@.len() <= orig.len(),
            strictly_sorted(v.deep_view()),
            v.deep_view().to_set() == start + orig.skip(more@.len() as int).to_set(),
        decreases more@.len(),
    {
        let ghost n = more@.len();
        let ghost old_more = more;
        let s = more.pop().unwrap();
        proof {
            assert(more.deep_view() =~= orig.take(more@.len() as int));
            assert(orig[n - 1] == orig.take(n as int)[n - 1]);
            assert(old_more.deep_view()[n - 1] == old_more@[n - 1].deep_view());
            assert(s@ == orig[n - 1]);
            let tail = orig.skip(n - 1);
            let rest = orig.skip(n as int);
            assert(tail =~= seq![s@] + rest);
            vstd::seq_lib::seq_to_set_distributes_over_add(seq![s@], rest);
            assert(seq![s@].to_set() =~= set![s@]) by {
                assert forall|x: Seq<char>| #[trigger] seq![s@].to_set().contains(x) implies x == s@ by {
                    let q = choose|q: int| 0 <= q < 1 && seq![s@][q] == x;
                }
                assert(seq![s@][0] == s@);
            }
        }
        insert_sorted(v, s);
        proof {
            assert(v.deep_view().to_set() =~= start + orig.skip(n - 1).to_set());
        }
    }
    assert(orig.skip(0) =~= orig);
}

/// A sorted, duplicate-free sequence has as many strings as its set.
proof fn lemma_sorted_count(r: Seq<Seq<char>>)
    requires
        strictly_sorted(r),
    ensures
        r.len() == r.to_set().len(),
{
    assert forall|i: int, j: int| 0 <= i < r.len() && 0 <= j < r.len() && i != j implies r[i] != r[j] by {
        lemma_lex_irreflexive(r[i]);
        if i < j {
            assert(lex_less(r[i], r[j]));
        } else {
            assert(lex_less(r[j], r[i]));
        }
    }
    assert(r.no_duplicates());
    r.unique_seq_to_set();
}


/// Inputs with what the crate makes of them, as the cases file: strings from
/// every tenth data line of the official test `official` and at random, with
/// their normal forms and checks; characters either side of every change in
/// what the character functions say, and the pool; and pairs composed.
pub fn cases(official: &str) -> (r: Result<String, CasesError>)
    ensures
        match r {
            Ok(text) => cases_error(official@) is None && text@ == cases_text(official@),
            Err(e) => cases_error(official@) == Some(e),
        },
{
    broadcast use crate::order::lemma_chars_deep_view_is_view;
    let ghost t = official@;
    let pool = interesting();
    proof {
        lemma_pool_nonempty();
    }
    let from_test = official_test_strings(official);
    let ghost ov = from_test.deep_view();
    let mut strings = sort_dedup(from_test);
    let official_count = strings.len();
    proof {
        lemma_sorted_count(strings.deep_view());
    }
    let mut rng = Rng(RNG_SEED);
    let random = draw_strings(&mut rng, &pool, DRAWS);
    let ghost rv = random.deep_view();
    let runs = long_runs(&pool);
    let ghost lv = runs.deep_view();
    let edges = hangul_edge_chars();
    let hangul = hangul_pair_strings(&edges);
    let ghost hv = hangul.deep_view();
    insert_all(&mut strings, random);
    insert_all(&mut strings, runs);
    insert_all(&mut strings, hangul);
    proof {
        let all = case_strings(t);
        assert(all == ov + rv + lv + hv);
        vstd::seq_lib::seq_to_set_distributes_over_add(ov + rv + lv, hv);
        vstd::seq_lib::seq_to_set_distributes_over_add(ov + rv, lv);
        vstd::seq_lib::seq_to_set_distributes_over_add(ov, rv);
        assert(strings.deep_view().to_set() =~= all.to_set());
        law_sorted_strings_of(strings.deep_view(), all.to_set());
    }
    let ghost fs = final_strings(t);
    let mut body = String::new();
    let mut k: usize = 0;
    while k < strings.len()
        invariant
            k <= strings@.len(),
            strings.deep_view() == fs,
            fs == final_strings(official@),
            forall|q: int| 0 <= q < k ==> string_case_fits(#[trigger] fs[q]),
            body@ == string_cases(fs, k as nat),
        decreases strings@.len() - k,
    {
        assert(fs[k as int] == strings@[k as int]@);
        if !push_string_case(&mut body, &strings[k]) {
            assert(!string_case_fits(fs[k as int]));
            return Err(CasesError::StringTooLong);
        }
        k = k + 1;
    }
    assert(strings_fit(fs));
    let (char_text, char_count) = match char_cases_text(&pool) {
        Some(x) => x,
        None => return Err(CasesError::DecompositionTooLong),
    };
    string_push_str(&mut body, char_text.as_str());
    let mut pairs = hangul_pairs(&edges);
    let mut more = draw_pairs(&mut rng, &pool, DRAWS);
    pairs.append(&mut more);
    let pair_text = pair_cases_text(&pairs);
    string_push_str(&mut body, pair_text.as_str());
    assert(pairs@ =~= case_pairs());
    assert(body@ =~= cases_body(t));

    let mut out = String::new();
    string_push_str(&mut out, GENERATED_FROM);
    string_push_str(&mut out, UPSTREAM_VERSION);
    string_push_str(&mut out, CASES_INTRO);
    push_decimal(&mut out, strings.len() as u64);
    string_push_str(&mut out, CASES_STRINGS);
    push_decimal(&mut out, official_count as u64);
    string_push_str(&mut out, CASES_OFFICIAL);
    push_decimal(&mut out, char_count as u64);
    string_push_str(&mut out, CASES_CHARS);
    push_decimal(&mut out, pairs.len() as u64);
    string_push_str(&mut out, CASES_PAIRS);
    string_push_str(&mut out, HEADER);
    string_push_str(&mut out, CASES_FORMAT);
    let lit = long_literal(body.as_str(), 96);
    string_push_str(&mut out, lit.as_str());
    string_push(&mut out, '\n');
    assert(out@ =~= cases_text(t));
    Ok(out)
}

} // verus!
