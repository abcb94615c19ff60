//! The size of the crate's composition table, counted in the text of its
//! generated `tables.rs`: the `(0x…, '\u{…}')` entries of
//! `COMPOSITION_TABLE_KV` and the `=> Some(…)` arms of
//! `composition_table_astral`.

use crate::official::text_chars;
use vstd::prelude::*;

verus! {

/// Whether `p` occurs in `t` at position `i`.
pub open spec fn matches_at(t: Seq<char>, p: Seq<char>, i: int) -> bool {
    0 <= i && i + p.len() <= t.len() && t.subrange(i, i + p.len()) == p
}

/// The first position at or after `from` where `p` occurs in `t`, as
/// `str::find` on the rest of `t` gives it.
pub open spec fn find_text(t: Seq<char>, p: Seq<char>, from: nat) -> Option<nat>
    decreases t.len() + 1 - from,
{
    if from + p.len() > t.len() {
        None
    } else if matches_at(t, p, from as int) {
        Some(from)
    } else {
        find_text(t, p, from + 1)
    }
}

/// Where `find_text` finds `p`, it lies wholly in `t`, at or after `from`.
pub proof fn lemma_find_text_bounds(t: Seq<char>, p: Seq<char>, from: nat)
    ensures
        find_text(t, p, from) matches Some(i) ==> from <= i && i + p.len() <= t.len(),
    decreases t.len() + 1 - from,
{
    if from + p.len() <= t.len() && !matches_at(t, p, from as int) {
        lemma_find_text_bounds(t, p, from + 1);
    }
}

/// How many times `p` occurs in `t` wholly between positions `lo` and `hi`.
pub open spec fn count_text(t: Seq<char>, p: Seq<char>, lo: nat, hi: nat) -> nat
    decreases hi,
{
    if hi <= lo {
        0
    } else {
        count_text(t, p, lo, (hi - 1) as nat) + (if hi - p.len() >= lo && matches_at(
            t,
            p,
            hi - p.len(),
        ) {
            1nat
        } else {
            0nat
        })
    }
}

/// The name of the table of pairs that compose within the Basic
/// Multilingual Plane.
pub open spec fn table_marker() -> Seq<char> {
    "COMPOSITION_TABLE_KV"@
}

/// What ends that table.
pub open spec fn table_end() -> Seq<char> {
    "];"@
}

/// How each entry of that table starts.
pub open spec fn entry_marker() -> Seq<char> {
    "(0x"@
}

/// The function that composes the pairs outside that plane.
pub open spec fn astral_marker() -> Seq<char> {
    "fn composition_table_astral"@
}

/// What ends that function.
pub open spec fn astral_end() -> Seq<char> {
    "\n}"@
}

/// How each of its arms that composes ends its pattern.
pub open spec fn arm_marker() -> Seq<char> {
    "=> Some("@
}

/// The size of the composition table written in `t`: the entries from the
/// table's name to the first `];` after it, and the composing arms from the
/// astral function's name to the first closing brace at the start of a line
/// after it; none where one of these four marks is missing.
pub open spec fn composition_entries_spec(t: Seq<char>) -> Option<nat> {
    match find_text(t, table_marker(), 0) {
        None => None,
        Some(a) => match find_text(t, table_end(), a) {
            None => None,
            Some(b) => match find_text(t, astral_marker(), 0) {
                None => None,
                Some(c) => match find_text(t, astral_end(), c) {
                    None => None,
                    Some(d) => Some(
                        count_text(t, entry_marker(), a, b) + count_text(t, arm_marker(), c, d),
                    ),
                },
            },
        },
    }
}

/// Whether `p` occurs in `t` at position `i`.
fn matches_here(t: &Vec<char>, p: &Vec<char>, i: usize) -> (r: bool)
    ensures
        r == matches_at(t@, p@, i as int),
{
    if i > t.len() || p.len() > t.len() - i {
        return false;
    }
    let mut k: usize = 0;
    while k < p.len()
        invariant
            k <= p@.len(),
            i + p@.len() <= t.len(),
            forall|j: int| 0 <= j < k ==> t@[i + j] == p@[j],
        decreases p@.len() - k,
    {
        if t[i + k] != p[k] {
            assert(t@.subrange(i as int, i + p@.len())[k as int] != p@[k as int]);
            return false;
        }
        k = k + 1;
    }
    assert(t@.subrange(i as int, i + p@.len()) =~= p@);
    true
}

/// The first position at or after `from` where `p` occurs in `t`.
fn find_in(t: &Vec<char>, p: &Vec<char>, from: usize) -> (r: Option<usize>)
    ensures
        match r {
            Some(i) => find_text(t@, p@, from as nat) == Some(i as nat),
            None => find_text(t@, p@, from as nat) is None,
        },
{
    let mut i: usize = from;
    while i <= t.len() && p.len() <= t.len() - i
        invariant
            from <= i,
            find_text(t@, p@, from as nat) == find_text(t@, p@, i as nat),
        decreases t@.len() + 1 - i,
    {
        if matches_here(t, p, i) {
            return Some(i);
        }
        assert(p@.len() > 0) by {
            if p@.len() == 0 {
                assert(t@.subrange(i as int, i as int) =~= p@);
            }
        }
        i = i + 1;
    }
    None
}

/// How many times `p` occurs in `t` wholly between positions `lo` and `hi`.
fn count_in(t: &Vec<char>, p: &Vec<char>, lo: usize, hi: usize) -> (r: usize)
    requires
        lo <= hi <= t@.len(),
    ensures
        r == count_text(t@, p@, lo as nat, hi as nat),
{
    let mut n: usize = 0;
    let mut h: usize = lo;
    while h < hi
        invariant
            lo <= h <= hi,
            n == count_text(t@, p@, lo as nat, h as nat),
            n <= h - lo,
        decreases hi - h,
    {
        h = h + 1;
        if h >= p.len() && h - p.len() >= lo && matches_here(t, p, h - p.len()) {
            n = n + 1;
        }
    }
    n
}

/// The size of the crate's composition table, counted in the text `text` of
/// its generated `tables.rs`: `None` where a mark that the count starts or
/// ends at is missing, or where the sum does not fit a `usize`.
pub fn composition_entries(text: &str) -> (r: Option<usize>)
    ensures
        match r {
            Some(n) => composition_entries_spec(text@) == Some(n as nat),
            None => composition_entries_spec(text@) is None || composition_entries_spec(text@)->0
                > usize::MAX,
        },
{
    let t = text_chars(text);
    let table = text_chars("COMPOSITION_TABLE_KV");
    let end = text_chars("];");
    let entry = text_chars("(0x");
    let astral = text_chars("fn composition_table_astral");
    let close = text_chars("\n}");
    let arm = text_chars("=> Some(");
    let a = match find_in(&t, &table, 0) {
        Some(a) => a,
        None => return None,
    };
    let b = match find_in(&t, &end, a) {
        Some(b) => b,
        None => return None,
    };
    let c = match find_in(&t, &astral, 0) {
        Some(c) => c,
        None => return None,
    };
    let d = match find_in(&t, &close, c) {
        Some(d) => d,
        None => return None,
    };
    proof {
        lemma_find_text_bounds(t@, table@, 0);
        lemma_find_text_bounds(t@, end@, a as nat);
        lemma_find_text_bounds(t@, astral@, 0);
        lemma_find_text_bounds(t@, close@, c as nat);
    }
    let entries = count_in(&t, &entry, a, b);
    let arms = count_in(&t, &arm, c, d);
    entries.checked_add(arms)
}

} // verus!
