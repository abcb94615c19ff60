//! Maximal runs of code points that share a value.

use crate::scalars::{all_scalars, chars, lemma_scalar_at, scalar_at, scalar_char, NUM_SCALARS};
use vstd::prelude::*;

verus! {

/// A run: the first and last code point, and the value they share.
pub type Run = (u32, u32, u8);

/// Whether the scalar `cp` comes right after the scalar `hi`: the next code
/// point, or across the surrogates from U+D7FF to U+E000.
pub open spec fn adjacent(hi: u32, cp: u32) -> bool {
    hi + 1 == cp as int || (hi == 0xD7FF && cp == 0xE000)
}

/// The runs of the first `n` scalars, where the `i`-th scalar has the value
/// `vals[i]`: each scalar whose value is not `skip` extends the last run when
/// it comes right after it with the same value, and starts a new run otherwise.
pub open spec fn runs_of(vals: Seq<u8>, skip: u8, n: nat) -> Seq<Run>
    decreases n,
{
    if n == 0 {
        Seq::empty()
    } else {
        let prev = runs_of(vals, skip, (n - 1) as nat);
        let cp = scalar_at(n - 1);
        let v = vals[n - 1];
        if v == skip {
            prev
        } else if prev.len() > 0 && prev.last().2 == v && adjacent(prev.last().1, cp) {
            prev.update(prev.len() - 1, (prev.last().0, cp, v))
        } else {
            prev.push((cp, cp, v))
        }
    }
}

/// Whether the code point `cp` lies in the run `r`.
pub open spec fn in_run(r: Run, cp: u32) -> bool {
    r.0 <= cp <= r.1
}

/// What holds of the runs of the first `n` scalars: they are ordered and
/// apart, each holds only scalars with its value, which is not `skip`, every
/// scalar with another value than `skip` lies in one, and two runs next to each
/// other with the same value would have been one.
pub open spec fn runs_are_maximal(vals: Seq<u8>, skip: u8, n: nat, r: Seq<Run>) -> bool {
    &&& forall|a: int| 0 <= a < r.len() ==> (#[trigger] r[a]).0 <= r[a].1 && r[a].2 != skip
    &&& forall|a: int, b: int| 0 <= a < b < r.len() ==> (#[trigger] r[a]).1 < (#[trigger] r[b]).0
    &&& forall|a: int, k: int|
        0 <= a < r.len() && 0 <= k < n && #[trigger] in_run(r[a], scalar_at(k)) ==> vals[k] == r[a].2
    &&& forall|k: int|
        0 <= k < n && vals[k] != skip ==> exists|a: int| 0 <= a < r.len() && #[trigger] in_run(r[a], scalar_at(k))
    &&& forall|a: int|
        0 <= a < r.len() - 1 ==> !(adjacent((#[trigger] r[a]).1, r[a + 1].0) && r[a].2 == r[a + 1].2)
}

/// What the induction over the scalars keeps besides: every run ends at a
/// scalar already seen, and the last run ends at the last scalar whose value
/// is not `skip`.
spec fn runs_frontier(vals: Seq<u8>, skip: u8, n: nat, r: Seq<Run>) -> bool {
    &&& n > 0 ==> forall|a: int| 0 <= a < r.len() ==> (#[trigger] r[a]).1 <= scalar_at(n - 1)
    &&& n == 0 ==> r.len() == 0
    &&& r.len() > 0 ==> exists|j: int|
        0 <= j < n && r.last().1 == #[trigger] scalar_at(j) && vals[j] != skip && forall|m: int|
            j < m < n ==> #[trigger] vals[m] == skip
}

proof fn lemma_scalar_order(j: int, k: int)
    requires
        0 <= j < NUM_SCALARS,
        0 <= k < NUM_SCALARS,
    ensures
        j < k <==> scalar_at(j) < scalar_at(k),
        j == k <==> scalar_at(j) == scalar_at(k),
        adjacent(scalar_at(j), scalar_at(k)) <==> k == j + 1,
{
}

proof fn lemma_runs_of_maximal(vals: Seq<u8>, skip: u8, n: nat)
    requires
        n <= vals.len(),
        n <= NUM_SCALARS,
    ensures
        runs_are_maximal(vals, skip, n, runs_of(vals, skip, n)),
        runs_frontier(vals, skip, n, runs_of(vals, skip, n)),
    decreases n,
{
    if n > 0 {
        let m = (n - 1) as nat;
        lemma_runs_of_maximal(vals, skip, m);
        let prev = runs_of(vals, skip, m);
        let r = runs_of(vals, skip, n);
        let cp = scalar_at(m as int);
        let v = vals[m as int];
        assert forall|k: int| 0 <= k < m implies scalar_at(k) < cp by {
            lemma_scalar_order(k, m as int);
        }
        if v == skip {
            assert(r == prev);
            assert forall|a: int| 0 <= a < r.len() implies (#[trigger] r[a]).1 <= scalar_at(n - 1) by {
                if m > 0 {
                    lemma_scalar_order(m - 1, m as int);
                }
            }
            if r.len() > 0 {
                let j = choose|j: int|
                    0 <= j < m && prev.last().1 == #[trigger] scalar_at(j) && vals[j] != skip
                        && forall|q: int| j < q < m ==> #[trigger] vals[q] == skip;
                assert(forall|q: int| j < q < n ==> #[trigger] vals[q] == skip);
            }
            assert forall|a: int, k: int|
                0 <= a < r.len() && 0 <= k < n && #[trigger] in_run(r[a], scalar_at(k)) implies vals[k]
                == r[a].2 by {
                if k == m {
                    assert(r[a].1 <= scalar_at(m - 1));
                    lemma_scalar_order(m - 1, m as int);
                }
            }
        } else if prev.len() > 0 && prev.last().2 == v && adjacent(prev.last().1, cp) {
            let last = prev.len() - 1;
            assert(r == prev.update(last, (prev.last().0, cp, v)));
            let j = choose|j: int|
                0 <= j < m && prev.last().1 == #[trigger] scalar_at(j) && vals[j] != skip
                    && forall|q: int| j < q < m ==> #[trigger] vals[q] == skip;
            lemma_scalar_order(j, m as int);
            assert(j == m - 1);
            assert forall|a: int, k: int|
                0 <= a < r.len() && 0 <= k < n && #[trigger] in_run(r[a], scalar_at(k)) implies vals[k]
                == r[a].2 by {
                lemma_scalar_order(k, m as int);
                lemma_scalar_order(k, j);
                if a == last && k < m {
                    assert(in_run(prev[a], scalar_at(k)));
                }
            }
            assert forall|k: int| 0 <= k < n && vals[k] != skip implies exists|a: int|
                0 <= a < r.len() && #[trigger] in_run(r[a], scalar_at(k)) by {
                if k == m {
                    assert(in_run(r[last], scalar_at(k)));
                } else {
                    let a = choose|a: int| 0 <= a < prev.len() && #[trigger] in_run(prev[a], scalar_at(k));
                    assert(in_run(r[a], scalar_at(k)));
                }
            }
            assert forall|a: int, b: int| 0 <= a < b < r.len() implies (#[trigger] r[a]).1 < (
            #[trigger] r[b]).0 by {
                assert(prev[a].1 < prev[b].0);
            }
            assert forall|a: int| 0 <= a < r.len() implies (#[trigger] r[a]).1 <= scalar_at(n - 1) by {
                if a < last {
                    lemma_scalar_order(m - 1, m as int);
                    assert(prev[a].1 <= scalar_at(m - 1));
                }
            }
            assert(r.last().1 == scalar_at(m as int));
        } else {
            assert(r == prev.push((cp, cp, v)));
            let last = prev.len() as int;
            assert forall|a: int, k: int|
                0 <= a < r.len() && 0 <= k < n && #[trigger] in_run(r[a], scalar_at(k)) implies vals[k]
                == r[a].2 by {
                lemma_scalar_order(k, m as int);
                if a < last && k == m {
                    assert(prev[a].1 <= scalar_at(m - 1));
                    lemma_scalar_order(m - 1, m as int);
                }
            }
            assert forall|k: int| 0 <= k < n && vals[k] != skip implies exists|a: int|
                0 <= a < r.len() && #[trigger] in_run(r[a], scalar_at(k)) by {
                if k == m {
                    assert(in_run(r[last], scalar_at(k)));
                } else {
                    let a = choose|a: int| 0 <= a < prev.len() && #[trigger] in_run(prev[a], scalar_at(k));
                    assert(in_run(r[a], scalar_at(k)));
                }
            }
            assert forall|a: int, b: int| 0 <= a < b < r.len() implies (#[trigger] r[a]).1 < (
            #[trigger] r[b]).0 by {
                if b == last {
                    assert(prev[a].1 <= scalar_at(m - 1));
                    lemma_scalar_order(m - 1, m as int);
                }
            }
            assert forall|a: int| 0 <= a < r.len() implies (#[trigger] r[a]).1 <= scalar_at(n - 1) by {
                if a < last {
                    lemma_scalar_order(m - 1, m as int);
                    assert(prev[a].1 <= scalar_at(m - 1));
                }
            }
            assert(r.last().1 == scalar_at(m as int));
        }
    }
}

/// The runs are the maximal runs: ordered and apart, each holding only code
/// points of its value, which is not `skip`; every code point whose value is not
/// `skip` lies in one, and no two that follow each other with the same value
/// could be joined.
pub proof fn law_runs_maximal(vals: Seq<u8>, skip: u8)
    requires
        vals.len() == NUM_SCALARS,
    ensures
        runs_are_maximal(vals, skip, NUM_SCALARS as nat, runs_of(vals, skip, NUM_SCALARS as nat)),
{
    lemma_runs_of_maximal(vals, skip, NUM_SCALARS as nat);
}

/// The runs of the first `n` scalars hold code points no higher than U+10FFFF,
/// first before last, and values no higher than `bound` where every value is.
pub proof fn lemma_runs_bounded(vals: Seq<u8>, skip: u8, n: nat, bound: u8)
    requires
        n <= vals.len(),
        n <= NUM_SCALARS,
        forall|k: int| 0 <= k < n ==> #[trigger] vals[k] <= bound,
    ensures
        forall|a: int|
            0 <= a < runs_of(vals, skip, n).len() ==> {
                let r = #[trigger] runs_of(vals, skip, n)[a];
                r.0 <= r.1 <= 0x10FFFF && r.2 <= bound
            },
    decreases n,
{
    if n > 0 {
        lemma_runs_bounded(vals, skip, (n - 1) as nat, bound);
        let prev = runs_of(vals, skip, (n - 1) as nat);
        let cp = scalar_at(n - 1);
        assert(vals[n - 1] <= bound);
        if prev.len() > 0 {
            assert(prev.last().0 <= prev.last().1);
        }
        assert(cp <= 0x10FFFF);
        if vals[n - 1] != skip && prev.len() > 0 && prev.last().2 == vals[n - 1] && adjacent(
            prev.last().1,
            cp,
        ) {
            assert(prev.last().0 <= cp);
        }
    }
}

/// Maximal runs of code points with the same value of `f`, leaving out the
/// code points whose value is `skip`, in increasing order.
pub fn runs(f: impl Fn(char) -> u8, skip: u8) -> (out: Vec<Run>)
    requires
        forall|c: char| f.requires((c,)),
    ensures
        exists|vals: Seq<u8>|
            {
                &&& vals.len() == NUM_SCALARS
                &&& forall|i: int|
                    0 <= i < NUM_SCALARS ==> f.ensures((scalar_char(i),), #[trigger] vals[i])
                &&& out@ == runs_of(vals, skip, NUM_SCALARS as nat)
            },
{
    let all = chars();
    let mut out: Vec<Run> = Vec::new();
    let ghost mut vals: Seq<u8> = Seq::empty();
    let mut i: usize = 0;
    while i < NUM_SCALARS
        invariant
            i <= NUM_SCALARS,
            all@ == all_scalars(),
            forall|c: char| f.requires((c,)),
            vals.len() == i,
            forall|j: int| 0 <= j < i ==> f.ensures((scalar_char(j),), #[trigger] vals[j]),
            out@ == runs_of(vals, skip, i as nat),
            forall|k: int| 0 <= k < out@.len() ==> (#[trigger] out@[k]).1 <= 0x10FFFF,
        decreases NUM_SCALARS - i,
    {
        let c = all[i];
        proof {
            lemma_scalar_at(i as int);
        }
        let cp = c as u32;
        let v = f(c);
        let ghost prev_vals = vals;
        proof {
            vals = vals.push(v);
            assert(runs_of(prev_vals, skip, i as nat) == runs_of(vals, skip, i as nat)) by {
                lemma_runs_of_prefix(prev_vals, vals, skip, i as nat);
            }
        }
        if v != skip {
            let len = out.len();
            if len > 0 && out[len - 1].2 == v && (out[len - 1].1 + 1 == cp || (out[len
                - 1].1 == 0xD7FF && cp == 0xE000)) {
                let lo = out[len - 1].0;
                out.set(len - 1, (lo, cp, v));
            } else {
                out.push((cp, cp, v));
            }
        }
        i = i + 1;
    }
    assert(out@ == runs_of(vals, skip, NUM_SCALARS as nat));
    out
}

/// The runs of a prefix depend only on the values of that prefix.
proof fn lemma_runs_of_prefix(a: Seq<u8>, b: Seq<u8>, skip: u8, n: nat)
    requires
        n <= a.len(),
        n <= b.len(),
        forall|j: int| 0 <= j < n ==> a[j] == b[j],
    ensures
        runs_of(a, skip, n) == runs_of(b, skip, n),
    decreases n,
{
    if n > 0 {
        lemma_runs_of_prefix(a, b, skip, (n - 1) as nat);
    }
}

} // verus!
