//! Reading fixed-width records back: a table written as records of one width
//! is the records one after another, and each field is the digits at its
//! offset.

use crate::composition_source::matches_at;
use crate::encoding::{base64_digits, digits_value, law_digits_roundtrip, pow64};
use vstd::prelude::*;

verus! {

/// The pieces `ps` one after another.
pub open spec fn joined(ps: Seq<Seq<char>>) -> Seq<char>
    decreases ps.len(),
{
    if ps.len() == 0 {
        Seq::empty()
    } else {
        joined(ps.drop_last()) + ps.last()
    }
}

/// The number written in the `width` digits of `t` from `at`.
pub open spec fn field(t: Seq<char>, at: int, width: int) -> int {
    digits_value(t.subrange(at, at + width))
}

/// Pieces of one width `w` lie one after another: piece `k` is the `w`
/// characters from `w * k`.
pub proof fn lemma_joined_chunk(ps: Seq<Seq<char>>, w: nat, k: int)
    requires
        forall|i: int| 0 <= i < ps.len() ==> (#[trigger] ps[i]).len() == w,
        0 <= k < ps.len(),
    ensures
        joined(ps).len() == w * ps.len(),
        joined(ps).subrange(w * k, w * k + w) == ps[k],
    decreases ps.len(),
{
    lemma_joined_len(ps, w);
    let n = ps.len();
    let front = ps.drop_last();
    lemma_joined_len(front, w);
    assert(joined(ps) == joined(front) + ps.last());
    if k == n - 1 {
        assert(w * k == w * (n - 1));
        assert(joined(ps).subrange(w * k, w * k + w) =~= ps[k]);
    } else {
        lemma_joined_chunk(front, w, k);
        assert(w * k + w <= w * (n - 1)) by (nonlinear_arith)
            requires
                k < n - 1,
                k >= 0,
        ;
        assert(joined(ps).subrange(w * k, w * k + w) =~= joined(front).subrange(w * k, w * k + w));
    }
}

/// Pieces of one width `w` take `w` characters each.
pub proof fn lemma_joined_len(ps: Seq<Seq<char>>, w: nat)
    requires
        forall|i: int| 0 <= i < ps.len() ==> (#[trigger] ps[i]).len() == w,
    ensures
        joined(ps).len() == w * ps.len(),
    decreases ps.len(),
{
    if ps.len() > 0 {
        let front = ps.drop_last();
        assert forall|i: int| 0 <= i < front.len() implies (#[trigger] front[i]).len() == w by {
            assert(front[i] == ps[i]);
        }
        lemma_joined_len(front, w);
        assert(w * ps.len() == w * front.len() + w) by (nonlinear_arith)
            requires
                ps.len() == front.len() + 1,
        ;
    }
}

/// Pushing a piece joins it at the end.
pub proof fn lemma_joined_push(ps: Seq<Seq<char>>, p: Seq<char>)
    ensures
        joined(ps.push(p)) == joined(ps) + p,
{
    assert(ps.push(p).drop_last() =~= ps);
}

/// Joining two lists of pieces joins what each gives.
pub proof fn lemma_joined_append(a: Seq<Seq<char>>, b: Seq<Seq<char>>)
    ensures
        joined(a + b) == joined(a) + joined(b),
    decreases b.len(),
{
    if b.len() == 0 {
        assert(a + b =~= a);
        assert(joined(a) + joined(b) =~= joined(a));
    } else {
        lemma_joined_append(a, b.drop_last());
        assert((a + b).drop_last() =~= a + b.drop_last());
        assert((a + b).last() == b.last());
        assert(joined(a + b) =~= joined(a) + joined(b));
    }
}

/// Each piece occurs in the joined pieces, after the pieces before it.
pub proof fn lemma_joined_occurs(ps: Seq<Seq<char>>, k: int)
    requires
        0 <= k < ps.len(),
    ensures
        matches_at(joined(ps), ps[k], joined(ps.take(k)).len() as int),
{
    let before = ps.take(k);
    let after = ps.skip(k + 1);
    assert(ps =~= before + seq![ps[k]] + after);
    lemma_joined_append(before + seq![ps[k]], after);
    lemma_joined_append(before, seq![ps[k]]);
    let e = Seq::<Seq<char>>::empty();
    assert(seq![ps[k]] =~= e.push(ps[k]));
    lemma_joined_push(e, ps[k]);
    assert(joined(e) == Seq::<char>::empty());
    assert(joined(seq![ps[k]]) =~= ps[k]);
    let t = joined(ps);
    assert(t == joined(before) + ps[k] + joined(after));
    assert(t.subrange(joined(before).len() as int, (joined(before).len() + ps[k].len()) as int) =~= ps[k]);
}

/// A field of a record reads back the value written there: where the
/// `total` characters of `t` from `at` are `piece`, and `piece` holds
/// `value` in `width` digits from `off`.
pub proof fn lemma_field_in_piece(
    t: Seq<char>,
    at: int,
    total: int,
    piece: Seq<char>,
    off: int,
    width: nat,
    value: nat,
)
    requires
        0 <= at,
        at + total <= t.len(),
        t.subrange(at, at + total) == piece,
        0 <= off,
        off + width <= total,
        piece.subrange(off, off + width) == base64_digits(value, width),
        value < pow64(width),
    ensures
        field(t, at + off, width as int) == value,
{
    law_digits_roundtrip(value, width);
    assert(t.subrange(at + off, at + off + width) =~= piece.subrange(off, off + width)) by {
        assert forall|q: int| 0 <= q < width implies #[trigger] t.subrange(at + off, at + off + width)[q]
            == piece.subrange(off, off + width)[q] by {
            assert(t[at + off + q] == t.subrange(at, at + total)[off + q]);
        }
    }
}

} // verus!
