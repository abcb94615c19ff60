//! Strings of characters in order: the order of Rust's `String`, which
//! compares UTF-8 bytes and so the code points one after another, and the
//! sorted, duplicate-free sequence of a set of strings.

use vstd::prelude::*;

verus! {

/// Whether `a` comes before `b`: at the first position where they differ `a`
/// has the lower code point, or `a` is a proper prefix of `b`.
pub open spec fn lex_less(a: Seq<char>, b: Seq<char>) -> bool
    decreases a.len(),
{
    if a.len() == 0 {
        b.len() > 0
    } else if b.len() == 0 {
        false
    } else if a[0] != b[0] {
        (a[0] as u32) < (b[0] as u32)
    } else {
        lex_less(a.drop_first(), b.drop_first())
    }
}

/// Between two strings of one length, each with one more character, the
/// order is that of the strings, or of the last characters where the strings
/// are equal.
pub proof fn lemma_lex_push(x: Seq<char>, y: Seq<char>, c: char, d: char)
    requires
        x.len() == y.len(),
    ensures
        lex_less(x.push(c), y.push(d)) == (lex_less(x, y) || (x == y && (c as u32) < (d as u32))),
    decreases x.len(),
{
    if x.len() == 0 {
        assert(x =~= y);
        assert(x.push(c).drop_first() =~= Seq::<char>::empty());
        assert(y.push(d).drop_first() =~= Seq::<char>::empty());
        assert(x.push(c)[0] == c && y.push(d)[0] == d);
        assert(!lex_less(Seq::<char>::empty(), Seq::<char>::empty()));
        assert(!lex_less(x, y));
    } else {
        assert(x.push(c)[0] == x[0] && y.push(d)[0] == y[0]);
        assert(x.push(c).drop_first() =~= x.drop_first().push(c));
        assert(y.push(d).drop_first() =~= y.drop_first().push(d));
        lemma_lex_push(x.drop_first(), y.drop_first(), c, d);
        if x[0] == y[0] {
            if x.drop_first() == y.drop_first() {
                assert(x =~= y) by {
                    assert forall|i: int| 0 <= i < x.len() implies x[i] == y[i] by {
                        if i > 0 {
                            assert(x[i] == x.drop_first()[i - 1]);
                            assert(y[i] == y.drop_first()[i - 1]);
                        }
                    }
                }
            }
            if x == y {
                assert(x.drop_first() =~= y.drop_first());
            }
        } else {
            assert(x != y);
        }
    }
}

/// Whether every string comes before every later one: sorted, each once.
pub open spec fn strictly_sorted(s: Seq<Seq<char>>) -> bool {
    forall|i: int, j: int| 0 <= i < j < s.len() ==> lex_less(#[trigger] s[i], #[trigger] s[j])
}

/// The strings of the set `s` in order, each once.
pub open spec fn sorted_strings(s: Set<Seq<char>>) -> Seq<Seq<char>> {
    choose|r: Seq<Seq<char>>| strictly_sorted(r) && r.to_set() == s
}

/// No string comes before itself.
pub proof fn lemma_lex_irreflexive(a: Seq<char>)
    ensures
        !lex_less(a, a),
    decreases a.len(),
{
    if a.len() > 0 {
        lemma_lex_irreflexive(a.drop_first());
    }
}

/// Of two different strings, one comes before the other, and not both ways.
pub proof fn lemma_lex_total(a: Seq<char>, b: Seq<char>)
    ensures
        a != b ==> (lex_less(a, b) || lex_less(b, a)),
        !(lex_less(a, b) && lex_less(b, a)),
    decreases a.len(),
{
    broadcast use vstd::utf8::char_u32_cast;
    if a.len() > 0 && b.len() > 0 {
        lemma_lex_total(a.drop_first(), b.drop_first());
        if a[0] == b[0] && a.drop_first() == b.drop_first() {
            assert(a =~= seq![a[0]] + a.drop_first());
            assert(b =~= seq![b[0]] + b.drop_first());
        }
        if a[0] != b[0] {
            assert((a[0] as u32) != (b[0] as u32)) by {
                vstd::utf8::char_u32_cast(a[0], a[0] as u32);
                vstd::utf8::char_u32_cast(b[0], b[0] as u32);
            }
        }
    } else if a.len() == 0 && b.len() == 0 {
        assert(a =~= b);
    }
}

/// The order is transitive.
pub proof fn lemma_lex_transitive(a: Seq<char>, b: Seq<char>, c: Seq<char>)
    requires
        lex_less(a, b),
        lex_less(b, c),
    ensures
        lex_less(a, c),
    decreases a.len(),
{
    if a.len() > 0 && b.len() > 0 && c.len() > 0 {
        if a[0] == b[0] && b[0] == c[0] {
            lemma_lex_transitive(a.drop_first(), b.drop_first(), c.drop_first());
        }
    }
}

/// Two sorted sequences of the same strings, each once, are the same: the set
/// determines its sorted sequence.
pub proof fn law_sorted_unique(x: Seq<Seq<char>>, y: Seq<Seq<char>>)
    requires
        strictly_sorted(x),
        strictly_sorted(y),
        x.to_set() == y.to_set(),
    ensures
        x == y,
    decreases x.len(),
{
    broadcast use vstd::set::group_set_axioms, vstd::seq_lib::group_seq_properties;
    if x.len() == 0 {
        if y.len() > 0 {
            assert(y.to_set().contains(y[0]));
        }
        assert(x =~= y);
    } else if y.len() == 0 {
        assert(x.to_set().contains(x[0]));
    } else {
        // the first of each is the least of the set
        assert(x.to_set().contains(x[0]));
        assert(y.to_set().contains(y[0]));
        assert(x[0] == y[0]) by {
            let i = choose|i: int| 0 <= i < y.len() && y[i] == x[0];
            let j = choose|j: int| 0 <= j < x.len() && x[j] == y[0];
            if x[0] != y[0] {
                assert(i > 0 && j > 0);
                assert(lex_less(y[0], y[i]));
                assert(lex_less(x[0], x[j]));
                lemma_lex_total(x[0], y[0]);
            }
        }
        let xs = x.drop_first();
        let ys = y.drop_first();
        assert(strictly_sorted(xs));
        assert(strictly_sorted(ys));
        assert forall|s: Seq<char>| xs.to_set().contains(s) implies ys.to_set().contains(s) by {
            let i = choose|i: int| 0 <= i < xs.len() && xs[i] == s;
            assert(x.to_set().contains(s));
            assert(lex_less(x[0], x[i + 1]));
            lemma_lex_irreflexive(s);
            let j = choose|j: int| 0 <= j < y.len() && y[j] == s;
            assert(j != 0);
            assert(ys[j - 1] == s);
        }
        assert forall|s: Seq<char>| ys.to_set().contains(s) implies xs.to_set().contains(s) by {
            let i = choose|i: int| 0 <= i < ys.len() && ys[i] == s;
            assert(y.to_set().contains(s));
            assert(lex_less(y[0], y[i + 1]));
            lemma_lex_irreflexive(s);
            let j = choose|j: int| 0 <= j < x.len() && x[j] == s;
            assert(j != 0);
            assert(xs[j - 1] == s);
        }
        assert(xs.to_set() =~= ys.to_set());
        law_sorted_unique(xs, ys);
        assert(x =~= seq![x[0]] + xs);
        assert(y =~= seq![y[0]] + ys);
    }
}

/// Any sorted, duplicate-free sequence of the strings of a set is the sorted
/// strings of that set.
pub proof fn law_sorted_strings_of(r: Seq<Seq<char>>, s: Set<Seq<char>>)
    requires
        strictly_sorted(r),
        r.to_set() == s,
    ensures
        r == sorted_strings(s),
{
    let c = sorted_strings(s);
    assert(strictly_sorted(c) && c.to_set() == s);
    law_sorted_unique(r, c);
}

/// Where one string stands against another.
#[derive(Clone, Copy, Debug, PartialEq, Eq, Structural)]
pub enum Order {
    Before,
    Same,
    After,
}

/// Compares two strings in the order of `String`.
pub fn compare_strings(a: &Vec<char>, b: &Vec<char>) -> (o: Order)
    ensures
        (o == Order::Before) == lex_less(a@, b@),
        (o == Order::Same) == (a@ == b@),
        (o == Order::After) == lex_less(b@, a@),
{
    proof {
        lemma_lex_total(a@, b@);
        lemma_lex_irreflexive(a@);
    }
    let mut i: usize = 0;
    assert(a@.skip(0) =~= a@);
    assert(b@.skip(0) =~= b@);
    while i < a.len() && i < b.len() && a[i] == b[i]
        invariant
            i <= a@.len(),
            i <= b@.len(),
            a@.take(i as int) == b@.take(i as int),
            lex_less(a@, b@) == lex_less(a@.skip(i as int), b@.skip(i as int)),
            lex_less(b@, a@) == lex_less(b@.skip(i as int), a@.skip(i as int)),
        decreases a@.len() - i,
    {
        proof {
            assert(a@.skip(i as int).drop_first() =~= a@.skip(i + 1));
            assert(b@.skip(i as int).drop_first() =~= b@.skip(i + 1));
            assert(a@.take(i + 1) =~= a@.take(i as int).push(a@[i as int]));
            assert(b@.take(i + 1) =~= b@.take(i as int).push(b@[i as int]));
        }
        i = i + 1;
    }
    let ghost sa = a@.skip(i as int);
    let ghost sb = b@.skip(i as int);
    if i == a.len() && i == b.len() {
        assert(a@ =~= a@.take(i as int));
        assert(b@ =~= b@.take(i as int));
        Order::Same
    } else if i == a.len() {
        assert(sa.len() == 0 && sb.len() > 0);
        assert(lex_less(sa, sb));
        assert(!lex_less(sb, sa));
        assert(a@ != b@);
        Order::Before
    } else if i == b.len() {
        assert(sb.len() == 0 && sa.len() > 0);
        assert(lex_less(sb, sa));
        assert(!lex_less(sa, sb));
        assert(a@ != b@);
        Order::After
    } else {
        let x = a[i];
        let y = b[i];
        assert(sa[0] == x && sb[0] == y);
        assert(x != y);
        assert(a@ != b@);
        proof {
            vstd::utf8::char_u32_cast(x, x as u32);
            vstd::utf8::char_u32_cast(y, y as u32);
        }
        if (x as u32) < (y as u32) {
            assert(lex_less(sa, sb));
            Order::Before
        } else {
            assert((x as u32) != (y as u32));
            assert(lex_less(sb, sa));
            Order::After
        }
    }
}

/// A vector of characters is its own deep view.
pub broadcast proof fn lemma_chars_deep_view_is_view(v: Vec<char>)
    ensures
        #[trigger] v.deep_view() == v@,
{
    assert(v.deep_view() =~= v@);
}

/// Pushing a string onto a vector of strings pushes its characters onto the
/// deep view.
pub proof fn lemma_deep_view_push(a: Vec<Vec<char>>, b: Vec<Vec<char>>, x: Vec<char>)
    requires
        b@ == a@.push(x),
    ensures
        b.deep_view() == a.deep_view().push(x@),
{
    broadcast use lemma_chars_deep_view_is_view;
    assert forall|k: int| 0 <= k < b@.len() implies #[trigger] b.deep_view()[k] == a.deep_view().push(x@)[k] by {
        assert(b.deep_view()[k] == b@[k]@);
        if k < a@.len() {
            assert(a.deep_view()[k] == a@[k]@);
        }
    }
    assert(b.deep_view() =~= a.deep_view().push(x@));
}

/// A copy of the characters `v`.
pub fn copy_chars(v: &Vec<char>) -> (r: Vec<char>)
    ensures
        r@ == v@,
{
    let mut r: Vec<char> = Vec::new();
    let mut i: usize = 0;
    while i < v.len()
        invariant
            i <= v@.len(),
            r@ == v@.take(i as int),
        decreases v@.len() - i,
    {
        r.push(v[i]);
        assert(r@ =~= v@.take(i + 1));
        i = i + 1;
    }
    assert(v@.take(v@.len() as int) =~= v@);
    r
}

/// Inserts `s` into the sorted, duplicate-free `v` where it belongs, unless
/// `v` already holds it.
pub fn insert_sorted(v: &mut Vec<Vec<char>>, s: Vec<char>)
    requires
        strictly_sorted(old(v).deep_view()),
    ensures
        strictly_sorted(final(v).deep_view()),
        final(v).deep_view().to_set() == old(v).deep_view().to_set().insert(s@),
{
    broadcast use lemma_chars_deep_view_is_view;
    let ghost d = v.deep_view();
    let mut lo: usize = 0;
    let mut hi: usize = v.len();
    while lo < hi
        invariant
            d == v.deep_view(),
            strictly_sorted(d),
            0 <= lo <= hi <= d.len(),
            forall|i: int| 0 <= i < lo ==> lex_less(#[trigger] d[i], s@),
            forall|i: int| hi <= i < d.len() ==> (lex_less(s@, #[trigger] d[i]) || d[i] == s@),
        decreases hi - lo,
    {
        let mid = lo + (hi - lo) / 2;
        assert(d[mid as int] == v@[mid as int]@);
        match compare_strings(&v[mid], &s) {
            Order::Before => {
                assert forall|i: int| 0 <= i < mid + 1 implies lex_less(#[trigger] d[i], s@) by {
                    if i < mid {
                        lemma_lex_transitive(d[i], d[mid as int], s@);
                    }
                }
                lo = mid + 1;
            },
            _ => {
                assert forall|i: int| mid <= i < d.len() implies (lex_less(s@, #[trigger] d[i])
                    || d[i] == s@) by {
                    if i > mid {
                        if d[mid as int] == s@ {
                        } else {
                            lemma_lex_transitive(s@, d[mid as int], d[i]);
                        }
                    }
                }
                hi = mid;
            },
        }
    }
    if lo < v.len() {
        assert(d[lo as int] == v@[lo as int]@);
        if compare_strings(&v[lo], &s) == Order::Same {
            assert(d.to_set().insert(s@) =~= d.to_set()) by {
                assert(d.to_set().contains(d[lo as int]));
            }
            return;
        }
    }
    let ghost sv = s@;
    v.insert(lo, s);
    let ghost e = v.deep_view();
    assert forall|i: int| 0 <= i < e.len() implies #[trigger] e[i] == d.insert(lo as int, sv)[i] by {
        if i < lo {
            assert(e[i] == v@[i]@);
        } else if i == lo {
            assert(e[i] == v@[i]@);
        } else {
            assert(e[i] == v@[i]@);
        }
    }
    assert(e =~= d.insert(lo as int, sv));
    assert forall|i: int, j: int| 0 <= i < j < e.len() implies lex_less(#[trigger] e[i], #[trigger] e[j]) by {
        if j < lo {
        } else if j == lo {
        } else if i < lo {
            lemma_lex_transitive(d[i], sv, d[j - 1]);
        } else if i == lo {
        } else {
        }
    }
    assert(e.to_set() =~= d.to_set().insert(sv)) by {
        assert forall|x: Seq<char>| e.to_set().contains(x) implies d.to_set().insert(sv).contains(x) by {
            let k = choose|k: int| 0 <= k < e.len() && e[k] == x;
            if k < lo {
                assert(d[k] == x);
            } else if k > lo {
                assert(d[k - 1] == x);
            }
        }
        assert forall|x: Seq<char>| d.to_set().insert(sv).contains(x) implies e.to_set().contains(x) by {
            if x == sv {
                assert(e[lo as int] == x);
            } else {
                let k = choose|k: int| 0 <= k < d.len() && d[k] == x;
                if k < lo {
                    assert(e[k] == x);
                } else {
                    assert(e[k + 1] == x);
                }
            }
        }
    }
}

/// The strings of `v` in order, each once.
pub fn sort_dedup(v: Vec<Vec<char>>) -> (r: Vec<Vec<char>>)
    ensures
        strictly_sorted(r.deep_view()),
        r.deep_view().to_set() == v.deep_view().to_set(),
{
    broadcast use lemma_chars_deep_view_is_view;
    let ghost orig = v.deep_view();
    let mut v = v;
    let mut r: Vec<Vec<char>> = Vec::new();
    assert(r.deep_view() =~= Seq::<Seq<char>>::empty());
    assert(orig.skip(orig.len() as int) =~= Seq::<Seq<char>>::empty());
    while v.len() > 0
        invariant
            v.deep_view() == orig.take(v@.len() as int),
            v@.len() <= orig.len(),
            strictly_sorted(r.deep_view()),
            r.deep_view().to_set() == orig.skip(v@.len() as int).to_set(),
        decreases v@.len(),
    {
        let ghost n = v@.len();
        let s = v.pop().unwrap();
        proof {
            let tail = orig.skip(n - 1);
            let rest = orig.skip(n as int);
            assert(v.deep_view() =~= orig.take(v@.len() as int));
            assert(orig[n - 1] == orig.take(n as int)[n - 1]);
            assert(s@ == orig[n - 1]);
            assert(tail =~= seq![s@] + rest);
            assert(tail.to_set() =~= rest.to_set().insert(s@)) by {
                assert forall|x: Seq<char>| tail.to_set().contains(x) implies rest.to_set().insert(
                    s@,
                ).contains(x) by {
                    let k = choose|k: int| 0 <= k < tail.len() && #[trigger] tail[k] == x;
                    if k > 0 {
                        assert(rest[k - 1] == x);
                    }
                }
                assert forall|x: Seq<char>| rest.to_set().insert(s@).contains(x) implies tail.to_set().contains(
                    x,
                ) by {
                    if x == s@ {
                        assert(tail[0] == x);
                    } else {
                        let k = choose|k: int| 0 <= k < rest.len() && #[trigger] rest[k] == x;
                        assert(tail[k + 1] == x);
                    }
                }
            }
        }
        insert_sorted(&mut r, s);
    }
    assert(orig.skip(0) =~= orig);
    r
}

} // verus!
