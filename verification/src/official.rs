//! Reading the strings of the official normalization test: every tenth data
//! line, and of each its first five columns, each a list of code points in
//! hexadecimal.

use crate::order::{copy_chars, lemma_deep_view_push};
use crate::scalars::{char_from_u32, is_scalar_value};
use vstd::prelude::*;

verus! {

/// The first index at or after `from` where `t` holds `sep`, or its length.
pub open spec fn find_from(t: Seq<char>, sep: char, from: nat) -> nat
    decreases t.len() - from,
{
    if from >= t.len() {
        t.len()
    } else if t[from as int] == sep {
        from
    } else {
        find_from(t, sep, from + 1)
    }
}

/// The separator found lies between `from` and the end.
pub proof fn lemma_find_from_bounds(t: Seq<char>, sep: char, from: nat)
    requires
        from <= t.len(),
    ensures
        from <= find_from(t, sep, from) <= t.len(),
        find_from(t, sep, from) < t.len() ==> t[find_from(t, sep, from) as int] == sep,
        forall|k: int| from <= k < find_from(t, sep, from) ==> t[k] != sep,
    decreases t.len() - from,
{
    if from < t.len() && t[from as int] != sep {
        lemma_find_from_bounds(t, sep, from + 1);
    }
}

/// The pieces of `t` from `from` on, between the characters `sep`.
pub open spec fn split_from(t: Seq<char>, sep: char, from: nat) -> Seq<Seq<char>>
    decreases t.len() + 1 - from,
{
    if from > t.len() {
        Seq::empty()
    } else {
        let e = find_from(t, sep, from);
        proof {
            lemma_find_from_bounds(t, sep, from);
        }
        if e >= t.len() {
            seq![t.subrange(from as int, t.len() as int)]
        } else {
            seq![t.subrange(from as int, e as int)] + split_from(t, sep, e + 1)
        }
    }
}

/// The pieces of `t` between the characters `sep`, as `str::split` gives
/// them.
pub open spec fn split_on(t: Seq<char>, sep: char) -> Seq<Seq<char>> {
    split_from(t, sep, 0)
}

/// A line without the carriage return that ended it, if one did.
pub open spec fn strip_cr(p: Seq<char>) -> Seq<char> {
    if p.len() > 0 && p.last() == '\r' {
        p.drop_last()
    } else {
        p
    }
}

/// The lines of `t`, as `str::lines` gives them: split at each newline, a
/// carriage return before a newline dropped, and no empty line after a final
/// newline.
pub open spec fn lines_of(t: Seq<char>) -> Seq<Seq<char>> {
    let p = split_on(t, '\n');
    let ended = Seq::new((p.len() - 1) as nat, |i: int| strip_cr(p[i]));
    if p.last().len() > 0 {
        ended.push(p.last())
    } else {
        ended
    }
}

/// Whether a line holds data: it starts with neither `#` nor `@`.
pub open spec fn is_data_line(l: Seq<char>) -> bool {
    !(l.len() > 0 && (l[0] == '#' || l[0] == '@'))
}

/// The data lines among the first `n` lines.
pub open spec fn data_lines(ls: Seq<Seq<char>>, n: nat) -> Seq<Seq<char>>
    decreases n,
{
    if n == 0 || n > ls.len() {
        Seq::empty()
    } else if is_data_line(ls[n - 1]) {
        data_lines(ls, (n - 1) as nat).push(ls[n - 1])
    } else {
        data_lines(ls, (n - 1) as nat)
    }
}

/// Every tenth of the lines, starting with the first.
pub open spec fn every_tenth(ls: Seq<Seq<char>>) -> Seq<Seq<char>> {
    Seq::new(((ls.len() + 9) / 10) as nat, |i: int| ls[10 * i])
}

/// Whether `c` has the Unicode White_Space property, as `char::is_whitespace`
/// tests it.
pub open spec fn is_white_space(c: char) -> bool {
    let v = c as u32;
    (0x9 <= v <= 0xD) || v == 0x20 || v == 0x85 || v == 0xA0 || v == 0x1680 || (0x2000 <= v
        <= 0x200A) || v == 0x2028 || v == 0x2029 || v == 0x202F || v == 0x205F || v == 0x3000
}

/// The first index at or after `from` where `t` holds white space, or its
/// length.
pub open spec fn token_end(t: Seq<char>, from: nat) -> nat
    decreases t.len() - from,
{
    if from >= t.len() {
        t.len()
    } else if is_white_space(t[from as int]) {
        from
    } else {
        token_end(t, from + 1)
    }
}

/// The white space found lies between `from` and the end.
pub proof fn lemma_token_end_bounds(t: Seq<char>, from: nat)
    requires
        from <= t.len(),
    ensures
        from <= token_end(t, from) <= t.len(),
        token_end(t, from) < t.len() ==> is_white_space(t[token_end(t, from) as int]),
        forall|k: int| from <= k < token_end(t, from) ==> !is_white_space(t[k]),
    decreases t.len() - from,
{
    if from < t.len() && !is_white_space(t[from as int]) {
        lemma_token_end_bounds(t, from + 1);
    }
}

/// The runs of characters other than white space in `t` from `from` on, as
/// `str::split_whitespace` gives them.
pub open spec fn tokens_from(t: Seq<char>, from: nat) -> Seq<Seq<char>>
    decreases t.len() - from,
{
    if from >= t.len() {
        Seq::empty()
    } else if is_white_space(t[from as int]) {
        tokens_from(t, from + 1)
    } else {
        let e = token_end(t, from);
        proof {
            lemma_token_end_bounds(t, from);
        }
        seq![t.subrange(from as int, e as int)] + tokens_from(t, e)
    }
}

/// The value of a hexadecimal digit, if `c` is one.
pub open spec fn hex_digit_value(c: char) -> Option<nat> {
    let v = c as u32;
    if 48 <= v <= 57 {
        Some((v - 48) as nat)
    } else if 65 <= v <= 70 {
        Some((v - 55) as nat)
    } else if 97 <= v <= 102 {
        Some((v - 87) as nat)
    } else {
        None
    }
}

/// The value of the first `n` hexadecimal digits of `d`, if they all are.
pub open spec fn hex_prefix_value(d: Seq<char>, n: nat) -> Option<nat>
    decreases n,
{
    if n == 0 {
        Some(0)
    } else {
        match (hex_prefix_value(d, (n - 1) as nat), hex_digit_value(d[n - 1])) {
            (Some(v), Some(x)) => Some(v * 16 + x),
            _ => None,
        }
    }
}

/// What `u32::from_str_radix(t, 16)` accepts: an optional `+` and at least
/// one hexadecimal digit, of a value that fits 32 bits.
pub open spec fn hex_u32(t: Seq<char>) -> Option<u32> {
    let d = if t.len() > 0 && t[0] == '+' { t.drop_first() } else { t };
    if d.len() == 0 {
        None
    } else {
        match hex_prefix_value(d, d.len()) {
            Some(v) => if v <= u32::MAX { Some(v as u32) } else { None },
            None => None,
        }
    }
}

/// The character a token names, if it is a code point in hexadecimal that is
/// a scalar value.
pub open spec fn token_char(t: Seq<char>) -> Option<char> {
    match hex_u32(t) {
        Some(v) => if is_scalar_value(v as int) { Some(v as char) } else { None },
        None => None,
    }
}

/// The characters that the first `n` tokens name, if each names one.
pub open spec fn token_chars(ts: Seq<Seq<char>>, n: nat) -> Option<Seq<char>>
    decreases n,
{
    if n == 0 {
        Some(Seq::empty())
    } else {
        match (token_chars(ts, (n - 1) as nat), token_char(ts[n - 1])) {
            (Some(s), Some(c)) => Some(s.push(c)),
            _ => None,
        }
    }
}

/// The string a column stands for: its code points separated by white space,
/// if each is a scalar value in hexadecimal.
pub open spec fn column_string(col: Seq<char>) -> Option<Seq<char>> {
    let ts = tokens_from(col, 0);
    token_chars(ts, ts.len())
}

/// The strings of the first `n` columns that stand for one.
pub open spec fn column_strings(cols: Seq<Seq<char>>, n: nat) -> Seq<Seq<char>>
    decreases n,
{
    if n == 0 {
        Seq::empty()
    } else {
        match column_string(cols[n - 1]) {
            Some(s) => column_strings(cols, (n - 1) as nat).push(s),
            None => column_strings(cols, (n - 1) as nat),
        }
    }
}

/// The strings of a line: of its first five `;`-separated columns, those
/// that stand for one.
pub open spec fn line_strings(line: Seq<char>) -> Seq<Seq<char>> {
    let cols = split_on(line, ';');
    column_strings(cols, if cols.len() < 5 { cols.len() } else { 5 })
}

/// The strings of the first `n` lines, one line after another.
pub open spec fn strings_of_lines(ls: Seq<Seq<char>>, n: nat) -> Seq<Seq<char>>
    decreases n,
{
    if n == 0 || n > ls.len() {
        Seq::empty()
    } else {
        strings_of_lines(ls, (n - 1) as nat) + line_strings(ls[n - 1])
    }
}

/// The strings taken from the official test `t`: of every tenth data line,
/// the first five columns that stand for a string.
pub open spec fn official_strings(t: Seq<char>) -> Seq<Seq<char>> {
    let ls = lines_of(t);
    let sampled = every_tenth(data_lines(ls, ls.len()));
    strings_of_lines(sampled, sampled.len())
}

/// The characters of `t`.
pub fn text_chars(t: &str) -> (v: Vec<char>)
    ensures
        v@ == t@,
{
    let mut v: Vec<char> = Vec::new();
    for c in it: t.chars()
        invariant
            it.seq() == t@,
            v@ == t@.take(it.index() as int),
    {
        proof {
            assert(t@.take(it.index() + 1) =~= t@.take(it.index() as int).push(c));
        }
        v.push(c);
    }
    assert(t@.take(t@.len() as int) =~= t@);
    v
}

proof fn lemma_find_from_skip(t: Seq<char>, sep: char, start: nat, i: nat)
    requires
        start <= i <= t.len(),
        forall|k: int| start <= k < i ==> t[k] != sep,
    ensures
        find_from(t, sep, start) == find_from(t, sep, i),
    decreases i - start,
{
    if start < i {
        lemma_find_from_skip(t, sep, start + 1, i);
    }
}

/// The pieces of `t` between the characters `sep`, as `str::split` gives
/// them.
pub fn split_chars(t: &Vec<char>, sep: char) -> (r: Vec<Vec<char>>)
    ensures
        r.deep_view() == split_on(t@, sep),
{
    broadcast use crate::order::lemma_chars_deep_view_is_view;
    let mut r: Vec<Vec<char>> = Vec::new();
    let mut cur: Vec<char> = Vec::new();
    let ghost mut start: nat = 0;
    let mut i: usize = 0;
    assert(r.deep_view() + split_from(t@, sep, 0) =~= split_on(t@, sep));
    while i < t.len()
        invariant
            start <= i <= t@.len(),
            cur@ == t@.subrange(start as int, i as int),
            forall|k: int| start <= k < i ==> t@[k] != sep,
            r.deep_view() + split_from(t@, sep, start) == split_on(t@, sep),
        decreases t@.len() - i,
    {
        let c = t[i];
        if c == sep {
            proof {
                lemma_find_from_skip(t@, sep, start, i as nat);
                assert(find_from(t@, sep, start) == i);
                let before = r.deep_view();
                assert(split_from(t@, sep, start) == seq![t@.subrange(start as int, i as int)] + split_from(
                    t@,
                    sep,
                    (i + 1) as nat,
                ));
            }
            let ghost old_r = r;
            let ghost x = cur;
            r.push(cur);
            proof {
                lemma_deep_view_push(old_r, r, x);
            }
            cur = Vec::new();
            proof {
                start = (i + 1) as nat;
            }
        } else {
            cur.push(c);
        }
        i = i + 1;
        assert(cur@ =~= t@.subrange(start as int, i as int));
    }
    proof {
        lemma_find_from_skip(t@, sep, start, i as nat);
    }
    let ghost old_r = r;
    let ghost x = cur;
    r.push(cur);
    proof {
        lemma_deep_view_push(old_r, r, x);
    }
    assert(r.deep_view() =~= split_on(t@, sep));
    r
}

/// The lines of `t`, as `str::lines` gives them.
pub fn lines(t: &Vec<char>) -> (r: Vec<Vec<char>>)
    ensures
        r.deep_view() == lines_of(t@),
{
    broadcast use crate::order::lemma_chars_deep_view_is_view;
    let pieces = split_chars(t, '\n');
    let ghost p = pieces.deep_view();
    proof {
        lemma_split_nonempty(t@, '\n', 0);
    }
    let mut pieces = pieces;
    let last = pieces.pop().unwrap();
    assert(last@ == p.last());
    let mut r: Vec<Vec<char>> = Vec::new();
    let mut i: usize = 0;
    let n = pieces.len();
    while i < n
        invariant
            n == pieces@.len(),
            n == p.len() - 1,
            pieces.deep_view() == p.drop_last(),
            i <= n,
            r.deep_view() == Seq::new(i as nat, |k: int| strip_cr(p[k])),
        decreases n - i,
    {
        let mut l = copy_chars(&pieces[i]);
        assert(pieces.deep_view()[i as int] == pieces@[i as int].deep_view());
        assert(l@ == p[i as int]);
        let len = l.len();
        if len > 0 && l[len - 1] == '\r' {
            l.pop();
        }
        let ghost old_r = r;
        let ghost x = l;
        r.push(l);
        proof {
            lemma_deep_view_push(old_r, r, x);
            assert(x@ =~= strip_cr(p[i as int]));
            assert(r.deep_view() =~= Seq::new((i + 1) as nat, |k: int| strip_cr(p[k])));
        }
        i = i + 1;
    }
    if last.len() > 0 {
        let ghost old_r = r;
        let ghost x = last;
        r.push(last);
        proof {
            lemma_deep_view_push(old_r, r, x);
        }
    }
    r
}

/// Splitting gives at least one piece.
pub proof fn lemma_split_nonempty(t: Seq<char>, sep: char, from: nat)
    requires
        from <= t.len(),
    ensures
        split_from(t, sep, from).len() >= 1,
{
    lemma_find_from_bounds(t, sep, from);
}

proof fn lemma_token_end_skip(t: Seq<char>, start: nat, i: nat)
    requires
        start <= i <= t.len(),
        forall|k: int| start <= k < i ==> !is_white_space(t[k]),
    ensures
        token_end(t, start) == token_end(t, i),
    decreases i - start,
{
    if start < i {
        lemma_token_end_skip(t, start + 1, i);
    }
}

/// Whether `c` has the Unicode White_Space property.
pub fn white_space(c: char) -> (r: bool)
    ensures
        r == is_white_space(c),
{
    let v = c as u32;
    (0x9 <= v && v <= 0xD) || v == 0x20 || v == 0x85 || v == 0xA0 || v == 0x1680 || (0x2000 <= v
        && v <= 0x200A) || v == 0x2028 || v == 0x2029 || v == 0x202F || v == 0x205F || v == 0x3000
}

/// The runs of characters other than white space in `t`, as
/// `str::split_whitespace` gives them.
pub fn split_tokens(t: &Vec<char>) -> (r: Vec<Vec<char>>)
    ensures
        r.deep_view() == tokens_from(t@, 0),
{
    broadcast use crate::order::lemma_chars_deep_view_is_view;
    let mut r: Vec<Vec<char>> = Vec::new();
    let mut cur: Vec<char> = Vec::new();
    let ghost mut start: nat = 0;
    let mut i: usize = 0;
    assert(r.deep_view() + tokens_from(t@, 0) =~= tokens_from(t@, 0));
    while i < t.len()
        invariant
            i <= t@.len(),
            cur@.len() == 0 ==> r.deep_view() + tokens_from(t@, i as nat) == tokens_from(t@, 0),
            cur@.len() > 0 ==> {
                &&& start < i
                &&& cur@ == t@.subrange(start as int, i as int)
                &&& forall|k: int| start <= k < i ==> !is_white_space(t@[k])
                &&& r.deep_view() + tokens_from(t@, start) == tokens_from(t@, 0)
            },
        decreases t@.len() - i,
    {
        let c = t[i];
        if white_space(c) {
            if cur.len() > 0 {
                proof {
                    lemma_token_end_skip(t@, start, i as nat);
                    assert(token_end(t@, i as nat) == i);
                    assert(tokens_from(t@, start) == seq![t@.subrange(start as int, i as int)]
                        + tokens_from(t@, i as nat));
                }
                let ghost old_r = r;
                let ghost x = cur;
                r.push(cur);
                proof {
                    lemma_deep_view_push(old_r, r, x);
                }
                cur = Vec::new();
            }
            assert(tokens_from(t@, i as nat) == tokens_from(t@, (i + 1) as nat));
        } else {
            if cur.len() == 0 {
                proof {
                    start = i as nat;
                }
            }
            cur.push(c);
            assert(cur@ =~= t@.subrange(start as int, i + 1));
        }
        i = i + 1;
    }
    if cur.len() > 0 {
        proof {
            lemma_token_end_skip(t@, start, i as nat);
            assert(tokens_from(t@, start) == seq![t@.subrange(start as int, i as int)] + tokens_from(
                t@,
                i as nat,
            ));
        }
        let ghost old_r = r;
        let ghost x = cur;
        r.push(cur);
        proof {
            lemma_deep_view_push(old_r, r, x);
        }
    }
    assert(r.deep_view() =~= tokens_from(t@, 0));
    r
}

proof fn lemma_hex_none(d: Seq<char>, n: nat, m: nat)
    requires
        n <= m <= d.len(),
        hex_prefix_value(d, n) is None,
    ensures
        hex_prefix_value(d, m) is None,
    decreases m - n,
{
    if n < m {
        lemma_hex_none(d, n, (m - 1) as nat);
    }
}

proof fn lemma_hex_grows(d: Seq<char>, n: nat, m: nat)
    requires
        n <= m <= d.len(),
        hex_prefix_value(d, n) is Some,
        hex_prefix_value(d, m) is Some,
    ensures
        hex_prefix_value(d, n)->0 <= hex_prefix_value(d, m)->0,
    decreases m - n,
{
    if n < m {
        if hex_prefix_value(d, (m - 1) as nat) is None {
            lemma_hex_none(d, (m - 1) as nat, m);
        } else {
            lemma_hex_grows(d, n, (m - 1) as nat);
        }
    }
}

/// The value of a hexadecimal digit, if `c` is one.
fn hex_digit_of(c: char) -> (r: Option<u64>)
    ensures
        r matches Some(x) ==> hex_digit_value(c) == Some(x as nat),
        r is None ==> hex_digit_value(c) is None,
{
    let v = c as u32;
    if 48 <= v && v <= 57 {
        Some((v - 48) as u64)
    } else if 65 <= v && v <= 70 {
        Some((v - 55) as u64)
    } else if 97 <= v && v <= 102 {
        Some((v - 87) as u64)
    } else {
        None
    }
}

/// `u32::from_str_radix(tok, 16)`, where it succeeds.
pub fn parse_hex(tok: &Vec<char>) -> (r: Option<u32>)
    ensures
        r == hex_u32(tok@),
{
    let n = tok.len();
    let off: usize = if n > 0 && tok[0] == '+' { 1 } else { 0 };
    let ghost d = if tok@.len() > 0 && tok@[0] == '+' { tok@.drop_first() } else { tok@ };
    assert(d =~= tok@.skip(off as int));
    assert(d.len() == n - off);
    if off == n {
        return None;
    }
    assert(hex_u32(tok@) == match hex_prefix_value(d, d.len()) {
        Some(w) => if w <= u32::MAX { Some(w as u32) } else { None },
        None => None,
    });
    let mut v: u64 = 0;
    let mut k: usize = off;
    while k < n
        invariant
            off <= k <= n,
            n == tok@.len(),
            off < n,
            d == tok@.skip(off as int),
            hex_prefix_value(d, (k - off) as nat) == Some(v as nat),
            v <= u32::MAX,
            d.len() == n - off,
            hex_u32(tok@) == match hex_prefix_value(d, d.len()) {
                Some(w) => if w <= u32::MAX { Some(w as u32) } else { None },
                None => None,
            },
        decreases n - k,
    {
        assert(d[(k - off) as int] == tok@[k as int]);
        let x = match hex_digit_of(tok[k]) {
            Some(x) => x,
            None => {
                proof {
                    lemma_hex_none(d, (k - off + 1) as nat, d.len());
                }
                return None;
            },
        };
        v = v * 16 + x;
        assert(hex_prefix_value(d, (k - off + 1) as nat) == Some(v as nat));
        if v > 0xFFFF_FFFF {
            proof {
                if hex_prefix_value(d, d.len()) is Some {
                    lemma_hex_grows(d, (k - off + 1) as nat, d.len());
                }
            }
            return None;
        }
        k = k + 1;
    }
    Some(v as u32)
}

proof fn lemma_token_chars_none(ts: Seq<Seq<char>>, n: nat, m: nat)
    requires
        n <= m,
        token_chars(ts, n) is None,
    ensures
        token_chars(ts, m) is None,
    decreases m - n,
{
    if n < m {
        lemma_token_chars_none(ts, n, (m - 1) as nat);
    }
}

/// The string a column stands for, if it stands for one.
pub fn parse_column(col: &Vec<char>) -> (r: Option<Vec<char>>)
    ensures
        r matches Some(s) ==> column_string(col@) == Some(s@),
        r is None ==> column_string(col@) is None,
{
    broadcast use crate::order::lemma_chars_deep_view_is_view;
    let ts = split_tokens(col);
    let ghost tv = ts.deep_view();
    let mut out: Vec<char> = Vec::new();
    let mut j: usize = 0;
    while j < ts.len()
        invariant
            j <= ts@.len(),
            tv == ts.deep_view(),
            tv == tokens_from(col@, 0),
            token_chars(tv, j as nat) == Some(out@),
        decreases ts@.len() - j,
    {
        assert(tv[j as int] == ts@[j as int]@);
        let cp = match parse_hex(&ts[j]) {
            Some(cp) => cp,
            None => {
                proof {
                    lemma_token_chars_none(tv, (j + 1) as nat, tv.len());
                }
                return None;
            },
        };
        let c = match char_from_u32(cp) {
            Some(c) => c,
            None => {
                proof {
                    lemma_token_chars_none(tv, (j + 1) as nat, tv.len());
                }
                return None;
            },
        };
        proof {
            vstd::utf8::char_u32_cast(c, cp);
        }
        out.push(c);
        j = j + 1;
    }
    Some(out)
}

/// Appends the strings `more` to `r`.
fn append_strings(r: &mut Vec<Vec<char>>, more: Vec<Vec<char>>)
    ensures
        final(r).deep_view() == old(r).deep_view() + more.deep_view(),
{
    let ghost start = r.deep_view();
    let ghost m = more.deep_view();
    let mut more = more;
    let mut rev: Vec<Vec<char>> = Vec::new();
    // take the strings off the end, then put them on in order
    while more.len() > 0
        invariant
            more.deep_view() + rev.deep_view().reverse() == m,
        decreases more@.len(),
    {
        let ghost old_more = more;
        let ghost old_rev = rev;
        let s = more.pop().unwrap();
        let ghost x = s;
        rev.push(s);
        proof {
            assert(old_more@ =~= more@.push(x));
            lemma_deep_view_push(more, old_more, x);
            lemma_deep_view_push(old_rev, rev, x);
            assert(rev.deep_view().reverse() =~= seq![x@] + old_rev.deep_view().reverse());
            assert(more.deep_view() + rev.deep_view().reverse() =~= old_more.deep_view() + old_rev.deep_view().reverse());
        }
    }
    assert(rev.deep_view().reverse() =~= m);
    while rev.len() > 0
        invariant
            r.deep_view() + rev.deep_view().reverse() == start + m,
        decreases rev@.len(),
    {
        let ghost old_r = *r;
        let ghost old_rev = rev;
        let s = rev.pop().unwrap();
        let ghost x = s;
        r.push(s);
        proof {
            assert(old_rev@ =~= rev@.push(x));
            lemma_deep_view_push(rev, old_rev, x);
            lemma_deep_view_push(old_r, *r, x);
            assert(old_rev.deep_view().reverse() =~= seq![x@] + rev.deep_view().reverse());
            assert(r.deep_view() + rev.deep_view().reverse() =~= old_r.deep_view() + old_rev.deep_view().reverse());
        }
    }
    assert(r.deep_view() =~= start + m);
}

/// The strings of a line: of its first five `;`-separated columns, those that
/// stand for one.
pub fn strings_of_line(line: &Vec<char>) -> (r: Vec<Vec<char>>)
    ensures
        r.deep_view() == line_strings(line@),
{
    broadcast use crate::order::lemma_chars_deep_view_is_view;
    let cols = split_chars(line, ';');
    let ghost cv = cols.deep_view();
    let n = if cols.len() < 5 { cols.len() } else { 5 };
    let mut r: Vec<Vec<char>> = Vec::new();
    let mut j: usize = 0;
    while j < n
        invariant
            j <= n <= cols@.len(),
            cv == cols.deep_view(),
            r.deep_view() == column_strings(cv, j as nat),
        decreases n - j,
    {
        assert(cv[j as int] == cols@[j as int]@);
        if let Some(s) = parse_column(&cols[j]) {
            let ghost old_r = r;
            let ghost x = s;
            r.push(s);
            proof {
                lemma_deep_view_push(old_r, r, x);
            }
        }
        j = j + 1;
    }
    r
}

proof fn lemma_strings_of_lines_prefix(a: Seq<Seq<char>>, b: Seq<Seq<char>>, n: nat)
    requires
        n <= a.len(),
        n <= b.len(),
        forall|k: int| 0 <= k < n ==> a[k] == b[k],
    ensures
        strings_of_lines(a, n) == strings_of_lines(b, n),
    decreases n,
{
    if n > 0 {
        lemma_strings_of_lines_prefix(a, b, (n - 1) as nat);
    }
}

proof fn lemma_every_tenth_push(dl: Seq<Seq<char>>, l: Seq<char>)
    ensures
        every_tenth(dl.push(l)) == if dl.len() % 10 == 0 {
            every_tenth(dl).push(l)
        } else {
            every_tenth(dl)
        },
{
    let a = every_tenth(dl.push(l));
    let b = every_tenth(dl);
    if dl.len() % 10 == 0 {
        assert((dl.len() + 1 + 9) / 10 == (dl.len() + 9) / 10 + 1);
        assert(10 * ((dl.len() + 9) / 10) == dl.len());
        assert(a =~= b.push(l));
    } else {
        assert((dl.len() + 1 + 9) / 10 == (dl.len() + 9) / 10);
        assert(a =~= b);
    }
}

/// The strings taken from the official test: of every tenth data line, the
/// first five columns that stand for a string.
pub fn official_test_strings(official: &str) -> (r: Vec<Vec<char>>)
    ensures
        r.deep_view() == official_strings(official@),
{
    broadcast use crate::order::lemma_chars_deep_view_is_view;
    let t = text_chars(official);
    let ls = lines(&t);
    let ghost lv = ls.deep_view();
    let mut count: usize = 0;
    let mut r: Vec<Vec<char>> = Vec::new();
    let mut i: usize = 0;
    while i < ls.len()
        invariant
            i <= ls@.len(),
            lv == ls.deep_view(),
            lv == lines_of(official@),
            count == data_lines(lv, i as nat).len(),
            count <= i,
            r.deep_view() == strings_of_lines(
                every_tenth(data_lines(lv, i as nat)),
                every_tenth(data_lines(lv, i as nat)).len(),
            ),
        decreases ls@.len() - i,
    {
        let l = &ls[i];
        assert(lv[i as int] == l@);
        let data = !(l.len() > 0 && (l[0] == '#' || l[0] == '@'));
        if data {
            let ghost dl = data_lines(lv, i as nat);
            proof {
                lemma_every_tenth_push(dl, l@);
                assert(data_lines(lv, (i + 1) as nat) == dl.push(l@));
                let ten = every_tenth(dl);
                lemma_strings_of_lines_prefix(ten, ten.push(l@), ten.len());
                assert(strings_of_lines(ten.push(l@), ten.len() + 1) == strings_of_lines(ten, ten.len()) + line_strings(l@));
            }
            if count % 10 == 0 {
                let more = strings_of_line(l);
                append_strings(&mut r, more);
            }
            count = count + 1;
        }
        i = i + 1;
    }
    r
}

} // verus!
