//! The record encoding of the tables: fixed-width numbers in base-64 digits,
//! length-prefixed strings, and string literals broken into lines.

use vstd::prelude::*;
use crate::official::{hex_digit_value, hex_prefix_value};
use crate::order::{lemma_lex_push, lex_less};
use vstd::string::StringExecFns;
use vstd::string::StringSliceAdditionalSpecFns;

verus! {

/// `64` to the power `n`.
pub open spec fn pow64(n: nat) -> nat
    decreases n,
{
    if n == 0 {
        1
    } else {
        64 * pow64((n - 1) as nat)
    }
}

/// The character that stands for the base-64 digit `d`: `'0' + d`.
pub open spec fn digit_char(d: nat) -> char {
    (48 + d) as char
}

/// `value` as `count` base-64 digits, most significant first. Digits above
/// `count` are dropped.
pub open spec fn base64_digits(value: nat, count: nat) -> Seq<char>
    decreases count,
{
    if count == 0 {
        Seq::empty()
    } else {
        base64_digits(value / 64, (count - 1) as nat).push(digit_char(value % 64))
    }
}

/// The number that a run of digit characters stands for, most significant first.
pub open spec fn digits_value(s: Seq<char>) -> int
    decreases s.len(),
{
    if s.len() == 0 {
        0
    } else {
        digits_value(s.drop_last()) * 64 + (s.last() as int - 48)
    }
}

/// Whether `c` is one of the 64 digit characters `'0'` to `'o'`.
pub open spec fn is_digit_char(c: char) -> bool {
    48 <= c as int && c as int <= 111
}

proof fn lemma_pow64_positive(n: nat)
    ensures
        pow64(n) >= 1,
    decreases n,
{
    if n > 0 {
        lemma_pow64_positive((n - 1) as nat);
    }
}

proof fn lemma_pow64_small(n: nat)
    requires
        n <= 10,
    ensures
        pow64(n) <= 0x1000_0000_0000_0000,
    decreases n,
{
    if n > 0 {
        lemma_pow64_small((n - 1) as nat);
        assert(pow64(n) <= pow64(10)) by {
            lemma_pow64_monotone((n - 1) as nat, 9);
        }
        assert(pow64(10) == 0x1000_0000_0000_0000) by {
            reveal_with_fuel(pow64, 11);
        }
    }
}

proof fn lemma_pow64_monotone(a: nat, b: nat)
    requires
        a <= b,
    ensures
        pow64(a) <= pow64(b),
    decreases b,
{
    if a < b {
        lemma_pow64_monotone(a, (b - 1) as nat);
        lemma_pow64_positive((b - 1) as nat);
    }
}

/// The digits of `value / 64^k`, one digit further: one more division by 64
/// moves the boundary by one digit.
proof fn lemma_div_step(value: nat, k: nat)
    ensures
        (value / pow64(k)) / 64 == value / pow64(k + 1),
{
    lemma_pow64_positive(k);
    vstd::arithmetic::div_mod::lemma_div_denominator(value as int, pow64(k) as int, 64);
    assert(pow64(k + 1) == 64 * pow64(k));
    assert(pow64(k) * 64 == 64 * pow64(k)) by (nonlinear_arith);
}

/// Decoding the digits of a value that fits gives the value back.
pub proof fn law_digits_roundtrip(value: nat, count: nat)
    requires
        value < pow64(count),
    ensures
        base64_digits(value, count).len() == count,
        forall|i: int| 0 <= i < count ==> is_digit_char(#[trigger] base64_digits(value, count)[i]),
        digits_value(base64_digits(value, count)) == value,
    decreases count,
{
    if count > 0 {
        let c1 = (count - 1) as nat;
        assert(value / 64 < pow64(c1)) by {
            vstd::arithmetic::div_mod::lemma_div_is_ordered(value as int, (64 * pow64(c1) - 1) as int, 64);
            assert((64 * pow64(c1) - 1) / 64 == pow64(c1) - 1) by (nonlinear_arith)
                requires pow64(c1) >= 1;
            lemma_pow64_positive(c1);
        }
        law_digits_roundtrip(value / 64, c1);
        let s = base64_digits(value, count);
        assert(s.drop_last() =~= base64_digits(value / 64, c1));
        assert(value == (value / 64) * 64 + value % 64) by (nonlinear_arith);
    }
}

/// Fixed-width digit fields sort as the numbers they hold: of two values that
/// fit `count` digits, the digits of the smaller come first in string order,
/// and the digits are equal exactly when the values are.
pub proof fn law_digits_order(a: nat, b: nat, count: nat)
    requires
        a < pow64(count),
        b < pow64(count),
    ensures
        lex_less(base64_digits(a, count), base64_digits(b, count)) <==> a < b,
        (base64_digits(a, count) == base64_digits(b, count)) <==> a == b,
    decreases count,
{
    law_digits_roundtrip(a, count);
    law_digits_roundtrip(b, count);
    if count == 0 {
        assert(base64_digits(a, count) =~= base64_digits(b, count));
    } else {
        let c1 = (count - 1) as nat;
        lemma_pow64_positive(c1);
        assert(pow64(count) == 64 * pow64(c1));
        assert(a / 64 < pow64(c1)) by {
            vstd::arithmetic::div_mod::lemma_div_is_ordered(a as int, (64 * pow64(c1) - 1) as int, 64);
            assert((64 * pow64(c1) - 1) / 64 == pow64(c1) - 1) by (nonlinear_arith)
                requires pow64(c1) >= 1;
        }
        assert(b / 64 < pow64(c1)) by {
            vstd::arithmetic::div_mod::lemma_div_is_ordered(b as int, (64 * pow64(c1) - 1) as int, 64);
            assert((64 * pow64(c1) - 1) / 64 == pow64(c1) - 1) by (nonlinear_arith)
                requires pow64(c1) >= 1;
        }
        law_digits_order(a / 64, b / 64, c1);
        law_digits_roundtrip(a / 64, c1);
        law_digits_roundtrip(b / 64, c1);
        let (x, y) = (base64_digits(a / 64, c1), base64_digits(b / 64, c1));
        let (ca, cb) = (digit_char(a % 64), digit_char(b % 64));
        assert(ca as u32 == 48 + a % 64);
        assert(cb as u32 == 48 + b % 64);
        lemma_lex_push(x, y, ca, cb);
        assert(a == (a / 64) * 64 + a % 64) by (nonlinear_arith);
        assert(b == (b / 64) * 64 + b % 64) by (nonlinear_arith);
        assert((a < b) <==> (a / 64 < b / 64 || (a / 64 == b / 64 && a % 64 < b % 64))) by (nonlinear_arith)
            requires
                a == (a / 64) * 64 + a % 64,
                b == (b / 64) * 64 + b % 64,
                a % 64 < 64,
                b % 64 < 64,
        ;
    }
}

/// Appends `value` to `out` as `digits` base-64 digits, most significant first,
/// each digit `d` the character `'0' + d`: `'0'` to `'o'`, one contiguous run
/// of ASCII.
pub fn digits(out: &mut String, value: u64, digits: u32)
    requires
        digits <= 10,
        value < pow64(digits as nat),
    ensures
        final(out)@ == old(out)@ + base64_digits(value as nat, digits as nat),
{
    proof {
        lemma_pow64_small(digits as nat);
    }
    // p == 64^k, where k is the number of digits still to write
    let mut p: u64 = 1;
    let mut k: u32 = 0;
    while k < digits
        invariant
            k <= digits <= 10,
            p == pow64(k as nat),
            pow64(digits as nat) <= 0x1000_0000_0000_0000,
        decreases digits - k,
    {
        proof {
            lemma_pow64_monotone((k + 1) as nat, digits as nat);
        }
        p = p * 64;
        k = k + 1;
    }
    let ghost start = out@;
    while k > 0
        invariant
            k <= digits <= 10,
            p == pow64(k as nat),
            value < pow64(digits as nat),
            out@ == start + base64_digits(value as nat / pow64(k as nat), (digits - k) as nat),
        decreases k,
    {
        proof {
            lemma_pow64_positive((k - 1) as nat);
        }
        p = p / 64;
        k = k - 1;
        let d: u64 = (value / p) % 64;
        let ghost before = out@;
        string_push(out, ((48 + d) as u8) as char);
        proof {
            lemma_div_step(value as nat, k as nat);
            let n = (digits - k) as nat;
            assert(base64_digits(value as nat / pow64(k as nat), n) =~= base64_digits(
                value as nat / pow64(k as nat) / 64,
                (n - 1) as nat,
            ).push(digit_char(value as nat / pow64(k as nat) % 64)));
        }
    }
    proof {
        assert(pow64(0) == 1);
        assert(value as nat / pow64(0) == value);
    }
}

/// The UTF-8 length of a string, in bytes.
pub open spec fn byte_len(s: Seq<char>) -> nat {
    vstd::utf8::encode_utf8(s).len()
}

/// A string as its length in bytes (3 digits) and then its characters.
pub open spec fn text_record(s: Seq<char>) -> Seq<char> {
    base64_digits(byte_len(s), 3) + s
}

/// Appends `s` to `out` as its length in bytes (3 digits) and then its bytes.
pub fn text(out: &mut String, s: &str)
    requires
        byte_len(s@) < pow64(3),
    ensures
        final(out)@ == old(out)@ + text_record(s@),
{
    let n = s.len();
    assert(pow64(3) == 262144) by {
        reveal_with_fuel(pow64, 4);
    }
    assert(s.spec_bytes() == vstd::utf8::encode_utf8(s@));
    assert(n as nat == byte_len(s@));
    let ghost start = out@;
    digits(out, n as u64, 3);
    let ghost mid = out@;
    string_push_str(out, s);
    assert(mid == start + base64_digits(byte_len(s@), 3));
    assert(out@ =~= start + text_record(s@));
}

/// How many bytes UTF-8 takes for `c`.
pub open spec fn utf8_width(c: char) -> nat {
    if (c as u32) < 0x80 {
        1
    } else if (c as u32) < 0x800 {
        2
    } else if (c as u32) < 0x10000 {
        3
    } else {
        4
    }
}

/// The UTF-8 encoding of two strings one after the other is theirs one after
/// the other.
pub proof fn lemma_encode_utf8_concat(a: Seq<char>, b: Seq<char>)
    ensures
        vstd::utf8::encode_utf8(a + b) == vstd::utf8::encode_utf8(a) + vstd::utf8::encode_utf8(b),
    decreases a.len(),
{
    if a.len() > 0 {
        assert((a + b).drop_first() =~= a.drop_first() + b);
        assert((a + b)[0] == a[0]);
        lemma_encode_utf8_concat(a.drop_first(), b);
        assert(vstd::utf8::encode_utf8(a + b) =~= vstd::utf8::encode_utf8(a) + vstd::utf8::encode_utf8(b));
    } else {
        assert(a + b =~= b);
    }
}

/// One more character adds its width to the byte length.
pub proof fn lemma_byte_len_push(s: Seq<char>, c: char)
    ensures
        byte_len(s.push(c)) == byte_len(s) + utf8_width(c),
{
    lemma_encode_utf8_concat(s, seq![c]);
    assert(s.push(c) =~= s + seq![c]);
    assert(seq![c].drop_first() =~= Seq::<char>::empty());
    vstd::utf8::char_is_scalar(c);
    assert(vstd::utf8::encode_utf8(Seq::<char>::empty()) =~= Seq::<u8>::empty());
    assert(vstd::utf8::encode_utf8(seq![c]) =~= vstd::utf8::encode_scalar(c as u32));
    assert(vstd::utf8::encode_scalar(c as u32).len() == utf8_width(c));
}

/// Appends `s` as its length in bytes (3 digits) and then its characters, if
/// the length fits 3 digits; leaves `out` as it was otherwise.
pub fn push_text(out: &mut String, s: &Vec<char>) -> (ok: bool)
    ensures
        ok == (byte_len(s@) < pow64(3)),
        ok ==> final(out)@ == old(out)@ + text_record(s@),
        !ok ==> final(out)@ == old(out)@,
{
    assert(pow64(3) == 262144) by {
        reveal_with_fuel(pow64, 4);
    }
    let mut n: u64 = 0;
    let mut i: usize = 0;
    while i < s.len()
        invariant
            i <= s@.len(),
            n == byte_len(s@.take(i as int)),
            n < 262144,
            pow64(3) == 262144,
        decreases s@.len() - i,
    {
        let c = s[i];
        proof {
            vstd::utf8::char_is_scalar(c);
        }
        let v = c as u32;
        let w: u64 = if v < 0x80 { 1 } else if v < 0x800 { 2 } else if v < 0x10000 { 3 } else { 4 };
        assert(w == utf8_width(c));
        proof {
            lemma_byte_len_push(s@.take(i as int), c);
            assert(s@.take(i + 1) =~= s@.take(i as int).push(c));
        }
        n = n + w;
        if n >= 262144 {
            proof {
                lemma_byte_len_monotone(s@, (i + 1) as nat, s@.len());
                assert(s@.take(s@.len() as int) =~= s@);
            }
            return false;
        }
        i = i + 1;
    }
    assert(s@.take(s@.len() as int) =~= s@);
    let ghost start = out@;
    digits(out, n, 3);
    let mut j: usize = 0;
    while j < s.len()
        invariant
            j <= s@.len(),
            out@ == start + base64_digits(byte_len(s@), 3) + s@.take(j as int),
        decreases s@.len() - j,
    {
        string_push(out, s[j]);
        assert(s@.take(j + 1) =~= s@.take(j as int).push(s@[j as int]));
        j = j + 1;
    }
    assert(out@ =~= start + text_record(s@));
    true
}

/// A longer prefix is no shorter in bytes.
pub proof fn lemma_byte_len_monotone(s: Seq<char>, i: nat, j: nat)
    requires
        i <= j <= s.len(),
    ensures
        byte_len(s.take(i as int)) <= byte_len(s.take(j as int)),
    decreases j - i,
{
    if i < j {
        lemma_byte_len_monotone(s, i, (j - 1) as nat);
        lemma_byte_len_push(s.take(j - 1), s[j - 1]);
        assert(s.take(j as int) =~= s.take(j - 1).push(s[j - 1]));
    }
}

/// A string's record reads back: its first three digits are its length in
/// bytes, and the string follows them.
pub proof fn law_text_record(s: Seq<char>)
    requires
        byte_len(s) < pow64(3),
    ensures
        text_record(s).len() == 3 + s.len(),
        digits_value(text_record(s).subrange(0, 3)) == byte_len(s),
        text_record(s).skip(3) == s,
{
    law_digits_roundtrip(byte_len(s), 3);
    let r = text_record(s);
    assert(r.subrange(0, 3) =~= base64_digits(byte_len(s), 3));
    assert(r.skip(3) =~= s);
}

/// The upper-case hexadecimal digit for `d` (below 16).
pub open spec fn hex_digit(d: nat) -> char {
    if d < 10 {
        (48 + d) as char
    } else {
        (55 + d) as char
    }
}

/// `n` in upper-case hexadecimal, without leading zeros (`0` is `"0"`).
pub open spec fn hex_upper(n: nat) -> Seq<char>
    decreases n,
{
    if n < 16 {
        seq![hex_digit(n)]
    } else {
        hex_upper(n / 16).push(hex_digit(n % 16))
    }
}

/// `n` in decimal, without leading zeros (`0` is `"0"`).
pub open spec fn decimal(n: nat) -> Seq<char>
    decreases n,
{
    if n < 10 {
        seq![(48 + n) as char]
    } else {
        decimal(n / 10).push((48 + n % 10) as char)
    }
}

/// Whether `c` is printable ASCII, from the space to `'~'`.
pub open spec fn is_printable_ascii(c: char) -> bool {
    32 <= c as int && c as int <= 126
}

/// How one character of a literal's text is written: `"`, `\` and `$` behind
/// a backslash, a space that starts a line as `\x20`, other printable ASCII
/// raw, and everything else as `\u{X}` with `X` in upper-case hexadecimal.
pub open spec fn escape(c: char, line_start: bool) -> Seq<char> {
    if c == '"' {
        seq!['\\', '"']
    } else if c == '\\' {
        seq!['\\', '\\']
    } else if c == '$' {
        seq!['\\', '$']
    } else if c == ' ' && line_start {
        seq!['\\', 'x', '2', '0']
    } else if is_printable_ascii(c) {
        seq![c]
    } else {
        seq!['\\', 'u', '{'] + hex_upper(c as nat) + seq!['}']
    }
}

/// The continuation that breaks a literal: a backslash, a newline and four
/// spaces of indentation.
pub open spec fn line_break() -> Seq<char> {
    seq!['\\', '\n', ' ', ' ', ' ', ' ']
}

/// Whether the character at index `i` starts a new line of a literal broken
/// every `width` characters.
pub open spec fn starts_line(i: int, width: nat) -> bool {
    i > 0 && width > 0 && i % (width as int) == 0
}

/// What the character at index `i` of `t` becomes inside the literal.
pub open spec fn literal_piece(t: Seq<char>, width: nat, i: int) -> Seq<char> {
    if starts_line(i, width) {
        line_break() + escape(t[i], true)
    } else {
        escape(t[i], false)
    }
}

/// The inside of the literal for the first `n` characters of `t`.
pub open spec fn literal_body(t: Seq<char>, width: nat, n: nat) -> Seq<char>
    decreases n,
{
    if n == 0 {
        Seq::empty()
    } else {
        literal_body(t, width, (n - 1) as nat) + literal_piece(t, width, n - 1)
    }
}

/// `t` as one string literal, broken with `\`-newline every `width` characters.
pub open spec fn literal(t: Seq<char>, width: nat) -> Seq<char> {
    seq!['"'] + literal_body(t, width, t.len()) + seq!['"']
}

/// Whether `c` may stand in a literal: printable ASCII or a newline.
pub open spec fn is_literal_char(c: char) -> bool {
    c == '\n' || is_printable_ascii(c)
}

proof fn lemma_hex_upper_printable(n: nat)
    ensures
        hex_upper(n).len() > 0,
        forall|k: int| 0 <= k < hex_upper(n).len() ==> is_printable_ascii(#[trigger] hex_upper(n)[k]),
    decreases n,
{
    if n >= 16 {
        lemma_hex_upper_printable(n / 16);
        assert forall|k: int| 0 <= k < hex_upper(n).len() implies is_printable_ascii(
            #[trigger] hex_upper(n)[k],
        ) by {
            if k < hex_upper(n / 16).len() {
                assert(hex_upper(n)[k] == hex_upper(n / 16)[k]);
            }
        }
    }
}

proof fn lemma_escape_printable(c: char, line_start: bool)
    ensures
        escape(c, line_start).len() > 0,
        forall|k: int|
            0 <= k < escape(c, line_start).len() ==> is_printable_ascii(#[trigger] escape(c, line_start)[k]),
        line_start ==> escape(c, line_start)[0] != ' ',
{
    if !(c == '"' || c == '\\' || c == '$' || (c == ' ' && line_start) || is_printable_ascii(c)) {
        lemma_hex_upper_printable(c as nat);
        let e = escape(c, line_start);
        assert forall|k: int| 0 <= k < e.len() implies is_printable_ascii(#[trigger] e[k]) by {
            if 3 <= k < 3 + hex_upper(c as nat).len() {
                assert(e[k] == hex_upper(c as nat)[k - 3]);
            }
        }
    }
}

/// What holds of the inside of a literal: every character is printable ASCII
/// or a newline, and each newline ends a line with a backslash and is followed
/// by four spaces and then a character that is not a space.
pub open spec fn literal_lines_ok(b: Seq<char>) -> bool {
    &&& forall|k: int| 0 <= k < b.len() ==> is_literal_char(#[trigger] b[k])
    &&& forall|k: int|
        0 <= k < b.len() && #[trigger] b[k] == '\n' ==> {
            &&& 1 <= k && k + 5 < b.len()
            &&& b[k - 1] == '\\'
            &&& b[k + 1] == ' ' && b[k + 2] == ' ' && b[k + 3] == ' ' && b[k + 4] == ' '
            &&& b[k + 5] != ' '
        }
}

proof fn lemma_literal_body_lines(t: Seq<char>, width: nat, n: nat)
    requires
        n <= t.len(),
    ensures
        literal_lines_ok(literal_body(t, width, n)),
    decreases n,
{
    if n > 0 {
        lemma_literal_body_lines(t, width, (n - 1) as nat);
        let prev = literal_body(t, width, (n - 1) as nat);
        let i = n - 1;
        let ls = starts_line(i, width);
        lemma_escape_printable(t[i], ls);
        let e = escape(t[i], ls);
        let piece = literal_piece(t, width, i);
        let b = literal_body(t, width, n);
        assert(b == prev + piece);
        let off = if ls { 6int } else { 0int };
        assert forall|k: int| 0 <= k < piece.len() implies #[trigger] piece[k] == if k < off {
            line_break()[k]
        } else {
            e[k - off]
        } by {}
        assert forall|k: int| 0 <= k < b.len() implies is_literal_char(#[trigger] b[k]) by {
            if k >= prev.len() {
                let j = k - prev.len();
                assert(b[k] == piece[j]);
                if j >= off {
                    assert(is_printable_ascii(e[j - off]));
                }
            } else {
                assert(b[k] == prev[k]);
            }
        }
        assert forall|k: int| 0 <= k < b.len() && #[trigger] b[k] == '\n' implies {
            &&& 1 <= k && k + 5 < b.len()
            &&& b[k - 1] == '\\'
            &&& b[k + 1] == ' ' && b[k + 2] == ' ' && b[k + 3] == ' ' && b[k + 4] == ' '
            &&& b[k + 5] != ' '
        } by {
            if k >= prev.len() {
                let j = k - prev.len();
                assert(b[k] == piece[j]);
                if j >= off {
                    assert(is_printable_ascii(e[j - off]));
                } else {
                    assert(j == 1);
                    assert(b[k + 5] == e[0]);
                }
            } else {
                assert(prev[k] == '\n');
                assert(b[k - 1] == prev[k - 1]);
                assert(b[k + 1] == prev[k + 1]);
                assert(b[k + 2] == prev[k + 2]);
                assert(b[k + 3] == prev[k + 3]);
                assert(b[k + 4] == prev[k + 4]);
                assert(b[k + 5] == prev[k + 5]);
            }
        }
    }
}

/// A literal holds only printable ASCII and the newlines that break it; each
/// newline follows a backslash and is followed by four spaces of indentation
/// and a character that is not a space, so that no character of the text is
/// lost where a continuation drops leading white space.
pub proof fn law_literal_printable(t: Seq<char>, width: nat)
    ensures
        literal(t, width)[0] == '"',
        literal(t, width).last() == '"',
        literal_lines_ok(literal(t, width)),
{
    lemma_literal_body_lines(t, width, t.len());
    let b = literal_body(t, width, t.len());
    let l = literal(t, width);
    assert forall|k: int| 0 <= k < l.len() implies is_literal_char(#[trigger] l[k]) by {
        if 1 <= k < l.len() - 1 {
            assert(l[k] == b[k - 1]);
        }
    }
    assert forall|k: int| 0 <= k < l.len() && #[trigger] l[k] == '\n' implies {
        &&& 1 <= k && k + 5 < l.len()
        &&& l[k - 1] == '\\'
        &&& l[k + 1] == ' ' && l[k + 2] == ' ' && l[k + 3] == ' ' && l[k + 4] == ' '
        &&& l[k + 5] != ' '
    } by {
        assert(1 <= k < l.len() - 1);
        assert(l[k] == b[k - 1]);
        assert(l[k - 1] == b[k - 2]);
        assert(l[k + 1] == b[k]);
        assert(l[k + 2] == b[k + 1]);
        assert(l[k + 3] == b[k + 2]);
        assert(l[k + 4] == b[k + 3]);
        assert(l[k + 5] == b[k + 4]);
    }
}

/// `b` without the spaces and tabs it starts with.
pub open spec fn skip_blanks(b: Seq<char>) -> Seq<char>
    decreases b.len(),
{
    if b.len() > 0 && (b[0] == ' ' || b[0] == '\t') {
        skip_blanks(b.drop_first())
    } else {
        b
    }
}

pub proof fn lemma_skip_blanks_len(b: Seq<char>)
    ensures
        skip_blanks(b).len() <= b.len(),
    decreases b.len(),
{
    if b.len() > 0 && (b[0] == ' ' || b[0] == '\t') {
        lemma_skip_blanks_len(b.drop_first());
    }
}

/// The first index at or after `i` where `b` holds `}`, or its length.
pub open spec fn closing_brace(b: Seq<char>, i: nat) -> nat
    decreases b.len() - i,
{
    if i >= b.len() {
        b.len()
    } else if b[i as int] == '}' {
        i
    } else {
        closing_brace(b, i + 1)
    }
}

pub proof fn lemma_closing_brace_bounds(b: Seq<char>, i: nat)
    requires
        i <= b.len(),
    ensures
        i <= closing_brace(b, i) <= b.len(),
    decreases b.len() - i,
{
    if i < b.len() && b[i as int] != '}' {
        lemma_closing_brace_bounds(b, i + 1);
    }
}

/// The character that the hexadecimal digits `h` stand for.
pub open spec fn hex_char(h: Seq<char>) -> char {
    match hex_prefix_value(h, h.len()) {
        Some(v) => (v as u32) as char,
        None => '\0',
    }
}

/// What the inside `b` of a string literal reads as: a backslash before a
/// newline joins the next line without its leading blanks; `\xHH` and
/// `\u{H...}` stand for the character of that code point; a backslash before
/// any other character stands for that character; every other character for
/// itself.
pub open spec fn unescape(b: Seq<char>) -> Seq<char>
    decreases b.len(),
{
    if b.len() == 0 {
        Seq::empty()
    } else if b[0] != '\\' || b.len() == 1 {
        seq![b[0]] + unescape(b.drop_first())
    } else if b[1] == '\n' {
        proof {
            lemma_skip_blanks_len(b.skip(2));
        }
        unescape(skip_blanks(b.skip(2)))
    } else if b[1] == 'x' && b.len() >= 4 {
        seq![hex_char(b.subrange(2, 4))] + unescape(b.skip(4))
    } else if b[1] == 'u' && b.len() >= 3 && b[2] == '{' && closing_brace(b, 3) < b.len() {
        let e = closing_brace(b, 3);
        proof {
            lemma_closing_brace_bounds(b, 3);
        }
        seq![hex_char(b.subrange(3, e as int))] + unescape(b.skip((e + 1) as int))
    } else {
        seq![b[1]] + unescape(b.skip(2))
    }
}

proof fn lemma_hex_upper_value(n: nat)
    ensures
        hex_prefix_value(hex_upper(n), hex_upper(n).len()) == Some(n),
        forall|k: int| 0 <= k < hex_upper(n).len() ==> #[trigger] hex_upper(n)[k] != '}',
    decreases n,
{
    lemma_hex_upper_printable(n);
    if n < 16 {
        let h = hex_upper(n);
        assert(h == seq![hex_digit(n)]);
        assert(h[0] == hex_digit(n));
        assert(hex_digit_value(hex_digit(n)) == Some(n));
        assert(hex_prefix_value(h, 0) == Some(0nat));
        assert(hex_prefix_value(h, 1) == Some(0nat * 16 + n));
    } else {
        lemma_hex_upper_value(n / 16);
        let h = hex_upper(n);
        let p = hex_upper(n / 16);
        assert(h == p.push(hex_digit(n % 16)));
        lemma_hex_prefix_extends(p, hex_digit(n % 16));
        assert(hex_digit_value(hex_digit(n % 16)) == Some(n % 16));
        assert(n == (n / 16) * 16 + n % 16);
        assert(h[p.len() as int] == hex_digit(n % 16));
        assert(hex_prefix_value(h, p.len()) == Some(n / 16));
        assert(hex_prefix_value(h, p.len() + 1) == Some((n / 16) * 16 + n % 16));
        assert forall|k: int| 0 <= k < h.len() implies #[trigger] h[k] != '}' by {
            if k < p.len() {
                assert(h[k] == p[k]);
            }
        }
    }
}

proof fn lemma_hex_prefix_extends(p: Seq<char>, c: char)
    ensures
        forall|m: nat| m <= p.len() ==> #[trigger] hex_prefix_value(p.push(c), m) == hex_prefix_value(p, m),
{
    assert forall|m: nat| m <= p.len() implies #[trigger] hex_prefix_value(p.push(c), m) == hex_prefix_value(p, m) by {
        lemma_hex_prefix_same(p.push(c), p, m);
    }
}

proof fn lemma_hex_prefix_same(a: Seq<char>, b: Seq<char>, m: nat)
    requires
        m <= a.len(),
        m <= b.len(),
        forall|k: int| 0 <= k < m ==> a[k] == b[k],
    ensures
        hex_prefix_value(a, m) == hex_prefix_value(b, m),
    decreases m,
{
    if m > 0 {
        lemma_hex_prefix_same(a, b, (m - 1) as nat);
    }
}

proof fn lemma_closing_brace_after(h: Seq<char>, x: Seq<char>)
    requires
        forall|k: int| 0 <= k < h.len() ==> #[trigger] h[k] != '}',
    ensures
        closing_brace(seq!['\\', 'u', '{'] + h + seq!['}'] + x, 3) == 3 + h.len(),
{
    let b = seq!['\\', 'u', '{'] + h + seq!['}'] + x;
    lemma_closing_brace_walk(b, h, 0);
}

proof fn lemma_closing_brace_walk(b: Seq<char>, h: Seq<char>, j: nat)
    requires
        j <= h.len(),
        b.len() > 3 + h.len(),
        forall|k: int| 0 <= k < h.len() ==> b[3 + k] == #[trigger] h[k],
        forall|k: int| 0 <= k < h.len() ==> #[trigger] h[k] != '}',
        b[3 + h.len() as int] == '}',
    ensures
        closing_brace(b, 3 + j) == 3 + h.len(),
    decreases h.len() - j,
{
    if j < h.len() {
        assert(b[3 + j as int] == h[j as int]);
        lemma_closing_brace_walk(b, h, j + 1);
    }
}

/// What one character of the text is written as reads back as that
/// character, whatever follows.
proof fn lemma_unescape_escape(c: char, line_start: bool, x: Seq<char>)
    ensures
        unescape(escape(c, line_start) + x) == seq![c] + unescape(x),
{
    let e = escape(c, line_start);
    let b = e + x;
    if c == '"' || c == '\\' || c == '$' {
        assert(b.skip(2) =~= x);
    } else if c == ' ' && line_start {
        assert(b.skip(4) =~= x);
        assert(b.subrange(2, 4) =~= seq!['2', '0']);
        reveal_with_fuel(hex_prefix_value, 3);
        assert(hex_prefix_value(seq!['2', '0'], 2) == Some(32nat));
        assert(hex_char(seq!['2', '0']) == ' ');
    } else if is_printable_ascii(c) {
        assert(b.drop_first() =~= x);
    } else {
        let h = hex_upper(c as nat);
        lemma_hex_upper_value(c as nat);
        assert(b =~= seq!['\\', 'u', '{'] + h + seq!['}'] + x);
        lemma_closing_brace_after(h, x);
        assert(b.subrange(3, 3 + h.len() as int) =~= h);
        assert(b.skip(3 + h.len() as int + 1) =~= x);
        vstd::utf8::char_u32_cast(c, c as u32);
        assert(hex_char(h) == c);
    }
}

/// What the character at index `i` becomes reads back as it, whatever
/// follows.
proof fn lemma_unescape_piece(t: Seq<char>, width: nat, i: int, x: Seq<char>)
    requires
        0 <= i < t.len(),
    ensures
        unescape(literal_piece(t, width, i) + x) == seq![t[i]] + unescape(x),
{
    let ls = starts_line(i, width);
    let e = escape(t[i], ls);
    lemma_unescape_escape(t[i], ls, x);
    if ls {
        lemma_escape_printable(t[i], true);
        let b = line_break() + e + x;
        assert(literal_piece(t, width, i) + x =~= b);
        let rest = b.skip(2);
        assert(rest =~= seq![' ', ' ', ' ', ' '] + (e + x));
        assert(e[0] != '\t');
        assert(skip_blanks(rest) == e + x) by {
            let r1 = rest.drop_first();
            let r2 = r1.drop_first();
            let r3 = r2.drop_first();
            let r4 = r3.drop_first();
            assert(r4 =~= e + x);
            assert((e + x)[0] == e[0]);
            assert(skip_blanks(r4) == r4);
            assert(skip_blanks(r3) == skip_blanks(r4));
            assert(skip_blanks(r2) == skip_blanks(r3));
            assert(skip_blanks(r1) == skip_blanks(r2));
            assert(skip_blanks(rest) == skip_blanks(r1));
        }
    }
}

proof fn lemma_unescape_body(t: Seq<char>, width: nat, n: nat, x: Seq<char>)
    requires
        n <= t.len(),
    ensures
        unescape(literal_body(t, width, n) + x) == t.take(n as int) + unescape(x),
    decreases n,
{
    if n > 0 {
        let p = literal_piece(t, width, n - 1);
        lemma_unescape_body(t, width, (n - 1) as nat, p + x);
        lemma_unescape_piece(t, width, n - 1, x);
        assert(literal_body(t, width, n) + x =~= literal_body(t, width, (n - 1) as nat) + (p + x));
        assert(t.take(n as int) =~= t.take(n - 1) + seq![t[n - 1]]);
    } else {
        assert(literal_body(t, width, 0) + x =~= x);
    }
}

/// A literal reads back as its text: inside the quotes, the escapes and the
/// continuations that break it stand for exactly the characters of the text.
pub proof fn law_literal_roundtrip(t: Seq<char>, width: nat)
    ensures
        literal(t, width) == seq!['"'] + literal_body(t, width, t.len()) + seq!['"'],
        unescape(literal_body(t, width, t.len())) == t,
{
    lemma_unescape_body(t, width, t.len(), Seq::empty());
    assert(literal_body(t, width, t.len()) + Seq::<char>::empty() =~= literal_body(t, width, t.len()));
    assert(t.take(t.len() as int) =~= t);
    assert(unescape(Seq::<char>::empty()) =~= Seq::<char>::empty());
}

/// Appends `n` in upper-case hexadecimal.
fn push_hex(out: &mut String, n: u32)
    ensures
        final(out)@ == old(out)@ + hex_upper(n as nat),
    decreases n,
{
    if n >= 16 {
        push_hex(out, n / 16);
    }
    let d = n % 16;
    let c = if d < 10 { ((48 + d) as u8) as char } else { ((55 + d) as u8) as char };
    string_push(out, c);
    proof {
        if n >= 16 {
            assert(hex_upper(n as nat) == hex_upper((n / 16) as nat).push(hex_digit((n % 16) as nat)));
        }
    }
}

/// Appends `n` in decimal.
pub fn push_decimal(out: &mut String, n: u64)
    ensures
        final(out)@ == old(out)@ + decimal(n as nat),
    decreases n,
{
    if n >= 10 {
        push_decimal(out, n / 10);
    }
    let d = n % 10;
    string_push(out, ((48 + d) as u8) as char);
    proof {
        if n >= 10 {
            assert(decimal(n as nat) == decimal((n / 10) as nat).push((48 + n % 10) as char));
        }
    }
}

/// Appends what one character of a literal's text becomes.
fn push_escaped(out: &mut String, c: char, line_start: bool)
    ensures
        final(out)@ == old(out)@ + escape(c, line_start),
{
    if c == '"' {
        string_push(out, '\\');
        string_push(out, '"');
    } else if c == '\\' {
        string_push(out, '\\');
        string_push(out, '\\');
    } else if c == '$' {
        string_push(out, '\\');
        string_push(out, '$');
    } else if c == ' ' && line_start {
        string_push(out, '\\');
        string_push(out, 'x');
        string_push(out, '2');
        string_push(out, '0');
    } else if ' ' <= c && c <= '~' {
        string_push(out, c);
    } else {
        string_push(out, '\\');
        string_push(out, 'u');
        string_push(out, '{');
        push_hex(out, c as u32);
        string_push(out, '}');
    }
    proof {
        assert(final(out)@ =~= old(out)@ + escape(c, line_start));
    }
}

/// `text` as one string literal, broken with `\`-newline every `width`
/// characters. Only printable ASCII is written raw; a space that would start a
/// line is `\x20`, since a continuation drops leading whitespace.
pub fn long_literal(text: &str, width: usize) -> (out: String)
    requires
        width > 0,
    ensures
        out@ == literal(text@, width as nat),
{
    let mut out = String::new();
    string_push(&mut out, '"');
    let mut first = true;
    let mut col: usize = 0;
    for c in it: text.chars()
        invariant
            width > 0,
            it.seq() == text@,
            first == (it.index() == 0),
            col as int == it.index() % (width as int),
            out@ == seq!['"'] + literal_body(text@, width as nat, it.index() as nat),
    {
        let ghost i = it.index();
        let line_start = !first && col == 0;
        assert(line_start == starts_line(i, width as nat));
        if line_start {
            string_push(&mut out, '\\');
            string_push(&mut out, '\n');
            string_push(&mut out, ' ');
            string_push(&mut out, ' ');
            string_push(&mut out, ' ');
            string_push(&mut out, ' ');
        }
        push_escaped(&mut out, c, line_start);
        proof {
            assert(c == text@[i]);
            assert(out@ =~= seq!['"'] + literal_body(text@, width as nat, (i + 1) as nat));
            lemma_mod_step(i, width as int);
        }
        first = false;
        col = if col + 1 == width { 0 } else { col + 1 };
    }
    string_push(&mut out, '"');
    out
}

proof fn lemma_mod_step(i: int, w: int)
    requires
        i >= 0,
        w > 0,
    ensures
        (i + 1) % w == if i % w + 1 == w { 0 } else { i % w + 1 },
{
    vstd::arithmetic::div_mod::lemma_fundamental_div_mod(i, w);
    let q = i / w;
    let r = i % w;
    assert(i == q * w + r) by (nonlinear_arith)
        requires
            i == w * q + r,
    ;
    assert((q + 1) * w == q * w + w) by (nonlinear_arith);
    vstd::arithmetic::div_mod::lemma_mod_pos_bound(i, w);
    if r + 1 == w {
        vstd::arithmetic::div_mod::lemma_fundamental_div_mod_converse(i + 1, w, q + 1, 0);
    } else {
        vstd::arithmetic::div_mod::lemma_fundamental_div_mod_converse(i + 1, w, q, r + 1);
    }
}

/// Appends a string.
pub(crate) fn string_push_str(s: &mut String, t: &str)
    ensures
        final(s)@ == old(s)@ + t@,
{
    s.append(t);
}

/// `String::push`: appends one character.
#[verifier::external_body]
pub(crate) fn string_push(s: &mut String, c: char)
    ensures
        final(s)@ == old(s)@.push(c),
{
    s.push(c);
}

} // verus!
