//! What the `unicode-normalization` crate answers, behind trusted wrappers.
//!
//! Each wrapper makes one call into the crate. Where the crate's source shows
//! the answer in a few lines (ASCII, Hangul syllables and jamo, the Unicode
//! version) the contract states it; everything the crate reads from its
//! generated tables is named by an uninterpreted function of the arguments.

use unicode_normalization::char::{
    canonical_combining_class, compose, decompose_canonical, decompose_cjk_compat_variants,
    decompose_compatible, is_combining_mark, is_public_assigned,
};
use unicode_normalization::{IsNormalized, UnicodeNormalization};
use vstd::prelude::*;

verus! {

/// The answer of a quick check: definitely normalized, definitely not, or
/// perhaps.
#[derive(Clone, Copy, Debug, PartialEq, Eq, Structural)]
pub enum QuickCheck {
    Yes,
    No,
    Maybe,
}

/// The first Hangul syllable, U+AC00.
pub open spec fn hangul_first() -> int {
    0xAC00
}

/// The number of precomposed Hangul syllables.
pub open spec fn hangul_count() -> int {
    11172
}

/// Whether `c` is a precomposed Hangul syllable, U+AC00 to U+D7A3.
pub open spec fn spec_is_hangul_syllable(c: char) -> bool {
    hangul_first() <= c as int && c as int <= 0xD7A3
}

/// A Hangul syllable's decomposition into a leading consonant, a vowel and,
/// where it has one, a trailing consonant (Unicode 3.12).
pub open spec fn hangul_decomposition(c: char) -> Seq<char> {
    let s = c as int - 0xAC00;
    let l = (0x1100 + s / 588) as char;
    let v = (0x1161 + (s % 588) / 28) as char;
    let t = s % 28;
    if t > 0 {
        seq![l, v, (0x11A7 + t) as char]
    } else {
        seq![l, v]
    }
}

/// The composition of two Hangul jamo or of a syllable and a trailing
/// consonant, if they compose by the rule of Unicode 3.12.
pub open spec fn hangul_composition(a: char, b: char) -> Option<char> {
    let (x, y) = (a as int, b as int);
    if 0x1100 <= x <= 0x1112 && 0x1161 <= y <= 0x1175 {
        Some((0xAC00 + (x - 0x1100) * 588 + (y - 0x1161) * 28) as char)
    } else if 0xAC00 <= x <= 0xD7A3 && 0x11A8 <= y <= 0x11C2 && (x - 0xAC00) % 28 == 0 {
        Some((x + (y - 0x11A7)) as char)
    } else {
        None
    }
}

/// What `canonical_combining_class` returns for `c`.
pub uninterp spec fn combining_class_of(c: char) -> u8;

/// What `decompose_canonical` emits for `c`.
pub uninterp spec fn canonical_decomposition(c: char) -> Seq<char>;

/// What `decompose_compatible` emits for `c`.
pub uninterp spec fn compatibility_decomposition(c: char) -> Seq<char>;

/// What `decompose_cjk_compat_variants` emits for `c`.
pub uninterp spec fn variant_decomposition(c: char) -> Seq<char>;

/// What `compose` returns for `a` and `b`.
pub uninterp spec fn composition(a: char, b: char) -> Option<char>;

/// What `is_combining_mark` returns for `c`.
pub uninterp spec fn combining_mark(c: char) -> bool;

/// What `is_public_assigned` returns for `c`.
pub uninterp spec fn public_assigned(c: char) -> bool;

/// What `is_nfc_quick` answers for the characters `s`.
pub uninterp spec fn nfc_quick(s: Seq<char>) -> QuickCheck;

/// What `is_nfkc_quick` answers for the characters `s`.
pub uninterp spec fn nfkc_quick(s: Seq<char>) -> QuickCheck;

/// What `is_nfd_quick` answers for the characters `s`.
pub uninterp spec fn nfd_quick(s: Seq<char>) -> QuickCheck;

/// What `is_nfkd_quick` answers for the characters `s`.
pub uninterp spec fn nfkd_quick(s: Seq<char>) -> QuickCheck;

/// What `is_nfc_stream_safe_quick` answers for the characters `s`.
pub uninterp spec fn nfc_stream_safe_quick(s: Seq<char>) -> QuickCheck;

/// What `is_nfd_stream_safe_quick` answers for the characters `s`.
pub uninterp spec fn nfd_stream_safe_quick(s: Seq<char>) -> QuickCheck;

/// What `is_nfc` answers for the string `s`.
pub uninterp spec fn nfc_holds(s: Seq<char>) -> bool;

/// What `is_nfkc` answers for the string `s`.
pub uninterp spec fn nfkc_holds(s: Seq<char>) -> bool;

/// What `is_nfd` answers for the string `s`.
pub uninterp spec fn nfd_holds(s: Seq<char>) -> bool;

/// What `is_nfkd` answers for the string `s`.
pub uninterp spec fn nfkd_holds(s: Seq<char>) -> bool;

/// What `is_nfc_stream_safe` answers for the string `s`.
pub uninterp spec fn nfc_stream_safe_holds(s: Seq<char>) -> bool;

/// What `is_nfd_stream_safe` answers for the string `s`.
pub uninterp spec fn nfd_stream_safe_holds(s: Seq<char>) -> bool;

/// The characters of `s.nfd()`.
pub uninterp spec fn nfd_form(s: Seq<char>) -> Seq<char>;

/// The characters of `s.nfkd()`.
pub uninterp spec fn nfkd_form(s: Seq<char>) -> Seq<char>;

/// The characters of `s.nfc()`.
pub uninterp spec fn nfc_form(s: Seq<char>) -> Seq<char>;

/// The characters of `s.nfkc()`.
pub uninterp spec fn nfkc_form(s: Seq<char>) -> Seq<char>;

/// The characters of `s.cjk_compat_variants()`.
pub uninterp spec fn cjk_variant_form(s: Seq<char>) -> Seq<char>;

/// The characters of `s.stream_safe()`.
pub uninterp spec fn stream_safe_form(s: Seq<char>) -> Seq<char>;

/// Appends one character to a vector; what the crate's decomposition
/// functions are handed to emit with.
pub fn push_char(out: &mut Vec<char>, c: char)
    ensures
        final(out)@ == old(out)@.push(c),
{
    out.push(c);
}

/// `UNICODE_VERSION`: the crate's tables describe Unicode 17.0.0.
#[verifier::external_body]
pub(crate) fn unicode_version() -> (r: (u8, u8, u8))
    ensures
        r == (17u8, 0u8, 0u8),
{
    unicode_normalization::UNICODE_VERSION
}

/// `canonical_combining_class`: the class of `c`, as named.
#[verifier::external_body]
pub(crate) fn combining_class(c: char) -> (r: u8)
    ensures
        r == combining_class_of(c),
{
    canonical_combining_class(c)
}

/// `decompose_canonical`: appends what it emits for `c`, which is `c` itself
/// for ASCII and the Hangul rule's decomposition for a syllable.
#[verifier::external_body]
pub(crate) fn emit_canonical(c: char, out: &mut Vec<char>)
    ensures
        final(out)@ == old(out)@ + canonical_decomposition(c),
        c as int <= 0x7f ==> final(out)@ == old(out)@.push(c),
        spec_is_hangul_syllable(c) ==> final(out)@ == old(out)@ + hangul_decomposition(c),
{
    decompose_canonical(c, |d| push_char(out, d))
}

/// `decompose_compatible`: appends what it emits for `c`, which is `c` itself
/// for ASCII and the Hangul rule's decomposition for a syllable.
#[verifier::external_body]
pub(crate) fn emit_compatible(c: char, out: &mut Vec<char>)
    ensures
        final(out)@ == old(out)@ + compatibility_decomposition(c),
        c as int <= 0x7f ==> final(out)@ == old(out)@.push(c),
        spec_is_hangul_syllable(c) ==> final(out)@ == old(out)@ + hangul_decomposition(c),
{
    decompose_compatible(c, |d| push_char(out, d))
}

/// `decompose_cjk_compat_variants`: appends what it emits for `c`, which is
/// `c` itself for ASCII.
#[verifier::external_body]
pub(crate) fn emit_cjk_variant(c: char, out: &mut Vec<char>)
    ensures
        final(out)@ == old(out)@ + variant_decomposition(c),
        c as int <= 0x7f ==> final(out)@ == old(out)@.push(c),
{
    decompose_cjk_compat_variants(c, |d| push_char(out, d))
}

/// `compose`: the Hangul rule where it applies, else the crate's table.
#[verifier::external_body]
pub(crate) fn compose_pair(a: char, b: char) -> (r: Option<char>)
    ensures
        r == composition(a, b),
        hangul_composition(a, b) is Some ==> r == hangul_composition(a, b),
{
    compose(a, b)
}

/// `is_combining_mark`, as named.
#[verifier::external_body]
pub(crate) fn combining_mark_of(c: char) -> (r: bool)
    ensures
        r == combining_mark(c),
{
    is_combining_mark(c)
}

/// `is_public_assigned`, as named.
#[verifier::external_body]
pub(crate) fn public_assigned_of(c: char) -> (r: bool)
    ensures
        r == public_assigned(c),
{
    is_public_assigned(c)
}

/// `is_nfc_quick` on the characters of `s`, as named.
#[verifier::external_body]
pub(crate) fn quick_nfc(s: &Vec<char>) -> (r: QuickCheck)
    ensures
        r == nfc_quick(s@),
{
    match unicode_normalization::is_nfc_quick(s.iter().copied()) {
        IsNormalized::Yes => QuickCheck::Yes,
        IsNormalized::No => QuickCheck::No,
        IsNormalized::Maybe => QuickCheck::Maybe,
    }
}

/// `is_nfkc_quick` on the characters of `s`, as named.
#[verifier::external_body]
pub(crate) fn quick_nfkc(s: &Vec<char>) -> (r: QuickCheck)
    ensures
        r == nfkc_quick(s@),
{
    match unicode_normalization::is_nfkc_quick(s.iter().copied()) {
        IsNormalized::Yes => QuickCheck::Yes,
        IsNormalized::No => QuickCheck::No,
        IsNormalized::Maybe => QuickCheck::Maybe,
    }
}

/// `is_nfd_quick` on the characters of `s`, as named.
#[verifier::external_body]
pub(crate) fn quick_nfd(s: &Vec<char>) -> (r: QuickCheck)
    ensures
        r == nfd_quick(s@),
{
    match unicode_normalization::is_nfd_quick(s.iter().copied()) {
        IsNormalized::Yes => QuickCheck::Yes,
        IsNormalized::No => QuickCheck::No,
        IsNormalized::Maybe => QuickCheck::Maybe,
    }
}

/// `is_nfkd_quick` on the characters of `s`, as named.
#[verifier::external_body]
pub(crate) fn quick_nfkd(s: &Vec<char>) -> (r: QuickCheck)
    ensures
        r == nfkd_quick(s@),
{
    match unicode_normalization::is_nfkd_quick(s.iter().copied()) {
        IsNormalized::Yes => QuickCheck::Yes,
        IsNormalized::No => QuickCheck::No,
        IsNormalized::Maybe => QuickCheck::Maybe,
    }
}

/// `is_nfc_stream_safe_quick` on the characters of `s`, as named.
#[verifier::external_body]
pub(crate) fn quick_nfc_stream_safe(s: &Vec<char>) -> (r: QuickCheck)
    ensures
        r == nfc_stream_safe_quick(s@),
{
    match unicode_normalization::is_nfc_stream_safe_quick(s.iter().copied()) {
        IsNormalized::Yes => QuickCheck::Yes,
        IsNormalized::No => QuickCheck::No,
        IsNormalized::Maybe => QuickCheck::Maybe,
    }
}

/// `is_nfd_stream_safe_quick` on the characters of `s`, as named.
#[verifier::external_body]
pub(crate) fn quick_nfd_stream_safe(s: &Vec<char>) -> (r: QuickCheck)
    ensures
        r == nfd_stream_safe_quick(s@),
{
    match unicode_normalization::is_nfd_stream_safe_quick(s.iter().copied()) {
        IsNormalized::Yes => QuickCheck::Yes,
        IsNormalized::No => QuickCheck::No,
        IsNormalized::Maybe => QuickCheck::Maybe,
    }
}

/// `is_nfc` on the string of the characters `s`, as named.
#[verifier::external_body]
pub(crate) fn holds_nfc(s: &Vec<char>) -> (r: bool)
    ensures
        r == nfc_holds(s@),
{
    let t: String = s.iter().collect();
    unicode_normalization::is_nfc(&t)
}

/// `is_nfkc` on the string of the characters `s`, as named.
#[verifier::external_body]
pub(crate) fn holds_nfkc(s: &Vec<char>) -> (r: bool)
    ensures
        r == nfkc_holds(s@),
{
    let t: String = s.iter().collect();
    unicode_normalization::is_nfkc(&t)
}

/// `is_nfd` on the string of the characters `s`, as named.
#[verifier::external_body]
pub(crate) fn holds_nfd(s: &Vec<char>) -> (r: bool)
    ensures
        r == nfd_holds(s@),
{
    let t: String = s.iter().collect();
    unicode_normalization::is_nfd(&t)
}

/// `is_nfkd` on the string of the characters `s`, as named.
#[verifier::external_body]
pub(crate) fn holds_nfkd(s: &Vec<char>) -> (r: bool)
    ensures
        r == nfkd_holds(s@),
{
    let t: String = s.iter().collect();
    unicode_normalization::is_nfkd(&t)
}

/// `is_nfc_stream_safe` on the string of the characters `s`, as named.
#[verifier::external_body]
pub(crate) fn holds_nfc_stream_safe(s: &Vec<char>) -> (r: bool)
    ensures
        r == nfc_stream_safe_holds(s@),
{
    let t: String = s.iter().collect();
    unicode_normalization::is_nfc_stream_safe(&t)
}

/// `is_nfd_stream_safe` on the string of the characters `s`, as named.
#[verifier::external_body]
pub(crate) fn holds_nfd_stream_safe(s: &Vec<char>) -> (r: bool)
    ensures
        r == nfd_stream_safe_holds(s@),
{
    let t: String = s.iter().collect();
    unicode_normalization::is_nfd_stream_safe(&t)
}

/// `nfd` of the string of the characters `s`, as named.
#[verifier::external_body]
pub(crate) fn form_nfd(s: &Vec<char>) -> (r: Vec<char>)
    ensures
        r@ == nfd_form(s@),
{
    let t: String = s.iter().collect();
    t.as_str().nfd().collect()
}

/// `nfkd` of the string of the characters `s`, as named.
#[verifier::external_body]
pub(crate) fn form_nfkd(s: &Vec<char>) -> (r: Vec<char>)
    ensures
        r@ == nfkd_form(s@),
{
    let t: String = s.iter().collect();
    t.as_str().nfkd().collect()
}

/// `nfc` of the string of the characters `s`, as named.
#[verifier::external_body]
pub(crate) fn form_nfc(s: &Vec<char>) -> (r: Vec<char>)
    ensures
        r@ == nfc_form(s@),
{
    let t: String = s.iter().collect();
    t.as_str().nfc().collect()
}

/// `nfkc` of the string of the characters `s`, as named.
#[verifier::external_body]
pub(crate) fn form_nfkc(s: &Vec<char>) -> (r: Vec<char>)
    ensures
        r@ == nfkc_form(s@),
{
    let t: String = s.iter().collect();
    t.as_str().nfkc().collect()
}

/// `cjk_compat_variants` of the string of the characters `s`, as named.
#[verifier::external_body]
pub(crate) fn form_cjk_variants(s: &Vec<char>) -> (r: Vec<char>)
    ensures
        r@ == cjk_variant_form(s@),
{
    let t: String = s.iter().collect();
    t.as_str().cjk_compat_variants().collect()
}

/// `stream_safe` of the string of the characters `s`, as named.
#[verifier::external_body]
pub(crate) fn form_stream_safe(s: &Vec<char>) -> (r: Vec<char>)
    ensures
        r@ == stream_safe_form(s@),
{
    let t: String = s.iter().collect();
    t.as_str().stream_safe().collect()
}

} // verus!
