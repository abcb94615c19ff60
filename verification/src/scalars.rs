//! The Unicode scalar values in order, and the decompositions of one character.

use crate::normalization::{
    canonical_decomposition, compatibility_decomposition, emit_canonical, emit_cjk_variant,
    emit_compatible, spec_is_hangul_syllable, variant_decomposition,
};
use vstd::prelude::*;

verus! {

/// The number of Unicode scalar values: every code point but the 2048
/// surrogates.
pub const NUM_SCALARS: usize = 0x10_F800;

/// The `i`-th scalar value in increasing order (for `i < NUM_SCALARS`).
pub open spec fn scalar_at(i: int) -> u32 {
    if i < 0xD800 {
        i as u32
    } else {
        (i + 0x800) as u32
    }
}

/// The `i`-th character in increasing order.
pub open spec fn scalar_char(i: int) -> char {
    scalar_at(i) as char
}

/// Whether `cp` is a Unicode scalar value: a code point that is not a
/// surrogate.
pub open spec fn is_scalar_value(cp: int) -> bool {
    0 <= cp <= 0x10FFFF && !(0xD800 <= cp <= 0xDFFF)
}

/// Every character, in increasing order.
pub open spec fn all_scalars() -> Seq<char> {
    Seq::new(NUM_SCALARS as nat, |i: int| scalar_char(i))
}

/// The index of a character among all characters in increasing order.
pub open spec fn scalar_index(c: char) -> int {
    if (c as u32) < 0xD800 {
        c as u32 as int
    } else {
        c as u32 - 0x800
    }
}

/// The scalars are the code points in increasing order, with the surrogates
/// left out; `scalar_index` numbers them.
pub proof fn lemma_scalar_at(i: int)
    requires
        0 <= i < NUM_SCALARS,
    ensures
        is_scalar_value(scalar_at(i) as int),
        scalar_char(i) as u32 == scalar_at(i),
        scalar_index(scalar_char(i)) == i,
        i + 1 < NUM_SCALARS ==> scalar_at(i) < scalar_at(i + 1),
{
    let cp = scalar_at(i);
    assert(vstd::utf8::is_scalar(cp));
    let c = cp as char;
    assert((c as u32) == cp) by {
        lemma_cast_scalar(cp);
    }
}

proof fn lemma_cast_scalar(cp: u32)
    requires
        vstd::utf8::is_scalar(cp),
    ensures
        (cp as char) as u32 == cp,
{
}

/// Every character has its index.
pub proof fn lemma_scalar_index(c: char)
    ensures
        0 <= scalar_index(c) < NUM_SCALARS,
        scalar_char(scalar_index(c)) == c,
{
    broadcast use vstd::utf8::char_is_scalar, vstd::utf8::char_u32_cast;
    assert(vstd::utf8::is_scalar(c as u32));
}

/// `char::from_u32`: the character of a code point, if it is a scalar value.
#[verifier::external_body]
pub(crate) fn char_from_u32(cp: u32) -> (r: Option<char>)
    ensures
        r is Some <==> is_scalar_value(cp as int),
        r matches Some(c) ==> c as u32 == cp,
{
    char::from_u32(cp)
}

/// Every character, in increasing order.
pub fn chars() -> (v: Vec<char>)
    ensures
        v@ == all_scalars(),
{
    let mut v: Vec<char> = Vec::new();
    let mut cp: u32 = 0;
    while cp < 0x11_0000
        invariant
            cp <= 0x11_0000,
            v@.len() == (if cp <= 0xD800 { cp as int } else if cp <= 0xE000 { 0xD800 } else { cp - 0x800 }),
            forall|j: int| 0 <= j < v@.len() ==> #[trigger] v@[j] == scalar_char(j),
        decreases 0x11_0000 - cp,
    {
        if let Some(c) = char_from_u32(cp) {
            proof {
                let j = v@.len() as int;
                assert(scalar_at(j) == cp);
                vstd::utf8::char_u32_cast(c, cp);
            }
            v.push(c);
        }
        cp = cp + 1;
    }
    assert(v@ =~= all_scalars());
    v
}

/// Whether `c` is a precomposed Hangul syllable, U+AC00 to U+D7A3.
pub fn is_hangul_syllable(c: char) -> (r: bool)
    ensures
        r == spec_is_hangul_syllable(c),
{
    '\u{AC00}' <= c && c <= '\u{D7A3}'
}

/// One of the full decompositions that the crate computes for a character.
#[derive(Clone, Copy, Debug, PartialEq, Eq, Structural)]
pub enum Decomposition {
    Canonical,
    Compatible,
    CjkVariant,
}

/// The full decomposition of kind `kind` of `c`.
pub open spec fn decomposition_of(kind: Decomposition, c: char) -> Seq<char> {
    match kind {
        Decomposition::Canonical => canonical_decomposition(c),
        Decomposition::Compatible => compatibility_decomposition(c),
        Decomposition::CjkVariant => variant_decomposition(c),
    }
}

/// The characters that the crate emits for `c` in the decomposition `kind`,
/// collected.
pub fn collect(c: char, kind: Decomposition) -> (out: Vec<char>)
    ensures
        out@ == decomposition_of(kind, c),
{
    let mut out: Vec<char> = Vec::new();
    match kind {
        Decomposition::Canonical => emit_canonical(c, &mut out),
        Decomposition::Compatible => emit_compatible(c, &mut out),
        Decomposition::CjkVariant => emit_cjk_variant(c, &mut out),
    }
    assert(out@ =~= decomposition_of(kind, c));
    out
}

/// The full canonical decomposition of `c`.
pub fn canonical(c: char) -> (out: Vec<char>)
    ensures
        out@ == canonical_decomposition(c),
{
    collect(c, Decomposition::Canonical)
}

/// The full compatibility decomposition of `c`.
pub fn compatible(c: char) -> (out: Vec<char>)
    ensures
        out@ == compatibility_decomposition(c),
{
    collect(c, Decomposition::Compatible)
}

/// The CJK compatibility variant of `c`.
pub fn cjk_variant(c: char) -> (out: Vec<char>)
    ensures
        out@ == variant_decomposition(c),
{
    collect(c, Decomposition::CjkVariant)
}

} // verus!
