//! The calls into std and into outside crates whose behaviour Verus takes
//! on trust, each with the contract that it is believed to meet.
use vstd::prelude::*;
use vstd::utf8::*;

use std::collections::hash_map::DefaultHasher;

use crate::emoji::EmojiEntry;

verus! {

/// The characters that `String::from_utf8_lossy` makes of `bytes`.
pub uninterp spec fn lossy_utf8(bytes: Seq<u8>) -> Seq<char>;

/// Calls `String::from_utf8_lossy`. Claimed: the result is a function of the
/// bytes alone, and on valid UTF-8 it is the decoding of the bytes (the
/// documentation: valid input is returned as is). What it makes of invalid
/// sequences (replacement characters) is left unsaid.
#[verifier::external_body]
pub(crate) fn utf8_lossy(bytes: &[u8]) -> (s: String)
    ensures
        s@ == lossy_utf8(bytes@),
        valid_utf8(bytes@) ==> s@ == decode_utf8(bytes@),
{
    String::from_utf8_lossy(bytes).into_owned()
}

/// The characters that `str::to_lowercase` makes of `s`.
pub uninterp spec fn lowercase_of(s: Seq<char>) -> Seq<char>;

/// Calls `str::to_lowercase`. Claimed: the result is a function of the
/// characters of `s` alone. The Unicode lower-case mapping itself is left
/// unsaid.
#[verifier::external_body]
pub(crate) fn str_to_lowercase(s: &str) -> (r: String)
    ensures
        r@ == lowercase_of(s@),
{
    s.to_lowercase()
}

/// What `strip_ansi_escapes::strip` makes of `data`: the bytes left once the
/// ANSI escape sequences are taken out, or nothing when it reports an error.
pub uninterp spec fn ansi_stripped(data: Seq<u8>) -> Option<Seq<u8>>;

/// Bytes that are all printable ASCII (space to `~`) or line feeds.
pub open spec fn plain_bytes(data: Seq<u8>) -> bool {
    forall|i: int| 0 <= i < data.len() ==> (0x20 <= #[trigger] data[i] <= 0x7e || data[i] == 0x0a)
}

/// Calls `strip_ansi_escapes::strip`. Claimed: its outcome (the bytes or an
/// error) is a function of the bytes given alone; and bytes that are all
/// printable ASCII or line feeds come back unchanged (the vte parser, starting
/// in its ground state, prints each of those bytes and executes each line
/// feed, which the stripper writes out as itself, into a `Vec` that takes every
/// write). Which other bytes count as part of an escape sequence is left
/// unsaid.
#[verifier::external_body]
pub(crate) fn strip_ansi(data: &[u8]) -> (r: Option<Vec<u8>>)
    ensures
        r is Some <==> ansi_stripped(data@) is Some,
        r matches Some(v) ==> ansi_stripped(data@) == Some(v@),
        plain_bytes(data@) ==> r is Some && r.unwrap()@ == data@,
{
    strip_ansi_escapes::strip(data).ok()
}

/// What the table of the `emojis` crate (version 0.5.3) is known to hold, as
/// its data shows: 1870 emojis, skin tones left out; the first is U+1F600
/// with the shortcode "grinning"; every emoji's text is non-empty; no two
/// emojis have the same text.
pub open spec fn emojis_table(t: Seq<EmojiEntry>) -> bool {
    &&& t.len() == 1870
    &&& t[0].glyph@ == seq!['\u{1F600}']
    &&& t[0].shortcode matches Some(s) && s@ == seq!['g', 'r', 'i', 'n', 'n', 'i', 'n', 'g']
    &&& forall|i: int| 0 <= i < t.len() ==> (#[trigger] t[i]).glyph@.len() > 0
    &&& forall|i: int, j: int| 0 <= i < j < t.len() ==> (#[trigger] t[i]).glyph@ != (#[trigger] t[j]).glyph@
}

/// Calls `emojis::iter` and copies each emoji's text and first shortcode.
/// Claimed, as the crate's data shows (`src/gen/mod.rs`, of which `iter`
/// keeps the emojis without a skin tone or with the default one): what
/// `emojis_table` says. The other texts and shortcodes are left unsaid.
#[verifier::external_body]
pub(crate) fn emoji_table() -> (t: Vec<EmojiEntry>)
    ensures
        emojis_table(t@),
{
    emojis::iter().map(
        |e: &emojis::Emoji|
            EmojiEntry { glyph: e.as_str().to_string(), shortcode: e.shortcode().map(|c: &str| c.to_string()) },
    ).collect()
}


/// The writes that hashing the string `s` with `Hash` feeds a hasher.
pub uninterp spec fn str_hash_writes(s: Seq<char>) -> Seq<Seq<u8>>;

/// Calls `<str as Hash>::hash` with the hasher `state`. Claimed: it feeds the
/// hasher writes that are a function of the characters of `s` alone, after
/// those it was fed before. Which bytes it writes is left unsaid.
#[verifier::external_body]
pub(crate) fn hash_str_into(s: &str, state: &mut DefaultHasher)
    ensures
        final(state)@ == old(state)@ + str_hash_writes(s@),
{
    std::hash::Hash::hash(s, state)
}

/// The smaller of two numbers.
pub open spec fn min_nat(x: nat, y: nat) -> nat {
    if x <= y {
        x
    } else {
        y
    }
}

/// The Levenshtein distance between `a` and `b`: the least number of
/// single-character insertions, deletions and substitutions that turn `a`
/// into `b`.
pub open spec fn levenshtein(a: Seq<char>, b: Seq<char>) -> nat
    decreases a.len() + b.len(),
{
    if a.len() == 0 {
        b.len()
    } else if b.len() == 0 {
        a.len()
    } else {
        let substitute = levenshtein(a.drop_last(), b.drop_last()) + if a.last() == b.last() {
            0nat
        } else {
            1nat
        };
        min_nat(
            min_nat(levenshtein(a.drop_last(), b) + 1, levenshtein(a, b.drop_last()) + 1),
            substitute,
        )
    }
}

/// Calls `edit_distance::edit_distance`. Claimed, as its documentation says:
/// the result is the Levenshtein distance between the two strings, counted in
/// characters.
#[verifier::external_body]
pub(crate) fn edit_distance_of(a: &str, b: &str) -> (d: usize)
    ensures
        d == levenshtein(a@, b@),
{
    edit_distance::edit_distance(a, b)
}

} // verus!
