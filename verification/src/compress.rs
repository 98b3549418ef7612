//! Compressing text by replacing its most repeated runs with emojis, and
//! listing what each emoji stands for.
use vstd::prelude::*;
use vstd::string::StringSliceAdditionalSpecFns;
use vstd::utf8::*;

use crate::brackets::{trim_bracket, trim_bracket_bytes};
use crate::distil::{distil, spec_distil};
use crate::emoji::{best_pick, glyph_used, lemma_best_pick, pick_subset, used_view, EmojiEntry};
use crate::outside::{
    ansi_stripped, emoji_table, emojis_table, lowercase_of, plain_bytes, strip_ansi, utf8_lossy,
};
use crate::text::{
    contains_byte, lemma_ascii_valid, lemma_replaced_valid, replace_all, replaced, same_bytes, trim_chars,
    trim_text,
};

verus! {

/// How many suggestions are asked of `distil`.
pub const MAX_SUGGESTIONS: usize = 40;

/// Texts shorter than this many bytes are left alone.
pub const MIN_INPUT_LEN: usize = 5;

/// Texts of at most this many bytes are not replaced.
pub const UNICODE_CHAR_LEN: usize = 4;

/// The state of compressing: the text so far, the list of replacements made
/// so far, and the texts of the emojis used so far.
pub type AuxState = (Seq<u8>, Seq<u8>, Seq<Seq<char>>);

/// `b` without a final `::`.
pub open spec fn drop_double_colon(b: Seq<u8>) -> Seq<u8> {
    if b.len() >= 2 && b[b.len() - 2] == 0x3a && b[b.len() - 1] == 0x3a {
        b.subrange(0, b.len() - 2)
    } else {
        b
    }
}

/// The text that a suggestion is cut down to: trimmed of white space, of a
/// final `::`, to its widest pair of angle brackets, and of white space again.
pub open spec fn cleaned(m: Seq<char>) -> Seq<char> {
    trim_chars(decode_utf8(trim_bracket_bytes(drop_double_colon(encode_utf8(trim_chars(m))))))
}

/// The bytes of the first shortcode of an emoji (none when it has none).
pub open spec fn shortcode_bytes(e: EmojiEntry) -> Seq<u8> {
    match e.shortcode {
        Some(s) => encode_utf8(s@),
        None => seq![],
    }
}

/// The line that records a replacement: `"\n{emoji} ({shortcode})\t= {text}"`.
pub open spec fn notice(glyph: Seq<u8>, shortcode: Seq<u8>, text: Seq<u8>) -> Seq<u8> {
    seq![0x0au8] + glyph + seq![0x20u8, 0x28u8] + shortcode + seq![0x29u8, 0x09u8, 0x3du8, 0x20u8] + text
}

/// One suggestion `m` applied to the state: a suggestion holding `/` or `^`,
/// or empty, or cut down to at most four bytes, changes nothing; otherwise an
/// emoji is picked for it and recorded as used (once only), every occurrence of the
/// cut-down text is replaced by the emoji, and when that changed the text a
/// notice is added to the list.
pub open spec fn aux_step(st: AuxState, m: Seq<char>, t: Seq<EmojiEntry>) -> AuxState {
    let mb = encode_utf8(m);
    if mb.contains(0x2fu8) || mb.contains(0x5eu8) || mb.len() == 0 {
        st
    } else {
        let c = cleaned(m);
        let cb = encode_utf8(c);
        if cb.len() <= UNICODE_CHAR_LEN {
            st
        } else {
            let e = best_pick(encode_utf8(lowercase_of(c)), st.2, t);
            let g = t[e].glyph@;
            let used2 = if st.2.contains(g) {
                st.2
            } else {
                st.2.push(g)
            };
            let res_new = replaced(st.0, cb, encode_utf8(g));
            if res_new == st.0 {
                (st.0, st.1, used2)
            } else {
                (res_new, st.1 + notice(encode_utf8(g), shortcode_bytes(t[e]), cb), used2)
            }
        }
    }
}

/// The suggestions `ms` applied to the state in order.
pub open spec fn aux_rounds(st: AuxState, ms: Seq<Seq<char>>, t: Seq<EmojiEntry>) -> AuxState
    decreases ms.len(),
{
    if ms.len() == 0 {
        st
    } else {
        aux_rounds(aux_step(st, ms[0], t), ms.drop_first(), t)
    }
}

/// What `compress_aux` gives: a text shorter than five bytes unchanged;
/// otherwise the suggestions that `distil` makes of the stripped text applied
/// in order to the text.
pub open spec fn spec_compress_aux(
    input: Seq<u8>,
    stripped: Seq<u8>,
    out: Seq<u8>,
    used: Seq<Seq<char>>,
    t: Seq<EmojiEntry>,
) -> AuxState {
    if input.len() < MIN_INPUT_LEN {
        (input, out, used)
    } else {
        aux_rounds((input, out, used), spec_distil(stripped, MAX_SUGGESTIONS as nat), t)
    }
}

/// The bytes of `"\n where "`.
pub open spec fn where_bytes() -> Seq<u8> {
    seq![0x0au8, 0x20u8, 0x77u8, 0x68u8, 0x65u8, 0x72u8, 0x65u8, 0x20u8]
}

/// What `compress` gives for the text `a` whose escape-free bytes are
/// `stripped`: `a` itself when no emoji was used, otherwise the compressed
/// text followed by `"\n where "` and the list of replacements (bytes that
/// are valid UTF-8, as `lemma_compressed_valid` shows).
pub open spec fn spec_compress(a: Seq<char>, stripped: Seq<u8>, t: Seq<EmojiEntry>) -> Seq<char> {
    let r = spec_compress_aux(encode_utf8(a), stripped, seq![], seq![], t);
    if r.2.len() == 0 {
        a
    } else {
        decode_utf8(r.0 + where_bytes() + r.1)
    }
}

/// A table the compression can work with: the first emoji, the one picked
/// when no shortcode matches, has a shortcode.
pub open spec fn usable_table(t: Seq<EmojiEntry>) -> bool {
    t.len() > 0 && t[0].shortcode is Some
}

/// What `compress` gives, by the outcome of stripping escapes.
pub open spec fn compress_result(a: Seq<char>, t: Seq<EmojiEntry>, r: Seq<char>) -> bool {
    match ansi_stripped(encode_utf8(a)) {
        Some(s) => r == spec_compress(a, s, t),
        None => r == a,
    }
}

/// A step never forgets a used emoji, never lists one twice, and leaves the
/// text as it is when no emoji has been used.
pub proof fn lemma_step_unused(st: AuxState, m: Seq<char>, t: Seq<EmojiEntry>)
    ensures
        aux_step(st, m, t).2.len() >= st.2.len(),
        aux_step(st, m, t).2.len() == 0 ==> aux_step(st, m, t).0 == st.0,
        st.2.no_duplicates() ==> aux_step(st, m, t).2.no_duplicates(),
{
    let r = aux_step(st, m, t);
    if r.2.len() == 0 && r.0 != st.0 {
        let c = cleaned(m);
        let e = best_pick(encode_utf8(lowercase_of(c)), st.2, t);
        let g = t[e].glyph@;
        if !st.2.contains(g) {
            assert(st.2.push(g)[st.2.len() as int] == g);
        }
    }
}

/// Nothing is replaced without an emoji being used: when the suggestions use
/// no emoji, the text comes out as it went in. No emoji is listed as used
/// twice.
pub proof fn lemma_nothing_used_nothing_replaced(st: AuxState, ms: Seq<Seq<char>>, t: Seq<EmojiEntry>)
    ensures
        aux_rounds(st, ms, t).2.len() >= st.2.len(),
        aux_rounds(st, ms, t).2.len() == 0 ==> aux_rounds(st, ms, t).0 == st.0,
        st.2.no_duplicates() ==> aux_rounds(st, ms, t).2.no_duplicates(),
    decreases ms.len(),
{
    if ms.len() > 0 {
        lemma_step_unused(st, ms[0], t);
        lemma_nothing_used_nothing_replaced(aux_step(st, ms[0], t), ms.drop_first(), t);
    }
}

/// An ASCII character of a text is a byte of its encoding.
proof fn lemma_ascii_char_encoded(m: Seq<char>, i: int, b: u8)
    requires
        0 <= i < m.len(),
        m[i] as u32 == b as u32,
        b < 0x80,
    ensures
        encode_utf8(m).contains(b),
    decreases i,
{
    if i == 0 {
        let u = m[0] as u32;
        assert((u & 0x7Fu32) as u8 == b) by (bit_vector)
            requires
                u == b as u32,
                b < 0x80u8,
        ;
        assert(encode_utf8(m)[0] == b);
    } else {
        let rest = m.drop_first();
        assert(rest[i - 1] == m[i]);
        lemma_ascii_char_encoded(rest, i - 1, b);
        let head = encode_scalar(m[0] as u32);
        assert(encode_utf8(m) == head + encode_utf8(rest));
        let k = choose|k: int| 0 <= k < encode_utf8(rest).len() && encode_utf8(rest)[k] == b;
        assert(encode_utf8(m)[head.len() + k] == b);
    }
}

/// Paths are left alone: a suggestion holding `/` or `^` changes nothing,
/// neither the text, nor the list of replacements, nor the emojis used.
pub proof fn lemma_paths_left_alone(st: AuxState, m: Seq<char>, t: Seq<EmojiEntry>)
    requires
        m.contains('/') || m.contains('^'),
    ensures
        aux_step(st, m, t) == st,
{
    if m.contains('/') {
        let i = choose|i: int| 0 <= i < m.len() && m[i] == '/';
        lemma_ascii_char_encoded(m, i, 0x2fu8);
    } else {
        let i = choose|i: int| 0 <= i < m.len() && m[i] == '^';
        lemma_ascii_char_encoded(m, i, 0x5eu8);
    }
}

/// Suggestions that all hold `/` or `^` change nothing.
pub proof fn lemma_only_paths_change_nothing(st: AuxState, ms: Seq<Seq<char>>, t: Seq<EmojiEntry>)
    requires
        forall|i: int| 0 <= i < ms.len() ==> (#[trigger] ms[i]).contains('/') || ms[i].contains('^'),
    ensures
        aux_rounds(st, ms, t) == st,
    decreases ms.len(),
{
    if ms.len() > 0 {
        lemma_paths_left_alone(st, ms[0], t);
        assert forall|i: int| 0 <= i < ms.drop_first().len() implies (#[trigger] ms.drop_first()[i]).contains(
            '/',
        ) || ms.drop_first()[i].contains('^') by {
            assert(ms.drop_first()[i] == ms[i + 1]);
        }
        lemma_only_paths_change_nothing(st, ms.drop_first(), t);
    }
}

/// When every suggestion made of a text holds `/` or `^`, compressing gives
/// the text back unchanged, with no list of replacements.
pub proof fn lemma_only_paths_compress_to_input(a: Seq<char>, stripped: Seq<u8>, t: Seq<EmojiEntry>)
    requires
        forall|i: int|
            0 <= i < spec_distil(stripped, MAX_SUGGESTIONS as nat).len() ==> (#[trigger] spec_distil(
                stripped,
                MAX_SUGGESTIONS as nat,
            )[i]).contains('/') || spec_distil(stripped, MAX_SUGGESTIONS as nat)[i].contains('^'),
    ensures
        spec_compress(a, stripped, t) == a,
{
    lemma_only_paths_change_nothing(
        (encode_utf8(a), seq![], seq![]),
        spec_distil(stripped, MAX_SUGGESTIONS as nat),
        t,
    );
}

/// A notice made of valid UTF-8 is valid UTF-8.
proof fn lemma_notice_valid(glyph: Seq<u8>, shortcode: Seq<u8>, text: Seq<u8>)
    requires
        valid_utf8(glyph),
        valid_utf8(shortcode),
        valid_utf8(text),
    ensures
        valid_utf8(notice(glyph, shortcode, text)),
{
    let a = seq![0x0au8];
    let b = seq![0x20u8, 0x28u8];
    let d = seq![0x29u8, 0x09u8, 0x3du8, 0x20u8];
    lemma_ascii_valid(a);
    lemma_ascii_valid(b);
    lemma_ascii_valid(d);
    valid_utf8_concat(a, glyph);
    valid_utf8_concat(a + glyph, b);
    valid_utf8_concat(a + glyph + b, shortcode);
    valid_utf8_concat(a + glyph + b + shortcode, d);
    valid_utf8_concat(a + glyph + b + shortcode + d, text);
}

/// One step keeps the text and the list of replacements valid UTF-8.
proof fn lemma_step_valid(st: AuxState, m: Seq<char>, t: Seq<EmojiEntry>)
    requires
        valid_utf8(st.0),
        valid_utf8(st.1),
    ensures
        valid_utf8(aux_step(st, m, t).0),
        valid_utf8(aux_step(st, m, t).1),
{
    let mb = encode_utf8(m);
    if !(mb.contains(0x2fu8) || mb.contains(0x5eu8) || mb.len() == 0) {
        let c = cleaned(m);
        let cb = encode_utf8(c);
        if cb.len() > UNICODE_CHAR_LEN {
            let e = best_pick(encode_utf8(lowercase_of(c)), st.2, t);
            let g = t[e].glyph@;
            encode_utf8_valid_utf8(c);
            encode_utf8_valid_utf8(g);
            lemma_replaced_valid(st.0, cb, encode_utf8(g));
            match t[e].shortcode {
                Some(s) => encode_utf8_valid_utf8(s@),
                None => lemma_ascii_valid(seq![]),
            }
            lemma_notice_valid(encode_utf8(g), shortcode_bytes(t[e]), cb);
            valid_utf8_concat(st.1, notice(encode_utf8(g), shortcode_bytes(t[e]), cb));
        }
    }
}

/// Applying suggestions keeps the text and the list of replacements valid
/// UTF-8.
pub proof fn lemma_rounds_valid(st: AuxState, ms: Seq<Seq<char>>, t: Seq<EmojiEntry>)
    requires
        valid_utf8(st.0),
        valid_utf8(st.1),
    ensures
        valid_utf8(aux_rounds(st, ms, t).0),
        valid_utf8(aux_rounds(st, ms, t).1),
    decreases ms.len(),
{
    if ms.len() > 0 {
        lemma_step_valid(st, ms[0], t);
        lemma_rounds_valid(aux_step(st, ms[0], t), ms.drop_first(), t);
    }
}

/// Compressing text gives text: for any text `a`, escape-free bytes and
/// table, the compressed bytes followed by `"\n where "` and the list of
/// replacements are valid UTF-8.
pub proof fn lemma_compressed_valid(a: Seq<char>, stripped: Seq<u8>, t: Seq<EmojiEntry>)
    ensures
        ({
            let r = spec_compress_aux(encode_utf8(a), stripped, seq![], seq![], t);
            valid_utf8(r.0 + where_bytes() + r.1)
        }),
{
    let r = spec_compress_aux(encode_utf8(a), stripped, seq![], seq![], t);
    encode_utf8_valid_utf8(a);
    lemma_ascii_valid(seq![]);
    lemma_ascii_valid(where_bytes());
    lemma_rounds_valid(
        (encode_utf8(a), seq![], seq![]),
        spec_distil(stripped, MAX_SUGGESTIONS as nat),
        t,
    );
    valid_utf8_concat(r.0, where_bytes());
    valid_utf8_concat(r.0 + where_bytes(), r.1);
}

/// The text that the suggestion `m` is cut down to, as `cleaned` says.
fn clean_suggestion(m: &str) -> (r: &str)
    ensures
        r@ == cleaned(m@),
{
    let t1 = trim_text(m);
    let t1b = t1.as_bytes();
    let n1 = t1b.len();
    proof {
        encode_utf8_valid_utf8(t1@);
    }
    let t2 = if n1 >= 2 && t1b[n1 - 2] == 0x3a && t1b[n1 - 1] == 0x3a {
        proof {
            is_char_boundary_iff_not_is_continuation_byte(t1b@, n1 - 2);
        }
        let (left, _) = t1.split_at(n1 - 2);
        left
    } else {
        t1
    };
    assert(t2.spec_bytes() == drop_double_colon(t1.spec_bytes()));
    let t3 = trim_bracket(t2);
    proof {
        encode_utf8_decode_utf8(t3@);
    }
    trim_text(t3)
}

/// Applies the suggestions that `distil` makes of `stripped` (at most
/// `MAX_SUGGESTIONS`) to `input`, as `spec_compress_aux` describes: each kept
/// suggestion is replaced by an emoji picked for it, the emoji is added to
/// `used` unless it is there already, and each replacement that changes the
/// text is recorded in `out`.
pub fn compress_aux(
    input: &[u8],
    stripped: &[u8],
    out: &mut Vec<u8>,
    used: &mut Vec<String>,
    table: &Vec<EmojiEntry>,
) -> (res: Vec<u8>)
    requires
        usable_table(table@),
    ensures
        (res@, final(out)@, used_view(final(used)@)) == spec_compress_aux(
            input@,
            stripped@,
            old(out)@,
            used_view(old(used)@),
            table@,
        ),
        used_view(old(used)@).no_duplicates() ==> used_view(final(used)@).no_duplicates(),
{
    proof {
        lemma_nothing_used_nothing_replaced(
            (input@, old(out)@, used_view(old(used)@)),
            spec_distil(stripped@, MAX_SUGGESTIONS as nat),
            table@,
        );
    }
    if input.len() < MIN_INPUT_LEN {
        return vstd::slice::slice_to_vec(input);
    }
    let it = distil(stripped, MAX_SUGGESTIONS);
    let ghost ms = spec_distil(stripped@, MAX_SUGGESTIONS as nat);
    let ghost t = table@;
    let ghost total = spec_compress_aux(input@, stripped@, out@, used_view(used@), t);
    let mut res: Vec<u8> = vstd::slice::slice_to_vec(input);
    let mut i: usize = 0;
    assert(ms.subrange(0, ms.len() as int) == ms);
    while i < it.len()
        invariant
            i <= it.len(),
            it.len() == ms.len(),
            forall|k: int| 0 <= k < it.len() ==> #[trigger] it[k]@ == ms[k],
            t == table@,
            usable_table(t),
            aux_rounds((res@, out@, used_view(used@)), ms.subrange(i as int, ms.len() as int), t) == total,
        decreases it.len() - i,
    {
        let ghost st: AuxState = (res@, out@, used_view(used@));
        let ghost m = ms[i as int];
        assert(ms.subrange(i as int, ms.len() as int)[0] == m);
        assert(ms.subrange(i as int, ms.len() as int).drop_first() == ms.subrange(i + 1, ms.len() as int));
        let ms_str = it[i].as_str();
        assert(ms_str@ == m);
        let mb = ms_str.as_bytes();
        if !contains_byte(mb, 0x2f) && !contains_byte(mb, 0x5e) && mb.len() > 0 {
            let replace = clean_suggestion(ms_str);
            let cb = replace.as_bytes();
            if cb.len() > UNICODE_CHAR_LEN {
                let e = pick_subset(replace, used, table);
                proof {
                    lemma_best_pick(encode_utf8(lowercase_of(replace@)), used_view(used@), t, e as int);
                }
                let glyph = table[e].glyph.as_str();
                let gb = glyph.as_bytes();
                if !glyph_used(used, &table[e].glyph) {
                    let ghost used_before = used@;
                    used.push(table[e].glyph.clone());
                    assert(used_view(used@) == used_view(used_before).push(t[e as int].glyph@));
                }
                let res_new = replace_all(res.as_slice(), cb, gb);
                if !same_bytes(res_new.as_slice(), res.as_slice()) {
                    assert(table[e as int].shortcode is Some);
                    out.push(0x0a);
                    out.extend_from_slice(gb);
                    out.push(0x20);
                    out.push(0x28);
                    if let Some(sc) = &table[e].shortcode {
                        out.extend_from_slice(sc.as_str().as_bytes());
                    }
                    out.push(0x29);
                    out.push(0x09);
                    out.push(0x3d);
                    out.push(0x20);
                    out.extend_from_slice(cb);
                    assert(out@ == st.1 + notice(gb@, shortcode_bytes(t[e as int]), cb@));
                    res = res_new;
                }
            }
        }
        assert((res@, out@, used_view(used@)) == aux_step(st, m, t));
        i += 1;
    }
    res
}

/// Compresses the text `a` with the emoji table `table`, as `spec_compress`
/// describes; when stripping escapes reports an error, `a` comes back as it
/// is. Text of printable ASCII and line feeds is its own escape-free text.
pub fn compress_with(a: String, table: &Vec<EmojiEntry>) -> (r: String)
    requires
        usable_table(table@),
    ensures
        compress_result(a@, table@, r@),
        plain_bytes(encode_utf8(a@)) ==> r@ == spec_compress(a@, encode_utf8(a@), table@),
{
    let ab = a.as_str().as_bytes();
    let ghost ab_v = encode_utf8(a@);
    assert(ab@ == ab_v);
    if ab.len() < MIN_INPUT_LEN {
        assert(forall|s: Seq<u8>| #[trigger] spec_compress(a@, s, table@) == a@);
        return a;
    }
    let stripped = match strip_ansi(ab) {
        Some(s) => s,
        None => {
            return a;
        },
    };
    let mut results: Vec<u8> = Vec::new();
    let mut emojis_used: Vec<String> = Vec::new();
    assert(used_view(emojis_used@) == Seq::<Seq<char>>::empty());
    let res = compress_aux(ab, stripped.as_slice(), &mut results, &mut emojis_used, table);
    let ghost out_st = spec_compress_aux(ab_v, stripped@, seq![], seq![], table@);
    assert(out_st.2.len() == emojis_used.len());
    if emojis_used.len() == 0 {
        return a;
    }
    let mut joined = res;
    joined.push(0x0a);
    joined.push(0x20);
    joined.push(0x77);
    joined.push(0x68);
    joined.push(0x65);
    joined.push(0x72);
    joined.push(0x65);
    joined.push(0x20);
    joined.extend_from_slice(results.as_slice());
    assert(joined@ == out_st.0 + where_bytes() + out_st.1);
    proof {
        lemma_compressed_valid(a@, stripped@, table@);
    }
    utf8_lossy(joined.as_slice())
}

/// Compresses the text `a` with the emojis of the `emojis` crate: its most
/// repeated runs are replaced by emojis, and a list of what each emoji stands
/// for is appended, as `compress_with` describes for that table.
pub fn compress(a: String) -> (r: String)
    ensures
        exists|t: Seq<EmojiEntry>|
            {
                &&& emojis_table(t)
                &&& usable_table(t)
                &&& compress_result(a@, t, r@)
                &&& plain_bytes(encode_utf8(a@)) ==> r@ == spec_compress(a@, encode_utf8(a@), t)
            },
{
    let table = emoji_table();
    let ghost a_view = a@;
    let r = compress_with(a, &table);
    assert(emojis_table(table@) && usable_table(table@) && compress_result(a_view, table@, r@) && (plain_bytes(
        encode_utf8(a_view),
    ) ==> r@ == spec_compress(a_view, encode_utf8(a_view), table@)));
    r
}

} // verus!
