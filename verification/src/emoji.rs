//! Choosing an emoji whose shortcode matches a piece of text.
use vstd::prelude::*;
use vstd::string::StringSliceAdditionalSpecFns;
use vstd::utf8::*;

use crate::outside::{
    edit_distance_of, hash_str_into, levenshtein, lowercase_of, str_hash_writes, str_to_lowercase,
};
use std::collections::hash_map::DefaultHasher;
use std::hash::Hasher;
use vstd::std_specs::hash::DefaultHasherAdditionalSpecFns;
use vstd::string::StrSliceExecFns;
use crate::text::{contains_seq, occurs, split_bytes, split_on};

verus! {

/// One emoji of the table: its text and its first shortcode, if it has one.
pub struct EmojiEntry {
    pub glyph: String,
    pub shortcode: Option<String>,
}

/// The pieces of an emoji's shortcode between underscores (none when it has
/// no shortcode).
pub open spec fn shortcode_parts(e: EmojiEntry) -> Seq<Seq<u8>> {
    match e.shortcode {
        Some(s) => split_on(encode_utf8(s@), 0x5f),
        None => seq![],
    }
}

/// The length in bytes of piece `j` of the shortcode of entry `k`.
pub open spec fn part_len(t: Seq<EmojiEntry>, k: int, j: int) -> int {
    shortcode_parts(t[k])[j].len() as int
}

/// The texts of the emojis used so far.
pub open spec fn used_view(used: Seq<String>) -> Seq<Seq<char>> {
    used.map_values(|s: String| s@)
}

/// Piece `j` of the shortcode of entry `k` is a candidate: it is not empty, it
/// occurs in `lower`, and the emoji has not been used.
pub open spec fn qualifies(lower: Seq<u8>, used: Seq<Seq<char>>, t: Seq<EmojiEntry>, k: int, j: int) -> bool {
    &&& 0 <= k < t.len()
    &&& 0 <= j < shortcode_parts(t[k]).len()
    &&& shortcode_parts(t[k])[j].len() > 0
    &&& occurs(lower, shortcode_parts(t[k])[j])
    &&& !used.contains(t[k].glyph@)
}

/// `r` is the emoji to pick: when some piece is a candidate, the first entry
/// that has a candidate piece of the greatest length; otherwise the first
/// entry.
pub open spec fn is_best_pick(lower: Seq<u8>, used: Seq<Seq<char>>, t: Seq<EmojiEntry>, r: int) -> bool {
    if exists|k: int, j: int| qualifies(lower, used, t, k, j) {
        exists|j: int|
            {
                &&& qualifies(lower, used, t, r, j)
                &&& forall|k2: int, j2: int|
                    #[trigger] qualifies(lower, used, t, k2, j2) ==> part_len(t, k2, j2) <= part_len(t, r, j)
                &&& forall|k2: int, j2: int|
                    #[trigger] qualifies(lower, used, t, k2, j2) && k2 < r ==> part_len(t, k2, j2) < part_len(
                        t,
                        r,
                        j,
                    )
            }
    } else {
        r == 0
    }
}

/// The emoji to pick for a text whose lower case is `lower`.
pub open spec fn best_pick(lower: Seq<u8>, used: Seq<Seq<char>>, t: Seq<EmojiEntry>) -> int {
    choose|r: int| 0 <= r < t.len() && is_best_pick(lower, used, t, r)
}

/// There is only one emoji to pick.
pub proof fn lemma_best_pick_unique(lower: Seq<u8>, used: Seq<Seq<char>>, t: Seq<EmojiEntry>, r1: int, r2: int)
    requires
        is_best_pick(lower, used, t, r1),
        is_best_pick(lower, used, t, r2),
    ensures
        r1 == r2,
{
    if exists|k: int, j: int| qualifies(lower, used, t, k, j) {
        let j1 = choose|j: int|
            {
                &&& qualifies(lower, used, t, r1, j)
                &&& forall|k2: int, j2: int|
                    #[trigger] qualifies(lower, used, t, k2, j2) ==> part_len(t, k2, j2) <= part_len(t, r1, j)
                &&& forall|k2: int, j2: int|
                    #[trigger] qualifies(lower, used, t, k2, j2) && k2 < r1 ==> part_len(t, k2, j2) < part_len(
                        t,
                        r1,
                        j,
                    )
            };
        let j2 = choose|j: int|
            {
                &&& qualifies(lower, used, t, r2, j)
                &&& forall|k2: int, j2: int|
                    #[trigger] qualifies(lower, used, t, k2, j2) ==> part_len(t, k2, j2) <= part_len(t, r2, j)
                &&& forall|k2: int, j2: int|
                    #[trigger] qualifies(lower, used, t, k2, j2) && k2 < r2 ==> part_len(t, k2, j2) < part_len(
                        t,
                        r2,
                        j,
                    )
            };
        assert(qualifies(lower, used, t, r1, j1));
        assert(qualifies(lower, used, t, r2, j2));
    }
}

/// `r` is the emoji to pick, so it is the one `best_pick` names.
pub proof fn lemma_best_pick(lower: Seq<u8>, used: Seq<Seq<char>>, t: Seq<EmojiEntry>, r: int)
    requires
        0 <= r < t.len(),
        is_best_pick(lower, used, t, r),
    ensures
        best_pick(lower, used, t) == r,
{
    let c = best_pick(lower, used, t);
    lemma_best_pick_unique(lower, used, t, c, r);
}

/// Whether the emoji text `glyph` is among `used`.
pub(crate) fn glyph_used(used: &Vec<String>, glyph: &String) -> (r: bool)
    ensures
        r == used_view(used@).contains(glyph@),
{
    let mut i: usize = 0;
    while i < used.len()
        invariant
            i <= used.len(),
            forall|k: int| 0 <= k < i ==> used@[k]@ != glyph@,
        decreases used.len() - i,
    {
        if used[i] == *glyph {
            assert(used_view(used@)[i as int] == glyph@);
            return true;
        }
        i += 1;
    }
    assert forall|k: int| 0 <= k < used_view(used@).len() implies used_view(used@)[k] != glyph@ by {
        assert(used_view(used@)[k] == used@[k]@);
    }
    false
}

/// The emoji of `table` whose shortcode has the longest piece (between
/// underscores) found in the lower case of `replace`, among emojis not yet
/// `used`; the first such emoji on a tie, the first emoji of the table when
/// no piece is found.
pub fn pick_subset(replace: &str, used: &Vec<String>, table: &Vec<EmojiEntry>) -> (r: usize)
    requires
        table.len() > 0,
    ensures
        r < table.len(),
        is_best_pick(encode_utf8(lowercase_of(replace@)), used_view(used@), table@, r as int),
{
    let lower = str_to_lowercase(replace);
    let lb = lower.as_str().as_bytes();
    let ghost lw = encode_utf8(lowercase_of(replace@));
    let ghost uv = used_view(used@);
    let ghost t = table@;
    assert(lb@ == lw);
    let mut best: Option<usize> = None;
    let mut best_len: usize = 0;
    let ghost mut best_j: int = 0;
    let mut k: usize = 0;
    while k < table.len()
        invariant
            k <= table.len(),
            lb@ == lw,
            uv == used_view(used@),
            t == table@,
            best is None ==> best_len == 0 && forall|k2: int, j2: int|
                #[trigger] qualifies(lw, uv, t, k2, j2) ==> k2 >= k,
            best matches Some(b) ==> {
                &&& b < k
                &&& qualifies(lw, uv, t, b as int, best_j)
                &&& part_len(t, b as int, best_j) == best_len
                &&& forall|k2: int, j2: int|
                    #[trigger] qualifies(lw, uv, t, k2, j2) && k2 < k ==> part_len(t, k2, j2) <= best_len
                &&& forall|k2: int, j2: int|
                    #[trigger] qualifies(lw, uv, t, k2, j2) && k2 < b ==> part_len(t, k2, j2) < best_len
            },
        decreases table.len() - k,
    {
        if let Some(short) = &table[k].shortcode {
            let sc = short.as_str();
            assert(sc@ == short@);
            let parts = split_bytes(sc.as_bytes(), 0x5f);
            let is_used = glyph_used(used, &table[k].glyph);
            let mut j: usize = 0;
            while j < parts.len()
                invariant
                    k < table.len(),
                    j <= parts.len(),
                    lb@ == lw,
                    uv == used_view(used@),
                    t == table@,
                    table[k as int].shortcode == Some(*short),
                    parts@.len() == shortcode_parts(t[k as int]).len(),
                    forall|jj: int| 0 <= jj < parts@.len() ==> #[trigger] parts@[jj]@ == shortcode_parts(t[k as int])[jj],
                    is_used == uv.contains(t[k as int].glyph@),
                    best is None ==> best_len == 0 && forall|k2: int, j2: int|
                        #[trigger] qualifies(lw, uv, t, k2, j2) ==> k2 > k || (k2 == k && j2 >= j),
                    best matches Some(b) ==> {
                        &&& b <= k
                        &&& qualifies(lw, uv, t, b as int, best_j)
                        &&& part_len(t, b as int, best_j) == best_len
                        &&& forall|k2: int, j2: int|
                            #[trigger] qualifies(lw, uv, t, k2, j2) && (k2 < k || (k2 == k && j2 < j)) ==> part_len(
                                t,
                                k2,
                                j2,
                            ) <= best_len
                        &&& forall|k2: int, j2: int|
                            #[trigger] qualifies(lw, uv, t, k2, j2) && k2 < b ==> part_len(t, k2, j2) < best_len
                    },
                decreases parts.len() - j,
            {
                let part = &parts[j];
                assert(part@ == shortcode_parts(t[k as int])[j as int]);
                if part.len() > best_len {
                    if contains_seq(lb, part.as_slice()) && !is_used {
                        assert(qualifies(lw, uv, t, k as int, j as int));
                        best = Some(k);
                        best_len = part.len();
                        proof {
                            best_j = j as int;
                        }
                    }
                }
                j += 1;
            }
        }
        k += 1;
    }
    match best {
        Some(b) => {
            assert(qualifies(lw, uv, t, b as int, best_j));
            b
        },
        None => 0,
    }
}


/// The position in the table of the emoji that `pick_random` takes for `s`:
/// 200 plus, modulo 100, what a new `DefaultHasher` finishes with once `s` is
/// hashed into it.
pub open spec fn random_index(s: Seq<char>) -> int {
    (DefaultHasher::spec_finish(str_hash_writes(s)) % 100) as int + 200
}

/// The first character of the emoji at `random_index(replace)`, or nothing
/// when the table has no emoji there or its text is empty.
pub fn pick_random(replace: &str, table: &Vec<EmojiEntry>) -> (c: Option<char>)
    ensures
        c == (if random_index(replace@) < table@.len() && table@[random_index(replace@)].glyph@.len() > 0 {
            Some(table@[random_index(replace@)].glyph@[0])
        } else {
            None
        }),
{
    let mut hasher = DefaultHasher::new();
    hash_str_into(replace, &mut hasher);
    assert(hasher@ =~= str_hash_writes(replace@));
    let h = hasher.finish();
    let emoji_num = (h % 100) as usize;
    let k = emoji_num + 200;
    if k >= table.len() {
        return None;
    }
    let g = table[k].glyph.as_str();
    assert(g@ == table@[k as int].glyph@);
    if g.unicode_len() == 0 {
        return None;
    }
    Some(g.get_char(0))
}

/// The edit distance between the shortcode of entry `k` and `s`.
pub open spec fn distance_to(t: Seq<EmojiEntry>, k: int, s: Seq<char>) -> nat {
    match t[k].shortcode {
        Some(sc) => levenshtein(sc@, s),
        None => 0,
    }
}

/// `r` is the emoji whose shortcode is nearest to `s` (the first one on a
/// tie), or nothing when no emoji has a shortcode.
pub open spec fn is_nearest(t: Seq<EmojiEntry>, s: Seq<char>, r: Option<usize>) -> bool {
    match r {
        None => forall|k: int| 0 <= k < t.len() ==> (#[trigger] t[k]).shortcode is None,
        Some(k) => {
            &&& k < t.len()
            &&& t[k as int].shortcode is Some
            &&& forall|k2: int|
                0 <= k2 < t.len() && (#[trigger] t[k2]).shortcode is Some ==> distance_to(t, k as int, s)
                    <= distance_to(t, k2, s)
            &&& forall|k2: int|
                0 <= k2 < k && (#[trigger] t[k2]).shortcode is Some ==> distance_to(t, k as int, s)
                    < distance_to(t, k2, s)
        },
    }
}

/// The emoji of `table` whose shortcode is nearest to `replace` in edit
/// distance, the first one on a tie; nothing when no emoji has a shortcode.
pub fn pick_distance(replace: &str, table: &Vec<EmojiEntry>) -> (r: Option<usize>)
    ensures
        is_nearest(table@, replace@, r),
{
    let mut best: Option<usize> = None;
    let mut best_dist: usize = 0;
    let mut k: usize = 0;
    while k < table.len()
        invariant
            k <= table.len(),
            best is None ==> forall|k2: int| 0 <= k2 < k ==> (#[trigger] table@[k2]).shortcode is None,
            best matches Some(b) ==> {
                &&& b < k
                &&& table@[b as int].shortcode is Some
                &&& best_dist == distance_to(table@, b as int, replace@)
                &&& forall|k2: int|
                    0 <= k2 < k && (#[trigger] table@[k2]).shortcode is Some ==> best_dist <= distance_to(
                        table@,
                        k2,
                        replace@,
                    )
                &&& forall|k2: int|
                    0 <= k2 < b && (#[trigger] table@[k2]).shortcode is Some ==> best_dist < distance_to(
                        table@,
                        k2,
                        replace@,
                    )
            },
        decreases table.len() - k,
    {
        if let Some(sc) = &table[k].shortcode {
            let d = edit_distance_of(sc.as_str(), replace);
            assert(d == distance_to(table@, k as int, replace@));
            match best {
                None => {
                    best = Some(k);
                    best_dist = d;
                },
                Some(_) => {
                    if d < best_dist {
                        best = Some(k);
                        best_dist = d;
                    }
                },
            }
        }
        k += 1;
    }
    best
}

} // verus!
