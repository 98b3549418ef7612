//! Distilling the most repeated runs of bytes out of an input.
//!
//! Every window of five bytes is counted; then, as many times as suggestions
//! are asked for, the most frequent window left is taken out, the positions
//! where it occurs are grown into the widest shared run, and that run becomes
//! a suggestion.
use std::collections::HashMap;
use vstd::prelude::*;

use crate::grow::{
    fits, grow, lemma_grow_finds_repeats, opt_view, shares, sorted, spec_grow, strictly_sorted,
};
use crate::outside::utf8_lossy;
use crate::text::text_of;

verus! {

/// The width of the windows that are counted.
pub const WINDOW_SIZE: usize = 5;

/// The window of `WINDOW_SIZE` bytes at position `i`.
pub open spec fn window(input: Seq<u8>, i: int) -> Seq<u8> {
    input.subrange(i, i + WINDOW_SIZE)
}

/// The five bytes of a window packed into one number, the first byte lowest.
pub open spec fn window_key(w: Seq<u8>) -> u64 {
    (w[0] as u64) | ((w[1] as u64) << 8u64) | ((w[2] as u64) << 16u64) | ((w[3] as u64) << 24u64) | ((
    w[4] as u64) << 32u64)
}

/// The number of window positions in an input of `n` bytes.
pub open spec fn num_windows(n: nat) -> nat {
    if n >= WINDOW_SIZE {
        (n - WINDOW_SIZE + 1) as nat
    } else {
        0
    }
}

/// The index in the table `t` of the entry whose window equals the window at
/// `i`, or -1 when there is none (the first one, should there be several).
pub open spec fn find_window(input: Seq<u8>, t: Seq<(usize, usize)>, i: int) -> int
    decreases t.len(),
{
    if t.len() == 0 {
        -1
    } else {
        let j = find_window(input, t.drop_last(), i);
        if j >= 0 {
            j
        } else if window(input, t.last().0 as int) == window(input, i) {
            t.len() - 1
        } else {
            -1
        }
    }
}

/// The frequency table of the first `k` window positions: each distinct
/// window once, by the position where it first occurs, in order of first
/// occurrence, with the number of times it occurs.
pub open spec fn window_table(input: Seq<u8>, k: nat) -> Seq<(usize, usize)>
    decreases k,
{
    if k == 0 {
        seq![]
    } else {
        let t = window_table(input, (k - 1) as nat);
        let i = k - 1;
        let j = find_window(input, t, i);
        if j >= 0 {
            t.update(j, (t[j].0, (t[j].1 + 1) as usize))
        } else {
            t.push((i as usize, 1usize))
        }
    }
}

/// The number of window positions below `k` that hold the window at `p`.
pub open spec fn occurrences(input: Seq<u8>, p: int, k: nat) -> nat
    decreases k,
{
    if k == 0 {
        0
    } else if window(input, k - 1) == window(input, p) {
        occurrences(input, p, (k - 1) as nat) + 1
    } else {
        occurrences(input, p, (k - 1) as nat)
    }
}

/// The index of the first entry of largest count in a non-empty table.
pub open spec fn first_max(t: Seq<(usize, usize)>) -> int
    decreases t.len(),
{
    if t.len() <= 1 {
        0
    } else {
        let j = first_max(t.drop_last());
        if t.last().1 > t[j].1 {
            t.len() - 1
        } else {
            j
        }
    }
}

/// The positions below `k` (in ascending order) where the window at `p` occurs.
pub open spec fn window_starts(input: Seq<u8>, p: int, k: nat) -> Seq<usize>
    decreases k,
{
    if k == 0 {
        seq![]
    } else {
        let s = window_starts(input, p, (k - 1) as nat);
        if window(input, k - 1) == window(input, p) {
            s.push((k - 1) as usize)
        } else {
            s
        }
    }
}

/// The positions searched for occurrences of a window: every window position
/// but the last one.
pub open spec fn search_limit(n: nat) -> nat {
    if n >= WINDOW_SIZE {
        (n - WINDOW_SIZE) as nat
    } else {
        0
    }
}

/// The suggestion made of the window at `p`: its occurrences grown into the
/// widest shared run, read as text; nothing when growing gives nothing.
pub open spec fn suggestion(input: Seq<u8>, p: int) -> Option<Seq<char>> {
    match spec_grow(input, WINDOW_SIZE as nat, window_starts(input, p, search_limit(input.len()))) {
        Some(r) => Some(text_of(input.subrange(r.1[0] as int, r.1[0] + r.0))),
        None => None,
    }
}

/// The suggestions of `k` rounds that start from the table `t`: each round
/// takes the first window of largest count out of the table and adds its
/// suggestion, if any.
pub open spec fn distil_rounds(input: Seq<u8>, t: Seq<(usize, usize)>, k: nat) -> Seq<Seq<char>>
    decreases k,
{
    if k == 0 || t.len() == 0 {
        seq![]
    } else {
        let j = first_max(t);
        let rest = distil_rounds(input, t.remove(j), (k - 1) as nat);
        match suggestion(input, t[j].0 as int) {
            Some(s) => seq![s] + rest,
            None => rest,
        }
    }
}

/// What `distil` gives.
pub open spec fn spec_distil(input: Seq<u8>, max_suggestions: nat) -> Seq<Seq<char>> {
    distil_rounds(input, window_table(input, num_windows(input.len())), max_suggestions)
}

// ---------------------------------------------------------------------------
// Facts

/// Windows with the same key are the same window.
proof fn lemma_window_key_injective(a: Seq<u8>, b: Seq<u8>)
    requires
        a.len() == WINDOW_SIZE,
        b.len() == WINDOW_SIZE,
        window_key(a) == window_key(b),
    ensures
        a == b,
{
    let (a0, a1, a2, a3, a4) = (a[0], a[1], a[2], a[3], a[4]);
    let (b0, b1, b2, b3, b4) = (b[0], b[1], b[2], b[3], b[4]);
    assert(a0 == b0 && a1 == b1 && a2 == b2 && a3 == b3 && a4 == b4) by (bit_vector)
        requires
            (a0 as u64) | ((a1 as u64) << 8u64) | ((a2 as u64) << 16u64) | ((a3 as u64) << 24u64) | ((
            a4 as u64) << 32u64) == (b0 as u64) | ((b1 as u64) << 8u64) | ((b2 as u64) << 16u64) | ((
            b3 as u64) << 24u64) | ((b4 as u64) << 32u64),
    ;
    assert(a =~= b);
}

proof fn lemma_find_window(input: Seq<u8>, t: Seq<(usize, usize)>, i: int)
    ensures
        -1 <= find_window(input, t, i) < t.len(),
        find_window(input, t, i) >= 0 ==> window(input, t[find_window(input, t, i)].0 as int)
            == window(input, i),
        forall|j: int|
            0 <= j < t.len() && (find_window(input, t, i) < 0 || j < find_window(input, t, i))
                ==> window(input, #[trigger] t[j].0 as int) != window(input, i),
    decreases t.len(),
{
    if t.len() > 0 {
        let t0 = t.drop_last();
        lemma_find_window(input, t0, i);
        let r = find_window(input, t, i);
        assert forall|j: int|
            0 <= j < t.len() && (r < 0 || j < r) implies window(input, #[trigger] t[j].0 as int) != window(
            input,
            i,
        ) by {
            if j < t.len() - 1 {
                assert(t[j] == t0[j]);
            }
        }
    }
}

/// The table lists each window once, by a position where it occurs; every
/// window position below `k` has its window in the table; and each count is
/// the number of occurrences of its window below `k`.
pub proof fn lemma_window_table(input: Seq<u8>, k: nat)
    requires
        k <= num_windows(input.len()),
        input.len() <= usize::MAX,
    ensures
        ({
            let t = window_table(input, k);
            &&& t.len() <= k
            &&& forall|j: int| 0 <= j < t.len() ==> #[trigger] t[j].0 < k
            &&& forall|j: int| 0 <= j < t.len() ==> (#[trigger] t[j]).1 == occurrences(input, t[j].0 as int, k)
            &&& forall|j: int| 0 <= j < t.len() ==> (#[trigger] t[j]).1 <= k
            &&& forall|j1: int, j2: int|
                0 <= j1 < j2 < t.len() ==> window(input, #[trigger] t[j1].0 as int) != window(
                    input,
                    #[trigger] t[j2].0 as int,
                )
            &&& forall|i: int| 0 <= i < k ==> find_window(input, t, i) >= 0
        }),
    decreases k,
{
    if k > 0 {
        let k0 = (k - 1) as nat;
        lemma_window_table(input, k0);
        let t0 = window_table(input, k0);
        let i = k0 as int;
        lemma_find_window(input, t0, i);
        let j = find_window(input, t0, i);
        let t = window_table(input, k);
        assert forall|jj: int| 0 <= jj < t0.len() implies occurrences(input, t0[jj].0 as int, k) == (
        if jj == j {
            occurrences(input, t0[jj].0 as int, k0) + 1
        } else {
            occurrences(input, t0[jj].0 as int, k0)
        }) by {}
        assert forall|ii: int| 0 <= ii < k implies find_window(input, t, ii) >= 0 by {
            lemma_find_window(input, t, ii);
            if ii < k0 {
                lemma_find_window(input, t0, ii);
                let a = find_window(input, t0, ii);
                assert(window(input, t[a].0 as int) == window(input, ii));
            } else if j >= 0 {
                assert(window(input, t[j].0 as int) == window(input, ii));
            } else {
                assert(window(input, t[t.len() - 1].0 as int) == window(input, ii));
            }
        }
        if j < 0 {
            assert(occurrences(input, i, k0) == 0) by {
                lemma_no_occurrence(input, t0, k0, i);
            }
        }
    }
}

proof fn lemma_no_occurrence(input: Seq<u8>, t: Seq<(usize, usize)>, k: nat, p: int)
    requires
        forall|i: int| 0 <= i < k ==> find_window(input, t, i) >= 0,
        find_window(input, t, p) < 0,
    ensures
        occurrences(input, p, k) == 0,
    decreases k,
{
    if k > 0 {
        lemma_no_occurrence(input, t, (k - 1) as nat, p);
        let i = k - 1;
        lemma_find_window(input, t, i);
        lemma_find_window(input, t, p);
        let a = find_window(input, t, i);
        if window(input, i) == window(input, p) {
            assert(window(input, t[a].0 as int) == window(input, p));
        }
    }
}

proof fn lemma_first_max(t: Seq<(usize, usize)>)
    requires
        t.len() > 0,
    ensures
        0 <= first_max(t) < t.len(),
        forall|j: int| 0 <= j < t.len() ==> (#[trigger] t[j]).1 <= t[first_max(t)].1,
        forall|j: int| 0 <= j < first_max(t) ==> (#[trigger] t[j]).1 < t[first_max(t)].1,
    decreases t.len(),
{
    if t.len() > 1 {
        let t0 = t.drop_last();
        lemma_first_max(t0);
        let m = first_max(t);
        assert(t[first_max(t0)] == t0[first_max(t0)]);
        assert forall|j: int| 0 <= j < t.len() implies (#[trigger] t[j]).1 <= t[m].1 by {
            if j < t.len() - 1 {
                assert(t[j] == t0[j]);
            }
        }
        assert forall|j: int| 0 <= j < m implies (#[trigger] t[j]).1 < t[m].1 by {
            if j < t.len() - 1 {
                assert(t[j] == t0[j]);
            }
        }
    }
}

/// The occurrences of a window are ascending positions that all hold it.
proof fn lemma_window_starts(input: Seq<u8>, p: int, k: nat)
    requires
        k + WINDOW_SIZE <= input.len(),
        input.len() <= usize::MAX,
        0 <= p,
        p + WINDOW_SIZE <= input.len(),
    ensures
        ({
            let s = window_starts(input, p, k);
            &&& forall|a: int, b: int| 0 <= a < b < s.len() ==> s[a] < s[b]
            &&& forall|a: int| 0 <= a < s.len() ==> #[trigger] s[a] < k
            &&& forall|a: int| 0 <= a < s.len() ==> window(input, #[trigger] s[a] as int) == window(input, p)
        }),
    decreases k,
{
    if k > 0 {
        let k0 = (k - 1) as nat;
        lemma_window_starts(input, p, k0);
        let s0 = window_starts(input, p, k0);
        let s = window_starts(input, p, k);
        assert forall|a: int| 0 <= a < s0.len() implies s[a] == #[trigger] s0[a] by {}
        if window(input, k - 1) == window(input, p) {
            assert(s[s.len() - 1] == k - 1);
        }
        assert forall|a: int, b: int| 0 <= a < b < s.len() implies s[a] < s[b] by {
            assert(s[a] == s0[a]);
            if b < s0.len() {
                assert(s[b] == s0[b]);
            }
        }
        assert forall|a: int| 0 <= a < s.len() implies #[trigger] s[a] < k by {
            if a < s0.len() {
                assert(s[a] == s0[a]);
            }
        }
        assert forall|a: int| 0 <= a < s.len() implies window(input, #[trigger] s[a] as int) == window(input, p) by {
            if a < s0.len() {
                assert(s[a] == s0[a]);
            }
        }
    }
}

/// Each round takes the most frequent window first: when there is a round
/// to make and a window left, the suggestions are those of some window `j`
/// whose count is at least that of every window left in the table (made
/// into a suggestion when growing gives one), followed by those of the
/// remaining rounds over the table without `j`. Among windows of the largest
/// count, `j` is the one listed first.
pub proof fn lemma_round_takes_most_frequent(input: Seq<u8>, t: Seq<(usize, usize)>, k: nat)
    requires
        k > 0,
        t.len() > 0,
    ensures
        exists|j: int|
            {
                &&& 0 <= j < t.len()
                &&& forall|i: int| 0 <= i < t.len() ==> (#[trigger] t[i]).1 <= t[j].1
                &&& forall|i: int| 0 <= i < j ==> (#[trigger] t[i]).1 < t[j].1
                &&& distil_rounds(input, t, k) == (match suggestion(input, t[j].0 as int) {
                    Some(s) => seq![s],
                    None => seq![],
                }) + distil_rounds(input, t.remove(j), (k - 1) as nat)
            },
{
    lemma_first_max(t);
    let j = first_max(t);
    let rest = distil_rounds(input, t.remove(j), (k - 1) as nat);
    match suggestion(input, t[j].0 as int) {
        Some(s) => {},
        None => {
            assert(seq![] + rest == rest);
        },
    }
}

/// The counts of the table that `distil` starts from are the numbers of
/// times the windows occur in the input, so the first round takes a window
/// that occurs at least as often as any other window of the input.
pub proof fn lemma_first_round_counts(input: Seq<u8>)
    requires
        input.len() <= usize::MAX,
    ensures
        ({
            let n = num_windows(input.len());
            let t = window_table(input, n);
            &&& forall|j: int| 0 <= j < t.len() ==> (#[trigger] t[j]).1 == occurrences(input, t[j].0 as int, n)
            &&& forall|p: int|
                #![trigger window(input, p)]
                0 <= p < n ==> exists|j: int| 0 <= j < t.len() && window(input, #[trigger] t[j].0 as int) == window(input, p)
        }),
{
    let n = num_windows(input.len());
    lemma_window_table(input, n);
    let t = window_table(input, n);
    assert forall|p: int|
        #![trigger window(input, p)]
        0 <= p < n implies exists|j: int| 0 <= j < t.len() && window(input, #[trigger] t[j].0 as int) == window(input, p) by {
        lemma_find_window(input, t, p);
        let j = find_window(input, t, p);
        assert(window(input, t[j].0 as int) == window(input, p));
    }
}

/// The occurrences of a window meet what `grow` asks of its starts.
proof fn lemma_starts_grow(input: Seq<u8>, p: int, k: nat)
    requires
        k + WINDOW_SIZE <= input.len(),
        input.len() <= usize::MAX,
        0 <= p,
        p + WINDOW_SIZE <= input.len(),
    ensures
        sorted(window_starts(input, p, k)),
        fits(input, window_starts(input, p, k), WINDOW_SIZE as int),
        shares(input, window_starts(input, p, k), 0, WINDOW_SIZE as int),
{
    lemma_window_starts(input, p, k);
    let s = window_starts(input, p, k);
    assert forall|a: int, b: int, t: int|
        0 <= a < s.len() && 0 <= b < s.len() && 0 <= t < WINDOW_SIZE implies #[trigger] input[s[a] + t]
            == #[trigger] input[s[b] + t] by {
        assert(window(input, s[a] as int)[t] == input[s[a] + t]);
        assert(window(input, s[b] as int)[t] == input[s[b] + t]);
    }
}

/// The `len` bytes of `input` from position `a`.
pub open spec fn run(input: Seq<u8>, a: int, len: int) -> Seq<u8> {
    input.subrange(a, a + len)
}

/// Every suggestion is a repeated run of the input: two different positions
/// hold the same run of at least five bytes, and the suggestion is that run
/// read as text.
pub proof fn lemma_suggestion_repeats(input: Seq<u8>, p: int)
    requires
        0 <= p,
        p + WINDOW_SIZE <= input.len(),
        input.len() <= usize::MAX,
    ensures
        suggestion(input, p) matches Some(s) ==> exists|a: int, b: int, len: int|
            {
                &&& 0 <= a < b
                &&& b + len <= input.len()
                &&& len >= WINDOW_SIZE
                &&& #[trigger] run(input, a, len) == #[trigger] run(input, b, len)
                &&& s == text_of(run(input, a, len))
            },
{
    let k = search_limit(input.len());
    let starts = window_starts(input, p, k);
    lemma_starts_grow(input, p, k);
    lemma_window_starts(input, p, k);
    assert(strictly_sorted(starts));
    lemma_grow_finds_repeats(input, WINDOW_SIZE as nat, starts);
    if let Some(r) = spec_grow(input, WINDOW_SIZE as nat, starts) {
        let a = r.1[0] as int;
        let b = r.1[1] as int;
        let len = r.0 as int;
        assert(a < b);
        assert(b + len <= input.len());
        assert(run(input, a, len) =~= run(input, b, len)) by {
            assert forall|t: int| 0 <= t < len implies #[trigger] run(input, a, len)[t] == run(input, b, len)[t] by {
                assert(input[r.1[0] + t] == input[r.1[1] + t]);
            }
        }
    }
}

// ---------------------------------------------------------------------------
// Executable code

/// Whether the windows at `p` and `q` hold the same bytes.
fn window_eq(input: &[u8], p: usize, q: usize) -> (r: bool)
    requires
        p + WINDOW_SIZE <= input.len(),
        q + WINDOW_SIZE <= input.len(),
    ensures
        r == (window(input@, p as int) == window(input@, q as int)),
{
    let mut t: usize = 0;
    while t < WINDOW_SIZE
        invariant
            t <= WINDOW_SIZE,
            p + WINDOW_SIZE <= input.len(),
            q + WINDOW_SIZE <= input.len(),
            forall|u: int|
                0 <= u < t ==> #[trigger] window(input@, p as int)[u] == window(input@, q as int)[u],
        decreases WINDOW_SIZE - t,
    {
        if input[p + t] != input[q + t] {
            assert(window(input@, p as int)[t as int] != window(input@, q as int)[t as int]);
            return false;
        }
        t += 1;
    }
    assert(window(input@, p as int) =~= window(input@, q as int));
    true
}

/// The key of the window at position `i`.
fn key_at(input: &[u8], i: usize) -> (k: u64)
    requires
        i + WINDOW_SIZE <= input.len(),
    ensures
        k == window_key(window(input@, i as int)),
{
    let ghost w = window(input@, i as int);
    assert(w[0] == input[i as int] && w[1] == input[i + 1] && w[2] == input[i + 2] && w[3] == input[i
        + 3] && w[4] == input[i + 4]);
    (input[i] as u64) | ((input[i + 1] as u64) << 8u64) | ((input[i + 2] as u64) << 16u64) | ((input[i
        + 3] as u64) << 24u64) | ((input[i + 4] as u64) << 32u64)
}

/// The frequency table of all windows of `input`, as `window_table` says. A
/// map from each window's key to its place in the table finds the entry of
/// a window that has been seen before.
fn count_windows(input: &[u8]) -> (t: Vec<(usize, usize)>)
    ensures
        t@ == window_table(input@, num_windows(input.len() as nat)),
{
    broadcast use vstd::std_specs::hash::group_hash_axioms;

    let mut t: Vec<(usize, usize)> = Vec::new();
    if input.len() < WINDOW_SIZE {
        return t;
    }
    let nw = input.len() - WINDOW_SIZE + 1;
    let mut slots: HashMap<u64, usize> = HashMap::new();
    let mut i: usize = 0;
    while i < nw
        invariant
            nw == num_windows(input.len() as nat),
            i <= nw,
            input.len() >= WINDOW_SIZE,
            t@ == window_table(input@, i as nat),
            forall|j: int|
                0 <= j < t.len() ==> #[trigger] slots@.contains_key(window_key(window(input@, t[j].0 as int)))
                    && slots@[window_key(window(input@, t[j].0 as int))] == j,
            forall|k: u64|
                #[trigger] slots@.contains_key(k) ==> slots@[k] < t.len() && window_key(
                    window(input@, t[slots@[k] as int].0 as int),
                ) == k,
        decreases nw - i,
    {
        proof {
            lemma_window_table(input@, i as nat);
            lemma_find_window(input@, t@, i as int);
        }
        let key = key_at(input, i);
        let ghost f = find_window(input@, t@, i as int);
        match slots.get(&key) {
            Some(j) => {
                let j = *j;
                proof {
                    lemma_window_key_injective(window(input@, t[j as int].0 as int), window(input@, i as int));
                    if f != j {
                        assert(window(input@, t[f].0 as int) == window(input@, t[j as int].0 as int));
                    }
                }
                let ghost before = t@;
                let (p, c) = t[j];
                t.set(j, (p, c + 1));
                proof {
                    assert forall|jj: int| 0 <= jj < t.len() implies #[trigger] slots@.contains_key(
                        window_key(window(input@, t[jj].0 as int)),
                    ) && slots@[window_key(window(input@, t[jj].0 as int))] == jj by {
                        assert(t[jj].0 == before[jj].0);
                        assert(slots@.contains_key(window_key(window(input@, before[jj].0 as int))));
                    }
                    assert forall|k: u64| #[trigger] slots@.contains_key(k) implies slots@[k] < t.len()
                        && window_key(window(input@, t[slots@[k] as int].0 as int)) == k by {
                        assert(t[slots@[k] as int].0 == before[slots@[k] as int].0);
                    }
                }
            },
            None => {
                proof {
                    if f >= 0 {
                        assert(slots@.contains_key(window_key(window(input@, t[f].0 as int))));
                    }
                }
                let ghost before = t@;
                let ghost slots_before = slots@;
                slots.insert(key, t.len());
                t.push((i, 1));
                proof {
                    assert forall|jj: int| 0 <= jj < t.len() implies #[trigger] slots@.contains_key(
                        window_key(window(input@, t[jj].0 as int)),
                    ) && slots@[window_key(window(input@, t[jj].0 as int))] == jj by {
                        if jj < before.len() {
                            assert(t[jj] == before[jj]);
                            assert(slots_before.contains_key(window_key(window(input@, before[jj].0 as int))));
                        }
                    }
                    assert forall|k: u64| #[trigger] slots@.contains_key(k) implies slots@[k] < t.len()
                        && window_key(window(input@, t[slots@[k] as int].0 as int)) == k by {
                        if k != key {
                            assert(slots_before.contains_key(k));
                            assert(t[slots_before[k] as int] == before[slots_before[k] as int]);
                        }
                    }
                }
            },
        }
        i += 1;
    }
    t
}

/// The index of the first entry of largest count in a non-empty table.
fn first_max_index(t: &Vec<(usize, usize)>) -> (j: usize)
    requires
        t.len() > 0,
    ensures
        j == first_max(t@),
{
    let mut best: usize = 0;
    let mut j: usize = 1;
    while j < t.len()
        invariant
            1 <= j <= t.len(),
            best == first_max(t@.take(j as int)),
            best < j,
        decreases t.len() - j,
    {
        assert(t@.take(j + 1).drop_last() == t@.take(j as int));
        assert(t@.take(j as int)[best as int] == t[best as int]);
        if t[j].1 > t[best].1 {
            best = j;
        }
        j += 1;
    }
    assert(t@.take(t.len() as int) == t@);
    best
}

/// The positions below `search_limit` where the window at `p` occurs.
fn find_starts(input: &[u8], p: usize) -> (s: Vec<usize>)
    requires
        input.len() >= WINDOW_SIZE,
        p + WINDOW_SIZE <= input.len(),
    ensures
        s@ == window_starts(input@, p as int, search_limit(input.len() as nat)),
{
    let mut s: Vec<usize> = Vec::new();
    let limit = input.len() - WINDOW_SIZE;
    let mut i: usize = 0;
    while i < limit
        invariant
            limit == search_limit(input.len() as nat),
            i <= limit,
            input.len() >= WINDOW_SIZE,
            p + WINDOW_SIZE <= input.len(),
            s@ == window_starts(input@, p as int, i as nat),
        decreases limit - i,
    {
        if window_eq(input, i, p) {
            s.push(i);
        }
        i += 1;
    }
    s
}

/// Up to `max_suggestions` runs of text that repeat in `input`, most frequent
/// five-byte windows first, as `spec_distil` describes. Among windows of equal
/// count the one that occurs first is taken first.
pub fn distil(input: &[u8], max_suggestions: usize) -> (res: Vec<String>)
    ensures
        res.len() == spec_distil(input@, max_suggestions as nat).len(),
        forall|i: int| 0 <= i < res.len() ==> #[trigger] res[i]@ == spec_distil(input@, max_suggestions as nat)[i],
{
    let mut freq = count_windows(input);
    let ghost total = spec_distil(input@, max_suggestions as nat);
    let ghost nw = num_windows(input.len() as nat);
    proof {
        lemma_window_table(input@, nw);
    }
    let mut res: Vec<String> = Vec::new();
    let mut round: usize = 0;
    while round < max_suggestions
        invariant
            round <= max_suggestions,
            total == spec_distil(input@, max_suggestions as nat),
            res@.map_values(|s: String| s@) + distil_rounds(input@, freq@, (max_suggestions - round) as nat)
                == total,
            forall|j: int| 0 <= j < freq.len() ==> #[trigger] freq[j].0 + WINDOW_SIZE <= input.len(),
            freq.len() > 0 ==> input.len() >= WINDOW_SIZE,
        ensures
            res@.map_values(|s: String| s@) == total,
        decreases max_suggestions - round,
    {
        if freq.len() == 0 {
            assert(res@.map_values(|s: String| s@) + seq![] == res@.map_values(|s: String| s@));
            break;
        }
        let j = first_max_index(&freq);
        proof {
            lemma_first_max(freq@);
        }
        let (seek, _) = freq.remove(j);
        let ghost rest = distil_rounds(input@, freq@, (max_suggestions - round - 1) as nat);
        let starts = find_starts(input, seek);
        proof {
            lemma_starts_grow(input@, seek as int, search_limit(input.len() as nat));
            lemma_window_starts(input@, seek as int, search_limit(input.len() as nat));
            lemma_grow_finds_repeats(input@, WINDOW_SIZE as nat, starts@);
            assert forall|jj: int| 0 <= jj < freq.len() implies #[trigger] freq[jj].0 + WINDOW_SIZE
                <= input.len() by {}
        }
        if starts.len() >= 2 {
            assert(starts[starts.len() - 1] < search_limit(input.len() as nat));
        }
        let grown = grow(WINDOW_SIZE, starts.as_slice(), input);
        if let Some((len, points)) = grown {
            assert(points[0] + len <= input.len());
            let s = utf8_lossy(&input[points[0]..points[0] + len]);
            let ghost before = res@.map_values(|s: String| s@);
            res.push(s);
            assert(res@.map_values(|s: String| s@) == before.push(s@));
            assert(before.push(s@) + rest == before + (seq![s@] + rest));
        }
        round += 1;
        if round == max_suggestions {
            assert(res@.map_values(|s: String| s@) + seq![] == res@.map_values(|s: String| s@));
        }
    }
    assert forall|i: int| 0 <= i < res.len() implies #[trigger] res[i]@ == total[i] by {
        assert(res@.map_values(|s: String| s@)[i] == res[i]@);
    }
    res
}

} // verus!
