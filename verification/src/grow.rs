//! Growing a set of occurrences of a common substring into the longest
//! shared run of bytes, forwards (to the right) and backwards (to the left).
//!
//! A candidate is a pair `(len, groups)`: `groups` are start positions in the
//! input, and every start is followed by the same `len` bytes. Its volume is
//! `len * groups.len()`, the number of bytes that the repeats cover. Only
//! candidates whose runs do not overlap are returned; classes of starts whose
//! runs overlap are still grown, and their starts thinned out.
use vstd::prelude::*;

verus! {

/// Start positions given in ascending order (duplicates allowed).
pub open spec fn sorted(s: Seq<usize>) -> bool {
    forall|i: int, j: int| 0 <= i <= j < s.len() ==> s[i] <= s[j]
}

/// Start positions given in strictly ascending order.
pub open spec fn strictly_sorted(s: Seq<usize>) -> bool {
    forall|i: int, j: int| 0 <= i < j < s.len() ==> s[i] < s[j]
}

/// The number of bytes covered by `count` repeats of a substring of length `len`.
pub open spec fn volume(len: nat, count: nat) -> int {
    (len * count) as int
}

/// The starts in `groups` (kept in their order) whose byte at offset `len` is `b`.
pub open spec fn next_byte_class(input: Seq<u8>, groups: Seq<usize>, len: nat, b: u8) -> Seq<usize>
    decreases groups.len(),
{
    if groups.len() == 0 {
        seq![]
    } else {
        let rest = next_byte_class(input, groups.drop_last(), len, b);
        if input[groups.last() + len] == b {
            rest.push(groups.last())
        } else {
            rest
        }
    }
}

/// The starts in `groups` (kept in their order) preceded by the byte `b`,
/// each moved one position to the left.
pub open spec fn prev_byte_class(input: Seq<u8>, groups: Seq<usize>, b: u8) -> Seq<usize>
    decreases groups.len(),
{
    if groups.len() == 0 {
        seq![]
    } else {
        let rest = prev_byte_class(input, groups.drop_last(), b);
        if input[groups.last() - 1] == b {
            rest.push((groups.last() - 1) as usize)
        } else {
            rest
        }
    }
}

/// Starts in ascending order whose runs of `len` bytes do not overlap.
pub open spec fn spaced(s: Seq<usize>, len: nat) -> bool {
    forall|i: int| 0 <= i < s.len() - 1 ==> #[trigger] gap_fits(s, i, len)
}

/// The run of `len` bytes at start `i` ends before start `i + 1` begins.
pub open spec fn gap_fits(s: Seq<usize>, i: int, len: nat) -> bool {
    s[i] + len <= s[i + 1]
}

/// The starts that a left-to-right scan of `s` keeps when it takes each start
/// at or after `from` whose run of `len` bytes begins where the run last kept
/// has ended.
pub open spec fn spaced_pick(s: Seq<usize>, len: nat, from: int) -> Seq<usize>
    decreases s.len(),
{
    if s.len() == 0 {
        seq![]
    } else if s[0] >= from {
        seq![s[0]] + spaced_pick(s.drop_first(), len, s[0] + len)
    } else {
        spaced_pick(s.drop_first(), len, from)
    }
}

/// The candidate that the starts `groups` offer by themselves at length
/// `len`: those the scan keeps so that their runs do not overlap, when at
/// least two are kept.
pub open spec fn node_candidate(len: nat, groups: Seq<usize>) -> Option<(nat, Seq<usize>)> {
    let p = spaced_pick(groups, len, 0);
    if p.len() >= 2 {
        Some((len, p))
    } else {
        None
    }
}

/// The number of bytes a candidate covers, and -1 for no candidate.
pub open spec fn opt_vol(c: Option<(nat, Seq<usize>)>) -> int {
    match c {
        Some(p) => volume(p.0, p.1.len()),
        None => -1,
    }
}

/// Keeps `best` unless `cand` covers strictly more bytes.
pub open spec fn better(best: Option<(nat, Seq<usize>)>, cand: Option<(nat, Seq<usize>)>) -> Option<
    (nat, Seq<usize>),
> {
    if opt_vol(cand) > opt_vol(best) {
        cand
    } else {
        best
    }
}

/// What growing forwards gives: `None` when fewer than two starts are given or
/// the last start reaches the end of the input; otherwise, of the candidate
/// that the starts offer at `len` and the results of growing each class of
/// starts that agree on the next byte (taken in increasing byte order), the
/// first one of largest volume, if there is any.
pub open spec fn spec_grow_forwards(input: Seq<u8>, len: nat, groups: Seq<usize>) -> Option<(nat, Seq<usize>)>
    decreases input.len() - len, 257int,
{
    if groups.len() < 2 {
        None
    } else if groups.last() + len >= input.len() {
        None
    } else {
        forwards_from_byte(input, len, groups, 0, node_candidate(len, groups))
    }
}

/// The scan over next-byte classes `b, b + 1, .., 255` of growing forwards,
/// starting from the candidate `best`.
pub open spec fn forwards_from_byte(
    input: Seq<u8>,
    len: nat,
    groups: Seq<usize>,
    b: nat,
    best: Option<(nat, Seq<usize>)>,
) -> Option<(nat, Seq<usize>)>
    decreases input.len() - len, 256 - b,
{
    if b >= 256 || len >= input.len() {
        best
    } else {
        let child = next_byte_class(input, groups, len, b as u8);
        forwards_from_byte(input, len, groups, b + 1, better(best, spec_grow_forwards(input, len + 1, child)))
    }
}

/// Starts in ascending order, none of them 0.
pub open spec fn sorted_positive(s: Seq<usize>) -> bool {
    sorted(s) && (s.len() > 0 ==> s[0] > 0)
}

/// What growing backwards gives: `None` when fewer than two starts are given or
/// the first start is at the beginning of the input; otherwise, of the
/// candidate that the starts offer at `len` and the results of growing each
/// class of starts that agree on the previous byte (moved one to the left,
/// taken in increasing byte order), the first one of largest volume, if there
/// is any.
pub open spec fn spec_grow_backwards(input: Seq<u8>, len: nat, groups: Seq<usize>) -> Option<(nat, Seq<usize>)>
    decreases (if groups.len() > 0 { groups.last() as int } else { 0 }), 257int,
{
    if groups.len() < 2 {
        None
    } else if groups[0] == 0 {
        None
    } else {
        backwards_from_byte(input, len, groups, 0, node_candidate(len, groups))
    }
}

/// The scan over previous-byte classes `b, b + 1, .., 255` of growing
/// backwards, starting from the candidate `best`.
pub open spec fn backwards_from_byte(
    input: Seq<u8>,
    len: nat,
    groups: Seq<usize>,
    b: nat,
    best: Option<(nat, Seq<usize>)>,
) -> Option<(nat, Seq<usize>)>
    decreases (if groups.len() > 0 { groups.last() as int } else { 0 }), 256 - b,
{
    if b >= 256 || groups.len() < 2 || !sorted_positive(groups) {
        best
    } else {
        let child = prev_byte_class(input, groups, b as u8);
        proof {
            lemma_prev_class(input, groups, b as u8);
        }
        let cand = if child.len() >= 2 {
            spec_grow_backwards(input, len + 1, child)
        } else {
            None
        };
        backwards_from_byte(input, len, groups, b + 1, better(best, cand))
    }
}

/// What growing gives: growing forwards, then growing the forward result
/// backwards, or the given starts backwards when growing forwards gave nothing.
pub open spec fn spec_grow(input: Seq<u8>, len: nat, groups: Seq<usize>) -> Option<(nat, Seq<usize>)> {
    match spec_grow_forwards(input, len, groups) {
        Some(r) => spec_grow_backwards(input, r.0, r.1),
        None => spec_grow_backwards(input, len, groups),
    }
}

/// Every start in `groups` is followed by the same bytes at offsets `from .. to`.
pub open spec fn shares(input: Seq<u8>, groups: Seq<usize>, from: int, to: int) -> bool {
    forall|i: int, j: int, k: int|
        0 <= i < groups.len() && 0 <= j < groups.len() && from <= k < to ==> #[trigger] input[groups[i]
            + k] == #[trigger] input[groups[j] + k]
}

/// Every start in `groups` has `len` bytes of input after it.
pub open spec fn fits(input: Seq<u8>, groups: Seq<usize>, len: int) -> bool {
    forall|i: int| 0 <= i < groups.len() ==> #[trigger] groups[i] + len <= input.len()
}

/// `v` is one of the starts in `s`.
pub open spec fn has(s: Seq<usize>, v: int) -> bool {
    exists|a: int| 0 <= a < s.len() && s[a] as int == v
}

/// The views of an executable candidate.
pub open spec fn opt_view(r: Option<(usize, Vec<usize>)>) -> Option<(nat, Seq<usize>)> {
    match r {
        Some(p) => Some((p.0 as nat, p.1@)),
        None => None,
    }
}

// ---------------------------------------------------------------------------
// Facts about the byte classes

pub proof fn lemma_next_class(input: Seq<u8>, groups: Seq<usize>, len: nat, b: u8)
    ensures
        ({
            let c = next_byte_class(input, groups, len, b);
            &&& c.len() <= groups.len()
            &&& forall|i: int| 0 <= i < c.len() ==> groups.contains(#[trigger] c[i])
            &&& forall|i: int| 0 <= i < c.len() ==> input[#[trigger] c[i] + len] == b
            &&& sorted(groups) ==> sorted(c)
            &&& sorted(groups) && c.len() > 0 ==> c.last() <= groups.last()
            &&& strictly_sorted(groups) ==> strictly_sorted(c)
        }),
    decreases groups.len(),
{
    if groups.len() > 0 {
        let g0 = groups.drop_last();
        lemma_next_class(input, g0, len, b);
        let c = next_byte_class(input, groups, len, b);
        let r = next_byte_class(input, g0, len, b);
        assert forall|i: int| 0 <= i < r.len() implies groups.contains(#[trigger] r[i]) by {
            let k = choose|k: int| 0 <= k < g0.len() && g0[k] == r[i];
            assert(groups[k] == r[i]);
        }
        assert(groups[groups.len() - 1] == groups.last());
        if sorted(groups) {
            assert(sorted(g0));
            assert forall|i: int| 0 <= i < r.len() implies #[trigger] r[i] <= groups.last() by {
                let k = choose|k: int| 0 <= k < g0.len() && g0[k] == r[i];
                assert(groups[k] == r[i]);
            }
        }
        if strictly_sorted(groups) {
            assert(strictly_sorted(g0));
            assert forall|i: int| 0 <= i < r.len() implies #[trigger] r[i] < groups.last() by {
                let k = choose|k: int| 0 <= k < g0.len() && g0[k] == r[i];
                assert(groups[k] == r[i]);
            }
        }
    }
}

pub proof fn lemma_prev_class(input: Seq<u8>, groups: Seq<usize>, b: u8)
    requires
        sorted_positive(groups),
    ensures
        ({
            let c = prev_byte_class(input, groups, b);
            &&& c.len() <= groups.len()
            &&& forall|i: int| 0 <= i < c.len() ==> has(groups, #[trigger] c[i] + 1)
            &&& forall|i: int| 0 <= i < c.len() ==> input[#[trigger] c[i] as int] == b
            &&& sorted(c)
            &&& c.len() > 0 ==> c.last() < groups.last()
            &&& strictly_sorted(groups) ==> strictly_sorted(c)
        }),
    decreases groups.len(),
{
    if groups.len() > 0 {
        let g0 = groups.drop_last();
        assert(sorted_positive(g0));
        lemma_prev_class(input, g0, b);
        let r = prev_byte_class(input, g0, b);
        assert(groups[groups.len() - 1] == groups.last());
        assert(groups.last() >= groups[0]);
        assert forall|i: int| 0 <= i < r.len() implies has(groups, #[trigger] r[i] + 1) by {
            let k = choose|k: int| 0 <= k < g0.len() && g0[k] as int == r[i] + 1;
            assert(groups[k] == g0[k]);
        }
        assert forall|i: int| 0 <= i < r.len() implies #[trigger] r[i] < groups.last() by {
            let k = choose|k: int| 0 <= k < g0.len() && g0[k] as int == r[i] + 1;
            assert(groups[k] == g0[k]);
        }
        if strictly_sorted(groups) {
            assert(strictly_sorted(g0));
            assert forall|i: int| 0 <= i < r.len() implies #[trigger] r[i] + 1 < groups.last() by {
                let k = choose|k: int| 0 <= k < g0.len() && g0[k] as int == r[i] + 1;
                assert(groups[k] == g0[k]);
            }
        }
    }
}


/// `x` is kept in its next-byte class when its byte at offset `len` is `b`.
pub proof fn lemma_next_class_keeps(input: Seq<u8>, groups: Seq<usize>, len: nat, b: u8, x: usize)
    requires
        groups.contains(x),
        input[x + len] == b,
    ensures
        next_byte_class(input, groups, len, b).contains(x),
    decreases groups.len(),
{
    let g0 = groups.drop_last();
    let c = next_byte_class(input, groups, len, b);
    let r = next_byte_class(input, g0, len, b);
    if groups.last() == x {
        assert(c[c.len() - 1] == x);
    } else {
        let k = choose|k: int| 0 <= k < groups.len() && groups[k] == x;
        assert(k != groups.len() - 1);
        assert(g0[k] == x);
        lemma_next_class_keeps(input, g0, len, b, x);
        let a = choose|a: int| 0 <= a < r.len() && r[a] == x;
        assert(c[a] == x);
    }
}

/// `x - 1` is in the previous-byte class of `b` when `x` is a start preceded by `b`.
pub proof fn lemma_prev_class_keeps(input: Seq<u8>, groups: Seq<usize>, b: u8, x: int)
    requires
        has(groups, x),
        x >= 1,
        input[x - 1] == b,
    ensures
        has(prev_byte_class(input, groups, b), x - 1),
    decreases groups.len(),
{
    let g0 = groups.drop_last();
    let c = prev_byte_class(input, groups, b);
    let r = prev_byte_class(input, g0, b);
    if groups.last() as int == x {
        assert(c[c.len() - 1] as int == x - 1);
    } else {
        let k = choose|k: int| 0 <= k < groups.len() && groups[k] as int == x;
        assert(k != groups.len() - 1);
        assert(g0[k] as int == x);
        lemma_prev_class_keeps(input, g0, b, x);
        let a = choose|a: int| 0 <= a < r.len() && r[a] as int == x - 1;
        assert(c[a] == r[a]);
    }
}

// ---------------------------------------------------------------------------
// Facts about the scan that keeps non-overlapping starts

/// What the scan keeps are starts of `s`, at or after `from`, in ascending
/// order, whose runs of `len` bytes do not overlap.
pub proof fn lemma_spaced_pick(s: Seq<usize>, len: nat, from: int)
    requires
        sorted(s),
    ensures
        ({
            let p = spaced_pick(s, len, from);
            &&& p.len() <= s.len()
            &&& forall|i: int| 0 <= i < p.len() ==> s.contains(#[trigger] p[i])
            &&& forall|i: int| 0 <= i < p.len() ==> #[trigger] p[i] >= from
            &&& sorted(p)
            &&& spaced(p, len)
            &&& strictly_sorted(s) ==> strictly_sorted(p)
        }),
    decreases s.len(),
{
    if s.len() > 0 {
        let s1 = s.drop_first();
        assert(sorted(s1));
        assert forall|i: int| 0 <= i < s1.len() implies s.contains(#[trigger] s1[i]) by {
            assert(s[i + 1] == s1[i]);
        }
        if s[0] >= from {
            let q = spaced_pick(s1, len, s[0] + len);
            lemma_spaced_pick(s1, len, s[0] + len);
            let p = spaced_pick(s, len, from);
            assert(p == seq![s[0]] + q);
            assert forall|i: int| 0 <= i < p.len() implies s.contains(#[trigger] p[i]) by {
                if i > 0 {
                    assert(p[i] == q[i - 1]);
                    assert(s1.contains(q[i - 1]));
                } else {
                    assert(s[0] == p[0]);
                }
            }
            assert forall|i: int| 0 <= i < p.len() implies #[trigger] p[i] >= from by {
                if i > 0 {
                    assert(p[i] == q[i - 1]);
                }
            }
            assert forall|i: int, j: int| 0 <= i <= j < p.len() implies p[i] <= p[j] by {
                if i > 0 {
                    assert(p[i] == q[i - 1] && p[j] == q[j - 1]);
                } else if j > 0 {
                    assert(p[j] == q[j - 1]);
                }
            }
            assert forall|i: int| 0 <= i < p.len() - 1 implies #[trigger] gap_fits(p, i, len) by {
                assert(p[i + 1] == q[i]);
                if i > 0 {
                    assert(p[i] == q[i - 1]);
                    assert(gap_fits(q, i - 1, len));
                }
            }
            if strictly_sorted(s) {
                assert(strictly_sorted(s1));
                assert forall|i: int, j: int| 0 <= i < j < p.len() implies p[i] < p[j] by {
                    assert(p[j] == q[j - 1]);
                    assert(s1.contains(q[j - 1]));
                    let a = choose|a: int| 0 <= a < s1.len() && s1[a] == q[j - 1];
                    assert(s[a + 1] == s1[a]);
                    if i > 0 {
                        assert(p[i] == q[i - 1]);
                    }
                }
            }
        } else {
            lemma_spaced_pick(s1, len, from);
            let p = spaced_pick(s, len, from);
            assert forall|i: int| 0 <= i < p.len() implies s.contains(#[trigger] p[i]) by {
                assert(s1.contains(p[i]));
            }
            if strictly_sorted(s) {
                assert(strictly_sorted(s1));
            }
        }
    }
}

/// No set of starts of `s` at or after `from` whose runs of `len` bytes do
/// not overlap has more members than the scan keeps.
pub proof fn lemma_pick_optimal(s: Seq<usize>, len: nat, from: int, t: Seq<usize>)
    requires
        sorted(s),
        strictly_sorted(t),
        forall|k: int| 0 <= k < t.len() ==> s.contains(#[trigger] t[k]),
        forall|k: int| 0 <= k < t.len() ==> #[trigger] t[k] >= from,
        spaced(t, len),
    ensures
        t.len() <= spaced_pick(s, len, from).len(),
    decreases s.len(),
{
    if s.len() == 0 {
        if t.len() > 0 {
            assert(s.contains(t[0]));
        }
    } else {
        let s1 = s.drop_first();
        if s[0] < from {
            assert forall|k: int| 0 <= k < t.len() implies s1.contains(#[trigger] t[k]) by {
                assert(s.contains(t[k]));
                let a = choose|a: int| 0 <= a < s.len() && s[a] == t[k];
                assert(a != 0);
                assert(s1[a - 1] == t[k]);
            }
            lemma_pick_optimal(s1, len, from, t);
        } else if t.len() > 0 {
            let t1 = t.drop_first();
            assert(s.contains(t[0]));
            let a0 = choose|a: int| 0 <= a < s.len() && s[a] == t[0];
            assert(s[0] <= s[a0]);
            if t.len() > 1 {
                assert(gap_fits(t, 0, len));
            }
            assert forall|k: int| 0 <= k < t1.len() implies #[trigger] t1[k] >= s[0] + len by {
                assert(t1[k] == t[k + 1]);
                assert(t[1] <= t[k + 1]);
            }
            assert forall|k: int| 0 <= k < t1.len() implies s1.contains(#[trigger] t1[k]) by {
                assert(t1[k] == t[k + 1]);
                assert(t[0] < t[k + 1]);
                assert(s.contains(t[k + 1]));
                let a = choose|a: int| 0 <= a < s.len() && s[a] == t[k + 1];
                assert(a != 0);
                assert(s1[a - 1] == t1[k]);
            }
            assert forall|i: int| 0 <= i < t1.len() - 1 implies #[trigger] gap_fits(t1, i, len) by {
                assert(gap_fits(t, i + 1, len));
            }
            lemma_pick_optimal(s1, len, s[0] + len, t1);
        }
    }
}

// ---------------------------------------------------------------------------
// What the grown candidates are

/// `r` was found by growing `groups` forwards from `len`: at least two of the
/// starts, in order, that agree on the bytes from `len` to `r.0`, whose runs of
/// `r.0` bytes fit in the input and do not overlap.
pub open spec fn forward_grown(input: Seq<u8>, len: nat, groups: Seq<usize>, r: (nat, Seq<usize>)) -> bool {
    &&& r.1.len() >= 2
    &&& r.0 >= len
    &&& sorted(r.1)
    &&& forall|i: int| 0 <= i < r.1.len() ==> groups.contains(#[trigger] r.1[i])
    &&& forall|i: int| 0 <= i < r.1.len() ==> #[trigger] r.1[i] + r.0 < input.len()
    &&& shares(input, r.1, len as int, r.0 as int)
    &&& spaced(r.1, r.0)
    &&& strictly_sorted(groups) ==> strictly_sorted(r.1)
}

/// `r` was found by growing `groups` backwards from `len`: each of its (at
/// least two) starts lies `r.0 - len` bytes before one of `groups`, they agree
/// on the `r.0 - len` bytes before those, and their runs of `r.0` bytes do not
/// overlap.
pub open spec fn backward_grown(input: Seq<u8>, len: nat, groups: Seq<usize>, r: (nat, Seq<usize>)) -> bool {
    &&& r.1.len() >= 2
    &&& r.0 >= len
    &&& sorted(r.1)
    &&& forall|i: int| 0 <= i < r.1.len() ==> has(groups, #[trigger] r.1[i] + (r.0 - len))
    &&& shares(input, r.1, 0, r.0 - len)
    &&& spaced(r.1, r.0)
    &&& strictly_sorted(groups) ==> strictly_sorted(r.1)
}

/// Growing forwards only ever returns a candidate found by growing forwards.
pub proof fn lemma_forwards(input: Seq<u8>, len: nat, groups: Seq<usize>)
    requires
        sorted(groups),
    ensures
        spec_grow_forwards(input, len, groups) matches Some(r) ==> forward_grown(input, len, groups, r),
    decreases input.len() - len, 257int,
{
    if groups.len() >= 2 && groups.last() + len < input.len() {
        lemma_spaced_pick(groups, len, 0);
        let p = spaced_pick(groups, len, 0);
        assert forall|i: int| 0 <= i < p.len() implies #[trigger] p[i] + len < input.len() by {
            assert(groups.contains(p[i]));
            let a = choose|a: int| 0 <= a < groups.len() && groups[a] == p[i];
            assert(groups[a] <= groups[groups.len() - 1]);
        }
        lemma_forwards_from(input, len, groups, 0, node_candidate(len, groups));
    }
}

proof fn lemma_forwards_from(
    input: Seq<u8>,
    len: nat,
    groups: Seq<usize>,
    b: nat,
    best: Option<(nat, Seq<usize>)>,
)
    requires
        sorted(groups),
        best matches Some(x) ==> forward_grown(input, len, groups, x),
    ensures
        forwards_from_byte(input, len, groups, b, best) matches Some(r) ==> forward_grown(input, len, groups, r),
    decreases input.len() - len, 256 - b,
{
    if b < 256 && len < input.len() {
        let child = next_byte_class(input, groups, len, b as u8);
        lemma_next_class(input, groups, len, b as u8);
        lemma_forwards(input, len + 1, child);
        if let Some(c) = spec_grow_forwards(input, len + 1, child) {
            lemma_forward_lift(input, len, groups, b as u8, c);
        }
        lemma_forwards_from(input, len, groups, b + 1, better(best, spec_grow_forwards(input, len + 1, child)));
    }
}

/// A candidate grown from a next-byte class was grown from the whole group.
proof fn lemma_forward_lift(input: Seq<u8>, len: nat, groups: Seq<usize>, b: u8, c: (nat, Seq<usize>))
    requires
        forward_grown(input, len + 1, next_byte_class(input, groups, len, b), c),
    ensures
        forward_grown(input, len, groups, c),
{
    let child = next_byte_class(input, groups, len, b);
    lemma_next_class(input, groups, len, b);
    assert forall|i: int| 0 <= i < c.1.len() implies groups.contains(#[trigger] c.1[i]) by {
        assert(child.contains(c.1[i]));
    }
    assert forall|i: int, j: int, k: int|
        0 <= i < c.1.len() && 0 <= j < c.1.len() && len <= k < c.0 implies #[trigger] input[c.1[i] + k]
            == #[trigger] input[c.1[j] + k] by {
        if k == len {
            assert(child.contains(c.1[i]));
            assert(child.contains(c.1[j]));
            let a = choose|a: int| 0 <= a < child.len() && child[a] == c.1[i];
            let a2 = choose|a2: int| 0 <= a2 < child.len() && child[a2] == c.1[j];
            assert(input[child[a] + len] == b);
            assert(input[child[a2] + len] == b);
        }
    }
}

/// A candidate grown from a previous-byte class was grown from the whole group.
proof fn lemma_backward_lift(input: Seq<u8>, len: nat, groups: Seq<usize>, b: u8, c: (nat, Seq<usize>))
    requires
        sorted_positive(groups),
        backward_grown(input, len + 1, prev_byte_class(input, groups, b), c),
    ensures
        backward_grown(input, len, groups, c),
{
    let child = prev_byte_class(input, groups, b);
    lemma_prev_class(input, groups, b);
    let d = c.0 - len - 1;
    assert forall|i: int| 0 <= i < c.1.len() implies has(groups, #[trigger] c.1[i] + (c.0 - len)) by {
        assert(has(child, c.1[i] + d));
        let a = choose|a: int| 0 <= a < child.len() && child[a] as int == c.1[i] + d;
        assert(has(groups, child[a] + 1));
    }
    assert forall|i: int, j: int, k: int|
        0 <= i < c.1.len() && 0 <= j < c.1.len() && 0 <= k < c.0 - len implies #[trigger] input[c.1[i] + k]
            == #[trigger] input[c.1[j] + k] by {
        if k == d {
            assert(has(child, c.1[i] + d));
            assert(has(child, c.1[j] + d));
            let a = choose|a: int| 0 <= a < child.len() && child[a] as int == c.1[i] + d;
            let a2 = choose|a2: int| 0 <= a2 < child.len() && child[a2] as int == c.1[j] + d;
            assert(input[child[a] as int] == b);
            assert(input[child[a2] as int] == b);
        }
    }
}

/// Growing backwards only ever returns a candidate found by growing backwards.
pub proof fn lemma_backwards(input: Seq<u8>, len: nat, groups: Seq<usize>)
    requires
        sorted(groups),
    ensures
        spec_grow_backwards(input, len, groups) matches Some(r) ==> backward_grown(input, len, groups, r),
    decreases (if groups.len() > 0 { groups.last() as int } else { 0 }), 257int,
{
    if groups.len() >= 2 && groups[0] != 0 {
        lemma_spaced_pick(groups, len, 0);
        let p = spaced_pick(groups, len, 0);
        assert forall|i: int| 0 <= i < p.len() implies has(groups, #[trigger] p[i] + (len - len)) by {
            assert(groups.contains(p[i]));
        }
        lemma_backwards_from(input, len, groups, 0, node_candidate(len, groups));
    }
}

proof fn lemma_backwards_from(
    input: Seq<u8>,
    len: nat,
    groups: Seq<usize>,
    b: nat,
    best: Option<(nat, Seq<usize>)>,
)
    requires
        sorted(groups),
        best matches Some(x) ==> backward_grown(input, len, groups, x),
    ensures
        backwards_from_byte(input, len, groups, b, best) matches Some(r) ==> backward_grown(
            input,
            len,
            groups,
            r,
        ),
    decreases (if groups.len() > 0 { groups.last() as int } else { 0 }), 256 - b,
{
    if b < 256 && groups.len() >= 2 && sorted_positive(groups) {
        let child = prev_byte_class(input, groups, b as u8);
        lemma_prev_class(input, groups, b as u8);
        let cand = if child.len() >= 2 {
            spec_grow_backwards(input, len + 1, child)
        } else {
            None
        };
        if child.len() >= 2 {
            lemma_backwards(input, len + 1, child);
        }
        if let Some(c) = cand {
            lemma_backward_lift(input, len, groups, b as u8, c);
        }
        lemma_backwards_from(input, len, groups, b + 1, better(best, cand));
    }
}

// ---------------------------------------------------------------------------
// The scans keep the widest candidate

/// Scanning never loses the volume of the candidate it starts from.
proof fn lemma_forward_keeps(input: Seq<u8>, len: nat, groups: Seq<usize>, b: nat, best: Option<(nat, Seq<usize>)>)
    ensures
        opt_vol(forwards_from_byte(input, len, groups, b, best)) >= opt_vol(best),
    decreases 256 - b,
{
    if b < 256 && len < input.len() {
        let child = next_byte_class(input, groups, len, b as u8);
        lemma_forward_keeps(input, len, groups, b + 1, better(best, spec_grow_forwards(input, len + 1, child)));
    }
}

/// Scanning from byte `b` keeps the volume of what growing the class of any
/// later byte `c` gives.
proof fn lemma_forward_scan(
    input: Seq<u8>,
    len: nat,
    groups: Seq<usize>,
    b: nat,
    best: Option<(nat, Seq<usize>)>,
    c: nat,
)
    requires
        b <= c < 256,
        len < input.len(),
    ensures
        opt_vol(forwards_from_byte(input, len, groups, b, best)) >= opt_vol(
            spec_grow_forwards(input, len + 1, next_byte_class(input, groups, len, c as u8)),
        ),
    decreases 256 - b,
{
    let child = next_byte_class(input, groups, len, b as u8);
    let next = better(best, spec_grow_forwards(input, len + 1, child));
    if b == c {
        lemma_forward_keeps(input, len, groups, b + 1, next);
    } else {
        lemma_forward_scan(input, len, groups, b + 1, next, c);
    }
}

/// Scanning never loses the volume of the candidate it starts from.
proof fn lemma_backward_keeps(input: Seq<u8>, len: nat, groups: Seq<usize>, b: nat, best: Option<(nat, Seq<usize>)>)
    ensures
        opt_vol(backwards_from_byte(input, len, groups, b, best)) >= opt_vol(best),
    decreases 256 - b,
{
    if b < 256 && groups.len() >= 2 && sorted_positive(groups) {
        let child = prev_byte_class(input, groups, b as u8);
        let cand = if child.len() >= 2 {
            spec_grow_backwards(input, len + 1, child)
        } else {
            None
        };
        lemma_backward_keeps(input, len, groups, b + 1, better(best, cand));
    }
}

/// Scanning from byte `b` keeps the volume of what growing the class of any
/// later byte `c` gives, when that class has two starts or more.
proof fn lemma_backward_scan(
    input: Seq<u8>,
    len: nat,
    groups: Seq<usize>,
    b: nat,
    best: Option<(nat, Seq<usize>)>,
    c: nat,
)
    requires
        b <= c < 256,
        groups.len() >= 2,
        sorted_positive(groups),
        prev_byte_class(input, groups, c as u8).len() >= 2,
    ensures
        opt_vol(backwards_from_byte(input, len, groups, b, best)) >= opt_vol(
            spec_grow_backwards(input, len + 1, prev_byte_class(input, groups, c as u8)),
        ),
    decreases 256 - b,
{
    let child = prev_byte_class(input, groups, b as u8);
    let cand = if child.len() >= 2 {
        spec_grow_backwards(input, len + 1, child)
    } else {
        None
    };
    let next = better(best, cand);
    if b == c {
        lemma_backward_keeps(input, len, groups, b + 1, next);
    } else {
        lemma_backward_scan(input, len, groups, b + 1, next, c);
    }
}

/// `t` is a set of at least two of the starts `groups` (in ascending order)
/// whose runs of `l >= len` bytes all agree from offset `len` on, do not
/// overlap, and lie before the end of the input as the last start's does.
pub open spec fn fwd_repeat(input: Seq<u8>, len: nat, groups: Seq<usize>, l: nat, t: Seq<usize>) -> bool {
    &&& l >= len
    &&& groups.len() > 0
    &&& groups.last() + l < input.len()
    &&& t.len() >= 2
    &&& strictly_sorted(t)
    &&& forall|k: int| 0 <= k < t.len() ==> groups.contains(#[trigger] t[k])
    &&& spaced(t, l)
    &&& shares(input, t, len as int, l as int)
}

/// `t` is a set of at least two starts (in ascending order), each `d` bytes
/// before one of the starts `groups` and after the beginning of the input as
/// the first start's is, that agree on those `d` bytes and whose runs of
/// `len + d` bytes do not overlap.
pub open spec fn bwd_repeat(input: Seq<u8>, len: nat, groups: Seq<usize>, d: nat, t: Seq<usize>) -> bool {
    &&& groups.len() > 0
    &&& d < groups[0]
    &&& t.len() >= 2
    &&& strictly_sorted(t)
    &&& forall|k: int| 0 <= k < t.len() ==> has(groups, #[trigger] t[k] + d)
    &&& spaced(t, len + d)
    &&& shares(input, t, 0, d as int)
}

/// Growing forwards finds the widest repeat: no set of starts whose runs grown
/// forwards agree and do not overlap covers more bytes than the result.
pub proof fn lemma_forwards_optimal(input: Seq<u8>, len: nat, groups: Seq<usize>, l: nat, t: Seq<usize>)
    requires
        sorted(groups),
        fwd_repeat(input, len, groups, l, t),
    ensures
        opt_vol(spec_grow_forwards(input, len, groups)) >= volume(l, t.len()),
    decreases l - len,
{
    assert(groups.contains(t[0]) && groups.contains(t[1]) && t[0] < t[1]);
    let a0 = choose|a: int| 0 <= a < groups.len() && groups[a] == t[0];
    let a1 = choose|a: int| 0 <= a < groups.len() && groups[a] == t[1];
    assert(groups.len() >= 2);
    assert(groups[a0] <= groups[groups.len() - 1]);
    if l == len {
        lemma_pick_optimal(groups, len, 0, t);
        let p = spaced_pick(groups, len, 0);
        assert(volume(len, t.len()) <= volume(len, p.len())) by (nonlinear_arith)
            requires
                t.len() <= p.len(),
        ;
        lemma_forward_keeps(input, len, groups, 0, node_candidate(len, groups));
    } else {
        let bt = input[t[0] + len];
        let child = next_byte_class(input, groups, len, bt);
        assert forall|k: int| 0 <= k < t.len() implies child.contains(#[trigger] t[k]) by {
            assert(input[t[k] + len] == input[t[0] + len]);
            lemma_next_class_keeps(input, groups, len, bt, t[k]);
        }
        lemma_next_class(input, groups, len, bt);
        assert(child.last() <= groups.last()) by {
            assert(child.contains(t[0]));
        }
        assert(shares(input, t, (len + 1) as int, l as int));
        assert(fwd_repeat(input, len + 1, child, l, t));
        lemma_forwards_optimal(input, len + 1, child, l, t);
        assert((bt as nat) as u8 == bt);
        lemma_forward_scan(input, len, groups, 0, node_candidate(len, groups), bt as nat);
    }
}

/// Growing backwards finds the widest repeat: no set of starts whose runs grown
/// backwards agree and do not overlap covers more bytes than the result.
pub proof fn lemma_backwards_optimal(input: Seq<u8>, len: nat, groups: Seq<usize>, d: nat, t: Seq<usize>)
    requires
        sorted(groups),
        bwd_repeat(input, len, groups, d, t),
    ensures
        opt_vol(spec_grow_backwards(input, len, groups)) >= volume(len + d, t.len()),
    decreases d,
{
    assert(has(groups, t[0] + d) && has(groups, t[1] + d) && t[0] < t[1]);
    let a0 = choose|a: int| 0 <= a < groups.len() && groups[a] as int == t[0] + d;
    let a1 = choose|a: int| 0 <= a < groups.len() && groups[a] as int == t[1] + d;
    assert(groups.len() >= 2);
    assert(sorted_positive(groups));
    if d == 0 {
        assert forall|k: int| 0 <= k < t.len() implies groups.contains(#[trigger] t[k]) by {
            assert(has(groups, t[k] + d));
            let a = choose|a: int| 0 <= a < groups.len() && groups[a] as int == t[k] + d;
            assert(groups[a] == t[k]);
        }
        lemma_pick_optimal(groups, len, 0, t);
        let p = spaced_pick(groups, len, 0);
        assert(volume(len, t.len()) <= volume(len, p.len())) by (nonlinear_arith)
            requires
                t.len() <= p.len(),
        ;
        lemma_backward_keeps(input, len, groups, 0, node_candidate(len, groups));
    } else {
        let bt = input[t[0] + d - 1];
        let child = prev_byte_class(input, groups, bt);
        let e = (d - 1) as nat;
        assert forall|k: int| 0 <= k < t.len() implies has(child, #[trigger] t[k] + e) by {
            assert(has(groups, t[k] + d));
            assert(input[t[k] + e] == input[t[0] + e]);
            lemma_prev_class_keeps(input, groups, bt, t[k] + d);
        }
        lemma_prev_class(input, groups, bt);
        assert(has(child, t[0] + e) && has(child, t[1] + e));
        let c0 = choose|a: int| 0 <= a < child.len() && child[a] as int == t[0] + e;
        let c1 = choose|a: int| 0 <= a < child.len() && child[a] as int == t[1] + e;
        assert(child.len() >= 2);
        assert(has(groups, child[0] + 1));
        let g0 = choose|a: int| 0 <= a < groups.len() && groups[a] as int == child[0] + 1;
        assert(groups[0] <= groups[g0]);
        assert(len + 1 + e == len + d);
        assert(bwd_repeat(input, len + 1, child, e, t));
        lemma_backwards_optimal(input, len + 1, child, e, t);
        assert((bt as nat) as u8 == bt);
        lemma_backward_scan(input, len, groups, 0, node_candidate(len, groups), bt as nat);
    }
}

/// Growing grows backwards from what growing forwards found, or from the
/// given starts when growing forwards finds nothing: in that case no set of
/// two or more non-overlapping starts lying the same `d` bytes before given
/// starts (with `d` smaller than the first start), agreeing on those bytes,
/// covers more bytes than the result. In particular the result is some
/// candidate whenever two given starts do not overlap and the first start is
/// not 0. When growing forwards finds a candidate, the same holds of the
/// starts and length it found.
pub proof fn lemma_grow_falls_back(input: Seq<u8>, len: nat, groups: Seq<usize>, d: nat, t: Seq<usize>)
    requires
        sorted(groups),
    ensures
        spec_grow_forwards(input, len, groups) is None && bwd_repeat(input, len, groups, d, t) ==> opt_vol(
            spec_grow(input, len, groups),
        ) >= volume(len + d, t.len()),
        spec_grow_forwards(input, len, groups) matches Some(f) ==> (bwd_repeat(input, f.0, f.1, d, t)
            ==> opt_vol(spec_grow(input, len, groups)) >= volume(f.0 + d, t.len())),
{
    lemma_forwards(input, len, groups);
    match spec_grow_forwards(input, len, groups) {
        Some(f) => {
            if bwd_repeat(input, f.0, f.1, d, t) {
                lemma_backwards_optimal(input, f.0, f.1, d, t);
            }
        },
        None => {
            if bwd_repeat(input, len, groups, d, t) {
                lemma_backwards_optimal(input, len, groups, d, t);
            }
        },
    }
}

/// Growing what growing forwards found keeps its bytes: the starts found
/// backwards carry the same bytes as the forward starts, extended to the left.
proof fn lemma_backward_extends(input: Seq<u8>, len: nat, groups: Seq<usize>, r: (nat, Seq<usize>))
    requires
        backward_grown(input, len, groups, r),
        fits(input, groups, len as int),
        shares(input, groups, 0, len as int),
    ensures
        fits(input, r.1, r.0 as int),
        shares(input, r.1, 0, r.0 as int),
{
    let d = r.0 - len;
    assert forall|i: int| 0 <= i < r.1.len() implies #[trigger] r.1[i] + r.0 <= input.len() by {
        assert(has(groups, r.1[i] + d));
        let a = choose|a: int| 0 <= a < groups.len() && groups[a] as int == r.1[i] + d;
        assert(groups[a] + len <= input.len());
    }
    assert forall|i: int, j: int, k: int|
        0 <= i < r.1.len() && 0 <= j < r.1.len() && 0 <= k < r.0 implies #[trigger] input[r.1[i] + k]
            == #[trigger] input[r.1[j] + k] by {
        if k >= d {
            assert(has(groups, r.1[i] + d));
            assert(has(groups, r.1[j] + d));
            let a = choose|a: int| 0 <= a < groups.len() && groups[a] as int == r.1[i] + d;
            let a2 = choose|a2: int| 0 <= a2 < groups.len() && groups[a2] as int == r.1[j] + d;
            assert(input[groups[a] + (k - d)] == input[groups[a2] + (k - d)]);
        }
    }
}

/// Growing finds repeats: given starts in ascending order that are all
/// followed by the same `len` bytes, a result of `grow` is at least two starts
/// in ascending order, all followed by the same `r.0 >= len` bytes of input,
/// whose runs of `r.0` bytes do not overlap.
pub proof fn lemma_grow_finds_repeats(input: Seq<u8>, len: nat, groups: Seq<usize>)
    requires
        sorted(groups),
        fits(input, groups, len as int),
        shares(input, groups, 0, len as int),
    ensures
        spec_grow(input, len, groups) matches Some(r) ==> {
            &&& r.1.len() >= 2
            &&& r.0 >= len
            &&& sorted(r.1)
            &&& fits(input, r.1, r.0 as int)
            &&& shares(input, r.1, 0, r.0 as int)
            &&& spaced(r.1, r.0)
            &&& strictly_sorted(groups) ==> strictly_sorted(r.1)
        },
{
    lemma_forwards(input, len, groups);
    match spec_grow_forwards(input, len, groups) {
        Some(f) => {
            assert forall|i: int| 0 <= i < f.1.len() implies #[trigger] f.1[i] + f.0 <= input.len() by {}
            assert forall|i: int, j: int, k: int|
                0 <= i < f.1.len() && 0 <= j < f.1.len() && 0 <= k < f.0 implies #[trigger] input[f.1[i] + k]
                    == #[trigger] input[f.1[j] + k] by {
                if k < len {
                    assert(groups.contains(f.1[i]));
                    assert(groups.contains(f.1[j]));
                    let a = choose|a: int| 0 <= a < groups.len() && groups[a] == f.1[i];
                    let a2 = choose|a2: int| 0 <= a2 < groups.len() && groups[a2] == f.1[j];
                    assert(input[groups[a] + k] == input[groups[a2] + k]);
                }
            }
            lemma_backwards(input, f.0, f.1);
            if let Some(r) = spec_grow_backwards(input, f.0, f.1) {
                lemma_backward_extends(input, f.0, f.1, r);
            }
        },
        None => {
            lemma_backwards(input, len, groups);
            if let Some(r) = spec_grow_backwards(input, len, groups) {
                lemma_backward_extends(input, len, groups, r);
            }
        },
    }
}

// ---------------------------------------------------------------------------
// Executable code

/// The volume `len * count`, computed without overflow.
fn volume_of(len: usize, count: usize) -> (v: u128)
    ensures
        v == volume(len as nat, count as nat),
{
    assert(len as int * count as int <= 0xffff_ffff_ffff_ffffu64 as int * 0xffff_ffff_ffff_ffffu64 as int)
        by (nonlinear_arith)
        requires
            len <= 0xffff_ffff_ffff_ffffu64,
            count <= 0xffff_ffff_ffff_ffffu64,
    ;
    (len as u128) * (count as u128)
}

/// The starts of `groups` that a left-to-right scan keeps so that their runs
/// of `len` bytes do not overlap, as `spaced_pick` describes.
fn spaced_starts(groups: &[usize], len: usize) -> (r: Vec<usize>)
    requires
        forall|i: int| 0 <= i < groups.len() ==> groups[i] + len <= usize::MAX,
    ensures
        r@ == spaced_pick(groups@, len as nat, 0),
{
    let ghost n = groups.len() as int;
    let mut r: Vec<usize> = Vec::new();
    let mut next: usize = 0;
    let mut i: usize = 0;
    assert(groups@.subrange(0, n) == groups@);
    while i < groups.len()
        invariant
            i <= groups.len(),
            n == groups.len(),
            forall|k: int| 0 <= k < groups.len() ==> groups[k] + len <= usize::MAX,
            r@ + spaced_pick(groups@.subrange(i as int, n), len as nat, next as int) == spaced_pick(
                groups@,
                len as nat,
                0,
            ),
        decreases groups.len() - i,
    {
        let g = groups[i];
        let ghost rest = groups@.subrange(i + 1, n);
        assert(groups@.subrange(i as int, n).drop_first() == rest);
        assert(groups@.subrange(i as int, n)[0] == g);
        if g >= next {
            let ghost before = r@;
            r.push(g);
            next = g + len;
            assert(before + (seq![g] + spaced_pick(rest, len as nat, next as int)) == r@ + spaced_pick(
                rest,
                len as nat,
                next as int,
            ));
        }
        i += 1;
    }
    assert(groups@.subrange(n, n) == Seq::<usize>::empty());
    assert(r@ + Seq::<usize>::empty() == r@);
    r
}

/// The starts of `groups` (kept in order) whose byte at offset `len` is `b`.
fn next_class(input: &[u8], groups: &[usize], len: usize, b: u8) -> (r: Vec<usize>)
    requires
        forall|i: int| 0 <= i < groups.len() ==> groups[i] + len < input.len(),
    ensures
        r@ == next_byte_class(input@, groups@, len as nat, b),
{
    let mut r: Vec<usize> = Vec::new();
    let mut i: usize = 0;
    while i < groups.len()
        invariant
            i <= groups.len(),
            forall|k: int| 0 <= k < groups.len() ==> groups[k] + len < input.len(),
            r@ == next_byte_class(input@, groups@.take(i as int), len as nat, b),
        decreases groups.len() - i,
    {
        let g = groups[i];
        assert(groups@.take(i + 1).drop_last() == groups@.take(i as int));
        if input[g + len] == b {
            r.push(g);
        }
        i += 1;
    }
    assert(groups@.take(groups.len() as int) == groups@);
    r
}

/// The starts of `groups` (kept in order) preceded by the byte `b`, each moved
/// one position to the left.
fn prev_class(input: &[u8], groups: &[usize], b: u8) -> (r: Vec<usize>)
    requires
        forall|i: int| 0 <= i < groups.len() ==> 1 <= #[trigger] groups[i] <= input.len(),
    ensures
        r@ == prev_byte_class(input@, groups@, b),
{
    let mut r: Vec<usize> = Vec::new();
    let mut i: usize = 0;
    while i < groups.len()
        invariant
            i <= groups.len(),
            forall|k: int| 0 <= k < groups.len() ==> 1 <= #[trigger] groups[k] <= input.len(),
            r@ == prev_byte_class(input@, groups@.take(i as int), b),
        decreases groups.len() - i,
    {
        let g = groups[i];
        assert(groups@.take(i + 1).drop_last() == groups@.take(i as int));
        if input[g - 1] == b {
            r.push(g - 1);
        }
        i += 1;
    }
    assert(groups@.take(groups.len() as int) == groups@);
    r
}

/// Grows the common run that follows the starts `og_groups` (all followed by
/// the same `current_len` bytes) to the right, and returns the length and the
/// non-overlapping starts of the candidate that covers the most bytes, as
/// `spec_grow_forwards` describes: at least two of the starts, agreeing on
/// the bytes grown, whose runs do not overlap. Starts are given in ascending
/// order. No set of the starts whose runs, grown to the right, agree and do
/// not overlap covers more bytes than the result.
pub fn grow_forwards(current_len: usize, og_groups: &[usize], input: &[u8]) -> (r: Option<(usize, Vec<usize>)>)
    requires
        sorted(og_groups@),
        og_groups.len() >= 2 ==> og_groups[og_groups.len() - 1] + current_len <= usize::MAX,
    ensures
        opt_view(r) == spec_grow_forwards(input@, current_len as nat, og_groups@),
        opt_view(r) matches Some(p) ==> forward_grown(input@, current_len as nat, og_groups@, p),
        forall|l: nat, t: Seq<usize>|
            #[trigger] fwd_repeat(input@, current_len as nat, og_groups@, l, t) ==> opt_vol(opt_view(r))
                >= volume(l, t.len()),
    decreases input.len() - current_len,
{
    proof {
        lemma_forwards(input@, current_len as nat, og_groups@);
        assert forall|l: nat, t: Seq<usize>|
            #[trigger] fwd_repeat(input@, current_len as nat, og_groups@, l, t) implies opt_vol(
            spec_grow_forwards(input@, current_len as nat, og_groups@),
        ) >= volume(l, t.len()) by {
            lemma_forwards_optimal(input@, current_len as nat, og_groups@, l, t);
        }
    }
    if og_groups.len() < 2 {
        return None;
    }
    // check if we've hit the end of the input
    let last = og_groups[og_groups.len() - 1];
    if last + current_len >= input.len() {
        return None;
    }
    assert(og_groups@.last() == last);
    assert forall|i: int| 0 <= i < og_groups.len() implies og_groups[i] + current_len < input.len() by {
        assert(og_groups[i] <= og_groups[og_groups.len() - 1]);
    }
    let ghost g = og_groups@;
    let ghost n = input@;
    let ghost cl = current_len as nat;
    let pick = spaced_starts(og_groups, current_len);
    let pick_len = pick.len();
    let mut vol_to_beat = volume_of(current_len, pick_len);
    let mut best: Option<(usize, Vec<usize>)> = if pick_len >= 2 {
        Some((current_len, pick))
    } else {
        None
    };
    assert(opt_view(best) == node_candidate(cl, g));
    let mut b: u16 = 0;
    while b < 256
        invariant
            b <= 256,
            g == og_groups@,
            n == input@,
            cl == current_len,
            sorted(g),
            g.len() >= 2,
            last == g.last(),
            last + current_len < input.len(),
            forall|i: int| 0 <= i < og_groups.len() ==> og_groups[i] + current_len < input.len(),
            forwards_from_byte(n, cl, g, b as nat, opt_view(best)) == forwards_from_byte(
                n,
                cl,
                g,
                0,
                node_candidate(cl, g),
            ),
            best is Some ==> vol_to_beat == opt_vol(opt_view(best)),
        decreases 256 - b,
    {
        let idxs = next_class(input, og_groups, current_len, b as u8);
        proof {
            lemma_next_class(n, g, cl, b as u8);
        }
        let ghost cand = spec_grow_forwards(n, cl + 1, idxs@);
        let ghost before = opt_view(best);
        if idxs.len() >= 2 {
            assert(idxs@.last() <= last);
            let grewed = grow_forwards(current_len + 1, idxs.as_slice(), input);
            if let Some((grewed_len, grew_groups)) = grewed {
                let new_vol = volume_of(grewed_len, grew_groups.len());
                if best.is_none() || new_vol > vol_to_beat {
                    vol_to_beat = new_vol;
                    best = Some((grewed_len, grew_groups));
                }
            }
        }
        assert(opt_view(best) == better(before, cand));
        assert(forwards_from_byte(n, cl, g, b as nat, before) == forwards_from_byte(
            n,
            cl,
            g,
            b as nat + 1,
            better(before, cand),
        ));
        b += 1;
    }
    best
}

/// Grows the common run that follows the starts `og_groups` (all followed by
/// the same `current_len` bytes) to the left, and returns the length and the
/// non-overlapping starts of the candidate that covers the most bytes, as
/// `spec_grow_backwards` describes: at least two starts, each as many bytes
/// before one of `og_groups` as the run grew, agreeing on those bytes, whose
/// runs do not overlap. Starts are given in ascending order. No
/// set of starts, each some bytes before one of `og_groups`, whose runs grown
/// to the left agree and do not overlap covers more bytes than the result.
pub fn grow_backwards(current_len: usize, og_groups: &[usize], input: &[u8]) -> (r: Option<(usize, Vec<usize>)>)
    requires
        sorted(og_groups@),
        og_groups.len() >= 2 && og_groups[0] != 0 ==> og_groups[og_groups.len() - 1] <= input.len(),
        og_groups.len() >= 2 && og_groups[0] != 0 ==> current_len + og_groups[og_groups.len() - 1]
            <= usize::MAX,
    ensures
        opt_view(r) == spec_grow_backwards(input@, current_len as nat, og_groups@),
        opt_view(r) matches Some(p) ==> backward_grown(input@, current_len as nat, og_groups@, p),
        forall|d: nat, t: Seq<usize>|
            #[trigger] bwd_repeat(input@, current_len as nat, og_groups@, d, t) ==> opt_vol(opt_view(r))
                >= volume(current_len as nat + d, t.len()),
    decreases (if og_groups.len() > 0 { og_groups[og_groups.len() - 1] as int } else { 0 }),
{
    proof {
        lemma_backwards(input@, current_len as nat, og_groups@);
        assert forall|d: nat, t: Seq<usize>|
            #[trigger] bwd_repeat(input@, current_len as nat, og_groups@, d, t) implies opt_vol(
            spec_grow_backwards(input@, current_len as nat, og_groups@),
        ) >= volume(current_len as nat + d, t.len()) by {
            lemma_backwards_optimal(input@, current_len as nat, og_groups@, d, t);
        }
    }
    if og_groups.len() < 2 {
        return None;
    }
    // check if we've hit the start of the input
    let first = og_groups[0];
    if first == 0 {
        return None;
    }
    let last = og_groups[og_groups.len() - 1];
    assert(og_groups@.last() == last);
    assert forall|i: int| 0 <= i < og_groups.len() implies 1 <= #[trigger] og_groups[i] <= input.len() by {
        assert(og_groups[0] <= og_groups[i] <= og_groups[og_groups.len() - 1]);
    }
    let ghost g = og_groups@;
    let ghost n = input@;
    let ghost cl = current_len as nat;
    assert(sorted_positive(g));
    let pick = spaced_starts(og_groups, current_len);
    let pick_len = pick.len();
    let mut vol_to_beat = volume_of(current_len, pick_len);
    let mut best: Option<(usize, Vec<usize>)> = if pick_len >= 2 {
        Some((current_len, pick))
    } else {
        None
    };
    assert(opt_view(best) == node_candidate(cl, g));
    let mut b: u16 = 0;
    while b < 256
        invariant
            b <= 256,
            g == og_groups@,
            n == input@,
            cl == current_len,
            sorted_positive(g),
            g.len() >= 2,
            last == g.last(),
            current_len + last <= usize::MAX,
            last <= input.len(),
            forall|i: int| 0 <= i < og_groups.len() ==> 1 <= #[trigger] og_groups[i] <= input.len(),
            backwards_from_byte(n, cl, g, b as nat, opt_view(best)) == backwards_from_byte(
                n,
                cl,
                g,
                0,
                node_candidate(cl, g),
            ),
            best is Some ==> vol_to_beat == opt_vol(opt_view(best)),
        decreases 256 - b,
    {
        let idxs = prev_class(input, og_groups, b as u8);
        proof {
            lemma_prev_class(n, g, b as u8);
        }
        let ghost cand = if idxs@.len() >= 2 {
            spec_grow_backwards(n, cl + 1, idxs@)
        } else {
            None
        };
        let ghost before = opt_view(best);
        if idxs.len() >= 2 {
            assert(idxs@.last() < last);
            assert(idxs@.last() == idxs[idxs.len() - 1]);
            let grewed = grow_backwards(current_len + 1, idxs.as_slice(), input);
            if let Some((grewed_len, grew_groups)) = grewed {
                let new_vol = volume_of(grewed_len, grew_groups.len());
                if best.is_none() || new_vol > vol_to_beat {
                    vol_to_beat = new_vol;
                    best = Some((grewed_len, grew_groups));
                }
            }
        }
        assert(opt_view(best) == better(before, cand));
        assert(backwards_from_byte(n, cl, g, b as nat, before) == backwards_from_byte(
            n,
            cl,
            g,
            b as nat + 1,
            better(before, cand),
        ));
        b += 1;
    }
    best
}

/// Grows the common run that follows the starts `og_groups` forwards, then
/// grows the result (or, when growing forwards found nothing, the given
/// starts) backwards, as `spec_grow` describes.
pub fn grow(current_len: usize, og_groups: &[usize], input: &[u8]) -> (r: Option<(usize, Vec<usize>)>)
    requires
        sorted(og_groups@),
        og_groups.len() >= 2 ==> og_groups[og_groups.len() - 1] + current_len <= usize::MAX,
        og_groups.len() >= 2 && og_groups[0] != 0 ==> og_groups[og_groups.len() - 1] <= input.len(),
    ensures
        opt_view(r) == spec_grow(input@, current_len as nat, og_groups@),
{
    let res = grow_forwards(current_len, og_groups, input);
    proof {
        lemma_forwards(input@, current_len as nat, og_groups@);
    }
    match res {
        Some((len, groups)) => {
            assert(groups@.last() == groups[groups.len() - 1]);
            assert(groups[groups.len() - 1] + len < input.len());
            grow_backwards(len, groups.as_slice(), input)
        },
        None => grow_backwards(current_len, og_groups, input),
    }
}

} // verus!
