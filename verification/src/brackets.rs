//! Trimming a string so that its angle brackets are level.
use vstd::prelude::*;
use vstd::string::StringSliceAdditionalSpecFns;
use vstd::utf8::*;

verus! {

/// The state of the bracket scan after the first `k` bytes: the positions of
/// the `<` still open (innermost last), and the inside `(begin, end)` of the
/// widest pair `<..>` closed so far, a later pair winning a tie.
pub open spec fn bracket_scan(bytes: Seq<u8>, k: nat) -> (Seq<usize>, (usize, usize))
    decreases k,
{
    if k == 0 {
        (seq![], (0, 0))
    } else {
        let prev = bracket_scan(bytes, (k - 1) as nat);
        let stack = prev.0;
        let span = prev.1;
        let i = (k - 1) as usize;
        if bytes[i as int] == 0x3c {
            (stack.push(i), span)
        } else if bytes[i as int] == 0x3e && stack.len() > 0 {
            let val = stack.last();
            let span2 = if span.1 - span.0 < i - val {
                ((val + 1) as usize, i)
            } else {
                span
            };
            (stack.drop_last(), span2)
        } else {
            (stack, span)
        }
    }
}

/// The inside of the widest matched pair of angle brackets (the last one
/// closed among the widest).
pub open spec fn widest_span(bytes: Seq<u8>) -> (usize, usize) {
    bracket_scan(bytes, bytes.len()).1
}

/// The position just after the last `>` among the first `k` bytes that
/// closes no `<`, or 0 when there is none.
pub open spec fn unmatched_close_end(bytes: Seq<u8>, k: nat) -> nat
    decreases k,
{
    if k == 0 {
        0
    } else if bytes[k - 1] == 0x3e && bracket_scan(bytes, (k - 1) as nat).0.len() == 0 {
        k
    } else {
        unmatched_close_end(bytes, (k - 1) as nat)
    }
}

/// The end of the level part after `k` bytes: the first `<` still open, or `k`.
pub open spec fn open_start(stack: Seq<usize>, k: int) -> int {
    if stack.len() > 0 {
        stack[0] as int
    } else {
        k
    }
}

/// The bytes between the last `>` that closes nothing and the first `<` that
/// is never closed.
pub open spec fn level_part(bytes: Seq<u8>) -> Seq<u8> {
    bytes.subrange(
        unmatched_close_end(bytes, bytes.len()) as int,
        open_start(bracket_scan(bytes, bytes.len()).0, bytes.len() as int),
    )
}

/// What `trim_bracket` gives, as bytes: the inside of the widest matched
/// pair when it is not empty; otherwise the input without its unmatched
/// brackets at either end, that is the bytes between the last `>` that closes
/// nothing and the first `<` that is never closed.
pub open spec fn trim_bracket_bytes(bytes: Seq<u8>) -> Seq<u8> {
    let span = widest_span(bytes);
    if span.1 - span.0 > 0 {
        bytes.subrange(span.0 as int, span.1 as int)
    } else {
        level_part(bytes)
    }
}

/// The nesting change of one byte: `<` opens, `>` closes.
pub open spec fn bracket_step(c: u8) -> int {
    if c == 0x3c {
        1
    } else if c == 0x3e {
        -1
    } else {
        0
    }
}

/// The number of `<` minus the number of `>`.
pub open spec fn depth(s: Seq<u8>) -> int
    decreases s.len(),
{
    if s.len() == 0 {
        0
    } else {
        depth(s.drop_last()) + bracket_step(s.last())
    }
}

/// The brackets are level: no prefix closes more than it opens, and the whole
/// opens as many as it closes.
pub open spec fn level(s: Seq<u8>) -> bool {
    &&& depth(s) == 0
    &&& forall|k: int| 0 <= k <= s.len() ==> depth(#[trigger] s.take(k)) >= 0
}

/// The end of the segment that follows the open bracket `stack[t]`.
pub open spec fn segment_end(stack: Seq<usize>, t: int, k: int) -> int {
    if t + 1 < stack.len() {
        stack[t + 1] as int
    } else {
        k
    }
}

/// What holds of the scan state after `k` bytes.
pub open spec fn scan_inv(bytes: Seq<u8>, k: int, stack: Seq<usize>, span: (usize, usize)) -> bool {
    &&& forall|t: int| 0 <= t < stack.len() ==> #[trigger] stack[t] < k && bytes[stack[t] as int] == 0x3c
    &&& forall|t: int| 0 <= t < stack.len() - 1 ==> #[trigger] stack[t] < stack[t + 1]
    &&& forall|t: int|
        0 <= t < stack.len() ==> level(
            #[trigger] bytes.subrange(stack[t] + 1, segment_end(stack, t, k)),
        )
    &&& span.0 <= span.1 <= k
    &&& span.1 - span.0 > 0 ==> {
        &&& span.0 >= 1
        &&& bytes[span.0 - 1] == 0x3c
        &&& span.1 < k
        &&& bytes[span.1 as int] == 0x3e
        &&& level(bytes.subrange(span.0 as int, span.1 as int))
    }
}

pub proof fn lemma_depth_append(a: Seq<u8>, b: Seq<u8>)
    ensures
        depth(a + b) == depth(a) + depth(b),
    decreases b.len(),
{
    if b.len() == 0 {
        assert(a + b == a);
    } else {
        lemma_depth_append(a, b.drop_last());
        assert((a + b).drop_last() == a + b.drop_last());
        assert((a + b).last() == b.last());
    }
}

pub proof fn lemma_level_append(a: Seq<u8>, b: Seq<u8>)
    requires
        level(a),
        level(b),
    ensures
        level(a + b),
{
    lemma_depth_append(a, b);
    assert forall|k: int| 0 <= k <= (a + b).len() implies depth(#[trigger] (a + b).take(k)) >= 0 by {
        if k <= a.len() {
            assert((a + b).take(k) == a.take(k));
        } else {
            assert((a + b).take(k) == a + b.take(k - a.len()));
            lemma_depth_append(a, b.take(k - a.len()));
        }
    }
}

pub proof fn lemma_level_push_plain(a: Seq<u8>, c: u8)
    requires
        level(a),
        c != 0x3c && c != 0x3e,
    ensures
        level(a.push(c)),
{
    assert(a.push(c).drop_last() == a);
    assert forall|k: int| 0 <= k <= a.push(c).len() implies depth(#[trigger] a.push(c).take(k)) >= 0 by {
        if k <= a.len() {
            assert(a.push(c).take(k) == a.take(k));
        } else {
            assert(a.push(c).take(k) == a.push(c));
        }
    }
}

pub proof fn lemma_level_wrap(a: Seq<u8>)
    requires
        level(a),
    ensures
        level(seq![0x3cu8] + a + seq![0x3eu8]),
{
    let o = seq![0x3cu8];
    let w = o + a + seq![0x3eu8];
    lemma_depth_append(o, a);
    assert(depth(o) == 1) by {
        assert(o.drop_last() =~= Seq::<u8>::empty());
        assert(depth(Seq::<u8>::empty()) == 0);
        assert(o.last() == 0x3c);
    }
    assert(w.drop_last() == o + a);
    assert forall|k: int| 0 <= k <= w.len() implies depth(#[trigger] w.take(k)) >= 0 by {
        if k == 0 {
            assert(w.take(k).len() == 0);
        } else if k <= a.len() + 1 {
            assert(w.take(k) == o + a.take(k - 1));
            lemma_depth_append(o, a.take(k - 1));
        } else {
            assert(w.take(k) == w);
        }
    }
}

/// The scan state satisfies `scan_inv`.
pub proof fn lemma_scan_inv(bytes: Seq<u8>, k: nat)
    requires
        k <= bytes.len(),
        bytes.len() <= usize::MAX,
    ensures
        scan_inv(bytes, k as int, bracket_scan(bytes, k).0, bracket_scan(bytes, k).1),
    decreases k,
{
    if k > 0 {
        let j = (k - 1) as nat;
        lemma_scan_inv(bytes, j);
        let prev = bracket_scan(bytes, j);
        let stack = prev.0;
        let span = prev.1;
        let i = j as usize;
        let c = bytes[i as int];
        let cur = bracket_scan(bytes, k);
        let m = stack.len() as int;
        if c == 0x3c {
            let ns = stack.push(i);
            assert forall|t: int| 0 <= t < ns.len() implies level(
                #[trigger] bytes.subrange(ns[t] + 1, segment_end(ns, t, k as int)),
            ) by {
                if t < m - 1 {
                    assert(segment_end(ns, t, k as int) == segment_end(stack, t, j as int));
                } else if t == m - 1 {
                    assert(segment_end(ns, t, k as int) == i);
                    assert(segment_end(stack, t, j as int) == j);
                } else {
                    assert(bytes.subrange(ns[t] + 1, segment_end(ns, t, k as int)).len() == 0);
                    assert(bytes.subrange(ns[t] + 1, segment_end(ns, t, k as int)).take(0) =~= seq![]);
                }
            }
            assert(ns[m] == i);
        } else if c == 0x3e && m > 0 {
            let val = stack.last();
            let ns = stack.drop_last();
            let inner = bytes.subrange(val + 1, j as int);
            assert(level(inner)) by {
                assert(segment_end(stack, m - 1, j as int) == j);
            }
            assert forall|t: int| 0 <= t < ns.len() implies level(
                #[trigger] bytes.subrange(ns[t] + 1, segment_end(ns, t, k as int)),
            ) by {
                if t < m - 2 {
                    assert(segment_end(ns, t, k as int) == segment_end(stack, t, j as int));
                } else {
                    // the segment of the new top absorbs the closed pair
                    let before = bytes.subrange(ns[t] + 1, val as int);
                    assert(segment_end(stack, t, j as int) == val);
                    assert(level(before));
                    lemma_level_wrap(inner);
                    lemma_level_append(before, seq![0x3cu8] + inner + seq![0x3eu8]);
                    assert(bytes.subrange(ns[t] + 1, k as int) =~= before + (seq![0x3cu8] + inner + seq![
                        0x3eu8,
                    ]));
                }
            }
        } else if m > 0 {
            assert forall|t: int| 0 <= t < stack.len() implies level(
                #[trigger] bytes.subrange(stack[t] + 1, segment_end(stack, t, k as int)),
            ) by {
                if t < m - 1 {
                    assert(segment_end(stack, t, k as int) == segment_end(stack, t, j as int));
                } else {
                    let seg = bytes.subrange(stack[t] + 1, j as int);
                    assert(segment_end(stack, t, j as int) == j);
                    lemma_level_push_plain(seg, c);
                    assert(bytes.subrange(stack[t] + 1, k as int) =~= seg.push(c));
                }
            }
        }
    }
}

pub proof fn lemma_level_empty(s: Seq<u8>)
    requires
        s.len() == 0,
    ensures
        level(s),
{
    assert forall|k: int| 0 <= k <= s.len() implies depth(#[trigger] s.take(k)) >= 0 by {
        assert(s.take(k).len() == 0);
    }
}

/// What holds of the part before the first open `<` after `k` bytes.
pub open spec fn low_inv(bytes: Seq<u8>, k: int, stack: Seq<usize>, low: int) -> bool {
    &&& 0 <= low <= open_start(stack, k) <= k
    &&& low > 0 ==> bytes[low - 1] == 0x3e
    &&& level(bytes.subrange(low, open_start(stack, k)))
}

/// The part between the last unmatched `>` and the first open `<` is level.
pub proof fn lemma_low_inv(bytes: Seq<u8>, k: nat)
    requires
        k <= bytes.len(),
        bytes.len() <= usize::MAX,
    ensures
        low_inv(bytes, k as int, bracket_scan(bytes, k).0, unmatched_close_end(bytes, k) as int),
    decreases k,
{
    if k == 0 {
        lemma_level_empty(bytes.subrange(0, 0));
    } else {
        let j = (k - 1) as nat;
        lemma_low_inv(bytes, j);
        lemma_scan_inv(bytes, j);
        let stack = bracket_scan(bytes, j).0;
        let low = unmatched_close_end(bytes, j) as int;
        let c = bytes[j as int];
        let ns = bracket_scan(bytes, k).0;
        if c == 0x3c {
            if stack.len() > 0 {
                assert(ns[0] == stack[0]);
            } else {
                assert(ns[0] == j);
            }
        } else if c == 0x3e && stack.len() > 0 {
            if stack.len() > 1 {
                assert(ns[0] == stack[0]);
                assert(stack[0] < stack[1]);
            } else {
                let s0 = stack[0] as int;
                let inner = bytes.subrange(s0 + 1, j as int);
                assert(segment_end(stack, 0, j as int) == j);
                assert(level(inner));
                lemma_level_wrap(inner);
                lemma_level_append(bytes.subrange(low, s0), seq![0x3cu8] + inner + seq![0x3eu8]);
                assert(bytes.subrange(low, k as int) =~= bytes.subrange(low, s0) + (seq![0x3cu8] + inner
                    + seq![0x3eu8]));
            }
        } else if c == 0x3e {
            lemma_level_empty(bytes.subrange(k as int, k as int));
        } else if stack.len() == 0 {
            lemma_level_push_plain(bytes.subrange(low, j as int), c);
            assert(bytes.subrange(low, k as int) =~= bytes.subrange(low, j as int).push(c));
        }
    }
}

/// Trimming leaves level brackets: whatever the input, no prefix of the
/// result closes more angle brackets than it opens, and the whole result opens
/// as many as it closes.
pub proof fn lemma_trimmed_is_level(bytes: Seq<u8>)
    requires
        bytes.len() <= usize::MAX,
    ensures
        level(trim_bracket_bytes(bytes)),
{
    lemma_scan_inv(bytes, bytes.len());
    lemma_low_inv(bytes, bytes.len());
}

/// In valid UTF-8, the byte after an ASCII byte starts a character.
proof fn lemma_boundary_after_ascii(bytes: Seq<u8>, j: int)
    requires
        valid_utf8(bytes),
        0 <= j < bytes.len(),
        is_leading_byte_width_1(bytes[j]),
    ensures
        is_char_boundary(bytes.subrange(j, bytes.len() as int), 1),
{
    let tail = bytes.subrange(j, bytes.len() as int);
    is_char_boundary_iff_not_is_continuation_byte(bytes, j);
    valid_utf8_split(bytes, j);
    reveal_with_fuel(is_char_boundary, 2);
    assert(length_of_first_scalar(tail) == 1);
}

/// The part of `big` from byte `begin` to byte `end`, each bound being an end
/// of `big` or next to an ASCII byte.
fn ascii_bounded_slice(big: &str, begin: usize, end: usize) -> (r: &str)
    requires
        begin <= end <= big.spec_bytes().len(),
        begin > 0 ==> big.spec_bytes()[begin - 1] < 0x80,
        end < big.spec_bytes().len() ==> big.spec_bytes()[end as int] < 0x80,
    ensures
        r.spec_bytes() == big.spec_bytes().subrange(begin as int, end as int),
{
    let ghost bs = big.spec_bytes();
    proof {
        encode_utf8_valid_utf8(big@);
        is_char_boundary_start_end_of_seq(bs);
        if end < bs.len() {
            is_char_boundary_iff_not_is_continuation_byte(bs, end as int);
        }
    }
    let (left, _) = big.split_at(end);
    let ghost lb = left.spec_bytes();
    assert(lb == bs.subrange(0, end as int));
    if begin == 0 {
        return left;
    }
    proof {
        valid_utf8_split(bs, end as int);
        is_char_boundary_iff_not_is_continuation_byte(lb, begin - 1);
    }
    let (_, rest) = left.split_at(begin - 1);
    proof {
        valid_utf8_split(lb, begin - 1);
        lemma_boundary_after_ascii(lb, begin - 1);
        assert(rest.spec_bytes() == lb.subrange(begin - 1, lb.len() as int));
    }
    let (_, mid) = rest.split_at(1);
    assert(mid.spec_bytes() =~= bs.subrange(begin as int, end as int));
    mid
}

/// Trims `big` so that its angle brackets are level: to the inside of its
/// widest matched pair (the last closed among the widest) when that inside is
/// not empty; otherwise to the bytes between the last `>` that closes nothing
/// and the first `<` that is never closed.
pub fn trim_bracket(big: &str) -> (r: &str)
    ensures
        r.spec_bytes() == trim_bracket_bytes(big.spec_bytes()),
        level(r.spec_bytes()),
{
    let bytes = big.as_bytes();
    let ghost bs = bytes@;
    assert(bs.len() == bytes.len());
    proof {
        lemma_trimmed_is_level(bs);
    }
    let mut begin_idx: Vec<usize> = Vec::new();
    let mut max_closure_span: (usize, usize) = (0, 0);
    let mut low: usize = 0;
    let mut i: usize = 0;
    while i < bytes.len()
        invariant
            bs == bytes@,
            i <= bytes.len(),
            (begin_idx@, max_closure_span) == bracket_scan(bs, i as nat),
            low == unmatched_close_end(bs, i as nat),
        decreases bytes.len() - i,
    {
        proof {
            lemma_scan_inv(bs, i as nat);
        }
        let ch = bytes[i];
        if ch == 0x3c {
            begin_idx.push(i);
        } else if ch == 0x3e {
            let val = begin_idx.pop();
            if let Some(val) = val {
                assert(val == bracket_scan(bs, i as nat).0.last());
                if max_closure_span.1 - max_closure_span.0 < i - val {
                    max_closure_span = (val + 1, i);
                }
            } else {
                low = i + 1;
            }
        }
        i += 1;
    }
    proof {
        lemma_scan_inv(bs, i as nat);
        lemma_low_inv(bs, i as nat);
    }
    if max_closure_span.1 - max_closure_span.0 > 0 {
        return ascii_bounded_slice(big, max_closure_span.0, max_closure_span.1);
    }
    let end = if begin_idx.len() > 0 {
        begin_idx[0]
    } else {
        bytes.len()
    };
    ascii_bounded_slice(big, low, end)
}

} // verus!
