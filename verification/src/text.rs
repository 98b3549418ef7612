//! Searching, splitting and replacing in UTF-8 text held as bytes.
use vstd::prelude::*;
use vstd::utf8::*;

use vstd::string::StrSliceExecFns;

use crate::outside::lossy_utf8;

verus! {

/// The text that bytes read as UTF-8 give: their decoding when they are valid
/// UTF-8, and otherwise what the lossy reading makes of them.
pub open spec fn text_of(bytes: Seq<u8>) -> Seq<char> {
    if valid_utf8(bytes) {
        decode_utf8(bytes)
    } else {
        lossy_utf8(bytes)
    }
}

/// The characters with the Unicode property White_Space, which is what
/// `char::is_whitespace` and `str::trim` go by.
pub open spec fn is_white_space(c: char) -> bool {
    let u = c as u32;
    ||| 0x09 <= u <= 0x0d
    ||| u == 0x20
    ||| u == 0x85
    ||| u == 0xa0
    ||| u == 0x1680
    ||| 0x2000 <= u <= 0x200a
    ||| u == 0x2028
    ||| u == 0x2029
    ||| u == 0x202f
    ||| u == 0x205f
    ||| u == 0x3000
}

/// `s` without its leading white space.
pub open spec fn trim_start_chars(s: Seq<char>) -> Seq<char>
    decreases s.len(),
{
    if s.len() > 0 && is_white_space(s[0]) {
        trim_start_chars(s.drop_first())
    } else {
        s
    }
}

/// `s` without its trailing white space.
pub open spec fn trim_end_chars(s: Seq<char>) -> Seq<char>
    decreases s.len(),
{
    if s.len() > 0 && is_white_space(s.last()) {
        trim_end_chars(s.drop_last())
    } else {
        s
    }
}

/// `s` without leading and trailing white space.
pub open spec fn trim_chars(s: Seq<char>) -> Seq<char> {
    trim_end_chars(trim_start_chars(s))
}

/// Trimming at the start keeps what follows the leading white space, one
/// character more at the end being kept after it.
proof fn lemma_trim_start_push(s: Seq<char>, c: char)
    ensures
        trim_start_chars(s.push(c)) == (if trim_start_chars(s).len() == 0 {
            trim_start_chars(seq![c])
        } else {
            trim_start_chars(s).push(c)
        }),
    decreases s.len(),
{
    if s.len() == 0 {
        assert(s.push(c) =~= seq![c]);
    } else {
        assert(s.push(c).drop_first() =~= s.drop_first().push(c));
        lemma_trim_start_push(s.drop_first(), c);
    }
}

/// Trimming drops white space: a character of the Unicode White_Space
/// property (U+0009 to U+000D, U+0020, U+0085, U+00A0, U+1680, U+2000 to
/// U+200A, U+2028, U+2029, U+202F, U+205F, U+3000) at the start or the end
/// of a text is trimmed away.
pub proof fn lemma_trim_drops_white(s: Seq<char>, c: char)
    requires
        0x09 <= c as u32 <= 0x0d || c as u32 == 0x20 || c as u32 == 0x85 || c as u32 == 0xa0
            || c as u32 == 0x1680 || 0x2000 <= c as u32 <= 0x200a || c as u32 == 0x2028 || c as u32 == 0x2029
            || c as u32 == 0x202f || c as u32 == 0x205f || c as u32 == 0x3000,
    ensures
        trim_chars(seq![c] + s) == trim_chars(s),
        trim_chars(s.push(c)) == trim_chars(s),
{
    assert((seq![c] + s).drop_first() =~= s);
    lemma_trim_start_push(s, c);
    let a = trim_start_chars(s);
    if a.len() > 0 {
        assert(a.push(c).drop_last() =~= a);
    } else {
        assert(seq![c].drop_first() =~= Seq::<char>::empty());
        assert(trim_start_chars(seq![c]) == trim_start_chars(Seq::<char>::empty()));
    }
}

/// Trimming keeps everything else: a text that starts and ends with
/// characters outside the White_Space property comes back whole.
pub proof fn lemma_trim_keeps_other(s: Seq<char>, c: char, d: char)
    requires
        !(0x09 <= c as u32 <= 0x0d || c as u32 == 0x20 || c as u32 == 0x85 || c as u32 == 0xa0
            || c as u32 == 0x1680 || 0x2000 <= c as u32 <= 0x200a || c as u32 == 0x2028 || c as u32 == 0x2029
            || c as u32 == 0x202f || c as u32 == 0x205f || c as u32 == 0x3000),
        !(0x09 <= d as u32 <= 0x0d || d as u32 == 0x20 || d as u32 == 0x85 || d as u32 == 0xa0
            || d as u32 == 0x1680 || 0x2000 <= d as u32 <= 0x200a || d as u32 == 0x2028 || d as u32 == 0x2029
            || d as u32 == 0x202f || d as u32 == 0x205f || d as u32 == 0x3000),
    ensures
        trim_chars(seq![c] + s + seq![d]) == seq![c] + s + seq![d],
{
    let x = seq![c] + s + seq![d];
    assert(x[0] == c);
    assert(x.last() == d);
}

/// `needle` occurs in `hay` at position `i`.
pub open spec fn occurs_at(hay: Seq<u8>, needle: Seq<u8>, i: int) -> bool {
    0 <= i && i + needle.len() <= hay.len() && hay.subrange(i, i + needle.len()) == needle
}

/// `needle` occurs somewhere in `hay`.
pub open spec fn occurs(hay: Seq<u8>, needle: Seq<u8>) -> bool {
    exists|i: int| occurs_at(hay, needle, i)
}

/// `text` with every occurrence of the non-empty `pat` replaced by `rep`,
/// occurrences taken from left to right without overlapping.
pub open spec fn replaced(text: Seq<u8>, pat: Seq<u8>, rep: Seq<u8>) -> Seq<u8>
    decreases text.len(),
{
    if pat.len() == 0 || text.len() == 0 {
        text
    } else if occurs_at(text, pat, 0) {
        rep + replaced(text.subrange(pat.len() as int, text.len() as int), pat, rep)
    } else {
        seq![text[0]] + replaced(text.subrange(1, text.len() as int), pat, rep)
    }
}

/// The pieces of `s` between the bytes `sep` (empty pieces included).
pub open spec fn split_on(s: Seq<u8>, sep: u8) -> Seq<Seq<u8>>
    decreases s.len(),
{
    if s.len() == 0 {
        seq![seq![]]
    } else {
        let p = split_on(s.drop_last(), sep);
        if s.last() == sep {
            p.push(seq![])
        } else {
            p.update(p.len() - 1, p.last().push(s.last()))
        }
    }
}

/// The pieces `parts` put back together with `sep` between each two.
pub open spec fn joined(parts: Seq<Seq<u8>>, sep: u8) -> Seq<u8>
    decreases parts.len(),
{
    if parts.len() == 0 {
        seq![]
    } else if parts.len() == 1 {
        parts[0]
    } else {
        joined(parts.drop_last(), sep) + seq![sep] + parts.last()
    }
}

/// Splitting cuts at the separator and nowhere else: the pieces joined with
/// the separator give back the text, and no piece holds the separator.
pub proof fn lemma_split_rejoins(s: Seq<u8>, sep: u8)
    ensures
        split_on(s, sep).len() >= 1,
        joined(split_on(s, sep), sep) == s,
        forall|j: int, k: int|
            0 <= j < split_on(s, sep).len() && 0 <= k < split_on(s, sep)[j].len() ==> #[trigger] split_on(
                s,
                sep,
            )[j][k] != sep,
    decreases s.len(),
{
    if s.len() > 0 {
        let s0 = s.drop_last();
        let c = s.last();
        lemma_split_rejoins(s0, sep);
        let p = split_on(s0, sep);
        let q = split_on(s, sep);
        if c == sep {
            assert(q.drop_last() == p);
            assert(joined(q, sep) == joined(p, sep) + seq![sep] + seq![]);
            assert(s0 + seq![sep] + Seq::<u8>::empty() =~= s);
            assert forall|j: int, k: int| 0 <= j < q.len() && 0 <= k < q[j].len() implies #[trigger] q[j][k] != sep by {
                assert(q[j] == p[j]);
            }
        } else {
            let n = p.len();
            assert(q[n - 1] == p.last().push(c));
            if n == 1 {
                assert(joined(q, sep) == q[0]);
                assert(joined(p, sep) == p[0]);
                assert(p[0].push(c) =~= s);
            } else {
                assert(q.drop_last() =~= p.drop_last());
                assert(joined(q, sep) == joined(p.drop_last(), sep) + seq![sep] + p.last().push(c));
                assert(joined(p.drop_last(), sep) + seq![sep] + p.last().push(c) =~= (joined(p.drop_last(), sep)
                    + seq![sep] + p.last()).push(c));
                assert(s0.push(c) =~= s);
            }
            assert forall|j: int, k: int| 0 <= j < q.len() && 0 <= k < q[j].len() implies #[trigger] q[j][k] != sep by {
                if j < n - 1 {
                    assert(q[j] == p[j]);
                } else if k < p.last().len() {
                    assert(q[j][k] == p[n - 1][k]);
                }
            }
        }
    }
}

pub proof fn lemma_split_on_nonempty(s: Seq<u8>, sep: u8)
    ensures
        split_on(s, sep).len() >= 1,
    decreases s.len(),
{
    if s.len() > 0 {
        lemma_split_on_nonempty(s.drop_last(), sep);
    }
}

/// Whether `c` has the Unicode property White_Space.
pub fn is_white(c: char) -> (r: bool)
    ensures
        r == is_white_space(c),
{
    let u = c as u32;
    (0x09 <= u && u <= 0x0d) || u == 0x20 || u == 0x85 || u == 0xa0 || u == 0x1680 || (0x2000 <= u
        && u <= 0x200a) || u == 0x2028 || u == 0x2029 || u == 0x202f || u == 0x205f || u == 0x3000
}

/// `s` without leading and trailing white space.
pub fn trim_text(s: &str) -> (r: &str)
    ensures
        r@ == trim_chars(s@),
{
    let n = s.unicode_len();
    let mut a: usize = 0;
    assert(s@.subrange(0, n as int) == s@);
    loop
        invariant
            a <= n,
            n == s@.len(),
            trim_start_chars(s@) == trim_start_chars(s@.subrange(a as int, n as int)),
        ensures
            a <= n,
            trim_start_chars(s@) == s@.subrange(a as int, n as int),
        decreases n - a,
    {
        if a == n {
            assert(s@.subrange(a as int, n as int).len() == 0);
            break;
        }
        if !is_white(s.get_char(a)) {
            break;
        }
        assert(s@.subrange(a as int, n as int).drop_first() == s@.subrange(a + 1, n as int));
        a += 1;
    }
    let mut b: usize = n;
    loop
        invariant
            a <= b <= n,
            n == s@.len(),
            trim_chars(s@) == trim_end_chars(s@.subrange(a as int, b as int)),
        ensures
            a <= b <= n,
            trim_chars(s@) == s@.subrange(a as int, b as int),
        decreases b - a,
    {
        if b == a {
            break;
        }
        if !is_white(s.get_char(b - 1)) {
            break;
        }
        assert(s@.subrange(a as int, b as int).drop_last() == s@.subrange(a as int, b - 1));
        b -= 1;
    }
    s.substring_char(a, b)
}

/// Bytes that are all ASCII are valid UTF-8.
pub proof fn lemma_ascii_valid(s: Seq<u8>)
    requires
        forall|i: int| 0 <= i < s.len() ==> #[trigger] s[i] < 0x80,
    ensures
        valid_utf8(s),
    decreases s.len(),
{
    if s.len() > 0 {
        let rest = pop_first_scalar(s);
        assert(rest =~= s.drop_first());
        lemma_ascii_valid(rest);
    }
}

/// What follows a valid prefix of valid UTF-8 is valid UTF-8.
pub proof fn lemma_valid_prefix_rest(a: Seq<u8>, rest: Seq<u8>)
    requires
        valid_utf8(a),
        valid_utf8(a + rest),
    ensures
        valid_utf8(rest),
    decreases a.len(),
{
    if a.len() == 0 {
        assert(a + rest =~= rest);
    } else {
        let w = length_of_first_scalar(a);
        let ar = a + rest;
        assert(ar[0] == a[0]);
        assert(w <= a.len());
        assert(forall|k: int| 0 <= k < w ==> #[trigger] ar[k] == a[k]);
        assert(valid_first_scalar(ar));
        assert(length_of_first_scalar(ar) == w);
        assert(pop_first_scalar(ar) =~= pop_first_scalar(a) + rest);
        lemma_valid_prefix_rest(pop_first_scalar(a), rest);
    }
}

/// Where no occurrence starts among the first `j` positions, replacing keeps
/// those `j` bytes and goes on with the rest.
pub proof fn lemma_replaced_skip(text: Seq<u8>, pat: Seq<u8>, rep: Seq<u8>, j: int)
    requires
        pat.len() > 0,
        0 <= j <= text.len(),
        forall|k: int| 0 <= k < j ==> !#[trigger] occurs_at(text, pat, k),
    ensures
        replaced(text, pat, rep) == text.subrange(0, j) + replaced(
            text.subrange(j, text.len() as int),
            pat,
            rep,
        ),
    decreases j,
{
    if j == 0 {
        assert(text.subrange(0, 0) + text.subrange(0, text.len() as int) =~= text);
    } else {
        let t1 = text.subrange(1, text.len() as int);
        assert(!occurs_at(text, pat, 0));
        assert forall|k: int| 0 <= k < j - 1 implies !#[trigger] occurs_at(t1, pat, k) by {
            if occurs_at(t1, pat, k) {
                assert(text.subrange(k + 1, k + 1 + pat.len()) =~= t1.subrange(k, k + pat.len()));
                assert(occurs_at(text, pat, k + 1));
            }
        }
        lemma_replaced_skip(t1, pat, rep, j - 1);
        assert(t1.subrange(j - 1, t1.len() as int) =~= text.subrange(j, text.len() as int));
        assert(seq![text[0]] + t1.subrange(0, j - 1) =~= text.subrange(0, j));
        assert(seq![text[0]] + (t1.subrange(0, j - 1) + replaced(t1.subrange(j - 1, t1.len() as int), pat, rep))
            =~= (seq![text[0]] + t1.subrange(0, j - 1)) + replaced(t1.subrange(j - 1, t1.len() as int), pat, rep));
    }
}

/// Replacing a valid UTF-8 pattern by valid UTF-8 in valid UTF-8 text gives
/// valid UTF-8.
pub proof fn lemma_replaced_valid(text: Seq<u8>, pat: Seq<u8>, rep: Seq<u8>)
    requires
        valid_utf8(text),
        valid_utf8(pat),
        pat.len() > 0,
        valid_utf8(rep),
    ensures
        valid_utf8(replaced(text, pat, rep)),
    decreases text.len(),
{
    if text.len() > 0 {
        if occurs_at(text, pat, 0) {
            let rest = text.subrange(pat.len() as int, text.len() as int);
            assert(text =~= pat + rest);
            lemma_valid_prefix_rest(pat, rest);
            lemma_replaced_valid(rest, pat, rep);
            valid_utf8_concat(rep, replaced(rest, pat, rep));
        } else {
            let w = length_of_first_scalar(text);
            assert(valid_first_scalar(text));
            assert(valid_first_scalar(pat));
            assert forall|k: int| 0 <= k < w implies !#[trigger] occurs_at(text, pat, k) by {
                if k > 0 && occurs_at(text, pat, k) {
                    assert(text.subrange(k, k + pat.len())[0] == pat[0]);
                    assert(is_continuation_byte(text[k]));
                }
            }
            lemma_replaced_skip(text, pat, rep, w);
            let head = text.subrange(0, w);
            let tail = text.subrange(w, text.len() as int);
            assert(tail == pop_first_scalar(text));
            assert(forall|k: int| 0 <= k < w ==> #[trigger] head[k] == text[k]);
            assert(valid_first_scalar(head));
            assert(pop_first_scalar(head).len() == 0);
            assert(valid_utf8(pop_first_scalar(head)));
            assert(valid_utf8(head));
            lemma_replaced_valid(tail, pat, rep);
            valid_utf8_concat(head, replaced(tail, pat, rep));
        }
    }
}

/// Whether `hay` holds the byte `c`.
pub fn contains_byte(hay: &[u8], c: u8) -> (r: bool)
    ensures
        r == hay@.contains(c),
{
    let mut i: usize = 0;
    while i < hay.len()
        invariant
            i <= hay.len(),
            forall|k: int| 0 <= k < i ==> hay[k] != c,
        decreases hay.len() - i,
    {
        if hay[i] == c {
            assert(hay@[i as int] == c);
            return true;
        }
        i += 1;
    }
    false
}

/// Whether `a` and `b` hold the same bytes.
pub fn same_bytes(a: &[u8], b: &[u8]) -> (r: bool)
    ensures
        r == (a@ == b@),
{
    if a.len() != b.len() {
        return false;
    }
    let mut i: usize = 0;
    while i < a.len()
        invariant
            i <= a.len(),
            a.len() == b.len(),
            forall|k: int| 0 <= k < i ==> a[k] == b[k],
        decreases a.len() - i,
    {
        if a[i] != b[i] {
            assert(a@[i as int] != b@[i as int]);
            return false;
        }
        i += 1;
    }
    assert(a@ =~= b@);
    true
}

/// Whether `needle` occurs in `hay` at position `i`.
pub fn occurs_at_exec(hay: &[u8], needle: &[u8], i: usize) -> (r: bool)
    ensures
        r == occurs_at(hay@, needle@, i as int),
{
    if i > hay.len() || needle.len() > hay.len() - i {
        return false;
    }
    let mut k: usize = 0;
    while k < needle.len()
        invariant
            k <= needle.len(),
            i + needle.len() <= hay.len(),
            forall|u: int| 0 <= u < k ==> #[trigger] needle[u] == hay[i + u],
        decreases needle.len() - k,
    {
        if hay[i + k] != needle[k] {
            assert(hay@.subrange(i as int, i + needle.len())[k as int] != needle@[k as int]);
            return false;
        }
        k += 1;
    }
    assert(hay@.subrange(i as int, i + needle.len()) =~= needle@);
    true
}

/// Whether `needle` occurs somewhere in `hay`.
pub fn contains_seq(hay: &[u8], needle: &[u8]) -> (r: bool)
    ensures
        r == occurs(hay@, needle@),
{
    if needle.len() == 0 {
        assert(occurs_at(hay@, needle@, 0)) by {
            assert(hay@.subrange(0, 0) =~= needle@);
        }
        return true;
    }
    let mut i: usize = 0;
    while i < hay.len()
        invariant
            i <= hay.len(),
            needle.len() > 0,
            forall|k: int| 0 <= k < i ==> !occurs_at(hay@, needle@, k),
        decreases hay.len() - i,
    {
        if occurs_at_exec(hay, needle, i) {
            return true;
        }
        i += 1;
    }
    assert forall|k: int| !occurs_at(hay@, needle@, k) by {
        if 0 <= k && k < i {
        }
    }
    false
}

/// `text` with every occurrence of the non-empty `pat` replaced by `rep`, as
/// `replaced` says.
pub fn replace_all(text: &[u8], pat: &[u8], rep: &[u8]) -> (r: Vec<u8>)
    requires
        pat.len() > 0,
    ensures
        r@ == replaced(text@, pat@, rep@),
{
    let mut out: Vec<u8> = Vec::new();
    let mut i: usize = 0;
    assert(text@.subrange(0, text.len() as int) == text@);
    assert(out@ + replaced(text@, pat@, rep@) == replaced(text@, pat@, rep@));
    while i < text.len()
        invariant
            i <= text.len(),
            pat.len() > 0,
            out@ + replaced(text@.subrange(i as int, text.len() as int), pat@, rep@) == replaced(
                text@,
                pat@,
                rep@,
            ),
        decreases text.len() - i,
    {
        let ghost tail = text@.subrange(i as int, text.len() as int);
        let ghost before = out@;
        if occurs_at_exec(text, pat, i) {
            assert(occurs_at(tail, pat@, 0)) by {
                assert(tail.subrange(0, pat@.len() as int) == text@.subrange(i as int, i + pat@.len()));
            }
            assert(tail.subrange(pat@.len() as int, tail.len() as int) == text@.subrange(
                i + pat@.len(),
                text.len() as int,
            ));
            out.extend_from_slice(rep);
            assert(out@ == before + rep@);
            assert((before + rep@) + replaced(text@.subrange(i + pat@.len(), text.len() as int), pat@, rep@)
                == before + (rep@ + replaced(text@.subrange(i + pat@.len(), text.len() as int), pat@, rep@)));
            i += pat.len();
        } else {
            assert(!occurs_at(tail, pat@, 0)) by {
                if occurs_at(tail, pat@, 0) {
                    assert(tail.subrange(0, pat@.len() as int) == text@.subrange(i as int, i + pat@.len()));
                }
            }
            assert(tail.subrange(1, tail.len() as int) == text@.subrange(i + 1, text.len() as int));
            out.push(text[i]);
            assert(out@ == before + seq![text@[i as int]]);
            assert((before + seq![text@[i as int]]) + replaced(text@.subrange(i + 1, text.len() as int), pat@, rep@)
                == before + (seq![text@[i as int]] + replaced(text@.subrange(i + 1, text.len() as int), pat@, rep@)));
            i += 1;
        }
    }
    assert(text@.subrange(i as int, text.len() as int).len() == 0);
    assert(out@ + seq![] == out@);
    out
}

/// The pieces of `s` between the bytes `sep`, as `split_on` says.
pub fn split_bytes(s: &[u8], sep: u8) -> (parts: Vec<Vec<u8>>)
    ensures
        parts@.len() == split_on(s@, sep).len(),
        forall|j: int| 0 <= j < parts@.len() ==> #[trigger] parts@[j]@ == split_on(s@, sep)[j],
{
    let mut parts: Vec<Vec<u8>> = Vec::new();
    let mut cur: Vec<u8> = Vec::new();
    let mut i: usize = 0;
    while i < s.len()
        invariant
            i <= s.len(),
            parts@.len() + 1 == split_on(s@.take(i as int), sep).len(),
            forall|j: int| 0 <= j < parts@.len() ==> #[trigger] parts@[j]@ == split_on(s@.take(i as int), sep)[j],
            cur@ == split_on(s@.take(i as int), sep).last(),
        decreases s.len() - i,
    {
        assert(s@.take(i + 1).drop_last() == s@.take(i as int));
        assert(s@.take(i + 1).last() == s@[i as int]);
        proof {
            lemma_split_on_nonempty(s@.take(i as int), sep);
        }
        if s[i] == sep {
            parts.push(cur);
            cur = Vec::new();
        } else {
            cur.push(s[i]);
        }
        i += 1;
    }
    assert(s@.take(s.len() as int) == s@);
    parts.push(cur);
    parts
}

} // verus!
