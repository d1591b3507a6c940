use crate::table::{
    bad_char_skip, lemma_last_index_of_bounds, lemma_skip_bounds, BadMatchTable,
};
use std::sync::Arc;
use vstd::prelude::*;
use vstd::slice::slice_to_vec;
use vstd::string::StringSliceAdditionalSpecFns;

verus! {

/// The bytes of `h` that a window ending at index `end` covers for pattern `p`.
pub open spec fn window(h: Seq<u8>, p: Seq<u8>, end: int) -> Seq<u8> {
    h.subrange(end + 1 - p.len(), end + 1)
}

/// The highest index at which `w` and `p` differ, or -1 where they agree;
/// both are read from their ends, so the shorter length bounds the scan.
pub open spec fn rightmost_mismatch(w: Seq<u8>, p: Seq<u8>) -> int
    decreases w.len(),
{
    if w.len() == 0 || p.len() == 0 {
        -1
    } else if w.last() != p.last() {
        w.len() - 1
    } else {
        rightmost_mismatch(w.drop_last(), p.drop_last())
    }
}

/// How far the window moves after its rightmost mismatch with `p`, at
/// pattern index `m`, on haystack byte `c`. The skip that the table holds
/// for `c` counts from the window's last byte, so the bytes already matched
/// to the right of the mismatch, `L - 1 - m` of them, are taken off it, and
/// the window always moves at least one byte. On the pattern's last byte,
/// whose table entry is the full length, the window moves one byte. Either
/// way no occurrence of `p` is passed over.
pub open spec fn window_advance(p: Seq<u8>, c: u8, m: int) -> int {
    let shift = bad_char_skip(p, c) - (p.len() - 1 - m);
    if p.len() > 0 && c == p.last() {
        1
    } else if shift >= 1 {
        shift
    } else {
        1
    }
}

/// `p` stands in `h` as a contiguous run starting at index `k`.
pub open spec fn occurs_at(h: Seq<u8>, p: Seq<u8>, k: int) -> bool {
    0 <= k && k + p.len() <= h.len() && h.subrange(k, k + p.len()) == p
}

/// `p` stands somewhere in `h` as a contiguous run.
pub open spec fn occurs_in(h: Seq<u8>, p: Seq<u8>) -> bool {
    exists|k: int| occurs_at(h, p, k)
}

/// `p` stands in `h` as a contiguous run starting at index `from` or later.
pub open spec fn occurs_from(h: Seq<u8>, p: Seq<u8>, from: int) -> bool {
    exists|k: int| k >= from && occurs_at(h, p, k)
}

/// The rightmost mismatch of two equal-length sequences is an index where
/// they differ, after which they agree; there is none exactly when they are equal.
pub proof fn lemma_mismatch_bounds(w: Seq<u8>, p: Seq<u8>)
    requires
        w.len() == p.len(),
    ensures
        -1 <= rightmost_mismatch(w, p) < w.len(),
        rightmost_mismatch(w, p) < 0 <==> w == p,
        rightmost_mismatch(w, p) >= 0 ==> w[rightmost_mismatch(w, p)] != p[rightmost_mismatch(
            w,
            p,
        )],
        forall|j: int| rightmost_mismatch(w, p) < j < w.len() ==> w[j] == p[j],
    decreases w.len(),
{
    if w.len() > 0 && w.last() == p.last() {
        let (wd, pd) = (w.drop_last(), p.drop_last());
        lemma_mismatch_bounds(wd, pd);
        assert forall|j: int| rightmost_mismatch(w, p) < j < w.len() implies w[j] == p[j] by {
            if j < w.len() - 1 {
                assert(w[j] == wd[j] && p[j] == pd[j]);
            }
        }
        if wd == pd {
            assert(w =~= wd.push(w.last()));
            assert(p =~= pd.push(p.last()));
        }
        if w == p {
            assert(wd =~= pd);
        }
    } else if w.len() == 0 {
        assert(w =~= p);
    }
}

/// A compiled pattern: its bytes and the skip table built from them.
pub struct Pattern {
    match_table: BadMatchTable,
    pattern_chars: Vec<u8>,
    size: usize,
}

impl View for Pattern {
    /// The pattern's bytes.
    type V = Seq<u8>;

    closed spec fn view(&self) -> Seq<u8> {
        self.pattern_chars@
    }
}

impl Pattern {
    #[verifier::type_invariant]
    spec fn inv(self) -> bool {
        &&& self.size == self.pattern_chars@.len()
        &&& self.match_table@ == self.pattern_chars@
    }

    /// Compiles `pattern`, read as its bytes.
    pub fn compile(pattern: &str) -> (r: Self)
        ensures
            r@ == pattern.spec_bytes(),
    {
        let bytes = pattern.as_bytes();
        Pattern {
            match_table: BadMatchTable::new(pattern),
            size: bytes.len(),
            pattern_chars: slice_to_vec(bytes),
        }
    }

    /// The number of bytes in the pattern.
    pub fn len(&self) -> (r: usize)
        ensures
            r == self@.len(),
    {
        proof {
            use_type_invariant(self);
        }
        self.size
    }

    /// The skip distance for haystack byte `c`.
    pub fn skip_for(&self, c: u8) -> (r: usize)
        ensures
            r == bad_char_skip(self@, c),
    {
        proof {
            use_type_invariant(self);
        }
        self.match_table.get(c)
    }

    /// The pattern byte at index `i`.
    pub fn at(&self, i: usize) -> (r: u8)
        requires
            i < self@.len(),
        ensures
            r == self@[i as int],
    {
        self.pattern_chars[i]
    }
}

/// Compares `pattern` backward against `haystack`, pattern index
/// `pattern_index` aligned with haystack index `corpus_index`, down to
/// pattern index 0. Where every byte agrees the result is `Ok(true)`; at the
/// first (rightmost) disagreement it is how far the window moves, worked out
/// from the table's skip for the haystack byte there.
pub fn detect_pattern(
    haystack: &[u8],
    pattern: &Pattern,
    corpus_index: usize,
    pattern_index: usize,
) -> (r: Result<bool, usize>)
    requires
        pattern_index < pattern@.len(),
        pattern_index <= corpus_index < haystack@.len(),
    ensures
        ({
            let w = haystack@.subrange(corpus_index - pattern_index, corpus_index + 1);
            let m = rightmost_mismatch(w, pattern@.take(pattern_index + 1));
            r == if m < 0 {
                Ok::<bool, usize>(true)
            } else {
                Err::<bool, usize>(window_advance(pattern@, w[m], m) as usize)
            }
        }),
{
    let ghost h = haystack@;
    let ghost p = pattern@;
    let ghost s = corpus_index - pattern_index;
    let ghost w = h.subrange(s, corpus_index + 1);
    let ghost m = rightmost_mismatch(w, p.take(pattern_index + 1));
    let mut ci = corpus_index;
    let mut pi = pattern_index;
    loop
        invariant
            h == haystack@,
            p == pattern@,
            pattern_index < p.len(),
            corpus_index < h.len(),
            s == corpus_index - pattern_index,
            w == h.subrange(s, corpus_index + 1),
            m == rightmost_mismatch(w, p.take(pattern_index + 1)),
            0 <= s,
            pi <= pattern_index,
            ci <= corpus_index,
            ci - pi == s,
            m == rightmost_mismatch(h.subrange(s, ci + 1), p.take(pi + 1)),
        decreases pi,
    {
        let haystack_char = haystack[ci];
        let pattern_char = pattern.at(pi);
        let ghost wc = h.subrange(s, ci + 1);
        let ghost qc = p.take(pi + 1);
        proof {
            assert(wc.drop_last() =~= h.subrange(s, ci as int));
            assert(qc.drop_last() =~= p.take(pi as int));
        }
        if haystack_char == pattern_char {
            if pi == 0 {
                assert(rightmost_mismatch(wc.drop_last(), qc.drop_last()) == -1);
                return Ok(true);
            }
            ci = ci - 1;
            pi = pi - 1;
        } else {
            assert(w[m] == haystack_char);
            let last = pattern.len() - 1;
            if haystack_char == pattern.at(last) {
                return Err(1);
            }
            let skip = pattern.skip_for(haystack_char);
            let matched = last - pi;
            if skip > matched {
                return Err(skip - matched);
            }
            return Err(1);
        }
    }
}

/// After a mismatch in the window ending at `end`, no occurrence starts
/// before the window's next position.
proof fn lemma_advance_passes_no_occurrence(h: Seq<u8>, p: Seq<u8>, end: int)
    requires
        p.len() > 0,
        p.len() - 1 <= end < h.len(),
        rightmost_mismatch(window(h, p, end), p) >= 0,
    ensures
        ({
            let w = window(h, p, end);
            let m = rightmost_mismatch(w, p);
            let s = end + 1 - p.len();
            &&& 1 <= window_advance(p, w[m], m) <= p.len()
            &&& forall|k: int| s <= k < s + window_advance(p, w[m], m) ==> !occurs_at(h, p, k)
        }),
{
    let len = p.len() as int;
    let w = window(h, p, end);
    lemma_mismatch_bounds(w, p);
    let m = rightmost_mismatch(w, p);
    let b = w[m];
    let s = end + 1 - len;
    let q = p.drop_last();
    lemma_skip_bounds(p, b);
    lemma_last_index_of_bounds(q, b);
    assert forall|k: int| s <= k < s + window_advance(p, b, m) implies !occurs_at(h, p, k) by {
        if occurs_at(h, p, k) {
            let d = k - s;
            if d == 0 {
                assert(w =~= h.subrange(k, k + len));
            } else {
                assert(b != p.last());
                assert(h[s + m] == h.subrange(k, k + len)[m - d]);
                assert(p[m - d] == b);
                assert(q[m - d] == b);
            }
        }
    }
}

/// Scans `haystack` for `pattern` window by window, starting with the
/// window that ends at `starting_index`: the result tells whether an
/// occurrence starts at that window's start or later.
pub fn contains_pattern(haystack: &[u8], pattern: &Pattern, starting_index: usize) -> (r: bool)
    requires
        pattern@.len() > 0,
        starting_index >= pattern@.len() - 1,
    ensures
        r == occurs_from(haystack@, pattern@, starting_index + 1 - pattern@.len()),
{
    let ghost h = haystack@;
    let ghost p = pattern@;
    let ghost from = starting_index + 1 - p.len();
    let last = pattern.len() - 1;
    let mut end = starting_index;
    proof {
        assert(p.take(p.len() as int) =~= p);
    }
    while end < haystack.len()
        invariant
            h == haystack@,
            p == pattern@,
            p.len() > 0,
            last == p.len() - 1,
            p.take(p.len() as int) == p,
            end >= last,
            from == starting_index + 1 - p.len(),
            occurs_from(h, p, end - last) == occurs_from(h, p, from),
        decreases haystack@.len() - end,
    {
        let ghost s = end - last;
        let ghost w = window(h, p, end as int);
        proof {
            assert(w == h.subrange(end - last, end + 1));
            lemma_mismatch_bounds(w, p);
        }
        match detect_pattern(haystack, pattern, end, last) {
            Ok(_) => {
                assert(occurs_at(h, p, s));
                return true;
            },
            Err(advance) => {
                proof {
                    let m = rightmost_mismatch(w, p);
                    assert(m >= 0);
                    lemma_advance_passes_no_occurrence(h, p, end as int);
                    assert(advance == window_advance(p, w[m], m));
                    assert(advance >= 1);
                    assert forall|k: int| k >= s && occurs_at(h, p, k) implies k >= s + advance by {
                    }
                }
                if advance >= haystack.len() - end {
                    assert forall|k: int| k >= s implies !occurs_at(h, p, k) by {
                    }
                    return false;
                }
                end = end + advance;
            },
        }
    }
    assert forall|k: int| k >= end - last implies !occurs_at(h, p, k) by {
    }
    false
}

/// Searches `haystack`, read as its bytes, for a compiled pattern; the
/// empty pattern is found in every haystack.
pub fn do_contains(haystack: &str, needle: &Pattern) -> (r: bool)
    ensures
        r == occurs_in(haystack.spec_bytes(), needle@),
        needle@.len() == 0 ==> r,
{
    let size = needle.len();
    if size == 0 {
        assert(haystack.spec_bytes().subrange(0, 0) =~= needle@);
        assert(occurs_at(haystack.spec_bytes(), needle@, 0));
        return true;
    }
    let starting_index = size - 1;
    contains_pattern(haystack.as_bytes(), needle, starting_index)
}

/// A haystack shorter than the pattern holds no occurrence of it.
pub proof fn lemma_short_haystack(h: Seq<u8>, p: Seq<u8>)
    requires
        h.len() < p.len(),
    ensures
        !occurs_in(h, p),
{
}

/// Compiles `needle` and searches `haystack` for it: the result tells
/// whether `needle`'s bytes stand as a contiguous run in `haystack`'s.
pub fn contains(haystack: &str, needle: &str) -> (r: bool)
    ensures
        r == occurs_in(haystack.spec_bytes(), needle.spec_bytes()),
        needle.spec_bytes().len() == 0 ==> r,
        haystack.spec_bytes().len() < needle.spec_bytes().len() ==> !r,
{
    let pattern = Pattern::compile(needle);
    proof {
        if haystack.spec_bytes().len() < needle.spec_bytes().len() {
            lemma_short_haystack(haystack.spec_bytes(), needle.spec_bytes());
        }
    }
    do_contains(haystack, &pattern)
}

/// Searches `haystack` for a pattern compiled before.
pub fn contains_compiled(haystack: &str, pattern: &Pattern) -> (r: bool)
    ensures
        r == occurs_in(haystack.spec_bytes(), pattern@),
        pattern@.len() == 0 ==> r,
        haystack.spec_bytes().len() < pattern@.len() ==> !r,
{
    proof {
        if haystack.spec_bytes().len() < pattern@.len() {
            lemma_short_haystack(haystack.spec_bytes(), pattern@);
        }
    }
    do_contains(haystack, pattern)
}

/// Compiles `pattern` into a handle that many searches can share.
pub fn compile(pattern: &str) -> (r: Arc<Pattern>)
    ensures
        r@ == pattern.spec_bytes(),
{
    Arc::new(Pattern::compile(pattern))
}

} // verus!
