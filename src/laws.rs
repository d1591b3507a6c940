use crate::pattern::{occurs_in, Pattern};
use crate::table::{bad_char_skip, last_index_of, lemma_last_index_of_bounds};
use vstd::prelude::*;

verus! {

/// Searching with a handle compiled from a pattern answers as the search
/// with the pattern itself does.
pub proof fn lemma_compiled_agrees(h: Seq<u8>, p: Seq<u8>, compiled: Pattern)
    requires
        compiled@ == p,
    ensures
        occurs_in(h, compiled@) == occurs_in(h, p),
{
}

/// Two handles compiled from one pattern hold the same skips and answer
/// every search alike.
pub proof fn lemma_compile_idempotent(h: Seq<u8>, p: Seq<u8>, a: Pattern, b: Pattern)
    requires
        a@ == p,
        b@ == p,
    ensures
        occurs_in(h, a@) == occurs_in(h, b@),
        forall|c: u8| bad_char_skip(a@, c) == bad_char_skip(b@, c),
{
}

/// For a pattern of distinct bytes, the skip of its last byte is its
/// length, that of the byte at any other index `i` is `L - i - 1`, and that
/// of a byte absent from it is its length.
pub proof fn lemma_table_distinct(p: Seq<u8>)
    requires
        p.len() > 0,
        p.no_duplicates(),
    ensures
        bad_char_skip(p, p.last()) == p.len(),
        forall|i: int| 0 <= i < p.len() - 1 ==> #[trigger] bad_char_skip(p, p[i]) == p.len() - i - 1,
        forall|c: u8| !p.contains(c) ==> #[trigger] bad_char_skip(p, c) == p.len(),
{
    let q = p.drop_last();
    assert forall|i: int| 0 <= i < p.len() - 1 implies #[trigger] bad_char_skip(p, p[i]) == p.len() - i - 1 by {
        lemma_last_index_of_bounds(q, p[i]);
        assert(q[i] == p[i]);
        let k = last_index_of(q, p[i]);
        assert(q[k] == p[k]);
    }
    assert forall|c: u8| !p.contains(c) implies #[trigger] bad_char_skip(p, c) == p.len() by {
        lemma_last_index_of_bounds(q, c);
        let k = last_index_of(q, c);
        if k >= 0 {
            assert(q[k] == p[k]);
        }
    }
}

} // verus!
