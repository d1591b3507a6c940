use std::collections::HashMap;
use vstd::prelude::*;
use vstd::string::StringSliceAdditionalSpecFns;

verus! {

broadcast use vstd::std_specs::hash::group_hash_axioms;

/// The last index at which `c` stands in `s`, or -1 where it does not occur.
pub open spec fn last_index_of(s: Seq<u8>, c: u8) -> int
    decreases s.len(),
{
    if s.len() == 0 {
        -1
    } else if s.last() == c {
        s.len() - 1
    } else {
        last_index_of(s.drop_last(), c)
    }
}

/// How far the window advances when byte `c` causes a mismatch against
/// pattern `p` of length `L`: `L` for the last byte of the pattern and for
/// any byte absent from it, else `L - i - 1` where `i` is the byte's last
/// position before the final one.
pub open spec fn bad_char_skip(p: Seq<u8>, c: u8) -> int {
    if p.len() == 0 {
        0
    } else if c == p.last() {
        p.len() as int
    } else {
        p.len() - 1 - last_index_of(p.drop_last(), c)
    }
}

pub proof fn lemma_last_index_of_bounds(s: Seq<u8>, c: u8)
    ensures
        -1 <= last_index_of(s, c) < s.len(),
        last_index_of(s, c) >= 0 ==> s[last_index_of(s, c)] == c,
        forall|j: int| last_index_of(s, c) < j < s.len() ==> s[j] != c,
    decreases s.len(),
{
    if s.len() > 0 && s.last() != c {
        lemma_last_index_of_bounds(s.drop_last(), c);
        assert forall|j: int| last_index_of(s, c) < j < s.len() implies s[j] != c by {
            if j < s.len() - 1 {
                assert(s[j] == s.drop_last()[j]);
            }
        }
    }
}

/// The skip for `c` read off its last position in the whole pattern.
proof fn lemma_skip_from_last_index(p: Seq<u8>, c: u8)
    requires
        p.len() > 0,
    ensures
        bad_char_skip(p, c) == if last_index_of(p, c) == p.len() - 1 {
            p.len() as int
        } else {
            p.len() - 1 - last_index_of(p, c)
        },
{
    lemma_last_index_of_bounds(p.drop_last(), c);
}

/// A skip is never zero: the window always moves forward.
pub proof fn lemma_skip_bounds(p: Seq<u8>, c: u8)
    requires
        p.len() > 0,
    ensures
        1 <= bad_char_skip(p, c) <= p.len(),
{
    lemma_last_index_of_bounds(p.drop_last(), c);
}

/// The table of skip distances for one pattern.
pub struct BadMatchTable {
    mapping: HashMap<u8, usize>,
    size: usize,
    pattern: Ghost<Seq<u8>>,
}

impl View for BadMatchTable {
    /// The pattern the table was built for.
    type V = Seq<u8>;

    closed spec fn view(&self) -> Seq<u8> {
        self.pattern@
    }
}

impl BadMatchTable {
    #[verifier::type_invariant]
    spec fn inv(self) -> bool {
        &&& self.size == self.pattern@.len()
        &&& forall|c: u8|
            #[trigger] self.mapping@.contains_key(c) ==> self.mapping@[c] == bad_char_skip(
                self.pattern@,
                c,
            )
        &&& forall|c: u8|
            !#[trigger] self.mapping@.contains_key(c) ==> bad_char_skip(self.pattern@, c)
                == self.size
    }

    /// Builds the table for `pattern`: scanning left to right, each byte at
    /// position `i` records `L - i - 1`, later positions overwriting earlier
    /// ones, and the byte at the final position records `L`.
    pub fn new(pattern: &str) -> (r: Self)
        ensures
            r@ == pattern.spec_bytes(),
    {
        let bytes = pattern.as_bytes();
        let pattern_length = bytes.len();
        let mut skip_mappings: HashMap<u8, usize> = HashMap::new();
        let ghost p = bytes@;
        let mut i: usize = 0;
        while i < pattern_length
            invariant
                p == bytes@,
                pattern_length == p.len(),
                i <= pattern_length,
                forall|c: u8|
                    #[trigger] skip_mappings@.contains_key(c) <==> last_index_of(
                        p.take(i as int),
                        c,
                    ) >= 0,
                forall|c: u8| #[trigger]
                    skip_mappings@.contains_key(c) ==> skip_mappings@[c] == if last_index_of(
                        p.take(i as int),
                        c,
                    ) == pattern_length - 1 {
                        pattern_length as int
                    } else {
                        pattern_length - 1 - last_index_of(p.take(i as int), c)
                    },
            decreases pattern_length - i,
        {
            let c = bytes[i];
            let skip = pattern_length - i - 1;
            proof {
                assert(p.take(i + 1).drop_last() =~= p.take(i as int));
                assert forall|d: u8| last_index_of(p.take(i as int), d) < i by {
                    lemma_last_index_of_bounds(p.take(i as int), d);
                }
            }
            if i == pattern_length - 1 && !skip_mappings.contains_key(&c) {
                skip_mappings.insert(c, pattern_length);
            } else if skip == 0 {
                skip_mappings.insert(c, pattern_length);
            } else {
                skip_mappings.insert(c, skip);
            }
            i = i + 1;
        }
        proof {
            assert(p.take(pattern_length as int) =~= p);
            if pattern_length > 0 {
                assert(p.drop_last() =~= p.take(pattern_length - 1));
            }
            assert forall|c: u8|
                (#[trigger] skip_mappings@.contains_key(c) ==> skip_mappings@[c] == bad_char_skip(p, c))
                    && (!skip_mappings@.contains_key(c) ==> bad_char_skip(p, c)
                    == pattern_length) by {
                lemma_last_index_of_bounds(p, c);
                if pattern_length > 0 {
                    lemma_skip_from_last_index(p, c);
                }
            }
        }
        BadMatchTable { mapping: skip_mappings, size: pattern_length, pattern: Ghost(p) }
    }

    /// The skip distance for byte `c`.
    pub fn get(&self, c: u8) -> (r: usize)
        ensures
            r == bad_char_skip(self@, c),
            self@.len() > 0 ==> 1 <= r <= self@.len(),
    {
        proof {
            use_type_invariant(self);
            if self@.len() > 0 {
                lemma_skip_bounds(self@, c);
            }
        }
        match self.mapping.get(&c) {
            Some(value) => *value,
            None => self.size,
        }
    }
}

} // verus!
