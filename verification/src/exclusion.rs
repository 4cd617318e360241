//! The tokens that a chunk must leave out.
//!
//! Only the token of a number that fits in `i64` can ever be asked for, so
//! the set keeps the numbers of such tokens and nothing else.

use std::collections::HashSet;
use vstd::prelude::*;
use vstd::std_specs::hash::group_hash_axioms;
use crate::encoding::encode;
use crate::encoding::decode;
use crate::encoding::is_token;
use crate::encoding::from_base64_string;
use crate::encoding::lemma_decode_encode;
use crate::encoding::lemma_encode_decode;
use crate::encoding::lemma_encode_is_token;

verus! {

broadcast use group_hash_axioms;

/// Whether `t` is the token of a number that fits in `i64`.
pub open spec fn is_storable(t: Seq<u8>) -> bool {
    is_token(t) && decode(t) <= i64::MAX
}

/// The storable tokens are the encodings of the numbers from zero to
/// `i64::MAX`.
pub proof fn lemma_storable(t: Seq<u8>)
    ensures
        is_storable(t) <==> exists|n: nat| n <= i64::MAX && encode(n) == t,
{
    if is_storable(t) {
        lemma_encode_decode(t);
        assert(decode(t) <= i64::MAX && encode(decode(t)) == t);
    }
    if exists|n: nat| n <= i64::MAX && encode(n) == t {
        let n = choose|n: nat| n <= i64::MAX && encode(n) == t;
        lemma_encode_is_token(n);
        lemma_decode_encode(n);
    }
}

/// A set of tokens to leave out.
pub struct ExclusionSet {
    values: HashSet<i64>,
}

impl View for ExclusionSet {
    type V = Set<Seq<u8>>;

    /// The tokens in the set.
    closed spec fn view(&self) -> Set<Seq<u8>> {
        Set::new(|t: Seq<u8>| is_storable(t) && self.values@.contains(decode(t) as i64))
    }
}

impl ExclusionSet {
    /// The empty set.
    pub fn new() -> (set: ExclusionSet)
        ensures
            set@ == Set::<Seq<u8>>::empty(),
    {
        let set = ExclusionSet { values: HashSet::new() };
        assert(set@ =~= Set::<Seq<u8>>::empty());
        set
    }

    /// Adds `token` if it is storable, and says whether it is. Anything else
    /// is no token that a chunk could hold, and is dropped.
    pub fn insert(&mut self, token: &[u8]) -> (stored: bool)
        ensures
            stored == is_storable(token@),
            stored ==> final(self)@ == old(self)@.insert(token@),
            !stored ==> final(self)@ == old(self)@,
    {
        proof {
            lemma_storable(token@);
        }
        match from_base64_string(token) {
            Some(n) => {
                self.values.insert(n);
                proof {
                    lemma_decode_encode(n as nat);
                    assert forall|t: Seq<u8>| #[trigger]
                        final(self)@.contains(t) == old(self)@.insert(token@).contains(t) by {
                        if is_storable(t) {
                            lemma_encode_decode(t);
                        }
                    }
                    assert(final(self)@ =~= old(self)@.insert(token@));
                }
                true
            },
            None => false,
        }
    }

    /// Whether `token` is in the set.
    pub fn contains(&self, token: &[u8]) -> (found: bool)
        ensures
            found == self@.contains(token@),
    {
        proof {
            lemma_storable(token@);
        }
        match from_base64_string(token) {
            Some(n) => {
                proof {
                    lemma_decode_encode(n as nat);
                }
                self.values.contains(&n)
            },
            None => false,
        }
    }

    /// Whether the token of `n` is in the set.
    pub fn excludes(&self, n: i64) -> (found: bool)
        requires
            0 <= n,
        ensures
            found == self@.contains(encode(n as nat)),
    {
        proof {
            lemma_decode_encode(n as nat);
            lemma_encode_is_token(n as nat);
        }
        self.values.contains(&n)
    }
}

} // verus!
