//! The team feature mapping: each team identifier owns one fixed-point
//! feature vector.
//!
//! The mapping is an insertion-ordered association list with pairwise
//! distinct keys, so every traversal of it is deterministic and the
//! structures derived from it (similarity graph, neighbour lists) are
//! reproducible.

use vstd::prelude::*;
use crate::distance::coords_ok;
use crate::ids::str_eq;

verus! {

/// Mapping from team identifier to feature vector.  Both core components
/// treat a value of this type as an immutable input snapshot.
pub struct TeamFeatures {
    pairs: Vec<(String, Vec<i64>)>,
}

impl TeamFeatures {
    /// Number of teams in the mapping.
    pub closed spec fn spec_len(&self) -> nat {
        self.pairs@.len()
    }

    /// Identifier of the team at position `i`.
    pub closed spec fn key_at(&self, i: int) -> Seq<char> {
        self.pairs@[i].0@
    }

    /// Feature vector of the team at position `i`.
    pub closed spec fn vec_at(&self, i: int) -> Seq<i64> {
        self.pairs@[i].1@
    }

    /// The mapping holds an entry under key `k`.
    pub open spec fn has_key(&self, k: Seq<char>) -> bool {
        exists|i: int| 0 <= i < self.spec_len() && self.key_at(i) == k
    }

    /// Well-formed: identifiers are pairwise distinct and every coordinate
    /// lies in the fixed-point domain.
    pub open spec fn wf(&self) -> bool {
        &&& forall|i: int, j: int|
            #![trigger self.key_at(i), self.key_at(j)]
            0 <= i < j < self.spec_len() ==> self.key_at(i) != self.key_at(j)
        &&& forall|i: int|
            0 <= i < self.spec_len() ==> coords_ok(#[trigger] self.vec_at(i))
    }

    /// Every feature vector has the same dimension.
    pub open spec fn uniform(&self) -> bool {
        forall|i: int, j: int|
            0 <= i < self.spec_len() && 0 <= j < self.spec_len()
                ==> self.vec_at(i).len() == self.vec_at(j).len()
    }

    /// An empty mapping.
    pub fn new() -> (r: TeamFeatures)
        ensures
            r.spec_len() == 0,
            r.wf(),
    {
        TeamFeatures { pairs: Vec::new() }
    }

    /// Number of teams.
    pub fn len(&self) -> (r: usize)
        ensures
            r == self.spec_len(),
    {
        self.pairs.len()
    }

    /// A borrow of the identifier at position `i`.
    pub fn key_ref(&self, i: usize) -> (r: &String)
        requires
            i < self.spec_len(),
        ensures
            r@ == self.key_at(i as int),
    {
        &self.pairs[i].0
    }

    /// A borrow of the feature vector at position `i`.
    pub fn vec_ref(&self, i: usize) -> (r: &Vec<i64>)
        requires
            i < self.spec_len(),
        ensures
            r@ == self.vec_at(i as int),
    {
        &self.pairs[i].1
    }

    /// Inserts a feature vector under `team`: replaces the entry in place
    /// when the key is already present, appends it otherwise.
    pub fn insert(&mut self, team: &str, coords: Vec<i64>)
        requires
            old(self).wf(),
            coords_ok(coords@),
        ensures
            final(self).wf(),
            final(self).has_key(team@),
            old(self).has_key(team@) ==> final(self).spec_len() == old(self).spec_len(),
            !old(self).has_key(team@) ==> final(self).spec_len() == old(self).spec_len() + 1,
            forall|i: int|
                0 <= i < old(self).spec_len()
                    ==> final(self).key_at(i) == old(self).key_at(i),
            !old(self).has_key(team@)
                ==> final(self).key_at(old(self).spec_len() as int) == team@,
            forall|i: int|
                0 <= i < final(self).spec_len() && final(self).key_at(i) != team@
                    ==> final(self).vec_at(i) == old(self).vec_at(i),
            forall|i: int|
                0 <= i < final(self).spec_len() && final(self).key_at(i) == team@
                    ==> final(self).vec_at(i) == coords@,
    {
        let n = self.pairs.len();
        let mut j: usize = 0;
        while j < n
            invariant
                self == old(self),
                old(self).wf(),
                coords_ok(coords@),
                n == self.spec_len(),
                0 <= j <= n,
                forall|m: int| 0 <= m < j ==> self.key_at(m) != team@,
            decreases n - j,
        {
            if str_eq(self.pairs[j].0.as_str(), team) {
                let key = self.pairs[j].0.clone();
                self.pairs[j] = (key, coords);
                proof {
                    assert(forall|i: int|
                        0 <= i < self.spec_len() && i != j
                            ==> self.key_at(i) == old(self).key_at(i)
                                && self.vec_at(i) == old(self).vec_at(i));
                    assert(self.key_at(j as int) == team@);
                    assert(old(self).key_at(j as int) == team@);
                    assert(forall|i: int|
                        0 <= i < self.spec_len()
                            ==> self.key_at(i) == old(self).key_at(i));
                    assert(self.spec_len() == old(self).spec_len());
                    assert forall|i: int|
                        0 <= i < self.spec_len() && self.key_at(i) == team@ implies i == j by {
                        old(self).lemma_key_unique(i, j as int);
                    }
                    assert forall|i1: int, i2: int|
                        0 <= i1 < i2 < self.spec_len()
                            implies self.key_at(i1) != self.key_at(i2) by {
                        assert(self.key_at(i1) == old(self).key_at(i1));
                        assert(self.key_at(i2) == old(self).key_at(i2));
                        assert(old(self).key_at(i1) != old(self).key_at(i2));
                    }
                    assert forall|i: int|
                        0 <= i < self.spec_len() implies coords_ok(self.vec_at(i)) by {
                        if i != j {
                            assert(self.vec_at(i) == old(self).vec_at(i));
                            assert(coords_ok(old(self).vec_at(i)));
                        }
                    }
                    assert(self.has_key(team@));
                    assert(old(self).has_key(team@));
                }
                return ;
            }
            j = j + 1;
        }
        self.pairs.push((team.to_owned(), coords));
        proof {
            assert(self.key_at(n as int) == team@);
            assert(self.has_key(team@));
            assert(forall|i: int|
                0 <= i < n
                    ==> self.key_at(i) == old(self).key_at(i)
                        && self.vec_at(i) == old(self).vec_at(i));
            assert(!old(self).has_key(team@));
        }
    }

    /// In a well-formed mapping, two positions holding the same identifier
    /// coincide.
    pub proof fn lemma_key_unique(&self, i: int, j: int)
        requires
            self.wf(),
            0 <= i < self.spec_len(),
            0 <= j < self.spec_len(),
            self.key_at(i) == self.key_at(j),
        ensures
            i == j,
    {
    }

    /// Whether the mapping holds an entry under `team`.
    pub fn contains_key(&self, team: &str) -> (r: bool)
        ensures
            r == self.has_key(team@),
    {
        let n = self.pairs.len();
        let mut j: usize = 0;
        while j < n
            invariant
                n == self.spec_len(),
                0 <= j <= n,
                forall|m: int| 0 <= m < j ==> self.key_at(m) != team@,
            decreases n - j,
        {
            if str_eq(self.pairs[j].0.as_str(), team) {
                proof {
                    assert(self.key_at(j as int) == team@);
                }
                return true;
            }
            j = j + 1;
        }
        false
    }

    /// The feature vector stored under `team`, if any.
    pub fn get(&self, team: &str) -> (r: Option<&Vec<i64>>)
        requires
            self.wf(),
        ensures
            (r is Some) <==> self.has_key(team@),
            forall|i: int|
                0 <= i < self.spec_len() && self.key_at(i) == team@
                    ==> (r matches Some(v) && v@ == self.vec_at(i)),
    {
        let n = self.pairs.len();
        let mut j: usize = 0;
        while j < n
            invariant
                self.wf(),
                n == self.spec_len(),
                0 <= j <= n,
                forall|m: int| 0 <= m < j ==> self.key_at(m) != team@,
            decreases n - j,
        {
            if str_eq(self.pairs[j].0.as_str(), team) {
                proof {
                    assert(self.key_at(j as int) == team@);
                    assert forall|i: int|
                        0 <= i < self.spec_len() && self.key_at(i) == team@ implies i == j by {
                        self.lemma_key_unique(i, j as int);
                    }
                }
                return Some(&self.pairs[j].1);
            }
            j = j + 1;
        }
        None
    }
}

} // verus!

