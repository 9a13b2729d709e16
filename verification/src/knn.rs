//! Exact brute-force k-nearest-neighbour search.
//!
//! `knn` ranks a labelled set of points against one query vector; ties in
//! distance are broken by ascending point index.  `find_nearest_teams`
//! invokes the search once per team, with ties broken by the ascending
//! lexicographic order of the neighbour's identifier.

use vstd::prelude::*;
use crate::distance::DistanceError;
use crate::distance::coords_ok;
use crate::distance::dist_sq;
use crate::distance::dist_sq_exec;
use crate::features::TeamFeatures;
use crate::ids::lex_lt;
use crate::ids::lemma_lex_lt_total;
use crate::ids::lemma_lex_lt_transitive;
use crate::ids::str_lt;

verus! {

/// The smaller of two lengths.
pub open spec fn min_len(a: int, b: int) -> int {
    if a <= b {
        a
    } else {
        b
    }
}

/// Strict ranking of `(point index, squared distance)` entries: ascending
/// by distance, ties broken by ascending index.
pub open spec fn idx_rank_lt(a: (usize, u128), b: (usize, u128)) -> bool {
    a.1 < b.1 || (a.1 == b.1 && a.0 < b.0)
}

/// The entries are strictly ascending in the index ranking.
pub open spec fn sorted_by_rank(s: Seq<(usize, u128)>) -> bool {
    forall|m1: int, m2: int|
        0 <= m1 < m2 < s.len() ==> idx_rank_lt(#[trigger] s[m1], #[trigger] s[m2])
}

/// Some entry of `s` is exactly `e`.
pub open spec fn entry_in(s: Seq<(usize, u128)>, e: (usize, u128)) -> bool {
    exists|m: int| 0 <= m < s.len() && s[m] == e
}

/// Some entry of `s` carries point index `j`.
pub open spec fn has_idx(s: Seq<(usize, u128)>, j: int) -> bool {
    exists|m: int| 0 <= m < s.len() && (#[trigger] s[m]).0 == j
}

/// Entry `e` ranks strictly before a point with index `j` at squared
/// distance `dj`.
pub open spec fn ranks_before(e: (usize, u128), j: int, dj: int) -> bool {
    e.1 < dj || (e.1 == dj && e.0 < j)
}

/// Inserts one entry into a ranked list at its rank position.  Every
/// already-listed entry must carry a smaller point index, so the new entry
/// goes after any entry at equal distance.
fn insert_ranked(lst: &mut Vec<(usize, u128)>, idx: usize, d: u128)
    requires
        sorted_by_rank(old(lst)@),
        forall|m: int| 0 <= m < old(lst)@.len() ==> (#[trigger] old(lst)@[m]).0 < idx,
    ensures
        final(lst)@.len() == old(lst)@.len() + 1,
        sorted_by_rank(final(lst)@),
        forall|e: (usize, u128)|
            #[trigger] entry_in(final(lst)@, e) <==> (entry_in(old(lst)@, e) || e == (idx, d)),
{
    let n = lst.len();
    let mut p: usize = 0;
    while p < n && lst[p].1 <= d
        invariant
            lst == old(lst),
            n == lst@.len(),
            0 <= p <= n,
            forall|m: int| 0 <= m < p ==> (#[trigger] lst@[m]).1 <= d,
        decreases n - p,
    {
        p = p + 1;
    }
    proof {
        assert(p < n ==> lst@[p as int].1 > d);
    }
    let ghost s0 = lst@;
    lst.insert(p, (idx, d));
    proof {
        s0.insert_ensures(p as int, (idx, d));
        let s1 = lst@;
        assert forall|m1: int, m2: int|
            0 <= m1 < m2 < s1.len() implies idx_rank_lt(s1[m1], s1[m2]) by {
            if m2 < p {
                assert(s1[m1] == s0[m1] && s1[m2] == s0[m2]);
            } else if m1 > p {
                assert(s1[m1] == s0[m1 - 1] && s1[m2] == s0[m2 - 1]);
            } else if m1 < p && m2 == p {
                assert(s1[m1] == s0[m1]);
                assert(s0[m1].1 <= d && s0[m1].0 < idx);
            } else if m1 == p {
                assert(s1[m2] == s0[m2 - 1]);
                if m2 - 1 == p {
                    assert(s0[m2 - 1].1 > d);
                } else {
                    assert(s0[p as int].1 > d);
                    assert(idx_rank_lt(s0[p as int], s0[m2 - 1]));
                }
            } else {
                assert(s1[m1] == s0[m1] && s1[m2] == s0[m2 - 1]);
                if m2 - 1 == m1 {
                    assert(s0[m1].1 <= d && s0[p as int].1 > d);
                    assert(m1 < p && p <= m2 - 1);
                } else {
                    assert(idx_rank_lt(s0[m1], s0[m2 - 1]));
                }
            }
        }
        assert forall|e: (usize, u128)|
            entry_in(s1, e) <==> (entry_in(s0, e) || e == (idx, d)) by {
            if entry_in(s1, e) {
                let m = choose|m: int| 0 <= m < s1.len() && s1[m] == e;
                if m < p {
                    assert(s0[m] == e);
                } else if m == p {
                    assert(e == (idx, d));
                } else {
                    assert(s0[m - 1] == e);
                }
            }
            if entry_in(s0, e) {
                let m2 = choose|m2: int| 0 <= m2 < s0.len() && s0[m2] == e;
                if m2 < p {
                    assert(s1[m2] == e);
                } else {
                    assert(s1[m2 + 1] == e);
                }
            }
            if e == (idx, d) {
                assert(s1[p as int] == e);
            }
        }
    }
}

/// Ranks every point against `query` and returns the `min(k, |points|)`
/// best entries `(point index, squared distance)`, ascending by distance
/// with ties broken by ascending index.  Every point that is left out
/// ranks at or behind every entry returned.
pub fn knn(points: &Vec<Vec<i64>>, query: &Vec<i64>, k: usize) -> (res: Vec<(usize, u128)>)
    requires
        forall|i: int| 0 <= i < points@.len() ==> (#[trigger] points@[i])@.len() == query@.len(),
        forall|i: int| 0 <= i < points@.len() ==> coords_ok((#[trigger] points@[i])@),
        coords_ok(query@),
    ensures
        res@.len() == min_len(k as int, points@.len() as int),
        forall|m: int|
            0 <= m < res@.len()
                ==> (#[trigger] res@[m]).0 < points@.len() && res@[m].1 == dist_sq(
                points@[res@[m].0 as int]@,
                query@,
            ),
        sorted_by_rank(res@),
        forall|j: int, m: int|
            0 <= j < points@.len() && 0 <= m < res@.len() && !has_idx(res@, j)
                ==> ranks_before(#[trigger] res@[m], j, dist_sq(#[trigger] points@[j]@, query@)),
{
    let n = points.len();
    let mut out: Vec<(usize, u128)> = Vec::new();
    let mut idx: usize = 0;
    while idx < n
        invariant
            n == points@.len(),
            forall|i: int| 0 <= i < points@.len() ==> (#[trigger] points@[i])@.len() == query@.len(),
            forall|i: int| 0 <= i < points@.len() ==> coords_ok((#[trigger] points@[i])@),
            coords_ok(query@),
            0 <= idx <= n,
            out@.len() == idx,
            sorted_by_rank(out@),
            forall|m: int|
                0 <= m < out@.len()
                    ==> (#[trigger] out@[m]).0 < idx && out@[m].1 == dist_sq(
                    points@[out@[m].0 as int]@,
                    query@,
                ),
            forall|j: int| 0 <= j < idx ==> has_idx(out@, j),
        decreases n - idx,
    {
        let d = dist_sq_exec(&points[idx], query);
        let ghost out0 = out@;
        insert_ranked(&mut out, idx, d);
        proof {
            assert(entry_in(out@, (idx, d)));
            assert forall|m: int|
                0 <= m < out@.len() implies (#[trigger] out@[m]).0 < idx + 1 && out@[m].1
                == dist_sq(points@[out@[m].0 as int]@, query@) by {
                assert(entry_in(out@, out@[m]));
                if out@[m] != (idx, d) {
                    assert(entry_in(out0, out@[m]));
                    let m2 = choose|m2: int| 0 <= m2 < out0.len() && out0[m2] == out@[m];
                    assert(out0[m2].0 < idx);
                }
            }
            assert forall|j: int| 0 <= j < idx + 1 implies has_idx(out@, j) by {
                if j < idx {
                    assert(has_idx(out0, j));
                    let m = choose|m: int| 0 <= m < out0.len() && (#[trigger] out0[m]).0 == j;
                    assert(entry_in(out0, out0[m]));
                    assert(entry_in(out@, out0[m]));
                    let m2 = choose|m2: int| 0 <= m2 < out@.len() && out@[m2] == out0[m];
                    assert(out@[m2].0 == j);
                } else {
                    let m = choose|m: int| 0 <= m < out@.len() && out@[m] == (idx, d);
                    assert(out@[m].0 == idx);
                }
            }
        }
        idx = idx + 1;
    }
    let ghost full = out@;
    out.truncate(k);
    proof {
        if k < n {
            assert(out@ == full.subrange(0, k as int));
        } else {
            assert(out@ == full);
        }
        assert forall|j: int, m: int|
            0 <= j < points@.len() && 0 <= m < out@.len() && !has_idx(out@, j)
                implies ranks_before(out@[m], j, dist_sq(points@[j]@, query@)) by {
            assert(has_idx(full, j));
            let mj = choose|mj: int| 0 <= mj < full.len() && (#[trigger] full[mj]).0 == j;
            assert(full[mj].1 == dist_sq(points@[j]@, query@));
            if mj < out@.len() {
                assert(out@[mj] == full[mj]);
                assert(out@[mj].0 == j);
                assert(has_idx(out@, j));
            }
            assert(mj >= out@.len());
            assert(out@[m] == full[m]);
            assert(idx_rank_lt(full[m], full[mj]));
        }
    }
    out
}


/// Neighbour entries are strictly ascending: by distance, ties broken by
/// the lexicographic order of the neighbour's identifier.
pub open spec fn sorted_by_nbr_rank(s: Seq<(String, u128)>) -> bool {
    forall|m1: int, m2: int|
        0 <= m1 < m2 < s.len() ==> ((#[trigger] s[m1]).1 < (#[trigger] s[m2]).1 || (s[m1].1
            == s[m2].1 && lex_lt(s[m1].0@, s[m2].0@)))
}

/// Some neighbour entry of `s` carries identifier `k`.
pub open spec fn has_nbr_key(s: Seq<(String, u128)>, k: Seq<char>) -> bool {
    exists|m: int| 0 <= m < s.len() && (#[trigger] s[m]).0@ == k
}

/// Some neighbour entry of `s` is exactly `(k, d)`.
pub open spec fn nbr_entry_in(s: Seq<(String, u128)>, k: Seq<char>, d: u128) -> bool {
    exists|m: int| 0 <= m < s.len() && (#[trigger] s[m]).0@ == k && s[m].1 == d
}

/// Entry `e` ranks strictly before a neighbour with identifier `k` at
/// squared distance `dj`.
pub open spec fn nbr_ranks_before(e: (String, u128), k: Seq<char>, dj: int) -> bool {
    e.1 < dj || (e.1 == dj && lex_lt(e.0@, k))
}

/// Inserts one neighbour entry into a ranked list at its rank position.
/// No already-listed entry may carry the same identifier.
fn insert_nbr(lst: &mut Vec<(String, u128)>, name: String, d: u128)
    requires
        sorted_by_nbr_rank(old(lst)@),
        forall|m: int| 0 <= m < old(lst)@.len() ==> (#[trigger] old(lst)@[m]).0@ != name@,
    ensures
        final(lst)@.len() == old(lst)@.len() + 1,
        sorted_by_nbr_rank(final(lst)@),
        forall|k: Seq<char>, e_d: u128|
            #[trigger] nbr_entry_in(final(lst)@, k, e_d) <==> (nbr_entry_in(old(lst)@, k, e_d)
                || (k == name@ && e_d == d)),
{
    let n = lst.len();
    let mut p: usize = 0;
    while p < n && (lst[p].1 < d || (lst[p].1 == d && str_lt(lst[p].0.as_str(), name.as_str())))
        invariant
            lst == old(lst),
            sorted_by_nbr_rank(lst@),
            forall|m: int| 0 <= m < lst@.len() ==> (#[trigger] lst@[m]).0@ != name@,
            n == lst@.len(),
            0 <= p <= n,
            forall|m: int|
                0 <= m < p ==> ((#[trigger] lst@[m]).1 < d || (lst@[m].1 == d && lex_lt(
                    lst@[m].0@,
                    name@,
                ))),
        decreases n - p,
    {
        p = p + 1;
    }
    proof {
        if p < n {
            assert(lst@[p as int].1 > d || (lst@[p as int].1 == d && !lex_lt(
                lst@[p as int].0@,
                name@,
            )));
            if lst@[p as int].1 == d {
                lemma_lex_lt_total(lst@[p as int].0@, name@);
                assert(lex_lt(name@, lst@[p as int].0@));
            }
        }
    }
    let ghost s0 = lst@;
    lst.insert(p, (name, d));
    proof {
        s0.insert_ensures(p as int, lst@[p as int]);
        let s1 = lst@;
        assert(s1[p as int].0@ == name@ && s1[p as int].1 == d);
        assert forall|m1: int, m2: int|
            0 <= m1 < m2 < s1.len() implies (s1[m1].1 < s1[m2].1 || (s1[m1].1 == s1[m2].1
            && lex_lt(s1[m1].0@, s1[m2].0@))) by {
            if m2 < p {
                assert(s1[m1] == s0[m1] && s1[m2] == s0[m2]);
            } else if m1 > p {
                assert(s1[m1] == s0[m1 - 1] && s1[m2] == s0[m2 - 1]);
            } else if m1 < p && m2 == p {
                assert(s1[m1] == s0[m1]);
            } else if m1 == p {
                assert(s1[m2] == s0[m2 - 1]);
                if m2 - 1 > p {
                    // the first passed-over entry ranks before s0[m2 - 1]
                    assert(s0[p as int].1 <= s0[m2 - 1].1);
                    if s0[m2 - 1].1 == d {
                        assert(s0[p as int].1 == d);
                        assert(lex_lt(name@, s0[p as int].0@));
                        assert(lex_lt(s0[p as int].0@, s0[m2 - 1].0@));
                        lemma_lex_lt_transitive(name@, s0[p as int].0@, s0[m2 - 1].0@);
                    }
                }
            } else {
                assert(s1[m1] == s0[m1] && s1[m2] == s0[m2 - 1]);
                if m2 - 1 == m1 {
                } else {
                    assert(s0[m1].1 <= s0[m2 - 1].1);
                    if s0[m1].1 == s0[m2 - 1].1 {
                        assert(lex_lt(s0[m1].0@, s0[m2 - 1].0@));
                    }
                }
            }
        }
        assert forall|k: Seq<char>, e_d: u128|
            nbr_entry_in(s1, k, e_d) <==> (nbr_entry_in(s0, k, e_d) || (k == name@ && e_d
            == d)) by {
            if nbr_entry_in(s1, k, e_d) {
                let m = choose|m: int| 0 <= m < s1.len() && (#[trigger] s1[m]).0@ == k && s1[m].1 == e_d;
                if m < p {
                    assert(s0[m].0@ == k && s0[m].1 == e_d);
                } else if m > p {
                    assert(s0[m - 1].0@ == k && s0[m - 1].1 == e_d);
                }
            }
            if nbr_entry_in(s0, k, e_d) {
                let m2 = choose|m2: int| 0 <= m2 < s0.len() && (#[trigger] s0[m2]).0@ == k && s0[m2].1 == e_d;
                if m2 < p {
                    assert(s1[m2].0@ == k && s1[m2].1 == e_d);
                } else {
                    assert(s1[m2 + 1].0@ == k && s1[m2 + 1].1 == e_d);
                }
            }
            if k == name@ && e_d == d {
                assert(s1[p as int].0@ == k && s1[p as int].1 == e_d);
            }
        }
    }
}


/// One neighbour list per team of the input mapping, keyed by the team's
/// identifier.
pub struct NeighborMap {
    pairs: Vec<(String, Vec<(String, u128)>)>,
}

impl NeighborMap {
    /// Number of teams.
    pub closed spec fn spec_len(&self) -> nat {
        self.pairs@.len()
    }

    /// Identifier of the team at position `i`.
    pub closed spec fn key_at(&self, i: int) -> Seq<char> {
        self.pairs@[i].0@
    }

    /// Neighbour list of the team at position `i`.
    pub closed spec fn nbrs_at(&self, i: int) -> Seq<(String, u128)> {
        self.pairs@[i].1@
    }

    /// The map holds an entry under key `k`.
    pub open spec fn has_key(&self, k: Seq<char>) -> bool {
        exists|i: int| 0 <= i < self.spec_len() && self.key_at(i) == k
    }

    /// Identifiers are pairwise distinct.
    pub open spec fn wf(&self) -> bool {
        forall|i: int, j: int|
            #![trigger self.key_at(i), self.key_at(j)]
            0 <= i < j < self.spec_len() ==> self.key_at(i) != self.key_at(j)
    }

    /// In a well-formed map, two positions holding the same identifier
    /// coincide.
    pub proof fn lemma_key_unique(&self, i: int, j: int)
        requires
            self.wf(),
            0 <= i < self.spec_len(),
            0 <= j < self.spec_len(),
            self.key_at(i) == self.key_at(j),
        ensures
            i == j,
    {
    }

    /// Number of teams.
    pub fn len(&self) -> (r: usize)
        ensures
            r == self.spec_len(),
    {
        self.pairs.len()
    }

    /// Whether the map holds a neighbour list for `team`.
    pub fn contains_key(&self, team: &str) -> (r: bool)
        ensures
            r == self.has_key(team@),
    {
        let n = self.pairs.len();
        let mut j: usize = 0;
        while j < n
            invariant
                n == self.spec_len(),
                0 <= j <= n,
                forall|m: int| 0 <= m < j ==> self.key_at(m) != team@,
            decreases n - j,
        {
            if crate::ids::str_eq(self.pairs[j].0.as_str(), team) {
                proof {
                    assert(self.key_at(j as int) == team@);
                }
                return true;
            }
            j = j + 1;
        }
        false
    }

    /// The neighbour list stored under `team`, if any.
    pub fn get(&self, team: &str) -> (r: Option<&Vec<(String, u128)>>)
        requires
            self.wf(),
        ensures
            (r is Some) <==> self.has_key(team@),
            forall|i: int|
                0 <= i < self.spec_len() && self.key_at(i) == team@
                    ==> (r matches Some(v) && v@ == self.nbrs_at(i)),
    {
        let n = self.pairs.len();
        let mut j: usize = 0;
        while j < n
            invariant
                self.wf(),
                n == self.spec_len(),
                0 <= j <= n,
                forall|m: int| 0 <= m < j ==> self.key_at(m) != team@,
            decreases n - j,
        {
            if crate::ids::str_eq(self.pairs[j].0.as_str(), team) {
                proof {
                    assert(self.key_at(j as int) == team@);
                    assert forall|i: int|
                        0 <= i < self.spec_len() && self.key_at(i) == team@ implies i == j by {
                        self.lemma_key_unique(i, j as int);
                    }
                }
                return Some(&self.pairs[j].1);
            }
            j = j + 1;
        }
        None
    }
}

/// Entry `e` names some team of `tf` at position `j < jb`, other than team
/// `i`, together with that team's squared distance to team `i`.
pub open spec fn from_team(tf: &TeamFeatures, i: int, jb: int, e: (String, u128)) -> bool {
    exists|j: int|
        0 <= j < jb && j != i && e.0@ == #[trigger] tf.key_at(j) && e.1 == dist_sq(
            tf.vec_at(j),
            tf.vec_at(i),
        )
}

/// A `from_team` entry stays one when the position bound widens.
proof fn lemma_from_team_widen(tf: &TeamFeatures, i: int, jb1: int, jb2: int, e: (String, u128))
    requires
        from_team(tf, i, jb1, e),
        jb1 <= jb2,
    ensures
        from_team(tf, i, jb2, e),
{
    let j = choose|j: int|
        0 <= j < jb1 && j != i && e.0@ == #[trigger] tf.key_at(j) && e.1 == dist_sq(
            tf.vec_at(j),
            tf.vec_at(i),
        );
    assert(0 <= j < jb2 && j != i && e.0@ == tf.key_at(j) && e.1 == dist_sq(
        tf.vec_at(j),
        tf.vec_at(i),
    ));
}

/// In a well-formed mapping, a `from_team` entry for team `i` never
/// carries the identifier of a team at a position at or past the bound,
/// nor that of team `i` itself.
proof fn lemma_from_team_key(tf: &TeamFeatures, i: int, jb: int, e: (String, u128), j2: int)
    requires
        tf.wf(),
        from_team(tf, i, jb, e),
        0 <= j2 < tf.spec_len(),
        jb <= tf.spec_len(),
        e.0@ == tf.key_at(j2),
    ensures
        0 <= j2 < jb,
        j2 != i,
        e.1 == dist_sq(tf.vec_at(j2), tf.vec_at(i)),
{
    let j = choose|j: int|
        0 <= j < jb && j != i && e.0@ == #[trigger] tf.key_at(j) && e.1 == dist_sq(
            tf.vec_at(j),
            tf.vec_at(i),
        );
    tf.lemma_key_unique(j, j2);
}

/// A correct neighbour list for the team at position `i` of `tf`: it holds
/// the `min(k, n - 1)` other teams closest to team `i`, ascending by
/// squared distance with ties broken by the identifier's lexicographic
/// order, and every team it leaves out ranks at or behind every listed
/// entry.
pub open spec fn nbr_list_ok(tf: &TeamFeatures, i: int, k: int, s: Seq<(String, u128)>) -> bool {
    &&& s.len() == min_len(k, tf.spec_len() as int - 1)
    &&& sorted_by_nbr_rank(s)
    &&& (forall|m: int|
        0 <= m < s.len() ==> from_team(tf, i, tf.spec_len() as int, #[trigger] s[m]))
    &&& (forall|j: int, m: int|
        0 <= j < tf.spec_len() && j != i && 0 <= m < s.len() && !has_nbr_key(s, tf.key_at(j))
            ==> nbr_ranks_before(
            #[trigger] s[m],
            tf.key_at(j),
            dist_sq(#[trigger] tf.vec_at(j), tf.vec_at(i)),
        ))
}

/// For every team of the mapping, the `k` other teams nearest to it by
/// squared Euclidean distance, ascending, with distance ties broken by the
/// neighbour identifier's lexicographic order.  Fails with
/// `DimensionMismatch`, before any per-team work, exactly when the feature
/// vectors do not share one dimension.
pub fn find_nearest_teams(tf: &TeamFeatures, k: usize) -> (r: Result<NeighborMap, DistanceError>)
    requires
        tf.wf(),
    ensures
        (r is Ok) <==> tf.uniform(),
        !tf.uniform() ==> r == Err::<NeighborMap, DistanceError>(DistanceError::DimensionMismatch),
        r matches Ok(nm) ==> nm.spec_len() == tf.spec_len(),
        r matches Ok(nm) ==> nm.wf(),
        r matches Ok(nm) ==> forall|i: int|
            0 <= i < tf.spec_len() ==> nm.key_at(i) == tf.key_at(i),
        r matches Ok(nm) ==> forall|i: int|
            0 <= i < tf.spec_len() ==> nbr_list_ok(tf, i, k as int, #[trigger] nm.nbrs_at(i)),
        r matches Ok(nm) ==> forall|i: int, m: int|
            0 <= i < nm.spec_len() && 0 <= m < nm.nbrs_at(i).len()
                ==> (#[trigger] nm.nbrs_at(i)[m]).0@ != nm.key_at(i),
{
    let n = tf.len();
    if n > 0 {
        let d0 = tf.vec_ref(0).len();
        let mut t: usize = 1;
        while t < n
            invariant
                n == tf.spec_len(),
                d0 == tf.vec_at(0).len(),
                1 <= t <= n,
                forall|u: int| 0 <= u < t ==> (#[trigger] tf.vec_at(u)).len() == d0,
            decreases n - t,
        {
            if tf.vec_ref(t).len() != d0 {
                proof {
                    assert(tf.vec_at(t as int).len() != tf.vec_at(0).len());
                    assert(!tf.uniform());
                }
                return Err(DistanceError::DimensionMismatch);
            }
            t = t + 1;
        }
        proof {
            assert forall|u1: int, u2: int|
                0 <= u1 < tf.spec_len() && 0 <= u2 < tf.spec_len() implies tf.vec_at(u1).len()
                == tf.vec_at(u2).len() by {
                assert(tf.vec_at(u1).len() == d0 && tf.vec_at(u2).len() == d0);
            }
        }
    }
    proof {
        assert(tf.uniform());
    }
    let mut result: Vec<(String, Vec<(String, u128)>)> = Vec::new();
    let mut i: usize = 0;
    while i < n
        invariant
            tf.wf(),
            tf.uniform(),
            n == tf.spec_len(),
            0 <= i <= n,
            result@.len() == i,
            forall|i2: int| 0 <= i2 < i ==> (#[trigger] result@[i2]).0@ == tf.key_at(i2),
            forall|i2: int|
                0 <= i2 < i ==> nbr_list_ok(tf, i2, k as int, (#[trigger] result@[i2]).1@),
        decreases n - i,
    {
        let mut lst: Vec<(String, u128)> = Vec::new();
        let mut j: usize = 0;
        while j < n
            invariant
                tf.wf(),
                tf.uniform(),
                n == tf.spec_len(),
                0 <= i < n,
                0 <= j <= n,
                lst@.len() == (if j <= i { j as int } else { j - 1 }),
                sorted_by_nbr_rank(lst@),
                forall|m: int|
                    0 <= m < lst@.len() ==> from_team(tf, i as int, j as int, #[trigger] lst@[m]),
                forall|j2: int|
                    0 <= j2 < j && j2 != i ==> has_nbr_key(lst@, #[trigger] tf.key_at(j2)),
            decreases n - j,
        {
            if j != i {
                let dv = dist_sq_exec(tf.vec_ref(j), tf.vec_ref(i));
                proof {
                    assert forall|m: int|
                        0 <= m < lst@.len() implies (#[trigger] lst@[m]).0@ != tf.key_at(
                        j as int,
                    ) by {
                        if lst@[m].0@ == tf.key_at(j as int) {
                            lemma_from_team_key(
                                tf,
                                i as int,
                                j as int,
                                lst@[m],
                                j as int,
                            );
                        }
                    }
                }
                let ghost lst0 = lst@;
                let name = tf.key_ref(j).clone();
                insert_nbr(&mut lst, name, dv);
                proof {
                    assert(nbr_entry_in(lst@, tf.key_at(j as int), dv));
                    assert forall|m: int|
                        0 <= m < lst@.len() implies from_team(
                        tf,
                        i as int,
                        j + 1,
                        #[trigger] lst@[m],
                    ) by {
                        let e = lst@[m];
                        assert(nbr_entry_in(lst@, e.0@, e.1));
                        if e.0@ == tf.key_at(j as int) && e.1 == dv {
                            assert(0 <= (j as int) && (j as int) < j + 1 && (j as int) != (
                            i as int) && e.0@ == tf.key_at(j as int) && e.1 == dist_sq(
                                tf.vec_at(j as int),
                                tf.vec_at(i as int),
                            ));
                        } else {
                            assert(nbr_entry_in(lst0, e.0@, e.1));
                            let m2 = choose|m2: int|
                                0 <= m2 < lst0.len() && (#[trigger] lst0[m2]).0@ == e.0@
                                    && lst0[m2].1 == e.1;
                            assert(from_team(tf, i as int, j as int, lst0[m2]));
                            let j2 = choose|j2: int|
                                0 <= j2 < j && j2 != i && lst0[m2].0@ == #[trigger] tf.key_at(j2)
                                    && lst0[m2].1 == dist_sq(tf.vec_at(j2), tf.vec_at(i as int));
                            assert(0 <= j2 < j + 1 && j2 != i as int && e.0@ == tf.key_at(j2)
                                && e.1 == dist_sq(tf.vec_at(j2), tf.vec_at(i as int)));
                        }
                    }
                    assert forall|j2: int|
                        0 <= j2 < j + 1 && j2 != i implies has_nbr_key(
                        lst@,
                        #[trigger] tf.key_at(j2),
                    ) by {
                        if j2 < j {
                            let m = choose|m: int|
                                0 <= m < lst0.len() && (#[trigger] lst0[m]).0@ == tf.key_at(j2);
                            assert(nbr_entry_in(lst0, tf.key_at(j2), lst0[m].1));
                            assert(nbr_entry_in(lst@, tf.key_at(j2), lst0[m].1));
                            let m2 = choose|m2: int|
                                0 <= m2 < lst@.len() && (#[trigger] lst@[m2]).0@ == tf.key_at(j2)
                                    && lst@[m2].1 == lst0[m].1;
                            assert(lst@[m2].0@ == tf.key_at(j2));
                        } else {
                            let m2 = choose|m2: int|
                                0 <= m2 < lst@.len() && (#[trigger] lst@[m2]).0@ == tf.key_at(
                                    j as int,
                                ) && lst@[m2].1 == dv;
                            assert(lst@[m2].0@ == tf.key_at(j2));
                        }
                    }
                }
            } else {
                proof {
                    assert forall|m: int|
                        0 <= m < lst@.len() implies from_team(
                        tf,
                        i as int,
                        j + 1,
                        #[trigger] lst@[m],
                    ) by {
                        lemma_from_team_widen(tf, i as int, j as int, j + 1, lst@[m]);
                    }
                }
            }
            j = j + 1;
        }
        let ghost lstfull = lst@;
        lst.truncate(k);
        proof {
            if (k as int) < lstfull.len() {
                assert(lst@ == lstfull.subrange(0, k as int));
            } else {
                assert(lst@ == lstfull);
            }
            assert(lst@.len() == min_len(k as int, tf.spec_len() as int - 1));
            assert forall|m: int|
                0 <= m < lst@.len() implies from_team(
                tf,
                i as int,
                tf.spec_len() as int,
                #[trigger] lst@[m],
            ) by {
                assert(lst@[m] == lstfull[m]);
                assert(from_team(tf, i as int, n as int, lstfull[m]));
            }
            assert forall|j2: int, m: int|
                0 <= j2 < tf.spec_len() && j2 != i && 0 <= m < lst@.len() && !has_nbr_key(
                    lst@,
                    tf.key_at(j2),
                ) implies nbr_ranks_before(
                #[trigger] lst@[m],
                tf.key_at(j2),
                dist_sq(#[trigger] tf.vec_at(j2), tf.vec_at(i as int)),
            ) by {
                assert(has_nbr_key(lstfull, tf.key_at(j2)));
                let mj = choose|mj: int|
                    0 <= mj < lstfull.len() && (#[trigger] lstfull[mj]).0@ == tf.key_at(j2);
                lemma_from_team_key(tf, i as int, n as int, lstfull[mj], j2);
                assert(lstfull[mj].1 == dist_sq(tf.vec_at(j2), tf.vec_at(i as int)));
                if mj < lst@.len() {
                    assert(lst@[mj] == lstfull[mj]);
                    assert(has_nbr_key(lst@, tf.key_at(j2)));
                }
                assert(mj >= lst@.len());
                assert(lst@[m] == lstfull[m]);
                assert(lstfull[m].1 < lstfull[mj].1 || (lstfull[m].1 == lstfull[mj].1 && lex_lt(
                    lstfull[m].0@,
                    lstfull[mj].0@,
                )));
            }
            assert(nbr_list_ok(tf, i as int, k as int, lst@));
        }
        let team = tf.key_ref(i).clone();
        result.push((team, lst));
        i = i + 1;
    }
    let nm = NeighborMap { pairs: result };
    proof {
        assert(nm.spec_len() == tf.spec_len());
        assert(forall|i2: int| 0 <= i2 < nm.spec_len() ==> nm.key_at(i2) == tf.key_at(i2));
        assert(forall|i2: int|
            0 <= i2 < nm.spec_len() ==> nbr_list_ok(tf, i2, k as int, #[trigger] nm.nbrs_at(i2)));
        assert forall|i2: int, m: int|
            0 <= i2 < nm.spec_len() && 0 <= m < nm.nbrs_at(i2).len() implies (#[trigger] nm.nbrs_at(
            i2,
        )[m]).0@ != nm.key_at(i2) by {
            let s = nm.nbrs_at(i2);
            assert(from_team(tf, i2, tf.spec_len() as int, s[m]));
            if s[m].0@ == nm.key_at(i2) {
                lemma_from_team_key(tf, i2, tf.spec_len() as int, s[m], i2);
            }
        }
    }
    Ok(nm)
}

} // verus!
