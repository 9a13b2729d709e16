//! The similarity graph builder.
//!
//! Teams whose feature-vector sum exceeds the activity threshold become
//! nodes of an undirected petgraph graph; every unordered pair of admitted
//! teams closer than the cutoff is connected by exactly one edge, weighted
//! with the pair's squared distance.  The graph itself lives in petgraph;
//! what the library knows of it is stated over two names for its contents,
//! `graph_nodes` and `graph_edges`, through the trusted wrappers below.

use vstd::prelude::*;
use crate::distance::DistanceError;
use crate::distance::coord_ok;
use crate::distance::coords_ok;
use crate::distance::dist_sq;
use crate::distance::dist_sq_exec;
use crate::features::TeamFeatures;
use crate::ids::str_eq;
use petgraph::Undirected;
use petgraph::graph::Graph;
use petgraph::graph::NodeIndex;

verus! {

#[verifier::external_type_specification]
#[verifier::external_body]
#[verifier::reject_recursive_types(N)]
#[verifier::reject_recursive_types(E)]
#[verifier::reject_recursive_types(Ty)]
#[verifier::reject_recursive_types(Ix)]
pub struct ExGraph<N, E, Ty, Ix>(Graph<N, E, Ty, Ix>);

#[verifier::external_type_specification]
#[verifier::external_body]
pub struct ExUndirected(Undirected);

/// The node labels of a similarity graph, in insertion order.
pub uninterp spec fn graph_nodes(g: Graph<String, u128, Undirected>) -> Seq<Seq<char>>;

/// The edges of a similarity graph, in insertion order: both endpoints as
/// node positions, and the edge weight.
pub uninterp spec fn graph_edges(g: Graph<String, u128, Undirected>) -> Seq<(int, int, u128)>;

/// Relies on petgraph's `Graph::new_undirected`: it returns a graph with
/// no nodes and no edges.
#[verifier::external_body]
fn graph_new() -> (g: Graph<String, u128, Undirected>)
    ensures
        graph_nodes(g) == Seq::<Seq<char>>::empty(),
        graph_edges(g) == Seq::<(int, int, u128)>::empty(),
{
    Graph::new_undirected()
}

/// Relies on petgraph's `Graph::add_node`: it appends one node holding the
/// given weight and returns its index, the node count before the call.
/// `add_node` panics at the index type's maximum node count, so that case
/// is excluded.
#[verifier::external_body]
fn graph_add_node(g: &mut Graph<String, u128, Undirected>, label: String) -> (ix: usize)
    requires
        graph_nodes(*old(g)).len() < 0xFFFF_FFFF,
    ensures
        graph_nodes(*final(g)) == graph_nodes(*old(g)).push(label@),
        graph_edges(*final(g)) == graph_edges(*old(g)),
        ix == graph_nodes(*old(g)).len(),
{
    g.add_node(label).index()
}

/// Relies on petgraph's `Graph::add_edge`: it appends one edge between the
/// two given nodes, holding the given weight.  `add_edge` panics when an
/// endpoint does not exist or at the index type's maximum edge count, so
/// those cases are excluded.
#[verifier::external_body]
fn graph_add_edge(g: &mut Graph<String, u128, Undirected>, a: usize, b: usize, w: u128)
    requires
        a < graph_nodes(*old(g)).len(),
        b < graph_nodes(*old(g)).len(),
        graph_edges(*old(g)).len() < 0xFFFF_FFFF,
    ensures
        graph_nodes(*final(g)) == graph_nodes(*old(g)),
        graph_edges(*final(g)) == graph_edges(*old(g)).push((a as int, b as int, w)),
{
    g.add_edge(NodeIndex::new(a), NodeIndex::new(b), w);
}

/// Sum of a feature vector's components.
pub open spec fn sum_of(s: Seq<i64>) -> int
    decreases s.len(),
{
    if s.len() == 0 {
        0
    } else {
        sum_of(s.drop_last()) + s.last()
    }
}

/// Sum of the components, computed exactly in `i128` arithmetic.
fn sum_exec(v: &Vec<i64>) -> (s: i128)
    requires
        coords_ok(v@),
    ensures
        s == sum_of(v@),
{
    let n = v.len();
    let mut acc: i128 = 0;
    let mut i: usize = 0;
    while i < n
        invariant
            n == v@.len(),
            coords_ok(v@),
            0 <= i <= n,
            acc == sum_of(v@.take(i as int)),
            -(i * 1_000_000_000) <= acc <= i * 1_000_000_000,
        decreases n - i,
    {
        proof {
            assert(v@.take(i + 1).drop_last() =~= v@.take(i as int));
            assert(coord_ok(v@[i as int]));
            assert(i * 1_000_000_000 + 1_000_000_000 == (i + 1) * 1_000_000_000)
                by (nonlinear_arith);
            assert((i + 1) * 1_000_000_000 <= n * 1_000_000_000 < i128::MAX) by (nonlinear_arith)
                requires i + 1 <= n && n <= usize::MAX;
        }
        acc = acc + (v[i] as i128);
        i = i + 1;
    }
    proof {
        assert(v@.take(n as int) =~= v@);
    }
    acc
}

/// Team `i` passes the admission filter: the sum of its feature vector's
/// components strictly exceeds the activity threshold.
pub open spec fn admitted(tf: &TeamFeatures, t: int, i: int) -> bool {
    sum_of(tf.vec_at(i)) > t
}

/// The positions of the admitted teams among the first `n` entries of the
/// mapping, ascending.
pub open spec fn admitted_idxs(tf: &TeamFeatures, t: int, n: int) -> Seq<int>
    decreases n,
{
    if n <= 0 {
        Seq::empty()
    } else {
        let rest = admitted_idxs(tf, t, n - 1);
        if admitted(tf, t, n - 1) {
            rest.push(n - 1)
        } else {
            rest
        }
    }
}

/// The admitted positions are exactly the admitted teams, in ascending
/// order.
pub proof fn lemma_admitted_idxs(tf: &TeamFeatures, t: int, n: int)
    requires
        0 <= n,
    ensures
        forall|m: int|
            0 <= m < admitted_idxs(tf, t, n).len() ==> 0 <= #[trigger] admitted_idxs(tf, t, n)[m]
                < n && admitted(tf, t, admitted_idxs(tf, t, n)[m]),
        forall|m1: int, m2: int|
            0 <= m1 < m2 < admitted_idxs(tf, t, n).len() ==> admitted_idxs(tf, t, n)[m1]
                < admitted_idxs(tf, t, n)[m2],
        forall|i: int|
            0 <= i < n && admitted(tf, t, i) ==> exists|m: int|
                0 <= m < admitted_idxs(tf, t, n).len() && #[trigger] admitted_idxs(tf, t, n)[m]
                    == i,
    decreases n,
{
    if n > 0 {
        lemma_admitted_idxs(tf, t, n - 1);
        let rest = admitted_idxs(tf, t, n - 1);
        let cur = admitted_idxs(tf, t, n);
        assert forall|i: int|
            0 <= i < n && admitted(tf, t, i) implies exists|m: int|
            0 <= m < cur.len() && #[trigger] cur[m] == i by {
            if i < n - 1 {
                let m = choose|m: int| 0 <= m < rest.len() && #[trigger] rest[m] == i;
                assert(cur[m] == i);
            } else {
                assert(cur[cur.len() - 1] == i);
            }
        }
    }
}

/// Mapping from team identifier to the team's node position in the
/// similarity graph.
pub struct TeamIndices {
    pairs: Vec<(String, usize)>,
}

impl TeamIndices {
    /// Number of graph nodes.
    pub closed spec fn spec_len(&self) -> nat {
        self.pairs@.len()
    }

    /// Identifier of the node at position `i`.
    pub closed spec fn key_at(&self, i: int) -> Seq<char> {
        self.pairs@[i].0@
    }

    /// Node position stored under the identifier at position `i`.
    pub closed spec fn idx_at(&self, i: int) -> usize {
        self.pairs@[i].1
    }

    /// The map holds an entry under key `k`.
    pub open spec fn has_key(&self, k: Seq<char>) -> bool {
        exists|i: int| 0 <= i < self.spec_len() && self.key_at(i) == k
    }

    /// Identifiers are pairwise distinct.
    pub open spec fn wf(&self) -> bool {
        forall|i: int, j: int|
            #![trigger self.key_at(i), self.key_at(j)]
            0 <= i < j < self.spec_len() ==> self.key_at(i) != self.key_at(j)
    }

    /// In a well-formed map, two positions holding the same identifier
    /// coincide.
    pub proof fn lemma_key_unique(&self, i: int, j: int)
        requires
            self.wf(),
            0 <= i < self.spec_len(),
            0 <= j < self.spec_len(),
            self.key_at(i) == self.key_at(j),
        ensures
            i == j,
    {
    }

    /// Number of entries.
    pub fn len(&self) -> (r: usize)
        ensures
            r == self.spec_len(),
    {
        self.pairs.len()
    }

    /// Whether a team has a node in the graph.
    pub fn contains_key(&self, team: &str) -> (r: bool)
        ensures
            r == self.has_key(team@),
    {
        let n = self.pairs.len();
        let mut j: usize = 0;
        while j < n
            invariant
                n == self.spec_len(),
                0 <= j <= n,
                forall|m: int| 0 <= m < j ==> self.key_at(m) != team@,
            decreases n - j,
        {
            if str_eq(self.pairs[j].0.as_str(), team) {
                proof {
                    assert(self.key_at(j as int) == team@);
                }
                return true;
            }
            j = j + 1;
        }
        false
    }

    /// The node position of `team`, if the team has a node.
    pub fn get(&self, team: &str) -> (r: Option<usize>)
        requires
            self.wf(),
        ensures
            (r is Some) <==> self.has_key(team@),
            forall|i: int|
                0 <= i < self.spec_len() && self.key_at(i) == team@
                    ==> r == Some(self.idx_at(i)),
    {
        let n = self.pairs.len();
        let mut j: usize = 0;
        while j < n
            invariant
                self.wf(),
                n == self.spec_len(),
                0 <= j <= n,
                forall|m: int| 0 <= m < j ==> self.key_at(m) != team@,
            decreases n - j,
        {
            if str_eq(self.pairs[j].0.as_str(), team) {
                proof {
                    assert(self.key_at(j as int) == team@);
                    assert forall|i: int|
                        0 <= i < self.spec_len() && self.key_at(i) == team@ implies i == j by {
                        self.lemma_key_unique(i, j as int);
                    }
                }
                return Some(self.pairs[j].1);
            }
            j = j + 1;
        }
        None
    }
}

/// Some edge of `es` joins node positions `x` and `y`, in that
/// orientation.
pub open spec fn edge_for(es: Seq<(int, int, u128)>, x: int, y: int) -> bool {
    exists|q: int| 0 <= q < es.len() && (#[trigger] es[q]).0 == x && es[q].1 == y
}

/// All admitted teams share one feature-vector dimension, so every
/// distance the edge loop evaluates is defined.
pub open spec fn admitted_uniform(tf: &TeamFeatures, t: int) -> bool {
    forall|i1: int, i2: int|
        #![trigger admitted(tf, t, i1), admitted(tf, t, i2)]
        0 <= i1 < tf.spec_len() && 0 <= i2 < tf.spec_len() && admitted(tf, t, i1) && admitted(
            tf,
            t,
            i2,
        ) ==> tf.vec_at(i1).len() == tf.vec_at(i2).len()
}

/// Everything `create_graph` promises of a returned graph and node-index
/// map: one node per admitted team in mapping order; exactly one edge per
/// unordered admitted pair strictly closer than the cutoff, weighted with
/// the pair's squared distance; and the index map sending each node label
/// to its node position.
pub open spec fn create_graph_post(
    tf: &TeamFeatures,
    t: int,
    cutoff_sq: u128,
    g: Graph<String, u128, Undirected>,
    ti: TeamIndices,
) -> bool {
    let ais = admitted_idxs(tf, t, tf.spec_len() as int);
    let es = graph_edges(g);
    &&& graph_nodes(g).len() == ais.len()
    &&& (forall|m: int| 0 <= m < ais.len() ==> #[trigger] graph_nodes(g)[m] == tf.key_at(ais[m]))
    &&& ti.spec_len() == ais.len()
    &&& (forall|m: int| 0 <= m < ais.len() ==> #[trigger] ti.key_at(m) == tf.key_at(ais[m]))
    &&& (forall|m: int| 0 <= m < ais.len() ==> #[trigger] ti.idx_at(m) == m)
    &&& (forall|q: int|
        0 <= q < es.len() ==> 0 <= (#[trigger] es[q]).0 < es[q].1 < ais.len() && es[q].2
            == dist_sq(tf.vec_at(ais[es[q].0]), tf.vec_at(ais[es[q].1])) && es[q].2 < cutoff_sq)
    &&& (forall|q1: int, q2: int|
        0 <= q1 < q2 < es.len() ==> !((#[trigger] es[q1]).0 == (#[trigger] es[q2]).0 && es[q1].1
            == es[q2].1))
    &&& (forall|x: int, y: int|
        0 <= x < y < ais.len() ==> (edge_for(es, x, y) <==> dist_sq(
            tf.vec_at(#[trigger] ais[x]),
            tf.vec_at(#[trigger] ais[y]),
        ) < cutoff_sq))
}

/// Copies a coordinate vector.
fn copy_coords(v: &Vec<i64>) -> (r: Vec<i64>)
    ensures
        r@ == v@,
{
    let n = v.len();
    let mut r: Vec<i64> = Vec::new();
    let mut i: usize = 0;
    while i < n
        invariant
            n == v@.len(),
            0 <= i <= n,
            r@ == v@.take(i as int),
        decreases n - i,
    {
        r.push(v[i]);
        proof {
            assert(v@.take(i + 1) =~= v@.take(i as int).push(v@[i as int]));
        }
        i = i + 1;
    }
    proof {
        assert(v@.take(n as int) =~= v@);
    }
    r
}

/// Builds the similarity graph: one node per team whose feature-vector
/// sum strictly exceeds `activity_threshold`, and one edge per unordered
/// pair of admitted teams whose squared distance is strictly below
/// `cutoff_sq`, weighted with that squared distance.  Also returns the map
/// from team identifier to node position.  Fails with `DimensionMismatch`
/// exactly when the admitted teams' vectors do not share one dimension.
/// The mapping may hold at most `0xFFFF` teams: petgraph stores edge
/// indices in a `u32`, and a mapping of that size already admits close to
/// the largest edge count that fits.
pub fn create_graph(tf: &TeamFeatures, activity_threshold: i64, cutoff_sq: u128) -> (r: Result<
    (Graph<String, u128, Undirected>, TeamIndices),
    DistanceError,
>)
    requires
        tf.wf(),
        tf.spec_len() <= 0xFFFF,
    ensures
        (r is Ok) <==> admitted_uniform(tf, activity_threshold as int),
        !admitted_uniform(tf, activity_threshold as int) ==> r == Err::<
            (Graph<String, u128, Undirected>, TeamIndices),
            DistanceError,
        >(DistanceError::DimensionMismatch),
        r matches Ok(p) ==> create_graph_post(tf, activity_threshold as int, cutoff_sq, p.0, p.1),
        r matches Ok(p) ==> p.1.wf(),
{
    let n = tf.len();
    let ghost t = activity_threshold as int;
    proof {
        lemma_admitted_idxs(tf, t, n as int);
    }
    let ghost ais = admitted_idxs(tf, t, n as int);
    let mut g = graph_new();
    let mut ti_pairs: Vec<(String, usize)> = Vec::new();
    let mut avecs: Vec<Vec<i64>> = Vec::new();
    let mut i: usize = 0;
    while i < n
        invariant
            tf.wf(),
            t == activity_threshold as int,
            n == tf.spec_len(),
            n <= 0xFFFF,
            0 <= i <= n,
            graph_edges(g) == Seq::<(int, int, u128)>::empty(),
            graph_nodes(g).len() == admitted_idxs(tf, t, i as int).len(),
            ti_pairs@.len() == admitted_idxs(tf, t, i as int).len(),
            avecs@.len() == admitted_idxs(tf, t, i as int).len(),
            forall|m: int|
                0 <= m < admitted_idxs(tf, t, i as int).len() ==> {
                    let ai = #[trigger] admitted_idxs(tf, t, i as int)[m];
                    &&& graph_nodes(g)[m] == tf.key_at(ai)
                    &&& ti_pairs@[m].0@ == tf.key_at(ai)
                    &&& ti_pairs@[m].1 == m
                    &&& avecs@[m]@ == tf.vec_at(ai)
                },
        decreases n - i,
    {
        proof {
            lemma_admitted_idxs(tf, t, i as int);
            assert(coords_ok(tf.vec_at(i as int)));
        }
        let v = tf.vec_ref(i);
        let s = sum_exec(v);
        proof {
            assert(admitted_idxs(tf, t, i + 1) == if admitted(tf, t, i as int) {
                admitted_idxs(tf, t, i as int).push(i as int)
            } else {
                admitted_idxs(tf, t, i as int)
            });
        }
        if s > (activity_threshold as i128) {
            proof {
                assert(admitted(tf, t, i as int));
                assert(admitted_idxs(tf, t, i as int).len() <= i) by {
                    lemma_admitted_idxs(tf, t, i as int);
                    admitted_idxs_len_bound(tf, t, i as int);
                }
            }
            let label = tf.key_ref(i).clone();
            let ix = graph_add_node(&mut g, label);
            ti_pairs.push((tf.key_ref(i).clone(), ix));
            avecs.push(copy_coords(v));
        } else {
            proof {
                assert(!admitted(tf, t, i as int));
            }
        }
        i = i + 1;
    }
    proof {
        assert(admitted_idxs(tf, t, n as int) == ais);
        admitted_idxs_len_bound(tf, t, n as int);
    }
    let cnt = ti_pairs.len();
    if cnt > 0 {
        let d0 = avecs[0].len();
        let mut m: usize = 1;
        while m < cnt
            invariant
                tf.wf(),
                t == activity_threshold as int,
                n == tf.spec_len(),
                cnt == ais.len(),
                ais == admitted_idxs(tf, t, n as int),
                avecs@.len() == cnt,
                1 <= m <= cnt,
                d0 == avecs@[0]@.len(),
                forall|u: int|
                    0 <= u < cnt ==> (#[trigger] avecs@[u])@ == tf.vec_at(ais[u]),
                forall|u: int| 0 <= u < m ==> (#[trigger] avecs@[u])@.len() == d0,
            decreases cnt - m,
        {
            if avecs[m].len() != d0 {
                proof {
                    lemma_admitted_idxs(tf, t, n as int);
                    assert(admitted(tf, t, ais[0]) && admitted(tf, t, ais[m as int]));
                    assert(tf.vec_at(ais[m as int]).len() != tf.vec_at(ais[0]).len());
                    assert(!admitted_uniform(tf, t));
                }
                return Err(DistanceError::DimensionMismatch);
            }
            m = m + 1;
        }
    }
    proof {
        lemma_admitted_idxs(tf, t, n as int);
        assert forall|i1: int, i2: int|
            0 <= i1 < tf.spec_len() && 0 <= i2 < tf.spec_len() && admitted(tf, t, i1) && admitted(
                tf,
                t,
                i2,
            ) implies tf.vec_at(i1).len() == tf.vec_at(i2).len() by {
            let m1 = choose|m1: int| 0 <= m1 < ais.len() && #[trigger] ais[m1] == i1;
            let m2 = choose|m2: int| 0 <= m2 < ais.len() && #[trigger] ais[m2] == i2;
            assert(avecs@[m1]@ == tf.vec_at(i1));
            assert(avecs@[m2]@ == tf.vec_at(i2));
        }
        assert(admitted_uniform(tf, t));
    }
    let mut a: usize = 0;
    while a < cnt
        invariant
            tf.wf(),
            t == activity_threshold as int,
            n == tf.spec_len(),
            n <= 0xFFFF,
            cnt == ais.len(),
            cnt <= n,
            ais == admitted_idxs(tf, t, n as int),
            avecs@.len() == cnt,
            ti_pairs@.len() == cnt,
            graph_nodes(g).len() == cnt,
            forall|m: int|
                0 <= m < cnt ==> {
                    let ai = #[trigger] ais[m];
                    &&& graph_nodes(g)[m] == tf.key_at(ai)
                    &&& ti_pairs@[m].0@ == tf.key_at(ai)
                    &&& ti_pairs@[m].1 == m
                    &&& avecs@[m]@ == tf.vec_at(ai)
                },
            forall|u1: int, u2: int|
                0 <= u1 < cnt && 0 <= u2 < cnt ==> (#[trigger] avecs@[u1])@.len() == (
                #[trigger] avecs@[u2])@.len(),
            0 <= a <= cnt,
            graph_edges(g).len() <= a * cnt,
            forall|q: int|
                0 <= q < graph_edges(g).len() ==> 0 <= (#[trigger] graph_edges(g)[q]).0
                    < graph_edges(g)[q].1 < cnt && graph_edges(g)[q].0 < a && graph_edges(g)[q].2
                    == dist_sq(
                    tf.vec_at(ais[graph_edges(g)[q].0]),
                    tf.vec_at(ais[graph_edges(g)[q].1]),
                ) && graph_edges(g)[q].2 < cutoff_sq,
            forall|q1: int, q2: int|
                0 <= q1 < q2 < graph_edges(g).len() ==> !((#[trigger] graph_edges(g)[q1]).0 == (
                #[trigger] graph_edges(g)[q2]).0 && graph_edges(g)[q1].1 == graph_edges(g)[q2].1),
            forall|x: int, y: int|
                0 <= x < y < cnt && x < a ==> (edge_for(graph_edges(g), x, y) <==> dist_sq(
                    tf.vec_at(#[trigger] ais[x]),
                    tf.vec_at(#[trigger] ais[y]),
                ) < cutoff_sq),
        decreases cnt - a,
    {
        let mut b: usize = a + 1;
        while b < cnt
            invariant
                tf.wf(),
                t == activity_threshold as int,
                n == tf.spec_len(),
                n <= 0xFFFF,
                cnt == ais.len(),
                cnt <= n,
                ais == admitted_idxs(tf, t, n as int),
                avecs@.len() == cnt,
                ti_pairs@.len() == cnt,
                graph_nodes(g).len() == cnt,
                forall|m: int|
                    0 <= m < cnt ==> {
                        let ai = #[trigger] ais[m];
                        &&& graph_nodes(g)[m] == tf.key_at(ai)
                        &&& ti_pairs@[m].0@ == tf.key_at(ai)
                        &&& ti_pairs@[m].1 == m
                        &&& avecs@[m]@ == tf.vec_at(ai)
                    },
                forall|u1: int, u2: int|
                    0 <= u1 < cnt && 0 <= u2 < cnt ==> (#[trigger] avecs@[u1])@.len() == (
                    #[trigger] avecs@[u2])@.len(),
                0 <= a < cnt,
                a < b <= cnt,
                graph_edges(g).len() <= a * cnt + b,
                forall|q: int|
                    0 <= q < graph_edges(g).len() ==> 0 <= (#[trigger] graph_edges(g)[q]).0
                        < graph_edges(g)[q].1 < cnt && (graph_edges(g)[q].0 < a || (graph_edges(
                        g,
                    )[q].0 == a && graph_edges(g)[q].1 < b)) && graph_edges(g)[q].2 == dist_sq(
                        tf.vec_at(ais[graph_edges(g)[q].0]),
                        tf.vec_at(ais[graph_edges(g)[q].1]),
                    ) && graph_edges(g)[q].2 < cutoff_sq,
                forall|q1: int, q2: int|
                    0 <= q1 < q2 < graph_edges(g).len() ==> !((#[trigger] graph_edges(g)[q1]).0
                        == (#[trigger] graph_edges(g)[q2]).0 && graph_edges(g)[q1].1
                        == graph_edges(g)[q2].1),
                forall|x: int, y: int|
                    0 <= x < y < cnt && (x < a || (x == a && y < b)) ==> (edge_for(
                        graph_edges(g),
                        x,
                        y,
                    ) <==> dist_sq(tf.vec_at(#[trigger] ais[x]), tf.vec_at(#[trigger] ais[y]))
                        < cutoff_sq),
            decreases cnt - b,
        {
            proof {
                lemma_admitted_idxs(tf, t, n as int);
                assert(coords_ok(tf.vec_at(ais[a as int])));
                assert(coords_ok(tf.vec_at(ais[b as int])));
                assert(avecs@[a as int]@.len() == avecs@[b as int]@.len());
            }
            let d = dist_sq_exec(&avecs[a], &avecs[b]);
            let ghost es0 = graph_edges(g);
            if d < cutoff_sq {
                proof {
                    assert(graph_edges(g).len() < 0xFFFF_FFFF) by (nonlinear_arith)
                        requires
                            graph_edges(g).len() <= a * cnt + b,
                            0 <= a < cnt,
                            a < b <= cnt,
                            cnt <= 0xFFFF;
                }
                graph_add_edge(&mut g, a, b, d);
                proof {
                    let es1 = graph_edges(g);
                    assert(es1[es1.len() - 1] == (a as int, b as int, d));
                    assert(a * cnt + b + 1 == a * cnt + (b + 1));
                    assert forall|x: int, y: int|
                        0 <= x < y < cnt && (x < a || (x == a && y < b + 1)) implies (edge_for(
                        es1,
                        x,
                        y,
                    ) <==> dist_sq(tf.vec_at(#[trigger] ais[x]), tf.vec_at(#[trigger] ais[y]))
                        < cutoff_sq) by {
                        if x == a && y == b {
                            assert(es1[es1.len() - 1].0 == x && es1[es1.len() - 1].1 == y);
                            assert(edge_for(es1, x, y));
                        } else {
                            if edge_for(es1, x, y) {
                                let q = choose|q: int|
                                    0 <= q < es1.len() && (#[trigger] es1[q]).0 == x && es1[q].1
                                        == y;
                                assert(q < es0.len());
                                assert(edge_for(es0, x, y));
                            }
                            if edge_for(es0, x, y) {
                                let q = choose|q: int|
                                    0 <= q < es0.len() && (#[trigger] es0[q]).0 == x && es0[q].1
                                        == y;
                                assert(es1[q].0 == x && es1[q].1 == y);
                                assert(edge_for(es1, x, y));
                            }
                        }
                    }
                }
            } else {
                proof {
                    assert forall|x: int, y: int|
                        0 <= x < y < cnt && (x < a || (x == a && y < b + 1)) implies (edge_for(
                        graph_edges(g),
                        x,
                        y,
                    ) <==> dist_sq(tf.vec_at(#[trigger] ais[x]), tf.vec_at(#[trigger] ais[y]))
                        < cutoff_sq) by {
                        if x == a && y == b {
                            if edge_for(es0, x, y) {
                                let q = choose|q: int|
                                    0 <= q < es0.len() && (#[trigger] es0[q]).0 == x && es0[q].1
                                        == y;
                                assert(es0[q].1 < b);
                            }
                            assert(!edge_for(es0, x, y));
                            assert(dist_sq(tf.vec_at(ais[x]), tf.vec_at(ais[y])) >= cutoff_sq);
                        }
                    }
                }
            }
            b = b + 1;
        }
        proof {
            assert(a * cnt + cnt == (a + 1) * cnt) by (nonlinear_arith);
            assert forall|x: int, y: int|
                0 <= x < y < cnt && x < a + 1 implies (edge_for(graph_edges(g), x, y)
                <==> dist_sq(tf.vec_at(#[trigger] ais[x]), tf.vec_at(#[trigger] ais[y]))
                < cutoff_sq) by {
                assert(x < a || (x == a && y < cnt));
            }
            assert forall|q: int|
                0 <= q < graph_edges(g).len() implies (#[trigger] graph_edges(g)[q]).0 < a
                + 1 by {
            }
        }
        a = a + 1;
    }
    let ti = TeamIndices { pairs: ti_pairs };
    proof {
        assert(ti.spec_len() == cnt);
        assert forall|m1: int, m2: int|
            #![trigger ti.key_at(m1), ti.key_at(m2)]
            0 <= m1 < m2 < ti.spec_len() implies ti.key_at(m1) != ti.key_at(m2) by {
            lemma_admitted_idxs(tf, t, n as int);
            assert(ais[m1] < ais[m2]);
            assert(tf.key_at(ais[m1]) != tf.key_at(ais[m2]));
        }
        let ais2 = admitted_idxs(tf, t, tf.spec_len() as int);
        assert(ais2 == ais);
        assert forall|m: int| 0 <= m < ais2.len() implies #[trigger] ti.idx_at(m) == m by {
            assert(ais[m] == ais2[m]);
        }
        assert(create_graph_post(tf, t, cutoff_sq, g, ti));
    }
    Ok((g, ti))
}

/// The count of admitted positions cannot exceed the scanned prefix.
proof fn admitted_idxs_len_bound(tf: &TeamFeatures, t: int, n: int)
    requires
        0 <= n,
    ensures
        admitted_idxs(tf, t, n).len() <= n,
    decreases n,
{
    if n > 0 {
        admitted_idxs_len_bound(tf, t, n - 1);
    }
}

/// Some edge entry of `es` is exactly `e`.
pub open spec fn edge_entry_in(es: Seq<(int, int, u128)>, e: (int, int, u128)) -> bool {
    exists|q: int| 0 <= q < es.len() && es[q] == e
}

/// The graph's node set is exactly the admitted teams: the node count
/// equals the number of admitted teams, and a team's identifier labels a
/// node if and only if the team is admitted.
pub proof fn lemma_nodes_are_admitted(
    tf: &TeamFeatures,
    t: int,
    cutoff_sq: u128,
    g: Graph<String, u128, Undirected>,
    ti: TeamIndices,
)
    requires
        tf.wf(),
        create_graph_post(tf, t, cutoff_sq, g, ti),
    ensures
        graph_nodes(g).len() == admitted_idxs(tf, t, tf.spec_len() as int).len(),
        forall|i: int|
            0 <= i < tf.spec_len() ==> (admitted(tf, t, i) <==> exists|m: int|
                0 <= m < graph_nodes(g).len() && #[trigger] graph_nodes(g)[m] == tf.key_at(i)),
{
    let n = tf.spec_len() as int;
    let ais = admitted_idxs(tf, t, n);
    lemma_admitted_idxs(tf, t, n);
    assert forall|i: int|
        0 <= i < n implies (admitted(tf, t, i) <==> exists|m: int|
        0 <= m < graph_nodes(g).len() && #[trigger] graph_nodes(g)[m] == tf.key_at(i)) by {
        if admitted(tf, t, i) {
            let m = choose|m: int| 0 <= m < ais.len() && #[trigger] ais[m] == i;
            assert(graph_nodes(g)[m] == tf.key_at(i));
        }
        if exists|m: int|
            0 <= m < graph_nodes(g).len() && #[trigger] graph_nodes(g)[m] == tf.key_at(i) {
            let m = choose|m: int|
                0 <= m < graph_nodes(g).len() && #[trigger] graph_nodes(g)[m] == tf.key_at(i);
            assert(graph_nodes(g)[m] == tf.key_at(ais[m]));
            tf.lemma_key_unique(ais[m], i);
            assert(admitted(tf, t, i));
        }
    }
}

/// No edge carries a weight at or above the cutoff, and every edge joins
/// two distinct admitted teams with the squared distance between them.
pub proof fn lemma_edges_below_cutoff(
    tf: &TeamFeatures,
    t: int,
    cutoff_sq: u128,
    g: Graph<String, u128, Undirected>,
    ti: TeamIndices,
)
    requires
        tf.wf(),
        create_graph_post(tf, t, cutoff_sq, g, ti),
    ensures
        forall|q: int|
            0 <= q < graph_edges(g).len() ==> (#[trigger] graph_edges(g)[q]).2 < cutoff_sq,
        forall|q: int|
            0 <= q < graph_edges(g).len() ==> {
                let ais = admitted_idxs(tf, t, tf.spec_len() as int);
                let e = #[trigger] graph_edges(g)[q];
                &&& 0 <= e.0 < e.1 < ais.len()
                &&& admitted(tf, t, ais[e.0])
                &&& admitted(tf, t, ais[e.1])
                &&& e.2 == dist_sq(tf.vec_at(ais[e.0]), tf.vec_at(ais[e.1]))
            },
{
    lemma_admitted_idxs(tf, t, tf.spec_len() as int);
}

/// The edge set is duplicate-free and canonically oriented: each admitted
/// pair strictly closer than the cutoff is joined by exactly one edge,
/// stored once with its endpoints in ascending node order.
pub proof fn lemma_edge_set_exact(
    tf: &TeamFeatures,
    t: int,
    cutoff_sq: u128,
    g: Graph<String, u128, Undirected>,
    ti: TeamIndices,
)
    requires
        tf.wf(),
        create_graph_post(tf, t, cutoff_sq, g, ti),
    ensures
        forall|q: int|
            0 <= q < graph_edges(g).len() ==> (#[trigger] graph_edges(g)[q]).0 < graph_edges(
                g,
            )[q].1,
        forall|q1: int, q2: int|
            0 <= q1 < graph_edges(g).len() && 0 <= q2 < graph_edges(g).len() && q1 != q2 ==> !((
            #[trigger] graph_edges(g)[q1]).0 == (#[trigger] graph_edges(g)[q2]).0 && graph_edges(
                g,
            )[q1].1 == graph_edges(g)[q2].1),
        forall|x: int, y: int|
            0 <= x < y < admitted_idxs(tf, t, tf.spec_len() as int).len() ==> (edge_for(
                graph_edges(g),
                x,
                y,
            ) <==> dist_sq(
                tf.vec_at(#[trigger] admitted_idxs(tf, t, tf.spec_len() as int)[x]),
                tf.vec_at(#[trigger] admitted_idxs(tf, t, tf.spec_len() as int)[y]),
            ) < cutoff_sq),
{
}

/// Building the similarity graph is deterministic: two graphs built from
/// one mapping with one threshold and one cutoff have the same node
/// sequence, the same edge set, and the same node-index map.
pub proof fn lemma_create_graph_deterministic(
    tf: &TeamFeatures,
    t: int,
    cutoff_sq: u128,
    g1: Graph<String, u128, Undirected>,
    ti1: TeamIndices,
    g2: Graph<String, u128, Undirected>,
    ti2: TeamIndices,
)
    requires
        tf.wf(),
        create_graph_post(tf, t, cutoff_sq, g1, ti1),
        create_graph_post(tf, t, cutoff_sq, g2, ti2),
    ensures
        graph_nodes(g1) == graph_nodes(g2),
        forall|e: (int, int, u128)|
            #[trigger] edge_entry_in(graph_edges(g1), e) <==> edge_entry_in(graph_edges(g2), e),
        ti1.spec_len() == ti2.spec_len(),
        forall|m: int|
            0 <= m < ti1.spec_len() ==> #[trigger] ti1.key_at(m) == ti2.key_at(m) && ti1.idx_at(m)
                == ti2.idx_at(m),
{
    let n = tf.spec_len() as int;
    let ais = admitted_idxs(tf, t, n);
    assert forall|m: int|
        0 <= m < graph_nodes(g1).len() implies graph_nodes(g1)[m] == graph_nodes(g2)[m] by {
        assert(graph_nodes(g1)[m] == tf.key_at(ais[m]));
        assert(graph_nodes(g2)[m] == tf.key_at(ais[m]));
    }
    assert(graph_nodes(g1) =~= graph_nodes(g2));
    assert forall|m: int|
        0 <= m < ti1.spec_len() implies #[trigger] ti1.key_at(m) == ti2.key_at(m) && ti1.idx_at(m)
        == ti2.idx_at(m) by {
        assert(ti1.key_at(m) == tf.key_at(ais[m]));
        assert(ti2.key_at(m) == tf.key_at(ais[m]));
    }
    assert forall|e: (int, int, u128)|
        #[trigger] edge_entry_in(graph_edges(g1), e) implies edge_entry_in(
        graph_edges(g2),
        e,
    ) by {
        lemma_edge_entry_transfer(tf, t, cutoff_sq, g1, ti1, g2, ti2, e);
    }
    assert forall|e: (int, int, u128)|
        #[trigger] edge_entry_in(graph_edges(g2), e) implies edge_entry_in(
        graph_edges(g1),
        e,
    ) by {
        lemma_edge_entry_transfer(tf, t, cutoff_sq, g2, ti2, g1, ti1, e);
    }
}

/// An edge of one correctly built graph exists in any other graph built
/// from the same inputs.
proof fn lemma_edge_entry_transfer(
    tf: &TeamFeatures,
    t: int,
    cutoff_sq: u128,
    ga: Graph<String, u128, Undirected>,
    tia: TeamIndices,
    gb: Graph<String, u128, Undirected>,
    tib: TeamIndices,
    e: (int, int, u128),
)
    requires
        tf.wf(),
        create_graph_post(tf, t, cutoff_sq, ga, tia),
        create_graph_post(tf, t, cutoff_sq, gb, tib),
        edge_entry_in(graph_edges(ga), e),
    ensures
        edge_entry_in(graph_edges(gb), e),
{
    let ais = admitted_idxs(tf, t, tf.spec_len() as int);
    let q = choose|q: int| 0 <= q < graph_edges(ga).len() && graph_edges(ga)[q] == e;
    assert(dist_sq(tf.vec_at(ais[e.0]), tf.vec_at(ais[e.1])) < cutoff_sq);
    assert(edge_for(graph_edges(gb), e.0, e.1));
    let q2 = choose|q2: int|
        0 <= q2 < graph_edges(gb).len() && (#[trigger] graph_edges(gb)[q2]).0 == e.0 && graph_edges(
            gb,
        )[q2].1 == e.1;
    assert(graph_edges(gb)[q2].2 == dist_sq(tf.vec_at(ais[e.0]), tf.vec_at(ais[e.1])));
    assert(graph_edges(gb)[q2] == e);
}

} // verus!
