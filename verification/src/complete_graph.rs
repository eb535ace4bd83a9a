//! The shortest-path engine over a fixed skeleton graph.
//!
//! A `CompleteGraph` is constructed once from a vertex count and a weighted
//! undirected edge list. Each query runs one Dijkstra-style traversal. A
//! per-engine invalidation clock marks visited vertices: a vertex counts as
//! visited in the current traversal exactly when its stored stamp equals the
//! clock, so resetting between traversals is one increment instead of a
//! sweep; when the clock would wrap, every stamp is physically reset instead.

use vstd::prelude::*;

use crate::assoc::lemma_map_of_contains;
use crate::assoc::lemma_map_of_index;
use crate::assoc::lemma_map_of_len;
use crate::assoc::lemma_map_of_push;
use crate::assoc::lemma_map_of_update;
use crate::assoc::lemma_unique_push;
use crate::assoc::map_of;
use crate::assoc::unique_keys;
use crate::frontier::PriorityElement;
use crate::frontier::PriorityFrontier;
use crate::shortest::Adjacency;
use crate::shortest::Entry;
use crate::shortest::complete_result_map;
use crate::shortest::dist_in;
use crate::shortest::increments_sum;
use crate::shortest::is_path_between;
use crate::shortest::is_shortest;
use crate::shortest::lemma_closed_under_edges;
use crate::shortest::lemma_first_departure;
use crate::shortest::lemma_increments_sum_reverse;
use crate::shortest::lemma_path_connects_prepend;
use crate::shortest::lemma_path_extend;
use crate::shortest::lemma_path_take;
use crate::shortest::lemma_shortest_self;
use crate::shortest::lemma_steps_fuel_mono;
use crate::shortest::lemma_steps_insert;
use crate::shortest::path_connects;
use crate::shortest::path_weight;
use crate::shortest::reachable;
use crate::shortest::steps_to_source;
use crate::shortest::valid_index;
use crate::shortest::valid_result_map;
use vstd::arithmetic::div_mod::lemma_div_is_ordered;
use vstd::arithmetic::div_mod::lemma_div_multiples_vanish;
use vstd::arithmetic::div_mod::lemma_fundamental_div_mod;
use vstd::arithmetic::div_mod::lemma_mod_bound;
use vstd::arithmetic::mul::lemma_mul_inequality;
use vstd::set_lib::lemma_int_range;
use vstd::set_lib::lemma_len_subset;
use vstd::set_lib::set_int_range;

verus! {

/// The largest edge weight a graph on `n` vertices may carry without a
/// traversal being able to overflow a distance: a traversal finalizes at
/// most `n` vertices, each step adding one edge weight.
pub open spec fn weight_cap(n: int) -> int {
    usize::MAX as int / n
}

/// One vertex of the skeleton graph: its incident edges, as an association
/// list from neighbor index to edge weight with pairwise distinct neighbors.
pub struct CompleteGraphVertex {
    pub edges: Vec<(usize, usize)>,
}

/// The engine. `vertices` holds the immutable adjacency built at
/// construction; `timestamps` and `active_timestamp` implement the
/// invalidation clock.
pub struct CompleteGraph {
    /// number of vertices
    pub vertex_num: usize,
    /// the vertices to run Dijkstra's algorithm on
    pub vertices: Vec<CompleteGraphVertex>,
    /// per-vertex stamp of the last traversal that visited it
    timestamps: Vec<usize>,
    /// stamp of the current traversal; a vertex is visited in this
    /// traversal exactly when its stamp equals this value
    active_timestamp: usize,
}

/// Inserting one undirected edge into the adjacency model: the weight is
/// recorded under both endpoints, a repeated pair overwrites.
pub open spec fn insert_both(adj: Adjacency, a: int, b: int, w: usize) -> Adjacency {
    let adj1 = adj.update(a, adj[a].insert(b, w));
    adj1.update(b, adj1[b].insert(a, w))
}

/// The adjacency model a construction edge list denotes.
pub open spec fn build_adj(n: int, edges: Seq<(usize, usize, usize)>) -> Adjacency
    decreases edges.len(),
{
    if edges.len() == 0 {
        Seq::new(n as nat, |i: int| Map::<int, usize>::empty())
    } else {
        let e = edges.last();
        insert_both(build_adj(n, edges.drop_last()), e.0 as int, e.1 as int, e.2)
    }
}

/// The adjacency map of one vertex, read off the same edge list.
pub open spec fn vertex_adj(i: int, edges: Seq<(usize, usize, usize)>) -> Map<int, usize>
    decreases edges.len(),
{
    if edges.len() == 0 {
        Map::empty()
    } else {
        let e = edges.last();
        let prev = vertex_adj(i, edges.drop_last());
        let step1 = if e.0 as int == i {
            prev.insert(e.1 as int, e.2)
        } else {
            prev
        };
        if e.1 as int == i {
            step1.insert(e.0 as int, e.2)
        } else {
            step1
        }
    }
}

/// `build_adj` agrees with the per-vertex reading.
pub proof fn lemma_build_adj_vertex(n: int, edges: Seq<(usize, usize, usize)>, i: int)
    requires
        0 <= i < n,
        forall|k: int|
            0 <= k < edges.len() ==> (#[trigger] edges[k]).0 < n && edges[k].1 < n,
    ensures
        build_adj(n, edges).len() == n,
        build_adj(n, edges)[i] == vertex_adj(i, edges),
    decreases edges.len(),
{
    if edges.len() > 0 {
        let t = edges.drop_last();
        lemma_build_adj_vertex(n, t, i);
        let e = edges.last();
        assert(edges[edges.len() - 1] == e);
    }
}

/// The adjacency a construction edge list denotes is symmetric: every edge
/// is recorded under both endpoints with the same weight.
pub proof fn lemma_build_adj_symmetric(n: int, edges: Seq<(usize, usize, usize)>, i: int, j: int)
    requires
        forall|k: int| 0 <= k < edges.len() ==> (#[trigger] edges[k]).0 < n && edges[k].1 < n,
        0 <= i < n,
        0 <= j < n,
    ensures
        build_adj(n, edges)[i].dom().contains(j) <==> build_adj(n, edges)[j].dom().contains(i),
        build_adj(n, edges)[i].dom().contains(j) ==> build_adj(n, edges)[i][j] == build_adj(
            n,
            edges,
        )[j][i],
    decreases edges.len(),
{
    if edges.len() > 0 {
        let t = edges.drop_last();
        lemma_build_adj_symmetric(n, t, i, j);
        lemma_build_adj_vertex(n, edges, i);
        lemma_build_adj_vertex(n, edges, j);
        lemma_build_adj_vertex(n, t, i);
        lemma_build_adj_vertex(n, t, j);
        assert(edges[edges.len() - 1] == edges.last());
    }
}

impl CompleteGraph {
    /// The adjacency model of this engine.
    pub closed spec fn adj(&self) -> Adjacency {
        Seq::new(self.vertices@.len() as nat, |i: int| map_of(self.vertices@[i].edges@))
    }

    /// The vertex count, for contracts.
    pub closed spec fn n(&self) -> int {
        self.vertex_num as int
    }

    /// The invalidation clock.
    pub closed spec fn clock(&self) -> int {
        self.active_timestamp as int
    }

    /// The stamp of vertex `v`.
    pub closed spec fn stamp(&self, v: int) -> int {
        self.timestamps@[v] as int
    }

    /// Well-formedness: the arrays match the vertex count, no stamp runs
    /// ahead of the clock, neighbor lists are duplicate-free, and every edge
    /// points inside the graph with a weight small enough that no traversal
    /// can overflow a distance.
    pub closed spec fn wf(&self) -> bool {
        &&& self.vertices@.len() == self.vertex_num
        &&& self.timestamps@.len() == self.vertex_num
        &&& forall|v: int| 0 <= v < self.vertex_num ==> self.stamp(v) <= self.clock()
        &&& forall|i: int|
            0 <= i < self.vertex_num ==> unique_keys((#[trigger] self.vertices@[i]).edges@)
        &&& forall|i: int, j: int|
            0 <= i < self.vertex_num && #[trigger] self.adj()[i].dom().contains(j) ==> 0 <= j
                < self.vertex_num
        &&& forall|i: int, j: int|
            0 <= i < self.vertex_num && #[trigger] self.adj()[i].dom().contains(j)
                ==> self.vertex_num * (self.adj()[i][j] as int) <= usize::MAX as int
    }

    /// Create the engine from the skeleton graph. Every edge must join two
    /// existing vertices; the weight bound keeps every distance a traversal
    /// can accumulate within the machine's range.
    pub fn new(vertex_num: usize, weighted_edges: &Vec<(usize, usize, usize)>) -> (r: Self)
        requires
            forall|k: int|
                0 <= k < weighted_edges@.len() ==> {
                    let e = #[trigger] weighted_edges@[k];
                    e.0 < vertex_num && e.1 < vertex_num && vertex_num * e.2 <= usize::MAX
                },
        ensures
            r.wf(),
            r.n() == vertex_num as int,
            r.adj() == build_adj(vertex_num as int, weighted_edges@),
            r.clock() == 0,
    {
        let ghost es = weighted_edges@;
        let mut vertices: Vec<CompleteGraphVertex> = Vec::new();
        let mut timestamps: Vec<usize> = Vec::new();
        let mut i: usize = 0;
        while i < vertex_num
            invariant
                weighted_edges@ == es,
                forall|k2: int|
                    0 <= k2 < es.len() ==> {
                        let e = #[trigger] es[k2];
                        e.0 < vertex_num && e.1 < vertex_num && vertex_num * e.2 <= usize::MAX
                    },
                i <= vertex_num,
                vertices@.len() == i,
                timestamps@.len() == i,
                forall|v: int| 0 <= v < i ==> (#[trigger] timestamps@[v]) == 0,
                forall|v: int|
                    0 <= v < i ==> unique_keys((#[trigger] vertices@[v]).edges@),
                forall|v: int|
                    0 <= v < i ==> map_of((#[trigger] vertices@[v]).edges@) == vertex_adj(v, es),
                forall|v: int, j: int|
                    0 <= v < i && #[trigger] map_of(vertices@[v].edges@).dom().contains(j) ==> 0
                        <= j < vertex_num && vertex_num * (map_of(vertices@[v].edges@)[j] as int)
                        <= usize::MAX as int,
            decreases vertex_num - i,
        {
            let mut edges: Vec<(usize, usize)> = Vec::new();
            let mut k: usize = 0;
            while k < weighted_edges.len()
                invariant
                    weighted_edges@ == es,
                    i < vertex_num,
                    k <= es.len(),
                    forall|k2: int|
                        0 <= k2 < es.len() ==> {
                            let e = #[trigger] es[k2];
                            e.0 < vertex_num && e.1 < vertex_num && vertex_num * e.2 <= usize::MAX
                        },
                    unique_keys(edges@),
                    map_of(edges@) == vertex_adj(i as int, es.take(k as int)),
                    forall|j: int|
                        #[trigger] map_of(edges@).dom().contains(j) ==> 0 <= j < vertex_num,
                    forall|j: int| #[trigger]
                        map_of(edges@).dom().contains(j) ==> vertex_num * (map_of(edges@)[j] as int)
                            <= usize::MAX as int,
                decreases es.len() - k,
            {
                let e = weighted_edges[k];
                proof {
                    assert(es.take(k as int + 1).drop_last() =~= es.take(k as int));
                    assert(es.take(k as int + 1).last() == es[k as int]);
                }
                if e.0 == i {
                    upsert(&mut edges, e.1, e.2);
                }
                if e.1 == i {
                    upsert(&mut edges, e.0, e.2);
                }
                k = k + 1;
            }
            proof {
                assert(es.take(es.len() as int) =~= es);
            }
            vertices.push(CompleteGraphVertex { edges });
            timestamps.push(0);
            i = i + 1;
        }
        let r = Self { vertex_num, vertices, timestamps, active_timestamp: 0 };
        proof {
            assert forall|v: int| 0 <= v < vertex_num implies r.adj()[v] == build_adj(
                vertex_num as int,
                es,
            )[v] by {
                lemma_build_adj_vertex(vertex_num as int, es, v);
            }
            if es.len() == 0 {
                assert(build_adj(vertex_num as int, es).len() == vertex_num);
            } else {
                assert(es[0].0 < vertex_num);
                lemma_build_adj_vertex(vertex_num as int, es, 0);
            }
            assert(r.adj() =~= build_adj(vertex_num as int, es));
        }
        r
    }

    /// Advance the invalidation clock for the next traversal, resetting
    /// every stamp when the clock wraps, and return the new clock value.
    /// Afterwards no vertex counts as visited.
    pub fn invalidate_previous_dijkstra(&mut self) -> (r: usize)
        requires
            old(self).wf(),
        ensures
            final(self).wf(),
            final(self).n() == old(self).n(),
            final(self).adj() == old(self).adj(),
            r as int == final(self).clock(),
            old(self).clock() == usize::MAX as int ==> final(self).clock() == 1 && forall|v: int|
                0 <= v < final(self).n() ==> final(self).stamp(v) == 0,
            old(self).clock() < usize::MAX as int ==> final(self).clock() == old(self).clock() + 1
                && forall|v: int|
                0 <= v < final(self).n() ==> final(self).stamp(v) == old(self).stamp(v),
            forall|v: int| 0 <= v < final(self).n() ==> final(self).stamp(v) < final(self).clock(),
    {
        if self.active_timestamp == usize::MAX {
            self.active_timestamp = 0;
            let mut i: usize = 0;
            while i < self.vertex_num
                invariant
                    i <= self.vertex_num,
                    self.vertex_num == old(self).vertex_num,
                    self.vertices@ == old(self).vertices@,
                    self.timestamps@.len() == self.vertex_num,
                    self.clock() == 0,
                    forall|v: int| 0 <= v < i ==> self.stamp(v) == 0,
                decreases self.vertex_num - i,
            {
                let ghost pre = self.timestamps@;
                proof {
                    assert forall|v: int| 0 <= v < i implies pre[v] == 0 by {
                        assert(self.stamp(v) == 0);
                    }
                }
                self.timestamps[i] = 0;
                proof {
                    assert(self.timestamps@ =~= pre.update(i as int, 0));
                    assert forall|v: int| 0 <= v < i + 1 implies self.stamp(v) == 0 by {
                        if v < i {
                            assert(pre[v] == 0);
                        }
                    }
                }
                i = i + 1;
            }
        }
        let ghost stamps_now = self.timestamps@;
        proof {
            if old(self).clock() == usize::MAX as int {
                assert forall|v: int| 0 <= v < self.vertex_num implies stamps_now[v] == 0 by {
                    assert(self.stamp(v) == 0);
                }
            } else {
                assert forall|v: int|
                    0 <= v < self.vertex_num implies stamps_now[v] <= old(self).clock() by {
                    assert(old(self).stamp(v) <= old(self).clock());
                }
            }
        }
        self.active_timestamp = self.active_timestamp + 1;
        proof {
            assert(self.timestamps@ == stamps_now);
            assert(self.adj() =~= old(self).adj());
            assert forall|v: int| 0 <= v < self.vertex_num implies self.stamp(v) < self.clock() by {
                assert(self.stamp(v) == stamps_now[v]);
            }
            assert(self.wf());
        }
        self.active_timestamp
    }

    /// All shortest distances from `vertex`, stopping as soon as `terminate`
    /// is finalized. Every reported entry holds the true shortest distance
    /// and a predecessor on a shortest path; if `terminate` is reachable
    /// from `vertex` and distinct from it, it is reported; and whenever
    /// `terminate` is not reported, no early exit happened and every
    /// reachable vertex is reported.
    pub fn all_edges_with_terminate(&mut self, vertex: usize, terminate: usize) -> (r: DistanceMap)
        requires
            old(self).wf(),
            (vertex as int) < old(self).n(),
        ensures
            final(self).wf(),
            final(self).n() == old(self).n(),
            final(self).adj() == old(self).adj(),
            r.wf(),
            valid_result_map(old(self).adj(), vertex as int, r@),
            reachable(old(self).adj(), vertex as int, terminate as int) && terminate != vertex
                ==> r@.dom().contains(terminate as int),
            !r@.dom().contains(terminate as int) ==> complete_result_map(
                old(self).adj(),
                vertex as int,
                r@,
            ),
    {
        let ghost g = old(self).adj();
        let ghost s = vertex as int;
        let active_timestamp = self.invalidate_previous_dijkstra();
        let mut pq = PriorityFrontier::new();
        pq.push(vertex, PriorityElement::new(0, vertex));
        let mut computed_edges = DistanceMap::new();
        let ghost mut visited: Set<int> = Set::empty();
        proof {
            assert(self.adj() == g);
            assert(g.len() == old(self).n());
            assert(pq@.dom() =~= set![s]);
            assert(computed_edges@.dom() =~= visited.remove(s));
            assert forall|k: int| #[trigger] pq@.dom().contains(k) implies k == s by {}
            assert(dijkstra_inv(g, s, visited, computed_edges@, pq@));
        }
        loop
            invariant_except_break
                self.wf(),
                self.n() == g.len(),
                self.adj() == g,
                self.clock() == active_timestamp as int,
                s == vertex as int,
                pq.wf(),
                computed_edges.wf(),
                dijkstra_inv(g, s, visited, computed_edges@, pq@),
                forall|v: int|
                    0 <= v < g.len() ==> ((#[trigger] self.stamp(v)) == active_timestamp as int
                        <==> visited.contains(v)),
            ensures
                self.wf(),
                self.n() == g.len(),
                self.adj() == g,
                computed_edges.wf(),
                valid_result_map(g, s, computed_edges@),
                reachable(g, s, terminate as int) && terminate as int != s
                    ==> computed_edges@.dom().contains(terminate as int),
                !computed_edges@.dom().contains(terminate as int) ==> complete_result_map(
                    g,
                    s,
                    computed_edges@,
                ),
            decreases g.len() - visited.len(),
        {
            if pq.len() == 0 {
                proof {
                    pq@.dom().lemma_len0_is_empty();
                    assert(pq@.dom() =~= Set::<int>::empty());
                    if !visited.contains(s) {
                        assert(pq@.dom() =~= set![s]);
                        assert(pq@.dom().contains(s));
                        assert(false);
                    }
                    assert forall|u: int, k2: int|
                        visited.contains(u) && valid_index(g, u) && #[trigger] g[u].dom().contains(
                            k2,
                        ) implies visited.contains(k2) by {
                        if !visited.contains(k2) {
                            assert(pq@.dom().contains(k2));
                            assert(false);
                        }
                    }
                    assert forall|v: int|
                        valid_index(g, v) && v != s && reachable(g, s, v) implies
                        computed_edges@.dom().contains(v) by {
                        let p = choose|p: Seq<int>| is_path_between(g, p, s, v);
                        lemma_closed_under_edges(g, visited, p);
                        assert(visited.contains(v));
                        assert(computed_edges@.dom() == visited.remove(s));
                    }
                    assert(complete_result_map(g, s, computed_edges@));
                    if reachable(g, s, terminate as int) && terminate as int != s {
                        let p = choose|p: Seq<int>| is_path_between(g, p, s, terminate as int);
                        assert(valid_index(g, p.last()));
                    }
                }
                break ;
            }
            let ghost pf0 = pq@;
            let ghost visited0 = visited;
            let (target, element) = pq.pop();
            let ghost t = target as int;
            proof {
                lemma_popped_is_shortest(g, s, visited, computed_edges@, pf0, t);
                assert(0 <= t < g.len());
                assert(!visited.contains(t));
                if t != s {
                    // Only the very first pop can take the source itself.
                    assert(visited.contains(s)) by {
                        if !visited.contains(s) {
                            assert(pf0.dom() =~= set![s]);
                            assert(pf0.dom().contains(t));
                            assert(false);
                        }
                    }
                }
                // Convert stamp facts to sequence facts before mutating.
                assert forall|v: int|
                    0 <= v < g.len() implies ((self.timestamps@[v] == active_timestamp)
                        <==> visited.contains(v)) by {
                    assert((self.stamp(v) == active_timestamp as int) <==> visited.contains(v));
                }
                assert forall|v: int|
                    0 <= v < g.len() implies self.timestamps@[v] <= self.active_timestamp by {
                    assert(self.stamp(v) <= self.clock());
                }
            }
            let ghost stamps_pre = self.timestamps@;
            self.timestamps[target] = active_timestamp;
            proof {
                assert(self.timestamps@ =~= stamps_pre.update(t, active_timestamp));
                assert(self.adj() =~= g);
                visited = visited.insert(t);
                assert(visited.len() == visited0.len() + 1);
                assert(visited.subset_of(set_int_range(0, g.len() as int)));
                lemma_int_range(0, g.len() as int);
                lemma_len_subset(visited, set_int_range(0, g.len() as int));
                assert forall|v: int|
                    0 <= v < g.len() implies ((#[trigger] self.stamp(v))
                        == active_timestamp as int <==> visited.contains(v)) by {
                    if v != t {
                        assert(self.timestamps@[v] == stamps_pre[v]);
                    }
                }
                assert forall|v: int|
                    0 <= v < g.len() implies (#[trigger] self.stamp(v)) <= self.clock() by {
                    if v != t {
                        assert(self.timestamps@[v] == stamps_pre[v]);
                    }
                }
                assert(self.wf());
            }
            let ghost mpre = computed_edges@;
            if target != vertex {
                proof {
                    assert(!mpre.dom().contains(t));
                    lemma_result_insert(g, s, visited0, mpre, element, t);
                }
                computed_edges.insert(target, element.previous, element.weight);
                if target == terminate {
                    proof {
                        assert(computed_edges@.dom().contains(terminate as int));
                    }
                    break ;
                }
            } else {
                proof {
                    lemma_shortest_self(g, s);
                    assert(visited0 =~= Set::<int>::empty());
                    assert(computed_edges@.dom() =~= visited.remove(s));
                }
            }
            let ghost mcur = computed_edges@;
            let ghost eseq = self.vertices@[t].edges@;
            let ghost cap = weight_cap(g.len() as int);
            proof {
                assert(g[t] == map_of(eseq));
                assert(unique_keys(eseq));
                assert(forall|u: int| u != t ==> dist_in(mcur, s, u) == dist_in(mpre, s, u));
                if t != s {
                    assert(mcur[t] == (element.previous, element.weight));
                }
                assert(dist_in(mcur, s, t) == element.weight as int) by {
                    if t == s {
                        assert(frontier_entry_ok(g, s, visited0, mpre, t, element));
                    }
                }
                assert(visited.contains(s) && visited.contains(t));
                assert(valid_result_map(g, s, mcur));
                assert(mcur.dom() == visited.remove(s)) by {
                    if t != s {
                        assert(mcur.dom() =~= visited0.insert(t).remove(s));
                    }
                }
                assert(visited_dists_ok(g, s, visited, mcur)) by {
                    if t == s {
                        assert forall|v: int| #[trigger] visited.contains(v) implies is_shortest(
                            g,
                            s,
                            v,
                            dist_in(mcur, s, v),
                        ) by {
                            assert(v == s);
                        }
                    }
                }
                assert(element.weight as int <= visited0.len() * cap);
                assert(cap >= 0) by {
                    lemma_div_is_ordered(0, usize::MAX as int, g.len() as int);
                    lemma_div_multiples_vanish(0, g.len() as int);
                }
                // Remaining frontier entries stay justified after finalizing t.
                assert forall|k: int| #[trigger] pq@.dom().contains(k) implies {
                    &&& 0 <= k < g.len()
                    &&& !visited.contains(k)
                    &&& frontier_entry_ok(g, s, visited, mcur, k, pq@[k])
                    &&& pq@[k].weight as int <= visited.len() * cap
                } by {
                    assert(pf0.dom().contains(k) && pf0[k] == pq@[k]);
                    assert(k != t);
                    assert(frontier_entry_ok(g, s, visited0, mpre, k, pf0[k]));
                    let e2 = pf0[k];
                    if k == s && e2.weight == 0 && !visited0.contains(s) {
                        assert(pf0.dom() =~= set![s]);
                        assert(false);
                    } else {
                        let p2 = e2.previous as int;
                        assert(visited0.contains(p2));
                        assert(p2 != t);
                        assert(dist_in(mcur, s, p2) == dist_in(mpre, s, p2));
                    }
                    assert(pf0[k].weight as int <= visited0.len() * cap);
                    lemma_mul_inequality(visited0.len() as int, visited.len() as int, cap);
                }
                // Fringe edges out of previously visited vertices stay covered.
                assert forall|u: int, k2: int|
                    visited.contains(u) && u != t && 0 <= u < g.len()
                        && #[trigger] g[u].dom().contains(k2) && !visited.contains(k2) implies
                    pq@.dom().contains(k2) && pq@[k2].weight as int <= dist_in(mcur, s, u)
                        + g[u][k2] by {
                    assert(visited0.contains(u));
                    assert(!visited0.contains(k2));
                    assert(pf0.dom().contains(k2));
                    assert(k2 != t);
                    assert(pq@[k2] == pf0[k2]);
                    assert(dist_in(mcur, s, u) == dist_in(mpre, s, u));
                }
            }
            let edges_len: usize = self.vertices[target].edges.len();
            let mut idx: usize = 0;
            while idx < edges_len
                invariant
                    self.wf(),
                    self.n() == g.len(),
                    self.adj() == g,
                    self.clock() == active_timestamp as int,
                    0 <= s < g.len(),
                    g.len() <= usize::MAX as int,
                    s == vertex as int,
                    t == target as int,
                    0 <= t < g.len(),
                    visited.finite(),
                    visited.contains(t),
                    visited.contains(s),
                    forall|v: int| #[trigger] visited.contains(v) ==> 0 <= v < g.len(),
                    1 <= visited.len() <= g.len(),
                    forall|v: int|
                        0 <= v < g.len() ==> ((#[trigger] self.stamp(v))
                            == active_timestamp as int <==> visited.contains(v)),
                    self.vertices@[t].edges@ == eseq,
                    idx <= eseq.len(),
                    edges_len == eseq.len(),
                    unique_keys(eseq),
                    map_of(eseq) == g[t],
                    computed_edges.wf(),
                    computed_edges@ == mcur,
                    valid_result_map(g, s, mcur),
                    mcur.dom() == visited.remove(s),
                    visited_dists_ok(g, s, visited, mcur),
                    dist_in(mcur, s, t) == element.weight as int,
                    cap == weight_cap(g.len() as int),
                    element.weight as int <= (visited.len() - 1) * cap,
                    pq.wf(),
                    pq@.dom().finite(),
                    frontier_keys_ok(g, visited, pq@),
                    frontier_entries_ok(g, s, visited, mcur, pq@),
                    frontier_bounded(pq@, visited.len() as int, cap),
                    forall|u: int, k2: int|
                        visited.contains(u) && u != t && 0 <= u < g.len()
                            && #[trigger] g[u].dom().contains(k2) && !visited.contains(k2)
                            ==> pq@.dom().contains(k2) && pq@[k2].weight as int <= dist_in(
                            mcur,
                            s,
                            u,
                        ) + g[u][k2],
                    forall|j: int|
                        0 <= j < idx ==> (!visited.contains((#[trigger] eseq[j]).0 as int)
                            ==> pq@.dom().contains(eseq[j].0 as int) && pq@[eseq[j].0 as int].weight
                            as int <= element.weight as int + eseq[j].1),
                decreases eseq.len() - idx,
            {
                let edge = self.vertices[target].edges[idx];
                let neighbor = edge.0;
                let neighbor_weight = edge.1;
                proof {
                    lemma_map_of_index(eseq, idx as int);
                    assert(g[t].dom().contains(neighbor as int));
                    assert(g[t][neighbor as int] == neighbor_weight);
                    assert((neighbor as int) < g.len());
                    assert(g.len() * (neighbor_weight as int) <= usize::MAX as int);
                    lemma_candidate_bound(
                        g.len() as int,
                        visited.len() - 1,
                        element.weight as int,
                        neighbor_weight as int,
                    );
                    assert(element.weight + neighbor_weight <= usize::MAX);
                }
                let edge_weight = element.weight + neighbor_weight;
                match pq.get_priority(neighbor) {
                    Some(existing) => {
                        let mut update = edge_weight < existing.weight;
                        if edge_weight == existing.weight {
                            // Deterministic tie-break: prefer the predecessor
                            // at smaller index distance, then the smaller
                            // predecessor index. Keeps zero-weight ties from
                            // cycling and pins the chosen tree.
                            let distance = if neighbor > target {
                                neighbor - target
                            } else {
                                target - neighbor
                            };
                            let existing_previous = existing.previous;
                            let existing_distance = if neighbor > existing_previous {
                                neighbor - existing_previous
                            } else {
                                existing_previous - neighbor
                            };
                            if distance < existing_distance || (distance == existing_distance
                                && target < existing_previous) {
                                update = true;
                            }
                        }
                        if update {
                            proof {
                                assert(edge_weight <= existing.weight);
                            }
                            let new_element = PriorityElement::new(edge_weight, target);
                            let ghost pfb = pq@;
                            pq.change_priority(neighbor, new_element);
                            proof {
                                assert(pfb[neighbor as int] == existing);
                                lemma_relax_step(
                                    g,
                                    s,
                                    visited,
                                    mcur,
                                    pfb,
                                    pq@,
                                    t,
                                    neighbor as int,
                                    new_element,
                                    element.weight as int,
                                    cap,
                                    eseq,
                                    idx as int,
                                );
                            }
                        } else {
                            proof {
                                assert(existing.weight <= edge_weight);
                                assert forall|j: int|
                                    0 <= j < idx + 1 implies (!visited.contains(
                                    (#[trigger] eseq[j]).0 as int,
                                ) ==> pq@.dom().contains(eseq[j].0 as int) && pq@[eseq[j].0
                                    as int].weight as int <= element.weight as int
                                    + eseq[j].1) by {
                                    if j == idx {
                                        assert(pq@[neighbor as int] == existing);
                                    }
                                }
                            }
                        }
                    },
                    None => {
                        if self.timestamps[neighbor] != active_timestamp {
                            proof {
                                assert(self.stamp(neighbor as int) == self.timestamps@[neighbor as int]);
                                assert(!visited.contains(neighbor as int));
                            }
                            let new_element = PriorityElement::new(edge_weight, target);
                            let ghost pfb = pq@;
                            pq.push(neighbor, new_element);
                            proof {
                                lemma_relax_step(
                                    g,
                                    s,
                                    visited,
                                    mcur,
                                    pfb,
                                    pq@,
                                    t,
                                    neighbor as int,
                                    new_element,
                                    element.weight as int,
                                    cap,
                                    eseq,
                                    idx as int,
                                );
                            }
                        } else {
                            proof {
                                assert(self.stamp(neighbor as int) == self.timestamps@[neighbor as int]);
                                assert(visited.contains(neighbor as int));
                                assert forall|j: int|
                                    0 <= j < idx + 1 implies (!visited.contains(
                                    (#[trigger] eseq[j]).0 as int,
                                ) ==> pq@.dom().contains(eseq[j].0 as int) && pq@[eseq[j].0
                                    as int].weight as int <= element.weight as int
                                    + eseq[j].1) by {}
                            }
                        }
                    },
                }
                idx = idx + 1;
            }
            proof {
                assert forall|u: int, k2: int|
                    visited.contains(u) && 0 <= u < g.len() && #[trigger] g[u].dom().contains(k2)
                        && !visited.contains(k2) implies pq@.dom().contains(k2) && pq@[k2].weight
                    as int <= dist_in(mcur, s, u) + g[u][k2] by {
                    if u == t {
                        lemma_map_of_contains(eseq, k2);
                        let j = choose|j: int|
                            0 <= j < eseq.len() && (#[trigger] eseq[j]).0 as int == k2;
                        lemma_map_of_index(eseq, j);
                        assert(eseq[j].1 == g[t][k2]);
                    }
                }
                assert(dijkstra_inv(g, s, visited, computed_edges@, pq@));
            }
        }
        computed_edges
    }

    /// All shortest distances from `vertex`: the full single-source tree.
    /// Every reachable vertex other than the source is reported, with its
    /// exact shortest distance and a predecessor on a shortest path.
    pub fn all_edges(&mut self, vertex: usize) -> (r: DistanceMap)
        requires
            old(self).wf(),
            (vertex as int) < old(self).n(),
        ensures
            final(self).wf(),
            final(self).n() == old(self).n(),
            final(self).adj() == old(self).adj(),
            r.wf(),
            valid_result_map(old(self).adj(), vertex as int, r@),
            complete_result_map(old(self).adj(), vertex as int, r@),
    {
        let r = self.all_edges_with_terminate(vertex, usize::MAX);
        proof {
            if r@.dom().contains(usize::MAX as int) {
                assert(valid_index(old(self).adj(), usize::MAX as int));
                assert(false);
            }
        }
        r
    }

    /// The minimum-weight path between two distinct vertices `a` and `b`,
    /// as the sequence of `(vertex, incremental weight)` steps from just
    /// after `a` up to `b` inclusive, together with the total weight.
    /// Returns `None` exactly when `b` cannot be reached from `a`.
    pub fn get_path(&mut self, a: usize, b: usize) -> (r: Option<(Vec<(usize, usize)>, usize)>)
        requires
            old(self).wf(),
            (a as int) < old(self).n(),
            a != b,
        ensures
            final(self).wf(),
            final(self).n() == old(self).n(),
            final(self).adj() == old(self).adj(),
            r is Some <==> reachable(old(self).adj(), a as int, b as int),
            r matches Some(pt) ==> {
                &&& pt.0@.len() >= 1
                &&& pt.0@[pt.0@.len() - 1].0 == b
                &&& path_connects(old(self).adj(), a as int, pt.0@)
                &&& increments_sum(pt.0@) == pt.1 as int
                &&& is_shortest(old(self).adj(), a as int, b as int, pt.1 as int)
            },
    {
        let ghost g = old(self).adj();
        let ghost s = a as int;
        let edges = self.all_edges_with_terminate(a, b);
        let ghost m = edges@;
        let entry_b = match edges.get(b) {
            None => {
                proof {
                    assert(!reachable(g, s, b as int));
                }
                return None;
            },
            Some(e) => e,
        };
        let total: usize = entry_b.1;
        proof {
            assert(is_shortest(g, s, b as int, total as int));
            let pb = choose|p: Seq<int>|
                is_path_between(g, p, s, b as int) && path_weight(g, p) == total as int;
            assert(reachable(g, s, b as int));
            assert(steps_to_source(m, s, b as int, m.dom().len()));
        }
        let mut rev: Vec<(usize, usize)> = Vec::new();
        let mut vertex: usize = b;
        let ghost mut fuel = m.dom().len();
        loop
            invariant_except_break
                edges.wf(),
                edges@ == m,
                valid_result_map(g, s, m),
                s == a as int,
                m.dom().contains(b as int),
                m[b as int].1 == total,
                vertex as int == s || m.dom().contains(vertex as int),
                steps_to_source(m, s, vertex as int, fuel),
                rev@.len() == 0 ==> vertex == b,
                rev@.len() >= 1 ==> rev@[0].0 == b,
                path_connects(g, vertex as int, rev@.reverse()),
                increments_sum(rev@) == total as int - dist_in(m, s, vertex as int),
            ensures
                rev@.len() >= 1,
                rev@[0].0 == b,
                path_connects(g, s, rev@.reverse()),
                increments_sum(rev@) == total as int,
            decreases fuel,
        {
            if vertex == a {
                proof {
                    assert(dist_in(m, s, vertex as int) == 0);
                }
                break ;
            }
            proof {
                assert(vertex as int != s);
                assert(fuel > 0 && m.dom().contains(vertex as int));
            }
            let e = match edges.get(vertex) {
                Some(e) => e,
                None => {
                    proof {
                        assert(false);
                    }
                    (0, 0)
                },
            };
            let previous = e.0;
            let weight = e.1;
            proof {
                assert(m[vertex as int] == (previous, weight));
                assert(previous as int == s || m.dom().contains(previous as int));
                assert(g[previous as int].dom().contains(vertex as int));
                assert(weight as int == dist_in(m, s, previous as int) + g[previous as int][vertex as int]);
            }
            let previous_weight = if previous == a {
                0
            } else {
                match edges.get(previous) {
                    Some(pe) => pe.1,
                    None => {
                        proof {
                            assert(false);
                        }
                        0
                    },
                }
            };
            proof {
                assert(previous_weight as int == dist_in(m, s, previous as int));
                assert(previous_weight <= weight);
            }
            let increment = weight - previous_weight;
            let ghost rev0 = rev@;
            rev.push((vertex, increment));
            proof {
                assert(rev@ =~= rev0.push((vertex, increment)));
                assert(rev@.reverse() =~= seq![(vertex, increment)] + rev0.reverse());
                lemma_path_connects_prepend(g, previous, vertex, increment, rev0.reverse());
                assert(increments_sum(rev@) == increments_sum(rev0) + increment) by {
                    assert(rev@.drop_last() =~= rev0);
                }
                fuel = (fuel - 1) as nat;
            }
            vertex = previous;
        }
        let mut path: Vec<(usize, usize)> = Vec::new();
        let mut i: usize = rev.len();
        while i > 0
            invariant
                i <= rev@.len(),
                path@.len() == rev@.len() - i,
                forall|j: int|
                    0 <= j < path@.len() ==> path@[j] == rev@[rev@.len() - 1 - j],
            decreases i,
        {
            i = i - 1;
            path.push(rev[i]);
        }
        proof {
            assert(path@ =~= rev@.reverse());
            lemma_increments_sum_reverse(rev@);
            assert(path@[path@.len() - 1] == rev@[0]);
        }
        Some((path, total))
    }

    /// Drive the clock to its maximum value, so that the next traversal
    /// exercises the wrap-and-reset step.
    pub fn force_clock_to_max(&mut self)
        requires
            old(self).wf(),
        ensures
            final(self).wf(),
            final(self).n() == old(self).n(),
            final(self).adj() == old(self).adj(),
            final(self).clock() == usize::MAX as int,
            forall|v: int| 0 <= v < final(self).n() ==> final(self).stamp(v) == old(self).stamp(v),
    {
        self.active_timestamp = usize::MAX;
        proof {
            assert(self.adj() =~= old(self).adj());
            assert(self.wf());
        }
    }
}

/// The result of one traversal: for each reported vertex, the predecessor
/// on a shortest path from the source and the total weight from the source.
/// Built during the traversal, read-only afterwards.
#[derive(Clone, Debug, PartialEq, Eq)]
pub struct DistanceMap {
    entries: Vec<(usize, Entry)>,
}

impl View for DistanceMap {
    type V = Map<int, Entry>;

    closed spec fn view(&self) -> Map<int, Entry> {
        map_of(self.entries@)
    }
}

impl DistanceMap {
    /// Reported vertices are pairwise distinct.
    pub closed spec fn wf(&self) -> bool {
        unique_keys(self.entries@)
    }

    /// An empty result map.
    pub fn new() -> (r: Self)
        ensures
            r.wf(),
            r@ == Map::<int, Entry>::empty(),
    {
        Self { entries: Vec::new() }
    }

    /// The number of reported vertices.
    pub fn len(&self) -> (r: usize)
        requires
            self.wf(),
        ensures
            r == self@.dom().len(),
            self@.dom().finite(),
    {
        proof {
            lemma_map_of_len(self.entries@);
        }
        self.entries.len()
    }

    /// Record a vertex that has just been finalized.
    fn insert(&mut self, vertex: usize, previous: usize, weight: usize)
        requires
            old(self).wf(),
            !old(self)@.dom().contains(vertex as int),
        ensures
            final(self).wf(),
            final(self)@ == old(self)@.insert(vertex as int, (previous, weight)),
    {
        proof {
            lemma_unique_push(self.entries@, (vertex, (previous, weight)));
            lemma_map_of_push(self.entries@, (vertex, (previous, weight)));
        }
        self.entries.push((vertex, (previous, weight)));
    }

    /// The entry recorded for a vertex, if the traversal reached it.
    pub fn get(&self, vertex: usize) -> (r: Option<Entry>)
        requires
            self.wf(),
        ensures
            match r {
                Some(e) => self@.dom().contains(vertex as int) && self@[vertex as int] == e,
                None => !self@.dom().contains(vertex as int),
            },
    {
        let ghost s = self.entries@;
        let mut i: usize = 0;
        while i < self.entries.len()
            invariant
                self.entries@ == s,
                unique_keys(s),
                0 <= i <= s.len(),
                forall|j: int| 0 <= j < i ==> (#[trigger] s[j]).0 != vertex,
            decreases s.len() - i,
        {
            if self.entries[i].0 == vertex {
                proof {
                    lemma_map_of_index(s, i as int);
                }
                return Some(self.entries[i].1);
            }
            i = i + 1;
        }
        proof {
            lemma_map_of_contains(s, vertex as int);
        }
        None
    }

    /// The reported `(vertex, (predecessor, weight))` entries, in the order
    /// the traversal finalized them — by non-decreasing distance.
    pub fn entries(&self) -> (r: &Vec<(usize, Entry)>)
        ensures
            map_of(r@) == self@,
            self.wf() ==> unique_keys(r@),
    {
        &self.entries
    }

    /// Whether the traversal reached a vertex.
    pub fn contains(&self, vertex: usize) -> (r: bool)
        requires
            self.wf(),
        ensures
            r == self@.dom().contains(vertex as int),
    {
        self.get(vertex).is_some()
    }
}

/// Frontier keys name unvisited vertices of the graph.
spec fn frontier_keys_ok(g: Adjacency, visited: Set<int>, pf: Map<int, PriorityElement>) -> bool {
    forall|k: int| #[trigger] pf.dom().contains(k) ==> 0 <= k < g.len() && !visited.contains(k)
}

/// One frontier entry is justified: either the initial source entry, or a
/// relaxation along one edge out of a finalized vertex.
spec fn frontier_entry_ok(
    g: Adjacency,
    s: int,
    visited: Set<int>,
    m: Map<int, Entry>,
    k: int,
    e: PriorityElement,
) -> bool {
    ||| (k == s && e.weight == 0 && !visited.contains(s))
    ||| {
        let p = e.previous as int;
        &&& visited.contains(p)
        &&& 0 <= p < g.len()
        &&& g[p].dom().contains(k)
        &&& e.weight as int == dist_in(m, s, p) + g[p][k]
    }
}

/// Every frontier entry is justified.
spec fn frontier_entries_ok(
    g: Adjacency,
    s: int,
    visited: Set<int>,
    m: Map<int, Entry>,
    pf: Map<int, PriorityElement>,
) -> bool {
    forall|k: int| #[trigger] pf.dom().contains(k) ==> frontier_entry_ok(g, s, visited, m, k, pf[k])
}

/// Every edge out of the visited region is covered by a frontier entry at
/// least as good as relaxing that edge.
spec fn fringe_covered(
    g: Adjacency,
    s: int,
    visited: Set<int>,
    m: Map<int, Entry>,
    pf: Map<int, PriorityElement>,
) -> bool {
    forall|u: int, k: int|
        visited.contains(u) && 0 <= u < g.len() && #[trigger] g[u].dom().contains(k)
            && !visited.contains(k) ==> pf.dom().contains(k) && pf[k].weight as int <= dist_in(
            m,
            s,
            u,
        ) + g[u][k]
}

/// Every finalized vertex carries its true shortest distance.
spec fn visited_dists_ok(g: Adjacency, s: int, visited: Set<int>, m: Map<int, Entry>) -> bool {
    forall|v: int| #[trigger] visited.contains(v) ==> is_shortest(g, s, v, dist_in(m, s, v))
}

/// Every frontier weight is at most `count` edge weights.
spec fn frontier_bounded(pf: Map<int, PriorityElement>, count: int, cap: int) -> bool {
    forall|k: int| #[trigger] pf.dom().contains(k) ==> pf[k].weight as int <= count * cap
}

/// The traversal invariant: the visited region is finalized correctly, the
/// result map covers exactly the visited region minus the source, and the
/// frontier is justified, fringe-covering and bounded.
spec fn dijkstra_inv(
    g: Adjacency,
    s: int,
    visited: Set<int>,
    m: Map<int, Entry>,
    pf: Map<int, PriorityElement>,
) -> bool {
    &&& 0 <= s < g.len()
    &&& g.len() <= usize::MAX as int
    &&& visited.finite()
    &&& forall|v: int| #[trigger] visited.contains(v) ==> 0 <= v < g.len()
    &&& visited.len() <= g.len()
    &&& m.dom() == visited.remove(s)
    &&& valid_result_map(g, s, m)
    &&& pf.dom().finite()
    &&& frontier_keys_ok(g, visited, pf)
    &&& (!visited.contains(s) ==> visited =~= Set::<int>::empty() && pf.dom() =~= set![s]
        && pf[s].weight == 0)
    &&& frontier_entries_ok(g, s, visited, m, pf)
    &&& fringe_covered(g, s, visited, m, pf)
    &&& visited_dists_ok(g, s, visited, m)
    &&& frontier_bounded(pf, visited.len() as int, weight_cap(g.len() as int))
}

/// A candidate distance stays within one more edge weight of the bound, and
/// the bound itself stays within the machine range.
proof fn lemma_candidate_bound(n: int, vcount: int, w: int, nw: int)
    requires
        1 <= n,
        0 <= vcount,
        vcount + 1 <= n,
        0 <= w,
        w <= vcount * weight_cap(n),
        0 <= nw,
        n * nw <= usize::MAX as int,
    ensures
        w + nw <= (vcount + 1) * weight_cap(n),
        (vcount + 1) * weight_cap(n) <= usize::MAX as int,
{
    let cap = weight_cap(n);
    assert(nw <= cap) by {
        lemma_div_is_ordered(n * nw, usize::MAX as int, n);
        lemma_div_multiples_vanish(nw, n);
    }
    assert((vcount + 1) * cap == vcount * cap + cap) by (nonlinear_arith);
    assert(cap >= 0) by {
        lemma_div_is_ordered(0, usize::MAX as int, n);
        lemma_div_multiples_vanish(0, n);
    }
    lemma_mul_inequality(vcount + 1, n, cap);
    assert(n * cap <= usize::MAX as int) by {
        lemma_fundamental_div_mod(usize::MAX as int, n);
        lemma_mod_bound(usize::MAX as int, n);
    }
}

/// Recording a just-finalized vertex keeps the result map sound: the new
/// entry is exact, its predecessor is already finalized, and every
/// predecessor chain still walks back to the source.
proof fn lemma_result_insert(
    g: Adjacency,
    s: int,
    visited: Set<int>,
    m: Map<int, Entry>,
    e: PriorityElement,
    t: int,
)
    requires
        0 <= s < g.len(),
        valid_result_map(g, s, m),
        m.dom() == visited.remove(s),
        visited.finite(),
        forall|v: int| #[trigger] visited.contains(v) ==> 0 <= v < g.len(),
        visited_dists_ok(g, s, visited, m),
        t != s,
        0 <= t < g.len(),
        !visited.contains(t),
        frontier_entry_ok(g, s, visited, m, t, e),
        is_shortest(g, s, t, e.weight as int),
    ensures
        valid_result_map(g, s, m.insert(t, (e.previous, e.weight))),
        m.insert(t, (e.previous, e.weight)).dom() == visited.insert(t).remove(s),
        visited_dists_ok(g, s, visited.insert(t), m.insert(t, (e.previous, e.weight))),
        forall|u: int| u != t ==> dist_in(m.insert(t, (e.previous, e.weight)), s, u) == dist_in(
            m,
            s,
            u,
        ),
{
    let m1 = m.insert(t, (e.previous, e.weight));
    let p = e.previous as int;
    assert(visited.contains(p) && g[p].dom().contains(t) && e.weight as int == dist_in(m, s, p)
        + g[p][t]);
    assert(p != t);
    assert(forall|u: int| u != t ==> dist_in(m1, s, u) == dist_in(m, s, u));
    assert(m1.dom() =~= visited.insert(t).remove(s));
    assert(!m.dom().contains(t));
    assert(m1.dom().len() == m.dom().len() + 1);
    // Predecessor clause for every entry of the new map.
    assert forall|v: int| #[trigger] m1.dom().contains(v) implies {
        let pv = m1[v].0 as int;
        &&& (pv == s || m1.dom().contains(pv))
        &&& valid_index(g, pv)
        &&& g[pv].dom().contains(v)
        &&& m1[v].1 as int == dist_in(m1, s, pv) + g[pv][v]
    } by {
        if v == t {
            assert(p == s || m.dom().contains(p));
        } else {
            assert(m.dom().contains(v));
            assert(m1[v] == m[v]);
            let pv = m[v].0 as int;
            assert(pv == s || m.dom().contains(pv));
            assert(pv != t);
        }
    }
    // Shortest-distance clause.
    assert forall|v: int| #[trigger] m1.dom().contains(v) implies is_shortest(
        g,
        s,
        v,
        m1[v].1 as int,
    ) by {
        if v != t {
            assert(m1[v] == m[v]);
        }
    }
    // Predecessor chains still reach the source.
    assert forall|v: int| #[trigger] m1.dom().contains(v) implies steps_to_source(
        m1,
        s,
        v,
        m1.dom().len(),
    ) by {
        if v == t {
            if p != s {
                assert(m.dom().contains(p));
                assert(steps_to_source(m, s, p, m.dom().len()));
                lemma_steps_insert(m, s, p, m.dom().len(), t, (e.previous, e.weight));
            }
            assert(steps_to_source(m1, s, p, m.dom().len()));
        } else {
            assert(m.dom().contains(v));
            assert(steps_to_source(m, s, v, m.dom().len()));
            lemma_steps_insert(m, s, v, m.dom().len(), t, (e.previous, e.weight));
            lemma_steps_fuel_mono(m1, s, v, m.dom().len(), m1.dom().len());
        }
    }
    // Every finalized vertex, including t, carries its shortest distance.
    assert forall|v: int| #[trigger] visited.insert(t).contains(v) implies is_shortest(
        g,
        s,
        v,
        dist_in(m1, s, v),
    ) by {
        if v == t {
            assert(dist_in(m1, s, t) == e.weight as int);
        } else {
            assert(visited.contains(v));
            assert(dist_in(m1, s, v) == dist_in(m, s, v));
        }
    }
}

/// Relaxing one edge out of the vertex being expanded keeps the frontier
/// justified, bounded, and fringe-covering: the touched key gets an entry
/// no worse than relaxing that edge, every other entry is untouched.
proof fn lemma_relax_step(
    g: Adjacency,
    s: int,
    visited: Set<int>,
    m: Map<int, Entry>,
    pfb: Map<int, PriorityElement>,
    pfa: Map<int, PriorityElement>,
    t: int,
    k: int,
    enew: PriorityElement,
    wt: int,
    cap: int,
    eseq: Seq<(usize, usize)>,
    idx: int,
)
    requires
        0 <= t < g.len(),
        0 <= k < g.len(),
        visited.contains(t),
        !visited.contains(k),
        g[t].dom().contains(k),
        dist_in(m, s, t) == wt,
        0 <= wt,
        enew.previous as int == t,
        enew.weight as int == wt + g[t][k],
        pfa == pfb.insert(k, enew),
        pfb.dom().finite(),
        frontier_keys_ok(g, visited, pfb),
        frontier_entries_ok(g, s, visited, m, pfb),
        frontier_bounded(pfb, visited.len() as int, cap),
        wt + g[t][k] <= visited.len() * cap,
        pfb.dom().contains(k) ==> enew.weight <= pfb[k].weight,
        forall|u: int, k2: int|
            visited.contains(u) && u != t && 0 <= u < g.len() && #[trigger] g[u].dom().contains(k2)
                && !visited.contains(k2) ==> pfb.dom().contains(k2) && pfb[k2].weight as int
                <= dist_in(m, s, u) + g[u][k2],
        0 <= idx < eseq.len(),
        eseq[idx].0 as int == k,
        eseq[idx].1 as int == g[t][k],
        unique_keys(eseq),
        forall|j: int|
            0 <= j < idx ==> (!visited.contains((#[trigger] eseq[j]).0 as int)
                ==> pfb.dom().contains(eseq[j].0 as int) && pfb[eseq[j].0 as int].weight as int
                <= wt + eseq[j].1),
    ensures
        pfa.dom().finite(),
        frontier_keys_ok(g, visited, pfa),
        frontier_entries_ok(g, s, visited, m, pfa),
        frontier_bounded(pfa, visited.len() as int, cap),
        forall|u: int, k2: int|
            visited.contains(u) && u != t && 0 <= u < g.len() && #[trigger] g[u].dom().contains(k2)
                && !visited.contains(k2) ==> pfa.dom().contains(k2) && pfa[k2].weight as int
                <= dist_in(m, s, u) + g[u][k2],
        forall|j: int|
            0 <= j < idx + 1 ==> (!visited.contains((#[trigger] eseq[j]).0 as int)
                ==> pfa.dom().contains(eseq[j].0 as int) && pfa[eseq[j].0 as int].weight as int
                <= wt + eseq[j].1),
{
    assert forall|k2: int| #[trigger] pfa.dom().contains(k2) implies 0 <= k2 < g.len()
        && !visited.contains(k2) by {
        if k2 != k {
            assert(pfb.dom().contains(k2));
        }
    }
    assert forall|k2: int| #[trigger] pfa.dom().contains(k2) implies frontier_entry_ok(
        g,
        s,
        visited,
        m,
        k2,
        pfa[k2],
    ) by {
        if k2 == k {
            assert(pfa[k] == enew);
        } else {
            assert(pfb.dom().contains(k2));
            assert(pfa[k2] == pfb[k2]);
        }
    }
    assert forall|k2: int| #[trigger] pfa.dom().contains(k2) implies pfa[k2].weight as int
        <= visited.len() * cap by {
        if k2 != k {
            assert(pfb.dom().contains(k2));
        }
    }
    assert forall|u: int, k2: int|
        visited.contains(u) && u != t && 0 <= u < g.len() && #[trigger] g[u].dom().contains(k2)
            && !visited.contains(k2) implies pfa.dom().contains(k2) && pfa[k2].weight as int
        <= dist_in(m, s, u) + g[u][k2] by {
        assert(pfb.dom().contains(k2));
        if k2 == k {
            assert(enew.weight <= pfb[k].weight);
        } else {
            assert(pfa[k2] == pfb[k2]);
        }
    }
    assert forall|j: int|
        0 <= j < idx + 1 implies (!visited.contains((#[trigger] eseq[j]).0 as int)
            ==> pfa.dom().contains(eseq[j].0 as int) && pfa[eseq[j].0 as int].weight as int <= wt
            + eseq[j].1) by {
        if j < idx {
            assert(eseq[j].0 != eseq[idx].0);
            if !visited.contains(eseq[j].0 as int) {
                assert(pfb.dom().contains(eseq[j].0 as int));
                assert(pfa[eseq[j].0 as int] == pfb[eseq[j].0 as int]);
            }
        } else {
            assert(pfa[k] == enew);
        }
    }
}

/// The entry of minimal weight in the frontier carries the true shortest
/// distance to its vertex: the classic Dijkstra argument, using that edge
/// weights are non-negative and that every departure from the visited
/// region is covered by the frontier.
proof fn lemma_popped_is_shortest(
    g: Adjacency,
    s: int,
    visited: Set<int>,
    m: Map<int, Entry>,
    pf: Map<int, PriorityElement>,
    k: int,
)
    requires
        dijkstra_inv(g, s, visited, m, pf),
        pf.dom().contains(k),
        forall|j: int| #[trigger] pf.dom().contains(j) ==> pf[k].weight <= pf[j].weight,
    ensures
        is_shortest(g, s, k, pf[k].weight as int),
        reachable(g, s, k),
{
    let w = pf[k].weight as int;
    let e = pf[k];
    assert(frontier_entry_ok(g, s, visited, m, k, e));
    // Existence of a walk of weight w.
    if k == s && e.weight == 0 && !visited.contains(s) {
        lemma_shortest_self(g, s);
    } else {
        let p = e.previous as int;
        assert(visited.contains(p));
        assert(is_shortest(g, s, p, dist_in(m, s, p)));
        let pp = choose|pp: Seq<int>|
            is_path_between(g, pp, s, p) && path_weight(g, pp) == dist_in(m, s, p);
        lemma_path_extend(g, pp, k);
        let pk = pp.push(k);
        assert(is_path_between(g, pk, s, k) && path_weight(g, pk) == w);
        // Optimality: any walk from s to k weighs at least w.
        assert forall|q: Seq<int>| is_path_between(g, q, s, k) implies path_weight(g, q) >= w by {
            assert(visited.contains(s));
            assert(!visited.contains(k));
            let i = lemma_first_departure(g, q, visited);
            let u = q[i - 1];
            let x = q[i];
            assert(visited.contains(u));
            assert(!visited.contains(x));
            assert(g[u].dom().contains(x));
            assert(pf.dom().contains(x) && pf[x].weight as int <= dist_in(m, s, u) + g[u][x]);
            lemma_path_take(g, q, i);
            assert(path_weight(g, q.take(i)) >= dist_in(m, s, u)) by {
                assert(is_shortest(g, s, u, dist_in(m, s, u)));
                assert(is_path_between(g, q.take(i), s, u));
            }
            lemma_path_take(g, q, i + 1);
            assert(q.take(i + 1) =~= q.take(i).push(x));
            lemma_path_extend(g, q.take(i), x);
            assert(path_weight(g, q.take(i + 1)) == path_weight(g, q.take(i)) + g[u][x]);
            assert(pf[k].weight <= pf[x].weight);
        }
        assert(is_shortest(g, s, k, w));
    }
}

/// Insert or overwrite one key in a duplicate-free association list.
fn upsert(list: &mut Vec<(usize, usize)>, key: usize, value: usize)
    requires
        unique_keys(old(list)@),
    ensures
        unique_keys(final(list)@),
        map_of(final(list)@) == map_of(old(list)@).insert(key as int, value),
{
    let ghost s = list@;
    let mut i: usize = 0;
    while i < list.len()
        invariant
            list@ == s,
            s == old(list)@,
            unique_keys(s),
            i <= s.len(),
            forall|j: int| 0 <= j < i ==> (#[trigger] s[j]).0 != key,
        decreases s.len() - i,
    {
        if list[i].0 == key {
            proof {
                lemma_map_of_update(s, i as int, value);
                assert(s.update(i as int, (s[i as int].0, value)) =~= s.update(
                    i as int,
                    (key, value),
                ));
            }
            list[i] = (key, value);
            return ;
        }
        i = i + 1;
    }
    proof {
        lemma_map_of_contains(s, key as int);
        lemma_unique_push(s, (key, value));
        lemma_map_of_push(s, (key, value));
    }
    list.push((key, value));
}

} // verus!
