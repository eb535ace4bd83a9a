//! Mathematical model of weighted graphs, paths and shortest distances.
//!
//! A graph is modelled as a sequence of adjacency maps: `g[v]` maps each
//! neighbor of vertex `v` to the weight of the connecting edge. The engine's
//! contracts are stated over this model: a result map is valid when every
//! entry records the true shortest distance from the source together with a
//! predecessor on a shortest path, and the predecessor chains lead back to
//! the source.

use vstd::prelude::*;

verus! {

/// The adjacency model of a graph: one neighbor-to-weight map per vertex.
pub type Adjacency = Seq<Map<int, usize>>;

/// One result-map entry: the predecessor on a shortest path and the total
/// weight from the source.
pub type Entry = (usize, usize);

/// `v` names a vertex of `g`.
pub open spec fn valid_index(g: Adjacency, v: int) -> bool {
    0 <= v < g.len()
}

/// `p` is a walk in `g`: nonempty, within range, each step along an edge.
pub open spec fn is_path(g: Adjacency, p: Seq<int>) -> bool {
    &&& p.len() >= 1
    &&& forall|i: int| 0 <= i < p.len() ==> valid_index(g, #[trigger] p[i])
    &&& forall|i: int| 0 <= i < p.len() - 1 ==> (#[trigger] g[p[i]]).dom().contains(p[i + 1])
}

/// The total weight of walk `p`, summed edge by edge from the back.
pub open spec fn path_weight(g: Adjacency, p: Seq<int>) -> int
    decreases p.len(),
{
    if p.len() <= 1 {
        0
    } else {
        path_weight(g, p.drop_last()) + g[p[p.len() - 2]][p[p.len() - 1]]
    }
}

/// `p` is a walk from `s` to `t`.
pub open spec fn is_path_between(g: Adjacency, p: Seq<int>, s: int, t: int) -> bool {
    is_path(g, p) && p[0] == s && p.last() == t
}

/// Some walk leads from `s` to `t`.
pub open spec fn reachable(g: Adjacency, s: int, t: int) -> bool {
    exists|p: Seq<int>| is_path_between(g, p, s, t)
}

/// `d` is the least total weight of any walk from `s` to `t`.
pub open spec fn is_shortest(g: Adjacency, s: int, t: int, d: int) -> bool {
    &&& exists|p: Seq<int>| is_path_between(g, p, s, t) && path_weight(g, p) == d
    &&& forall|p: Seq<int>| is_path_between(g, p, s, t) ==> path_weight(g, p) >= d
}

/// The recorded distance of `v`, with the source itself at distance zero.
pub open spec fn dist_in(m: Map<int, Entry>, s: int, v: int) -> int {
    if v == s {
        0
    } else {
        m[v].1 as int
    }
}

/// Following predecessors from `v` reaches `s` within `fuel` steps.
pub open spec fn steps_to_source(m: Map<int, Entry>, s: int, v: int, fuel: nat) -> bool
    decreases fuel,
{
    if v == s {
        true
    } else if fuel == 0 {
        false
    } else if m.dom().contains(v) {
        steps_to_source(m, s, m[v].0 as int, (fuel - 1) as nat)
    } else {
        false
    }
}

/// A sound result map for source `s`: every entry holds the true shortest
/// distance and a predecessor on a shortest path, and predecessor chains
/// walk back to `s` inside the map.
pub open spec fn valid_result_map(g: Adjacency, s: int, m: Map<int, Entry>) -> bool {
    &&& m.dom().finite()
    &&& !m.dom().contains(s)
    &&& forall|v: int| #[trigger] m.dom().contains(v) ==> valid_index(g, v)
    &&& forall|v: int| #[trigger] m.dom().contains(v) ==> is_shortest(g, s, v, m[v].1 as int)
    &&& forall|v: int| #[trigger] m.dom().contains(v) ==> {
        let p = m[v].0 as int;
        &&& (p == s || m.dom().contains(p))
        &&& valid_index(g, p)
        &&& g[p].dom().contains(v)
        &&& m[v].1 as int == dist_in(m, s, p) + g[p][v]
    }
    &&& forall|v: int| #[trigger] m.dom().contains(v) ==> steps_to_source(m, s, v, m.dom().len())
}

/// A full result map: every vertex reachable from `s`, other than `s`
/// itself, has an entry.
pub open spec fn complete_result_map(g: Adjacency, s: int, m: Map<int, Entry>) -> bool {
    forall|v: int| valid_index(g, v) && v != s && reachable(g, s, v) ==> m.dom().contains(v)
}

/// The sum of the per-step incremental weights of a reported path.
pub open spec fn increments_sum(p: Seq<(usize, usize)>) -> int
    decreases p.len(),
{
    if p.len() == 0 {
        0
    } else {
        increments_sum(p.drop_last()) + p.last().1
    }
}

/// One reported step out of vertex `prev`: the step names a neighbor of
/// `prev` and carries exactly the weight of that edge.
pub open spec fn path_step_ok(g: Adjacency, prev: int, step: (usize, usize)) -> bool {
    &&& 0 <= prev < g.len()
    &&& g[prev].dom().contains(step.0 as int)
    &&& step.1 == g[prev][step.0 as int]
}

/// A reported path leads out of `a` step by step: each element names the
/// next vertex and carries exactly the weight of the edge taken to it.
pub open spec fn path_connects(g: Adjacency, a: int, p: Seq<(usize, usize)>) -> bool {
    forall|i: int|
        0 <= i < p.len() ==> path_step_ok(
            g,
            if i == 0 {
                a
            } else {
                p[i - 1].0 as int
            },
            #[trigger] p[i],
        )
}

/// Increment sums add over concatenation.
pub proof fn lemma_increments_sum_concat(c: Seq<(usize, usize)>, d: Seq<(usize, usize)>)
    ensures
        increments_sum(c + d) == increments_sum(c) + increments_sum(d),
    decreases d.len(),
{
    if d.len() == 0 {
        assert(c + d =~= c);
    } else {
        assert((c + d).drop_last() =~= c + d.drop_last());
        assert((c + d).last() == d.last());
        lemma_increments_sum_concat(c, d.drop_last());
    }
}

/// Reversing a reported path does not change its increment sum.
pub proof fn lemma_increments_sum_reverse(p: Seq<(usize, usize)>)
    ensures
        increments_sum(p.reverse()) == increments_sum(p),
    decreases p.len(),
{
    if p.len() > 0 {
        assert(p.reverse() =~= seq![p.last()] + p.drop_last().reverse());
        lemma_increments_sum_concat(seq![p.last()], p.drop_last().reverse());
        lemma_increments_sum_reverse(p.drop_last());
        assert(increments_sum(Seq::<(usize, usize)>::empty()) == 0);
        assert(increments_sum(seq![p.last()]) == p.last().1 as int) by {
            assert(seq![p.last()].drop_last() =~= Seq::<(usize, usize)>::empty());
        }
    }
}

/// Prepending one edge step keeps a reported path connected.
pub proof fn lemma_path_connects_prepend(
    g: Adjacency,
    u: usize,
    v: usize,
    w: usize,
    q: Seq<(usize, usize)>,
)
    requires
        path_connects(g, v as int, q),
        (u as int) < g.len(),
        g[u as int].dom().contains(v as int),
        w == g[u as int][v as int],
    ensures
        path_connects(g, u as int, seq![(v, w)] + q),
{
    let r = seq![(v, w)] + q;
    assert forall|i: int| 0 <= i < r.len() implies path_step_ok(
        g,
        if i == 0 {
            u as int
        } else {
            r[i - 1].0 as int
        },
        #[trigger] r[i],
    ) by {
        if i == 0 {
            assert(r[0] == (v, w));
            assert(path_step_ok(g, u as int, (v, w)));
        } else {
            assert(r[i] == q[i - 1]);
            assert(path_step_ok(
                g,
                if i - 1 == 0 {
                    v as int
                } else {
                    q[i - 2].0 as int
                },
                q[i - 1],
            ));
            if i == 1 {
                assert(r[i - 1].0 == v);
            } else {
                assert(r[i - 1] == q[i - 2]);
            }
        }
    }
    assert(path_connects(g, u as int, r));
}

/// Walk weights are never negative.
pub proof fn lemma_path_weight_nonneg(g: Adjacency, p: Seq<int>)
    ensures
        path_weight(g, p) >= 0,
    decreases p.len(),
{
    if p.len() > 1 {
        lemma_path_weight_nonneg(g, p.drop_last());
    }
}

/// A prefix of a walk is a walk, and weighs no more than the whole.
pub proof fn lemma_path_take(g: Adjacency, p: Seq<int>, i: int)
    requires
        is_path(g, p),
        1 <= i <= p.len(),
    ensures
        is_path(g, p.take(i)),
        p.take(i).len() == i,
        path_weight(g, p.take(i)) <= path_weight(g, p),
        p.take(i)[0] == p[0],
        p.take(i).last() == p[i - 1],
    decreases p.len(),
{
    if i == p.len() {
        assert(p.take(i) =~= p);
    } else {
        let t = p.drop_last();
        assert(is_path(g, t));
        assert(p.take(i) =~= t.take(i));
        lemma_path_take(g, t, i);
    }
}

/// Extending a walk by one edge adds that edge's weight.
pub proof fn lemma_path_extend(g: Adjacency, p: Seq<int>, v: int)
    requires
        is_path(g, p),
        valid_index(g, v),
        g[p.last()].dom().contains(v),
    ensures
        is_path(g, p.push(v)),
        p.push(v)[0] == p[0],
        p.push(v).last() == v,
        path_weight(g, p.push(v)) == path_weight(g, p) + g[p.last()][v],
{
    let q = p.push(v);
    assert(q.drop_last() =~= p);
    assert(q[q.len() - 2] == p[p.len() - 1]);
    assert(q[q.len() - 1] == v);
}

/// The one-vertex walk shows each vertex reaches itself at cost zero.
pub proof fn lemma_shortest_self(g: Adjacency, s: int)
    requires
        valid_index(g, s),
    ensures
        is_shortest(g, s, s, 0),
        reachable(g, s, s),
{
    let p = seq![s];
    assert(is_path_between(g, p, s, s));
    assert(path_weight(g, p) == 0);
    assert forall|q: Seq<int>| is_path_between(g, q, s, s) implies path_weight(g, q) >= 0 by {
        lemma_path_weight_nonneg(g, q);
    }
}

/// A shortest distance is unique.
pub proof fn lemma_shortest_unique(g: Adjacency, s: int, t: int, d1: int, d2: int)
    requires
        is_shortest(g, s, t, d1),
        is_shortest(g, s, t, d2),
    ensures
        d1 == d2,
{
    let p1 = choose|p: Seq<int>| is_path_between(g, p, s, t) && path_weight(g, p) == d1;
    let p2 = choose|p: Seq<int>| is_path_between(g, p, s, t) && path_weight(g, p) == d2;
    assert(path_weight(g, p1) >= d2);
    assert(path_weight(g, p2) >= d1);
}

/// On a walk that starts inside `visited` and ends outside it, there is a
/// first step that leaves `visited`.
pub proof fn lemma_first_departure(g: Adjacency, p: Seq<int>, visited: Set<int>) -> (i: int)
    requires
        is_path(g, p),
        visited.contains(p[0]),
        !visited.contains(p.last()),
    ensures
        1 <= i < p.len(),
        !visited.contains(p[i]),
        forall|j: int| 0 <= j < i ==> visited.contains(#[trigger] p[j]),
    decreases p.len(),
{
    if !visited.contains(p[1]) {
        assert(p.len() >= 2);
        assert forall|j: int| 0 <= j < 1 implies visited.contains(#[trigger] p[j]) by {
            assert(visited.contains(p[0]));
        }
        1
    } else {
        let q = p.drop_first();
        assert(p.len() >= 2);
        assert(forall|i: int| 0 <= i < q.len() ==> q[i] == p[i + 1]);
        assert(is_path(g, q));
        assert(q[0] == p[1]);
        assert(q.last() == p.last());
        let i0 = lemma_first_departure(g, q, visited);
        assert(q[i0] == p[i0 + 1]);
        assert(!visited.contains(p[i0 + 1]));
        assert forall|j: int| 0 <= j < i0 + 1 implies visited.contains(#[trigger] p[j]) by {
            if j == 0 {
                assert(visited.contains(p[0]));
            } else {
                assert(q[j - 1] == p[j]);
                assert(visited.contains(q[j - 1]));
            }
        }
        i0 + 1
    }
}

/// A set that contains `s` and is closed under edges contains everything
/// reachable from `s`.
pub proof fn lemma_closed_under_edges(g: Adjacency, visited: Set<int>, p: Seq<int>)
    requires
        is_path(g, p),
        visited.contains(p[0]),
        forall|u: int, k: int|
            visited.contains(u) && valid_index(g, u) && #[trigger] g[u].dom().contains(k)
                ==> visited.contains(k),
    ensures
        visited.contains(p.last()),
    decreases p.len(),
{
    if p.len() > 1 {
        let q = p.drop_first();
        assert(g[p[0]].dom().contains(p[1]));
        assert(visited.contains(p[1]));
        assert(is_path(g, q)) by {
            assert(forall|i: int| 0 <= i < q.len() ==> q[i] == p[i + 1]);
        }
        assert(q[0] == p[1]);
        lemma_closed_under_edges(g, visited, q);
        assert(q.last() == p.last());
    }
}

/// More fuel never hurts a predecessor walk.
pub proof fn lemma_steps_fuel_mono(m: Map<int, Entry>, s: int, v: int, f1: nat, f2: nat)
    requires
        steps_to_source(m, s, v, f1),
        f1 <= f2,
    ensures
        steps_to_source(m, s, v, f2),
    decreases f1,
{
    if v != s {
        lemma_steps_fuel_mono(m, s, m[v].0 as int, (f1 - 1) as nat, (f2 - 1) as nat);
    }
}

/// Adding a fresh entry does not disturb existing predecessor walks.
pub proof fn lemma_steps_insert(m: Map<int, Entry>, s: int, v: int, fuel: nat, t: int, e: Entry)
    requires
        steps_to_source(m, s, v, fuel),
        !m.dom().contains(t),
        t != s,
    ensures
        steps_to_source(m.insert(t, e), s, v, fuel),
    decreases fuel,
{
    if v != s {
        assert(v != t);
        lemma_steps_insert(m, s, m[v].0 as int, (fuel - 1) as nat, t, e);
    }
}

} // verus!
