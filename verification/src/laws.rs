//! Laws relating whole queries to one another.
//!
//! The engine's contracts pin each result map extensionally: these lemmas
//! state what follows for pairs of queries — repeated runs, runs after a
//! clock wrap or on a fresh engine, and early-terminated runs against full
//! runs.

use vstd::prelude::*;

use crate::shortest::Adjacency;
use crate::shortest::Entry;
use crate::shortest::complete_result_map;
use crate::shortest::is_path_between;
use crate::shortest::is_shortest;
use crate::shortest::lemma_shortest_unique;
use crate::shortest::path_weight;
use crate::shortest::reachable;
use crate::shortest::valid_result_map;

verus! {

/// Any two sound and complete result maps for the same graph and source
/// cover the same vertices and record the same distances. In particular,
/// running `all_edges` twice on one engine, or on an engine whose clock has
/// wrapped and on a fresh engine over the same skeleton, yields result maps
/// that agree vertex for vertex.
pub proof fn lemma_result_maps_agree(
    g: Adjacency,
    s: int,
    m1: Map<int, Entry>,
    m2: Map<int, Entry>,
)
    requires
        valid_result_map(g, s, m1),
        complete_result_map(g, s, m1),
        valid_result_map(g, s, m2),
        complete_result_map(g, s, m2),
    ensures
        m1.dom() == m2.dom(),
        forall|v: int| #[trigger] m1.dom().contains(v) ==> m1[v].1 == m2[v].1,
{
    assert forall|v: int| #[trigger] m1.dom().contains(v) implies m2.dom().contains(v) by {
        assert(is_shortest(g, s, v, m1[v].1 as int));
        let p = choose|p: Seq<int>|
            is_path_between(g, p, s, v) && path_weight(g, p) == m1[v].1 as int;
        assert(reachable(g, s, v));
    }
    assert forall|v: int| #[trigger] m2.dom().contains(v) implies m1.dom().contains(v) by {
        assert(is_shortest(g, s, v, m2[v].1 as int));
        let p = choose|p: Seq<int>|
            is_path_between(g, p, s, v) && path_weight(g, p) == m2[v].1 as int;
        assert(reachable(g, s, v));
    }
    assert(m1.dom() =~= m2.dom());
    assert forall|v: int| #[trigger] m1.dom().contains(v) implies m1[v].1 == m2[v].1 by {
        lemma_shortest_unique(g, s, v, m1[v].1 as int, m2[v].1 as int);
    }
}

/// The total weight reported for a path agrees with the distance any sound
/// result map for the same source records for the destination: shortest
/// distances are unique.
pub proof fn lemma_path_total_matches_distances(
    g: Adjacency,
    s: int,
    b: int,
    total: int,
    m: Map<int, Entry>,
)
    requires
        is_shortest(g, s, b, total),
        valid_result_map(g, s, m),
        m.dom().contains(b),
    ensures
        m[b].1 as int == total,
{
    lemma_shortest_unique(g, s, b, total, m[b].1 as int);
}

/// An early-terminated run agrees with the full run on every vertex it
/// reports — in particular on the terminating target itself.
pub proof fn lemma_early_termination_agrees(
    g: Adjacency,
    s: int,
    m_early: Map<int, Entry>,
    m_full: Map<int, Entry>,
    t: int,
)
    requires
        valid_result_map(g, s, m_early),
        valid_result_map(g, s, m_full),
        complete_result_map(g, s, m_full),
        m_early.dom().contains(t),
    ensures
        m_full.dom().contains(t),
        m_early[t].1 == m_full[t].1,
{
    assert(is_shortest(g, s, t, m_early[t].1 as int));
    lemma_shortest_unique(g, s, t, m_early[t].1 as int, m_full[t].1 as int);
}

} // verus!
