//! The laws of the library, stated over the graph model and proved
//! once and for all: closure consistency, preservation of reachability
//! under transitive reduction, minimality of the reduction, and its
//! idempotence.

use vstd::prelude::*;
use crate::graph::{emit_spec, has_name};
use crate::reach::{
    wf_adj, in_range, sorted_names, has_edge, edge_by_names, reaches, indirect, min_row,
    min_graph_spec, is_dag, closure_set, closure_incl_set, remove_edge, drop_all,
    lemma_edge_reaches, lemma_reaches_trans, lemma_first_hop, lemma_reaches_mono,
    lemma_keep_membership, lemma_keep_all, lemma_min_graph_edge_iff, lemma_drop_all_membership,
    lemma_closure_step, lemma_sorted_same_names_equal,
};

verus! {

/// Closure consistency: the inclusive closure of a module is the
/// module itself together with its closure.
pub proof fn lemma_closure_consistency(g: Seq<Seq<usize>>, m: usize)
    requires
        g.len() <= usize::MAX,
        (m as int) < g.len(),
    ensures
        closure_incl_set(g, m) == closure_set(g, m).insert(m as int),
{
    assert(closure_incl_set(g, m) =~= closure_set(g, m).insert(m as int));
}

/// Every edge of the reduced graph is an edge of the source graph.
proof fn lemma_min_graph_sub(g: Seq<Seq<usize>>)
    ensures
        min_graph_spec(g).len() == g.len(),
        forall|x: usize, y: usize|
            #[trigger] has_edge(min_graph_spec(g), x, y) ==> has_edge(g, x, y),
{
    lemma_min_graph_edge_iff(g);
}

/// An edge of an acyclic graph survives in the reduced graph at least
/// as a path: its target stays reachable.
proof fn lemma_edge_preserved(g: Seq<Seq<usize>>, u: usize, v: usize)
    requires
        wf_adj(g),
        is_dag(g),
        has_edge(g, u, v),
    ensures
        reaches(min_graph_spec(g), u, v),
    decreases closure_set(g, u).len(), closure_set(g, u).len() - closure_set(g, v).len() + 1,
{
    lemma_edge_reaches(g, u, v);
    lemma_closure_step(g, u, v);
    let mg = min_graph_spec(g);
    lemma_min_graph_edge_iff(g);
    if !indirect(g, u, v) {
        lemma_edge_reaches(mg, u, v);
    } else {
        let k = choose|k: int| 0 <= k < g[u as int].len() && reaches(g, g[u as int][k], v);
        let d = g[u as int][k];
        assert(has_edge(g, u, d));
        lemma_edge_reaches(g, u, d);
        lemma_closure_step(g, u, d);
        lemma_closure_step(g, d, v);
        lemma_edge_preserved(g, u, d);
        lemma_reach_preserved(g, d, v);
        lemma_reaches_trans(mg, u, d, v);
    }
}

/// Reachability of an acyclic graph survives in the reduced graph.
proof fn lemma_reach_preserved(g: Seq<Seq<usize>>, u: usize, v: usize)
    requires
        wf_adj(g),
        is_dag(g),
        reaches(g, u, v),
    ensures
        reaches(min_graph_spec(g), u, v),
    decreases closure_set(g, u).len(), closure_set(g, u).len() + 2,
{
    let mg = min_graph_spec(g);
    lemma_closure_step(g, u, v);
    lemma_first_hop(g, u, v);
    if has_edge(g, u, v) {
        lemma_edge_preserved(g, u, v);
    } else {
        let w = choose|w: usize| #[trigger] has_edge(g, u, w) && reaches(g, w, v);
        lemma_edge_reaches(g, u, w);
        lemma_closure_step(g, u, w);
        lemma_edge_preserved(g, u, w);
        lemma_reach_preserved(g, w, v);
        lemma_reaches_trans(mg, u, w, v);
    }
}

/// Reduction preserves reachability: on an acyclic graph, the reduced
/// graph has exactly the inclusive closures of its source.
pub proof fn lemma_reduction_preserves_reachability(g: Seq<Seq<usize>>, m: usize)
    requires
        g.len() <= usize::MAX,
        wf_adj(g),
        is_dag(g),
        (m as int) < g.len(),
    ensures
        closure_incl_set(min_graph_spec(g), m) == closure_incl_set(g, m),
{
    let mg = min_graph_spec(g);
    lemma_min_graph_sub(g);
    assert forall|v: int| closure_incl_set(mg, m).contains(v) implies #[trigger] closure_incl_set(
        g,
        m,
    ).contains(v) by {
        if v != m as int {
            lemma_reaches_mono(mg, g, m, v as usize);
        }
    }
    assert forall|v: int| closure_incl_set(g, m).contains(v) implies #[trigger] closure_incl_set(
        mg,
        m,
    ).contains(v) by {
        if v != m as int {
            lemma_reach_preserved(g, m, v as usize);
        }
    }
    assert(closure_incl_set(mg, m) =~= closure_incl_set(g, m));
}

/// Reduction minimality: every surviving edge is load-bearing. Taking
/// the edge `u -> d` out of the reduced graph removes `d` from the
/// inclusive closure of `u`.
pub proof fn lemma_reduction_minimality(g: Seq<Seq<usize>>, u: usize, d: usize)
    requires
        wf_adj(g),
        (u as int) < g.len(),
        min_row(g, u as int).contains(d),
    ensures
        closure_incl_set(min_graph_spec(g), u).contains(d as int),
        !closure_incl_set(remove_edge(min_graph_spec(g), u, d), u).contains(d as int),
{
    let mg = min_graph_spec(g);
    let h = remove_edge(mg, u, d);
    lemma_min_graph_edge_iff(g);
    lemma_keep_membership(g, u as int, g[u as int]);
    assert(g[u as int].contains(d) && !indirect(g, u, d));
    let kd = choose|k: int| 0 <= k < g[u as int].len() && g[u as int][k] == d;
    assert((d as int) < g.len());
    if d == u {
        lemma_edge_reaches(g, u, u);
        assert(reaches(g, g[u as int][kd], d));
        assert(indirect(g, u, d));
    }
    assert(d != u);
    assert(has_edge(mg, u, d));
    lemma_edge_reaches(mg, u, d);
    assert(closure_incl_set(mg, u).contains(d as int));

    lemma_drop_all_membership(mg[u as int], d);
    assert forall|x: usize, y: usize| #[trigger] has_edge(h, x, y) implies has_edge(g, x, y) by {
        if x == u {
            assert(drop_all(mg[u as int], d).contains(y));
            assert(mg[u as int].contains(y));
            assert(has_edge(mg, x, y));
        } else {
            assert(h[x as int] == mg[x as int]);
            assert(has_edge(mg, x, y));
        }
    }
    if reaches(h, u, d) {
        lemma_first_hop(h, u, d);
        if has_edge(h, u, d) {
            assert(drop_all(mg[u as int], d).contains(d));
            assert(false);
        } else {
            let w = choose|w: usize| #[trigger] has_edge(h, u, w) && reaches(h, w, d);
            assert(drop_all(mg[u as int], d).contains(w));
            assert(mg[u as int].contains(w));
            assert(g[u as int].contains(w));
            lemma_reaches_mono(h, g, w, d);
            let kw = choose|k: int| 0 <= k < g[u as int].len() && g[u as int][k] == w;
            assert(reaches(g, g[u as int][kw], d));
            assert(indirect(g, u, d));
            assert(false);
        }
    }
    assert(!closure_incl_set(h, u).contains(d as int));
}

/// Determinism: a well-formed graph is canonical. It is fully
/// determined by which identifiers it holds and which identifier pairs
/// its edges join, so two graphs built from identical input are the
/// same graph and their emitted reports are byte-identical, ordering
/// included.
pub proof fn lemma_emit_deterministic(
    ns1: Seq<Seq<u8>>,
    a1: Seq<Seq<usize>>,
    ns2: Seq<Seq<u8>>,
    a2: Seq<Seq<usize>>,
)
    requires
        ns1.len() == a1.len(),
        ns2.len() == a2.len(),
        a1.len() <= usize::MAX,
        sorted_names(ns1),
        sorted_names(ns2),
        wf_adj(a1),
        wf_adj(a2),
        forall|x: Seq<u8>| has_name(ns1, x) <==> #[trigger] has_name(ns2, x),
        forall|x: Seq<u8>, y: Seq<u8>|
            edge_by_names(ns1, a1, x, y) <==> #[trigger] edge_by_names(ns2, a2, x, y),
    ensures
        ns1 == ns2,
        a1 == a2,
        emit_spec(ns1, a1) == emit_spec(ns2, a2),
{
    assert forall|x: Seq<u8>| ns1.contains(x) <==> #[trigger] ns2.contains(x) by {
        if ns1.contains(x) {
            let i = choose|i: int| 0 <= i < ns1.len() && ns1[i] == x;
            assert(has_name(ns1, x));
            assert(has_name(ns2, x));
            let j = choose|j: int| 0 <= j < ns2.len() && ns2[j] == x;
            assert(ns2[j] == x);
            assert(ns2.contains(x));
        }
        if ns2.contains(x) {
            let i = choose|i: int| 0 <= i < ns2.len() && ns2[i] == x;
            assert(has_name(ns2, x));
            assert(has_name(ns1, x));
            let j = choose|j: int| 0 <= j < ns1.len() && ns1[j] == x;
            assert(ns1[j] == x);
            assert(ns1.contains(x));
        }
    }
    lemma_sorted_same_names_equal(ns1, ns2);
    assert forall|i: int, j: int|
        0 <= i < ns1.len() && 0 <= j < ns1.len() && i != j implies ns1[i] != ns1[j] by {
        if i < j {
            crate::bytes::lemma_lex_irreflexive(ns1[i]);
        } else {
            crate::bytes::lemma_lex_irreflexive(ns1[j]);
        }
    }
    assert forall|u: int| 0 <= u < a1.len() implies #[trigger] a1[u] == a2[u] by {
        let uu = u as usize;
        assert((uu as int) == u);
        assert forall|v: usize| a1[u].contains(v) <==> #[trigger] a2[u].contains(v) by {
            if a1[u].contains(v) {
                assert(in_range(a1[u], a1.len() as int));
                let kk = choose|kk: int| 0 <= kk < a1[u].len() && a1[u][kk] == v;
                assert((a1[u][kk] as int) < a1.len());
                assert(has_edge(a1, uu, v));
                assert(edge_by_names(ns1, a1, ns1[u], ns1[v as int]));
                assert(edge_by_names(ns2, a2, ns1[u], ns1[v as int]));
                let (x2, y2): (usize, usize) = choose|x2: usize, y2: usize|
                    (x2 as int) < ns2.len() && (y2 as int) < ns2.len() && ns2[x2 as int]
                        == ns1[u] && ns2[y2 as int] == ns1[v as int] && #[trigger] has_edge(
                        a2,
                        x2,
                        y2,
                    );
                assert((x2 as int) == u && (y2 as int) == v as int);
                assert(a2[u].contains(v));
            }
            if a2[u].contains(v) {
                assert(in_range(a2[u], a2.len() as int));
                let kk = choose|kk: int| 0 <= kk < a2[u].len() && a2[u][kk] == v;
                assert((a2[u][kk] as int) < a2.len());
                assert(has_edge(a2, uu, v));
                assert(edge_by_names(ns2, a2, ns2[u], ns2[v as int]));
                assert(edge_by_names(ns1, a1, ns1[u], ns1[v as int]));
                let (x1, y1): (usize, usize) = choose|x1: usize, y1: usize|
                    (x1 as int) < ns1.len() && (y1 as int) < ns1.len() && ns1[x1 as int]
                        == ns1[u] && ns1[y1 as int] == ns1[v as int] && #[trigger] has_edge(
                        a1,
                        x1,
                        y1,
                    );
                assert((x1 as int) == u && (y1 as int) == v as int);
                assert(a1[u].contains(v));
            }
        }
        crate::reach::lemma_sorted_same_elements_equal(a1[u], a2[u]);
    }
    assert(a1 =~= a2);
}

/// Idempotence: the reducer maps an already reduced graph to itself.
pub proof fn lemma_reduction_idempotent(g: Seq<Seq<usize>>)
    requires
        g.len() <= usize::MAX,
    ensures
        min_graph_spec(min_graph_spec(g)) == min_graph_spec(g),
{
    let mg = min_graph_spec(g);
    lemma_min_graph_edge_iff(g);
    lemma_min_graph_sub(g);
    assert forall|u: int| 0 <= u < mg.len() implies #[trigger] min_row(mg, u) == mg[u] by {
        lemma_keep_membership(g, u, g[u]);
        assert(mg[u] == min_row(g, u));
        assert((u as usize) as int == u);
        assert forall|i: int|
            0 <= i < mg[u].len() implies !indirect(mg, u as usize, #[trigger] mg[u][i]) by {
            let x = mg[u][i];
            assert(mg[u].contains(x));
            if indirect(mg, u as usize, x) {
                let k = choose|k: int| 0 <= k < mg[u].len() && reaches(mg, mg[u][k], x);
                let dd = mg[u][k];
                assert(mg[u].contains(dd));
                lemma_reaches_mono(mg, g, dd, x);
                assert(min_row(g, u).contains(dd));
                assert(g[u].contains(dd));
                let kg = choose|kk: int| 0 <= kk < g[u].len() && g[u][kk] == dd;
                assert(reaches(g, g[u][kg], x));
                assert(indirect(g, u as usize, x));
                assert(min_row(g, u).contains(x));
                assert(false);
            }
        }
        lemma_keep_all(mg, u, mg[u]);
    }
    assert(min_graph_spec(mg) =~= mg);
}

} // verus!
