//! The mathematical model of a dependency graph: adjacency rows over
//! interned module handles, paths, transitive reachability, and the
//! transitive reduction, together with the lemmas the executable code
//! and the public laws rest on.

use vstd::prelude::*;
use crate::bytes::lex_lt;

verus! {

/// Every entry of `row` is a handle below `n`.
pub open spec fn in_range(row: Seq<usize>, n: int) -> bool {
    forall|k: int| 0 <= k < row.len() ==> (#[trigger] row[k] as int) < n
}

/// The entries of `row` are strictly increasing.
pub open spec fn strictly_sorted(row: Seq<usize>) -> bool {
    forall|i: int, j: int| 0 <= i < j < row.len() ==> row[i] < row[j]
}

/// The name table is in strict lexicographic order, hence duplicate-free.
pub open spec fn sorted_names(ns: Seq<Seq<u8>>) -> bool {
    forall|i: int, j: int| 0 <= i < j < ns.len() ==> lex_lt(ns[i], ns[j])
}

/// A direct edge u -> v: "u depends directly on v".
pub open spec fn has_edge(g: Seq<Seq<usize>>, u: usize, v: usize) -> bool {
    (u as int) < g.len() && g[u as int].contains(v)
}

/// Well-formed adjacency structure: every row canonical (strictly sorted)
/// and closed over the known handles.
pub open spec fn wf_adj(g: Seq<Seq<usize>>) -> bool {
    forall|u: int|
        0 <= u < g.len() ==> strictly_sorted(#[trigger] g[u]) && in_range(g[u], g.len() as int)
}

/// `p` walks the graph along direct edges.
pub open spec fn is_path(g: Seq<Seq<usize>>, p: Seq<usize>) -> bool {
    p.len() >= 2 && forall|i: int| 0 <= i < p.len() - 1 ==> has_edge(g, #[trigger] p[i], p[i + 1])
}

/// `v` is reachable from `u` along one or more edges.
pub open spec fn reaches(g: Seq<Seq<usize>>, u: usize, v: usize) -> bool {
    exists|p: Seq<usize>| #[trigger] is_path(g, p) && p.first() == u && p.last() == v
}

/// `v` is `u` itself, or reachable from `u`.
pub open spec fn reaches_incl(g: Seq<Seq<usize>>, u: usize, v: usize) -> bool {
    v == u || reaches(g, u, v)
}

/// `v` is reachable starting one hop past some direct dependency of `u`.
pub open spec fn indirect(g: Seq<Seq<usize>>, u: usize, v: usize) -> bool {
    (u as int) < g.len() && exists|k: int|
        0 <= k < g[u as int].len() && reaches(g, #[trigger] g[u as int][k], v)
}

/// The entries of `row` that are not already reachable one hop past a
/// direct dependency of `u`, in their original order.
pub open spec fn keep_needed(g: Seq<Seq<usize>>, u: int, row: Seq<usize>) -> Seq<usize>
    decreases row.len(),
{
    if row.len() == 0 {
        Seq::empty()
    } else {
        let rest = keep_needed(g, u, row.drop_last());
        if !indirect(g, u as usize, row.last()) {
            rest.push(row.last())
        } else {
            rest
        }
    }
}

/// The direct dependencies of `u` that no longer path already implies.
pub open spec fn min_row(g: Seq<Seq<usize>>, u: int) -> Seq<usize> {
    keep_needed(g, u, g[u])
}

/// What survives in `keep_needed`: exactly the entries that are not
/// indirectly reachable.
pub proof fn lemma_keep_membership(g: Seq<Seq<usize>>, u: int, row: Seq<usize>)
    ensures
        forall|x: usize|
            #[trigger] keep_needed(g, u, row).contains(x) <==> (row.contains(x) && !indirect(
                g,
                u as usize,
                x,
            )),
    decreases row.len(),
{
    if row.len() > 0 {
        let rest = keep_needed(g, u, row.drop_last());
        lemma_keep_membership(g, u, row.drop_last());
        assert forall|x: usize|
            #[trigger] keep_needed(g, u, row).contains(x) implies (row.contains(x) && !indirect(
            g,
            u as usize,
            x,
        )) by {
            let out = keep_needed(g, u, row);
            let i = choose|i: int| 0 <= i < out.len() && out[i] == x;
            if i < rest.len() {
                assert(rest.contains(x));
                let j = choose|j: int| 0 <= j < row.drop_last().len() && row.drop_last()[j] == x;
                assert(row[j] == x);
            } else {
                assert(x == row.last());
                assert(row[row.len() - 1] == x);
            }
        }
        assert forall|x: usize|
            (row.contains(x) && !indirect(g, u as usize, x)) implies #[trigger] keep_needed(
            g,
            u,
            row,
        ).contains(x) by {
            let i = choose|i: int| 0 <= i < row.len() && row[i] == x;
            if i < row.len() - 1 {
                assert(row.drop_last()[i] == x);
                assert(row.drop_last().contains(x));
                assert(rest.contains(x));
                let j = choose|j: int| 0 <= j < rest.len() && rest[j] == x;
                if indirect(g, u as usize, row.last()) {
                    assert(keep_needed(g, u, row)[j] == x);
                } else {
                    assert(keep_needed(g, u, row)[j] == x);
                }
            } else {
                assert(x == row.last());
                let out = keep_needed(g, u, row);
                assert(out[out.len() - 1] == x);
            }
        }
    }
}

/// `keep_needed` keeps a strictly sorted row strictly sorted.
pub proof fn lemma_keep_sorted(g: Seq<Seq<usize>>, u: int, row: Seq<usize>)
    requires
        strictly_sorted(row),
    ensures
        strictly_sorted(keep_needed(g, u, row)),
    decreases row.len(),
{
    if row.len() > 0 {
        let prefix = row.drop_last();
        assert(strictly_sorted(prefix)) by {
            assert(forall|i: int, j: int|
                0 <= i < j < prefix.len() ==> prefix[i] == row[i] && prefix[j] == row[j]);
        }
        lemma_keep_sorted(g, u, prefix);
        lemma_keep_membership(g, u, prefix);
        let rest = keep_needed(g, u, prefix);
        if !indirect(g, u as usize, row.last()) {
            let out = rest.push(row.last());
            assert forall|i: int, j: int| 0 <= i < j < out.len() implies out[i] < out[j] by {
                if j == out.len() - 1 {
                    assert(rest.contains(rest[i]));
                    let k = choose|k: int| 0 <= k < prefix.len() && prefix[k] == rest[i];
                    assert(row[k] < row[row.len() - 1]);
                }
            }
        }
    }
}

/// When nothing in `row` is indirectly reachable, `keep_needed` is the
/// identity.
pub proof fn lemma_keep_all(g: Seq<Seq<usize>>, u: int, row: Seq<usize>)
    requires
        forall|i: int| 0 <= i < row.len() ==> !indirect(g, u as usize, #[trigger] row[i]),
    ensures
        keep_needed(g, u, row) == row,
    decreases row.len(),
{
    if row.len() > 0 {
        lemma_keep_all(g, u, row.drop_last());
        assert(keep_needed(g, u, row) =~= row);
    }
}

/// The transitive reduction, applied independently to every module of `g`.
pub open spec fn min_graph_spec(g: Seq<Seq<usize>>) -> Seq<Seq<usize>> {
    Seq::new(g.len(), |u: int| min_row(g, u))
}

/// `row` without every occurrence of `d`.
pub open spec fn drop_all(row: Seq<usize>, d: usize) -> Seq<usize>
    decreases row.len(),
{
    if row.len() == 0 {
        Seq::empty()
    } else {
        let rest = drop_all(row.drop_last(), d);
        if row.last() == d {
            rest
        } else {
            rest.push(row.last())
        }
    }
}

pub proof fn lemma_drop_all_membership(row: Seq<usize>, d: usize)
    ensures
        forall|x: usize|
            #[trigger] drop_all(row, d).contains(x) <==> (row.contains(x) && x != d),
    decreases row.len(),
{
    if row.len() > 0 {
        lemma_drop_all_membership(row.drop_last(), d);
        let rest = drop_all(row.drop_last(), d);
        assert forall|x: usize|
            #[trigger] drop_all(row, d).contains(x) implies (row.contains(x) && x != d) by {
            let out = drop_all(row, d);
            let i = choose|i: int| 0 <= i < out.len() && out[i] == x;
            if i < rest.len() {
                assert(rest.contains(x));
                let j = choose|j: int| 0 <= j < row.drop_last().len() && row.drop_last()[j] == x;
                assert(row[j] == x);
            } else {
                assert(x == row.last());
                assert(row[row.len() - 1] == x);
            }
        }
        assert forall|x: usize|
            (row.contains(x) && x != d) implies #[trigger] drop_all(row, d).contains(x) by {
            let i = choose|i: int| 0 <= i < row.len() && row[i] == x;
            if i < row.len() - 1 {
                assert(row.drop_last()[i] == x);
                assert(row.drop_last().contains(x));
                assert(rest.contains(x));
                let j = choose|j: int| 0 <= j < rest.len() && rest[j] == x;
                assert(drop_all(row, d)[j] == x);
            } else {
                let out = drop_all(row, d);
                assert(out[out.len() - 1] == x);
            }
        }
    }
}

/// The graph `h` with the direct edge `u -> d` taken out.
pub open spec fn remove_edge(h: Seq<Seq<usize>>, u: usize, d: usize) -> Seq<Seq<usize>> {
    h.update(u as int, drop_all(h[u as int], d))
}

/// Edges of the reduced graph: exactly the original edges that are not
/// implied by a longer path.
pub proof fn lemma_min_graph_edge_iff(g: Seq<Seq<usize>>)
    ensures
        min_graph_spec(g).len() == g.len(),
        forall|u: usize, v: usize|
            #[trigger] has_edge(min_graph_spec(g), u, v) <==> (has_edge(g, u, v) && !indirect(
                g,
                u,
                v,
            )),
{
    assert forall|u: usize, v: usize|
        #[trigger] has_edge(min_graph_spec(g), u, v) <==> (has_edge(g, u, v) && !indirect(
            g,
            u,
            v,
        )) by {
        if (u as int) < g.len() {
            lemma_keep_membership(g, u as int, g[u as int]);
            assert(min_graph_spec(g)[u as int] == min_row(g, u as int));
        }
    }
}

/// The dependency closure of a module of a well-formed graph is a
/// finite set of at most `g.len()` handles.
pub proof fn lemma_closure_finite(g: Seq<Seq<usize>>, u: usize)
    ensures
        closure_set(g, u).finite(),
        closure_set(g, u).len() <= g.len(),
{
    let range = vstd::set_lib::set_int_range(0, g.len() as int);
    vstd::set_lib::lemma_int_range(0, g.len() as int);
    assert(closure_set(g, u).subset_of(range));
    vstd::set_lib::lemma_len_subset(closure_set(g, u), range);
}

/// In an acyclic graph, walking one or more edges strictly shrinks the
/// closure.
pub proof fn lemma_closure_step(g: Seq<Seq<usize>>, u: usize, w: usize)
    requires
        wf_adj(g),
        is_dag(g),
        reaches(g, u, w),
    ensures
        closure_set(g, w).len() < closure_set(g, u).len(),
{
    lemma_closure_finite(g, u);
    lemma_closure_finite(g, w);
    lemma_reaches_in_range(g, u, w);
    assert forall|v: int| closure_set(g, w).contains(v) implies #[trigger] closure_set(
        g,
        u,
    ).remove(w as int).contains(v) by {
        lemma_reaches_trans(g, u, w, v as usize);
        assert(!reaches(g, w, w));
    }
    assert(closure_set(g, u).contains(w as int));
    assert(closure_set(g, u).remove(w as int).len() == closure_set(g, u).len() - 1);
    vstd::set_lib::lemma_len_subset(closure_set(g, w), closure_set(g, u).remove(w as int));
}

/// No module reaches itself: the graph is acyclic.
pub open spec fn is_dag(g: Seq<Seq<usize>>) -> bool {
    forall|u: usize| !reaches(g, u, u)
}

/// The dependency closure of `u`, as a set of handles.
pub open spec fn closure_set(g: Seq<Seq<usize>>, u: usize) -> Set<int> {
    Set::new(|v: int| 0 <= v < g.len() && reaches(g, u, v as usize))
}

/// The closure of `u` including `u` itself.
pub open spec fn closure_incl_set(g: Seq<Seq<usize>>, u: usize) -> Set<int> {
    Set::new(|v: int| 0 <= v < g.len() && reaches_incl(g, u, v as usize))
}

/// The handles below `n` whose module belongs to the inclusive closure
/// of `cr`, in increasing order.
pub open spec fn handles_upto(g: Seq<Seq<usize>>, cr: usize, n: int) -> Seq<usize>
    decreases n,
{
    if n <= 0 {
        Seq::empty()
    } else {
        let rest = handles_upto(g, cr, n - 1);
        if reaches_incl(g, cr, (n - 1) as usize) {
            rest.push((n - 1) as usize)
        } else {
            rest
        }
    }
}

/// The members of the inclusive closure of `cr`, as a strictly sorted
/// list of handles.
pub open spec fn incl_handles(g: Seq<Seq<usize>>, cr: usize) -> Seq<usize> {
    handles_upto(g, cr, g.len() as int)
}

pub proof fn lemma_handles_upto(g: Seq<Seq<usize>>, cr: usize, n: int)
    requires
        0 <= n <= usize::MAX,
    ensures
        strictly_sorted(handles_upto(g, cr, n)),
        forall|x: usize|
            #[trigger] handles_upto(g, cr, n).contains(x) <==> ((x as int) < n && reaches_incl(
                g,
                cr,
                x,
            )),
    decreases n,
{
    if n > 0 {
        lemma_handles_upto(g, cr, n - 1);
        let rest = handles_upto(g, cr, n - 1);
        let s = handles_upto(g, cr, n);
        if reaches_incl(g, cr, (n - 1) as usize) {
            assert forall|i: int, j: int| 0 <= i < j < s.len() implies s[i] < s[j] by {
                if j == s.len() - 1 {
                    assert(rest.contains(rest[i]));
                }
            }
            assert forall|x: usize|
                #[trigger] s.contains(x) implies ((x as int) < n && reaches_incl(g, cr, x)) by {
                let i = choose|i: int| 0 <= i < s.len() && s[i] == x;
                if i < rest.len() {
                    assert(rest.contains(x));
                }
            }
            assert forall|x: usize|
                ((x as int) < n && reaches_incl(g, cr, x)) implies #[trigger] s.contains(x) by {
                if (x as int) < n - 1 {
                    assert(rest.contains(x));
                    let i = choose|i: int| 0 <= i < rest.len() && rest[i] == x;
                    assert(s[i] == x);
                } else {
                    assert(s[s.len() - 1] == x);
                }
            }
        } else {
            assert forall|x: usize|
                ((x as int) < n && reaches_incl(g, cr, x)) implies #[trigger] s.contains(x) by {
                assert((x as int) != n - 1);
            }
        }
    }
}

/// Two strictly sorted handle lists with the same members are the same
/// list.
pub proof fn lemma_sorted_same_elements_equal(a: Seq<usize>, b: Seq<usize>)
    requires
        strictly_sorted(a),
        strictly_sorted(b),
        forall|x: usize| a.contains(x) <==> #[trigger] b.contains(x),
    ensures
        a == b,
    decreases a.len(),
{
    if a.len() == 0 {
        if b.len() > 0 {
            assert(b.contains(b[0]));
            assert(a.contains(b[0]));
        }
        assert(a =~= b);
    } else {
        assert(a.contains(a[0]));
        assert(b.contains(a[0]));
        assert(b.len() > 0);
        assert(b.contains(b[0]));
        assert(a.contains(b[0]));
        let i = choose|i: int| 0 <= i < b.len() && b[i] == a[0];
        let j = choose|j: int| 0 <= j < a.len() && a[j] == b[0];
        assert(b[0] <= b[i]);
        assert(a[0] <= a[j]);
        assert(a[0] == b[0]);
        let ta = a.drop_first();
        let tb = b.drop_first();
        assert(strictly_sorted(ta)) by {
            assert(forall|p: int, q: int|
                0 <= p < q < ta.len() ==> ta[p] == a[p + 1] && ta[q] == a[q + 1]);
        }
        assert(strictly_sorted(tb)) by {
            assert(forall|p: int, q: int|
                0 <= p < q < tb.len() ==> tb[p] == b[p + 1] && tb[q] == b[q + 1]);
        }
        assert forall|x: usize| ta.contains(x) implies #[trigger] tb.contains(x) by {
            let p = choose|p: int| 0 <= p < ta.len() && ta[p] == x;
            assert(a[p + 1] == x);
            assert(a.contains(x));
            assert(b.contains(x));
            let q = choose|q: int| 0 <= q < b.len() && b[q] == x;
            assert(x > a[0]);
            assert(q > 0);
            assert(tb[q - 1] == x);
        }
        assert forall|x: usize| tb.contains(x) implies #[trigger] ta.contains(x) by {
            let p = choose|p: int| 0 <= p < tb.len() && tb[p] == x;
            assert(b[p + 1] == x);
            assert(b.contains(x));
            assert(a.contains(x));
            let q = choose|q: int| 0 <= q < a.len() && a[q] == x;
            assert(x > b[0]);
            assert(q > 0);
            assert(ta[q - 1] == x);
        }
        lemma_sorted_same_elements_equal(ta, tb);
        assert(a =~= b) by {
            assert(forall|p: int| 1 <= p < a.len() ==> a[p] == ta[p - 1] && b[p] == tb[p - 1]);
        }
    }
}

/// The graph has an edge between the modules named `a` and `b`.
pub open spec fn edge_by_names(
    names: Seq<Seq<u8>>,
    adj: Seq<Seq<usize>>,
    a: Seq<u8>,
    b: Seq<u8>,
) -> bool {
    exists|u: usize, v: usize|
        (u as int) < names.len() && (v as int) < names.len() && names[u as int] == a
            && names[v as int] == b && #[trigger] has_edge(adj, u, v)
}

/// Two strictly lexicographically sorted name tables with the same
/// members are the same table.
pub proof fn lemma_sorted_same_names_equal(a: Seq<Seq<u8>>, b: Seq<Seq<u8>>)
    requires
        sorted_names(a),
        sorted_names(b),
        forall|x: Seq<u8>| a.contains(x) <==> #[trigger] b.contains(x),
    ensures
        a == b,
    decreases a.len(),
{
    if a.len() == 0 {
        if b.len() > 0 {
            assert(b.contains(b[0]));
            assert(a.contains(b[0]));
        }
        assert(a =~= b);
    } else {
        assert(a.contains(a[0]));
        assert(b.contains(a[0]));
        assert(b.len() > 0);
        assert(b.contains(b[0]));
        assert(a.contains(b[0]));
        let i = choose|i: int| 0 <= i < b.len() && b[i] == a[0];
        let j = choose|j: int| 0 <= j < a.len() && a[j] == b[0];
        if i > 0 {
            assert(lex_lt(b[0], b[i]));
        }
        if j > 0 {
            assert(lex_lt(a[0], a[j]));
        }
        if a[0] != b[0] {
            assert(lex_lt(b[0], a[0]) && lex_lt(a[0], b[0]));
            crate::bytes::lemma_lex_trans(a[0], b[0], a[0]);
            crate::bytes::lemma_lex_irreflexive(a[0]);
        }
        assert(a[0] == b[0]);
        let ta = a.drop_first();
        let tb = b.drop_first();
        assert(sorted_names(ta)) by {
            assert(forall|p: int, q: int|
                0 <= p < q < ta.len() ==> ta[p] == a[p + 1] && ta[q] == a[q + 1]);
        }
        assert(sorted_names(tb)) by {
            assert(forall|p: int, q: int|
                0 <= p < q < tb.len() ==> tb[p] == b[p + 1] && tb[q] == b[q + 1]);
        }
        assert forall|x: Seq<u8>| ta.contains(x) implies #[trigger] tb.contains(x) by {
            let p = choose|p: int| 0 <= p < ta.len() && ta[p] == x;
            assert(a[p + 1] == x);
            assert(a.contains(x));
            assert(b.contains(x));
            let q = choose|q: int| 0 <= q < b.len() && b[q] == x;
            assert(lex_lt(a[0], x));
            if q == 0 {
                crate::bytes::lemma_lex_irreflexive(x);
            }
            assert(q > 0);
            assert(tb[q - 1] == x);
        }
        assert forall|x: Seq<u8>| tb.contains(x) implies #[trigger] ta.contains(x) by {
            let p = choose|p: int| 0 <= p < tb.len() && tb[p] == x;
            assert(b[p + 1] == x);
            assert(b.contains(x));
            assert(a.contains(x));
            let q = choose|q: int| 0 <= q < a.len() && a[q] == x;
            assert(lex_lt(b[0], x));
            if q == 0 {
                crate::bytes::lemma_lex_irreflexive(x);
            }
            assert(q > 0);
            assert(ta[q - 1] == x);
        }
        lemma_sorted_same_names_equal(ta, tb);
        assert(a =~= b) by {
            assert(forall|p: int| 1 <= p < a.len() ==> a[p] == ta[p - 1] && b[p] == tb[p - 1]);
        }
    }
}

pub proof fn lemma_edge_reaches(g: Seq<Seq<usize>>, u: usize, v: usize)
    requires
        has_edge(g, u, v),
    ensures
        reaches(g, u, v),
{
    let p = seq![u, v];
    assert(p.first() == u && p.last() == v);
    assert forall|i: int| 0 <= i < p.len() - 1 implies has_edge(g, #[trigger] p[i], p[i + 1]) by {
        assert(p[0] == u && p[1] == v);
    }
    assert(is_path(g, p));
}

pub proof fn lemma_reaches_trans(g: Seq<Seq<usize>>, u: usize, w: usize, v: usize)
    requires
        reaches(g, u, w),
        reaches(g, w, v),
    ensures
        reaches(g, u, v),
{
    let p1 = choose|p: Seq<usize>| is_path(g, p) && p.first() == u && p.last() == w;
    let p2 = choose|p: Seq<usize>| is_path(g, p) && p.first() == w && p.last() == v;
    let q = p1 + p2.drop_first();
    assert(q.len() == p1.len() + p2.len() - 1);
    assert(q.first() == p1[0]);
    assert(q.last() == p2.drop_first()[p2.len() - 2]);
    assert(p2.drop_first()[p2.len() - 2] == p2[p2.len() - 1]);
    assert forall|i: int| 0 <= i < q.len() - 1 implies has_edge(g, #[trigger] q[i], q[i + 1]) by {
        if i < p1.len() - 1 {
            assert(q[i] == p1[i] && q[i + 1] == p1[i + 1]);
        } else if i == p1.len() - 1 {
            assert(q[i] == p1[p1.len() - 1]);
            assert(q[i + 1] == p2.drop_first()[0]);
            assert(p2.drop_first()[0] == p2[1]);
            assert(has_edge(g, p2[0], p2[1]));
        } else {
            let j = i - p1.len();
            assert(q[i] == p2.drop_first()[j]);
            assert(q[i + 1] == p2.drop_first()[j + 1]);
            assert(p2.drop_first()[j] == p2[j + 1]);
            assert(p2.drop_first()[j + 1] == p2[j + 2]);
            assert(has_edge(g, p2[j + 1], p2[j + 2]));
        }
    }
    assert(is_path(g, q));
}

/// A nonempty reachability either is a single edge or factors through a
/// first hop.
pub proof fn lemma_first_hop(g: Seq<Seq<usize>>, u: usize, v: usize)
    requires
        reaches(g, u, v),
    ensures
        has_edge(g, u, v) || exists|w: usize| #[trigger] has_edge(g, u, w) && reaches(g, w, v),
{
    let p = choose|p: Seq<usize>| is_path(g, p) && p.first() == u && p.last() == v;
    if p.len() == 2 {
        assert(has_edge(g, p[0], p[1]));
    } else {
        let w = p[1];
        let t = p.drop_first();
        assert(t.len() == p.len() - 1 >= 2);
        assert forall|i: int| 0 <= i < t.len() - 1 implies has_edge(g, #[trigger] t[i], t[i + 1]) by {
            assert(t[i] == p[i + 1] && t[i + 1] == p[i + 2]);
            assert(has_edge(g, p[i + 1], p[i + 2]));
        }
        assert(t.first() == p[1] && t.last() == p[p.len() - 1]);
        assert(is_path(g, t));
        assert(has_edge(g, p[0], p[1]));
        assert(has_edge(g, u, w) && reaches(g, w, v));
    }
}

/// Both endpoints of a reachability lie inside a well-formed graph.
pub proof fn lemma_reaches_in_range(g: Seq<Seq<usize>>, u: usize, v: usize)
    requires
        wf_adj(g),
        reaches(g, u, v),
    ensures
        (u as int) < g.len(),
        (v as int) < g.len(),
{
    let p = choose|p: Seq<usize>| is_path(g, p) && p.first() == u && p.last() == v;
    assert(has_edge(g, p[0], p[1]));
    let i = p.len() - 2;
    assert(has_edge(g, p[i], p[i + 1]));
    let row = g[p[i] as int];
    let k = choose|k: int| 0 <= k < row.len() && row[k] == v;
    assert((row[k] as int) < g.len());
}

/// Reachability transfers to any graph with at least the same edges.
pub proof fn lemma_reaches_mono(h: Seq<Seq<usize>>, g: Seq<Seq<usize>>, u: usize, v: usize)
    requires
        forall|x: usize, y: usize| #[trigger] has_edge(h, x, y) ==> has_edge(g, x, y),
        reaches(h, u, v),
    ensures
        reaches(g, u, v),
{
    let p = choose|p: Seq<usize>| is_path(h, p) && p.first() == u && p.last() == v;
    assert forall|i: int| 0 <= i < p.len() - 1 implies has_edge(g, #[trigger] p[i], p[i + 1]) by {
        assert(has_edge(h, p[i], p[i + 1]));
    }
    assert(is_path(g, p));
}

proof fn lemma_closed_path(g: Seq<Seq<usize>>, marks: Seq<bool>, p: Seq<usize>)
    requires
        marks.len() == g.len(),
        forall|d: usize| has_edge(g, p.first(), d) ==> marks[d as int],
        forall|x: usize, w: usize|
            (x as int) < marks.len() && marks[x as int] && #[trigger] has_edge(g, x, w)
                ==> marks[w as int],
        is_path(g, p),
    ensures
        marks[p.last() as int],
    decreases p.len(),
{
    if p.len() == 2 {
        assert(has_edge(g, p[0], p[1]));
    } else {
        let q = p.drop_last();
        assert(q.len() == p.len() - 1);
        assert forall|i: int| 0 <= i < q.len() - 1 implies has_edge(g, #[trigger] q[i], q[i + 1]) by {
            assert(q[i] == p[i] && q[i + 1] == p[i + 1]);
            assert(has_edge(g, p[i], p[i + 1]));
        }
        assert(q.first() == p.first());
        assert(is_path(g, q));
        lemma_closed_path(g, marks, q);
        assert(has_edge(g, p[p.len() - 2], p[p.len() - 1]));
        assert(q.last() == p[p.len() - 2]);
    }
}

/// A mark table that covers the direct dependencies of `u` and is closed
/// under direct edges covers everything reachable from `u`.
pub proof fn lemma_closed(g: Seq<Seq<usize>>, marks: Seq<bool>, u: usize, v: usize)
    requires
        marks.len() == g.len(),
        forall|d: usize| has_edge(g, u, d) ==> marks[d as int],
        forall|x: usize, w: usize|
            (x as int) < marks.len() && marks[x as int] && #[trigger] has_edge(g, x, w)
                ==> marks[w as int],
        reaches(g, u, v),
    ensures
        marks[v as int],
{
    let p = choose|p: Seq<usize>| is_path(g, p) && p.first() == u && p.last() == v;
    lemma_closed_path(g, marks, p);
}

} // verus!
