//! The dependency graph over interned module handles, and the operations
//! on it: reachability closures, the ancestor subgraph of a target, the
//! transitive reduction, and the canonical edge emission.

use vstd::prelude::*;
use crate::Error;
use crate::bytes::{bytes_eq, bytes_lt, lex_lt, push_all};
use crate::reach::{
    in_range, strictly_sorted, sorted_names, wf_adj, has_edge, reaches, reaches_incl, indirect,
    keep_needed, min_row, min_graph_spec, incl_handles, lemma_edge_reaches, lemma_reaches_trans,
    lemma_reaches_in_range, lemma_closed, lemma_keep_sorted, lemma_keep_membership,
    lemma_handles_upto, lemma_sorted_same_elements_equal,
};

verus! {

/// A dependency graph.
///
/// Module identifiers are interned: `names` holds the byte-string
/// identifiers in strict lexicographic order, and a module is addressed
/// everywhere by its handle, the index of its identifier. `adj[u]` holds
/// the handles of the direct dependencies of `u`, strictly sorted.
pub struct GraphRef {
    pub names: Vec<Vec<u8>>,
    pub adj: Vec<Vec<usize>>,
}

/// Everything marked is reachable from `cr`.
spec fn marks_sound(g: Seq<Seq<usize>>, cr: usize, marks: Seq<bool>) -> bool {
    forall|v: int| 0 <= v < marks.len() && marks[v] ==> reaches(g, cr, v as usize)
}

/// Every scheduled handle is known and reachable from `cr`.
spec fn stack_sound(g: Seq<Seq<usize>>, cr: usize, s: Seq<usize>) -> bool {
    forall|idx: int|
        0 <= idx < s.len() ==> ((#[trigger] s[idx] as int) < g.len() && reaches(g, cr, s[idx]))
}

/// Every direct dependency of `cr` is marked or scheduled.
spec fn seeds_covered(g: Seq<Seq<usize>>, cr: usize, marks: Seq<bool>, s: Seq<usize>) -> bool {
    forall|d: usize| #[trigger] has_edge(g, cr, d) ==> marks[d as int] || s.contains(d)
}

/// Every direct edge out of a marked module ends marked or scheduled.
spec fn closed_up_to(g: Seq<Seq<usize>>, marks: Seq<bool>, s: Seq<usize>) -> bool {
    forall|x: usize, w: usize|
        (x as int) < marks.len() && marks[x as int] && #[trigger] has_edge(g, x, w)
            ==> marks[w as int] || s.contains(w)
}

/// The views of a list of byte strings.
pub open spec fn seqs_of(v: Seq<Vec<u8>>) -> Seq<Seq<u8>> {
    Seq::new(v.len(), |i: int| v[i]@)
}

/// Some entry of the name table is the identifier `nm`.
pub open spec fn has_name(ns: Seq<Seq<u8>>, nm: Seq<u8>) -> bool {
    exists|i: int| 0 <= i < ns.len() && ns[i] == nm
}

/// Some raw observation declares the module named `nm`.
pub open spec fn entry_named(entries: Seq<(Vec<u8>, Vec<Vec<u8>>)>, nm: Seq<u8>) -> bool {
    exists|e: int| 0 <= e < entries.len() && (#[trigger] entries[e].0@) == nm
}

/// Some raw observation for the module named `name` lists the candidate
/// token `token`.
pub open spec fn entry_has_token(
    entries: Seq<(Vec<u8>, Vec<Vec<u8>>)>,
    name: Seq<u8>,
    token: Seq<u8>,
) -> bool {
    exists|e: int, t: int|
        0 <= e < entries.len() && 0 <= t < entries[e].1@.len() && entries[e].0@ == name && (
        #[trigger] entries[e].1@[t])@ == token
}

/// The views of an emitted pair list.
pub open spec fn pairs_view(v: Seq<(Vec<u8>, Vec<u8>)>) -> Seq<(Seq<u8>, Seq<u8>)> {
    Seq::new(v.len(), |i: int| (v[i].0@, v[i].1@))
}

/// The report lines owed to module `u`: one (dependency, dependent)
/// name pair per direct dependency, in canonical order.
pub open spec fn row_pairs(names: Seq<Seq<u8>>, adj: Seq<Seq<usize>>, u: int) -> Seq<
    (Seq<u8>, Seq<u8>),
> {
    Seq::new(adj[u].len(), |k: int| (names[adj[u][k] as int], names[u]))
}

/// The report lines of the modules below `u`, in canonical order.
pub open spec fn emit_upto(names: Seq<Seq<u8>>, adj: Seq<Seq<usize>>, u: int) -> Seq<
    (Seq<u8>, Seq<u8>),
>
    decreases u,
{
    if u <= 0 {
        Seq::empty()
    } else {
        emit_upto(names, adj, u - 1) + row_pairs(names, adj, u - 1)
    }
}

/// The full deterministic report of a graph.
pub open spec fn emit_spec(names: Seq<Seq<u8>>, adj: Seq<Seq<usize>>) -> Seq<(Seq<u8>, Seq<u8>)> {
    emit_upto(names, adj, adj.len() as int)
}

impl GraphRef {
    /// The adjacency rows, as mathematical sequences.
    pub open spec fn adjs(&self) -> Seq<Seq<usize>> {
        Seq::new(self.adj@.len(), |u: int| self.adj@[u]@)
    }

    /// The name table, as mathematical sequences.
    pub open spec fn name_seqs(&self) -> Seq<Seq<u8>> {
        Seq::new(self.names@.len(), |i: int| self.names@[i]@)
    }

    /// The number of modules.
    pub open spec fn n(&self) -> int {
        self.adj@.len() as int
    }

    /// Well-formedness: one name per adjacency row, names strictly
    /// sorted (so identifiers are unique), rows canonical and closed
    /// over the known handles.
    pub open spec fn wf(&self) -> bool {
        self.names@.len() == self.adj@.len() && wf_adj(self.adjs()) && sorted_names(
            self.name_seqs(),
        )
    }

    /// The number of modules of the graph.
    pub fn len(&self) -> (r: usize)
        ensures
            r == self.n(),
    {
        self.adj.len()
    }

    /// The handle of the module named `name`, if any.
    pub fn find_module(&self, name: &Vec<u8>) -> (r: Option<usize>)
        ensures
            match r {
                Some(i) => (i as int) < self.name_seqs().len() && self.name_seqs()[i as int]
                    == name@,
                None => forall|i: int|
                    0 <= i < self.name_seqs().len() ==> self.name_seqs()[i] != name@,
            },
    {
        let mut i: usize = 0;
        while i < self.names.len()
            invariant
                0 <= i <= self.names@.len(),
                forall|k: int| 0 <= k < i ==> self.name_seqs()[k] != name@,
            decreases self.names@.len() - i,
        {
            if bytes_eq(&self.names[i], name) {
                return Some(i);
            }
            i += 1;
        }
        None
    }

    /// The direct dependencies of a module.
    ///
    /// The handle must belong to this graph: looking up an unknown
    /// module here is a contract violation of the caller, not a
    /// recoverable error.
    pub fn first_order_deps(&self, cr: usize) -> (r: &Vec<usize>)
        requires
            self.wf(),
            (cr as int) < self.n(),
        ensures
            r@ == self.adjs()[cr as int],
    {
        &self.adj[cr]
    }

    /// Every module reachable from `cr` along one or more edges, as a
    /// strictly sorted list of handles. `cr` itself appears only if a
    /// cycle leads back to it.
    #[verifier::rlimit(100)]
    pub fn all_deps(&self, cr: usize) -> (r: Vec<usize>)
        requires
            self.wf(),
            (cr as int) < self.n(),
        ensures
            strictly_sorted(r@),
            forall|v: usize| #[trigger] r@.contains(v) <==> reaches(self.adjs(), cr, v),
    {
        let ghost g = self.adjs();
        let n = self.adj.len();
        let mut marks = make_marks(n);
        let mut count: usize = 0;
        proof {
            lemma_count_true_zero(marks@);
        }
        let mut stack: Vec<usize> = Vec::new();

        let row = &self.adj[cr];
        proof {
            assert(row@ == g[cr as int]);
        }
        let mut k: usize = 0;
        while k < row.len()
            invariant
                self.wf(),
                g == self.adjs(),
                (cr as int) < g.len(),
                row@ == g[cr as int],
                0 <= k <= row@.len(),
                stack_sound(g, cr, stack@),
                forall|j: int| 0 <= j < k ==> stack@.contains(#[trigger] row@[j]),
            decreases row@.len() - k,
        {
            let d = row[k];
            proof {
                assert(g[cr as int].contains(d));
                lemma_edge_reaches(g, cr, d);
                lemma_reaches_in_range(g, cr, d);
                lemma_push_keeps(stack@, d);
            }
            stack.push(d);
            k += 1;
        }
        proof {
            assert forall|d: usize| #[trigger] has_edge(g, cr, d) implies stack@.contains(d) by {
                let j = choose|j: int| 0 <= j < g[cr as int].len() && g[cr as int][j] == d;
                assert(stack@.contains(row@[j]));
            }
        }

        while stack.len() > 0
            invariant
                self.wf(),
                g == self.adjs(),
                (cr as int) < g.len(),
                marks@.len() == g.len(),
                count == count_true(marks@),
                count <= marks@.len(),
                marks_sound(g, cr, marks@),
                stack_sound(g, cr, stack@),
                seeds_covered(g, cr, marks@, stack@),
                closed_up_to(g, marks@, stack@),
            decreases marks@.len() - count, stack@.len(),
        {
            self.step(&mut marks, &mut count, &mut stack, Ghost(cr));
        }

        proof {
            assert forall|v: usize|
                reaches(g, cr, v) implies (v as int) < marks@.len() && marks@[v as int] by {
                lemma_reaches_in_range(g, cr, v);
                lemma_closed(g, marks@, cr, v);
            }
        }
        collect_marked(&marks)
    }

    /// One round of the traversal: takes a scheduled module off the
    /// work list, and on first sight marks it and schedules its direct
    /// dependencies.
    #[verifier::rlimit(100)]
    fn step(
        &self,
        marks: &mut Vec<bool>,
        count: &mut usize,
        stack: &mut Vec<usize>,
        Ghost(cr): Ghost<usize>,
    )
        requires
            self.wf(),
            (cr as int) < self.n(),
            old(stack)@.len() > 0,
            old(marks)@.len() == self.n(),
            *old(count) == count_true(old(marks)@),
            marks_sound(self.adjs(), cr, old(marks)@),
            stack_sound(self.adjs(), cr, old(stack)@),
            seeds_covered(self.adjs(), cr, old(marks)@, old(stack)@),
            closed_up_to(self.adjs(), old(marks)@, old(stack)@),
        ensures
            final(marks)@.len() == self.n(),
            *final(count) == count_true(final(marks)@),
            *final(count) <= final(marks)@.len(),
            marks_sound(self.adjs(), cr, final(marks)@),
            stack_sound(self.adjs(), cr, final(stack)@),
            seeds_covered(self.adjs(), cr, final(marks)@, final(stack)@),
            closed_up_to(self.adjs(), final(marks)@, final(stack)@),
            count_true(final(marks)@) > count_true(old(marks)@) || (final(marks)@ == old(
                marks,
            )@ && final(stack)@.len() < old(stack)@.len()),
    {
        let ghost g = self.adjs();
        let ghost old_stack = stack@;
        let d = stack.pop().unwrap();
            proof {
                assert(d == old_stack[old_stack.len() - 1]);
                assert forall|w: usize|
                    old_stack.contains(w) implies w == d || stack@.contains(w) by {
                    let idx = choose|idx: int|
                        0 <= idx < old_stack.len() && old_stack[idx] == w;
                    if idx < old_stack.len() - 1 {
                        assert(stack@[idx] == w);
                    }
                }
            }
            if !marks[d] {
                let ghost m0 = marks@;
                let ghost s1 = stack@;
                self.expand(d, marks, count, stack, Ghost(cr));
                proof {
                    assert(marks@ == m0.update(d as int, true));
                    lemma_count_true_set(m0, d as int);
                    assert forall|v: int|
                        0 <= v < marks@.len() && marks@[v] implies reaches(g, cr, v as usize) by {
                        if v != d {
                            assert(m0[v]);
                        }
                    }
                    assert forall|x: usize, w: usize|
                        (x as int) < marks@.len() && marks@[x as int] && #[trigger] has_edge(
                            g,
                            x,
                            w,
                        ) implies marks@[w as int] || stack@.contains(w) by {
                        if x != d {
                            assert(m0[x as int]);
                            assert(m0[w as int] || s1.contains(w) || w == d);
                        }
                    }
                    assert forall|dd: usize| #[trigger] has_edge(g, cr, dd)
                        implies marks@[dd as int] || stack@.contains(dd) by {
                        assert(m0[dd as int] || s1.contains(dd) || dd == d);
                    }
                }
            } else {
                proof {
                    assert forall|dd: usize| #[trigger] has_edge(g, cr, dd)
                        implies marks@[dd as int] || stack@.contains(dd) by {
                        if !marks@[dd as int] {
                            assert(old_stack.contains(dd));
                        }
                    }
                    assert forall|x: usize, w: usize|
                        (x as int) < marks@.len() && marks@[x as int] && #[trigger] has_edge(
                            g,
                            x,
                            w,
                        ) implies marks@[w as int] || stack@.contains(w) by {
                        if !marks@[w as int] {
                            assert(old_stack.contains(w));
                        }
                    }
                }
            }
        proof {
            lemma_count_true_le(marks@);
        }
    }

    /// The module itself together with everything it transitively
    /// depends on. Unlike `all_deps`, an unknown handle is reported
    /// here as a recoverable `NotFound` error, never treated as an
    /// empty result.
    pub fn all_deps_including_self(&self, cr: usize) -> (r: Result<Vec<usize>, Error>)
        requires
            self.wf(),
        ensures
            match r {
                Ok(s) => (cr as int) < self.n() && strictly_sorted(s@) && forall|v: usize|
                    #[trigger] s@.contains(v) <==> reaches_incl(self.adjs(), cr, v),
                Err(e) => e == Error::NotFound && (cr as int) >= self.n(),
            },
    {
        if cr >= self.adj.len() {
            return Err(Error::NotFound);
        }
        let mut r = self.all_deps(cr);
        if !vec_contains(&r, cr) {
            insert_sorted(&mut r, cr);
        }
        Ok(r)
    }

    /// Everything reachable starting one hop past a direct dependency
    /// of `cr`: the union of the closures of the direct dependencies.
    #[verifier::rlimit(100)]
    pub fn deps_reachable_via_first_order_deps(&self, cr: usize) -> (r: Vec<usize>)
        requires
            self.wf(),
            (cr as int) < self.n(),
        ensures
            strictly_sorted(r@),
            forall|v: usize| #[trigger] r@.contains(v) <==> indirect(self.adjs(), cr, v),
    {
        let ghost g = self.adjs();
        let n = self.adj.len();
        let mut marks = make_marks(n);
        let row = &self.adj[cr];
        proof {
            assert(row@ == g[cr as int]);
        }
        let mut k: usize = 0;
        while k < row.len()
            invariant
                self.wf(),
                g == self.adjs(),
                (cr as int) < g.len(),
                row@ == g[cr as int],
                0 <= k <= row@.len(),
                marks@.len() == g.len(),
                g.len() == n as int,
                forall|v: int|
                    0 <= v < marks@.len() ==> ((#[trigger] marks@[v]) <==> exists|j: int|
                        0 <= j < k && reaches(g, row@[j], v as usize)),
            decreases row@.len() - k,
        {
            let d = row[k];
            proof {
                assert(in_range(g[cr as int], g.len() as int));
                assert((row@[k as int] as int) < g.len());
            }
            let c = self.all_deps(d);
            proof {
                assert forall|x: int|
                    0 <= x < c@.len() implies ((#[trigger] c@[x] as int) < g.len()) by {
                    assert(c@.contains(c@[x]));
                    lemma_reaches_in_range(g, d, c@[x]);
                }
            }
            let ghost m_in = marks@;
            let mut t: usize = 0;
            while t < c.len()
                invariant
                    marks@.len() == g.len(),
                    g.len() == n as int,
                    0 <= t <= c@.len(),
                    forall|v: usize| (#[trigger] c@.contains(v)) <==> reaches(g, d, v),
                    forall|x: int|
                        0 <= x < c@.len() ==> ((#[trigger] c@[x] as int) < g.len()),
                    forall|v: int|
                        0 <= v < marks@.len() ==> ((#[trigger] marks@[v]) <==> (m_in[v]
                            || exists|x: int| 0 <= x < t && c@[x] == v as usize)),
                decreases c@.len() - t,
            {
                let x = c[t];
                proof {
                    assert(c@.contains(c@[t as int]));
                }
                if !marks[x] {
                    let ghost mm = marks@;
                    marks[x] = true;
                    proof {
                        assert forall|v: int|
                            0 <= v < marks@.len() implies ((#[trigger] marks@[v]) <==> (m_in[v]
                                || exists|xx: int| 0 <= xx < t + 1 && c@[xx] == v as usize)) by {
                            assert((v as usize) as int == v);
                            if v == x as int {
                                assert(c@[t as int] == v as usize);
                            } else {
                                assert(marks@[v] == mm[v]);
                                if exists|xx: int| 0 <= xx < t + 1 && c@[xx] == v as usize {
                                    let xx = choose|xx: int|
                                        0 <= xx < t + 1 && c@[xx] == v as usize;
                                    if xx == t {
                                        assert(c@[t as int] == x);
                                        assert(v == x as int);
                                    }
                                    assert(xx < t);
                                }
                            }
                        }
                    }
                } else {
                    proof {
                        assert forall|v: int|
                            0 <= v < marks@.len() implies ((#[trigger] marks@[v]) <==> (m_in[v]
                                || exists|xx: int| 0 <= xx < t + 1 && c@[xx] == v as usize)) by {
                            if !marks@[v] {
                                assert((v as usize) as int == v);
                                if exists|xx: int| 0 <= xx < t + 1 && c@[xx] == v as usize {
                                    let xx = choose|xx: int|
                                        0 <= xx < t + 1 && c@[xx] == v as usize;
                                    if xx == t {
                                        assert(c@[t as int] == x);
                                        assert(v == x as int);
                                        assert(marks@[v]);
                                    }
                                }
                            }
                        }
                    }
                }
                t += 1;
            }
            proof {
                assert forall|v: int|
                    0 <= v < marks@.len() implies ((#[trigger] marks@[v]) <==> exists|j: int|
                        0 <= j < k + 1 && reaches(g, row@[j], v as usize)) by {
                    if marks@[v] {
                        if m_in[v] {
                            let j = choose|j: int| 0 <= j < k && reaches(g, row@[j], v as usize);
                            assert(0 <= j < k + 1 && reaches(g, row@[j], v as usize));
                        } else {
                            let x = choose|x: int| 0 <= x < c@.len() && c@[x] == v as usize;
                            assert(c@.contains(v as usize));
                            assert(reaches(g, row@[k as int], v as usize));
                        }
                    } else {
                        if exists|j: int| 0 <= j < k + 1 && reaches(g, row@[j], v as usize) {
                            let j = choose|j: int|
                                0 <= j < k + 1 && reaches(g, row@[j], v as usize);
                            if j == k {
                                assert(c@.contains(v as usize));
                                let x = choose|x: int| 0 <= x < c@.len() && c@[x] == v as usize;
                                assert(marks@[v]);
                            }
                        }
                    }
                }
            }
            k += 1;
        }
        proof {
            assert forall|v: usize|
                ((v as int) < marks@.len() && marks@[v as int]) <==> #[trigger] indirect(
                g,
                cr,
                v,
            ) by {
                if (v as int) < marks@.len() && marks@[v as int] {
                    let j = choose|j: int|
                        0 <= j < row@.len() && reaches(g, row@[j], v as usize);
                    assert(indirect(g, cr, v));
                }
                if indirect(g, cr, v) {
                    let j = choose|j: int|
                        0 <= j < g[cr as int].len() && reaches(g, g[cr as int][j], v);
                    lemma_reaches_in_range(g, g[cr as int][j], v);
                }
            }
        }
        collect_marked(&marks)
    }

    /// The minimal direct dependencies of `cr`: the direct dependencies
    /// that none of the others already reaches through a longer path.
    pub fn min_necessary_deps(&self, cr: usize) -> (r: Vec<usize>)
        requires
            self.wf(),
            (cr as int) < self.n(),
        ensures
            r@ == min_row(self.adjs(), cr as int),
    {
        let ghost g = self.adjs();
        let reachable = self.deps_reachable_via_first_order_deps(cr);
        let row = &self.adj[cr];
        proof {
            assert(row@ == g[cr as int]);
            assert(row@.subrange(0, 0) =~= Seq::<usize>::empty());
        }
        let mut r: Vec<usize> = Vec::new();
        let mut k: usize = 0;
        while k < row.len()
            invariant
                self.wf(),
                g == self.adjs(),
                (cr as int) < g.len(),
                row@ == g[cr as int],
                0 <= k <= row@.len(),
                forall|v: usize| (#[trigger] reachable@.contains(v)) <==> indirect(g, cr, v),
                r@ == keep_needed(g, cr as int, row@.subrange(0, k as int)),
            decreases row@.len() - k,
        {
            let d = row[k];
            let hit = vec_contains(&reachable, d);
            proof {
                let pre = row@.subrange(0, k as int);
                let cur = row@.subrange(0, k as int + 1);
                assert(cur.drop_last() =~= pre);
                assert(cur.last() == row@[k as int]);
            }
            if !hit {
                r.push(d);
            }
            k += 1;
        }
        proof {
            assert(row@.subrange(0, row@.len() as int) =~= row@);
        }
        r
    }

    /// The induced ancestor subgraph of a target module: the modules of
    /// the target's inclusive closure, with every edge whose ends both
    /// belong to it, under handles renumbered in the same canonical
    /// order. Fails with `NotFound` when the target is not a module of
    /// this graph, and emits nothing partial.
    #[verifier::rlimit(100)]
    pub fn graph_leading_to(&self, cr: usize) -> (r: Result<GraphRef, Error>)
        requires
            self.wf(),
        ensures
            match r {
                Ok(h) => {
                    let s = incl_handles(self.adjs(), cr);
                    (cr as int) < self.n() && h.wf() && h.n() == s.len()
                        && h.name_seqs() == Seq::new(
                        s.len(),
                        |i: int| self.name_seqs()[s[i] as int],
                    ) && forall|i: int, j: usize|
                        0 <= i < s.len() ==> ((#[trigger] h.adjs()[i].contains(j)) <==> ((
                        j as int) < s.len() && has_edge(self.adjs(), s[i], s[j as int])))
                },
                Err(e) => e == Error::NotFound && (cr as int) >= self.n(),
            },
    {
        let ghost g = self.adjs();
        let s = match self.all_deps_including_self(cr) {
            Ok(s) => s,
            Err(e) => {
                return Err(e);
            },
        };
        let n = self.adj.len();
        proof {
            assert(g.len() == n as int);
            lemma_handles_upto(g, cr, g.len() as int);
            assert forall|x: usize| s@.contains(x) implies #[trigger] incl_handles(
                g,
                cr,
            ).contains(x) by {
                if x != cr {
                    lemma_reaches_in_range(g, cr, x);
                }
            }
            lemma_sorted_same_elements_equal(s@, incl_handles(g, cr));
            assert(s@ == incl_handles(g, cr));
            assert forall|i: int| 0 <= i < s@.len() implies ((#[trigger] s@[i] as int)
                < g.len()) by {
                assert(s@.contains(s@[i]));
            }
        }
        let m = s.len();

        let mut marks = make_marks(n);
        let mut pos: Vec<usize> = make_zeros(n);
        let mut i: usize = 0;
        while i < m
            invariant
                0 <= i <= m,
                m == s@.len(),
                strictly_sorted(s@),
                marks@.len() == n,
                pos@.len() == n,
                g.len() == n as int,
                forall|k: int| 0 <= k < s@.len() ==> ((#[trigger] s@[k] as int) < n),
                forall|v: int|
                    0 <= v < n ==> ((#[trigger] marks@[v]) <==> exists|k: int|
                        0 <= k < i && s@[k] == v as usize),
                forall|k: int| 0 <= k < i ==> (#[trigger] pos@[s@[k] as int]) == k,
            decreases m - i,
        {
            let v = s[i];
            let ghost mm = marks@;
            marks[v] = true;
            pos[v] = i;
            proof {
                assert forall|vv: int|
                    0 <= vv < n implies ((#[trigger] marks@[vv]) <==> exists|k: int|
                        0 <= k < i + 1 && s@[k] == vv as usize) by {
                    assert((vv as usize) as int == vv);
                    if vv == v as int {
                        assert(s@[i as int] == vv as usize);
                    } else {
                        assert(marks@[vv] == mm[vv]);
                        if exists|k: int| 0 <= k < i + 1 && s@[k] == vv as usize {
                            let k = choose|k: int| 0 <= k < i + 1 && s@[k] == vv as usize;
                            assert(k < i);
                        }
                    }
                }
                assert forall|k: int| 0 <= k < i + 1 implies (#[trigger] pos@[s@[k] as int])
                    == k by {
                    if k < i {
                        assert(s@[k] != s@[i as int]);
                    }
                }
            }
            i += 1;
        }
        proof {
            assert forall|v: usize| #[trigger] s@.contains(v) implies ((v as int) < n
                && marks@[v as int] && s@[pos@[v as int] as int] == v
                && (pos@[v as int] as int) < m) by {
                let k = choose|k: int| 0 <= k < s@.len() && s@[k] == v;
                assert(pos@[s@[k] as int] == k);
            }
        }

        let mut names2: Vec<Vec<u8>> = Vec::new();
        let mut adj2: Vec<Vec<usize>> = Vec::new();
        let mut i: usize = 0;
        while i < m
            invariant
                self.wf(),
                g == self.adjs(),
                0 <= i <= m,
                m == s@.len(),
                strictly_sorted(s@),
                marks@.len() == n,
                pos@.len() == n,
                g.len() == n as int,
                forall|k: int| 0 <= k < s@.len() ==> ((#[trigger] s@[k] as int) < n),
                forall|v: int|
                    0 <= v < n ==> ((#[trigger] marks@[v]) <==> s@.contains(v as usize)),
                forall|v: usize|
                    #[trigger] s@.contains(v) ==> (s@[pos@[v as int] as int] == v
                        && (pos@[v as int] as int) < m),
                names2@.len() == i,
                forall|k: int| 0 <= k < i ==> (#[trigger] names2@[k]@) == self.names@[s@[k] as int]@,
                adj2@.len() == i,
                forall|k: int, j: usize|
                    0 <= k < i ==> ((#[trigger] adj2@[k]@.contains(j)) <==> ((j as int) < m
                        && has_edge(g, s@[k], s@[j as int]))),
                forall|k: int| 0 <= k < i ==> strictly_sorted(#[trigger] adj2@[k]@),
                forall|k: int, t: int|
                    0 <= k < i && 0 <= t < adj2@[k]@.len() ==> ((#[trigger] adj2@[k]@[t] as int)
                        < m),
            decreases m - i,
        {
            let u = s[i];
            let nm = clone_name(&self.names[u]);
            names2.push(nm);
            let row = &self.adj[u];
            proof {
                assert(row@ == g[u as int]);
                assert(in_range(g[u as int], g.len() as int));
            }
            let mut nr: Vec<usize> = Vec::new();
            let mut k2: usize = 0;
            while k2 < row.len()
                invariant
                    self.wf(),
                    g == self.adjs(),
                    m == s@.len(),
                    strictly_sorted(s@),
                    marks@.len() == n,
                    pos@.len() == n,
                    g.len() == n as int,
                    (u as int) < n,
                    row@ == g[u as int],
                    0 <= k2 <= row@.len(),
                    forall|k: int| 0 <= k < row@.len() ==> ((#[trigger] row@[k] as int) < n),
                    forall|v: int|
                        0 <= v < n ==> ((#[trigger] marks@[v]) <==> s@.contains(v as usize)),
                    forall|v: usize|
                        #[trigger] s@.contains(v) ==> (s@[pos@[v as int] as int] == v
                            && (pos@[v as int] as int) < m),
                    strictly_sorted(nr@),
                    forall|t: int|
                        0 <= t < nr@.len() ==> ((#[trigger] nr@[t] as int) < m && exists|kk: int|
                            0 <= kk < k2 && row@[kk] == s@[nr@[t] as int]),
                    forall|j: usize|
                        (#[trigger] nr@.contains(j)) <==> ((j as int) < m && row@.subrange(
                            0,
                            k2 as int,
                        ).contains(s@[j as int])),
                decreases row@.len() - k2,
            {
                let w = row[k2];
                if marks[w] {
                    let j = pos[w];
                    proof {
                        assert(s@.contains(w));
                        assert(s@[j as int] == w);
                        lemma_push_keeps(nr@, j);
                        assert forall|t: int| 0 <= t < nr@.len() implies nr@[t] < j by {
                            let kk = choose|kk: int|
                                0 <= kk < k2 && row@[kk] == s@[nr@[t] as int];
                            assert(row@[kk] < row@[k2 as int]);
                            if nr@[t] >= j {
                                assert(s@[j as int] <= s@[nr@[t] as int]);
                            }
                        }
                    }
                    let ghost nr0 = nr@;
                    nr.push(j);
                    proof {
                        assert forall|jj: usize|
                            (#[trigger] nr@.contains(jj)) implies ((jj as int) < m
                            && row@.subrange(0, k2 as int + 1).contains(s@[jj as int])) by {
                            let t = choose|t: int| 0 <= t < nr@.len() && nr@[t] == jj;
                            if t < nr0.len() {
                                assert(nr0.contains(jj));
                                let kk = choose|kk: int|
                                    0 <= kk < k2 && row@[kk] == s@[jj as int];
                                assert(row@.subrange(0, k2 as int + 1)[kk] == s@[jj as int]);
                            } else {
                                assert(jj == j);
                                assert(row@.subrange(0, k2 as int + 1)[k2 as int] == s@[
                                    j as int]);
                            }
                        }
                        assert forall|jj: usize|
                            ((jj as int) < m && row@.subrange(0, k2 as int + 1).contains(
                                s@[jj as int],
                            )) implies #[trigger] nr@.contains(jj) by {
                            let kk = choose|kk: int|
                                0 <= kk < k2 + 1 && #[trigger] row@.subrange(0, k2 as int + 1)[kk]
                                    == s@[jj as int];
                            if kk < k2 {
                                assert(row@.subrange(0, k2 as int).contains(s@[jj as int]));
                                assert(nr0.contains(jj));
                            } else {
                                assert(s@[jj as int] == w);
                                assert(s@[j as int] == w);
                                if jj != j {
                                    assert(s@[jj as int] != s@[j as int]);
                                }
                                assert(nr@[nr@.len() - 1] == j);
                            }
                        }
                    }
                } else {
                    proof {
                        assert forall|jj: usize|
                            ((jj as int) < m && row@.subrange(0, k2 as int + 1).contains(
                                s@[jj as int],
                            )) implies #[trigger] nr@.contains(jj) by {
                            let kk = choose|kk: int|
                                0 <= kk < k2 + 1 && #[trigger] row@.subrange(0, k2 as int + 1)[kk]
                                    == s@[jj as int];
                            if kk < k2 {
                                assert(row@.subrange(0, k2 as int).contains(s@[jj as int]));
                            } else {
                                assert(s@.contains(s@[jj as int]));
                                assert(marks@[w as int]);
                            }
                        }
                        assert forall|jj: usize|
                            (#[trigger] nr@.contains(jj)) implies ((jj as int) < m
                            && row@.subrange(0, k2 as int + 1).contains(s@[jj as int])) by {
                            assert(row@.subrange(0, k2 as int).contains(s@[jj as int]));
                            let kk = choose|kk: int|
                                0 <= kk < k2 && row@.subrange(0, k2 as int)[kk] == s@[jj as int];
                            assert(row@.subrange(0, k2 as int + 1)[kk] == s@[jj as int]);
                        }
                    }
                }
                k2 += 1;
            }
            proof {
                assert(row@.subrange(0, row@.len() as int) =~= row@);
                assert forall|j: usize|
                    (#[trigger] nr@.contains(j)) <==> ((j as int) < m && has_edge(
                        g,
                        s@[i as int],
                        s@[j as int],
                    )) by {
                    assert(u == s@[i as int]);
                }
            }
            adj2.push(nr);
            i += 1;
        }

        let h = GraphRef { names: names2, adj: adj2 };
        proof {
            assert(h.name_seqs() =~= Seq::new(
                s@.len(),
                |i: int| self.name_seqs()[s@[i] as int],
            ));
            assert(sorted_names(h.name_seqs())) by {
                assert forall|a: int, b: int|
                    0 <= a < b < h.name_seqs().len() implies lex_lt(
                    h.name_seqs()[a],
                    h.name_seqs()[b],
                ) by {
                    assert(s@[a] < s@[b]);
                    assert(lex_lt(self.name_seqs()[s@[a] as int], self.name_seqs()[s@[b] as int]));
                }
            }
            assert(wf_adj(h.adjs())) by {
                assert forall|k: int|
                    0 <= k < h.adjs().len() implies strictly_sorted(#[trigger] h.adjs()[k])
                    && in_range(h.adjs()[k], h.adjs().len() as int) by {
                    assert(h.adjs()[k] == adj2@[k]@);
                }
            }
        }
        Ok(h)
    }

    /// The transitive reduction: every module keeps only its minimal
    /// necessary dependencies.
    pub fn min_graph(&self) -> (r: GraphRef)
        requires
            self.wf(),
        ensures
            r.wf(),
            r.name_seqs() == self.name_seqs(),
            r.adjs() == min_graph_spec(self.adjs()),
    {
        let ghost g = self.adjs();
        let names = clone_names(&self.names);
        let mut adj: Vec<Vec<usize>> = Vec::new();
        let mut u: usize = 0;
        while u < self.adj.len()
            invariant
                self.wf(),
                g == self.adjs(),
                0 <= u <= g.len(),
                adj@.len() == u,
                forall|i: int| 0 <= i < u ==> (#[trigger] adj@[i]@) == min_row(g, i),
                names@.len() == self.names@.len(),
                forall|i: int| 0 <= i < names@.len() ==> (#[trigger] names@[i]@) == self.names@[i]@,
            decreases g.len() - u,
        {
            let row = self.min_necessary_deps(u);
            adj.push(row);
            u += 1;
        }
        let r = GraphRef { names, adj };
        proof {
            assert(r.adjs() =~= min_graph_spec(g));
            assert(r.name_seqs() =~= self.name_seqs());
            assert forall|i: int|
                0 <= i < r.adjs().len() implies strictly_sorted(#[trigger] r.adjs()[i])
                && in_range(r.adjs()[i], r.adjs().len() as int) by {
                lemma_keep_sorted(g, i, g[i]);
                lemma_keep_membership(g, i, g[i]);
                assert forall|k: int|
                    0 <= k < r.adjs()[i].len() implies ((#[trigger] r.adjs()[i][k] as int)
                    < r.adjs().len()) by {
                    let x = r.adjs()[i][k];
                    assert(min_row(g, i).contains(x));
                    assert(g[i].contains(x));
                    let j = choose|j: int| 0 <= j < g[i].len() && g[i][j] == x;
                    assert(in_range(g[i], g.len() as int));
                }
            }
        }
        r
    }

    /// Builds a graph from raw observations: the known modules, each
    /// with its unordered collection of candidate dependency tokens.
    /// A candidate that names no known module is silently dropped, not
    /// an error; self-references are not filtered. Identifiers must be
    /// pairwise distinct.
    #[verifier::rlimit(100)]
    pub fn build(entries: &Vec<(Vec<u8>, Vec<Vec<u8>>)>) -> (r: GraphRef)
        requires
            forall|a: int, b: int|
                0 <= a < b < entries@.len() ==> (#[trigger] entries@[a].0@) != (
                #[trigger] entries@[b].0@),
        ensures
            r.wf(),
            r.n() == entries@.len(),
            forall|nm: Seq<u8>|
                #[trigger] has_name(r.name_seqs(), nm) <==> entry_named(entries@, nm),
            forall|i: int, j: usize|
                0 <= i < r.n() ==> ((#[trigger] r.adjs()[i].contains(j)) <==> ((j as int) < r.n()
                    && entry_has_token(entries@, r.name_seqs()[i], r.name_seqs()[j as int]))),
    {
        let mut names: Vec<Vec<u8>> = Vec::new();
        let mut e: usize = 0;
        while e < entries.len()
            invariant
                0 <= e <= entries@.len(),
                forall|a: int, b: int|
                    0 <= a < b < entries@.len() ==> (#[trigger] entries@[a].0@) != (
                    #[trigger] entries@[b].0@),
                sorted_names(seqs_of(names@)),
                names@.len() == e,
                forall|nm: Seq<u8>|
                    #[trigger] has_name(seqs_of(names@), nm) <==> exists|ee: int|
                        0 <= ee < e && entries@[ee].0@ == nm,
            decreases entries@.len() - e,
        {
            let nm = clone_name(&entries[e].0);
            proof {
                assert forall|i: int| 0 <= i < names@.len() implies (#[trigger] names@[i]@)
                    != nm@ by {
                    assert(seqs_of(names@)[i] == names@[i]@);
                    assert(has_name(seqs_of(names@), seqs_of(names@)[i]));
                    let ee = choose|ee: int|
                        0 <= ee < e && entries@[ee].0@ == seqs_of(names@)[i];
                    assert(entries@[ee].0@ != entries@[e as int].0@);
                }
            }
            let ghost ns0 = seqs_of(names@);
            insert_name_sorted(&mut names, nm);
            proof {
                assert forall|x: Seq<u8>|
                    #[trigger] has_name(seqs_of(names@), x) implies exists|ee: int|
                        0 <= ee < e + 1 && entries@[ee].0@ == x by {
                    if has_name(ns0, x) {
                        let ee = choose|ee: int| 0 <= ee < e && entries@[ee].0@ == x;
                        assert(0 <= ee < e + 1 && entries@[ee].0@ == x);
                    } else {
                        assert(x == entries@[e as int].0@);
                    }
                }
                assert forall|x: Seq<u8>|
                    (exists|ee: int| 0 <= ee < e + 1 && entries@[ee].0@ == x)
                        implies #[trigger] has_name(seqs_of(names@), x) by {
                    let ee = choose|ee: int| 0 <= ee < e + 1 && entries@[ee].0@ == x;
                    if ee < e {
                        assert(has_name(ns0, x));
                    }
                }
            }
            e += 1;
        }

        let n = names.len();
        let ghost ns = seqs_of(names@);
        proof {
            assert forall|i: int, j: int|
                0 <= i < ns.len() && 0 <= j < ns.len() && i != j implies ns[i] != ns[j] by {
                if i < j {
                    crate::bytes::lemma_lex_irreflexive(ns[i]);
                } else {
                    crate::bytes::lemma_lex_irreflexive(ns[j]);
                }
            }
        }
        let mut adj: Vec<Vec<usize>> = Vec::new();
        let mut i: usize = 0;
        while i < n
            invariant
                0 <= i <= n,
                n == names@.len(),
                ns == seqs_of(names@),
                forall|a: int, b: int|
                    0 <= a < b < entries@.len() ==> (#[trigger] entries@[a].0@) != (
                    #[trigger] entries@[b].0@),
                sorted_names(ns),
                forall|a: int, b: int|
                    0 <= a < ns.len() && 0 <= b < ns.len() && a != b ==> ns[a] != ns[b],
                forall|nm: Seq<u8>| #[trigger] has_name(ns, nm) <==> entry_named(entries@, nm),
                adj@.len() == i,
                forall|k: int, j: usize|
                    0 <= k < i ==> ((#[trigger] adj@[k]@.contains(j)) <==> ((j as int) < n
                        && entry_has_token(entries@, ns[k], ns[j as int]))),
                forall|k: int| 0 <= k < i ==> strictly_sorted(#[trigger] adj@[k]@),
                forall|k: int, t: int|
                    0 <= k < i && 0 <= t < adj@[k]@.len() ==> ((#[trigger] adj@[k]@[t] as int)
                        < n),
            decreases n - i,
        {
            proof {
                assert(has_name(ns, ns[i as int]));
            }
            let ei = find_entry(entries, &names[i]);
            let ghost toks = entries@[ei as int].1@;
            let mut row: Vec<usize> = Vec::new();
            let mut t: usize = 0;
            while t < entries[ei].1.len()
                invariant
                    0 <= t <= toks.len(),
                    (ei as int) < entries@.len(),
                    toks == entries@[ei as int].1@,
                    n == names@.len(),
                    ns == seqs_of(names@),
                    forall|a: int, b: int|
                        0 <= a < ns.len() && 0 <= b < ns.len() && a != b ==> ns[a] != ns[b],
                    strictly_sorted(row@),
                    forall|j2: usize| #[trigger] row@.contains(j2) ==> ((j2 as int) < n),
                    forall|j: usize|
                        (#[trigger] row@.contains(j)) <==> ((j as int) < n && exists|tt: int|
                            0 <= tt < t && (#[trigger] toks[tt])@ == ns[j as int]),
                decreases toks.len() - t,
            {
                let found = find_name(&names, &entries[ei].1[t]);
                match found {
                    Some(j) => {
                        let present = vec_contains(&row, j);
                        proof {
                            assert(ns[j as int] == toks[t as int]@);
                        }
                        if !present {
                            insert_sorted(&mut row, j);
                        }
                        proof {
                            assert forall|jj: usize|
                                (#[trigger] row@.contains(jj)) implies ((jj as int) < n && exists|
                                tt: int,
                            | 0 <= tt < t + 1 && (#[trigger] toks[tt])@ == ns[jj as int]) by {
                                if jj == j {
                                    assert(toks[t as int]@ == ns[jj as int]);
                                } else {
                                    let tt = choose|tt: int|
                                        0 <= tt < t && (#[trigger] toks[tt])@ == ns[jj as int];
                                    assert(0 <= tt < t + 1);
                                }
                            }
                            assert forall|jj: usize|
                                ((jj as int) < n && exists|tt: int|
                                    0 <= tt < t + 1 && (#[trigger] toks[tt])@ == ns[jj as int])
                                implies #[trigger] row@.contains(jj) by {
                                let tt = choose|tt: int|
                                    0 <= tt < t + 1 && (#[trigger] toks[tt])@ == ns[jj as int];
                                if tt == t {
                                    assert(ns[jj as int] == ns[j as int]);
                                    if jj != j {
                                        assert(false);
                                    }
                                }
                            }
                        }
                    },
                    None => {
                        proof {
                            assert forall|jj: usize|
                                ((jj as int) < n && exists|tt: int|
                                    0 <= tt < t + 1 && (#[trigger] toks[tt])@ == ns[jj as int])
                                implies #[trigger] row@.contains(jj) by {
                                let tt = choose|tt: int|
                                    0 <= tt < t + 1 && (#[trigger] toks[tt])@ == ns[jj as int];
                                if tt == t {
                                    assert(ns[jj as int] != toks[t as int]@);
                                }
                            }
                        }
                    },
                }
                t += 1;
            }
            proof {
                assert forall|x: int|
                    0 <= x < row@.len() implies ((#[trigger] row@[x] as int) < n) by {
                    assert(row@.contains(row@[x]));
                }
            }
            adj.push(row);
            proof {
                assert forall|j: usize|
                    (#[trigger] adj@[i as int]@.contains(j)) <==> ((j as int) < n
                        && entry_has_token(entries@, ns[i as int], ns[j as int])) by {
                    if (j as int) < n {
                        if entry_has_token(entries@, ns[i as int], ns[j as int]) {
                            let (e2, t2): (int, int) = choose|e2: int, t2: int|
                                0 <= e2 < entries@.len() && 0 <= t2 < entries@[e2].1@.len()
                                    && entries@[e2].0@ == ns[i as int] && (#[trigger] entries@[
                                e2].1@[t2])@ == ns[j as int];
                            assert(entries@[e2].0@ == entries@[ei as int].0@);
                            if e2 != ei as int {
                                assert(false);
                            }
                            assert(row@.contains(j));
                        }
                        if row@.contains(j) {
                            let tt = choose|tt: int|
                                0 <= tt < toks.len() && (#[trigger] toks[tt])@ == ns[j as int];
                            assert(entry_has_token(entries@, ns[i as int], ns[j as int]));
                        }
                    }
                }
            }
            i += 1;
        }
        let r = GraphRef { names, adj };
        proof {
            assert(r.name_seqs() =~= ns);
            assert(wf_adj(r.adjs())) by {
                assert forall|k: int|
                    0 <= k < r.adjs().len() implies strictly_sorted(#[trigger] r.adjs()[k])
                    && in_range(r.adjs()[k], r.adjs().len() as int) by {
                    assert(r.adjs()[k] == adj@[k]@);
                }
            }
            assert forall|i2: int, j: usize|
                0 <= i2 < r.n() implies ((#[trigger] r.adjs()[i2].contains(j)) <==> ((j as int)
                < r.n() && entry_has_token(entries@, r.name_seqs()[i2], r.name_seqs()[
                j as int]))) by {
                assert(r.adjs()[i2] == adj@[i2]@);
            }
        }
        r
    }

    /// The deterministic report: for every module in canonical order,
    /// one (dependency, dependent) name pair per retained edge, the
    /// dependencies of a module again in canonical order.
    pub fn emit_edges(&self) -> (r: Vec<(Vec<u8>, Vec<u8>)>)
        requires
            self.wf(),
        ensures
            pairs_view(r@) == emit_spec(self.name_seqs(), self.adjs()),
    {
        let ghost names = self.name_seqs();
        let ghost adjm = self.adjs();
        let mut r: Vec<(Vec<u8>, Vec<u8>)> = Vec::new();
        let mut u: usize = 0;
        proof {
            assert(pairs_view(r@) =~= emit_upto(names, adjm, 0));
        }
        while u < self.adj.len()
            invariant
                self.wf(),
                names == self.name_seqs(),
                adjm == self.adjs(),
                0 <= u <= adjm.len(),
                pairs_view(r@) == emit_upto(names, adjm, u as int),
            decreases adjm.len() - u,
        {
            let row = &self.adj[u];
            proof {
                assert(row@ == adjm[u as int]);
                assert(in_range(adjm[u as int], adjm.len() as int));
            }
            let mut k: usize = 0;
            while k < row.len()
                invariant
                    self.wf(),
                    names == self.name_seqs(),
                    adjm == self.adjs(),
                    0 <= u < adjm.len(),
                    row@ == adjm[u as int],
                    0 <= k <= row@.len(),
                    forall|x: int| 0 <= x < row@.len() ==> ((#[trigger] row@[x] as int)
                        < adjm.len()),
                    pairs_view(r@) == emit_upto(names, adjm, u as int) + row_pairs(
                        names,
                        adjm,
                        u as int,
                    ).subrange(0, k as int),
                decreases row@.len() - k,
            {
                let v = row[k];
                let dep = clone_name(&self.names[v]);
                let dependent = clone_name(&self.names[u]);
                let ghost r0 = r@;
                r.push((dep, dependent));
                proof {
                    let rp = row_pairs(names, adjm, u as int);
                    assert(pairs_view(r@) =~= pairs_view(r0).push((dep@, dependent@)));
                    assert(dep@ == names[row@[k as int] as int]);
                    assert(dependent@ == names[u as int]);
                    assert(rp[k as int] == (names[adjm[u as int][k as int] as int], names[
                        u as int]));
                    assert(rp.subrange(0, k as int + 1) =~= rp.subrange(0, k as int).push(
                        rp[k as int]));
                    assert(pairs_view(r@) =~= emit_upto(names, adjm, u as int) + rp.subrange(
                        0,
                        k as int + 1,
                    ));
                }
                k += 1;
            }
            proof {
                assert(row_pairs(names, adjm, u as int).subrange(
                    0,
                    row@.len() as int,
                ) =~= row_pairs(names, adjm, u as int));
                assert(pairs_view(r@) == emit_upto(names, adjm, u as int + 1));
            }
            u += 1;
        }
        r
    }

    /// First sight of `d`: marks it as visited and schedules its direct
    /// dependencies.
    #[verifier::rlimit(100)]
    fn expand(
        &self,
        d: usize,
        marks: &mut Vec<bool>,
        count: &mut usize,
        stack: &mut Vec<usize>,
        Ghost(cr): Ghost<usize>,
    )
        requires
            self.wf(),
            (cr as int) < self.n(),
            (d as int) < self.n(),
            old(marks)@.len() == self.n(),
            !old(marks)@[d as int],
            *old(count) == count_true(old(marks)@),
            reaches(self.adjs(), cr, d),
            stack_sound(self.adjs(), cr, old(stack)@),
        ensures
            final(marks)@ == old(marks)@.update(d as int, true),
            *final(count) == count_true(final(marks)@),
            *final(count) <= final(marks)@.len(),
            forall|y: usize| old(stack)@.contains(y) ==> #[trigger] final(stack)@.contains(y),
            forall|w: usize|
                #[trigger] has_edge(self.adjs(), d, w) ==> final(stack)@.contains(w),
            stack_sound(self.adjs(), cr, final(stack)@),
    {
        let ghost g = self.adjs();
        let ghost m0 = marks@;
        let ghost s0 = stack@;
        marks[d] = true;
        let total = marks.len();
        proof {
            lemma_count_true_set(m0, d as int);
            lemma_count_true_le(marks@);
            assert(*count < total as int);
        }
        *count += 1;
        let row = &self.adj[d];
        proof {
            assert(row@ == g[d as int]);
        }
        let mut k: usize = 0;
        while k < row.len()
            invariant
                self.wf(),
                g == self.adjs(),
                (cr as int) < g.len(),
                (d as int) < g.len(),
                row@ == g[d as int],
                0 <= k <= row@.len(),
                reaches(g, cr, d),
                forall|y: usize| s0.contains(y) ==> #[trigger] stack@.contains(y),
                forall|j: int| 0 <= j < k ==> stack@.contains(#[trigger] row@[j]),
                forall|idx: int|
                    0 <= idx < stack@.len() ==> ((#[trigger] stack@[idx] as int) < g.len()
                        && reaches(g, cr, stack@[idx])),
            decreases row@.len() - k,
        {
            let w = row[k];
            proof {
                assert(g[d as int].contains(w));
                assert(has_edge(g, d, w));
                lemma_edge_reaches(g, d, w);
                lemma_reaches_trans(g, cr, d, w);
                lemma_reaches_in_range(g, cr, w);
                lemma_push_keeps(stack@, w);
            }
            stack.push(w);
            k += 1;
        }
        proof {
            assert forall|w: usize| #[trigger] has_edge(g, d, w) implies stack@.contains(w) by {
                let j = choose|j: int| 0 <= j < g[d as int].len() && g[d as int][j] == w;
                assert(stack@.contains(row@[j]));
            }
        }
    }
}

/// A fresh mark table of `n` entries, all clear.
fn make_marks(n: usize) -> (r: Vec<bool>)
    ensures
        r@.len() == n,
        forall|i: int| 0 <= i < n ==> !r@[i],
{
    let mut r: Vec<bool> = Vec::new();
    let mut i: usize = 0;
    while i < n
        invariant
            0 <= i <= n,
            r@.len() == i,
            forall|k: int| 0 <= k < i ==> !r@[k],
        decreases n - i,
    {
        r.push(false);
        i += 1;
    }
    r
}

/// How many entries of a mark table are set.
pub open spec fn count_true(s: Seq<bool>) -> int
    decreases s.len(),
{
    if s.len() == 0 {
        0
    } else {
        count_true(s.drop_last()) + if s.last() {
            1int
        } else {
            0int
        }
    }
}

proof fn lemma_count_true_zero(s: Seq<bool>)
    requires
        forall|i: int| 0 <= i < s.len() ==> !s[i],
    ensures
        count_true(s) == 0,
    decreases s.len(),
{
    if s.len() > 0 {
        lemma_count_true_zero(s.drop_last());
    }
}

proof fn lemma_count_true_le(s: Seq<bool>)
    ensures
        0 <= count_true(s) <= s.len(),
    decreases s.len(),
{
    if s.len() > 0 {
        lemma_count_true_le(s.drop_last());
    }
}

proof fn lemma_count_true_set(s: Seq<bool>, i: int)
    requires
        0 <= i < s.len(),
        !s[i],
    ensures
        count_true(s.update(i, true)) == count_true(s) + 1,
    decreases s.len(),
{
    let t = s.update(i, true);
    if i == s.len() - 1 {
        assert(t.drop_last() =~= s.drop_last());
    } else {
        assert(t.drop_last() =~= s.drop_last().update(i, true));
        assert(t.last() == s.last());
        lemma_count_true_set(s.drop_last(), i);
    }
}

proof fn lemma_push_keeps<T>(s: Seq<T>, x: T)
    ensures
        forall|y: T| s.contains(y) ==> #[trigger] s.push(x).contains(y),
        s.push(x).contains(x),
{
    assert forall|y: T| s.contains(y) implies #[trigger] s.push(x).contains(y) by {
        let i = choose|i: int| 0 <= i < s.len() && s[i] == y;
        assert(s.push(x)[i] == y);
    }
    assert(s.push(x)[s.len() as int] == x);
}

/// The handles whose marks are set, in increasing order.
fn collect_marked(marks: &Vec<bool>) -> (r: Vec<usize>)
    ensures
        strictly_sorted(r@),
        forall|v: usize|
            #[trigger] r@.contains(v) <==> ((v as int) < marks@.len() && marks@[v as int]),
{
    let mut r: Vec<usize> = Vec::new();
    let mut i: usize = 0;
    while i < marks.len()
        invariant
            0 <= i <= marks@.len(),
            strictly_sorted(r@),
            forall|idx: int| 0 <= idx < r@.len() ==> (#[trigger] r@[idx] as int) < i,
            forall|v: usize| #[trigger] r@.contains(v) <==> ((v as int) < i && marks@[v as int]),
        decreases marks@.len() - i,
    {
        if marks[i] {
            proof {
                lemma_push_keeps(r@, i);
            }
            let ghost old_r = r@;
            r.push(i);
            proof {
                assert forall|v: usize|
                    #[trigger] r@.contains(v) implies ((v as int) < i + 1 && marks@[v as int]) by {
                    let idx = choose|idx: int| 0 <= idx < r@.len() && r@[idx] == v;
                    if idx < old_r.len() {
                        assert(old_r.contains(v));
                    }
                }
            }
        }
        i += 1;
    }
    r
}

/// A fresh handle table of `n` entries, all zero.
fn make_zeros(n: usize) -> (r: Vec<usize>)
    ensures
        r@.len() == n,
{
    let mut r: Vec<usize> = Vec::new();
    let mut i: usize = 0;
    while i < n
        invariant
            0 <= i <= n,
            r@.len() == i,
        decreases n - i,
    {
        r.push(0);
        i += 1;
    }
    r
}

/// A copy of one byte-string name.
fn clone_name(v: &Vec<u8>) -> (r: Vec<u8>)
    ensures
        r@ == v@,
{
    let mut r: Vec<u8> = Vec::new();
    push_all(&mut r, v);
    proof {
        assert(r@ =~= v@);
    }
    r
}

/// A copy of the whole name table.
fn clone_names(v: &Vec<Vec<u8>>) -> (r: Vec<Vec<u8>>)
    ensures
        r@.len() == v@.len(),
        forall|i: int| 0 <= i < v@.len() ==> (#[trigger] r@[i]@) == v@[i]@,
{
    let mut r: Vec<Vec<u8>> = Vec::new();
    let mut i: usize = 0;
    while i < v.len()
        invariant
            0 <= i <= v@.len(),
            r@.len() == i,
            forall|k: int| 0 <= k < i ==> (#[trigger] r@[k]@) == v@[k]@,
        decreases v@.len() - i,
    {
        let nm = clone_name(&v[i]);
        r.push(nm);
        i += 1;
    }
    r
}

/// The observation that declares the module named `nm`.
fn find_entry(entries: &Vec<(Vec<u8>, Vec<Vec<u8>>)>, nm: &Vec<u8>) -> (r: usize)
    requires
        exists|e: int| 0 <= e < entries@.len() && (#[trigger] entries@[e].0@) == nm@,
    ensures
        (r as int) < entries@.len(),
        entries@[r as int].0@ == nm@,
{
    let mut e: usize = 0;
    while e < entries.len()
        invariant
            0 <= e <= entries@.len(),
            exists|k: int| 0 <= k < entries@.len() && (#[trigger] entries@[k].0@) == nm@,
            forall|k: int| 0 <= k < e ==> (#[trigger] entries@[k].0@) != nm@,
        decreases entries@.len() - e,
    {
        if bytes_eq(&entries[e].0, nm) {
            return e;
        }
        e += 1;
    }
    proof {
        assert(false);
    }
    vstd::pervasive::unreached()
}

/// The handle of the identifier `nm` in a name table, if any.
fn find_name(names: &Vec<Vec<u8>>, nm: &Vec<u8>) -> (r: Option<usize>)
    ensures
        match r {
            Some(i) => (i as int) < names@.len() && names@[i as int]@ == nm@,
            None => forall|i: int| 0 <= i < names@.len() ==> (#[trigger] names@[i]@) != nm@,
        },
{
    let mut i: usize = 0;
    while i < names.len()
        invariant
            0 <= i <= names@.len(),
            forall|k: int| 0 <= k < i ==> (#[trigger] names@[k]@) != nm@,
        decreases names@.len() - i,
    {
        if bytes_eq(&names[i], nm) {
            return Some(i);
        }
        i += 1;
    }
    None
}

/// Inserts a new identifier into a sorted name table, keeping it
/// sorted.
fn insert_name_sorted(v: &mut Vec<Vec<u8>>, nm: Vec<u8>)
    requires
        sorted_names(seqs_of(old(v)@)),
        forall|i: int| 0 <= i < old(v)@.len() ==> (#[trigger] old(v)@[i]@) != nm@,
    ensures
        sorted_names(seqs_of(final(v)@)),
        final(v)@.len() == old(v)@.len() + 1,
        forall|x: Seq<u8>|
            #[trigger] has_name(seqs_of(final(v)@), x) <==> (has_name(seqs_of(old(v)@), x) || x
                == nm@),
{
    let ghost old_v = v@;
    let mut p: usize = 0;
    while p < v.len() && bytes_lt(&v[p], &nm)
        invariant
            v@ == old_v,
            0 <= p <= v@.len(),
            forall|k: int| 0 <= k < p ==> lex_lt((#[trigger] v@[k]@), nm@),
        decreases v@.len() - p,
    {
        p += 1;
    }
    proof {
        if (p as int) < v@.len() {
            crate::bytes::lemma_lex_total(v@[p as int]@, nm@);
            assert(seqs_of(old_v)[p as int] == v@[p as int]@);
            assert(lex_lt(nm@, v@[p as int]@));
        }
    }
    v.insert(p, nm);
    proof {
        old_v.insert_ensures(p as int, nm);
        let nsn = seqs_of(v@);
        assert forall|i: int, j: int| 0 <= i < j < nsn.len() implies lex_lt(nsn[i], nsn[j]) by {
            if j < p {
                assert(v@[i] == old_v[i] && v@[j] == old_v[j]);
                assert(lex_lt(seqs_of(old_v)[i], seqs_of(old_v)[j]));
            } else if j == p {
                assert(v@[i] == old_v[i]);
                assert(lex_lt(old_v[i]@, nm@));
            } else if i < p {
                assert(v@[i] == old_v[i] && v@[j] == old_v[j - 1]);
                if j - 1 == p as int {
                    assert(lex_lt(old_v[i]@, nm@));
                    crate::bytes::lemma_lex_trans(old_v[i]@, nm@, old_v[j - 1]@);
                } else {
                    assert(lex_lt(seqs_of(old_v)[i], seqs_of(old_v)[j - 1]));
                }
            } else if i == p {
                assert(v@[j] == old_v[j - 1]);
                if j - 1 == p as int {
                    assert(lex_lt(nm@, old_v[p as int]@));
                } else {
                    assert(lex_lt(nm@, old_v[p as int]@));
                    assert(lex_lt(seqs_of(old_v)[p as int], seqs_of(old_v)[j - 1]));
                    crate::bytes::lemma_lex_trans(nm@, old_v[p as int]@, old_v[j - 1]@);
                }
            } else {
                assert(v@[i] == old_v[i - 1] && v@[j] == old_v[j - 1]);
                assert(lex_lt(seqs_of(old_v)[i - 1], seqs_of(old_v)[j - 1]));
            }
        }
        assert forall|x: Seq<u8>|
            #[trigger] has_name(seqs_of(v@), x) implies (has_name(seqs_of(old_v), x) || x
            == nm@) by {
            let i = choose|i: int| 0 <= i < seqs_of(v@).len() && seqs_of(v@)[i] == x;
            if i < p {
                assert(seqs_of(old_v)[i] == x);
            } else if i > p {
                assert(seqs_of(old_v)[i - 1] == x);
            }
        }
        assert forall|x: Seq<u8>|
            (has_name(seqs_of(old_v), x) || x == nm@) implies #[trigger] has_name(
            seqs_of(v@),
            x,
        ) by {
            if has_name(seqs_of(old_v), x) {
                let i = choose|i: int| 0 <= i < seqs_of(old_v).len() && seqs_of(old_v)[i] == x;
                if i < p {
                    assert(seqs_of(v@)[i] == x);
                } else {
                    assert(seqs_of(v@)[i + 1] == x);
                }
            } else {
                assert(seqs_of(v@)[p as int] == x);
            }
        }
    }
}

/// Membership test in a handle list.
pub fn vec_contains(v: &Vec<usize>, x: usize) -> (r: bool)
    ensures
        r == v@.contains(x),
{
    let mut i: usize = 0;
    while i < v.len()
        invariant
            0 <= i <= v@.len(),
            forall|k: int| 0 <= k < i ==> v@[k] != x,
        decreases v@.len() - i,
    {
        if v[i] == x {
            return true;
        }
        i += 1;
    }
    false
}

/// Inserts a new handle into a strictly sorted list, keeping it sorted.
fn insert_sorted(v: &mut Vec<usize>, x: usize)
    requires
        strictly_sorted(old(v)@),
        !old(v)@.contains(x),
    ensures
        strictly_sorted(final(v)@),
        final(v)@.len() == old(v)@.len() + 1,
        forall|y: usize| #[trigger] final(v)@.contains(y) <==> (old(v)@.contains(y) || y == x),
{
    let mut p: usize = 0;
    while p < v.len() && v[p] < x
        invariant
            strictly_sorted(v@),
            v@ == old(v)@,
            0 <= p <= v@.len(),
            forall|k: int| 0 <= k < p ==> (#[trigger] v@[k]) < x,
        decreases v@.len() - p,
    {
        p += 1;
    }
    proof {
        if (p as int) < v@.len() && v@[p as int] == x {
            assert(v@.contains(x));
        }
    }
    let ghost old_v = v@;
    v.insert(p, x);
    proof {
        old_v.insert_ensures(p as int, x);
        assert forall|i: int, j: int| 0 <= i < j < v@.len() implies v@[i] < v@[j] by {
            let a = if i < p { old_v[i] } else if i == p { x } else { old_v[i - 1] };
            let b = if j < p { old_v[j] } else if j == p { x } else { old_v[j - 1] };
            assert(v@[i] == a && v@[j] == b);
        }
        assert forall|y: usize|
            #[trigger] v@.contains(y) implies (old_v.contains(y) || y == x) by {
            let idx = choose|idx: int| 0 <= idx < v@.len() && v@[idx] == y;
            if idx < p {
                assert(old_v[idx] == y);
            } else if idx > p {
                assert(old_v[idx - 1] == y);
            }
        }
        assert forall|y: usize|
            (old_v.contains(y) || y == x) implies #[trigger] v@.contains(y) by {
            if old_v.contains(y) {
                let idx = choose|idx: int| 0 <= idx < old_v.len() && old_v[idx] == y;
                if idx < p {
                    assert(v@[idx] == y);
                } else {
                    assert(v@[idx + 1] == y);
                }
            } else {
                assert(v@[p as int] == y);
            }
        }
    }
}

} // verus!
