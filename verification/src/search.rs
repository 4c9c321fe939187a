//! Branch-and-bound search for a longest simple path, pruned by a
//! face-derived upper bound on how many nodes a partial path can still
//! collect.
//!
//! The search is modelled exactly by the spec functions `bnb_step`,
//! `bnb_kids` and `search_from`: each executable routine returns precisely
//! the value of its model, so the whole search is a deterministic function
//! of the graph and the face list.

use vstd::prelude::*;

use crate::graph::adj_of;
use crate::graph::copy_ids;
use crate::graph::edge_in;
use crate::graph::seqs_of;
use crate::graph::valid_adj;
use crate::graph::Graph;
use vstd::relations::injective;
use vstd::set_lib::lemma_int_range;
use vstd::set_lib::lemma_len_subset;
use vstd::set_lib::set_int_range;

verus! {

/// All nodes of `p` are nodes of the graph `a`.
pub open spec fn nodes_bounded(a: Seq<Seq<usize>>, p: Seq<usize>) -> bool {
    forall|i: int| 0 <= i < p.len() ==> (#[trigger] p[i] as int) < a.len()
}

/// A simple path: nonempty, duplicate-free, within the graph, and each
/// consecutive pair joined by a stored edge.
pub open spec fn is_simple_path(a: Seq<Seq<usize>>, p: Seq<usize>) -> bool {
    &&& p.len() >= 1
    &&& p.no_duplicates()
    &&& nodes_bounded(a, p)
    &&& forall|i: int| 0 <= i < p.len() - 1 ==> edge_in(a, #[trigger] p[i], p[i + 1])
}

/// The tail node of a path.
pub open spec fn last_of(p: Seq<usize>) -> usize {
    p[p.len() - 1]
}

/// A duplicate-free sequence of node ids below `a.len()` has at most
/// `a.len()` entries.
pub proof fn lemma_distinct_bounded_len(a: Seq<Seq<usize>>, p: Seq<usize>)
    requires
        p.no_duplicates(),
        nodes_bounded(a, p),
    ensures
        p.len() <= a.len(),
{
    let f = |x: usize| x as int;
    let q = p.map_values(f);
    assert(injective(f)) by {
        assert(forall|x: usize, y: usize| #[trigger] f(x) == #[trigger] f(y) ==> x == y);
    }
    p.lemma_no_duplicates_injective(f);
    q.unique_seq_to_set();
    let range = set_int_range(0, a.len() as int);
    assert(q.to_set().subset_of(range)) by {
        assert forall|x: int| q.to_set().contains(x) implies range.contains(x) by {
            let i = choose|i: int| 0 <= i < q.len() && q[i] == x;
            assert(p[i] as int == x);
        }
    }
    lemma_int_range(0, a.len() as int);
    lemma_len_subset(q.to_set(), range);
}

/// Number of occurrences, from index `j` on, of face nodes not on `p`.
pub open spec fn unvisited_from(f: Seq<usize>, p: Seq<usize>, j: int) -> int
    decreases f.len() - j,
{
    if j < 0 || j >= f.len() {
        0
    } else {
        (if p.contains(f[j]) {
            0int
        } else {
            1int
        }) + unvisited_from(f, p, j + 1)
    }
}

pub proof fn lemma_unvisited_nonneg(f: Seq<usize>, p: Seq<usize>, j: int)
    ensures
        unvisited_from(f, p, j) >= 0,
    decreases f.len() - j,
{
    if 0 <= j < f.len() {
        lemma_unvisited_nonneg(f, p, j + 1);
    }
}

/// Sum, over the faces from index `k` on whose boundary holds `x`, of
/// their count of nodes not on `p`. Nodes shared by several such faces
/// are deliberately counted once per face: the bound is loose, not tight.
pub open spec fn faces_sum_from(faces: Seq<Seq<usize>>, x: usize, p: Seq<usize>, k: int) -> int
    decreases faces.len() - k,
{
    if k < 0 || k >= faces.len() {
        0
    } else {
        (if faces[k].contains(x) {
            unvisited_from(faces[k], p, 0)
        } else {
            0int
        }) + faces_sum_from(faces, x, p, k + 1)
    }
}

pub proof fn lemma_faces_sum_nonneg(faces: Seq<Seq<usize>>, x: usize, p: Seq<usize>, k: int)
    ensures
        faces_sum_from(faces, x, p, k) >= 0,
    decreases faces.len() - k,
{
    if 0 <= k < faces.len() {
        lemma_unvisited_nonneg(faces[k], p, 0);
        lemma_faces_sum_nonneg(faces, x, p, k + 1);
    }
}

/// Some face boundary holds `x`.
pub open spec fn on_some_face(faces: Seq<Seq<usize>>, x: usize) -> bool {
    exists|k: int| 0 <= k < faces.len() && (#[trigger] faces[k]).contains(x)
}

/// The face-based upper bound on how many further nodes a path ending in
/// `last_of(p)` can still collect. When the tail lies on at least one
/// face, the per-face sums are capped by the number of nodes not yet on
/// the path; when it lies on no face, only the global cap applies.
pub open spec fn bound_of(a: Seq<Seq<usize>>, faces: Seq<Seq<usize>>, p: Seq<usize>) -> int {
    let leftover = a.len() - p.len();
    if !on_some_face(faces, last_of(p)) {
        leftover
    } else {
        let s = faces_sum_from(faces, last_of(p), p, 0);
        if s <= leftover {
            s
        } else {
            leftover
        }
    }
}

/// The bound never exceeds the number of nodes off the path.
pub proof fn lemma_bound_range(a: Seq<Seq<usize>>, faces: Seq<Seq<usize>>, p: Seq<usize>)
    requires
        p.len() <= a.len(),
    ensures
        0 <= bound_of(a, faces, p) <= a.len() - p.len(),
{
    lemma_faces_sum_nonneg(faces, last_of(p), p, 0);
}

/// Every node of every face is a node of the graph.
pub open spec fn faces_in_bounds(a: Seq<Seq<usize>>, faces: Seq<Seq<usize>>) -> bool {
    forall|k: int| 0 <= k < faces.len() ==> nodes_bounded(a, #[trigger] faces[k])
}

/// Membership in a pushed sequence is membership in the base or equality
/// with the pushed element.
pub proof fn lemma_push_contains(p: Seq<usize>, x: usize, y: usize)
    ensures
        p.push(x).contains(y) <==> (p.contains(y) || y == x),
{
    if p.contains(y) {
        let i = choose|i: int| 0 <= i < p.len() && p[i] == y;
        assert(p.push(x)[i] == y);
    }
    if y == x {
        assert(p.push(x)[p.len() as int] == y);
    }
    if p.push(x).contains(y) {
        let i = choose|i: int| 0 <= i < p.push(x).len() && p.push(x)[i] == y;
        if i < p.len() {
            assert(p[i] == y);
        }
    }
}

/// `v[id]` says whether node `id` lies on the path `p`.
pub open spec fn marks_path(v: Seq<bool>, p: Seq<usize>) -> bool {
    forall|id: int| 0 <= id < v.len() ==> (#[trigger] v[id]) == p.contains(id as usize)
}

/// Whether `x` occurs in the id list `f`.
fn id_list_contains(f: &Vec<usize>, x: usize) -> (r: bool)
    ensures
        r == f@.contains(x),
{
    for j in 0..f.len()
        invariant
            forall|t: int| 0 <= t < j ==> f@[t] != x,
    {
        if f[j] == x {
            return true;
        }
    }
    false
}

/// Counts the face nodes not currently on the path, one per occurrence.
fn count_unvisited(f: &Vec<usize>, visited: &Vec<bool>, Ghost(p): Ghost<Seq<usize>>) -> (c: usize)
    requires
        marks_path(visited@, p),
        forall|j: int| 0 <= j < f@.len() ==> (#[trigger] f@[j] as int) < visited@.len(),
    ensures
        c as int == unvisited_from(f@, p, 0),
{
    let mut c: usize = 0;
    for j in 0..f.len()
        invariant
            c <= j,
            c as int + unvisited_from(f@, p, j as int) == unvisited_from(f@, p, 0),
    {
        proof {
            lemma_unvisited_nonneg(f@, p, j + 1);
        }
        if !visited[f[j]] {
            c = c + 1;
        }
    }
    c
}

/// The longer of a candidate path and the best record (the record wins
/// ties, so the first path of maximal length found is kept).
pub open spec fn better(best: Seq<usize>, p: Seq<usize>) -> Seq<usize> {
    if p.len() > best.len() {
        p
    } else {
        best
    }
}

/// One branch-and-bound step from the partial path `p`: prune when even
/// the bound cannot beat the record, otherwise update the record and try
/// every neighbour of the tail in stored order.
pub open spec fn bnb_step(
    a: Seq<Seq<usize>>,
    faces: Seq<Seq<usize>>,
    p: Seq<usize>,
    best: Seq<usize>,
) -> Seq<usize>
    decreases a.len() - p.len(), 1int, 0int,
{
    if p.len() > a.len() {
        best
    } else if p.len() + bound_of(a, faces, p) <= best.len() {
        best
    } else {
        bnb_kids(a, faces, p, better(best, p), 0)
    }
}

/// Folds `bnb_step` over the tail's neighbours from index `k` on,
/// skipping neighbours already on the path.
pub open spec fn bnb_kids(
    a: Seq<Seq<usize>>,
    faces: Seq<Seq<usize>>,
    p: Seq<usize>,
    best: Seq<usize>,
    k: int,
) -> Seq<usize>
    decreases a.len() - p.len(), 0int, adj_of(a, last_of(p)).len() - k,
{
    let nbrs = adj_of(a, last_of(p));
    if p.len() >= a.len() || k < 0 || k >= nbrs.len() {
        best
    } else {
        let b2 = if p.contains(nbrs[k]) {
            best
        } else {
            bnb_step(a, faces, p.push(nbrs[k]), best)
        };
        bnb_kids(a, faces, p, b2, k + 1)
    }
}

/// Runs one branch-and-bound search from every start node in id order.
pub open spec fn search_from(
    a: Seq<Seq<usize>>,
    faces: Seq<Seq<usize>>,
    best: Seq<usize>,
    s: int,
) -> Seq<usize>
    decreases a.len() - s,
{
    if s < 0 || s >= a.len() {
        best
    } else {
        search_from(a, faces, bnb_step(a, faces, seq![s as usize], best), s + 1)
    }
}

/// The best-record law for one branch-and-bound step: the record never
/// shrinks, and whenever it changes it changes to a strictly longer
/// simple path of the graph. Successive updates therefore have strictly
/// increasing lengths, and the final record is a simple path whenever it
/// is nonempty. In particular a step whose start path already beats the
/// record always advances the record at least to that path's length.
pub proof fn lemma_bnb_step_props(
    a: Seq<Seq<usize>>,
    faces: Seq<Seq<usize>>,
    p: Seq<usize>,
    best: Seq<usize>,
)
    requires
        valid_adj(a),
        is_simple_path(a, p),
        best.len() == 0 || is_simple_path(a, best),
    ensures
        bnb_step(a, faces, p, best).len() >= best.len(),
        bnb_step(a, faces, p, best) == best || (is_simple_path(a, bnb_step(a, faces, p, best))
            && bnb_step(a, faces, p, best).len() > best.len()),
        best.len() < p.len() ==> bnb_step(a, faces, p, best).len() >= p.len(),
    decreases a.len() - p.len(), 1int, 0int,
{
    lemma_distinct_bounded_len(a, p);
    lemma_bound_range(a, faces, p);
    if p.len() + bound_of(a, faces, p) <= best.len() {
    } else {
        let b1 = better(best, p);
        lemma_bnb_kids_props(a, faces, p, b1, 0);
    }
}

/// The same law for the fold over the tail's neighbours.
pub proof fn lemma_bnb_kids_props(
    a: Seq<Seq<usize>>,
    faces: Seq<Seq<usize>>,
    p: Seq<usize>,
    best: Seq<usize>,
    k: int,
)
    requires
        valid_adj(a),
        is_simple_path(a, p),
        best.len() == 0 || is_simple_path(a, best),
    ensures
        bnb_kids(a, faces, p, best, k).len() >= best.len(),
        bnb_kids(a, faces, p, best, k) == best || (is_simple_path(a, bnb_kids(a, faces, p, best, k))
            && bnb_kids(a, faces, p, best, k).len() > best.len()),
    decreases a.len() - p.len(), 0int, adj_of(a, last_of(p)).len() - k,
{
    lemma_distinct_bounded_len(a, p);
    let nbrs = adj_of(a, last_of(p));
    if p.len() >= a.len() || k < 0 || k >= nbrs.len() {
    } else {
        let nb = nbrs[k];
        assert((nb as int) < a.len());
        let b2 = if p.contains(nb) {
            best
        } else {
            bnb_step(a, faces, p.push(nb), best)
        };
        if !p.contains(nb) {
            let p1 = p.push(nb);
            assert(p1.no_duplicates()) by {
                assert forall|i: int, j: int| 0 <= i < j < p1.len() implies p1[i] != p1[j] by {
                    if j == p.len() as int {
                        if p[i] == nb {
                            assert(p.contains(nb));
                        }
                    }
                }
            }
            assert(is_simple_path(a, p1)) by {
                assert(edge_in(a, last_of(p), nb)) by {
                    assert(adj_of(a, last_of(p)).contains(nb));
                }
                assert forall|i: int| 0 <= i < p1.len() - 1 implies edge_in(
                    a,
                    #[trigger] p1[i],
                    p1[i + 1],
                ) by {
                    if i < p.len() - 1 {
                        assert(edge_in(a, p[i], p[i + 1]));
                    }
                }
            }
            lemma_bnb_step_props(a, faces, p1, best);
        }
        lemma_bnb_kids_props(a, faces, p, b2, k + 1);
    }
}

/// The best-record law for the whole search, and the guarantee that a
/// graph with at least one node yields a path of at least one node.
pub proof fn lemma_search_from_props(
    a: Seq<Seq<usize>>,
    faces: Seq<Seq<usize>>,
    best: Seq<usize>,
    s: int,
)
    requires
        valid_adj(a),
        best.len() == 0 || is_simple_path(a, best),
    ensures
        search_from(a, faces, best, s).len() >= best.len(),
        search_from(a, faces, best, s) == best || is_simple_path(a, search_from(a, faces, best, s)),
        s == 0 && a.len() >= 1 ==> search_from(a, faces, best, s).len() >= 1,
    decreases a.len() - s,
{
    if s < 0 || s >= a.len() {
    } else {
        let p1 = seq![s as usize];
        assert(is_simple_path(a, p1)) by {
            assert(p1.len() == 1);
            assert((p1[0] as int) < a.len());
        }
        lemma_bnb_step_props(a, faces, p1, best);
        lemma_search_from_props(a, faces, bnb_step(a, faces, p1, best), s + 1);
    }
}

/// Carries the best path found so far; the record only ever improves.
pub struct PathFinder {
    pub global_best_length: usize,
    pub global_best_path: Vec<usize>,
}

impl PathFinder {
    /// The record is coherent: the stored length is the stored path's
    /// length, and a nonempty record is a simple path of the graph.
    pub open spec fn inv(&self, a: Seq<Seq<usize>>) -> bool {
        &&& self.global_best_length == self.global_best_path@.len()
        &&& (self.global_best_path@.len() == 0 || is_simple_path(a, self.global_best_path@))
    }

    /// A fresh, empty best record.
    pub fn new() -> (pf: PathFinder)
        ensures
            pf.global_best_length == 0,
            pf.global_best_path@ == Seq::<usize>::empty(),
    {
        PathFinder { global_best_length: 0, global_best_path: Vec::new() }
    }

    /// Computes exactly `bound_of` for the current path tail.
    pub fn enhanced_face_heuristic(
        &self,
        graph: &Graph,
        current_path: &Vec<usize>,
        visited: &Vec<bool>,
        faces: &Vec<Vec<usize>>,
    ) -> (bound: usize)
        requires
            current_path@.len() >= 1,
            current_path@.no_duplicates(),
            nodes_bounded(graph@, current_path@),
            visited@.len() == graph@.len(),
            marks_path(visited@, current_path@),
            faces_in_bounds(graph@, seqs_of(faces@)),
        ensures
            bound as int == bound_of(graph@, seqs_of(faces@), current_path@),
    {
        let ghost a = graph@;
        let ghost fv = seqs_of(faces@);
        let ghost p = current_path@;
        proof {
            lemma_distinct_bounded_len(a, p);
        }
        let last_node = current_path[current_path.len() - 1];
        let mut total: usize = 0;
        let ghost mut exact: int = 0;
        let mut found = false;
        for k in 0..faces.len()
            invariant
                exact >= 0,
                total as int == if exact <= usize::MAX as int {
                    exact
                } else {
                    usize::MAX as int
                },
                exact + faces_sum_from(fv, last_node, p, k as int) == faces_sum_from(
                    fv,
                    last_node,
                    p,
                    0,
                ),
                found == exists|t: int| 0 <= t < k && (#[trigger] fv[t]).contains(last_node),
        {
            assert(fv[k as int] == faces@[k as int]@);
            if id_list_contains(&faces[k], last_node) {
                found = true;
                let c = count_unvisited(&faces[k], visited, Ghost(p));
                proof {
                    lemma_unvisited_nonneg(fv[k as int], p, 0);
                    exact = exact + c as int;
                }
                total = if total <= usize::MAX - c {
                    total + c
                } else {
                    usize::MAX
                };
            }
            proof {
                lemma_faces_sum_nonneg(fv, last_node, p, k + 1);
            }
        }
        assert(found == on_some_face(fv, last_node));
        assert(exact == faces_sum_from(fv, last_node, p, 0));
        let n = graph.node_count();
        let leftover = n - current_path.len();
        if found {
            if total <= leftover {
                total
            } else {
                leftover
            }
        } else {
            leftover
        }
    }

    /// One recursive branch-and-bound step. The path and the visited
    /// marks come back exactly as they were; the best record advances to
    /// precisely the value of the model `bnb_step`.
    pub fn bnb_search(
        &mut self,
        graph: &Graph,
        faces: &Vec<Vec<usize>>,
        current_path: &mut Vec<usize>,
        visited: &mut Vec<bool>,
    )
        requires
            valid_adj(graph@),
            is_simple_path(graph@, old(current_path)@),
            old(visited)@.len() == graph@.len(),
            marks_path(old(visited)@, old(current_path)@),
            faces_in_bounds(graph@, seqs_of(faces@)),
            old(self).inv(graph@),
        ensures
            final(current_path)@ == old(current_path)@,
            final(visited)@ == old(visited)@,
            final(self).inv(graph@),
            final(self).global_best_path@ == bnb_step(
                graph@,
                seqs_of(faces@),
                old(current_path)@,
                old(self).global_best_path@,
            ),
        decreases graph@.len() - old(current_path)@.len(),
    {
        let ghost a = graph@;
        let ghost fv = seqs_of(faces@);
        let ghost p0 = current_path@;
        let ghost v0 = visited@;
        let ghost best0 = self.global_best_path@;
        proof {
            lemma_distinct_bounded_len(a, p0);
            lemma_bound_range(a, fv, p0);
        }
        let n = graph.node_count();
        let current_length = current_path.len();
        let last_node = current_path[current_length - 1];
        let face_bound = self.enhanced_face_heuristic(graph, current_path, visited, faces);
        if current_length + face_bound <= self.global_best_length {
            return ;
        }
        if current_length > self.global_best_length {
            self.global_best_length = current_length;
            self.global_best_path = copy_ids(current_path);
        }
        let ghost best1 = self.global_best_path@;
        proof {
            assert(best1 == better(best0, p0));
        }
        let neighbors = graph.get_neighbors(last_node);
        proof {
            assert(neighbors@ == adj_of(a, last_of(p0)));
        }
        for k in 0..neighbors.len()
            invariant
                current_path@ == p0,
                visited@ == v0,
                self.inv(a),
                bnb_kids(a, fv, p0, self.global_best_path@, k as int) == bnb_kids(
                    a,
                    fv,
                    p0,
                    best1,
                    0,
                ),
        {
            let nb = neighbors[k];
            proof {
                assert(adj_of(a, last_of(p0))[k as int] == nb);
                assert((nb as int) < a.len());
            }
            let ghost best_pre = self.global_best_path@;
            if !visited[nb] {
                proof {
                    assert(!p0.contains(nb));
                }
                visited[nb] = true;
                current_path.push(nb);
                proof {
                    let p1 = p0.push(nb);
                    assert(current_path@ == p1);
                    assert(p1.no_duplicates()) by {
                        assert forall|i: int, j: int| 0 <= i < j < p1.len() implies p1[i] != p1[j] by {
                            if j == p0.len() as int {
                                if p0[i] == nb {
                                    assert(p0.contains(nb));
                                }
                            }
                        }
                    }
                    assert(nodes_bounded(a, p1));
                    assert(edge_in(a, last_of(p0), nb)) by {
                        assert(adj_of(a, last_of(p0)).contains(nb));
                    }
                    assert(is_simple_path(a, p1)) by {
                        assert forall|i: int| 0 <= i < p1.len() - 1 implies edge_in(
                            a,
                            #[trigger] p1[i],
                            p1[i + 1],
                        ) by {
                            if i < p0.len() - 1 {
                                assert(edge_in(a, p0[i], p0[i + 1]));
                            }
                        }
                    }
                    assert(marks_path(visited@, p1)) by {
                        assert forall|id: int| 0 <= id < visited@.len() implies (
                        #[trigger] visited@[id]) == p1.contains(id as usize) by {
                            lemma_push_contains(p0, nb, id as usize);
                        }
                    }
                    lemma_distinct_bounded_len(a, p1);
                }
                self.bnb_search(graph, faces, current_path, visited);
                let _ = current_path.pop();
                visited[nb] = false;
                proof {
                    assert(current_path@ =~= p0);
                    assert(visited@ =~= v0);
                    assert(p0.len() < a.len());
                    assert(bnb_kids(a, fv, p0, best_pre, k as int) == bnb_kids(
                        a,
                        fv,
                        p0,
                        self.global_best_path@,
                        k as int + 1,
                    ));
                }
            } else {
                proof {
                    assert(p0.contains(nb));
                    assert(p0.len() <= a.len());
                    if p0.len() < a.len() {
                        assert(bnb_kids(a, fv, p0, best_pre, k as int) == bnb_kids(
                            a,
                            fv,
                            p0,
                            best_pre,
                            k as int + 1,
                        ));
                    }
                }
            }
        }
        proof {
            assert(bnb_kids(a, fv, p0, self.global_best_path@, neighbors@.len() as int)
                == self.global_best_path@);
        }
    }

    /// Runs the whole search: every node is tried as a start, in id
    /// order, and the final best record is returned as a copy.
    pub fn find_longest_path(&mut self, graph: &Graph, faces: &Vec<Vec<usize>>) -> (r: Vec<usize>)
        requires
            valid_adj(graph@),
            faces_in_bounds(graph@, seqs_of(faces@)),
            old(self).inv(graph@),
        ensures
            final(self).inv(graph@),
            final(self).global_best_path@ == search_from(
                graph@,
                seqs_of(faces@),
                old(self).global_best_path@,
                0,
            ),
            r@ == final(self).global_best_path@,
    {
        let ghost a = graph@;
        let ghost fv = seqs_of(faces@);
        let ghost best0 = self.global_best_path@;
        let n = graph.node_count();
        for start in 0..n
            invariant
                self.inv(a),
                search_from(a, fv, self.global_best_path@, start as int) == search_from(
                    a,
                    fv,
                    best0,
                    0,
                ),
        {
            let mut visited: Vec<bool> = Vec::new();
            let mut j: usize = 0;
            while j < n
                invariant
                    j <= n,
                    visited@.len() == j as int,
                    forall|t: int| 0 <= t < j ==> !(#[trigger] visited@[t]),
                decreases n - j,
            {
                visited.push(false);
                j = j + 1;
            }
            visited[start] = true;
            let mut current_path: Vec<usize> = Vec::new();
            current_path.push(start);
            proof {
                let p1 = seq![start];
                assert(current_path@ =~= p1);
                assert(p1.no_duplicates());
                assert(nodes_bounded(a, p1));
                assert(is_simple_path(a, p1));
                assert forall|id: int| 0 <= id < visited@.len() implies (#[trigger] visited@[id])
                    == p1.contains(id as usize) by {
                    if id == start as int {
                        assert(p1[0] == start);
                        assert(p1.contains(start));
                    } else {
                        if p1.contains(id as usize) {
                            let w = choose|w: int| 0 <= w < p1.len() && p1[w] == id as usize;
                            assert(w == 0);
                        }
                    }
                }
                assert(marks_path(visited@, p1));
            }
            let ghost best_k = self.global_best_path@;
            self.bnb_search(graph, faces, &mut current_path, &mut visited);
            proof {
                assert(self.global_best_path@ == bnb_step(a, fv, seq![start], best_k));
                assert(seq![(start as int) as usize] =~= seq![start]);
                assert(search_from(a, fv, best_k, start as int) == search_from(
                    a,
                    fv,
                    self.global_best_path@,
                    start as int + 1,
                ));
            }
        }
        proof {
            assert(search_from(a, fv, self.global_best_path@, n as int)
                == self.global_best_path@);
        }
        copy_ids(&self.global_best_path)
    }
}

} // verus!
