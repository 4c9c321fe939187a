//! Face decomposition: traces the closed boundary walks of the rotation
//! system that insertion order gives the adjacency lists.
//!
//! A half-edge `(u, v)` is one direction of a stored edge. A trace walks
//! half-edge by half-edge, always leaving along the neighbour after the
//! one it arrived from, cyclically, and closes when it meets its starting
//! half-edge again. Every half-edge traversed is marked, so it is never
//! used as a later starting point. Traces that cannot continue (a missing
//! back-reference or a degree-one node) fail silently: dead ends and
//! bridges lie on no closed face. A trace that does not close within the
//! total half-edge budget also fails; a closed boundary walk never needs
//! more steps than there are half-edges.
//!
//! As with the search, the executable routines return exactly the values
//! of their spec models (`trace_from`, `faces_outer`), so the face list is
//! a deterministic function of the graph.

use vstd::prelude::*;

use crate::graph::adj_of;
use crate::graph::seqs_of;
use crate::graph::valid_adj;
use crate::graph::Graph;
use crate::graph::NodeId;
use crate::search::faces_in_bounds;
use crate::search::nodes_bounded;

verus! {

broadcast use vstd::prelude::Seq::lemma_push_to_set_commute;

/// A face: the node sequence of one closed boundary walk.
pub type Face = Vec<NodeId>;

/// Index of the first occurrence of `x` in `s` at or after `j`, or
/// `s.len()` when there is none.
pub open spec fn first_index_from(s: Seq<usize>, x: usize, j: int) -> int
    decreases s.len() - j,
{
    if j < 0 || j >= s.len() {
        s.len() as int
    } else if s[j] == x {
        j
    } else {
        first_index_from(s, x, j + 1)
    }
}

/// The successor rule of face tracing: having arrived at `cur` from
/// `prev`, leave along the neighbour just after `prev`'s first occurrence
/// in `cur`'s list, cyclically. Fails when `prev` is not in the list or
/// `cur` has fewer than two neighbours.
pub open spec fn next_after(a: Seq<Seq<usize>>, prev: usize, cur: usize) -> Option<usize> {
    let nbrs = adj_of(a, cur);
    if nbrs.len() == 0 {
        None
    } else {
        let i = first_index_from(nbrs, prev, 0);
        if i >= nbrs.len() {
            None
        } else if nbrs.len() == 1 {
            None
        } else {
            Some(nbrs[(i + 1) % (nbrs.len() as int)])
        }
    }
}

/// One boundary trace. `cur`/`inc` is the half-edge just traversed,
/// `face` the nodes collected so far, `vis` the visited half-edges. The
/// trace closes when it reaches the starting half-edge `(start, snext)`
/// again, and fails when the successor rule fails or the fuel runs out.
pub open spec fn trace_from(
    a: Seq<Seq<usize>>,
    vis: Set<(usize, usize)>,
    cur: usize,
    inc: usize,
    start: usize,
    snext: usize,
    face: Seq<usize>,
    fuel: nat,
) -> (Option<Seq<usize>>, Set<(usize, usize)>)
    decreases fuel,
{
    if fuel == 0 {
        (None::<Seq<usize>>, vis)
    } else {
        match next_after(a, cur, inc) {
            None => (None::<Seq<usize>>, vis),
            Some(nn) => {
                let v2 = vis.insert((inc, nn));
                if inc == start && nn == snext {
                    (Some(face), v2)
                } else {
                    trace_from(a, v2, inc, nn, start, snext, face.push(inc), (fuel - 1) as nat)
                }
            },
        }
    }
}

/// Total length of all neighbour lists from node `i` on: the half-edge
/// count of the graph.
pub open spec fn degree_sum_from(a: Seq<Seq<usize>>, i: int) -> int
    decreases a.len() - i,
{
    if i < 0 || i >= a.len() {
        0
    } else {
        a[i].len() + degree_sum_from(a, i + 1)
    }
}

pub proof fn lemma_degree_sum_nonneg(a: Seq<Seq<usize>>, i: int)
    ensures
        degree_sum_from(a, i) >= 0,
    decreases a.len() - i,
{
    if 0 <= i < a.len() {
        lemma_degree_sum_nonneg(a, i + 1);
    }
}

/// The step budget of one trace: the half-edge count, clamped to what a
/// machine word holds.
pub open spec fn half_edge_budget(a: Seq<Seq<usize>>) -> nat {
    if degree_sum_from(a, 0) > usize::MAX as int {
        usize::MAX as nat
    } else {
        degree_sum_from(a, 0) as nat
    }
}

/// A whole trace started on the unvisited half-edge `(u, v)`: the start
/// is marked, the walk begins with node `u`.
pub open spec fn trace_result(a: Seq<Seq<usize>>, vis: Set<(usize, usize)>, u: usize, v: usize) -> (
    Option<Seq<usize>>,
    Set<(usize, usize)>,
) {
    trace_from(a, vis.insert((u, v)), u, v, u, v, seq![u], half_edge_budget(a))
}

/// Folds the trace attempts over `u`'s neighbours from index `k` on:
/// each unvisited half-edge `(u, v)` starts a trace, and a closed trace
/// contributes its face.
pub open spec fn faces_inner(
    a: Seq<Seq<usize>>,
    u: usize,
    k: int,
    faces: Seq<Seq<usize>>,
    vis: Set<(usize, usize)>,
) -> (Seq<Seq<usize>>, Set<(usize, usize)>)
    decreases adj_of(a, u).len() - k,
{
    let nbrs = adj_of(a, u);
    if k < 0 || k >= nbrs.len() {
        (faces, vis)
    } else {
        let v = nbrs[k];
        if vis.contains((u, v)) {
            faces_inner(a, u, k + 1, faces, vis)
        } else {
            let r = trace_result(a, vis, u, v);
            match r.0 {
                Some(f) => faces_inner(a, u, k + 1, faces.push(f), r.1),
                None => faces_inner(a, u, k + 1, faces, r.1),
            }
        }
    }
}

/// Folds `faces_inner` over the nodes from `u` on, in id order.
pub open spec fn faces_outer(
    a: Seq<Seq<usize>>,
    u: int,
    faces: Seq<Seq<usize>>,
    vis: Set<(usize, usize)>,
) -> (Seq<Seq<usize>>, Set<(usize, usize)>)
    decreases a.len() - u,
{
    if u < 0 || u >= a.len() {
        (faces, vis)
    } else {
        let st = faces_inner(a, u as usize, 0, faces, vis);
        faces_outer(a, u + 1, st.0, st.1)
    }
}

/// The full decomposition: every face produced, and every half-edge
/// either consumed by a face or marked by a failed trace.
pub open spec fn faces_model(a: Seq<Seq<usize>>) -> (Seq<Seq<usize>>, Set<(usize, usize)>) {
    faces_outer(a, 0, Seq::<Seq<usize>>::empty(), Set::<(usize, usize)>::empty())
}

/// A closed boundary walk: nonempty, within the graph, each consecutive
/// pair joined by a stored edge, and the last node joined back to the
/// first. A walk may repeat nodes when the rotation system is degenerate.
pub open spec fn closed_walk(a: Seq<Seq<usize>>, f: Seq<usize>) -> bool {
    &&& f.len() >= 1
    &&& nodes_bounded(a, f)
    &&& forall|i: int|
        0 <= i < f.len() - 1 ==> crate::graph::edge_in(a, #[trigger] f[i], f[i + 1])
    &&& crate::graph::edge_in(a, f[f.len() - 1], f[0])
}

/// Every half-edge of the walk `f`, the closing one included, is marked.
pub open spec fn face_half_edges_marked(f: Seq<usize>, vis: Set<(usize, usize)>) -> bool {
    &&& forall|i: int| 0 <= i < f.len() - 1 ==> vis.contains((#[trigger] f[i], f[i + 1]))
    &&& f.len() >= 1 ==> vis.contains((f[f.len() - 1], f[0]))
}

/// Every produced face is a closed walk whose half-edges are all marked.
pub open spec fn faces_wf(
    a: Seq<Seq<usize>>,
    faces: Seq<Seq<usize>>,
    vis: Set<(usize, usize)>,
) -> bool {
    forall|t: int|
        0 <= t < faces.len() ==> closed_walk(a, #[trigger] faces[t]) && face_half_edges_marked(
            faces[t],
            vis,
        )
}

/// A successful successor step stays inside the graph.
proof fn lemma_next_after_in_graph(a: Seq<Seq<usize>>, prev: usize, cur: usize)
    requires
        valid_adj(a),
        next_after(a, prev, cur) is Some,
    ensures
        (cur as int) < a.len(),
        adj_of(a, cur).contains(next_after(a, prev, cur)->Some_0),
        (next_after(a, prev, cur)->Some_0 as int) < a.len(),
{
    let nbrs = adj_of(a, cur);
    assert(nbrs.len() > 0);
    let i = first_index_from(nbrs, prev, 0);
    let j = (i + 1) % (nbrs.len() as int);
    assert(0 <= j < nbrs.len());
    assert(nbrs[j] == next_after(a, prev, cur)->Some_0);
}

/// What a boundary trace guarantees: the marks only grow, and a closed
/// trace yields a closed walk starting at `start` whose half-edges are
/// all marked when it ends.
proof fn lemma_trace_props(
    a: Seq<Seq<usize>>,
    vis: Set<(usize, usize)>,
    cur: usize,
    inc: usize,
    start: usize,
    snext: usize,
    face: Seq<usize>,
    fuel: nat,
)
    requires
        valid_adj(a),
        nodes_bounded(a, face),
        face.len() >= 1,
        face[0] == start,
        face[face.len() - 1] == cur,
        (inc as int) < a.len(),
        forall|i: int|
            0 <= i < face.len() - 1 ==> crate::graph::edge_in(a, #[trigger] face[i], face[i + 1]),
        crate::graph::edge_in(a, cur, inc),
        forall|i: int| 0 <= i < face.len() - 1 ==> vis.contains((#[trigger] face[i], face[i + 1])),
        vis.contains((cur, inc)),
    ensures
        vis.subset_of(trace_from(a, vis, cur, inc, start, snext, face, fuel).1),
        trace_from(a, vis, cur, inc, start, snext, face, fuel).0 matches Some(f) ==> {
            &&& closed_walk(a, f)
            &&& f[0] == start
            &&& face_half_edges_marked(f, trace_from(a, vis, cur, inc, start, snext, face, fuel).1)
        },
    decreases fuel,
{
    if fuel == 0 {
    } else {
        match next_after(a, cur, inc) {
            None => {},
            Some(nn) => {
                lemma_next_after_in_graph(a, cur, inc);
                let v2 = vis.insert((inc, nn));
                if inc == start && nn == snext {
                    assert(crate::graph::edge_in(a, face[face.len() - 1], face[0]));
                } else {
                    let f2 = face.push(inc);
                    assert(f2[f2.len() - 1] == inc);
                    assert(forall|i: int|
                        0 <= i < face.len() ==> #[trigger] f2[i] == face[i]);
                    lemma_trace_props(a, v2, inc, nn, start, snext, f2, (fuel - 1) as nat);
                }
            },
        }
    }
}

/// Marked half-edges stay marked in any larger mark set.
proof fn lemma_faces_wf_monotone(
    a: Seq<Seq<usize>>,
    faces: Seq<Seq<usize>>,
    vis: Set<(usize, usize)>,
    vis2: Set<(usize, usize)>,
)
    requires
        faces_wf(a, faces, vis),
        vis.subset_of(vis2),
    ensures
        faces_wf(a, faces, vis2),
{
    assert forall|t: int| 0 <= t < faces.len() implies closed_walk(a, #[trigger] faces[t])
        && face_half_edges_marked(faces[t], vis2) by {
        assert(closed_walk(a, faces[t]));
        assert(face_half_edges_marked(faces[t], vis));
    }
}

/// The inner fold keeps the faces well formed, only grows the marks, and
/// leaves every half-edge out of `u` from index `k` on marked.
proof fn lemma_faces_inner_props(
    a: Seq<Seq<usize>>,
    u: usize,
    k: int,
    faces: Seq<Seq<usize>>,
    vis: Set<(usize, usize)>,
)
    requires
        valid_adj(a),
        0 <= k,
        faces_wf(a, faces, vis),
    ensures
        faces_wf(a, faces_inner(a, u, k, faces, vis).0, faces_inner(a, u, k, faces, vis).1),
        vis.subset_of(faces_inner(a, u, k, faces, vis).1),
        forall|t: int|
            k <= t < adj_of(a, u).len() ==> faces_inner(a, u, k, faces, vis).1.contains(
                (u, #[trigger] adj_of(a, u)[t]),
            ),
    decreases adj_of(a, u).len() - k,
{
    let nbrs = adj_of(a, u);
    if k < 0 || k >= nbrs.len() {
    } else {
        let v = nbrs[k];
        if vis.contains((u, v)) {
            lemma_faces_inner_props(a, u, k + 1, faces, vis);
        } else {
            assert((u as int) < a.len());
            assert((v as int) < a.len());
            let vstart = vis.insert((u, v));
            let r = trace_result(a, vis, u, v);
            let fuel = half_edge_budget(a);
            assert(seq![u][0] == u);
            assert(nodes_bounded(a, seq![u]));
            assert(crate::graph::edge_in(a, u, v)) by {
                assert(adj_of(a, u).contains(v));
            }
            lemma_trace_props(a, vstart, u, v, u, v, seq![u], fuel);
            assert(vis.subset_of(r.1));
            assert(r.1.contains((u, v)));
            match r.0 {
                Some(f) => {
                    assert(faces_wf(a, faces.push(f), r.1)) by {
                        lemma_faces_wf_monotone(a, faces, vis, r.1);
                        assert forall|t: int| 0 <= t < faces.push(f).len() implies closed_walk(
                            a,
                            #[trigger] faces.push(f)[t],
                        ) && face_half_edges_marked(faces.push(f)[t], r.1) by {
                            if t < faces.len() {
                                assert(faces.push(f)[t] == faces[t]);
                            }
                        }
                    }
                    lemma_faces_inner_props(a, u, k + 1, faces.push(f), r.1);
                },
                None => {
                    lemma_faces_wf_monotone(a, faces, vis, r.1);
                    lemma_faces_inner_props(a, u, k + 1, faces, r.1);
                },
            }
        }
    }
}

/// The outer fold: all faces well formed, marks only grow, and every
/// half-edge out of every node from `u` on ends up marked.
proof fn lemma_faces_outer_props(
    a: Seq<Seq<usize>>,
    u: int,
    faces: Seq<Seq<usize>>,
    vis: Set<(usize, usize)>,
)
    requires
        valid_adj(a),
        a.len() <= usize::MAX as int,
        0 <= u,
        faces_wf(a, faces, vis),
    ensures
        faces_wf(a, faces_outer(a, u, faces, vis).0, faces_outer(a, u, faces, vis).1),
        vis.subset_of(faces_outer(a, u, faces, vis).1),
        forall|w: int, t: int|
            u <= w < a.len() && 0 <= t < a[w].len() ==> faces_outer(a, u, faces, vis).1.contains(
                ((w as usize), #[trigger] a[w][t]),
            ),
    decreases a.len() - u,
{
    if u < 0 || u >= a.len() {
    } else {
        assert(u as usize as int == u);
        let st = faces_inner(a, u as usize, 0, faces, vis);
        lemma_faces_inner_props(a, u as usize, 0, faces, vis);
        lemma_faces_outer_props(a, u + 1, st.0, st.1);
        let fin = faces_outer(a, u, faces, vis);
        assert forall|w: int, t: int|
            u <= w < a.len() && 0 <= t < a[w].len() implies fin.1.contains(
            ((w as usize), #[trigger] a[w][t]),
        ) by {
            if w == u {
                assert(adj_of(a, u as usize) == a[u]);
                assert(st.1.contains(((u as usize), a[u][t])));
            }
        }
    }
}

/// The face-decomposition law. In a well-formed graph, every produced
/// face is a closed boundary walk all of whose half-edges are marked
/// consumed, and every half-edge of the graph ends up marked: each
/// half-edge is consumed by the decomposition, by the face trace that
/// closed over it or by a failed trace.
pub proof fn lemma_face_decomposition(a: Seq<Seq<usize>>)
    requires
        valid_adj(a),
        a.len() <= usize::MAX as int,
    ensures
        faces_wf(a, faces_model(a).0, faces_model(a).1),
        forall|w: int, t: int|
            0 <= w < a.len() && 0 <= t < a[w].len() ==> faces_model(a).1.contains(
                ((w as usize), #[trigger] a[w][t]),
            ),
        faces_in_bounds(a, faces_model(a).0),
{
    lemma_faces_outer_props(a, 0, Seq::<Seq<usize>>::empty(), Set::<(usize, usize)>::empty());
    assert forall|t: int| 0 <= t < faces_model(a).0.len() implies nodes_bounded(
        a,
        #[trigger] faces_model(a).0[t],
    ) by {
        assert(closed_walk(a, faces_model(a).0[t]));
    }
}

/// The walk `f` follows the successor rule cyclically: each half-edge of
/// the face is succeeded by the next one, wrapping around.
pub open spec fn face_linked(a: Seq<Seq<usize>>, f: Seq<usize>) -> bool {
    forall|i: int|
        0 <= i < f.len() ==> #[trigger] next_after(a, f[i], f[(i + 1) % (f.len() as int)]) == Some(
            f[(i + 2) % (f.len() as int)],
        )
}

/// The set of half-edges of the cyclic walk `f`, the closing one
/// included.
pub open spec fn face_hes(f: Seq<usize>) -> Set<(usize, usize)> {
    Set::new(
        |h: (usize, usize)|
            exists|i: int|
                0 <= i < f.len() && h.0 == #[trigger] f[i] && h.1 == f[(i + 1) % (f.len() as int)],
    )
}

/// No half-edge lies on two distinct produced faces.
pub open spec fn faces_disjoint(faces: Seq<Seq<usize>>) -> bool {
    forall|s: int, t: int|
        0 <= s < t < faces.len() ==> face_hes(#[trigger] faces[s]).disjoint(
            face_hes(#[trigger] faces[t]),
        )
}

proof fn lemma_mod_succ(x: int, m: int)
    requires
        m >= 1,
    ensures
        (x % m + 1) % m == (x + 1) % m,
{
    vstd::arithmetic::div_mod::lemma_add_mod_noop(x, 1, m);
    if m == 1 {
        vstd::arithmetic::div_mod::lemma_mod_bound(x % m + 1, m);
        vstd::arithmetic::div_mod::lemma_mod_bound(x + 1, m);
    } else {
        vstd::arithmetic::div_mod::lemma_small_mod(1, m as nat);
    }
}

/// A closing trace yields a successor-linked face, whose second node is
/// the second node of the starting half-edge (or, for a one-node face,
/// whose starting half-edge is a self-loop).
proof fn lemma_trace_linked(
    a: Seq<Seq<usize>>,
    vis: Set<(usize, usize)>,
    cur: usize,
    inc: usize,
    start: usize,
    snext: usize,
    face: Seq<usize>,
    fuel: nat,
)
    requires
        face.len() >= 1,
        face[0] == start,
        face[face.len() - 1] == cur,
        face.len() >= 2 ==> face[1] == snext,
        face.len() == 1 ==> inc == snext,
        forall|i: int|
            0 <= i < face.len() - 2 ==> next_after(a, #[trigger] face[i], face[i + 1]) == Some(
                face[i + 2],
            ),
        face.len() >= 2 ==> next_after(a, face[face.len() - 2], face[face.len() - 1]) == Some(inc),
    ensures
        trace_from(a, vis, cur, inc, start, snext, face, fuel).0 matches Some(f) ==> {
            &&& face_linked(a, f)
            &&& f.len() >= 1 && f[0] == start
            &&& (f.len() >= 2 ==> f[1] == snext)
            &&& (f.len() == 1 ==> snext == start)
        },
    decreases fuel,
{
    if fuel == 0 {
    } else {
        match next_after(a, cur, inc) {
            None => {},
            Some(nn) => {
                let v2 = vis.insert((inc, nn));
                if inc == start && nn == snext {
                    let m = face.len() as int;
                    assert(face_linked(a, face)) by {
                        assert forall|i: int| 0 <= i < m implies next_after(
                            a,
                            #[trigger] face[i],
                            face[(i + 1) % m],
                        ) == Some(face[(i + 2) % m]) by {
                            vstd::arithmetic::div_mod::lemma_mod_bound(i + 1, m);
                            vstd::arithmetic::div_mod::lemma_mod_bound(i + 2, m);
                            if m == 1 {
                                assert(next_after(a, cur, inc) == Some(nn));
                            } else if i < m - 2 {
                                vstd::arithmetic::div_mod::lemma_small_mod(
                                    (i + 1) as nat,
                                    m as nat,
                                );
                                vstd::arithmetic::div_mod::lemma_small_mod(
                                    (i + 2) as nat,
                                    m as nat,
                                );
                            } else if i == m - 2 {
                                vstd::arithmetic::div_mod::lemma_small_mod(
                                    (m - 1) as nat,
                                    m as nat,
                                );
                                vstd::arithmetic::div_mod::lemma_mod_self_0(m);
                                assert(next_after(a, face[m - 2], face[m - 1]) == Some(inc));
                            } else {
                                assert(i == m - 1);
                                vstd::arithmetic::div_mod::lemma_mod_self_0(m);
                                lemma_mod_succ(m, m);
                                vstd::arithmetic::div_mod::lemma_small_mod(1, m as nat);
                                assert((i + 1) % m == 0);
                                assert((i + 2) % m == 1);
                                assert(next_after(a, face[m - 1], face[0]) == Some(nn));
                            }
                        }
                    }
                } else {
                    let f2 = face.push(inc);
                    assert(f2[f2.len() - 1] == inc);
                    assert(forall|i: int| 0 <= i < face.len() ==> #[trigger] f2[i] == face[i]);
                    assert(forall|i: int|
                        0 <= i < f2.len() - 2 ==> next_after(a, #[trigger] f2[i], f2[i + 1])
                            == Some(f2[i + 2]));
                    lemma_trace_linked(a, v2, inc, nn, start, snext, f2, (fuel - 1) as nat);
                }
            },
        }
    }
}

/// Walking `k` successor steps around the linked face `g` stays inside
/// the half-edge set of the linked face `f`, once one half-edge of `g`
/// lies in it.
/// One successor step inside a linked face's half-edge set stays in it.
proof fn lemma_face_hes_step(a: Seq<Seq<usize>>, f: Seq<usize>, x: usize, y: usize)
    requires
        face_linked(a, f),
        f.len() >= 1,
        face_hes(f).contains((x, y)),
    ensures
        next_after(a, x, y) is Some,
        face_hes(f).contains((y, next_after(a, x, y)->Some_0)),
{
    let mf = f.len() as int;
    let j = choose|j: int| 0 <= j < mf && x == #[trigger] f[j] && y == f[(j + 1) % mf];
    assert(next_after(a, f[j], f[(j + 1) % mf]) == Some(f[(j + 2) % mf]));
    let j1 = (j + 1) % mf;
    vstd::arithmetic::div_mod::lemma_mod_bound(j + 1, mf);
    lemma_mod_succ(j + 1, mf);
    assert(f[(j1 + 1) % mf] == f[(j + 2) % mf]);
    assert(next_after(a, f[j1], f[(j1 + 1) % mf]) == Some(f[(j1 + 2) % mf]));
    assert(face_hes(f).contains((f[j1], f[(j1 + 1) % mf])));
}

/// Walking `k` successor steps around the linked face `g` stays inside
/// the half-edge set of the linked face `f`, once one half-edge of `g`
/// lies in it.
proof fn lemma_linked_orbit(a: Seq<Seq<usize>>, f: Seq<usize>, g: Seq<usize>, i0: int, k: int)
    requires
        face_linked(a, f),
        face_linked(a, g),
        f.len() >= 1,
        g.len() >= 1,
        0 <= i0 < g.len(),
        0 <= k,
        face_hes(f).contains((g[i0], g[(i0 + 1) % (g.len() as int)])),
    ensures
        face_hes(f).contains((g[(i0 + k) % (g.len() as int)], g[(i0 + k + 1) % (g.len() as int)])),
    decreases k,
{
    let m = g.len() as int;
    if k == 0 {
        vstd::arithmetic::div_mod::lemma_small_mod(i0 as nat, m as nat);
        lemma_mod_succ(i0, m);
    } else {
        lemma_linked_orbit(a, f, g, i0, k - 1);
        let p = (i0 + k - 1) % m;
        vstd::arithmetic::div_mod::lemma_mod_bound(i0 + k - 1, m);
        lemma_mod_succ(i0 + k - 1, m);
        assert((p + 1) % m == (i0 + k) % m);
        lemma_face_hes_step(a, f, g[p], g[(p + 1) % m]);
        assert(next_after(a, g[p], g[(p + 1) % m]) == Some(g[(p + 2) % m]));
        vstd::arithmetic::div_mod::lemma_mod_bound(p + 1, m);
        lemma_mod_succ(p + 1, m);
        lemma_mod_succ(i0 + k, m);
        assert((p + 2) % m == ((p + 1) % m + 1) % m);
        assert(((i0 + k) % m + 1) % m == (i0 + k + 1) % m);
        assert((p + 2) % m == (i0 + k + 1) % m);
        assert(face_hes(f).contains((g[(p + 1) % m], g[(p + 2) % m])));
    }
}

/// A marked walk's half-edge set is contained in the marks.
proof fn lemma_hes_subset_of_marked(f: Seq<usize>, vis: Set<(usize, usize)>)
    requires
        f.len() >= 1,
        face_half_edges_marked(f, vis),
    ensures
        face_hes(f).subset_of(vis),
{
    let m = f.len() as int;
    assert forall|h: (usize, usize)| face_hes(f).contains(h) implies vis.contains(h) by {
        let i = choose|i: int| 0 <= i < m && h.0 == #[trigger] f[i] && h.1 == f[(i + 1) % m];
        if i < m - 1 {
            vstd::arithmetic::div_mod::lemma_small_mod((i + 1) as nat, m as nat);
            assert(vis.contains((f[i], f[i + 1])));
        } else {
            vstd::arithmetic::div_mod::lemma_mod_self_0(m);
            assert(vis.contains((f[m - 1], f[0])));
        }
    }
}

/// Every face in the list is successor-linked with all half-edges
/// marked, and no two faces share a half-edge.
pub open spec fn faces_sep(
    a: Seq<Seq<usize>>,
    faces: Seq<Seq<usize>>,
    vis: Set<(usize, usize)>,
) -> bool {
    &&& faces_disjoint(faces)
    &&& forall|t: int|
        0 <= t < faces.len() ==> face_linked(a, #[trigger] faces[t]) && faces[t].len() >= 1
            && face_hes(faces[t]).subset_of(vis)
}

/// A face closed by a trace started on the unvisited half-edge `(u, v)`
/// shares no half-edge with a face whose half-edges are all already
/// marked: if it did, following the shared cycle would lead back to its
/// own starting half-edge, which would then already be marked.
proof fn lemma_new_face_disjoint(
    a: Seq<Seq<usize>>,
    vis: Set<(usize, usize)>,
    old_face: Seq<usize>,
    f: Seq<usize>,
    u: usize,
    v: usize,
)
    requires
        face_linked(a, old_face),
        old_face.len() >= 1,
        face_hes(old_face).subset_of(vis),
        !vis.contains((u, v)),
        face_linked(a, f),
        f.len() >= 1,
        f[0] == u,
        f.len() >= 2 ==> f[1] == v,
        f.len() == 1 ==> v == u,
    ensures
        face_hes(old_face).disjoint(face_hes(f)),
{
    let m = f.len() as int;
    assert forall|h: (usize, usize)| face_hes(old_face).contains(h) implies !face_hes(f).contains(
        h,
    ) by {
        if face_hes(f).contains(h) {
            let i0 = choose|i: int| 0 <= i < m && h.0 == #[trigger] f[i] && h.1 == f[(i + 1) % m];
            lemma_linked_orbit(a, old_face, f, i0, m - i0);
            vstd::arithmetic::div_mod::lemma_mod_self_0(m);
            assert((i0 + (m - i0)) % m == 0);
            lemma_mod_succ(m, m);
            assert((m + 1) % m == 1int % m);
            if m == 1 {
                vstd::arithmetic::div_mod::lemma_mod_bound(1, m);
                assert(face_hes(old_face).contains((f[0], f[0])));
                assert(vis.contains((u, v)));
            } else {
                vstd::arithmetic::div_mod::lemma_small_mod(1, m as nat);
                assert(face_hes(old_face).contains((f[0], f[1])));
                assert(vis.contains((u, v)));
            }
        }
    }
}

/// The inner fold keeps the produced faces pairwise half-edge-disjoint.
proof fn lemma_faces_inner_sep(
    a: Seq<Seq<usize>>,
    u: usize,
    k: int,
    faces: Seq<Seq<usize>>,
    vis: Set<(usize, usize)>,
)
    requires
        valid_adj(a),
        0 <= k,
        faces_wf(a, faces, vis),
        faces_sep(a, faces, vis),
    ensures
        faces_sep(a, faces_inner(a, u, k, faces, vis).0, faces_inner(a, u, k, faces, vis).1),
    decreases adj_of(a, u).len() - k,
{
    let nbrs = adj_of(a, u);
    if k < 0 || k >= nbrs.len() {
    } else {
        let v = nbrs[k];
        if vis.contains((u, v)) {
            lemma_faces_inner_sep(a, u, k + 1, faces, vis);
        } else {
            assert((u as int) < a.len());
            assert((v as int) < a.len());
            let vstart = vis.insert((u, v));
            let r = trace_result(a, vis, u, v);
            let fuel = half_edge_budget(a);
            assert(crate::graph::edge_in(a, u, v)) by {
                assert(adj_of(a, u).contains(v));
            }
            lemma_trace_props(a, vstart, u, v, u, v, seq![u], fuel);
            lemma_trace_linked(a, vstart, u, v, u, v, seq![u], fuel);
            match r.0 {
                Some(f) => {
                    lemma_hes_subset_of_marked(f, r.1);
                    assert forall|t: int| 0 <= t < faces.len() implies face_hes(
                        #[trigger] faces[t],
                    ).disjoint(face_hes(f)) by {
                        lemma_new_face_disjoint(a, vis, faces[t], f, u, v);
                    }
                    let faces2 = faces.push(f);
                    assert(faces_wf(a, faces2, r.1)) by {
                        lemma_faces_wf_monotone(a, faces, vis, r.1);
                        assert forall|t: int| 0 <= t < faces2.len() implies closed_walk(
                            a,
                            #[trigger] faces2[t],
                        ) && face_half_edges_marked(faces2[t], r.1) by {
                            if t < faces.len() {
                                assert(faces2[t] == faces[t]);
                            }
                        }
                    }
                    assert(faces_sep(a, faces2, r.1)) by {
                        assert forall|s: int, t: int| 0 <= s < t < faces2.len() implies face_hes(
                            #[trigger] faces2[s],
                        ).disjoint(face_hes(#[trigger] faces2[t])) by {
                            if t < faces.len() {
                                assert(faces2[s] == faces[s]);
                                assert(faces2[t] == faces[t]);
                            } else {
                                assert(faces2[s] == faces[s]);
                                assert(faces2[t] == f);
                            }
                        }
                        assert forall|t: int| 0 <= t < faces2.len() implies face_linked(
                            a,
                            #[trigger] faces2[t],
                        ) && faces2[t].len() >= 1 && face_hes(faces2[t]).subset_of(r.1) by {
                            if t < faces.len() {
                                assert(faces2[t] == faces[t]);
                            }
                        }
                    }
                    lemma_faces_inner_sep(a, u, k + 1, faces2, r.1);
                },
                None => {
                    lemma_faces_wf_monotone(a, faces, vis, r.1);
                    assert(faces_sep(a, faces, r.1));
                    lemma_faces_inner_sep(a, u, k + 1, faces, r.1);
                },
            }
        }
    }
}

/// The outer fold keeps the produced faces pairwise half-edge-disjoint.
proof fn lemma_faces_outer_sep(
    a: Seq<Seq<usize>>,
    u: int,
    faces: Seq<Seq<usize>>,
    vis: Set<(usize, usize)>,
)
    requires
        valid_adj(a),
        a.len() <= usize::MAX as int,
        0 <= u,
        faces_wf(a, faces, vis),
        faces_sep(a, faces, vis),
    ensures
        faces_sep(a, faces_outer(a, u, faces, vis).0, faces_outer(a, u, faces, vis).1),
    decreases a.len() - u,
{
    if u < 0 || u >= a.len() {
    } else {
        assert(u as usize as int == u);
        lemma_faces_inner_props(a, u as usize, 0, faces, vis);
        lemma_faces_inner_sep(a, u as usize, 0, faces, vis);
        let st = faces_inner(a, u as usize, 0, faces, vis);
        lemma_faces_outer_sep(a, u + 1, st.0, st.1);
    }
}

/// The remaining half of the decomposition law: no half-edge lies on two
/// distinct produced faces. Together with `lemma_face_decomposition`,
/// every half-edge of the graph is consumed exactly once — by the one
/// face traced over it, or by a failed trace that yields no face.
pub proof fn lemma_faces_pairwise_disjoint(a: Seq<Seq<usize>>)
    requires
        valid_adj(a),
        a.len() <= usize::MAX as int,
    ensures
        faces_disjoint(faces_model(a).0),
{
    lemma_faces_outer_sep(a, 0, Seq::<Seq<usize>>::empty(), Set::<(usize, usize)>::empty());
}

/// Finds faces by walking half-edge boundaries.
pub struct FaceFinder {
    pub visited_half_edges: Vec<(usize, usize)>,
    pub faces: Vec<Face>,
}

/// Whether the half-edge list holds `(u, w)`.
fn half_edge_visited(v: &Vec<(usize, usize)>, u: usize, w: usize) -> (r: bool)
    ensures
        r == v@.to_set().contains((u, w)),
{
    for j in 0..v.len()
        invariant
            forall|t: int| 0 <= t < j ==> v@[t] != (u, w),
    {
        let e = v[j];
        if e.0 == u && e.1 == w {
            assert(v@[j as int] == (u, w));
            return true;
        }
    }
    false
}

/// Clamped half-edge count of the graph, the fuel of one trace.
fn compute_budget(graph: &Graph) -> (b: usize)
    ensures
        b as nat == half_edge_budget(graph@),
{
    let ghost a = graph@;
    let n = graph.node_count();
    let mut b: usize = 0;
    let ghost mut exact: int = 0;
    for i in 0..n
        invariant
            exact >= 0,
            b as int == if exact <= usize::MAX as int {
                exact
            } else {
                usize::MAX as int
            },
            exact + degree_sum_from(a, i as int) == degree_sum_from(a, 0),
    {
        proof {
            lemma_degree_sum_nonneg(a, i + 1);
        }
        let d = graph.get_neighbors(i).len();
        b = if b <= usize::MAX - d {
            b + d
        } else {
            usize::MAX
        };
        proof {
            exact = exact + d as int;
        }
    }
    b
}

impl FaceFinder {
    /// A finder with no marks and no faces.
    pub fn new() -> (ff: FaceFinder)
        ensures
            ff.visited_half_edges@ == Seq::<(usize, usize)>::empty(),
            ff.faces@ == Seq::<Face>::empty(),
    {
        FaceFinder { visited_half_edges: Vec::new(), faces: Vec::new() }
    }

    /// Computes exactly `next_after`: the next boundary neighbour when
    /// one exists.
    pub fn get_next_boundary_neighbor(&self, graph: &Graph, prev: usize, current: usize) -> (r:
        Option<usize>)
        ensures
            r == next_after(graph@, prev, current),
    {
        let neighbors = graph.get_neighbors(current);
        if neighbors.len() == 0 {
            return None;
        }
        for j in 0..neighbors.len()
            invariant
                first_index_from(neighbors@, prev, 0) == first_index_from(
                    neighbors@,
                    prev,
                    j as int,
                ),
        {
            if neighbors[j] == prev {
                if neighbors.len() == 1 {
                    return None;
                }
                let next_idx = (j + 1) % neighbors.len();
                return Some(neighbors[next_idx]);
            }
        }
        None
    }

    /// Attempts one boundary trace from the half-edge `(start, next)`,
    /// marking every half-edge traversed; returns the face when the walk
    /// closes. Computes exactly `trace_result` on the marks held so far.
    pub fn traverse_face_boundary(&mut self, graph: &Graph, start: usize, next: usize) -> (r:
        Option<Face>)
        ensures
            final(self).faces@ == old(self).faces@,
            final(self).visited_half_edges@.to_set() == trace_result(
                graph@,
                old(self).visited_half_edges@.to_set(),
                start,
                next,
            ).1,
            match r {
                Some(f) => trace_result(
                    graph@,
                    old(self).visited_half_edges@.to_set(),
                    start,
                    next,
                ).0 == Some(f@),
                None => trace_result(
                    graph@,
                    old(self).visited_half_edges@.to_set(),
                    start,
                    next,
                ).0 is None,
            },
    {
        let ghost a = graph@;
        let ghost vis0 = self.visited_half_edges@.to_set();
        let mut face: Vec<usize> = Vec::new();
        let mut current = start;
        let mut incoming = next;
        self.visited_half_edges.push((start, next));
        face.push(start);
        let mut fuel = compute_budget(graph);
        proof {
            assert(self.visited_half_edges@.to_set() =~= vis0.insert((start, next)));
            assert(face@ =~= seq![start]);
        }
        let ghost target = trace_result(a, vis0, start, next);
        while fuel > 0
            invariant
                self.faces@ == old(self).faces@,
                trace_from(
                    a,
                    self.visited_half_edges@.to_set(),
                    current,
                    incoming,
                    start,
                    next,
                    face@,
                    fuel as nat,
                ) == target,
            decreases fuel,
        {
            match self.get_next_boundary_neighbor(graph, current, incoming) {
                None => {
                    return None;
                },
                Some(neighbor) => {
                    self.visited_half_edges.push((incoming, neighbor));
                    current = incoming;
                    incoming = neighbor;
                    if current == start && incoming == next {
                        return Some(face);
                    }
                    face.push(current);
                    fuel = fuel - 1;
                },
            }
        }
        None
    }

    /// Decomposes the whole graph: tries a trace from every half-edge not
    /// already consumed, in node order then stored neighbour order.
    /// Computes exactly `faces_model`, and in a well-formed graph every
    /// face node is a graph node.
    pub fn build_faces(&mut self, graph: &Graph)
        requires
            old(self).visited_half_edges@ == Seq::<(usize, usize)>::empty(),
            old(self).faces@ == Seq::<Face>::empty(),
        ensures
            seqs_of(final(self).faces@) == faces_model(graph@).0,
            final(self).visited_half_edges@.to_set() == faces_model(graph@).1,
    {
        let ghost a = graph@;
        let n = graph.node_count();
        proof {
            assert(self.visited_half_edges@.to_set() =~= Set::<(usize, usize)>::empty());
            assert(seqs_of(self.faces@) =~= Seq::<Seq<usize>>::empty());
        }
        for u in 0..n
            invariant
                faces_outer(a, u as int, seqs_of(self.faces@), self.visited_half_edges@.to_set())
                    == faces_model(a),
        {
            let neighbors = graph.get_neighbors(u);
            let ghost target_inner = faces_inner(
                a,
                u,
                0,
                seqs_of(self.faces@),
                self.visited_half_edges@.to_set(),
            );
            for k in 0..neighbors.len()
                invariant
                    neighbors@ == adj_of(a, u),
                    faces_inner(
                        a,
                        u,
                        k as int,
                        seqs_of(self.faces@),
                        self.visited_half_edges@.to_set(),
                    ) == target_inner,
                    faces_outer(a, u as int + 1, target_inner.0, target_inner.1) == faces_model(a),
            {
                let v = neighbors[k];
                if !half_edge_visited(&self.visited_half_edges, u, v) {
                    let ghost vis_pre = self.visited_half_edges@.to_set();
                    let ghost faces_pre = seqs_of(self.faces@);
                    match self.traverse_face_boundary(graph, u, v) {
                        Some(f) => {
                            let ghost fview = f@;
                            self.faces.push(f);
                            proof {
                                assert(seqs_of(self.faces@) =~= faces_pre.push(fview));
                            }
                        },
                        None => {},
                    }
                }
            }
        }
    }
}

} // verus!
