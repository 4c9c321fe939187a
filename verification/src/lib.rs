//! Longest simple path search over undirected graphs built from edge lists.
//!
//! The graph keeps an insertion-ordered adjacency structure (an implicit
//! rotation system), a face finder decomposes that rotation system into
//! closed boundary walks, and a branch-and-bound search uses the faces to
//! bound how far a partial path can still grow.
#![verifier::loop_isolation(false)]

use vstd::prelude::*;

pub mod faces;
pub mod graph;
pub mod search;

use crate::faces::faces_model;
use crate::faces::lemma_face_decomposition;
use crate::faces::FaceFinder;
use crate::graph::add_edge_model;
use crate::graph::grow;
use crate::graph::valid_adj;
use crate::graph::Graph;
use crate::search::is_simple_path;
use crate::search::lemma_search_from_props;
use crate::search::search_from;
use crate::search::PathFinder;

verus! {

/// The two user-visible failure kinds of the entry point.
#[derive(Debug, PartialEq, Eq, Structural, Clone, Copy)]
pub enum PathError {
    /// No edges were supplied.
    EmptyInput,
    /// The search produced an empty path (defensive; proved unreachable).
    NoPathFound,
}

/// Index of the first name whose text equals `l`, searching from `j`;
/// `names.len()` when there is none. A label's surrogate id.
pub open spec fn find_label(names: Seq<String>, l: Seq<char>, j: int) -> int
    decreases names.len() - j,
{
    if j < 0 || j >= names.len() {
        names.len() as int
    } else if names[j]@ == l {
        j
    } else {
        find_label(names, l, j + 1)
    }
}

/// The name table after seeing `lbl`: unchanged when known, extended by
/// one fresh id when new.
pub open spec fn intern_names(names: Seq<String>, lbl: String) -> Seq<String> {
    if find_label(names, lbl@, 0) < names.len() {
        names
    } else {
        names.push(lbl)
    }
}

/// One edge of the input folded into the name table and the adjacency:
/// both endpoints receive ids, both nodes exist, then the edge is added.
pub open spec fn build_step(names: Seq<String>, adj: Seq<Seq<usize>>, e: (String, String)) -> (
    Seq<String>,
    Seq<Seq<usize>>,
) {
    let fid = find_label(names, e.0@, 0);
    let names1 = intern_names(names, e.0);
    let tid = find_label(names1, e.1@, 0);
    let names2 = intern_names(names1, e.1);
    let g1 = grow(adj, fid + 1);
    let g2 = grow(g1, tid + 1);
    (names2, add_edge_model(g2, fid as usize, tid as usize))
}

/// The input edges from index `k` on folded into the state.
pub open spec fn build_from(
    edges: Seq<(String, String)>,
    k: int,
    names: Seq<String>,
    adj: Seq<Seq<usize>>,
) -> (Seq<String>, Seq<Seq<usize>>)
    decreases edges.len() - k,
{
    if k < 0 || k >= edges.len() {
        (names, adj)
    } else {
        let st = build_step(names, adj, edges[k]);
        build_from(edges, k + 1, st.0, st.1)
    }
}

/// Name table and adjacency built from the whole input.
pub open spec fn built(edges: Seq<(String, String)>) -> (Seq<String>, Seq<Seq<usize>>) {
    build_from(edges, 0, Seq::<String>::empty(), Seq::<Seq<usize>>::empty())
}

/// The graph the input describes.
pub open spec fn engine_adj(edges: Seq<(String, String)>) -> Seq<Seq<usize>> {
    built(edges).1
}

/// The label of each internal id, in order of first appearance.
pub open spec fn engine_names(edges: Seq<(String, String)>) -> Seq<String> {
    built(edges).0
}

/// The id path the full search returns on the built graph and its faces.
pub open spec fn engine_ids(edges: Seq<(String, String)>) -> Seq<usize> {
    search_from(
        engine_adj(edges),
        faces_model(engine_adj(edges)).0,
        Seq::<usize>::empty(),
        0,
    )
}

/// The label texts of the returned path, in path order.
pub open spec fn expected_labels(edges: Seq<(String, String)>) -> Seq<Seq<char>> {
    Seq::new(
        engine_ids(edges).len(),
        |i: int| engine_names(edges)[engine_ids(edges)[i] as int]@,
    )
}

/// No two ids carry the same label text.
pub open spec fn names_distinct(names: Seq<String>) -> bool {
    forall|i: int, j: int|
        0 <= i < j < names.len() ==> (#[trigger] names[i])@ != (#[trigger] names[j])@
}

/// `l` is the text of some endpoint label of the input.
pub open spec fn label_from_input(edges: Seq<(String, String)>, l: Seq<char>) -> bool {
    exists|k: int| 0 <= k < edges.len() && ((#[trigger] edges[k]).0@ == l || edges[k].1@ == l)
}

/// Every assigned name comes from the input.
pub open spec fn names_from_input(edges: Seq<(String, String)>, names: Seq<String>) -> bool {
    forall|i: int| 0 <= i < names.len() ==> label_from_input(edges, (#[trigger] names[i])@)
}

/// The labels `l1`, `l2` form an input edge, in either orientation.
pub open spec fn consecutive_from_input(
    edges: Seq<(String, String)>,
    l1: Seq<char>,
    l2: Seq<char>,
) -> bool {
    exists|k: int|
        0 <= k < edges.len() && {
            let e = #[trigger] edges[k];
            (e.0@ == l1 && e.1@ == l2) || (e.0@ == l2 && e.1@ == l1)
        }
}

/// Every stored adjacency entry corresponds to an input edge.
pub open spec fn adj_from_input(
    edges: Seq<(String, String)>,
    names: Seq<String>,
    adj: Seq<Seq<usize>>,
) -> bool {
    forall|u: int, j: int|
        0 <= u < adj.len() && 0 <= j < adj[u].len() ==> consecutive_from_input(
            edges,
            names[u]@,
            names[(#[trigger] adj[u][j]) as int]@,
        )
}

proof fn lemma_find_label_props(names: Seq<String>, l: Seq<char>, j: int)
    requires
        0 <= j <= names.len(),
    ensures
        j <= find_label(names, l, j) <= names.len(),
        find_label(names, l, j) < names.len() ==> names[find_label(names, l, j)]@ == l,
        forall|t: int| j <= t < find_label(names, l, j) ==> (#[trigger] names[t])@ != l,
    decreases names.len() - j,
{
    if j < names.len() {
        if names[j]@ == l {
        } else {
            lemma_find_label_props(names, l, j + 1);
        }
    }
}

proof fn lemma_grow_props(a: Seq<Seq<usize>>, n: int)
    requires
        valid_adj(a),
    ensures
        valid_adj(grow(a, n)),
        grow(a, n).len() >= a.len(),
        grow(a, n).len() >= n,
        forall|i: int| 0 <= i < a.len() ==> grow(a, n)[i] == a[i],
        forall|i: int| a.len() <= i < grow(a, n).len() ==> grow(a, n)[i] == Seq::<usize>::empty(),
{
}

proof fn lemma_add_edge_model_props(a: Seq<Seq<usize>>, from: usize, to: usize)
    requires
        valid_adj(a),
    ensures
        valid_adj(add_edge_model(a, from, to)),
        add_edge_model(a, from, to).len() >= a.len(),
        add_edge_model(a, from, to).len() >= from + 1,
        add_edge_model(a, from, to).len() >= to + 1,
        forall|u: int, j: int|
            0 <= u < add_edge_model(a, from, to).len() && 0 <= j < add_edge_model(
                a,
                from,
                to,
            )[u].len() ==> ((0 <= u < a.len() && j < a[u].len() && (#[trigger] add_edge_model(
                a,
                from,
                to,
            )[u][j]) == a[u][j]) || (u == from && add_edge_model(a, from, to)[u][j] == to) || (u
                == to && add_edge_model(a, from, to)[u][j] == from)),
{
    let g = grow(grow(a, from as int + 1), to as int + 1);
    lemma_grow_props(a, from as int + 1);
    lemma_grow_props(grow(a, from as int + 1), to as int + 1);
    let g1 = g.update(from as int, g[from as int].push(to));
    let g2 = g1.update(to as int, g1[to as int].push(from));
    assert(add_edge_model(a, from, to) == g2);
    assert forall|u: int, j: int|
        0 <= u < g2.len() && 0 <= j < g2[u].len() implies ((0 <= u < a.len() && j < a[u].len() && (
    #[trigger] g2[u][j]) == a[u][j]) || (u == from && g2[u][j] == to) || (u == to && g2[u][j]
        == from)) by {
        if u == to {
            if j < g1[to as int].len() {
                if u == from {
                    if j < g[u].len() {
                    }
                }
            }
        } else if u == from {
            if j < g[u].len() {
            }
        }
    }
    assert forall|u: int, j: int|
        0 <= u < g2.len() && 0 <= j < g2[u].len() implies ((#[trigger] g2[u][j]) as int)
        < g2.len() by {
    }
}

/// The build fold keeps the id assignment sound: names stay distinct and
/// drawn from the input, earlier ids keep their labels, the adjacency
/// stays well formed and never outgrows the name table, and every stored
/// adjacency entry corresponds to an input edge.
proof fn lemma_build_from_props(
    edges: Seq<(String, String)>,
    k: int,
    names: Seq<String>,
    adj: Seq<Seq<usize>>,
)
    requires
        0 <= k <= edges.len(),
        names.len() + 2 * (edges.len() - k) <= usize::MAX as int,
        names_distinct(names),
        names_from_input(edges, names),
        valid_adj(adj),
        adj.len() <= names.len(),
        adj_from_input(edges, names, adj),
    ensures
        ({
            let st = build_from(edges, k, names, adj);
            &&& names_distinct(st.0)
            &&& names_from_input(edges, st.0)
            &&& valid_adj(st.1)
            &&& st.1.len() <= st.0.len()
            &&& adj_from_input(edges, st.0, st.1)
            &&& names.len() <= st.0.len()
            &&& forall|i: int| 0 <= i < names.len() ==> st.0[i] == names[i]
        }),
    decreases edges.len() - k,
{
    if k < edges.len() {
        let e = edges[k];
        let fid = find_label(names, e.0@, 0);
        let names1 = intern_names(names, e.0);
        let tid = find_label(names1, e.1@, 0);
        let names2 = intern_names(names1, e.1);
        lemma_find_label_props(names, e.0@, 0);
        lemma_find_label_props(names1, e.1@, 0);
        assert(fid as usize as int == fid);
        assert(tid as usize as int == tid);
        assert(names_distinct(names1));
        assert(names_distinct(names2));
        assert(names_from_input(edges, names2)) by {
            assert(label_from_input(edges, e.0@));
            assert(label_from_input(edges, e.1@));
        }
        assert(names1[fid]@ == e.0@);
        assert(names2[fid]@ == e.0@);
        assert(names2[tid]@ == e.1@);
        let g1 = grow(adj, fid + 1);
        let g2 = grow(g1, tid + 1);
        lemma_grow_props(adj, fid + 1);
        lemma_grow_props(g1, tid + 1);
        lemma_add_edge_model_props(g2, fid as usize, tid as usize);
        let adj2 = add_edge_model(g2, fid as usize, tid as usize);
        assert(adj2.len() <= names2.len());
        assert(adj_from_input(edges, names2, adj2)) by {
            assert forall|u: int, j: int|
                0 <= u < adj2.len() && 0 <= j < adj2[u].len() implies consecutive_from_input(
                edges,
                names2[u]@,
                names2[(#[trigger] adj2[u][j]) as int]@,
            ) by {
                let v = adj2[u][j];
                if 0 <= u < g2.len() && j < g2[u].len() && v == g2[u][j] {
                    if u < adj.len() && j < adj[u].len() {
                        assert(consecutive_from_input(edges, names[u]@, names[v as int]@));
                        assert((v as int) < adj.len());
                        assert(names2[u]@ == names[u]@);
                        assert(names2[v as int]@ == names[v as int]@);
                    }
                } else if u == fid && v == tid as usize {
                    assert((e.0@ == names2[u]@ && e.1@ == names2[v as int]@));
                } else {
                    assert(u == tid && v == fid as usize);
                    assert((e.0@ == names2[v as int]@ && e.1@ == names2[u]@));
                }
            }
        }
        assert(names1.len() <= names.len() + 1);
        assert(names2.len() <= names1.len() + 1);
        lemma_build_from_props(edges, k + 1, names2, adj2);
        let st = build_from(edges, k, names, adj);
        assert(st == build_from(edges, k + 1, names2, adj2));
        assert forall|i: int| 0 <= i < names.len() implies st.0[i] == names[i] by {
            assert(st.0[i] == names2[i]);
            assert(names2[i] == names1[i]);
            assert(names1[i] == names[i]);
        }
    }
}

/// The first two testable laws of the output, at the model level: the
/// returned labels are pairwise distinct, each label occurs in the
/// input, and each consecutive pair of labels is an input edge in one of
/// its two orientations. The size bound is met by any edge list that
/// fits in memory.
pub proof fn lemma_output_labels_sound(edges: Seq<(String, String)>)
    requires
        2 * edges.len() <= usize::MAX as int,
    ensures
        forall|i: int, j: int|
            0 <= i < j < expected_labels(edges).len() ==> expected_labels(edges)[i]
                != expected_labels(edges)[j],
        forall|i: int|
            0 <= i < expected_labels(edges).len() ==> label_from_input(
                edges,
                #[trigger] expected_labels(edges)[i],
            ),
        forall|i: int|
            0 <= i < expected_labels(edges).len() - 1 ==> consecutive_from_input(
                edges,
                #[trigger] expected_labels(edges)[i],
                expected_labels(edges)[i + 1],
            ),
{
    lemma_build_from_props(
        edges,
        0,
        Seq::<String>::empty(),
        Seq::<Seq<usize>>::empty(),
    );
    let names = engine_names(edges);
    let a = engine_adj(edges);
    let ids = engine_ids(edges);
    lemma_search_from_props(a, faces_model(a).0, Seq::<usize>::empty(), 0);
    if ids.len() >= 1 {
        assert(is_simple_path(a, ids));
        assert forall|i: int, j: int|
            0 <= i < j < expected_labels(edges).len() implies expected_labels(edges)[i]
            != expected_labels(edges)[j] by {
            assert(ids[i] != ids[j]);
            assert((ids[i] as int) < a.len());
            assert((ids[j] as int) < a.len());
        }
        assert forall|i: int|
            0 <= i < expected_labels(edges).len() implies label_from_input(
            edges,
            #[trigger] expected_labels(edges)[i],
        ) by {
            assert((ids[i] as int) < a.len());
            assert(label_from_input(edges, names[ids[i] as int]@));
        }
        assert forall|i: int|
            0 <= i < expected_labels(edges).len() - 1 implies consecutive_from_input(
            edges,
            #[trigger] expected_labels(edges)[i],
            expected_labels(edges)[i + 1],
        ) by {
            assert(crate::graph::edge_in(a, ids[i], ids[i + 1]));
            let nbrs = crate::graph::adj_of(a, ids[i]);
            let w = choose|w: int| 0 <= w < nbrs.len() && nbrs[w] == ids[i + 1];
            assert(a[ids[i] as int][w] == ids[i + 1]);
            assert(consecutive_from_input(edges, names[ids[i] as int]@, names[ids[i + 1] as int]@));
        }
    }
}

/// The determinism law: the output the entry point promises is a
/// function of the input edge list alone, so two runs on the same input,
/// with the same label order, promise the same labels.
pub proof fn lemma_search_deterministic(
    edges1: Seq<(String, String)>,
    edges2: Seq<(String, String)>,
)
    requires
        edges1 == edges2,
    ensures
        expected_labels(edges1) == expected_labels(edges2),
{
}

/// Id of `label`, assigning the next fresh id on first sight.
fn intern_label(names: &mut Vec<String>, label: &String) -> (id: usize)
    ensures
        id as int == find_label(old(names)@, label@, 0),
        final(names)@ == intern_names(old(names)@, *label),
        (id as int) < final(names)@.len(),
        old(names)@.len() <= final(names)@.len(),
{
    let n = names.len();
    for j in 0..n
        invariant
            names@ == old(names)@,
            find_label(names@, label@, 0) == find_label(names@, label@, j as int),
    {
        if names[j] == *label {
            return j;
        }
    }
    let id = names.len();
    names.push(label.clone());
    id
}

/// Builds the graph from the labelled edge list, decomposes its faces,
/// runs the branch-and-bound search, and translates the winning id path
/// back to labels. Rejects an empty edge list with `EmptyInput`; any
/// nonempty input yields a path of at least one label. `NoPathFound` is
/// never returned: the check for it is proved dead.
pub fn find_longest_path(edges: Vec<(String, String)>) -> (r: Result<Vec<String>, PathError>)
    ensures
        match r {
            Ok(out) => {
                &&& edges@.len() > 0
                &&& out@.len() >= 1
                &&& out@.len() == expected_labels(edges@).len()
                &&& forall|i: int|
                    0 <= i < out@.len() ==> (#[trigger] out@[i]@) == expected_labels(edges@)[i]
            },
            Err(e) => edges@.len() == 0 && e == PathError::EmptyInput,
        },
{
    if edges.len() == 0 {
        return Err(PathError::EmptyInput);
    }
    let ghost es = edges@;
    let mut id_to_name: Vec<String> = Vec::new();
    let mut graph = Graph::new();
    proof {
        assert(graph@ =~= Seq::<Seq<usize>>::empty());
    }
    for k in 0..edges.len()
        invariant
            valid_adj(graph@),
            graph@.len() <= id_to_name@.len(),
            k > 0 ==> graph@.len() >= 1,
            build_from(es, k as int, id_to_name@, graph@) == built(es),
    {
        let ghost names0 = id_to_name@;
        let ghost adj0 = graph@;
        let e = &edges[k];
        let from_id = intern_label(&mut id_to_name, &e.0);
        let to_id = intern_label(&mut id_to_name, &e.1);
        proof {
            assert((to_id as int) < id_to_name@.len());
            assert((from_id as int) < id_to_name@.len());
        }
        graph.add_node(from_id);
        graph.add_node(to_id);
        graph.add_edge(from_id, to_id);
        proof {
            let st = build_step(names0, adj0, es[k as int]);
            assert(es[k as int] == (e.0, e.1));
            assert(id_to_name@ == st.0);
            assert(graph@ == st.1);
            assert(build_from(es, k as int, names0, adj0) == build_from(
                es,
                k as int + 1,
                id_to_name@,
                graph@,
            ));
            assert(graph@.len() >= from_id + 1);
            assert(graph@.len() <= id_to_name@.len());
        }
    }
    proof {
        assert((id_to_name@, graph@) == built(es));
    }
    let n = graph.node_count();
    let mut face_finder = FaceFinder::new();
    face_finder.build_faces(&graph);
    proof {
        lemma_face_decomposition(graph@);
    }
    let mut path_finder = PathFinder::new();
    let best_path_ids = path_finder.find_longest_path(&graph, &face_finder.faces);
    proof {
        assert(best_path_ids@ == engine_ids(es));
        lemma_search_from_props(graph@, faces_model(graph@).0, Seq::<usize>::empty(), 0);
        assert(best_path_ids@.len() >= 1);
        assert(is_simple_path(graph@, best_path_ids@));
    }
    if best_path_ids.len() == 0 {
        return Err(PathError::NoPathFound);
    }
    let mut best_path_names: Vec<String> = Vec::new();
    for i in 0..best_path_ids.len()
        invariant
            best_path_names@.len() == i as int,
            forall|t: int|
                0 <= t < i ==> #[trigger] best_path_names@[t] == id_to_name@[best_path_ids@[t] as int],
    {
        let id = best_path_ids[i];
        best_path_names.push(id_to_name[id].clone());
    }
    Ok(best_path_names)
}

} // verus!
