//! Consistent orientation of face windings by a breadth-first walk over the face adjacency graph.
use crate::edges::{
    edge_key, edge_multiplicity, edge_set, face_edge_list, face_edges, face_seqs,
    lemma_edge_key_injective, lemma_next_corner, lemma_push_contains, mesh_edges, next_corner,
    undirected,
};
use std::collections::HashMap;
use std::collections::VecDeque;
use vstd::prelude::*;

verus! {

broadcast use {
    vstd::std_specs::hash::group_hash_axioms,
    vstd::seq_lib::group_to_multiset_ensures,
};

/// Record of one face whose corner order was reversed.
pub struct FlipAudit {
    pub face_index: usize,
    pub old_winding: Vec<usize>,
    pub new_winding: Vec<usize>,
}

/// Faces `a` and `b` of the mesh share an undirected edge (faces with fewer than three corners
/// have no edges and are adjacent to nothing).
pub open spec fn adjacent(faces: Seq<Seq<usize>>, a: int, b: int) -> bool {
    &&& 0 <= a < faces.len()
    &&& 0 <= b < faces.len()
    &&& exists|e: (usize, usize)|
        #[trigger] face_edges(faces[a]).contains(e) && face_edges(faces[b]).contains(e)
}

/// Faces `a` and `b` walk some common side in opposite directions, as two neighbouring faces
/// of a consistently oriented surface do.
pub open spec fn walk_opposite(a: Seq<usize>, b: Seq<usize>) -> bool {
    exists|i: int, j: int|
        0 <= i < a.len() && 0 <= j < b.len() && #[trigger] a[i] == b[next_corner(j, b.len() as int)]
            && a[next_corner(i, a.len() as int)] == #[trigger] b[j]
}

/// The face as it stands after an optional reversal of its corner order.
pub open spec fn oriented_face(face: Seq<usize>, flip: bool) -> Seq<usize> {
    if flip {
        face.reverse()
    } else {
        face
    }
}

/// Indices of the faces named in a list of flip records.
pub open spec fn audit_indices(audits: Seq<FlipAudit>) -> Seq<int> {
    audits.map_values(|a: FlipAudit| a.face_index as int)
}

/// Every flip record names a distinct face with at least three corners, with its corner order
/// before (as given) and after (reversed) the flip.
pub open spec fn audits_well_formed(faces: Seq<Seq<usize>>, audits: Seq<FlipAudit>) -> bool {
    &&& audit_indices(audits).no_duplicates()
    &&& forall|t: int|
        0 <= t < audits.len() ==> {
            let k = #[trigger] audits[t].face_index as int;
            &&& 0 <= k < faces.len()
            &&& faces[k].len() >= 3
            &&& audits[t].old_winding@ == faces[k]
            &&& audits[t].new_winding@ == faces[k].reverse()
        }
}

/// Face `k` is attached to the walk: a root of its tree that kept its winding, or a face
/// reached from an earlier face `parent[k]` of the same tree across a shared edge, with the
/// two resulting faces walking that edge in opposite directions.
pub open spec fn tree_link(
    faces: Seq<Seq<usize>>,
    out: Seq<Seq<usize>>,
    flips: Seq<int>,
    parent: Seq<int>,
    rank: Seq<int>,
    root: Seq<int>,
    k: int,
) -> bool {
    &&& 0 <= root[k] <= k
    &&& 0 <= rank[k]
    &&& if parent[k] < 0 {
        root[k] == k && !flips.contains(k)
    } else {
        &&& parent[k] < faces.len()
        &&& rank[parent[k]] < rank[k]
        &&& root[parent[k]] == root[k]
        &&& adjacent(faces, parent[k], k)
        &&& walk_opposite(out[parent[k]], out[k])
        &&& decided_by_first_sides(out[parent[k]], faces[k], flips.contains(k))
    }
}

/// Side `j` of face `g` lies on the undirected edge `{u, v}`.
pub open spec fn side_on(g: Seq<usize>, j: int, u: usize, v: usize) -> bool {
    (g[j] == u && g[next_corner(j, g.len() as int)] == v) || (g[j] == v && g[next_corner(
        j,
        g.len() as int,
    )] == u)
}

/// The sides found first on both faces decide how the second face is turned.
proof fn lemma_first_sides_decide(a: Seq<usize>, g: Seq<usize>, i: int, j: int, same: bool)
    requires
        a.len() >= 3,
        0 <= i < a.len(),
        face_edges(g).contains(undirected(a[i], a[next_corner(i, a.len() as int)])),
        forall|i2: int| 0 <= i2 < i ==> !face_edges(g).contains(#[trigger] face_edges(a)[i2]),
        0 <= j < g.len(),
        same == (g[j] == a[i] && g[next_corner(j, g.len() as int)] == a[next_corner(
            i,
            a.len() as int,
        )]),
        same || (g[j] == a[next_corner(i, a.len() as int)] && g[next_corner(j, g.len() as int)]
            == a[i]),
        forall|k: int| 0 <= k < j ==> !#[trigger] side_on(g, k, a[i], a[next_corner(i, a.len() as int)]),
    ensures
        decided_by_first_sides(a, g, same),
{
    assert(face_edges(a)[i] == undirected(a[i], a[next_corner(i, a.len() as int)]));
    assert(first_side_into(a, g, i));
    assert(first_side_on(g, a[i], a[next_corner(i, a.len() as int)], j));
}

/// Side `i` is the first side of face `a` that lies on an edge of face `b`.
pub open spec fn first_side_into(a: Seq<usize>, b: Seq<usize>, i: int) -> bool {
    &&& a.len() >= 3
    &&& 0 <= i < a.len()
    &&& face_edges(b).contains(face_edges(a)[i])
    &&& forall|i2: int| 0 <= i2 < i ==> !face_edges(b).contains(#[trigger] face_edges(a)[i2])
}

/// Side `j` is the first side of face `g` that lies on the edge `{u, v}`.
pub open spec fn first_side_on(g: Seq<usize>, u: usize, v: usize, j: int) -> bool {
    &&& 0 <= j < g.len()
    &&& side_on(g, j, u, v)
    &&& forall|j2: int| 0 <= j2 < j ==> !#[trigger] side_on(g, j2, u, v)
}

/// How face `g` was turned when reached from face `a`: at the first side of `a` that lies on an
/// edge of `g`, walked from `u` to `v`, the first side of `g` on that edge decides; `g` is reversed
/// exactly when that side also runs from `u` to `v`.
pub open spec fn decided_by_first_sides(a: Seq<usize>, g: Seq<usize>, flip: bool) -> bool {
    exists|i: int, j: int|
        #[trigger] first_side_into(a, g, i) && #[trigger] first_side_on(
            g,
            a[i],
            a[next_corner(i, a.len() as int)],
            j,
        ) && flip == (g[j] == a[i] && g[next_corner(j, g.len() as int)] == a[next_corner(
            i,
            a.len() as int,
        )])
}

/// The face from which face `k` was reached: its parent, or the face itself for a root.
pub open spec fn reacher(parent: Seq<int>, k: int) -> int {
    if parent[k] < 0 {
        k
    } else {
        parent[k]
    }
}

/// The walk is breadth-first in the order `rank`: the ranks number the faces one to one, the
/// flips come in rank order, every face was reached from the neighbour that was taken up first
/// (a root from none: no neighbour comes before it), the trees come one after another in the
/// order of their roots, and the faces reached from an earlier face come earlier.
pub open spec fn breadth_first(
    faces: Seq<Seq<usize>>,
    flips: Seq<int>,
    parent: Seq<int>,
    rank: Seq<int>,
    root: Seq<int>,
) -> bool {
    &&& forall|k: int| 0 <= k < faces.len() ==> #[trigger] rank[k] < faces.len()
    &&& forall|a: int, b: int|
        0 <= a < faces.len() && 0 <= b < faces.len() && a != b ==> #[trigger] rank[a]
            != #[trigger] rank[b]
    &&& forall|t1: int, t2: int|
        0 <= t1 < t2 < flips.len() ==> rank[#[trigger] flips[t1]] < rank[#[trigger] flips[t2]]
    &&& forall|a: int, b: int| #[trigger] adjacent(faces, a, b) ==> rank[reacher(parent, b)] <= rank[a]
    &&& forall|a: int, b: int|
        0 <= a < faces.len() && 0 <= b < faces.len() && #[trigger] root[a] < #[trigger] root[b]
            ==> rank[a] < rank[b]
    &&& forall|a: int, b: int|
        0 <= a < faces.len() && 0 <= b < faces.len() && parent[a] >= 0 && parent[b] >= 0
            && rank[#[trigger] parent[a]] < rank[#[trigger] parent[b]] ==> rank[a] < rank[b]
}

/// Faces reached from the same face come in the order of the sides at which they were reached
/// (the first side of the parent that lies on one of their edges), and at the same side in face
/// order.
pub open spec fn siblings_ordered(
    faces: Seq<Seq<usize>>,
    out: Seq<Seq<usize>>,
    parent: Seq<int>,
    rank: Seq<int>,
) -> bool {
    forall|a: int, b: int, ia: int, ib: int|
        0 <= a < faces.len() && 0 <= b < faces.len() && parent[a] >= 0 && parent[b] == parent[a]
            && #[trigger] first_side_into(out[parent[a]], faces[a], ia) && #[trigger] first_side_into(
            out[parent[b]],
            faces[b],
            ib,
        ) && (ia < ib || (ia == ib && a < b)) ==> rank[a] < rank[b]
}

/// The faces `out` result from `faces` by the flips `flips`, along a breadth-first spanning
/// forest of the face adjacency graph whose trees are exactly its connected components, each
/// rooted at its smallest face.
pub open spec fn spanning_forest(
    faces: Seq<Seq<usize>>,
    out: Seq<Seq<usize>>,
    flips: Seq<int>,
    parent: Seq<int>,
    rank: Seq<int>,
    root: Seq<int>,
) -> bool {
    &&& parent.len() == faces.len()
    &&& rank.len() == faces.len()
    &&& root.len() == faces.len()
    &&& forall|k: int|
        0 <= k < faces.len() ==> #[trigger] tree_link(faces, out, flips, parent, rank, root, k)
    &&& forall|a: int, b: int| #[trigger] adjacent(faces, a, b) ==> root[a] == root[b]
    &&& breadth_first(faces, flips, parent, rank, root)
    &&& siblings_ordered(faces, out, parent, rank)
}

/// Some spanning forest of the face adjacency graph, as `spanning_forest` describes, explains
/// how `out` results from `faces` by the flips `flips`.
pub open spec fn has_spanning_forest(faces: Seq<Seq<usize>>, out: Seq<Seq<usize>>, flips: Seq<int>) -> bool {
    exists|parent: Seq<int>, rank: Seq<int>, root: Seq<int>|
        #[trigger] spanning_forest(faces, out, flips, parent, rank, root)
}

/// The table from undirected edges to the faces that have them.
struct EdgeFaces {
    ids: HashMap<u128, usize>,
    lists: Vec<Vec<usize>>,
    edge_of: Ghost<Seq<(usize, usize)>>,
}

impl EdgeFaces {
    /// Each edge's faces are listed in face order.
    spec fn sorted(&self) -> bool {
        forall|id: int, t1: int, t2: int|
            0 <= id < self.lists@.len() && 0 <= t1 < t2 < self.lists@[id]@.len() ==> #[trigger] self.lists@[id]@[t1]
                <= #[trigger] self.lists@[id]@[t2]
    }

    spec fn keys_ok(&self) -> bool {
        &&& self.lists@.len() == self.edge_of@.len()
        &&& forall|key: u128|
            #[trigger] self.ids@.contains_key(key) ==> self.ids@[key] < self.lists@.len()
                && edge_key(self.edge_of@[self.ids@[key] as int]) == key
        &&& forall|id: int|
            0 <= id < self.lists@.len() ==> #[trigger] self.ids@.contains_key(
                edge_key(self.edge_of@[id]),
            ) && self.ids@[edge_key(self.edge_of@[id])] == id
    }

    spec fn wf(&self, faces: Seq<Seq<usize>>) -> bool {
        &&& self.keys_ok()
        &&& self.sorted()
        &&& forall|x: int, e: (usize, usize)|
            0 <= x < faces.len() && #[trigger] face_edges(faces[x]).contains(e)
                ==> self.ids@.contains_key(#[trigger] edge_key(e))
        &&& forall|id: int, x: usize|
            0 <= id < self.lists@.len() ==> (#[trigger] self.lists@[id]@.contains(x) <==> (x
                < faces.len() && face_edges(faces[x as int]).contains(self.edge_of@[id])))
    }
}

proof fn lemma_ids_lookup(t: &EdgeFaces, e: (usize, usize))
    requires
        t.keys_ok(),
        t.ids@.contains_key(edge_key(e)),
    ensures
        t.edge_of@[t.ids@[edge_key(e)] as int] == e,
        t.ids@[edge_key(e)] < t.lists@.len(),
{
    lemma_edge_key_injective(t.edge_of@[t.ids@[edge_key(e)] as int], e);
}

/// Builds the table from each undirected edge to the faces that have it, in face order.
fn build_edge_faces(faces: &Vec<Vec<usize>>) -> (t: EdgeFaces)
    ensures
        t.wf(face_seqs(faces@)),
{
    let ghost fs = face_seqs(faces@);
    let mut t = EdgeFaces { ids: HashMap::new(), lists: Vec::new(), edge_of: Ghost(Seq::empty()) };
    let n = faces.len();
    for f in 0..n
        invariant
            n == faces@.len(),
            fs == face_seqs(faces@),
            t.keys_ok(),
            t.sorted(),
            forall|x: int, e: (usize, usize)|
                0 <= x < f && #[trigger] face_edges(fs[x]).contains(e) ==> t.ids@.contains_key(
                    #[trigger] edge_key(e),
                ),
            forall|id: int, x: usize|
                0 <= id < t.lists@.len() ==> (#[trigger] t.lists@[id]@.contains(x) <==> (x < f
                    && face_edges(fs[x as int]).contains(t.edge_of@[id]))),
    {
        let fe = face_edge_list(&faces[f]);
        assert(fe@ == face_edges(fs[f as int]));
        assert(fe@.take(0) =~= Seq::<(usize, usize)>::empty());
        for j in 0..fe.len()
            invariant
                n == faces@.len(),
                fs == face_seqs(faces@),
                f < n,
                fe@ == face_edges(fs[f as int]),
                t.keys_ok(),
                t.sorted(),
                forall|x: int, e: (usize, usize)|
                    0 <= x < f && #[trigger] face_edges(fs[x]).contains(e) ==> t.ids@.contains_key(
                        #[trigger] edge_key(e),
                    ),
                forall|k: int| 0 <= k < j ==> t.ids@.contains_key(#[trigger] edge_key(fe@[k])),
                forall|id: int, x: usize|
                    0 <= id < t.lists@.len() ==> (#[trigger] t.lists@[id]@.contains(x) <==> ((x
                        < f && face_edges(fs[x as int]).contains(t.edge_of@[id])) || (x == f
                        && fe@.take(j as int).contains(t.edge_of@[id])))),
        {
            let e = fe[j];
            assert(fe@.take(j + 1) =~= fe@.take(j as int).push(e));
            let key = crate::edges::make_edge_key(e);
            let ghost old_t_lists = t.lists@;
            let ghost old_ids = t.ids@;
            match t.ids.get(&key) {
                Some(id_ref) => {
                    let id = *id_ref;
                    proof {
                        lemma_ids_lookup(&t, e);
                    }
                    assert(t.ids@.contains_key(key));
                    proof {
                        assert forall|t1: int| 0 <= t1 < old_t_lists[id as int]@.len() implies old_t_lists[id as int]@[t1]
                            <= f by {
                            assert(old_t_lists[id as int]@.contains(old_t_lists[id as int]@[t1]));
                        }
                    }
                    t.lists[id].push(f);
                    assert(t.ids@ == old_ids);
                    assert forall|id2: int, t1: int, t2: int|
                        0 <= id2 < t.lists@.len() && 0 <= t1 < t2 < t.lists@[id2]@.len() implies #[trigger] t.lists@[id2]@[t1]
                        <= #[trigger] t.lists@[id2]@[t2] by {
                        if id2 != id {
                            assert(t.lists@[id2] == old_t_lists[id2]);
                        } else if t2 < old_t_lists[id2]@.len() {
                            assert(t.lists@[id2]@[t1] == old_t_lists[id2]@[t1]);
                            assert(t.lists@[id2]@[t2] == old_t_lists[id2]@[t2]);
                        } else {
                            assert(t.lists@[id2]@[t1] == old_t_lists[id2]@[t1]);
                        }
                    }
                    assert forall|id2: int, x: usize|
                        0 <= id2 < t.lists@.len() implies (#[trigger] t.lists@[id2]@.contains(x)
                        <==> ((x < f && face_edges(fs[x as int]).contains(t.edge_of@[id2])) || (x
                        == f && fe@.take(j + 1).contains(t.edge_of@[id2])))) by {
                        lemma_push_contains(fe@.take(j as int), e, t.edge_of@[id2]);
                        if id2 == id {
                            lemma_push_contains(old_t_lists[id2]@, f, x);
                        } else {
                            assert(t.lists@[id2] == old_t_lists[id2]);
                            if t.edge_of@[id2] == e {
                                assert(t.ids@[edge_key(t.edge_of@[id2])] == id2);
                            }
                        }
                    }
                },
                None => {
                    let ghost old_edge_of = t.edge_of@;
                    let id = t.lists.len();
                    t.ids.insert(key, id);
                    let mut fresh: Vec<usize> = Vec::new();
                    fresh.push(f);
                    t.lists.push(fresh);
                    proof {
                        t.edge_of@ = t.edge_of@.push(e);
                    }
                    assert forall|id2: int, t1: int, t2: int|
                        0 <= id2 < t.lists@.len() && 0 <= t1 < t2 < t.lists@[id2]@.len() implies #[trigger] t.lists@[id2]@[t1]
                        <= #[trigger] t.lists@[id2]@[t2] by {
                        if id2 != id {
                            assert(t.lists@[id2] == old_t_lists[id2]);
                        }
                    }
                    assert forall|key2: u128| #[trigger] t.ids@.contains_key(key2) implies t.ids@[key2]
                        < t.lists@.len() && edge_key(t.edge_of@[t.ids@[key2] as int]) == key2 by {
                        if key2 != key {
                            assert(old_ids.contains_key(key2));
                        }
                    }
                    assert forall|id2: int| 0 <= id2 < t.lists@.len() implies #[trigger] t.ids@.contains_key(
                        edge_key(t.edge_of@[id2]),
                    ) && t.ids@[edge_key(t.edge_of@[id2])] == id2 by {
                        if id2 < id {
                            assert(t.edge_of@[id2] == old_edge_of[id2]);
                            assert(old_ids.contains_key(edge_key(old_edge_of[id2])));
                            assert(old_ids[edge_key(old_edge_of[id2])] == id2);
                            assert(edge_key(t.edge_of@[id2]) != key);
                        } else {
                            assert(t.edge_of@[id2] == e);
                        }
                    }
                    assert forall|id2: int, x: usize|
                        0 <= id2 < t.lists@.len() implies (#[trigger] t.lists@[id2]@.contains(x)
                        <==> ((x < f && face_edges(fs[x as int]).contains(t.edge_of@[id2])) || (x
                        == f && fe@.take(j + 1).contains(t.edge_of@[id2])))) by {
                        lemma_push_contains(fe@.take(j as int), e, t.edge_of@[id2]);
                        if id2 == id {
                            lemma_push_contains(Seq::<usize>::empty(), f, x);
                            assert(t.lists@[id2]@ =~= Seq::<usize>::empty().push(f));
                            if x < f && face_edges(fs[x as int]).contains(e) {
                                assert(old_ids.contains_key(edge_key(e)));
                            }
                            if fe@.take(j as int).contains(e) {
                                assert(old_ids.contains_key(edge_key(e)));
                            }
                        } else {
                            assert(t.lists@[id2] == old_t_lists[id2]);
                            if t.edge_of@[id2] == e {
                                assert(old_ids.contains_key(edge_key(e)));
                            }
                        }
                    }
                },
            }
        }
        assert(fe@.take(fe@.len() as int) =~= fe@);
        assert forall|x: int, e: (usize, usize)|
            0 <= x < f + 1 && #[trigger] face_edges(fs[x]).contains(e) implies t.ids@.contains_key(
            #[trigger] edge_key(e),
        ) by {
            if x == f {
                let k = choose|k: int| 0 <= k < fe@.len() && fe@[k] == e;
                assert(t.ids@.contains_key(edge_key(fe@[k])));
            }
        }
        assert forall|id: int, x: usize|
            0 <= id < t.lists@.len() implies (#[trigger] t.lists@[id]@.contains(x) <==> (x < f + 1
            && face_edges(fs[x as int]).contains(t.edge_of@[id]))) by {
            if x == f {
                assert(fs[x as int] == fs[f as int]);
            }
        }
    }
    t
}


pub proof fn lemma_undirected_symmetric(a: usize, b: usize)
    ensures
        undirected(a, b) == undirected(b, a),
{
}

proof fn lemma_reverse_edges_one_way(f: Seq<usize>, e: (usize, usize))
    requires
        face_edges(f).contains(e),
    ensures
        face_edges(f.reverse()).contains(e),
{
    let m = f.len() as int;
    let r = f.reverse();
    let i = choose|i: int| 0 <= i < face_edges(f).len() && face_edges(f)[i] == e;
    assert(m >= 3);
    assert(r.len() == m);
    if i < m - 1 {
        let k = m - 2 - i;
        assert(r[k] == f[i + 1]);
        assert(r[k + 1] == f[i]);
        lemma_next_corner(k, m);
        lemma_next_corner(i, m);
        lemma_undirected_symmetric(f[i], f[i + 1]);
        assert(face_edges(r)[k] == e);
    } else {
        let k = m - 1;
        assert(r[k] == f[0]);
        assert(r[0] == f[m - 1]);
        lemma_next_corner(k, m);
        lemma_next_corner(i, m);
        lemma_undirected_symmetric(f[m - 1], f[0]);
        assert(face_edges(r)[k] == e);
    }
}

/// Reversing a face keeps its undirected edges.
pub proof fn lemma_reverse_edges(f: Seq<usize>, e: (usize, usize))
    ensures
        face_edges(f.reverse()).contains(e) <==> face_edges(f).contains(e),
{
    if face_edges(f).contains(e) {
        lemma_reverse_edges_one_way(f, e);
    }
    if face_edges(f.reverse()).contains(e) {
        lemma_reverse_edges_one_way(f.reverse(), e);
        assert(f.reverse().reverse() =~= f);
    }
}

proof fn lemma_oriented_edges(f: Seq<usize>, flip: bool, e: (usize, usize))
    ensures
        face_edges(oriented_face(f, flip)).contains(e) <==> face_edges(f).contains(e),
{
    lemma_reverse_edges(f, e);
}

/// A face that has the undirected edge `{u, v}` walks it one way or the other at some side.
proof fn lemma_side_exists(g: Seq<usize>, u: usize, v: usize)
    requires
        face_edges(g).contains(undirected(u, v)),
    ensures
        exists|j: int|
            0 <= j < g.len() && ((g[j] == u && g[next_corner(j, g.len() as int)] == v) || (g[j]
                == v && g[next_corner(j, g.len() as int)] == u)),
{
    let j = choose|j: int|
        0 <= j < face_edges(g).len() && face_edges(g)[j] == undirected(u, v);
    assert(g[j] == u && g[next_corner(j, g.len() as int)] == v || g[j] == v && g[next_corner(
        j,
        g.len() as int,
    )] == u);
}

/// A neighbour that walks the side `(u, v)` the same way as `a` walks it opposite once reversed.
proof fn lemma_flip_orients(a: Seq<usize>, i: int, g: Seq<usize>, j: int)
    requires
        0 <= i < a.len(),
        0 <= j < g.len(),
        g[j] == a[i],
        g[next_corner(j, g.len() as int)] == a[next_corner(i, a.len() as int)],
    ensures
        walk_opposite(a, g.reverse()),
{
    let m = g.len() as int;
    let b = g.reverse();
    if j == m - 1 {
        let k = m - 1;
        lemma_next_corner(k, m);
        lemma_next_corner(j, m);
        assert(b[k] == g[0]);
        assert(b[0] == g[m - 1]);
        assert(a[i] == b[next_corner(k, m)] && a[next_corner(i, a.len() as int)] == b[k]);
    } else {
        let k = m - 2 - j;
        lemma_next_corner(j, m);
        lemma_next_corner(k, m);
        assert(b[k] == g[j + 1]);
        assert(b[k + 1] == g[j]);
        assert(a[i] == b[next_corner(k, m)] && a[next_corner(i, a.len() as int)] == b[k]);
    }
}

/// A neighbour that walks the side `(u, v)` the other way already walks it opposite to `a`.
proof fn lemma_kept_orients(a: Seq<usize>, i: int, g: Seq<usize>, j: int)
    requires
        0 <= i < a.len(),
        0 <= j < g.len(),
        g[j] == a[next_corner(i, a.len() as int)],
        g[next_corner(j, g.len() as int)] == a[i],
    ensures
        walk_opposite(a, g),
{
    assert(a[i] == g[next_corner(j, g.len() as int)] && a[next_corner(i, a.len() as int)] == g[j]);
}

/// The first side of `face` that lies on the undirected edge `{u, v}`, and whether the face walks
/// it from `u` to `v`.
fn find_shared_side(face: &Vec<usize>, u: usize, v: usize) -> (found: Option<(usize, bool)>)
    ensures
        match found {
            Some((j, same)) => {
                &&& j < face@.len()
                &&& forall|k: int| 0 <= k < j ==> !#[trigger] side_on(face@, k, u, v)
                &&& same == (face@[j as int] == u && face@[next_corner(
                    j as int,
                    face@.len() as int,
                )] == v)
                &&& same || (face@[j as int] == v && face@[next_corner(
                    j as int,
                    face@.len() as int,
                )] == u)
            },
            None => forall|j: int|
                0 <= j < face@.len() ==> !((face@[j] == u && face@[next_corner(
                    j,
                    face@.len() as int,
                )] == v) || (face@[j] == v && face@[next_corner(j, face@.len() as int)] == u)),
        },
{
    let n_len = face.len();
    let mut j: usize = 0;
    while j < n_len
        invariant
            n_len == face@.len(),
            j <= n_len,
            forall|k: int|
                0 <= k < j ==> !((face@[k] == u && face@[next_corner(k, n_len as int)] == v) || (
                face@[k] == v && face@[next_corner(k, n_len as int)] == u)),
        decreases n_len - j,
    {
        let nu = face[j];
        let nv = face[(j + 1) % n_len];
        if (nu == u && nv == v) || (nu == v && nv == u) {
            let same = nu == u && nv == v;
            return Some((j, same));
        }
        j = j + 1;
    }
    None
}

/// A copy of a face with its corner order reversed.
fn reversed_face(face: &Vec<usize>) -> (rev: Vec<usize>)
    ensures
        rev@ == face@.reverse(),
{
    let n = face.len();
    let mut rev: Vec<usize> = Vec::new();
    for k in 0..n
        invariant
            n == face@.len(),
            rev@.len() == k,
            forall|m: int| 0 <= m < k ==> #[trigger] rev@[m] == face@[n - 1 - m],
    {
        rev.push(face[n - 1 - k]);
    }
    assert(rev@ =~= face@.reverse());
    rev
}

/// A copy of a face.
fn copy_face(face: &Vec<usize>) -> (copy: Vec<usize>)
    ensures
        copy@ == face@,
{
    let mut copy: Vec<usize> = Vec::new();
    for k in 0..face.len()
        invariant
            copy@ == face@.take(k as int),
    {
        copy.push(face[k]);
        assert(copy@ =~= face@.take(k + 1));
    }
    assert(face@.take(face@.len() as int) =~= face@);
    copy
}

proof fn lemma_link_frame(
    fs: Seq<Seq<usize>>,
    cur1: Seq<Seq<usize>>,
    flips1: Seq<int>,
    parent1: Seq<int>,
    rank1: Seq<int>,
    root1: Seq<int>,
    cur2: Seq<Seq<usize>>,
    flips2: Seq<int>,
    parent2: Seq<int>,
    rank2: Seq<int>,
    root2: Seq<int>,
    k: int,
)
    requires
        tree_link(fs, cur1, flips1, parent1, rank1, root1, k),
        parent2[k] == parent1[k],
        root2[k] == root1[k],
        rank2[k] == rank1[k],
        flips2.contains(k) == flips1.contains(k),
        cur2[k] == cur1[k],
        parent1[k] >= 0 ==> rank2[parent1[k]] == rank1[parent1[k]] && root2[parent1[k]]
            == root1[parent1[k]] && cur2[parent1[k]] == cur1[parent1[k]],
    ensures
        tree_link(fs, cur2, flips2, parent2, rank2, root2, k),
{
}


/// The ranks of the faces reached so far are distinct, the flips come in rank order, and each
/// reached face comes no earlier than the root of its tree.
#[verifier::opaque]
spec fn ranks_ok(visited: Seq<bool>, flips: Seq<int>, rank: Seq<int>, root: Seq<int>) -> bool {
    let n = visited.len();
    &&& forall|a: int, b: int|
        0 <= a < n && 0 <= b < n && visited[a] && visited[b] && a != b ==> #[trigger] rank[a]
            != #[trigger] rank[b]
    &&& forall|t1: int, t2: int|
        0 <= t1 < t2 < flips.len() ==> rank[#[trigger] flips[t1]] < rank[#[trigger] flips[t2]]
    &&& forall|k: int|
        0 <= k < n && #[trigger] visited[k] ==> 0 <= root[k] < n && visited[root[k]] && rank[root[k]] <= rank[k]
}

/// Among the faces reached so far, the trees come one after another in the order of their roots,
/// and faces reached from an earlier face come earlier.
#[verifier::opaque]
spec fn levels_ok(visited: Seq<bool>, parent: Seq<int>, rank: Seq<int>, root: Seq<int>) -> bool {
    let n = visited.len();
    &&& forall|a: int, b: int|
        0 <= a < n && 0 <= b < n && visited[a] && visited[b] && #[trigger] root[a] < #[trigger] root[b]
            ==> rank[a] < rank[b]
    &&& forall|a: int, b: int|
        0 <= a < n && 0 <= b < n && visited[a] && visited[b] && parent[a] >= 0 && parent[b] >= 0
            && rank[#[trigger] parent[a]] < rank[#[trigger] parent[b]] ==> rank[a] < rank[b]
}

/// Reaching face `g` with the next rank, from `pv` (or from none), in the tree rooted at `s`, keeps
/// the trees and the levels in order, provided `s` is the last root so far and no face was reached
/// from a face taken up after `pv`.
#[verifier::spinoff_prover]
proof fn lemma_levels_visit(
    visited0: Seq<bool>,
    parent0: Seq<int>,
    rank0: Seq<int>,
    root0: Seq<int>,
    count0: int,
    g: int,
    pv: int,
    s: int,
)
    requires
        levels_ok(visited0, parent0, rank0, root0),
        0 <= g < visited0.len(),
        !visited0[g],
        parent0.len() == visited0.len(),
        rank0.len() == visited0.len(),
        root0.len() == visited0.len(),
        forall|k: int|
            0 <= k < visited0.len() && #[trigger] visited0[k] ==> 0 <= rank0[k] < count0 && root0[k]
                <= s && (parent0[k] >= 0 ==> 0 <= parent0[k] < visited0.len() && visited0[parent0[k]]),
        pv < 0 || (0 <= pv < visited0.len() && visited0[pv] && forall|k: int|
            0 <= k < visited0.len() && #[trigger] visited0[k] && parent0[k] >= 0 ==> rank0[parent0[k]]
                <= rank0[pv]),
    ensures
        levels_ok(
            visited0.update(g, true),
            parent0.update(g, pv),
            rank0.update(g, count0),
            root0.update(g, s),
        ),
{
    reveal(levels_ok);
    let n = visited0.len();
    let visited1 = visited0.update(g, true);
    let parent1 = parent0.update(g, pv);
    let rank1 = rank0.update(g, count0);
    let root1 = root0.update(g, s);
    assert forall|a: int, b: int|
        0 <= a < n && 0 <= b < n && visited1[a] && visited1[b] && #[trigger] root1[a]
            < #[trigger] root1[b] implies rank1[a] < rank1[b] by {
        if a != g && b != g {
            assert(visited0[a] && visited0[b]);
        } else if a == g {
            if b != g {
                assert(visited0[b]);
            }
        } else {
            assert(visited0[a]);
        }
    }
    assert forall|a: int, b: int|
        0 <= a < n && 0 <= b < n && visited1[a] && visited1[b] && parent1[a] >= 0 && parent1[b] >= 0
            && rank1[#[trigger] parent1[a]] < rank1[#[trigger] parent1[b]] implies rank1[a]
        < rank1[b] by {
        if a != g && b != g {
            assert(visited0[a] && visited0[b]);
            assert(visited0[parent0[a]] && visited0[parent0[b]]);
        } else if a == g {
            if b != g {
                assert(visited0[b]);
                assert(visited0[parent0[b]]);
                assert(rank0[parent0[b]] <= rank0[pv]);
            }
        } else {
            assert(visited0[a]);
        }
    }
}

/// Distinct reached faces have distinct ranks.
proof fn lemma_rank_injective(
    visited: Seq<bool>,
    flips: Seq<int>,
    rank: Seq<int>,
    root: Seq<int>,
    a: int,
    b: int,
)
    requires
        ranks_ok(visited, flips, rank, root),
        0 <= a < visited.len(),
        0 <= b < visited.len(),
        visited[a],
        visited[b],
        a != b,
    ensures
        rank[a] != rank[b],
{
    reveal(ranks_ok);
}

/// The root of a reached face's tree was reached no later than the face.
proof fn lemma_root_first(visited: Seq<bool>, flips: Seq<int>, rank: Seq<int>, root: Seq<int>, k: int)
    requires
        ranks_ok(visited, flips, rank, root),
        0 <= k < visited.len(),
        visited[k],
    ensures
        rank[root[k]] <= rank[k],
{
    reveal(ranks_ok);
}

/// A reached face that is neither waiting nor the face `c` taken up last was taken up before `c`.
#[verifier::spinoff_prover]
proof fn lemma_taken_up_before(
    visited: Seq<bool>,
    flips: Seq<int>,
    parent: Seq<int>,
    rank: Seq<int>,
    root: Seq<int>,
    queue: Seq<usize>,
    count: int,
    c: int,
    p: int,
)
    requires
        queue_ranked(visited, parent, rank, queue, count),
        ranks_ok(visited, flips, rank, root),
        visited.len() <= usize::MAX,
        0 <= c < visited.len(),
        visited[c],
        rank[c] == count - queue.len() - 1,
        0 <= p < visited.len(),
        visited[p],
        !queue.contains(p as usize),
        0 <= rank[p] < count,
        forall|q: int|
            0 <= q < queue.len() ==> #[trigger] queue[q] < visited.len() && visited[queue[q] as int],
    ensures
        p == c || rank[p] < rank[c],
{
    if p != c && rank[p] >= rank[c] {
        lemma_rank_injective(visited, flips, rank, root, p, c);
        reveal(queue_ranked);
        let q = rank[p] - (count - queue.len());
        assert(0 <= q < queue.len());
        assert(rank[queue[q] as int] == rank[p]);
        assert(visited[queue[q] as int]);
        assert(queue[q] as int != p) by {
            assert(queue.contains(queue[q]));
        }
        lemma_rank_injective(visited, flips, rank, root, p, queue[q] as int);
    }
}

/// The faces reached from a face: every face reached so far was reached from a face taken up no
/// later than `c`, the face taken up last.
proof fn lemma_parents_before(
    visited: Seq<bool>,
    flips: Seq<int>,
    parent: Seq<int>,
    rank: Seq<int>,
    root: Seq<int>,
    queue: Seq<usize>,
    count: int,
    c: int,
)
    requires
        queue_ranked(visited, parent, rank, queue, count),
        ranks_ok(visited, flips, rank, root),
        visited.len() <= usize::MAX,
        0 <= c < visited.len(),
        visited[c],
        !queue.contains(c as usize),
        rank[c] == count - queue.len() - 1,
        forall|q: int|
            0 <= q < queue.len() ==> #[trigger] queue[q] < visited.len() && visited[queue[q] as int],
        forall|k: int|
            0 <= k < visited.len() && #[trigger] visited[k] ==> 0 <= rank[k] < count && (parent[k] >= 0
                ==> 0 <= parent[k] < visited.len() && visited[parent[k]]),
    ensures
        forall|k: int|
            0 <= k < visited.len() && #[trigger] visited[k] && parent[k] >= 0 ==> rank[parent[k]]
                <= rank[c],
{
    assert forall|k: int| 0 <= k < visited.len() && #[trigger] visited[k] && parent[k] >= 0 implies rank[parent[k]]
        <= rank[c] by {
        let p = parent[k];
        assert(visited[p]);
        assert(!queue.contains(p as usize)) by {
            reveal(queue_ranked);
        }
        lemma_taken_up_before(visited, flips, parent, rank, root, queue, count, c, p);
    }
}

/// Among the faces reached so far, faces reached from the same face are in side order and then
/// in face order.
#[verifier::opaque]
spec fn siblings_ok(
    fs: Seq<Seq<usize>>,
    out: Seq<Seq<usize>>,
    visited: Seq<bool>,
    parent: Seq<int>,
    rank: Seq<int>,
) -> bool {
    forall|a: int, b: int, ia: int, ib: int|
        0 <= a < fs.len() && 0 <= b < fs.len() && visited[a] && visited[b] && parent[a] >= 0
            && parent[b] == parent[a] && #[trigger] first_side_into(out[parent[a]], fs[a], ia)
            && #[trigger] first_side_into(out[parent[b]], fs[b], ib) && (ia < ib || (ia == ib && a
            < b)) ==> rank[a] < rank[b]
}

/// A face has at most one first side into another face.
proof fn lemma_first_side_unique(a: Seq<usize>, b: Seq<usize>, i1: int, i2: int)
    requires
        first_side_into(a, b, i1),
        first_side_into(a, b, i2),
    ensures
        i1 == i2,
{
    if i1 < i2 {
        assert(!face_edges(b).contains(face_edges(a)[i1]));
    }
    if i2 < i1 {
        assert(!face_edges(b).contains(face_edges(a)[i2]));
    }
}

/// Reaching face `g` from `pv` (or from none) at side `i` of `pv`, after every face reached from
/// `pv` so far was reached at an earlier side or at side `i` with a smaller index, keeps the faces
/// reached from a face in order.
#[verifier::spinoff_prover]
proof fn lemma_siblings_visit(
    fs: Seq<Seq<usize>>,
    out0: Seq<Seq<usize>>,
    visited0: Seq<bool>,
    parent0: Seq<int>,
    rank0: Seq<int>,
    count0: int,
    g: int,
    pv: int,
    i: int,
    out1: Seq<Seq<usize>>,
)
    requires
        siblings_ok(fs, out0, visited0, parent0, rank0),
        visited0.len() == fs.len(),
        parent0.len() == fs.len(),
        rank0.len() == fs.len(),
        out0.len() == fs.len(),
        out1.len() == fs.len(),
        0 <= g < fs.len(),
        !visited0[g],
        forall|k: int| 0 <= k < fs.len() && k != g ==> #[trigger] out1[k] == out0[k],
        forall|k: int|
            0 <= k < fs.len() && #[trigger] visited0[k] ==> 0 <= rank0[k] < count0 && (parent0[k] >= 0
                ==> 0 <= parent0[k] < fs.len() && visited0[parent0[k]]),
        pv < 0 || (0 <= pv < fs.len() && visited0[pv] && first_side_into(out0[pv], fs[g], i)
            && forall|a: int|
            0 <= a < fs.len() && #[trigger] visited0[a] && parent0[a] == pv ==> exists|ia: int|
                #[trigger] first_side_into(out0[pv], fs[a], ia) && (ia < i || (ia == i && a < g))),
    ensures
        siblings_ok(
            fs,
            out1,
            visited0.update(g, true),
            parent0.update(g, pv),
            rank0.update(g, count0),
        ),
{
    reveal(siblings_ok);
    let visited1 = visited0.update(g, true);
    let parent1 = parent0.update(g, pv);
    let rank1 = rank0.update(g, count0);
    assert forall|a: int, b: int, ia: int, ib: int|
        0 <= a < fs.len() && 0 <= b < fs.len() && visited1[a] && visited1[b] && parent1[a] >= 0
            && parent1[b] == parent1[a] && #[trigger] first_side_into(out1[parent1[a]], fs[a], ia)
            && #[trigger] first_side_into(out1[parent1[b]], fs[b], ib) && (ia < ib || (ia == ib && a
            < b)) implies rank1[a] < rank1[b] by {
        if a != g && b != g {
            assert(visited0[a] && visited0[b]);
            assert(visited0[parent0[a]]);
            assert(out1[parent0[a]] == out0[parent0[a]]);
            assert(first_side_into(out0[parent0[a]], fs[a], ia));
            assert(first_side_into(out0[parent0[b]], fs[b], ib));
        } else if a == g && b != g {
            assert(visited0[b]);
            assert(parent0[b] == pv);
            assert(out1[pv] == out0[pv]);
            lemma_first_side_unique(out0[pv], fs[g], ia, i);
            let ib2 = choose|ib2: int|
                #[trigger] first_side_into(out0[pv], fs[b], ib2) && (ib2 < i || (ib2 == i && b < g));
            lemma_first_side_unique(out0[pv], fs[b], ib, ib2);
        } else if a != g && b == g {
            assert(visited0[a]);
        } else {
            lemma_first_side_unique(out1[pv], fs[g], ia, ib);
        }
    }
}

/// Before the walk, nothing has been reached from anything.
proof fn lemma_siblings_start(
    fs: Seq<Seq<usize>>,
    out: Seq<Seq<usize>>,
    visited: Seq<bool>,
    parent: Seq<int>,
    rank: Seq<int>,
)
    requires
        visited.len() == fs.len(),
        forall|k: int| 0 <= k < visited.len() ==> !visited[k],
    ensures
        siblings_ok(fs, out, visited, parent, rank),
{
    reveal(siblings_ok);
}

/// After the walk, every face has been reached: faces reached from the same face are in order.
proof fn lemma_siblings_end(
    fs: Seq<Seq<usize>>,
    out: Seq<Seq<usize>>,
    visited: Seq<bool>,
    parent: Seq<int>,
    rank: Seq<int>,
)
    requires
        visited.len() == fs.len(),
        forall|k: int| 0 <= k < visited.len() ==> visited[k],
        siblings_ok(fs, out, visited, parent, rank),
    ensures
        siblings_ordered(fs, out, parent, rank),
{
    reveal(siblings_ok);
    assert forall|a: int, b: int, ia: int, ib: int|
        0 <= a < fs.len() && 0 <= b < fs.len() && parent[a] >= 0 && parent[b] == parent[a]
            && #[trigger] first_side_into(out[parent[a]], fs[a], ia) && #[trigger] first_side_into(
            out[parent[b]],
            fs[b],
            ib,
        ) && (ia < ib || (ia == ib && a < b)) implies rank[a] < rank[b] by {
        assert(visited[a] && visited[b]);
    }
}

/// The queue holds the faces reached last, in the order of their ranks, and no reached face was
/// reached from a face still waiting.
#[verifier::opaque]
spec fn queue_ranked(
    visited: Seq<bool>,
    parent: Seq<int>,
    rank: Seq<int>,
    queue: Seq<usize>,
    count: int,
) -> bool {
    &&& forall|q: int|
        0 <= q < queue.len() ==> #[trigger] rank[queue[q] as int] == count - queue.len() + q
    &&& forall|k: int|
        0 <= k < visited.len() && #[trigger] visited[k] && parent[k] >= 0 ==> !queue.contains(
            parent[k] as usize,
        )
}

/// Every neighbour of a face already taken up from the queue (other than `curr`) was reached
/// from a face taken up no later.
#[verifier::opaque]
spec fn reached_first(
    fs: Seq<Seq<usize>>,
    visited: Seq<bool>,
    parent: Seq<int>,
    rank: Seq<int>,
    queue: Seq<usize>,
    curr: int,
) -> bool {
    forall|a: int, b: int|
        0 <= a < fs.len() && visited[a] && !queue.contains(a as usize) && a != curr
            && #[trigger] adjacent(fs, a, b) ==> rank[reacher(parent, b)] <= rank[a]
}

/// Pushing a newly reached face `g`, reached from `pv` (or from none when `pv` is negative), keeps
/// the queue in rank order.
#[verifier::spinoff_prover]
proof fn lemma_queue_push(
    visited0: Seq<bool>,
    parent0: Seq<int>,
    rank0: Seq<int>,
    queue0: Seq<usize>,
    count0: int,
    g: usize,
    pv: int,
)
    requires
        queue_ranked(visited0, parent0, rank0, queue0, count0),
        visited0.len() <= usize::MAX,
        g < visited0.len(),
        !visited0[g as int],
        parent0.len() == visited0.len(),
        rank0.len() == visited0.len(),
        forall|k: int|
            0 <= k < visited0.len() && #[trigger] visited0[k] && parent0[k] >= 0 ==> 0 <= parent0[k]
                < visited0.len() && visited0[parent0[k]],
        forall|q: int|
            0 <= q < queue0.len() ==> #[trigger] queue0[q] < visited0.len() && visited0[queue0[q] as int],
        pv < 0 || (pv < visited0.len() && !queue0.contains(pv as usize) && pv != g),
    ensures
        queue_ranked(
            visited0.update(g as int, true),
            parent0.update(g as int, pv),
            rank0.update(g as int, count0),
            queue0.push(g),
            count0 + 1,
        ),
{
    reveal(queue_ranked);
    let visited1 = visited0.update(g as int, true);
    let parent1 = parent0.update(g as int, pv);
    let rank1 = rank0.update(g as int, count0);
    let queue1 = queue0.push(g);
    assert forall|q: int| 0 <= q < queue1.len() implies #[trigger] rank1[queue1[q] as int]
        == (count0 + 1) - queue1.len() + q by {
        if q < queue0.len() {
            assert(queue1[q] == queue0[q]);
            assert(visited0[queue0[q] as int]);
        }
    }
    assert forall|k: int|
        0 <= k < visited1.len() && #[trigger] visited1[k] && parent1[k] >= 0 implies !queue1.contains(
        parent1[k] as usize,
    ) by {
        lemma_push_contains(queue0, g, parent1[k] as usize);
        if k != g as int {
            assert(visited0[k]);
            assert(visited0[parent0[k]]);
        }
    }
}

/// The flipped faces are faces of the mesh that were reached.
proof fn lemma_flips_in_range(
    fs: Seq<Seq<usize>>,
    audits: Seq<FlipAudit>,
    flips: Seq<int>,
    visited: Seq<bool>,
)
    requires
        audits_well_formed(fs, audits),
        audit_indices(audits) == flips,
        forall|t: int| 0 <= t < flips.len() ==> visited[#[trigger] flips[t]],
        visited.len() == fs.len(),
    ensures
        forall|t: int|
            0 <= t < flips.len() ==> 0 <= #[trigger] flips[t] < visited.len() && visited[flips[t]],
{
    assert forall|t: int| 0 <= t < flips.len() implies 0 <= #[trigger] flips[t] < visited.len()
        && visited[flips[t]] by {
        assert(audit_indices(audits)[t] == audits[t].face_index as int);
    }
}

/// Reaching face `g` with the next rank, in the tree rooted at `s`, keeps the ranks in order.
#[verifier::spinoff_prover]
#[verifier::rlimit(40)]
proof fn lemma_ranks_visit(
    visited0: Seq<bool>,
    flips0: Seq<int>,
    rank0: Seq<int>,
    root0: Seq<int>,
    count0: int,
    g: int,
    s: int,
    flips1: Seq<int>,
)
    requires
        ranks_ok(visited0, flips0, rank0, root0),
        0 <= g < visited0.len(),
        !visited0[g],
        rank0.len() == visited0.len(),
        root0.len() == visited0.len(),
        forall|k: int| 0 <= k < visited0.len() && #[trigger] visited0[k] ==> 0 <= rank0[k] < count0,
        forall|t: int|
            0 <= t < flips0.len() ==> 0 <= #[trigger] flips0[t] < visited0.len() && visited0[flips0[t]],
        flips1 == flips0 || flips1 == flips0.push(g),
        s == g || (0 <= s < visited0.len() && visited0[s]),
    ensures
        ranks_ok(visited0.update(g, true), flips1, rank0.update(g, count0), root0.update(g, s)),
{
    reveal(ranks_ok);
    let n = visited0.len();
    let visited1 = visited0.update(g, true);
    let rank1 = rank0.update(g, count0);
    let root1 = root0.update(g, s);
    assert forall|a: int, b: int|
        0 <= a < n && 0 <= b < n && visited1[a] && visited1[b] && a != b implies #[trigger] rank1[a]
        != #[trigger] rank1[b] by {
        if a != g && b != g {
            assert(visited0[a] && visited0[b]);
        } else if a == g {
            assert(visited0[b]);
        } else {
            assert(visited0[a]);
        }
    }
    assert forall|t1: int, t2: int| 0 <= t1 < t2 < flips1.len() implies rank1[#[trigger] flips1[t1]]
        < rank1[#[trigger] flips1[t2]] by {
        assert(visited0[flips0[t1]]);
        assert(flips1[t1] == flips0[t1]);
        assert(rank0[flips0[t1]] < count0);
        if t2 < flips0.len() {
            assert(flips1[t1] == flips0[t1] && flips1[t2] == flips0[t2]);
            assert(visited0[flips0[t2]]);
        } else {
            assert(flips1[t2] == g);
            assert(flips1[t1] == flips0[t1]);
        }
    }
    assert forall|k: int| 0 <= k < n && #[trigger] visited1[k] implies 0 <= root1[k] < n
        && visited1[root1[k]] && rank1[root1[k]] <= rank1[k] by {
        if k != g {
            assert(visited0[k]);
            assert(visited0[root0[k]]);
        } else if s != g {
            assert(visited0[s]);
        }
    }
}

/// Reaching face `g` from `pv` keeps what is known of the faces already taken up: their
/// neighbours were reached earlier, so their records do not change.
#[verifier::spinoff_prover]
proof fn lemma_reached_after_visit(
    fs: Seq<Seq<usize>>,
    visited0: Seq<bool>,
    parent0: Seq<int>,
    rank0: Seq<int>,
    root0: Seq<int>,
    queue0: Seq<usize>,
    g: usize,
    pv: int,
    r: int,
    curr: int,
)
    requires
        reached_first(fs, visited0, parent0, rank0, queue0, curr),
        closed_faces(fs, visited0, root0, queue0, curr),
        g < visited0.len(),
        visited0.len() == fs.len(),
        fs.len() <= usize::MAX,
        parent0.len() == visited0.len(),
        rank0.len() == visited0.len(),
        !visited0[g as int],
        forall|k: int|
            0 <= k < visited0.len() && #[trigger] visited0[k] && parent0[k] >= 0 ==> 0 <= parent0[k]
                < visited0.len() && visited0[parent0[k]],
    ensures
        reached_first(
            fs,
            visited0.update(g as int, true),
            parent0.update(g as int, pv),
            rank0.update(g as int, r),
            queue0.push(g),
            curr,
        ),
{
    reveal(reached_first);
    let visited1 = visited0.update(g as int, true);
    let parent1 = parent0.update(g as int, pv);
    let rank1 = rank0.update(g as int, r);
    let queue1 = queue0.push(g);
    assert forall|a: int, b: int|
        0 <= a < fs.len() && visited1[a] && !queue1.contains(a as usize) && a != curr
            && #[trigger] adjacent(fs, a, b) implies rank1[reacher(parent1, b)] <= rank1[a] by {
        lemma_push_contains(queue0, g, a as usize);
        assert(a != g as int) by {
            assert(queue1[queue0.len() as int] == g);
        }
        assert(visited0[a]);
        assert(visited0[b]);
        assert(b != g as int);
        if parent0[b] >= 0 {
            assert(visited0[parent0[b]]);
        }
    }
}

/// The face `c` taken up last has had all its neighbours reached: they were reached from faces
/// taken up no later than `c`.
#[verifier::spinoff_prover]
proof fn lemma_close_curr(
    fs: Seq<Seq<usize>>,
    visited: Seq<bool>,
    flips: Seq<int>,
    parent: Seq<int>,
    rank: Seq<int>,
    root: Seq<int>,
    queue: Seq<usize>,
    count: int,
    c: int,
)
    requires
        reached_first(fs, visited, parent, rank, queue, c),
        closed_faces(fs, visited, root, queue, -1),
        queue_ranked(visited, parent, rank, queue, count),
        ranks_ok(visited, flips, rank, root),
        visited.len() == fs.len(),
        fs.len() <= usize::MAX,
        0 <= c < fs.len(),
        visited[c],
        !queue.contains(c as usize),
        rank[c] == count - queue.len() - 1,
        forall|q: int|
            0 <= q < queue.len() ==> #[trigger] queue[q] < fs.len() && visited[queue[q] as int],
        forall|k: int|
            0 <= k < fs.len() && #[trigger] visited[k] ==> 0 <= rank[k] < count && (parent[k] < 0
                ==> root[k] == k) && (parent[k] >= 0 ==> 0 <= parent[k] < fs.len()
                && visited[parent[k]]),
    ensures
        reached_first(fs, visited, parent, rank, queue, -1),
{
    reveal(reached_first);
    assert forall|a: int, b: int|
        0 <= a < fs.len() && visited[a] && !queue.contains(a as usize) && a != -1
            && #[trigger] adjacent(fs, a, b) implies rank[reacher(parent, b)] <= rank[a] by {
        if a == c {
            assert(visited[b] && root[b] == root[c]);
            if parent[b] < 0 {
                assert(root[b] == b);
                lemma_root_first(visited, flips, rank, root, c);
            } else {
                let p = parent[b];
                assert(visited[p]);
                assert(!queue.contains(p as usize)) by {
                    reveal(queue_ranked);
                }
                lemma_taken_up_before(visited, flips, parent, rank, root, queue, count, c, p);
            }
        }
    }
}

/// Taking the first face off the queue: the queue stays in rank order, and the face taken up
/// has the rank just below the queue's.
#[verifier::spinoff_prover]
proof fn lemma_queue_pop(
    fs: Seq<Seq<usize>>,
    visited: Seq<bool>,
    parent: Seq<int>,
    rank: Seq<int>,
    queue: Seq<usize>,
    count: int,
)
    requires
        queue_ranked(visited, parent, rank, queue, count),
        reached_first(fs, visited, parent, rank, queue, -1),
        queue.len() > 0,
        fs.len() <= usize::MAX,
    ensures
        queue_ranked(visited, parent, rank, queue.drop_first(), count),
        reached_first(fs, visited, parent, rank, queue.drop_first(), queue[0] as int),
        rank[queue[0] as int] == count - queue.drop_first().len() - 1,
        forall|k: int|
            0 <= k < visited.len() && #[trigger] visited[k] ==> parent[k] != queue[0] as int,
{
    reveal(queue_ranked);
    reveal(reached_first);
    let q1 = queue.drop_first();
    assert(rank[queue[0] as int] == count - queue.len() + 0);
    assert forall|k: int| 0 <= k < visited.len() && #[trigger] visited[k] implies parent[k]
        != queue[0] as int by {
        if parent[k] >= 0 {
            assert(queue.contains(queue[0]));
        }
    }
    assert forall|q: int| 0 <= q < q1.len() implies #[trigger] rank[q1[q] as int] == count - q1.len() + q by {
        assert(q1[q] == queue[q + 1]);
    }
    assert forall|x: usize| q1.contains(x) implies queue.contains(x) by {
        let q = choose|q: int| 0 <= q < q1.len() && q1[q] == x;
        assert(queue[q + 1] == x);
    }
    assert forall|a: int, b: int|
        0 <= a < fs.len() && visited[a] && !q1.contains(a as usize) && a != queue[0] as int
            && #[trigger] adjacent(fs, a, b) implies rank[reacher(parent, b)] <= rank[a] by {
        if queue.contains(a as usize) {
            let q = choose|q: int| 0 <= q < queue.len() && queue[q] == a as usize;
            if q > 0 {
                assert(q1[q - 1] == a as usize);
            }
        }
    }
}

/// Before the walk, nothing has been reached.
proof fn lemma_walk_order_start(
    fs: Seq<Seq<usize>>,
    visited: Seq<bool>,
    flips: Seq<int>,
    parent: Seq<int>,
    rank: Seq<int>,
    root: Seq<int>,
)
    requires
        visited.len() == fs.len(),
        forall|k: int| 0 <= k < visited.len() ==> !visited[k],
        flips.len() == 0,
    ensures
        ranks_ok(visited, flips, rank, root),
        levels_ok(visited, parent, rank, root),
        queue_ranked(visited, parent, rank, Seq::empty(), 0),
        reached_first(fs, visited, parent, rank, Seq::empty(), -1),
{
    reveal(ranks_ok);
    reveal(levels_ok);
    reveal(queue_ranked);
    reveal(reached_first);
}

/// After the walk, every face has been reached and taken up: the forest is breadth-first.
#[verifier::spinoff_prover]
proof fn lemma_walk_order_end(
    fs: Seq<Seq<usize>>,
    visited: Seq<bool>,
    flips: Seq<int>,
    parent: Seq<int>,
    rank: Seq<int>,
    root: Seq<int>,
    count: int,
)
    requires
        visited.len() == fs.len(),
        forall|k: int| 0 <= k < visited.len() ==> visited[k],
        ranks_ok(visited, flips, rank, root),
        levels_ok(visited, parent, rank, root),
        reached_first(fs, visited, parent, rank, Seq::empty(), -1),
        count <= fs.len(),
        forall|k: int| 0 <= k < fs.len() && #[trigger] visited[k] ==> rank[k] < count,
    ensures
        breadth_first(fs, flips, parent, rank, root),
{
    reveal(ranks_ok);
    reveal(levels_ok);
    reveal(reached_first);
    assert forall|k: int| 0 <= k < fs.len() implies #[trigger] rank[k] < fs.len() by {
        assert(visited[k]);
    }
    assert forall|a: int, b: int|
        0 <= a < fs.len() && 0 <= b < fs.len() && a != b implies #[trigger] rank[a] != #[trigger] rank[b] by {
        assert(visited[a] && visited[b]);
    }
    assert forall|a: int, b: int| #[trigger] adjacent(fs, a, b) implies rank[reacher(parent, b)] <= rank[a] by {
        assert(visited[a]);
        assert(!Seq::<usize>::empty().contains(a as usize));
    }
    assert forall|a: int, b: int|
        0 <= a < fs.len() && 0 <= b < fs.len() && #[trigger] root[a] < #[trigger] root[b] implies rank[a]
        < rank[b] by {
        assert(visited[a] && visited[b]);
    }
    assert forall|a: int, b: int|
        0 <= a < fs.len() && 0 <= b < fs.len() && parent[a] >= 0 && parent[b] >= 0 && rank[
            #[trigger] parent[a]] < rank[#[trigger] parent[b]] implies rank[a] < rank[b] by {
        assert(visited[a] && visited[b]);
    }
}

/// What holds of the walk's state at every step: `cur` is the current set of faces, `flips` the
/// faces reversed so far, `count` the number of faces reached so far.
spec fn walk_state(
    fs: Seq<Seq<usize>>,
    cur: Seq<Seq<usize>>,
    audits: Seq<FlipAudit>,
    flips: Seq<int>,
    visited: Seq<bool>,
    parent: Seq<int>,
    rank: Seq<int>,
    root: Seq<int>,
    count: int,
    vis: Set<int>,
) -> bool {
    let n = fs.len();
    &&& cur.len() == n
    &&& visited.len() == n
    &&& parent.len() == n
    &&& rank.len() == n
    &&& root.len() == n
    &&& forall|k: int| 0 <= k < n ==> #[trigger] cur[k] == oriented_face(fs[k], flips.contains(k))
    &&& audit_indices(audits) == flips
    &&& audits_well_formed(fs, audits)
    &&& forall|t: int| 0 <= t < flips.len() ==> visited[#[trigger] flips[t]]
    &&& forall|k: int|
        0 <= k < n && #[trigger] visited[k] ==> tree_link(fs, cur, flips, parent, rank, root, k)
            && 0 <= rank[k] < count && (parent[k] >= 0 ==> visited[parent[k]])
    &&& vis.finite()
    &&& vis.len() == count
    &&& count <= n
    &&& forall|k: int| #[trigger] vis.contains(k) <==> (0 <= k < n && visited[k])
}

/// Faces that were reached and whose neighbours have all been reached: their neighbours lie in
/// their tree.
spec fn closed_faces(
    fs: Seq<Seq<usize>>,
    visited: Seq<bool>,
    root: Seq<int>,
    queue: Seq<usize>,
    curr: int,
) -> bool {
    forall|a: int, b: int|
        0 <= a < fs.len() && visited[a] && !queue.contains(a as usize) && a != curr
            && #[trigger] adjacent(fs, a, b) ==> visited[b] && root[b] == root[a]
}

/// The faces waiting in the queue: distinct, reached, and in the tree rooted at `s`.
spec fn queue_ok(fs: Seq<Seq<usize>>, visited: Seq<bool>, root: Seq<int>, queue: Seq<usize>, s: int) -> bool {
    &&& queue.no_duplicates()
    &&& forall|q: int|
        0 <= q < queue.len() ==> #[trigger] queue[q] < fs.len() && visited[queue[q] as int]
            && root[queue[q] as int] == s
}

proof fn lemma_count_bound(vis: Set<int>, n: int)
    requires
        0 <= n,
        forall|k: int| #[trigger] vis.contains(k) ==> 0 <= k < n,
    ensures
        vis.finite(),
        vis.len() <= n,
{
    vstd::set_lib::lemma_int_range(0, n);
    assert(vis.subset_of(vstd::set_lib::set_int_range(0, n)));
    vstd::set_lib::lemma_len_subset(vis, vstd::set_lib::set_int_range(0, n));
}

/// One step of the walk: face `g`, not reached yet, is reached from face `c` (and possibly
/// reversed); the walk's state is kept.
#[verifier::spinoff_prover]
proof fn lemma_visit(
    fs: Seq<Seq<usize>>,
    cur0: Seq<Seq<usize>>,
    audits0: Seq<FlipAudit>,
    flips0: Seq<int>,
    visited0: Seq<bool>,
    parent0: Seq<int>,
    rank0: Seq<int>,
    root0: Seq<int>,
    count0: int,
    vis0: Set<int>,
    cur1: Seq<Seq<usize>>,
    audits1: Seq<FlipAudit>,
    flips1: Seq<int>,
    visited1: Seq<bool>,
    parent1: Seq<int>,
    rank1: Seq<int>,
    root1: Seq<int>,
    count1: int,
    vis1: Set<int>,
    g: int,
    c: int,
    s: int,
)
    requires
        walk_state(fs, cur0, audits0, flips0, visited0, parent0, rank0, root0, count0, vis0),
        0 <= g < fs.len(),
        !visited0[g],
        0 <= c < fs.len(),
        visited0[c],
        root0[c] == s,
        0 <= s <= g,
        fs[g].len() >= 3,
        adjacent(fs, c, g),
        visited1 == visited0.update(g, true),
        parent1 == parent0.update(g, c),
        rank1 == rank0.update(g, count0),
        root1 == root0.update(g, s),
        count1 == count0 + 1,
        vis1 == vis0.insert(g),
        (flips1 == flips0 && audits1 == audits0 && cur1 == cur0) || (flips1 == flips0.push(g)
            && audits1.len() == audits0.len() + 1 && audits1.drop_last() == audits0
            && audits1.last().face_index == g && audits1.last().old_winding@ == fs[g]
            && audits1.last().new_winding@ == fs[g].reverse() && cur1 == cur0.update(
            g,
            fs[g].reverse(),
        )),
        walk_opposite(cur1[c], cur1[g]),
        decided_by_first_sides(cur1[c], fs[g], flips1.contains(g)),
    ensures
        walk_state(fs, cur1, audits1, flips1, visited1, parent1, rank1, root1, count1, vis1),
{
    let n = fs.len();
    assert(!flips0.contains(g)) by {
        if flips0.contains(g) {
            let t = choose|t: int| 0 <= t < flips0.len() && flips0[t] == g;
            assert(visited0[flips0[t]]);
        }
    }
    assert(!vis0.contains(g));
    assert forall|k: int| 0 <= k < n && k != g implies (flips1.contains(k) <==> flips0.contains(k))
        && cur1[k] == cur0[k] by {
        lemma_push_contains(flips0, g, k);
    }
    lemma_push_contains(flips0, g, g);
    assert(cur1[g] == oriented_face(fs[g], flips1.contains(g)));
    assert forall|k: int| 0 <= k < n implies #[trigger] cur1[k] == oriented_face(
        fs[k],
        flips1.contains(k),
    ) by {
        if k != g {
            assert(cur0[k] == oriented_face(fs[k], flips0.contains(k)));
        }
    }
    if flips1 != flips0 {
        assert(audit_indices(audits1) =~= audit_indices(audits0).push(g)) by {
            assert forall|t: int| 0 <= t < audits0.len() implies audits1[t] == audits0[t] by {
                assert(audits1.drop_last()[t] == audits1[t]);
            }
        }
        assert forall|t: int| 0 <= t < audits1.len() implies {
            let k = #[trigger] audits1[t].face_index as int;
            &&& 0 <= k < fs.len()
            &&& fs[k].len() >= 3
            &&& audits1[t].old_winding@ == fs[k]
            &&& audits1[t].new_winding@ == fs[k].reverse()
        } by {
            if t < audits0.len() {
                assert(audits1.drop_last()[t] == audits1[t]);
            }
        }
    }
    assert forall|t: int| 0 <= t < flips1.len() implies visited1[#[trigger] flips1[t]] by {
        if t < flips0.len() {
            assert(visited0[flips0[t]]);
        }
    }
    assert forall|k: int| 0 <= k < n && #[trigger] visited1[k] implies tree_link(
        fs,
        cur1,
        flips1,
        parent1,
        rank1,
        root1,
        k,
    ) && 0 <= rank1[k] < count1 && (parent1[k] >= 0 ==> visited1[parent1[k]]) by {
        if k == g {
            assert(rank1[c] == rank0[c]);
        } else {
            assert(visited0[k]);
            let p = parent0[k];
            if p >= 0 {
                assert(visited0[p]);
                assert(p != g);
            }
            lemma_link_frame(
                fs,
                cur0,
                flips0,
                parent0,
                rank0,
                root0,
                cur1,
                flips1,
                parent1,
                rank1,
                root1,
                k,
            );
        }
    }
    assert forall|k: int| #[trigger] vis1.contains(k) implies 0 <= k < n by {}
    lemma_count_bound(vis1, n as int);
}

/// A face not reached yet starts a new tree of the walk as its root.
#[verifier::spinoff_prover]
proof fn lemma_start_tree(
    fs: Seq<Seq<usize>>,
    cur: Seq<Seq<usize>>,
    audits: Seq<FlipAudit>,
    flips: Seq<int>,
    visited0: Seq<bool>,
    parent0: Seq<int>,
    rank0: Seq<int>,
    root0: Seq<int>,
    count0: int,
    vis0: Set<int>,
    visited1: Seq<bool>,
    parent1: Seq<int>,
    rank1: Seq<int>,
    root1: Seq<int>,
    count1: int,
    vis1: Set<int>,
    s: int,
)
    requires
        walk_state(fs, cur, audits, flips, visited0, parent0, rank0, root0, count0, vis0),
        0 <= s < fs.len(),
        !visited0[s],
        visited1 == visited0.update(s, true),
        parent1 == parent0.update(s, -1),
        rank1 == rank0.update(s, count0),
        root1 == root0.update(s, s),
        count1 == count0 + 1,
        vis1 == vis0.insert(s),
    ensures
        walk_state(fs, cur, audits, flips, visited1, parent1, rank1, root1, count1, vis1),
{
    let n = fs.len();
    assert(!flips.contains(s)) by {
        if flips.contains(s) {
            let t = choose|t: int| 0 <= t < flips.len() && flips[t] == s;
            assert(visited0[flips[t]]);
        }
    }
    assert forall|t: int| 0 <= t < flips.len() implies visited1[#[trigger] flips[t]] by {
        assert(visited0[flips[t]]);
    }
    assert forall|k: int| 0 <= k < n && #[trigger] visited1[k] implies tree_link(
        fs,
        cur,
        flips,
        parent1,
        rank1,
        root1,
        k,
    ) && 0 <= rank1[k] < count1 && (parent1[k] >= 0 ==> visited1[parent1[k]]) by {
        if k != s {
            assert(visited0[k]);
            let p = parent0[k];
            if p >= 0 {
                assert(visited0[p]);
                assert(p != s);
            }
            lemma_link_frame(
                fs,
                cur,
                flips,
                parent0,
                rank0,
                root0,
                cur,
                flips,
                parent1,
                rank1,
                root1,
                k,
            );
        }
    }
    assert forall|k: int| #[trigger] vis1.contains(k) implies 0 <= k < n by {}
    lemma_count_bound(vis1, n as int);
}

/// Faces reached before stay reached and keep their tree.
spec fn grown(visited0: Seq<bool>, root0: Seq<int>, visited1: Seq<bool>, root1: Seq<int>) -> bool {
    &&& visited1.len() == visited0.len()
    &&& forall|k: int|
        0 <= k < visited0.len() && #[trigger] visited0[k] ==> visited1[k] && root1[k] == root0[k]
}

/// The walk's exec state together with the ghost record of the spanning forest it grows.
struct Walk {
    faces: Vec<Vec<usize>>,
    visited: Vec<bool>,
    queue: VecDeque<usize>,
    audits: Vec<FlipAudit>,
    flips: Ghost<Seq<int>>,
    parent: Ghost<Seq<int>>,
    rank: Ghost<Seq<int>>,
    root: Ghost<Seq<int>>,
    count: Ghost<int>,
    vis: Ghost<Set<int>>,
}

/// Once face `c` has been taken up and all its neighbours reached, every face taken up so far had
/// its neighbours reached from faces taken up no later.
proof fn lemma_walk_close(w: Walk, fs: Seq<Seq<usize>>, c: usize, s: usize)
    requires
        w.ok(fs),
        w.reached_first(fs, c as int),
        w.queue_ranked(),
        closed_faces(fs, w.visited@, w.root@, w.queue@, -1),
        queue_ok(fs, w.visited@, w.root@, w.queue@, s as int),
        fs.len() <= usize::MAX,
        c < fs.len(),
        w.visited@[c as int],
        !w.queue@.contains(c),
        w.rank@[c as int] == w.count@ - w.queue@.len() - 1,
    ensures
        w.reached_first(fs, -1),
{
    let n = fs.len();
    assert forall|k: int| 0 <= k < n && #[trigger] w.visited@[k] implies 0 <= w.rank@[k] < w.count@
        && (w.parent@[k] < 0 ==> w.root@[k] == k) && (w.parent@[k] >= 0 ==> 0 <= w.parent@[k] < n
        && w.visited@[w.parent@[k]]) by {
        assert(tree_link(fs, face_seqs(w.faces@), w.flips@, w.parent@, w.rank@, w.root@, k));
    }
    lemma_close_curr(
        fs,
        w.visited@,
        w.flips@,
        w.parent@,
        w.rank@,
        w.root@,
        w.queue@,
        w.count@,
        c as int,
    );
}

/// Reaching face `g` from face `c`, taken up last, in the tree rooted at `s` keeps the trees and
/// the levels in order.
proof fn lemma_reach_levels(w: Walk, fs: Seq<Seq<usize>>, g: usize, c: usize, s: usize)
    requires
        w.ok(fs),
        w.queue_ranked(),
        queue_ok(fs, w.visited@, w.root@, w.queue@, s as int),
        fs.len() <= usize::MAX,
        g < fs.len(),
        !w.visited@[g as int],
        c < fs.len(),
        w.visited@[c as int],
        !w.queue@.contains(c),
        w.rank@[c as int] == w.count@ - w.queue@.len() - 1,
        forall|k: int| 0 <= k < fs.len() && #[trigger] w.visited@[k] ==> w.root@[k] <= s,
    ensures
        levels_ok(
            w.visited@.update(g as int, true),
            w.parent@.update(g as int, c as int),
            w.rank@.update(g as int, w.count@),
            w.root@.update(g as int, s as int),
        ),
{
    let n = fs.len();
    assert forall|k: int| 0 <= k < n && #[trigger] w.visited@[k] implies 0 <= w.rank@[k] < w.count@
        && w.root@[k] <= s && (w.parent@[k] >= 0 ==> 0 <= w.parent@[k] < n && w.visited@[w.parent@[k]]) by {
        assert(tree_link(fs, face_seqs(w.faces@), w.flips@, w.parent@, w.rank@, w.root@, k));
    }
    lemma_parents_before(
        w.visited@,
        w.flips@,
        w.parent@,
        w.rank@,
        w.root@,
        w.queue@,
        w.count@,
        c as int,
    );
    lemma_levels_visit(
        w.visited@,
        w.parent@,
        w.rank@,
        w.root@,
        w.count@,
        g as int,
        c as int,
        s as int,
    );
}

impl Walk {
    spec fn queue_ranked(&self) -> bool {
        queue_ranked(self.visited@, self.parent@, self.rank@, self.queue@, self.count@)
    }

    spec fn reached_first(&self, fs: Seq<Seq<usize>>, curr: int) -> bool {
        reached_first(fs, self.visited@, self.parent@, self.rank@, self.queue@, curr)
    }

    spec fn ok(&self, fs: Seq<Seq<usize>>) -> bool {
        &&& self.faces@.len() == fs.len()
        &&& ranks_ok(self.visited@, self.flips@, self.rank@, self.root@)
        &&& levels_ok(self.visited@, self.parent@, self.rank@, self.root@)
        &&& siblings_ok(fs, face_seqs(self.faces@), self.visited@, self.parent@, self.rank@)
        &&& walk_state(
            fs,
            face_seqs(self.faces@),
            self.audits@,
            self.flips@,
            self.visited@,
            self.parent@,
            self.rank@,
            self.root@,
            self.count@,
            self.vis@,
        )
    }

    /// Face `g`, reached from face `c` across the side `(u, v)` that `c` walks at corner `i`, is
    /// reversed if it walks that side the same way, and joins the queue.
    #[verifier::spinoff_prover]
    #[verifier::rlimit(60)]
    fn reach(
        &mut self,
        g: usize,
        c: usize,
        s: usize,
        u: usize,
        v: usize,
        Ghost(fs): Ghost<Seq<Seq<usize>>>,
        Ghost(cf): Ghost<Seq<usize>>,
        Ghost(i): Ghost<int>,
    )
        requires
            old(self).ok(fs),
            g < fs.len(),
            !old(self).visited@[g as int],
            c < fs.len(),
            old(self).visited@[c as int],
            old(self).root@[c as int] == s,
            s < g,
            adjacent(fs, c as int, g as int),
            fs[g as int].len() >= 3,
            face_seqs(old(self).faces@)[c as int] == cf,
            0 <= i < cf.len(),
            u == cf[i],
            v == cf[next_corner(i, cf.len() as int)],
            face_edges(fs[g as int]).contains(undirected(u, v)),
            cf.len() >= 3,
            forall|i2: int|
                0 <= i2 < i ==> !face_edges(fs[g as int]).contains(#[trigger] face_edges(cf)[i2]),
            queue_ok(fs, old(self).visited@, old(self).root@, old(self).queue@, s as int),
            old(self).queue_ranked(),
            !old(self).queue@.contains(c),
            fs.len() <= usize::MAX,
            old(self).visited@[s as int],
            old(self).rank@[c as int] == old(self).count@ - old(self).queue@.len() - 1,
            forall|k: int| 0 <= k < fs.len() && #[trigger] old(self).visited@[k] ==> old(self).root@[k] <= s,
            forall|a: int|
                0 <= a < fs.len() && #[trigger] old(self).visited@[a] && old(self).parent@[a] == c
                    ==> exists|ia: int|
                    #[trigger] first_side_into(cf, fs[a], ia) && (ia < i || (ia == i && a < g)),
        ensures
            first_side_into(cf, fs[g as int], i),
            final(self).ok(fs),
            final(self).queue_ranked(),
            final(self).parent@ == old(self).parent@.update(g as int, c as int),
            final(self).rank@ == old(self).rank@.update(g as int, old(self).count@),
            final(self).visited@ == old(self).visited@.update(g as int, true),
            final(self).root@ == old(self).root@.update(g as int, s as int),
            final(self).count@ == old(self).count@ + 1,
            final(self).queue@ == old(self).queue@.push(g),
            face_seqs(final(self).faces@)[c as int] == cf,
            queue_ok(fs, final(self).visited@, final(self).root@, final(self).queue@, s as int),
    {
        let ghost cur0 = face_seqs(self.faces@);
        let ghost audits0 = self.audits@;
        let ghost flips0 = self.flips@;
        let ghost visited0 = self.visited@;
        let ghost parent0 = self.parent@;
        let ghost rank0 = self.rank@;
        let ghost root0 = self.root@;
        let ghost count0 = self.count@;
        let ghost vis0 = self.vis@;
        let ghost w0 = *self;
        proof {
            lemma_reach_levels(w0, fs, g, c, s);
        }
        let ghost queue0 = self.queue@;
        proof {
            assert(face_edges(cf)[i] == undirected(u, v));
            assert(first_side_into(cf, fs[g as int], i));
            assert forall|k: int|
                0 <= k < fs.len() && #[trigger] visited0[k] implies 0 <= rank0[k] < count0 && (parent0[k]
                >= 0 ==> 0 <= parent0[k] < fs.len() && visited0[parent0[k]]) by {
                assert(tree_link(fs, cur0, flips0, parent0, rank0, root0, k));
            }
            lemma_siblings_visit(fs, cur0, visited0, parent0, rank0, count0, g as int, c as int, i, cur0);
            lemma_siblings_visit(
                fs,
                cur0,
                visited0,
                parent0,
                rank0,
                count0,
                g as int,
                c as int,
                i,
                cur0.update(g as int, fs[g as int].reverse()),
            );
            lemma_flips_in_range(fs, audits0, flips0, visited0);
            lemma_ranks_visit(visited0, flips0, rank0, root0, count0, g as int, s as int, flips0);
            lemma_ranks_visit(
                visited0,
                flips0,
                rank0,
                root0,
                count0,
                g as int,
                s as int,
                flips0.push(g as int),
            );
            assert(visited0.len() <= usize::MAX);
            assert(forall|k: int|
                0 <= k < visited0.len() && #[trigger] visited0[k] && parent0[k] >= 0 ==> 0 <= parent0[k]
                    < visited0.len() && visited0[parent0[k]]) by {
                assert forall|k: int|
                    0 <= k < visited0.len() && #[trigger] visited0[k] && parent0[k] >= 0 implies 0
                    <= parent0[k] < visited0.len() && visited0[parent0[k]] by {
                    assert(tree_link(fs, cur0, flips0, parent0, rank0, root0, k));
                }
            }
            assert forall|q: int| 0 <= q < queue0.len() implies #[trigger] queue0[q] < visited0.len()
                && visited0[queue0[q] as int] by {}
            lemma_queue_push(visited0, parent0, rank0, queue0, count0, g, c as int);
        }
        assert(!flips0.contains(g as int)) by {
            if flips0.contains(g as int) {
                let t = choose|t: int| 0 <= t < flips0.len() && flips0[t] == g as int;
                assert(visited0[flips0[t]]);
            }
        }
        assert(self.faces@[g as int]@ == cur0[g as int]);
        assert(cur0[g as int] == fs[g as int]);
        proof {
            lemma_side_exists(fs[g as int], u, v);
        }
        let found = find_shared_side(&self.faces[g], u, v);
        let (j, same) = match found {
            Some(p) => p,
            None => {
                assert(false);
                (0, false)
            },
        };
        proof {
            lemma_first_sides_decide(cf, fs[g as int], i, j as int, same);
        }
        if same {
            let old_w = copy_face(&self.faces[g]);
            let new_w = reversed_face(&self.faces[g]);
            let stored = copy_face(&new_w);
            self.faces.set(g, stored);
            self.audits.push(FlipAudit { face_index: g, old_winding: old_w, new_winding: new_w });
            proof {
                self.flips@ = self.flips@.push(g as int);
                assert(face_seqs(self.faces@) =~= cur0.update(g as int, fs[g as int].reverse()));
                assert(self.audits@.drop_last() =~= audits0);
                lemma_flip_orients(cf, i, fs[g as int], j as int);
            }
        } else {
            proof {
                lemma_kept_orients(cf, i, fs[g as int], j as int);
            }
        }
        self.visited.set(g, true);
        proof {
            self.parent@ = self.parent@.update(g as int, c as int);
            self.rank@ = self.rank@.update(g as int, count0);
            self.root@ = self.root@.update(g as int, s as int);
            self.vis@ = self.vis@.insert(g as int);
            self.count@ = count0 + 1;
            assert(face_seqs(self.faces@)[c as int] == cf);
            lemma_push_contains(flips0, g as int, g as int);
            assert(self.flips@.contains(g as int) == same);
            lemma_visit(
                fs,
                cur0,
                audits0,
                flips0,
                visited0,
                parent0,
                rank0,
                root0,
                count0,
                vis0,
                face_seqs(self.faces@),
                self.audits@,
                self.flips@,
                self.visited@,
                self.parent@,
                self.rank@,
                self.root@,
                self.count@,
                self.vis@,
                g as int,
                c as int,
                s as int,
            );
        }
        self.queue.push_back(g);
        proof {
            assert(!queue0.contains(g)) by {
                if queue0.contains(g) {
                    let q = choose|q: int| 0 <= q < queue0.len() && queue0[q] == g;
                    assert(visited0[queue0[q] as int]);
                }
            }
            assert forall|q: int| 0 <= q < self.queue@.len() implies #[trigger] self.queue@[q]
                < fs.len() && self.visited@[self.queue@[q] as int] && self.root@[self.queue@[q] as int]
                == s by {
                if q < queue0.len() {
                    assert(visited0[queue0[q] as int]);
                }
            }
        }
    }

    /// Reaches every face that shares an edge with face `c`, which has just left the queue.
    fn expand(&mut self, table: &EdgeFaces, c: usize, s: usize, Ghost(fs): Ghost<Seq<Seq<usize>>>)
        requires
            old(self).ok(fs),
            table.wf(fs),
            c < fs.len(),
            old(self).visited@[c as int],
            old(self).root@[c as int] == s,
            !old(self).queue@.contains(c),
            queue_ok(fs, old(self).visited@, old(self).root@, old(self).queue@, s as int),
            closed_faces(fs, old(self).visited@, old(self).root@, old(self).queue@, c as int),
            forall|k: int| 0 <= k <= s ==> old(self).visited@[k],
            old(self).queue_ranked(),
            old(self).reached_first(fs, c as int),
            old(self).rank@[c as int] == old(self).count@ - old(self).queue@.len() - 1,
            forall|k: int| 0 <= k < fs.len() && #[trigger] old(self).visited@[k] ==> old(self).root@[k] <= s,
            forall|k: int| 0 <= k < fs.len() && #[trigger] old(self).visited@[k] ==> old(self).parent@[k] != c,
        ensures
            forall|k: int| 0 <= k < fs.len() && #[trigger] final(self).visited@[k] ==> final(self).root@[k] <= s,
            final(self).ok(fs),
            queue_ok(fs, final(self).visited@, final(self).root@, final(self).queue@, s as int),
            closed_faces(fs, final(self).visited@, final(self).root@, final(self).queue@, -1),
            final(self).queue_ranked(),
            final(self).reached_first(fs, -1),
            grown(old(self).visited@, old(self).root@, final(self).visited@, final(self).root@),
            final(self).count@ >= old(self).count@,
            final(self).queue@.len() + old(self).count@ == old(self).queue@.len()
                + final(self).count@,
    {
        let ghost visited0 = self.visited@;
        let ghost root0 = self.root@;
        let ghost count0 = self.count@;
        let n = self.faces.len();
        assert(fs.len() == n);
        let ghost qlen0 = self.queue@.len();
        let curr_face = copy_face(&self.faces[c]);
        let len = curr_face.len();
        let ghost cf = curr_face@;
        proof {
            assert(cf == face_seqs(self.faces@)[c as int]);
            assert(cf == oriented_face(fs[c as int], self.flips@.contains(c as int)));
        }
        if len < 3 {
            proof {
                assert forall|a: int, b: int|
                    0 <= a < fs.len() && self.visited@[a] && !self.queue@.contains(a as usize) && a
                        != -1 && #[trigger] adjacent(fs, a, b) implies self.visited@[b]
                    && self.root@[b] == self.root@[a] by {
                    if a == c {
                        let e = choose|e: (usize, usize)|
                            #[trigger] face_edges(fs[a]).contains(e) && face_edges(
                                fs[b],
                            ).contains(e);
                        assert(face_edges(fs[a]).len() == 0);
                    }
                }
                lemma_walk_close(*self, fs, c, s);
            }
            return;
        }
        proof {
            assert forall|e: (usize, usize)| face_edges(cf).contains(e) implies #[trigger] face_edges(
                fs[c as int],
            ).contains(e) by {
                lemma_oriented_edges(fs[c as int], self.flips@.contains(c as int), e);
            }
        }
        for i in 0..len
            invariant
                fs.len() == n,
                self.ok(fs),
                table.wf(fs),
                c < fs.len(),
                self.visited@[c as int],
                self.root@[c as int] == s,
                !self.queue@.contains(c),
                queue_ok(fs, self.visited@, self.root@, self.queue@, s as int),
                closed_faces(fs, self.visited@, self.root@, self.queue@, c as int),
                forall|k: int| 0 <= k <= s ==> self.visited@[k],
                self.queue_ranked(),
                self.reached_first(fs, c as int),
                self.rank@[c as int] == self.count@ - self.queue@.len() - 1,
                forall|k: int| 0 <= k < fs.len() && #[trigger] self.visited@[k] ==> self.root@[k] <= s,
                forall|a: int|
                    0 <= a < fs.len() && #[trigger] self.visited@[a] && self.parent@[a] == c ==> exists|ia: int|
                        #[trigger] first_side_into(cf, fs[a], ia) && ia < i,
                grown(visited0, root0, self.visited@, self.root@),
                self.count@ >= count0,
                self.queue@.len() + count0 == qlen0 + self.count@,
                cf == curr_face@,
                cf == face_seqs(self.faces@)[c as int],
                face_edges(cf).len() == len,
                len == cf.len(),
                len >= 3,
                forall|e: (usize, usize)|
                    face_edges(cf).contains(e) ==> #[trigger] face_edges(fs[c as int]).contains(e),
                forall|k: int, x: int|
                    0 <= k < i && 0 <= x < fs.len() && #[trigger] face_edges(fs[x]).contains(
                        #[trigger] face_edges(cf)[k],
                    ) ==> self.visited@[x] && self.root@[x] == s,
        {
            let u = curr_face[i];
            let v = curr_face[(i + 1) % len];
            let e = if u < v {
                (u, v)
            } else {
                (v, u)
            };
            proof {
                assert(e == face_edges(cf)[i as int]);
                assert(face_edges(cf).contains(e));
                assert(face_edges(fs[c as int]).contains(e));
            }
            let key = crate::edges::make_edge_key(e);
            match table.ids.get(&key) {
                Some(id_ref) => {
                    let id = *id_ref;
                    proof {
                        lemma_ids_lookup(table, e);
                    }
                    let neighbors = &table.lists[id];
                    proof {
                        assert forall|t2: int| 0 <= t2 < neighbors@.len() implies #[trigger] neighbors@[t2]
                            < fs.len() by {
                            assert(table.lists@[id as int]@.contains(neighbors@[t2]));
                        }
                    }
                    for t in 0..neighbors.len()
                        invariant
                            forall|t2: int| 0 <= t2 < neighbors@.len() ==> #[trigger] neighbors@[t2]
                                < fs.len(),
                            fs.len() == n,
                            self.ok(fs),
                            table.wf(fs),
                            neighbors == table.lists@[id as int],
                            table.edge_of@[id as int] == e,
                            id < table.lists@.len(),
                            c < fs.len(),
                            self.visited@[c as int],
                            self.root@[c as int] == s,
                            !self.queue@.contains(c),
                            queue_ok(fs, self.visited@, self.root@, self.queue@, s as int),
                            closed_faces(fs, self.visited@, self.root@, self.queue@, c as int),
                            forall|k: int| 0 <= k <= s ==> self.visited@[k],
                            self.queue_ranked(),
                            self.reached_first(fs, c as int),
                            self.rank@[c as int] == self.count@ - self.queue@.len() - 1,
                            forall|k: int| 0 <= k < fs.len() && #[trigger] self.visited@[k] ==> self.root@[k] <= s,
                            forall|a: int|
                                0 <= a < fs.len() && #[trigger] self.visited@[a] && self.parent@[a] == c
                                    ==> exists|ia: int|
                                    #[trigger] first_side_into(cf, fs[a], ia) && (ia < i || (ia == i
                                        && exists|t2: int| 0 <= t2 < t && neighbors@[t2] == a)),
                            grown(visited0, root0, self.visited@, self.root@),
                            self.count@ >= count0,
                            self.queue@.len() + count0 == qlen0 + self.count@,
                            cf == curr_face@,
                            cf == face_seqs(self.faces@)[c as int],
                            len == cf.len(),
                            len >= 3,
                            i < len,
                            u == cf[i as int],
                            v == cf[next_corner(i as int, len as int)],
                            e == undirected(u, v),
                            face_edges(fs[c as int]).contains(e),
                            forall|k: int, x: int|
                                0 <= k < i && 0 <= x < fs.len() && #[trigger] face_edges(
                                    fs[x],
                                ).contains(#[trigger] face_edges(cf)[k]) ==> self.visited@[x]
                                    && self.root@[x] == s,
                            forall|t2: int|
                                0 <= t2 < t ==> self.visited@[#[trigger] neighbors@[t2] as int]
                                    && self.root@[neighbors@[t2] as int] == s,
                    {
                        let g = neighbors[t];
                        proof {
                            assert(neighbors@.contains(g));
                            assert(g < fs.len() && face_edges(fs[g as int]).contains(e));
                            assert(adjacent(fs, g as int, c as int));
                            assert(adjacent(fs, c as int, g as int));
                        }
                        if self.visited[g] {
                            proof {
                                if self.root@[g as int] != s {
                                    assert(!self.queue@.contains(g)) by {
                                        if self.queue@.contains(g) {
                                            let q = choose|q: int|
                                                0 <= q < self.queue@.len() && self.queue@[q] == g;
                                            assert(self.root@[self.queue@[q] as int] == s);
                                        }
                                    }
                                    assert(self.root@[c as int] == self.root@[g as int]);
                                }
                                assert(neighbors@[t as int] == g);
                                assert forall|t2: int| 0 <= t2 < t + 1 implies self.visited@[
                                    #[trigger] neighbors@[t2] as int] && self.root@[neighbors@[t2] as int]
                                    == s by {
                                    if t2 == t {
                                        assert(neighbors@[t2] == g);
                                    }
                                }
                            }
                        } else {
                            proof {
                                assert(face_seqs(self.faces@)[g as int] == oriented_face(
                                    fs[g as int],
                                    self.flips@.contains(g as int),
                                ));
                                assert(fs[g as int].len() >= 3);
                                assert(self.faces@[g as int]@.len() == fs[g as int].len());
                            }
                            let n_len = self.faces[g].len();
                            if n_len >= 3 {
                                let ghost visited1 = self.visited@;
                                let ghost root1 = self.root@;
                                let ghost queue1 = self.queue@;
                                let ghost parent1 = self.parent@;
                                let ghost rank1 = self.rank@;
                                let ghost count1 = self.count@;
                                proof {
                                    assert forall|k: int|
                                        0 <= k < visited1.len() && #[trigger] visited1[k] && parent1[k]
                                            >= 0 implies 0 <= parent1[k] < visited1.len()
                                        && visited1[parent1[k]] by {
                                        assert(tree_link(fs, face_seqs(self.faces@), self.flips@, self.parent@, self.rank@, self.root@, k));
                                    }
                                }
                                proof {
                                    assert(g > s) by {
                                        if g <= s {
                                            assert(visited1[g as int]);
                                        }
                                    }
                                    assert(face_edges(fs[g as int]).len() > 0);
                                }
                                proof {
                                    assert forall|a: int|
                                        0 <= a < fs.len() && #[trigger] self.visited@[a] && self.parent@[a]
                                            == c implies exists|ia: int|
                                        #[trigger] first_side_into(cf, fs[a], ia) && (ia < i || (ia == i
                                            && a < g)) by {
                                        let ia = choose|ia: int|
                                            #[trigger] first_side_into(cf, fs[a], ia) && (ia < i || (ia
                                                == i && exists|t2: int| 0 <= t2 < t && neighbors@[t2] == a));
                                        if ia == i {
                                            let t2 = choose|t2: int| 0 <= t2 < t && neighbors@[t2] == a;
                                            assert(table.lists@[id as int]@[t2] <= table.lists@[id as int]@[t as int]);
                                            assert(a != g as int);
                                        }
                                    }
                                }
                                self.reach(g, c, s, u, v, Ghost(fs), Ghost(cf), Ghost(i as int));
                                proof {
                                    lemma_reached_after_visit(
                                        fs,
                                        visited1,
                                        parent1,
                                        rank1,
                                        root1,
                                        queue1,
                                        g,
                                        c as int,
                                        count1,
                                        c as int,
                                    );
                                    assert forall|a: int, b: int|
                                        0 <= a < fs.len() && self.visited@[a] && !self.queue@.contains(
                                            a as usize,
                                        ) && a != c && #[trigger] adjacent(fs, a, b) implies self.visited@[b]
                                        && self.root@[b] == self.root@[a] by {
                                        lemma_push_contains(queue1, g, a as usize);
                                        assert(visited1[b] && root1[b] == root1[a]);
                                    }
                                    assert forall|k: int, x: int|
                                        0 <= k < i && 0 <= x < fs.len() && #[trigger] face_edges(
                                            fs[x],
                                        ).contains(#[trigger] face_edges(cf)[k]) implies self.visited@[x]
                                        && self.root@[x] == s by {
                                        assert(visited1[x]);
                                    }
                                    assert(neighbors@[t as int] == g);
                                    assert(self.visited@[g as int] && self.root@[g as int] == s);
                                    assert forall|t2: int| 0 <= t2 < t + 1 implies self.visited@[
                                        #[trigger] neighbors@[t2] as int] && self.root@[neighbors@[t2] as int]
                                        == s by {
                                        if t2 < t {
                                            assert(visited1[neighbors@[t2] as int] && root1[neighbors@[t2] as int] == s);
                                            if neighbors@[t2] != g {
                                                assert(self.root@[neighbors@[t2] as int] == root1[neighbors@[t2] as int]);
                                            }
                                        } else {
                                            assert(neighbors@[t2] == g);
                                        }
                                    }
                                }
                            }
                        }
                    }
                    proof {
                        assert forall|x: int|
                            0 <= x < fs.len() && #[trigger] face_edges(fs[x]).contains(e) implies self.visited@[x]
                            && self.root@[x] == s by {
                            assert(table.lists@[id as int]@.contains(x as usize));
                            assert(neighbors@.contains(x as usize));
                            let t2 = choose|t2: int| 0 <= t2 < neighbors@.len() && neighbors@[t2] == x as usize;
                            assert(self.visited@[neighbors@[t2] as int]);
                        }
                    }
                },
                None => {
                    assert(false);
                },
            }
        }
        proof {
            assert forall|a: int, b: int|
                0 <= a < fs.len() && self.visited@[a] && !self.queue@.contains(a as usize) && a != -1
                    && #[trigger] adjacent(fs, a, b) implies self.visited@[b] && self.root@[b]
                == self.root@[a] by {
                if a == c {
                    let e = choose|e: (usize, usize)|
                        #[trigger] face_edges(fs[a]).contains(e) && face_edges(fs[b]).contains(e);
                    lemma_oriented_edges(fs[a], self.flips@.contains(a), e);
                    let k = choose|k: int| 0 <= k < face_edges(cf).len() && face_edges(cf)[k] == e;
                    assert(face_edges(fs[b]).contains(face_edges(cf)[k]));
                }
            }
            lemma_walk_close(*self, fs, c, s);
        }
    }
}


/// Reorients faces so that faces sharing an edge agree. A breadth-first walk over the faces that
/// share undirected edges is started from each face not yet reached, in index order; every newly
/// reached face that walks the shared side in the same direction as the face it was reached from
/// is reversed. Returns the faces and a record of every reversal, in the order in which the walk
/// reached the reversed faces. The contract states the walk's forest: each face was reached from
/// the neighbour that the walk took up first, and the records follow the walk's order. Whether a
/// face is reversed is decided at the first side of the face it was reached from that lies on one
/// of its edges, and at its own first side on that edge. Faces reached from the same face are
/// taken up in the order of those sides, and at the same side in increasing face index.
#[verifier::spinoff_prover]
#[verifier::rlimit(60)]
pub fn unify_winding_directions(faces: Vec<Vec<usize>>) -> (result: (Vec<Vec<usize>>, Vec<FlipAudit>))
    ensures
        result.0@.len() == faces@.len(),
        audits_well_formed(face_seqs(faces@), result.1@),
        forall|k: int|
            0 <= k < faces@.len() ==> #[trigger] result.0@[k]@ == oriented_face(
                faces@[k]@,
                audit_indices(result.1@).contains(k),
            ),
        has_spanning_forest(face_seqs(faces@), face_seqs(result.0@), audit_indices(result.1@)),
{
    let ghost fs = face_seqs(faces@);
    let n = faces.len();
    if n == 0 {
        let audits: Vec<FlipAudit> = Vec::new();
        assert(audit_indices(audits@) =~= Seq::<int>::empty());
        assert(spanning_forest(
            fs,
            face_seqs(faces@),
            audit_indices(audits@),
            Seq::empty(),
            Seq::empty(),
            Seq::empty(),
        ));
        assert(has_spanning_forest(fs, face_seqs(faces@), audit_indices(audits@)));
        return (faces, audits);
    }
    let table = build_edge_faces(&faces);
    let mut w = Walk {
        faces,
        visited: vec![false; n],
        queue: VecDeque::new(),
        audits: Vec::new(),
        flips: Ghost(Seq::empty()),
        parent: Ghost(Seq::new(n as nat, |k: int| -1)),
        rank: Ghost(Seq::new(n as nat, |k: int| 0)),
        root: Ghost(Seq::new(n as nat, |k: int| 0)),
        count: Ghost(0),
        vis: Ghost(Set::empty()),
    };
    proof {
        assert(audit_indices(w.audits@) =~= w.flips@);
        assert(w.vis@ =~= Set::<int>::empty());
        assert forall|k: int| 0 <= k < n implies #[trigger] face_seqs(w.faces@)[k] == oriented_face(
            fs[k],
            w.flips@.contains(k),
        ) by {}
        lemma_walk_order_start(fs, w.visited@, w.flips@, w.parent@, w.rank@, w.root@);
        lemma_siblings_start(fs, face_seqs(w.faces@), w.visited@, w.parent@, w.rank@);
        assert(w.queue@ =~= Seq::<usize>::empty());
        assert(w.ok(fs));
    }
    for start in 0..n
        invariant
            n == fs.len(),
            fs == face_seqs(faces@),
            table.wf(fs),
            w.ok(fs),
            forall|k: int| 0 <= k < start ==> w.visited@[k],
            w.queue@.len() == 0,
            closed_faces(fs, w.visited@, w.root@, w.queue@, -1),
            w.queue_ranked(),
            w.reached_first(fs, -1),
            forall|k: int| 0 <= k < fs.len() && #[trigger] w.visited@[k] ==> w.root@[k] < start,
    {
        if !w.visited[start] {
            let s = start;
            let ghost queue0 = w.queue@;
            proof {
                assert forall|k: int|
                    0 <= k < w.visited@.len() && #[trigger] w.visited@[k] && w.parent@[k] >= 0 implies 0
                    <= w.parent@[k] < w.visited@.len() && w.visited@[w.parent@[k]] by {
                    assert(tree_link(fs, face_seqs(w.faces@), w.flips@, w.parent@, w.rank@, w.root@, k));
                }
                assert forall|k: int|
                    0 <= k < fs.len() && #[trigger] w.visited@[k] implies 0 <= w.rank@[k] < w.count@
                    && (w.parent@[k] >= 0 ==> 0 <= w.parent@[k] < fs.len() && w.visited@[w.parent@[k]]) by {
                    assert(tree_link(fs, face_seqs(w.faces@), w.flips@, w.parent@, w.rank@, w.root@, k));
                }
                assert forall|q: int| 0 <= q < queue0.len() implies #[trigger] queue0[q]
                    < w.visited@.len() && w.visited@[queue0[q] as int] by {}
            }
            let ghost visited0 = w.visited@;
            let ghost parent0 = w.parent@;
            let ghost rank0 = w.rank@;
            let ghost root0 = w.root@;
            let ghost count0 = w.count@;
            let ghost vis0 = w.vis@;
            w.visited.set(start, true);
            proof {
                w.parent@ = w.parent@.update(s as int, -1);
                w.rank@ = w.rank@.update(s as int, count0);
                w.root@ = w.root@.update(s as int, s as int);
                w.count@ = count0 + 1;
                w.vis@ = w.vis@.insert(s as int);
                lemma_start_tree(
                    fs,
                    face_seqs(w.faces@),
                    w.audits@,
                    w.flips@,
                    visited0,
                    parent0,
                    rank0,
                    root0,
                    count0,
                    vis0,
                    w.visited@,
                    w.parent@,
                    w.rank@,
                    w.root@,
                    w.count@,
                    w.vis@,
                    s as int,
                );
                lemma_flips_in_range(fs, w.audits@, w.flips@, visited0);
                lemma_ranks_visit(visited0, w.flips@, rank0, root0, count0, s as int, s as int, w.flips@);
                lemma_levels_visit(visited0, parent0, rank0, root0, count0, s as int, -1, s as int);
                lemma_siblings_visit(
                    fs,
                    face_seqs(w.faces@),
                    visited0,
                    parent0,
                    rank0,
                    count0,
                    s as int,
                    -1,
                    0,
                    face_seqs(w.faces@),
                );
            }
            w.queue.push_back(start);
            proof {
                lemma_queue_push(visited0, parent0, rank0, queue0, count0, start, -1);
                lemma_reached_after_visit(fs, visited0, parent0, rank0, root0, queue0, start, -1, count0, -1);
                assert(w.queue@ =~= seq![s]);
                assert forall|a: int, b: int|
                    0 <= a < fs.len() && w.visited@[a] && !w.queue@.contains(a as usize) && a != -1
                        && #[trigger] adjacent(fs, a, b) implies w.visited@[b] && w.root@[b]
                    == w.root@[a] by {
                    if a != s {
                        assert(visited0[a]);
                        assert(visited0[b] && root0[b] == root0[a]);
                    } else {
                        assert(w.queue@[0] == s);
                    }
                }
            }
            while w.queue.len() > 0
                invariant
                    n == fs.len(),
                    table.wf(fs),
                    w.ok(fs),
                    s == start,
                    forall|k: int| 0 <= k <= s ==> w.visited@[k],
                    queue_ok(fs, w.visited@, w.root@, w.queue@, s as int),
                    closed_faces(fs, w.visited@, w.root@, w.queue@, -1),
                    w.queue_ranked(),
                    w.reached_first(fs, -1),
                    forall|k: int| 0 <= k < fs.len() && #[trigger] w.visited@[k] ==> w.root@[k] <= s,
                decreases 2 * (n - w.count@) + w.queue@.len(),
            {
                let ghost q0 = w.queue@;
                let c = match w.queue.pop_front() {
                    Some(c) => c,
                    None => {
                        assert(false);
                        0
                    },
                };
                proof {
                    assert(q0[0] == c);
                    assert(w.queue@ =~= q0.drop_first());
                    lemma_queue_pop(fs, w.visited@, w.parent@, w.rank@, q0, w.count@);
                    assert(c < n && w.visited@[c as int] && w.root@[c as int] == s);
                    assert(!w.queue@.contains(c)) by {
                        if w.queue@.contains(c) {
                            let q = choose|q: int| 0 <= q < w.queue@.len() && w.queue@[q] == c;
                            assert(q0[q + 1] == c);
                        }
                    }
                    assert forall|a: int, b: int|
                        0 <= a < fs.len() && w.visited@[a] && !w.queue@.contains(a as usize) && a
                            != c && #[trigger] adjacent(fs, a, b) implies w.visited@[b]
                        && w.root@[b] == w.root@[a] by {
                        assert(!q0.contains(a as usize)) by {
                            if q0.contains(a as usize) {
                                let q = choose|q: int| 0 <= q < q0.len() && q0[q] == a as usize;
                                if q > 0 {
                                    assert(w.queue@[q - 1] == a as usize);
                                } else {
                                    assert(a == c);
                                }
                            }
                        }
                    }
                    assert forall|q: int| 0 <= q < w.queue@.len() implies #[trigger] w.queue@[q]
                        < fs.len() && w.visited@[w.queue@[q] as int] && w.root@[w.queue@[q] as int]
                        == s by {
                        assert(w.queue@[q] == q0[q + 1]);
                    }
                    assert(w.queue@.no_duplicates()) by {
                        assert forall|p: int, q: int|
                            0 <= p < w.queue@.len() && 0 <= q < w.queue@.len() && p != q implies w.queue@[p]
                            != w.queue@[q] by {
                            assert(w.queue@[p] == q0[p + 1] && w.queue@[q] == q0[q + 1]);
                        }
                    }
                    lemma_count_bound(w.vis@, n as int);
                }
                let ghost vb = w.visited@;
                let ghost rb = w.root@;
                w.expand(&table, c, s, Ghost(fs));
                proof {
                    lemma_count_bound(w.vis@, n as int);
                    assert forall|k: int| 0 <= k <= s implies w.visited@[k] by {
                        assert(vb[k]);
                    }
                }
            }
        }
    }
    proof {
        let out = face_seqs(w.faces@);
        let flips = w.flips@;
        assert forall|k: int| 0 <= k < n implies #[trigger] tree_link(
            fs,
            out,
            flips,
            w.parent@,
            w.rank@,
            w.root@,
            k,
        ) by {
            assert(w.visited@[k]);
        }
        assert forall|a: int, b: int| #[trigger] adjacent(fs, a, b) implies w.root@[a] == w.root@[b] by {
            assert(w.visited@[a]);
            assert(!w.queue@.contains(a as usize));
        }
        assert(w.queue@ =~= Seq::<usize>::empty());
        lemma_walk_order_end(fs, w.visited@, w.flips@, w.parent@, w.rank@, w.root@, w.count@);
        lemma_siblings_end(fs, out, w.visited@, w.parent@, w.rank@);
        assert(spanning_forest(fs, out, flips, w.parent@, w.rank@, w.root@));
        assert(audit_indices(w.audits@) == flips);
        assert(spanning_forest(
            face_seqs(faces@),
            face_seqs(w.faces@),
            audit_indices(w.audits@),
            w.parent@,
            w.rank@,
            w.root@,
        ));
        assert forall|k: int| 0 <= k < n implies #[trigger] w.faces@[k]@ == oriented_face(
            faces@[k]@,
            audit_indices(w.audits@).contains(k),
        ) by {
            assert(out[k] == w.faces@[k]@);
        }
    }
    (w.faces, w.audits)
}


proof fn lemma_reverse_edge_multiset(f: Seq<usize>)
    ensures
        face_edges(f.reverse()).to_multiset() == face_edges(f).to_multiset(),
{
    let m = f.len() as int;
    if m < 3 {
        assert(face_edges(f.reverse()) =~= face_edges(f));
    } else {
        let s = face_edges(f);
        let r = face_edges(f.reverse());
        let rev = s.reverse();
        let a = rev.subrange(0, 1);
        let b = rev.subrange(1, m);
        assert forall|k: int| 0 <= k < m implies #[trigger] r[k] == (b + a)[k] by {
            let fr = f.reverse();
            lemma_next_corner(k, m);
            if k < m - 1 {
                let i = m - 2 - k;
                lemma_next_corner(i, m);
                assert(fr[k] == f[i + 1]);
                assert(fr[k + 1] == f[i]);
                lemma_undirected_symmetric(f[i], f[i + 1]);
            } else {
                lemma_next_corner(m - 1, m);
                assert(fr[k] == f[0]);
                assert(fr[0] == f[m - 1]);
                lemma_undirected_symmetric(f[m - 1], f[0]);
            }
        }
        assert(r =~= b + a);
        assert(rev =~= a + b);
        vstd::seq_lib::lemma_seq_union_to_multiset_commutative(a, b);
        s.lemma_reverse_to_multiset();
    }
}

proof fn lemma_oriented_mesh_edges(faces: Seq<Seq<usize>>, out: Seq<Seq<usize>>)
    requires
        out.len() == faces.len(),
        forall|k: int|
            0 <= k < faces.len() ==> #[trigger] out[k] == faces[k] || out[k] == faces[k].reverse(),
    ensures
        mesh_edges(out).to_multiset() == mesh_edges(faces).to_multiset(),
    decreases faces.len(),
{
    if faces.len() > 0 {
        let n = faces.len() as int;
        assert forall|k: int| 0 <= k < n - 1 implies #[trigger] out.drop_last()[k]
            == faces.drop_last()[k] || out.drop_last()[k] == faces.drop_last()[k].reverse() by {
            assert(out[k] == faces[k] || out[k] == faces[k].reverse());
        }
        lemma_oriented_mesh_edges(faces.drop_last(), out.drop_last());
        if out.last() != faces.last() {
            lemma_reverse_edge_multiset(faces.last());
        }
        vstd::seq_lib::lemma_multiset_commutative(mesh_edges(out.drop_last()), face_edges(out.last()));
        vstd::seq_lib::lemma_multiset_commutative(
            mesh_edges(faces.drop_last()),
            face_edges(faces.last()),
        );
    }
}

/// Law: reorienting faces never changes how many face sides lie on each undirected edge, so the
/// boundary edges, the non-manifold edges and the number of distinct edges stay as they were.
pub proof fn lemma_reorienting_keeps_edges(
    faces: Seq<Seq<usize>>,
    out: Seq<Seq<usize>>,
    flips: Seq<int>,
    e: (usize, usize),
)
    requires
        out.len() == faces.len(),
        forall|k: int|
            0 <= k < faces.len() ==> #[trigger] out[k] == oriented_face(faces[k], flips.contains(k)),
    ensures
        edge_multiplicity(out, e) == edge_multiplicity(faces, e),
        edge_set(out) == edge_set(faces),
{
    assert forall|k: int| 0 <= k < faces.len() implies #[trigger] out[k] == faces[k] || out[k]
        == faces[k].reverse() by {
        assert(out[k] == oriented_face(faces[k], flips.contains(k)));
    }
    lemma_oriented_mesh_edges(faces, out);
    assert forall|x: (usize, usize)| #[trigger] mesh_edges(out).contains(x) <==> mesh_edges(
        faces,
    ).contains(x) by {
        assert(mesh_edges(out).to_multiset().count(x) == mesh_edges(faces).to_multiset().count(x));
    }
    assert(edge_set(out) =~= edge_set(faces));
}

} // verus!
