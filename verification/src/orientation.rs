//! Consistent orientation of a surface, and what reorienting does to a surface that already has
//! one or could have one.
use crate::edges::{face_edges, lemma_next_corner, next_corner, undirected};
use crate::winding::{
    adjacent, lemma_reverse_edges, oriented_face, spanning_forest, tree_link, walk_opposite,
    audit_indices, audits_well_formed, has_spanning_forest,
};
use crate::winding::FlipAudit;
use vstd::prelude::*;

verus! {

/// Face `f` walks from corner `u` straight to corner `v` at one of its sides.
pub open spec fn has_side(f: Seq<usize>, u: usize, v: usize) -> bool {
    exists|i: int| 0 <= i < f.len() && #[trigger] f[i] == u && f[next_corner(i, f.len() as int)] == v
}

/// No two faces that have edges walk the same side in the same direction: neighbouring faces
/// agree on their orientation.
pub open spec fn consistently_oriented(faces: Seq<Seq<usize>>) -> bool {
    forall|a: int, b: int, u: usize, v: usize|
        0 <= a < faces.len() && 0 <= b < faces.len() && a != b && faces[a].len() >= 3
            && faces[b].len() >= 3 && #[trigger] has_side(faces[a], u, v) ==> !#[trigger] has_side(
            faces[b],
            u,
            v,
        )
}

/// The faces, each reversed where `o` says so.
pub open spec fn reoriented(faces: Seq<Seq<usize>>, o: Seq<bool>) -> Seq<Seq<usize>> {
    Seq::new(faces.len(), |k: int| oriented_face(faces[k], o[k]))
}

/// Reversing some of the faces can make the surface consistently oriented.
pub open spec fn orientable(faces: Seq<Seq<usize>>) -> bool {
    exists|o: Seq<bool>| o.len() == faces.len() && #[trigger] consistently_oriented(reoriented(faces, o))
}

/// A side walked one way by a face is walked the other way by the reversed face.
proof fn lemma_reverse_side(f: Seq<usize>, u: usize, v: usize)
    requires
        has_side(f.reverse(), u, v),
    ensures
        has_side(f, v, u),
{
    let r = f.reverse();
    let m = f.len() as int;
    let j = choose|j: int| 0 <= j < r.len() && #[trigger] r[j] == u && r[next_corner(j, m)] == v;
    lemma_next_corner(j, m);
    if j < m - 1 {
        let i = m - 2 - j;
        lemma_next_corner(i, m);
        assert(f[i] == v && f[next_corner(i, m)] == u);
    } else {
        let i = m - 1;
        lemma_next_corner(i, m);
        assert(f[i] == v && f[next_corner(i, m)] == u);
    }
}

/// Reversing a face turns each of its sides around.
proof fn lemma_reverse_side_iff(f: Seq<usize>, u: usize, v: usize)
    ensures
        has_side(f.reverse(), u, v) <==> has_side(f, v, u),
{
    if has_side(f.reverse(), u, v) {
        lemma_reverse_side(f, u, v);
    }
    if has_side(f, v, u) {
        assert(f.reverse().reverse() =~= f);
        lemma_reverse_side(f.reverse(), v, u);
    }
}

/// A side of a face with at least three corners lies on one of its undirected edges.
proof fn lemma_side_edge(f: Seq<usize>, u: usize, v: usize)
    requires
        f.len() >= 3,
        has_side(f, u, v),
    ensures
        face_edges(f).contains(undirected(u, v)),
{
    let i = choose|i: int| 0 <= i < f.len() && #[trigger] f[i] == u && f[next_corner(i, f.len() as int)] == v;
    assert(face_edges(f)[i] == undirected(u, v));
}

/// Faces that share an edge have at least three corners each.
proof fn lemma_adjacent_long(faces: Seq<Seq<usize>>, a: int, b: int)
    requires
        adjacent(faces, a, b),
    ensures
        faces[a].len() >= 3,
        faces[b].len() >= 3,
{
    let e = choose|e: (usize, usize)|
        #[trigger] face_edges(faces[a]).contains(e) && face_edges(faces[b]).contains(e);
}

/// Two faces that walk a shared side in opposite directions, each possibly reversed, compared
/// with a consistent orientation of the same two faces: either both agree with it or both do not.
proof fn lemma_link_agrees(
    fp: Seq<usize>,
    fk: Seq<usize>,
    alpha: bool,
    beta: bool,
    a: bool,
    b: bool,
)
    requires
        walk_opposite(oriented_face(fp, alpha), oriented_face(fk, beta)),
        forall|u: usize, v: usize|
            #[trigger] has_side(oriented_face(fp, a), u, v) ==> !has_side(oriented_face(fk, b), u, v),
    ensures
        (alpha == a) == (beta == b),
{
    let x = oriented_face(fp, alpha);
    let y = oriented_face(fk, beta);
    let (i, j) = choose|i: int, j: int|
        0 <= i < x.len() && 0 <= j < y.len() && #[trigger] x[i] == y[next_corner(j, y.len() as int)]
            && x[next_corner(i, x.len() as int)] == #[trigger] y[j];
    let u = x[i];
    let v = x[next_corner(i, x.len() as int)];
    assert(has_side(x, u, v));
    assert(has_side(y, v, u));
    lemma_reverse_side_iff(fp, u, v);
    lemma_reverse_side_iff(fp, v, u);
    lemma_reverse_side_iff(fk, u, v);
    lemma_reverse_side_iff(fk, v, u);
    assert(fp.reverse().reverse() =~= fp);
    assert(fk.reverse().reverse() =~= fk);
    lemma_reverse_side_iff(fp.reverse(), u, v);
    lemma_reverse_side_iff(fk.reverse(), v, u);
    if alpha == a && beta != b {
        assert(has_side(oriented_face(fp, a), u, v));
        assert(has_side(oriented_face(fk, b), u, v));
    }
    if alpha != a && beta == b {
        assert(has_side(oriented_face(fp, a), v, u));
        assert(has_side(oriented_face(fk, b), v, u));
    }
}

/// Along the forest, every face agrees with the orientation `o` exactly when the root of its
/// tree does.
proof fn lemma_tree_agrees(
    faces: Seq<Seq<usize>>,
    out: Seq<Seq<usize>>,
    flips: Seq<int>,
    parent: Seq<int>,
    rank: Seq<int>,
    root: Seq<int>,
    o: Seq<bool>,
    k: int,
)
    requires
        spanning_forest(faces, out, flips, parent, rank, root),
        out.len() == faces.len(),
        forall|x: int| 0 <= x < faces.len() ==> #[trigger] out[x] == oriented_face(faces[x], flips.contains(x)),
        o.len() == faces.len(),
        consistently_oriented(reoriented(faces, o)),
        0 <= k < faces.len(),
    ensures
        0 <= root[k] < faces.len(),
        (flips.contains(k) == o[k]) == (flips.contains(root[k]) == o[root[k]]),
    decreases rank[k],
{
    assert(tree_link(faces, out, flips, parent, rank, root, k));
    if parent[k] >= 0 {
        let p = parent[k];
        assert(tree_link(faces, out, flips, parent, rank, root, p));
        lemma_tree_agrees(faces, out, flips, parent, rank, root, o, p);
        lemma_adjacent_long(faces, p, k);
        let ro = reoriented(faces, o);
        assert(ro[p] == oriented_face(faces[p], o[p]));
        assert(ro[k] == oriented_face(faces[k], o[k]));
        assert forall|u: usize, v: usize|
            #[trigger] has_side(oriented_face(faces[p], o[p]), u, v) implies !has_side(
            oriented_face(faces[k], o[k]),
            u,
            v,
        ) by {
            lemma_reverse_edges(faces[p], (0, 0));
            assert(ro[p].len() == faces[p].len());
            assert(ro[k].len() == faces[k].len());
            assert(has_side(ro[p], u, v));
        }
        lemma_link_agrees(faces[p], faces[k], flips.contains(p), flips.contains(k), o[p], o[k]);
    }
}

/// Law: reorienting an orientable surface leaves it consistently oriented. Every face agrees
/// with a consistent orientation exactly when the first face of its connected part does, so no
/// two faces walk a side the same way.
pub proof fn lemma_reoriented_is_consistent(
    faces: Seq<Seq<usize>>,
    out: Seq<Seq<usize>>,
    flips: Seq<int>,
)
    requires
        orientable(faces),
        out.len() == faces.len(),
        forall|k: int| 0 <= k < faces.len() ==> #[trigger] out[k] == oriented_face(faces[k], flips.contains(k)),
        has_spanning_forest(faces, out, flips),
    ensures
        consistently_oriented(out),
{
    let o = choose|o: Seq<bool>| o.len() == faces.len() && #[trigger] consistently_oriented(reoriented(faces, o));
    let (parent, rank, root) = choose|parent: Seq<int>, rank: Seq<int>, root: Seq<int>|
        #[trigger] spanning_forest(faces, out, flips, parent, rank, root);
    let ro = reoriented(faces, o);
    assert forall|a: int, b: int, u: usize, v: usize|
        0 <= a < out.len() && 0 <= b < out.len() && a != b && out[a].len() >= 3 && out[b].len() >= 3
            && #[trigger] has_side(out[a], u, v) implies !#[trigger] has_side(out[b], u, v) by {
        if has_side(out[b], u, v) {
            lemma_reverse_edges(faces[a], (0, 0));
            lemma_reverse_edges(faces[b], (0, 0));
            lemma_side_edge(out[a], u, v);
            lemma_side_edge(out[b], u, v);
            lemma_reverse_edges(faces[a], undirected(u, v));
            lemma_reverse_edges(faces[b], undirected(u, v));
            assert(face_edges(faces[a]).contains(undirected(u, v)));
            assert(face_edges(faces[b]).contains(undirected(u, v)));
            assert(adjacent(faces, a, b));
            assert(root[a] == root[b]);
            lemma_tree_agrees(faces, out, flips, parent, rank, root, o, a);
            lemma_tree_agrees(faces, out, flips, parent, rank, root, o, b);
            assert(ro[a] == oriented_face(faces[a], o[a]));
            assert(ro[b] == oriented_face(faces[b], o[b]));
            lemma_reverse_side_iff(faces[a], u, v);
            lemma_reverse_side_iff(faces[a], v, u);
            lemma_reverse_side_iff(faces[b], u, v);
            lemma_reverse_side_iff(faces[b], v, u);
            assert(faces[a].reverse().reverse() =~= faces[a]);
            assert(faces[b].reverse().reverse() =~= faces[b]);
            lemma_reverse_side_iff(faces[a].reverse(), v, u);
            lemma_reverse_side_iff(faces[b].reverse(), v, u);
            if flips.contains(a) == o[a] {
                assert(has_side(ro[a], u, v));
                assert(has_side(ro[b], u, v));
            } else {
                assert(has_side(ro[a], v, u));
                assert(has_side(ro[b], v, u));
            }
        }
    }
}

/// Every face of a consistently oriented surface keeps its winding along the forest.
proof fn lemma_consistent_unflipped(
    faces: Seq<Seq<usize>>,
    out: Seq<Seq<usize>>,
    flips: Seq<int>,
    parent: Seq<int>,
    rank: Seq<int>,
    root: Seq<int>,
    k: int,
)
    requires
        consistently_oriented(faces),
        spanning_forest(faces, out, flips, parent, rank, root),
        out.len() == faces.len(),
        forall|x: int| 0 <= x < faces.len() ==> #[trigger] out[x] == oriented_face(faces[x], flips.contains(x)),
        0 <= k < faces.len(),
    ensures
        !flips.contains(k),
    decreases rank[k],
{
    assert(tree_link(faces, out, flips, parent, rank, root, k));
    if parent[k] >= 0 {
        let p = parent[k];
        assert(tree_link(faces, out, flips, parent, rank, root, p));
        lemma_consistent_unflipped(faces, out, flips, parent, rank, root, p);
        lemma_adjacent_long(faces, p, k);
        assert forall|u: usize, v: usize|
            #[trigger] has_side(oriented_face(faces[p], false), u, v) implies !has_side(
            oriented_face(faces[k], false),
            u,
            v,
        ) by {
            assert(has_side(faces[p], u, v));
        }
        lemma_link_agrees(faces[p], faces[k], flips.contains(p), flips.contains(k), false, false);
    }
}

/// Law: reorienting a consistently oriented surface flips nothing: no flip is recorded and every
/// face comes back as it was.
pub proof fn lemma_consistent_is_kept(
    faces: Seq<Seq<usize>>,
    out: Seq<Seq<usize>>,
    audits: Seq<FlipAudit>,
)
    requires
        consistently_oriented(faces),
        out.len() == faces.len(),
        audits_well_formed(faces, audits),
        forall|k: int|
            0 <= k < faces.len() ==> #[trigger] out[k] == oriented_face(
                faces[k],
                audit_indices(audits).contains(k),
            ),
        has_spanning_forest(faces, out, audit_indices(audits)),
    ensures
        audits.len() == 0,
        out == faces,
{
    let flips = audit_indices(audits);
    let (parent, rank, root) = choose|parent: Seq<int>, rank: Seq<int>, root: Seq<int>|
        #[trigger] spanning_forest(faces, out, flips, parent, rank, root);
    if audits.len() > 0 {
        let k = audits[0].face_index as int;
        assert(flips[0] == k);
        lemma_consistent_unflipped(faces, out, flips, parent, rank, root, k);
    }
    assert forall|k: int| 0 <= k < faces.len() implies #[trigger] out[k] == faces[k] by {
        lemma_consistent_unflipped(faces, out, flips, parent, rank, root, k);
    }
    assert(out =~= faces);
}

/// Law: reorienting twice changes nothing the second time. After one pass over an orientable
/// surface, a second pass records no flip and gives back the same faces.
pub proof fn lemma_reorienting_is_idempotent(
    faces: Seq<Seq<usize>>,
    once: Seq<Seq<usize>>,
    audits: Seq<FlipAudit>,
    twice: Seq<Seq<usize>>,
    audits2: Seq<FlipAudit>,
)
    requires
        orientable(faces),
        once.len() == faces.len(),
        forall|k: int|
            0 <= k < faces.len() ==> #[trigger] once[k] == oriented_face(
                faces[k],
                audit_indices(audits).contains(k),
            ),
        has_spanning_forest(faces, once, audit_indices(audits)),
        twice.len() == once.len(),
        audits_well_formed(once, audits2),
        forall|k: int|
            0 <= k < once.len() ==> #[trigger] twice[k] == oriented_face(
                once[k],
                audit_indices(audits2).contains(k),
            ),
        has_spanning_forest(once, twice, audit_indices(audits2)),
    ensures
        audits2.len() == 0,
        twice == once,
{
    lemma_reoriented_is_consistent(faces, once, audit_indices(audits));
    lemma_consistent_is_kept(once, twice, audits2);
}

} // verus!
