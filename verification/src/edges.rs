//! Faces of polygon meshes: fan triangulation, and their undirected edges: extraction, counting
//! and classification.
use rayon::iter::IntoParallelRefIterator;
use rayon::iter::ParallelIterator;
use std::collections::HashMap;
use vstd::prelude::*;

verus! {

broadcast use {
    vstd::seq_lib::group_to_multiset_ensures,
    vstd::std_specs::hash::group_hash_axioms,
};

/// The faces of a mesh as plain sequences of vertex indices.
pub open spec fn face_seqs(faces: Seq<Vec<usize>>) -> Seq<Seq<usize>> {
    faces.map_values(|f: Vec<usize>| f@)
}

/// An undirected edge, written with its smaller endpoint first.
pub open spec fn undirected(u: usize, v: usize) -> (usize, usize) {
    if u < v {
        (u, v)
    } else {
        (v, u)
    }
}

/// Position of the corner that follows corner `i` when walking around a face of `n` corners.
pub open spec fn next_corner(i: int, n: int) -> int {
    (i + 1) % n
}

pub proof fn lemma_next_corner(i: int, n: int)
    requires
        0 <= i < n,
    ensures
        next_corner(i, n) == if i + 1 < n {
            i + 1
        } else {
            0
        },
{
    if i + 1 < n {
        vstd::arithmetic::div_mod::lemma_small_mod((i + 1) as nat, n as nat);
    } else {
        vstd::arithmetic::div_mod::lemma_mod_self_0(n);
    }
}

/// The undirected edges of a face, one per side, in walking order.
/// A face with fewer than three corners has no edges.
pub open spec fn face_edges(face: Seq<usize>) -> Seq<(usize, usize)> {
    if face.len() < 3 {
        Seq::empty()
    } else {
        Seq::new(
            face.len(),
            |i: int| undirected(face[i], face[next_corner(i, face.len() as int)]),
        )
    }
}

/// All edge occurrences of a mesh, face after face.
pub open spec fn mesh_edges(faces: Seq<Seq<usize>>) -> Seq<(usize, usize)>
    decreases faces.len(),
{
    if faces.len() == 0 {
        Seq::empty()
    } else {
        mesh_edges(faces.drop_last()) + face_edges(faces.last())
    }
}

/// How many face sides lie on the undirected edge `e`.
pub open spec fn edge_multiplicity(faces: Seq<Seq<usize>>, e: (usize, usize)) -> nat {
    mesh_edges(faces).to_multiset().count(e)
}

/// The set of distinct undirected edges of a mesh.
pub open spec fn edge_set(faces: Seq<Seq<usize>>) -> Set<(usize, usize)> {
    mesh_edges(faces).to_set()
}

/// Fan triangulation of a face: the triangles `(f0, fi, fi+1)`, with each index cut to 32 bits.
pub open spec fn fan_triangle(face: Seq<usize>, i: int) -> Seq<u32> {
    seq![face[0] as u32, face[i + 1] as u32, face[i + 2] as u32]
}

/// Number of triangles in the fan triangulation of a face of `n` corners.
pub open spec fn fan_len(n: nat) -> nat {
    if n < 3 {
        0
    } else {
        (n - 2) as nat
    }
}

pub proof fn lemma_push_contains<A>(s: Seq<A>, x: A, y: A)
    ensures
        s.push(x).contains(y) <==> (s.contains(y) || y == x),
{
    if s.push(x).contains(y) && y != x {
        let i = choose|i: int| 0 <= i < s.push(x).len() && s.push(x)[i] == y;
        assert(s[i] == y);
    }
    if s.contains(y) {
        let i = choose|i: int| 0 <= i < s.len() && s[i] == y;
        assert(s.push(x)[i] == y);
    }
    if y == x {
        assert(s.push(x)[s.len() as int] == y);
    }
}

pub proof fn lemma_mesh_edges_take_succ(faces: Seq<Seq<usize>>, i: int)
    requires
        0 <= i < faces.len(),
    ensures
        mesh_edges(faces.take(i + 1)) == mesh_edges(faces.take(i)) + face_edges(faces[i]),
{
    assert(faces.take(i + 1).drop_last() =~= faces.take(i));
}

pub proof fn lemma_mesh_edges_full(faces: Seq<Seq<usize>>)
    ensures
        mesh_edges(faces.take(faces.len() as int)) == mesh_edges(faces),
{
    assert(faces.take(faces.len() as int) =~= faces);
}

/// Splits a fan-triangulated polygon into triangles `(f0, fi, fi+1)`.
pub fn triangulate_face(face: &[usize]) -> (triangles: Vec<[u32; 3]>)
    ensures
        triangles@.len() == fan_len(face@.len()),
        forall|i: int|
            0 <= i < triangles@.len() ==> #[trigger] triangles@[i]@ == fan_triangle(face@, i),
        face@.len() >= 3 ==> triangles@.len() == face@.len() - 2,
        face@.len() < 3 ==> triangles@.len() == 0,
        forall|i: int|
            0 <= i < triangles@.len() ==> #[trigger] triangles@[i]@ == seq![
                face@[0] as u32,
                face@[i + 1] as u32,
                face@[i + 2] as u32,
            ],
{
    let mut triangles: Vec<[u32; 3]> = Vec::new();
    if face.len() < 3 {
        return triangles;
    }
    let v0 = face[0] as u32;
    let last = face.len() - 1;
    for i in 1..last
        invariant
            last == face@.len() - 1,
            face@.len() >= 3,
            v0 == face@[0] as u32,
            triangles@.len() == i - 1,
            forall|k: int|
                0 <= k < triangles@.len() ==> #[trigger] triangles@[k]@ == fan_triangle(face@, k),
    {
        let v1 = face[i] as u32;
        let v2 = face[i + 1] as u32;
        let tri = [v0, v1, v2];
        assert(tri@ =~= fan_triangle(face@, i - 1));
        triangles.push(tri);
    }
    triangles
}

/// The fan triangles of all faces, face after face.
pub open spec fn mesh_triangles(faces: Seq<Seq<usize>>) -> Seq<Seq<u32>>
    decreases faces.len(),
{
    if faces.len() == 0 {
        Seq::empty()
    } else {
        mesh_triangles(faces.drop_last()) + Seq::new(
            fan_len(faces.last().len()),
            |i: int| fan_triangle(faces.last(), i),
        )
    }
}

/// Law: triangulating a mesh with one more face appends that face's fan: for a face of `n >= 3`
/// corners the `n - 2` triangles `(f0, fi, fi+1)`, in order, and nothing for a shorter face,
/// whatever the number of corners.
pub proof fn lemma_mesh_triangles_append(faces: Seq<Seq<usize>>, f: Seq<usize>)
    ensures
        mesh_triangles(faces.push(f)) == mesh_triangles(faces) + Seq::new(
            if f.len() >= 3 {
                (f.len() - 2) as nat
            } else {
                0
            },
            |i: int| seq![f[0] as u32, f[i + 1] as u32, f[i + 2] as u32],
        ),
{
    assert(faces.push(f).drop_last() =~= faces);
    assert(faces.push(f).last() == f);
}

/// Law: the triangulation of two meshes put one after the other is the triangulation of the
/// first followed by that of the second.
pub proof fn lemma_mesh_triangles_concat(a: Seq<Seq<usize>>, b: Seq<Seq<usize>>)
    ensures
        mesh_triangles(a + b) == mesh_triangles(a) + mesh_triangles(b),
    decreases b.len(),
{
    if b.len() == 0 {
        assert(a + b =~= a);
        assert(mesh_triangles(a) + mesh_triangles(b) =~= mesh_triangles(a));
    } else {
        let b0 = b.drop_last();
        lemma_mesh_triangles_concat(a, b0);
        assert((a + b).drop_last() =~= a + b0);
        assert((a + b).last() == b.last());
        assert(mesh_triangles(a) + mesh_triangles(b) =~= mesh_triangles(a) + mesh_triangles(b0)
            + Seq::new(fan_len(b.last().len()), |i: int| fan_triangle(b.last(), i)));
    }
}

/// Fan triangulation of every face, face after face.
pub fn triangulate_mesh(faces: &[Vec<usize>]) -> (triangles: Vec<[u32; 3]>)
    ensures
        triangles@.map_values(|t: [u32; 3]| t@) == mesh_triangles(face_seqs(faces@)),
{
    let ghost fs = face_seqs(faces@);
    let mut triangles: Vec<[u32; 3]> = Vec::new();
    for f in 0..faces.len()
        invariant
            fs == face_seqs(faces@),
            triangles@.map_values(|t: [u32; 3]| t@) == mesh_triangles(fs.take(f as int)),
    {
        let tris = triangulate_face(faces[f].as_slice());
        let ghost before = triangles@;
        for k in 0..tris.len()
            invariant
                triangles@ == before + tris@.take(k as int),
        {
            triangles.push(tris[k]);
            assert(triangles@ =~= before + tris@.take(k + 1));
        }
        proof {
            assert(tris@.take(tris@.len() as int) =~= tris@);
            assert(fs.take(f + 1).drop_last() =~= fs.take(f as int));
            assert(fs[f as int] == faces@[f as int]@);
            assert(triangles@.map_values(|t: [u32; 3]| t@) =~= mesh_triangles(fs.take(f + 1)));
        }
    }
    proof {
        assert(fs.take(fs.len() as int) =~= fs);
    }
    triangles
}

/// The undirected edges of one face, in walking order.
pub fn face_edge_list(face: &Vec<usize>) -> (edges: Vec<(usize, usize)>)
    ensures
        edges@ == face_edges(face@),
{
    let mut edges: Vec<(usize, usize)> = Vec::new();
    let len = face.len();
    if len < 3 {
        assert(edges@ =~= face_edges(face@));
        return edges;
    }
    for i in 0..len
        invariant
            len == face@.len(),
            len >= 3,
            edges@.len() == i,
            forall|k: int|
                0 <= k < i ==> #[trigger] edges@[k] == undirected(
                    face@[k],
                    face@[next_corner(k, len as int)],
                ),
    {
        let u = face[i];
        let v = face[(i + 1) % len];
        let edge = if u < v {
            (u, v)
        } else {
            (v, u)
        };
        edges.push(edge);
    }
    assert(edges@ =~= face_edges(face@));
    edges
}

/// Edge lists of all faces, computed on rayon's thread pool.
///
/// Calls `rayon::iter::ParallelIterator::map` and `collect` over `par_iter()` of the faces.
/// Trusted claim: rayon's collect into a `Vec` keeps the order and the number of items of an
/// indexed parallel iterator, so entry `i` is what `face_edge_list` returns for face `i`.
#[verifier::external_body]
fn face_edge_lists(faces: &[Vec<usize>]) -> (lists: Vec<Vec<(usize, usize)>>)
    ensures
        lists@.len() == faces@.len(),
        forall|i: int| 0 <= i < faces@.len() ==> #[trigger] lists@[i]@ == face_edges(faces@[i]@),
{
    faces.par_iter().map(|face| face_edge_list(face)).collect()
}

/// Key of an undirected edge in a hash table: both endpoints packed into one integer.
pub open spec fn edge_key(e: (usize, usize)) -> u128 {
    (e.0 as int * 0x1_0000_0000_0000_0000 + e.1 as int) as u128
}

pub proof fn lemma_edge_key_injective(a: (usize, usize), b: (usize, usize))
    requires
        edge_key(a) == edge_key(b),
    ensures
        a == b,
{
    let c: int = 0x1_0000_0000_0000_0000;
    assert(a.0 as int * c + a.1 as int == b.0 as int * c + b.1 as int);
    if a.0 < b.0 {
        assert(a.0 as int * c + c <= b.0 as int * c) by (nonlinear_arith)
            requires
                a.0 < b.0,
                c > 0,
        ;
    } else if b.0 < a.0 {
        assert(b.0 as int * c + c <= a.0 as int * c) by (nonlinear_arith)
            requires
                b.0 < a.0,
                c > 0,
        ;
    }
}

pub fn make_edge_key(e: (usize, usize)) -> (key: u128)
    ensures
        key == edge_key(e),
{
    let hi = e.0 as u128;
    let lo = e.1 as u128;
    assert(hi * 0x1_0000_0000_0000_0000u128 + lo <= u128::MAX) by (nonlinear_arith)
        requires
            hi < 0x1_0000_0000_0000_0000u128,
            lo < 0x1_0000_0000_0000_0000u128,
    ;
    hi * 0x1_0000_0000_0000_0000u128 + lo
}

/// A count of edge occurrences that stops at the largest `usize`.
pub open spec fn capped(n: nat) -> usize {
    if n > usize::MAX {
        usize::MAX
    } else {
        n as usize
    }
}

/// Edge `e` occurs at position `m` of the occurrences `occ`.
pub open spec fn occurs_at(occ: Seq<(usize, usize)>, m: int, e: (usize, usize)) -> bool {
    0 <= m < occ.len() && occ[m] == e
}

/// In the occurrences `occ`, edge `x` turns up before any occurrence of edge `y`.
pub open spec fn first_seen_before(occ: Seq<(usize, usize)>, x: (usize, usize), y: (usize, usize)) -> bool {
    forall|m: int| #[trigger] occurs_at(occ, m, y) ==> occ.take(m).contains(x)
}

/// The edges of `list` come in the order in which they first turn up in `occ`.
pub open spec fn in_first_appearance_order(list: Seq<(usize, usize)>, occ: Seq<(usize, usize)>) -> bool {
    forall|k1: int, k2: int|
        0 <= k1 < k2 < list.len() ==> first_seen_before(occ, #[trigger] list[k1], #[trigger] list[k2])
}

/// Two edges cannot each turn up before the other.
proof fn lemma_first_seen_asymmetric(
    occ: Seq<(usize, usize)>,
    x: (usize, usize),
    y: (usize, usize),
    m: int,
)
    requires
        0 <= m < occ.len(),
        occ[m] == y,
    ensures
        !(first_seen_before(occ, x, y) && first_seen_before(occ, y, x)),
    decreases m,
{
    if first_seen_before(occ, x, y) && first_seen_before(occ, y, x) {
        assert(occurs_at(occ, m, y));
        assert(occ.take(m).contains(x));
        let mx = choose|mx: int| 0 <= mx < m && occ.take(m)[mx] == x;
        assert(occ[mx] == x);
        assert(occurs_at(occ, mx, x));
        assert(occ.take(mx).contains(y));
        let my = choose|my: int| 0 <= my < mx && occ.take(mx)[my] == y;
        assert(occ[my] == y);
        lemma_first_seen_asymmetric(occ, x, y, my);
    }
}

/// Law: a list of distinct edges in the order of their first appearance is fixed by its set of
/// edges: two such lists with the same edges are equal.
pub proof fn lemma_first_appearance_order_unique(
    l1: Seq<(usize, usize)>,
    l2: Seq<(usize, usize)>,
    occ: Seq<(usize, usize)>,
)
    requires
        l1.no_duplicates(),
        l2.no_duplicates(),
        in_first_appearance_order(l1, occ),
        in_first_appearance_order(l2, occ),
        forall|e: (usize, usize)| #[trigger] l1.contains(e) <==> l2.contains(e),
        forall|e: (usize, usize)| #[trigger] l1.contains(e) ==> occ.contains(e),
    ensures
        l1 == l2,
    decreases l1.len(),
{
    if l1.len() == 0 {
        if l2.len() > 0 {
            assert(l2.contains(l2[0]));
            assert(l1.contains(l2[0]));
        }
        assert(l1 =~= l2);
    } else {
        assert(l1.contains(l1[0]));
        assert(l2.len() > 0);
        let x = l1[0];
        let y = l2[0];
        if x != y {
            assert(l2.contains(y));
            assert(l1.contains(y));
            assert(l2.contains(x));
            let i = choose|i: int| 0 <= i < l1.len() && l1[i] == y;
            assert(i > 0);
            assert(first_seen_before(occ, l1[0], l1[i]));
            let j = choose|j: int| 0 <= j < l2.len() && l2[j] == x;
            assert(j > 0);
            assert(first_seen_before(occ, l2[0], l2[j]));
            assert(occ.contains(y));
            let m = choose|m: int| 0 <= m < occ.len() && occ[m] == y;
            lemma_first_seen_asymmetric(occ, x, y, m);
        }
        let r1 = l1.drop_first();
        let r2 = l2.drop_first();
        assert forall|k1: int, k2: int| 0 <= k1 < k2 < r1.len() implies first_seen_before(
            occ,
            #[trigger] r1[k1],
            #[trigger] r1[k2],
        ) by {
            assert(r1[k1] == l1[k1 + 1] && r1[k2] == l1[k2 + 1]);
        }
        assert forall|k1: int, k2: int| 0 <= k1 < k2 < r2.len() implies first_seen_before(
            occ,
            #[trigger] r2[k1],
            #[trigger] r2[k2],
        ) by {
            assert(r2[k1] == l2[k1 + 1] && r2[k2] == l2[k2 + 1]);
        }
        assert forall|e: (usize, usize)| #[trigger] r1.contains(e) <==> r2.contains(e) by {
            if r1.contains(e) {
                let i = choose|i: int| 0 <= i < r1.len() && r1[i] == e;
                assert(l1[i + 1] == e);
                assert(l1.contains(e));
                assert(l2.contains(e));
                assert(e != x);
                let j = choose|j: int| 0 <= j < l2.len() && l2[j] == e;
                assert(j != 0);
                assert(r2[j - 1] == e);
            }
            if r2.contains(e) {
                let j = choose|j: int| 0 <= j < r2.len() && r2[j] == e;
                assert(l2[j + 1] == e);
                assert(l2.contains(e));
                assert(l1.contains(e));
                assert(e != y);
                let i = choose|i: int| 0 <= i < l1.len() && l1[i] == e;
                assert(i != 0);
                assert(r1[i - 1] == e);
            }
        }
        assert forall|e: (usize, usize)| #[trigger] r1.contains(e) implies occ.contains(e) by {
            let i = choose|i: int| 0 <= i < r1.len() && r1[i] == e;
            assert(l1[i + 1] == e);
            assert(l1.contains(e));
        }
        lemma_first_appearance_order_unique(r1, r2, occ);
        assert(l1 =~= seq![x].add(r1));
        assert(l2 =~= seq![y].add(r2));
    }
}

/// One more occurrence `e` keeps the order of a list of edges that all occurred already, and of
/// that list with `e` added when `e` is new.
proof fn lemma_order_push(
    list: Seq<(usize, usize)>,
    done: Seq<(usize, usize)>,
    e: (usize, usize),
    grown: Seq<(usize, usize)>,
)
    requires
        in_first_appearance_order(list, done),
        forall|x: (usize, usize)| #[trigger] list.contains(x) ==> done.contains(x),
        grown == list || (grown == list.push(e) && !done.contains(e)),
    ensures
        in_first_appearance_order(grown, done.push(e)),
{
    let occ = done.push(e);
    assert forall|k1: int, k2: int| 0 <= k1 < k2 < grown.len() implies first_seen_before(
        occ,
        #[trigger] grown[k1],
        #[trigger] grown[k2],
    ) by {
        assert(grown[k1] == list[k1]);
        assert(list.contains(list[k1]));
        assert forall|m: int| #[trigger] occurs_at(occ, m, grown[k2]) implies occ.take(m).contains(
            grown[k1],
        ) by {
            if m < done.len() {
                assert(occ[m] == done[m]);
                assert(occ.take(m) =~= done.take(m));
                if k2 < list.len() {
                    assert(grown[k2] == list[k2]);
                    assert(first_seen_before(done, list[k1], list[k2]));
                    assert(occurs_at(done, m, list[k2]));
                } else {
                    assert(done.contains(done[m]));
                }
            } else {
                assert(occ.take(m) =~= done);
            }
        }
    }
}

/// Distinct undirected edges of a mesh in order of first appearance, each with its multiplicity.
pub struct EdgeTally {
    pub edges: Vec<(usize, usize)>,
    pub counts: Vec<usize>,
}

impl EdgeTally {
    /// The tally describes exactly the edge occurrences `occ`.
    pub open spec fn describes(&self, occ: Seq<(usize, usize)>) -> bool {
        &&& self.edges@.len() == self.counts@.len()
        &&& self.edges@.no_duplicates()
        &&& in_first_appearance_order(self.edges@, occ)
        &&& forall|e: (usize, usize)| #[trigger] self.edges@.contains(e) <==> occ.contains(e)
        &&& forall|k: int|
            0 <= k < self.edges@.len() ==> #[trigger] self.counts@[k] == capped(
                occ.to_multiset().count(self.edges@[k]),
            )
    }
}

/// Counts how many face sides lie on each distinct undirected edge of the mesh.
pub fn tally_edges(faces: &[Vec<usize>]) -> (tally: EdgeTally)
    ensures
        tally.describes(mesh_edges(face_seqs(faces@))),
{
    let ghost fs = face_seqs(faces@);
    let lists = face_edge_lists(faces);
    let mut edges: Vec<(usize, usize)> = Vec::new();
    let mut counts: Vec<usize> = Vec::new();
    let mut index: HashMap<u128, usize> = HashMap::new();
    let n = faces.len();
    for i in 0..n
        invariant
            n == faces@.len(),
            fs == face_seqs(faces@),
            lists@.len() == n,
            forall|k: int| 0 <= k < n ==> #[trigger] lists@[k]@ == face_edges(faces@[k]@),
            (EdgeTally { edges, counts }).describes(mesh_edges(fs.take(i as int))),
            forall|k: int|
                0 <= k < edges@.len() ==> #[trigger] index@.contains_key(edge_key(edges@[k]))
                    && index@[edge_key(edges@[k])] == k,
            forall|key: u128|
                #[trigger] index@.contains_key(key) ==> index@[key] < edges@.len() && edge_key(
                    edges@[index@[key] as int],
                ) == key,
    {
        let list = &lists[i];
        let ghost before = mesh_edges(fs.take(i as int));
        proof {
            lemma_mesh_edges_take_succ(fs, i as int);
            assert(fs[i as int] == faces@[i as int]@);
        }
        for j in 0..list.len()
            invariant
                0 <= i < n,
                n == fs.len(),
                list@ == face_edges(fs[i as int]),
                (EdgeTally { edges, counts }).describes(before + list@.take(j as int)),
                forall|k: int|
                    0 <= k < edges@.len() ==> #[trigger] index@.contains_key(edge_key(edges@[k]))
                        && index@[edge_key(edges@[k])] == k,
                forall|key: u128|
                    #[trigger] index@.contains_key(key) ==> index@[key] < edges@.len()
                        && edge_key(edges@[index@[key] as int]) == key,
        {
            let e = list[j];
            let ghost done = before + list@.take(j as int);
            assert(before + list@.take(j + 1) =~= done.push(e));
            let key = make_edge_key(e);
            match index.get(&key) {
                Some(pos) => {
                    let pos = *pos;
                    proof {
                        lemma_edge_key_injective(edges@[pos as int], e);
                    }
                    let c = counts[pos];
                    counts.set(pos, c.saturating_add(1));
                    assert(edges@.contains(e));
                    proof {
                        lemma_order_push(edges@, done, e, edges@);
                    }
                    assert forall|e2: (usize, usize)| #[trigger] edges@.contains(e2)
                        <==> done.push(e).contains(e2) by {
                        lemma_push_contains(done, e, e2);
                    }
                    assert forall|k: int| 0 <= k < edges@.len() implies #[trigger] counts@[k]
                        == capped(done.push(e).to_multiset().count(edges@[k])) by {
                        if k != pos {
                            assert(edges@[k] != e);
                        }
                    }
                },
                None => {
                    assert(!edges@.contains(e)) by {
                        if edges@.contains(e) {
                            let k = choose|k: int| 0 <= k < edges@.len() && edges@[k] == e;
                            assert(index@.contains_key(edge_key(edges@[k])));
                        }
                    }
                    let ghost old_edges = edges@;
                    proof {
                        assert(!done.contains(e));
                        lemma_order_push(edges@, done, e, edges@.push(e));
                    }
                    index.insert(key, edges.len());
                    edges.push(e);
                    counts.push(1);
                    assert(edges@.no_duplicates());
                    assert forall|e2: (usize, usize)| #[trigger] edges@.contains(e2)
                        <==> done.push(e).contains(e2) by {
                        lemma_push_contains(done, e, e2);
                        lemma_push_contains(old_edges, e, e2);
                    }
                    assert forall|key2: u128| #[trigger] index@.contains_key(key2) implies index@[key2]
                        < edges@.len() && edge_key(edges@[index@[key2] as int]) == key2 by {
                        if key2 != key {
                            assert(old_edges[index@[key2] as int] == edges@[index@[key2] as int]);
                        }
                    }
                    assert forall|k: int| 0 <= k < edges@.len() implies #[trigger] counts@[k]
                        == capped(done.push(e).to_multiset().count(edges@[k])) by {
                        if k < old_edges.len() {
                            assert(old_edges[k] != e);
                        } else {
                            assert(!done.contains(e));
                        }
                    }
                    assert forall|k: int| 0 <= k < edges@.len() implies #[trigger] index@.contains_key(
                        edge_key(edges@[k]),
                    ) && index@[edge_key(edges@[k])] == k by {
                        if k < old_edges.len() {
                            if edge_key(edges@[k]) == key {
                                lemma_edge_key_injective(edges@[k], e);
                            }
                        }
                    }
                },
            }
        }
        assert(list@.take(list@.len() as int) =~= list@);
    }
    proof {
        lemma_mesh_edges_full(fs);
    }
    EdgeTally { edges, counts }
}

/// Number of distinct undirected edges of the mesh (the `E` of the Euler characteristic).
pub fn count_unique_edges(faces: &[Vec<usize>]) -> (count: usize)
    ensures
        count == edge_set(face_seqs(faces@)).len(),
{
    let tally = tally_edges(faces);
    proof {
        let occ = mesh_edges(face_seqs(faces@));
        assert(tally.edges@.to_set() =~= occ.to_set());
        tally.edges@.unique_seq_to_set();
    }
    tally.edges.len()
}

/// Keeps the edges of a tally whose multiplicity passes `keep_count`.
fn select_edges(
    tally: &EdgeTally,
    lo: usize,
    hi: usize,
    Ghost(occ): Ghost<Seq<(usize, usize)>>,
) -> (selected: Vec<(usize, usize)>)
    requires
        tally.edges@.len() == tally.counts@.len(),
        tally.edges@.no_duplicates(),
        in_first_appearance_order(tally.edges@, occ),
    ensures
        selected@.no_duplicates(),
        in_first_appearance_order(selected@, occ),
        forall|e: (usize, usize)|
            #[trigger] selected@.contains(e) <==> exists|k: int|
                0 <= k < tally.edges@.len() && tally.edges@[k] == e && lo <= tally.counts@[k]
                    <= hi,
{
    let mut selected: Vec<(usize, usize)> = Vec::new();
    for k in 0..tally.edges.len()
        invariant
            tally.edges@.len() == tally.counts@.len(),
            tally.edges@.no_duplicates(),
            in_first_appearance_order(tally.edges@, occ),
            selected@.no_duplicates(),
            in_first_appearance_order(selected@, occ),
            forall|e: (usize, usize)|
                #[trigger] selected@.contains(e) <==> exists|m: int|
                    0 <= m < k && tally.edges@[m] == e && lo <= tally.counts@[m] <= hi,
    {
        let c = tally.counts[k];
        if lo <= c && c <= hi {
            let e = tally.edges[k];
            assert(!selected@.contains(e)) by {
                if selected@.contains(e) {
                    let m = choose|m: int|
                        0 <= m < k && tally.edges@[m] == e && lo <= tally.counts@[m] <= hi;
                    assert(tally.edges@[m] == tally.edges@[k as int]);
                }
            }
            let ghost old_sel = selected@;
            selected.push(e);
            assert forall|k1: int, k2: int| 0 <= k1 < k2 < selected@.len() implies first_seen_before(
                occ,
                #[trigger] selected@[k1],
                #[trigger] selected@[k2],
            ) by {
                assert(selected@[k1] == old_sel[k1]);
                if k2 < old_sel.len() {
                    assert(selected@[k2] == old_sel[k2]);
                } else {
                    assert(old_sel.contains(old_sel[k1]));
                    let m = choose|m: int|
                        0 <= m < k && tally.edges@[m] == old_sel[k1] && lo <= tally.counts@[m] <= hi;
                    assert(first_seen_before(occ, tally.edges@[m], tally.edges@[k as int]));
                }
            }
            assert forall|e2: (usize, usize)| #[trigger] selected@.contains(e2) <==> exists|m: int|
                0 <= m < k + 1 && tally.edges@[m] == e2 && lo <= tally.counts@[m] <= hi by {
                lemma_push_contains(old_sel, e, e2);
                if exists|m: int|
                    0 <= m < k + 1 && tally.edges@[m] == e2 && lo <= tally.counts@[m] <= hi {
                    let m = choose|m: int|
                        0 <= m < k + 1 && tally.edges@[m] == e2 && lo <= tally.counts@[m] <= hi;
                    if m < k {
                        assert(old_sel.contains(e2));
                    }
                    assert(selected@[old_sel.len() as int] == e);
                }
            }
        } else {
            assert forall|e2: (usize, usize)| #[trigger] selected@.contains(e2) <==> exists|m: int|
                0 <= m < k + 1 && tally.edges@[m] == e2 && lo <= tally.counts@[m] <= hi by {
                if exists|m: int|
                    0 <= m < k + 1 && tally.edges@[m] == e2 && lo <= tally.counts@[m] <= hi {
                    let m = choose|m: int|
                        0 <= m < k + 1 && tally.edges@[m] == e2 && lo <= tally.counts@[m] <= hi;
                    assert(m != k);
                }
            }
        }
    }
    selected
}

/// Boundary ("naked") edges: those that exactly one face side lies on.
/// Each appears once; the order is that of first appearance in the mesh.
pub fn find_boundary_edges(faces: &[Vec<usize>]) -> (boundary: Vec<(usize, usize)>)
    ensures
        boundary@.no_duplicates(),
        in_first_appearance_order(boundary@, mesh_edges(face_seqs(faces@))),
        forall|e: (usize, usize)|
            #[trigger] boundary@.contains(e) <==> edge_multiplicity(face_seqs(faces@), e) == 1,
{
    let tally = tally_edges(faces);
    let boundary = select_edges(&tally, 1, 1, Ghost(mesh_edges(face_seqs(faces@))));
    proof {
        let occ = mesh_edges(face_seqs(faces@));
        assert forall|e: (usize, usize)| #[trigger] boundary@.contains(e) <==> edge_multiplicity(
            face_seqs(faces@),
            e,
        ) == 1 by {
            if edge_multiplicity(face_seqs(faces@), e) == 1 {
                assert(occ.contains(e));
                assert(tally.edges@.contains(e));
                let k = choose|k: int| 0 <= k < tally.edges@.len() && tally.edges@[k] == e;
                assert(tally.counts@[k] == capped(occ.to_multiset().count(tally.edges@[k])));
            }
        }
    }
    boundary
}

/// Non-manifold edges: those that more than two face sides lie on.
/// Each appears once; the order is that of first appearance in the mesh.
pub fn find_non_manifold_edges(faces: &[Vec<usize>]) -> (non_manifold: Vec<(usize, usize)>)
    ensures
        non_manifold@.no_duplicates(),
        in_first_appearance_order(non_manifold@, mesh_edges(face_seqs(faces@))),
        forall|e: (usize, usize)|
            #[trigger] non_manifold@.contains(e) <==> edge_multiplicity(face_seqs(faces@), e) > 2,
{
    let tally = tally_edges(faces);
    let non_manifold = select_edges(&tally, 3, usize::MAX, Ghost(mesh_edges(face_seqs(faces@))));
    proof {
        let occ = mesh_edges(face_seqs(faces@));
        assert forall|e: (usize, usize)| #[trigger] non_manifold@.contains(e)
            <==> edge_multiplicity(face_seqs(faces@), e) > 2 by {
            if edge_multiplicity(face_seqs(faces@), e) > 2 {
                assert(occ.contains(e));
                assert(tally.edges@.contains(e));
                let k = choose|k: int| 0 <= k < tally.edges@.len() && tally.edges@[k] == e;
                assert(tally.counts@[k] == capped(occ.to_multiset().count(tally.edges@[k])));
            }
        }
    }
    non_manifold
}

} // verus!
