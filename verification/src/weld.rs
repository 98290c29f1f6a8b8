//! Welding of coincident vertices, decided by the vertices' position signatures.
use vstd::hash_map::StringHashMap;
use vstd::prelude::*;

verus! {

/// Record of one vertex merged into an earlier vertex with the same signature.
pub struct WeldAudit<P> {
    pub old_index: usize,
    pub merged_into: usize,
    pub coordinates: P,
}

/// Signatures as plain character sequences; `None` marks a vertex that takes no part in welding.
pub open spec fn sig_views(sigs: Seq<Option<String>>) -> Seq<Option<Seq<char>>> {
    sigs.map_values(
        |o: Option<String>|
            match o {
                Some(s) => Some(s@),
                None => None,
            },
    )
}

/// Vertex `i` has a signature that no earlier vertex has.
pub open spec fn first_of_kind(sigs: Seq<Option<Seq<char>>>, i: int) -> bool {
    &&& sigs[i] is Some
    &&& forall|j: int| 0 <= j < i ==> sigs[j] != sigs[i]
}

/// The vertices among the first `n` that are kept: the first of each signature, in order.
pub open spec fn kept_upto(sigs: Seq<Option<Seq<char>>>, n: int) -> Seq<int>
    decreases n,
{
    if n <= 0 {
        Seq::empty()
    } else if first_of_kind(sigs, n - 1) {
        kept_upto(sigs, n - 1).push(n - 1)
    } else {
        kept_upto(sigs, n - 1)
    }
}

/// The vertices among the first `n` that are merged into an earlier vertex, in order.
pub open spec fn merged_upto(sigs: Seq<Option<Seq<char>>>, n: int) -> Seq<int>
    decreases n,
{
    if n <= 0 {
        Seq::empty()
    } else if sigs[n - 1] is Some && !first_of_kind(sigs, n - 1) {
        merged_upto(sigs, n - 1).push(n - 1)
    } else {
        merged_upto(sigs, n - 1)
    }
}

pub open spec fn kept_vertices(sigs: Seq<Option<Seq<char>>>) -> Seq<int> {
    kept_upto(sigs, sigs.len() as int)
}

pub open spec fn merged_vertices(sigs: Seq<Option<Seq<char>>>) -> Seq<int> {
    merged_upto(sigs, sigs.len() as int)
}

/// After welding, old vertex `i` is new vertex `m`: the kept vertex with its signature, or
/// vertex 0 when it has no signature.
pub open spec fn welds_to(sigs: Seq<Option<Seq<char>>>, i: int, m: int) -> bool {
    if sigs[i] is None {
        m == 0
    } else {
        0 <= m < kept_vertices(sigs).len() && sigs[kept_vertices(sigs)[m]] == sigs[i]
    }
}

/// The kept vertices form a growing list: what is kept among the first `a` vertices stays first.
pub proof fn lemma_kept_prefix(sigs: Seq<Option<Seq<char>>>, a: int, b: int)
    requires
        0 <= a <= b,
    ensures
        kept_upto(sigs, a).len() <= kept_upto(sigs, b).len(),
        forall|j: int|
            0 <= j < kept_upto(sigs, a).len() ==> #[trigger] kept_upto(sigs, b)[j] == kept_upto(
                sigs,
                a,
            )[j],
    decreases b - a,
{
    if a < b {
        lemma_kept_prefix(sigs, a, b - 1);
    }
}

/// What is kept lies below `n`, in increasing order, and is the first of its signature.
pub proof fn lemma_kept_facts(sigs: Seq<Option<Seq<char>>>, n: int)
    requires
        0 <= n,
    ensures
        forall|j: int|
            0 <= j < kept_upto(sigs, n).len() ==> 0 <= #[trigger] kept_upto(sigs, n)[j] < n
                && first_of_kind(sigs, kept_upto(sigs, n)[j]),
        forall|j: int, k: int|
            0 <= j < k < kept_upto(sigs, n).len() ==> #[trigger] kept_upto(sigs, n)[j]
                < #[trigger] kept_upto(sigs, n)[k],
    decreases n,
{
    if n > 0 {
        lemma_kept_facts(sigs, n - 1);
        let prev = kept_upto(sigs, n - 1);
        if first_of_kind(sigs, n - 1) {
            assert(kept_upto(sigs, n) == prev.push(n - 1));
        } else {
            assert(kept_upto(sigs, n) == prev);
        }
    }
}

/// Vertices merged into others lie below `n`, come in increasing order, and are exactly the
/// vertices below `n` with a signature that an earlier vertex has.
pub proof fn lemma_merged_facts(sigs: Seq<Option<Seq<char>>>, n: int)
    requires
        0 <= n,
    ensures
        forall|j: int|
            0 <= j < merged_upto(sigs, n).len() ==> 0 <= #[trigger] merged_upto(sigs, n)[j] < n
                && sigs[merged_upto(sigs, n)[j]] is Some && !first_of_kind(
                sigs,
                merged_upto(sigs, n)[j],
            ),
        forall|j: int, k: int|
            0 <= j < k < merged_upto(sigs, n).len() ==> #[trigger] merged_upto(sigs, n)[j]
                < #[trigger] merged_upto(sigs, n)[k],
        forall|i: int|
            0 <= i < n && sigs[i] is Some && !first_of_kind(sigs, i) ==> #[trigger] merged_upto(
                sigs,
                n,
            ).contains(i),
    decreases n,
{
    if n > 0 {
        lemma_merged_facts(sigs, n - 1);
        let prev = merged_upto(sigs, n - 1);
        if sigs[n - 1] is Some && !first_of_kind(sigs, n - 1) {
            let cur = merged_upto(sigs, n);
            assert(cur == prev.push(n - 1));
            assert forall|i: int|
                0 <= i < n && sigs[i] is Some && !first_of_kind(sigs, i) implies #[trigger] cur.contains(
                i,
            ) by {
                if i < n - 1 {
                    assert(prev.contains(i));
                    let j = choose|j: int| 0 <= j < prev.len() && prev[j] == i;
                    assert(cur[j] == i);
                } else {
                    assert(cur[prev.len() as int] == i);
                }
            }
        } else {
            assert(merged_upto(sigs, n) == prev);
            assert forall|i: int|
                0 <= i < n && sigs[i] is Some && !first_of_kind(sigs, i) implies #[trigger] merged_upto(
                sigs,
                n,
            ).contains(i) by {
                assert(prev.contains(i));
            }
        }
    }
}

/// Law: the merges are recorded in vertex order: the merged vertices come in increasing order,
/// and they are exactly the vertices with a signature that an earlier vertex already has.
pub proof fn lemma_merges_in_vertex_order(sigs: Seq<Option<Seq<char>>>)
    ensures
        forall|j: int, k: int|
            0 <= j < k < merged_vertices(sigs).len() ==> #[trigger] merged_vertices(sigs)[j]
                < #[trigger] merged_vertices(sigs)[k],
        forall|i: int|
            0 <= i < sigs.len() ==> (#[trigger] merged_vertices(sigs).contains(i) <==> (sigs[i] is Some
                && exists|j: int| 0 <= j < i && sigs[j] == sigs[i])),
{
    lemma_merged_facts(sigs, sigs.len() as int);
    assert forall|i: int| 0 <= i < sigs.len() implies (#[trigger] merged_vertices(sigs).contains(i)
        <==> (sigs[i] is Some && exists|j: int| 0 <= j < i && sigs[j] == sigs[i])) by {
        if merged_vertices(sigs).contains(i) {
            let j = choose|j: int| 0 <= j < merged_vertices(sigs).len() && merged_vertices(sigs)[j] == i;
            assert(!first_of_kind(sigs, merged_vertices(sigs)[j]));
        }
    }
}

/// Merges vertices whose signatures agree into the first of them, renumbers the faces, and
/// records every merge. A vertex without a signature is left out and its uses become vertex 0.
pub fn weld_vertices<P: Clone>(
    vertices: &[P],
    signatures: &[Option<String>],
    faces: &[Vec<usize>],
) -> (result: (Vec<P>, Vec<Vec<usize>>, Vec<WeldAudit<P>>))
    requires
        signatures@.len() == vertices@.len(),
        vertices@.len() > 0 ==> forall|f: int, c: int|
            0 <= f < faces@.len() && 0 <= c < faces@[f]@.len() ==> #[trigger] faces@[f]@[c]
                < vertices@.len(),
    ensures
        ({
            let sv = sig_views(signatures@);
            let kept = kept_vertices(sv);
            let merged = merged_vertices(sv);
            if vertices@.len() == 0 {
                &&& result.0@.len() == 0
                &&& result.1@.len() == 0
                &&& result.2@.len() == 0
            } else {
                &&& result.0@.len() == kept.len()
                &&& forall|j: int|
                    0 <= j < kept.len() ==> cloned::<P>(vertices@[kept[j]], #[trigger] result.0@[j])
                &&& result.1@.len() == faces@.len()
                &&& forall|f: int|
                    0 <= f < faces@.len() ==> #[trigger] result.1@[f]@.len() == faces@[f]@.len()
                &&& forall|f: int, c: int|
                    0 <= f < faces@.len() && 0 <= c < faces@[f]@.len() ==> welds_to(
                        sv,
                        faces@[f]@[c] as int,
                        #[trigger] result.1@[f]@[c] as int,
                    )
                &&& result.2@.len() == merged.len()
                &&& forall|t1: int, t2: int|
                    0 <= t1 < t2 < result.2@.len() ==> #[trigger] result.2@[t1].old_index
                        < #[trigger] result.2@[t2].old_index
                &&& forall|t: int|
                    0 <= t < merged.len() ==> {
                        let a = #[trigger] result.2@[t];
                        &&& a.old_index == merged[t]
                        &&& welds_to(sv, merged[t], a.merged_into as int)
                        &&& cloned::<P>(vertices@[merged[t]], a.coordinates)
                    }
            }
        }),
{
    let n = vertices.len();
    if n == 0 {
        return (Vec::new(), Vec::new(), Vec::new());
    }
    let ghost sv = sig_views(signatures@);
    let mut unique: Vec<P> = Vec::new();
    let mut index_map: StringHashMap<usize> = StringHashMap::new();
    let mut old_to_new: Vec<usize> = vec![0; n];
    let mut audits: Vec<WeldAudit<P>> = Vec::new();
    for i in 0..n
        invariant
            n == vertices@.len(),
            n == signatures@.len(),
            sv == sig_views(signatures@),
            old_to_new@.len() == n,
            unique@.len() == kept_upto(sv, i as int).len(),
            forall|j: int|
                0 <= j < unique@.len() ==> cloned::<P>(
                    vertices@[kept_upto(sv, i as int)[j]],
                    #[trigger] unique@[j],
                ),
            audits@.len() == merged_upto(sv, i as int).len(),
            forall|t: int|
                0 <= t < audits@.len() ==> {
                    let a = #[trigger] audits@[t];
                    &&& a.old_index == merged_upto(sv, i as int)[t]
                    &&& a.merged_into < kept_upto(sv, i as int).len()
                    &&& sv[kept_upto(sv, i as int)[a.merged_into as int]] == sv[a.old_index as int]
                    &&& cloned::<P>(vertices@[merged_upto(sv, i as int)[t]], a.coordinates)
                },
            forall|key: Seq<char>|
                #[trigger] index_map@.contains_key(key) <==> exists|j: int|
                    0 <= j < i && sv[j] == Some(key),
            forall|key: Seq<char>|
                #[trigger] index_map@.contains_key(key) ==> index_map@[key] < kept_upto(
                    sv,
                    i as int,
                ).len() && sv[kept_upto(sv, i as int)[index_map@[key] as int]] == Some(key),
            forall|j: int| i <= j < n ==> #[trigger] old_to_new@[j] == 0,
            forall|j: int|
                0 <= j < i ==> if sv[j] is None {
                    #[trigger] old_to_new@[j] == 0
                } else {
                    old_to_new@[j] < kept_upto(sv, i as int).len() && sv[kept_upto(
                        sv,
                        i as int,
                    )[old_to_new@[j] as int]] == sv[j]
                },
    {
        proof {
            lemma_kept_prefix(sv, i as int, i + 1);
            lemma_kept_facts(sv, i + 1);
        }
        match &signatures[i] {
            None => {
                assert(sv[i as int] is None);
            },
            Some(sig) => {
                assert(sv[i as int] == Some(sig@));
                match index_map.get(sig.as_str()) {
                    Some(m) => {
                        let m = *m;
                        assert(!first_of_kind(sv, i as int)) by {
                            let j = choose|j: int| 0 <= j < i && sv[j] == Some(sig@);
                        }
                        old_to_new.set(i, m);
                        audits.push(
                            WeldAudit { old_index: i, merged_into: m, coordinates: vertices[i].clone() },
                        );
                        assert forall|t: int| 0 <= t < audits@.len() implies {
                            let a = #[trigger] audits@[t];
                            &&& a.old_index == merged_upto(sv, i + 1)[t]
                            &&& a.merged_into < kept_upto(sv, i + 1).len()
                            &&& sv[kept_upto(sv, i + 1)[a.merged_into as int]] == sv[a.old_index as int]
                            &&& cloned::<P>(vertices@[merged_upto(sv, i + 1)[t]], a.coordinates)
                        } by {
                            if t < audits@.len() - 1 {
                                assert(merged_upto(sv, i + 1)[t] == merged_upto(sv, i as int)[t]);
                            }
                        }
                    },
                    None => {
                        assert(first_of_kind(sv, i as int)) by {
                            assert forall|j: int| 0 <= j < i implies sv[j] != sv[i as int] by {
                                if sv[j] == sv[i as int] {
                                    assert(index_map@.contains_key(sig@));
                                }
                            }
                        }
                        let new_idx = unique.len();
                        unique.push(vertices[i].clone());
                        index_map.insert(sig.clone(), new_idx);
                        old_to_new.set(i, new_idx);
                        assert(kept_upto(sv, i + 1) == kept_upto(sv, i as int).push(i as int));
                        assert forall|key: Seq<char>| #[trigger] index_map@.contains_key(key)
                            <==> exists|j: int| 0 <= j < i + 1 && sv[j] == Some(key) by {
                            if key != sig@ && exists|j: int| 0 <= j < i + 1 && sv[j] == Some(key) {
                                let j = choose|j: int| 0 <= j < i + 1 && sv[j] == Some(key);
                                assert(j < i);
                            }
                        }
                    },
                }
            },
        }
    }
    proof {
        assert(sv.len() == n);
        lemma_merged_facts(sv, n as int);
        assert forall|j: int| 0 <= j < n implies welds_to(sv, j, #[trigger] old_to_new@[j] as int) by {}
    }
    let mut new_faces: Vec<Vec<usize>> = Vec::new();
    for f in 0..faces.len()
        invariant
            n == vertices@.len(),
            n > 0,
            sv == sig_views(signatures@),
            sv.len() == n,
            old_to_new@.len() == n,
            forall|f2: int, c: int|
                0 <= f2 < faces@.len() && 0 <= c < faces@[f2]@.len() ==> #[trigger] faces@[f2]@[c]
                    < n,
            forall|j: int| 0 <= j < n ==> welds_to(sv, j, #[trigger] old_to_new@[j] as int),
            new_faces@.len() == f,
            forall|f2: int| 0 <= f2 < f ==> #[trigger] new_faces@[f2]@.len() == faces@[f2]@.len(),
            forall|f2: int, c: int|
                0 <= f2 < f && 0 <= c < faces@[f2]@.len() ==> welds_to(
                    sv,
                    faces@[f2]@[c] as int,
                    #[trigger] new_faces@[f2]@[c] as int,
                ),
    {
        let face = &faces[f];
        let mut renumbered: Vec<usize> = Vec::new();
        for c in 0..face.len()
            invariant
                n == old_to_new@.len(),
                face == faces@[f as int],
                forall|c2: int| 0 <= c2 < face@.len() ==> #[trigger] face@[c2] < n,
                forall|j: int| 0 <= j < n ==> welds_to(sv, j, #[trigger] old_to_new@[j] as int),
                renumbered@.len() == c,
                forall|c2: int|
                    0 <= c2 < c ==> welds_to(sv, face@[c2] as int, #[trigger] renumbered@[c2] as int),
        {
            assert(face@[c as int] == faces@[f as int]@[c as int]);
            renumbered.push(old_to_new[face[c]]);
        }
        new_faces.push(renumbered);
    }
    (unique, new_faces, audits)
}


/// Signatures that every vertex has.
pub open spec fn present_sigs(sigs: Seq<String>) -> Seq<Option<Seq<char>>> {
    sigs.map_values(|s: String| Some(s@))
}

/// Number of vertices whose signature an earlier vertex already has.
pub fn count_duplicate_signatures(signatures: &[String]) -> (count: usize)
    ensures
        count == merged_vertices(present_sigs(signatures@)).len(),
{
    let ghost sv = present_sigs(signatures@);
    let n = signatures.len();
    let mut seen: StringHashMap<bool> = StringHashMap::new();
    let mut count: usize = 0;
    for i in 0..n
        invariant
            n == signatures@.len(),
            sv == present_sigs(signatures@),
            count == merged_upto(sv, i as int).len(),
            merged_upto(sv, i as int).len() <= i,
            forall|key: Seq<char>|
                #[trigger] seen@.contains_key(key) <==> exists|j: int|
                    0 <= j < i && sv[j] == Some(key),
    {
        let sig = &signatures[i];
        assert(sv[i as int] == Some(sig@));
        if seen.contains_key(sig.as_str()) {
            assert(!first_of_kind(sv, i as int)) by {
                let j = choose|j: int| 0 <= j < i && sv[j] == Some(sig@);
            }
            count = count + 1;
        } else {
            assert(first_of_kind(sv, i as int)) by {
                assert forall|j: int| 0 <= j < i implies sv[j] != sv[i as int] by {
                    if sv[j] == sv[i as int] {
                        assert(seen@.contains_key(sig@));
                    }
                }
            }
            seen.insert(sig.clone(), true);
            assert forall|key: Seq<char>| #[trigger] seen@.contains_key(key) <==> exists|j: int|
                0 <= j < i + 1 && sv[j] == Some(key) by {
                if key != sig@ && exists|j: int| 0 <= j < i + 1 && sv[j] == Some(key) {
                    let j = choose|j: int| 0 <= j < i + 1 && sv[j] == Some(key);
                    assert(j < i);
                }
            }
        }
    }
    count
}

/// Law: the kept vertices carry pairwise distinct signatures, so welding the welded vertices
/// again merges nothing.
pub proof fn lemma_weld_idempotent(sigs: Seq<Option<Seq<char>>>)
    ensures
        forall|j: int, k: int|
            0 <= j < k < kept_vertices(sigs).len() ==> sigs[#[trigger] kept_vertices(sigs)[j]]
                != sigs[#[trigger] kept_vertices(sigs)[k]],
        merged_vertices(kept_vertices(sigs).map_values(|i: int| sigs[i])).len() == 0,
{
    let kept = kept_vertices(sigs);
    let ks = kept.map_values(|i: int| sigs[i]);
    lemma_kept_facts(sigs, sigs.len() as int);
    assert forall|j: int, k: int| 0 <= j < k < kept.len() implies sigs[#[trigger] kept[j]]
        != sigs[#[trigger] kept[k]] by {
        assert(kept[j] < kept[k]);
        assert(first_of_kind(sigs, kept[k]));
    }
    lemma_no_merges(ks, ks.len() as int);
}

proof fn lemma_no_merges(sigs: Seq<Option<Seq<char>>>, n: int)
    requires
        0 <= n <= sigs.len(),
        forall|j: int, k: int| 0 <= j < k < sigs.len() ==> sigs[j] != sigs[k],
    ensures
        merged_upto(sigs, n).len() == 0,
    decreases n,
{
    if n > 0 {
        lemma_no_merges(sigs, n - 1);
        if sigs[n - 1] is Some {
            assert(first_of_kind(sigs, n - 1));
        }
    }
}

/// Law: every vertex with a signature is either kept or merged, never both.
pub proof fn lemma_weld_partition(sigs: Seq<Option<Seq<char>>>, n: int)
    requires
        0 <= n <= sigs.len(),
    ensures
        kept_upto(sigs, n).len() + merged_upto(sigs, n).len() == Seq::new(
            n as nat,
            |i: int| i,
        ).filter(|i: int| sigs[i] is Some).len(),
    decreases n,
{
    let idx = Seq::new(n as nat, |i: int| i);
    let pred = |i: int| sigs[i] is Some;
    if n == 0 {
        assert(idx.filter(pred) =~= Seq::empty());
    } else {
        lemma_weld_partition(sigs, n - 1);
        let prev = Seq::new((n - 1) as nat, |i: int| i);
        assert(idx =~= prev.push(n - 1));
        prev.lemma_filter_push(n - 1, pred);
    }
}

/// Law: the duplicate count that validation reports equals the number of merges that welding
/// performs on the same signatures.
pub proof fn lemma_duplicates_are_welds(plain: Seq<String>, opt: Seq<Option<String>>)
    requires
        plain.len() == opt.len(),
        forall|i: int| 0 <= i < opt.len() ==> #[trigger] opt[i] == Some(plain[i]),
    ensures
        merged_vertices(present_sigs(plain)).len() == merged_vertices(sig_views(opt)).len(),
{
    assert(present_sigs(plain) =~= sig_views(opt));
}

} // verus!
