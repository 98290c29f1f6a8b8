//! Flat index buffers: faces stored as one index array plus an offset array.
use vstd::prelude::*;

verus! {

/// Number of faces that an offset array describes.
pub open spec fn face_count(offsets: Seq<i32>) -> nat {
    if offsets.len() == 0 {
        0
    } else {
        (offsets.len() - 1) as nat
    }
}

/// Start of face `i` in the index array, read as an unsigned position.
pub open spec fn face_start(offsets: Seq<i32>, i: int) -> int {
    offsets[i] as usize as int
}

/// The offsets cut the index array into well-formed slices: each face starts no later than it
/// ends, and ends within the index array.
pub open spec fn offsets_valid(index_count: nat, offsets: Seq<i32>) -> bool {
    forall|i: int|
        0 <= i < face_count(offsets) ==> face_start(offsets, i) <= #[trigger] face_start(
            offsets,
            i + 1,
        ) <= index_count
}

/// The faces that a pair of buffers describes; each index is read as an unsigned integer.
pub open spec fn decoded_faces(indices: Seq<i32>, offsets: Seq<i32>) -> Seq<Seq<usize>> {
    Seq::new(
        face_count(offsets),
        |i: int|
            indices.subrange(face_start(offsets, i), face_start(offsets, i + 1)).map_values(
                |x: i32| x as usize,
            ),
    )
}

/// All indices of all faces, face after face.
pub open spec fn flat_indices(faces: Seq<Seq<usize>>) -> Seq<usize>
    decreases faces.len(),
{
    if faces.len() == 0 {
        Seq::empty()
    } else {
        flat_indices(faces.drop_last()) + faces.last()
    }
}

/// Checks that the offsets cut the index array into well-formed slices.
pub fn offsets_are_valid(index_count: usize, face_offsets: &[i32]) -> (valid: bool)
    ensures
        valid == offsets_valid(index_count as nat, face_offsets@),
{
    if face_offsets.len() == 0 {
        return true;
    }
    let count = face_offsets.len() - 1;
    for i in 0..count
        invariant
            count == face_count(face_offsets@),
            forall|k: int|
                0 <= k < i ==> face_start(face_offsets@, k) <= #[trigger] face_start(
                    face_offsets@,
                    k + 1,
                ) <= index_count,
    {
        let start = face_offsets[i] as usize;
        let end = face_offsets[i + 1] as usize;
        if !(start <= end && end <= index_count) {
            assert(start as int == face_start(face_offsets@, i as int));
            assert(end as int == face_start(face_offsets@, i + 1));
            return false;
        }
    }
    true
}

/// Reads faces from an index buffer and an offset buffer: face `i` holds the indices from
/// `offsets[i]` up to `offsets[i + 1]`.
pub fn faces_from_buffers(face_indices: &[i32], face_offsets: &[i32]) -> (faces: Vec<Vec<usize>>)
    requires
        offsets_valid(face_indices@.len(), face_offsets@),
    ensures
        faces@.map_values(|f: Vec<usize>| f@) == decoded_faces(face_indices@, face_offsets@),
{
    let count = if face_offsets.len() == 0 {
        0
    } else {
        face_offsets.len() - 1
    };
    let mut faces: Vec<Vec<usize>> = Vec::new();
    for i in 0..count
        invariant
            count == face_count(face_offsets@),
            offsets_valid(face_indices@.len(), face_offsets@),
            faces@.len() == i,
            forall|k: int|
                0 <= k < i ==> #[trigger] faces@[k]@ == decoded_faces(face_indices@, face_offsets@)[k],
    {
        let start = face_offsets[i] as usize;
        let end = face_offsets[i + 1] as usize;
        proof {
            assert(face_start(face_offsets@, i as int) <= face_start(face_offsets@, i + 1));
        }
        let mut face: Vec<usize> = Vec::new();
        let mut p = start;
        while p < end
            invariant
                start <= p <= end,
                end <= face_indices@.len(),
                face@ == face_indices@.subrange(start as int, p as int).map_values(
                    |x: i32| x as usize,
                ),
            decreases end - p,
        {
            face.push(face_indices[p] as usize);
            p = p + 1;
            assert(face@ =~= face_indices@.subrange(start as int, p as int).map_values(
                |x: i32| x as usize,
            ));
        }
        faces.push(face);
    }
    assert(faces@.map_values(|f: Vec<usize>| f@) =~= decoded_faces(face_indices@, face_offsets@));
    faces
}

proof fn lemma_flat_take_succ(faces: Seq<Seq<usize>>, k: int)
    requires
        0 <= k < faces.len(),
    ensures
        flat_indices(faces.take(k + 1)) == flat_indices(faces.take(k)) + faces[k],
{
    assert(faces.take(k + 1).drop_last() =~= faces.take(k));
}

/// Writes faces into an index buffer and an offset buffer (indices and offsets cut to 32 bits).
pub fn faces_to_buffers(faces: &[Vec<usize>]) -> (buffers: (Vec<i32>, Vec<i32>))
    ensures
        buffers.0@ == flat_indices(faces@.map_values(|f: Vec<usize>| f@)).map_values(
            |v: usize| v as i32,
        ),
        buffers.1@.len() == faces@.len() + 1,
        forall|k: int|
            0 <= k <= faces@.len() ==> #[trigger] buffers.1@[k] == flat_indices(
                faces@.map_values(|f: Vec<usize>| f@).take(k),
            ).len() as i32,
{
    let ghost fs = faces@.map_values(|f: Vec<usize>| f@);
    let mut out_idx: Vec<i32> = Vec::new();
    let mut out_off: Vec<i32> = Vec::new();
    out_off.push(0);
    assert(fs.take(0) =~= Seq::<Seq<usize>>::empty());
    for f in 0..faces.len()
        invariant
            fs == faces@.map_values(|f: Vec<usize>| f@),
            out_idx@ == flat_indices(fs.take(f as int)).map_values(|v: usize| v as i32),
            out_off@.len() == f + 1,
            forall|k: int|
                0 <= k <= f ==> #[trigger] out_off@[k] == flat_indices(fs.take(k)).len() as i32,
    {
        proof {
            lemma_flat_take_succ(fs, f as int);
        }
        let face = &faces[f];
        let ghost base = out_idx@;
        for c in 0..face.len()
            invariant
                face@ == fs[f as int],
                out_idx@ == base + face@.take(c as int).map_values(|v: usize| v as i32),
        {
            out_idx.push(face[c] as i32);
            assert(out_idx@ =~= base + face@.take(c + 1).map_values(|v: usize| v as i32));
        }
        assert(out_idx@ =~= flat_indices(fs.take(f + 1)).map_values(|v: usize| v as i32));
        out_off.push(out_idx.len() as i32);
    }
    assert(fs.take(fs.len() as int) =~= fs);
    (out_idx, out_off)
}


proof fn lemma_flat_prefix(faces: Seq<Seq<usize>>, k: int, m: int)
    requires
        0 <= k <= m <= faces.len(),
    ensures
        flat_indices(faces.take(k)).len() <= flat_indices(faces.take(m)).len(),
        flat_indices(faces.take(m)).subrange(0, flat_indices(faces.take(k)).len() as int)
            == flat_indices(faces.take(k)),
    decreases m - k,
{
    if k == m {
        assert(flat_indices(faces.take(m)).subrange(0, flat_indices(faces.take(k)).len() as int)
            =~= flat_indices(faces.take(k)));
    } else {
        lemma_flat_prefix(faces, k, m - 1);
        lemma_flat_take_succ(faces, m - 1);
        assert(flat_indices(faces.take(m)).subrange(0, flat_indices(faces.take(k)).len() as int)
            =~= flat_indices(faces.take(m - 1)).subrange(
            0,
            flat_indices(faces.take(k)).len() as int,
        ));
    }
}

/// Law: writing faces into buffers and reading them back gives the same faces, as long as every
/// index and the total number of indices fit in 32 bits.
pub proof fn lemma_buffers_round_trip(faces: Seq<Seq<usize>>, indices: Seq<i32>, offsets: Seq<i32>)
    requires
        indices == flat_indices(faces).map_values(|v: usize| v as i32),
        offsets.len() == faces.len() + 1,
        forall|k: int|
            0 <= k <= faces.len() ==> #[trigger] offsets[k] == flat_indices(faces.take(k)).len() as i32,
        flat_indices(faces).len() <= i32::MAX,
        forall|f: int, c: int|
            0 <= f < faces.len() && 0 <= c < faces[f].len() ==> #[trigger] faces[f][c] <= i32::MAX,
    ensures
        offsets_valid(indices.len(), offsets),
        decoded_faces(indices, offsets) == faces,
{
    let n = faces.len() as int;
    assert(faces.take(n) =~= faces);
    assert forall|k: int| 0 <= k <= n implies #[trigger] face_start(offsets, k) == flat_indices(
        faces.take(k),
    ).len() by {
        lemma_flat_prefix(faces, k, n);
    }
    assert forall|i: int| 0 <= i < face_count(offsets) implies face_start(offsets, i)
        <= #[trigger] face_start(offsets, i + 1) <= indices.len() by {
        lemma_flat_prefix(faces, i, i + 1);
        lemma_flat_prefix(faces, i + 1, n);
    }
    assert forall|i: int| 0 <= i < n implies #[trigger] decoded_faces(indices, offsets)[i]
        == faces[i] by {
        let lo = flat_indices(faces.take(i)).len() as int;
        let hi = flat_indices(faces.take(i + 1)).len() as int;
        lemma_flat_take_succ(faces, i);
        lemma_flat_prefix(faces, i + 1, n);
        let whole = flat_indices(faces);
        assert(whole.subrange(0, hi) == flat_indices(faces.take(i)) + faces[i]);
        assert forall|c: int| 0 <= c < faces[i].len() implies #[trigger] decoded_faces(
            indices,
            offsets,
        )[i][c] == faces[i][c] by {
            assert(whole.subrange(0, hi)[lo + c] == faces[i][c]);
            assert(whole[lo + c] == faces[i][c]);
            assert(indices[lo + c] == faces[i][c] as i32);
        }
        assert(decoded_faces(indices, offsets)[i] =~= faces[i]);
    }
    assert(decoded_faces(indices, offsets) =~= faces);
}

} // verus!
