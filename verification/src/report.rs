//! Validation and preflight summaries: what a mesh's topology says about its fitness.
use crate::edges::{
    count_unique_edges, edge_multiplicity, edge_set, face_seqs, find_boundary_edges,
    find_non_manifold_edges, in_first_appearance_order, lemma_first_appearance_order_unique, mesh_edges, mesh_triangles,
    triangulate_mesh,
};
use crate::buffers::{decoded_faces, flat_indices, lemma_buffers_round_trip, offsets_valid};
use crate::weld::{count_duplicate_signatures, merged_vertices, present_sigs};
use vstd::prelude::*;

verus! {

/// Outcome of validating a mesh; `B` is the bounding box type.
pub struct ValidationResult<B> {
    pub is_valid: bool,
    pub vertex_count: usize,
    pub face_count: usize,
    pub non_manifold_edges: Vec<(usize, usize)>,
    pub duplicate_vertices: usize,
    pub bounding_box: B,
}

/// Validates a mesh: it is valid when no two vertices share a position signature and no edge is
/// shared by more than two face sides.
pub fn validate_mesh<B>(
    vertex_count: usize,
    signatures: &[String],
    faces: &[Vec<usize>],
    bounding_box: B,
) -> (result: ValidationResult<B>)
    ensures
        result.vertex_count == vertex_count,
        result.face_count == faces@.len(),
        result.duplicate_vertices == merged_vertices(present_sigs(signatures@)).len(),
        result.non_manifold_edges@.no_duplicates(),
        in_first_appearance_order(result.non_manifold_edges@, mesh_edges(face_seqs(faces@))),
        forall|e: (usize, usize)|
            #[trigger] result.non_manifold_edges@.contains(e) <==> edge_multiplicity(
                face_seqs(faces@),
                e,
            ) > 2,
        result.is_valid == (result.duplicate_vertices == 0 && forall|e: (usize, usize)|
            edge_multiplicity(face_seqs(faces@), e) <= 2),
        result.bounding_box == bounding_box,
{
    let duplicate_vertices = count_duplicate_signatures(signatures);
    let non_manifold_edges = find_non_manifold_edges(faces);
    let is_valid = duplicate_vertices == 0 && non_manifold_edges.len() == 0;
    proof {
        if non_manifold_edges.len() == 0 {
            assert forall|e: (usize, usize)| edge_multiplicity(face_seqs(faces@), e) <= 2 by {
                if edge_multiplicity(face_seqs(faces@), e) > 2 {
                    assert(non_manifold_edges@.contains(e));
                }
            }
        } else {
            assert(non_manifold_edges@.contains(non_manifold_edges@[0]));
        }
    }
    ValidationResult {
        is_valid,
        vertex_count,
        face_count: faces.len(),
        non_manifold_edges,
        duplicate_vertices,
        bounding_box,
    }
}

/// `V - E + F` computed in 32-bit arithmetic, each count first cut to 32 bits.
pub open spec fn euler_value(vertices: nat, edges: nat, faces: nat) -> int {
    (vertices as i32) as int - (edges as i32) as int + (faces as i32) as int
}

/// The 32-bit computation of `V - E + F` stays within range.
pub open spec fn euler_fits(vertices: nat, edges: nat, faces: nat) -> bool {
    &&& i32::MIN <= (vertices as i32) as int - (edges as i32) as int <= i32::MAX
    &&& i32::MIN <= euler_value(vertices, edges, faces) <= i32::MAX
}

/// Euler characteristic `V - E + F`.
pub fn euler_characteristic(vertices: usize, edges: usize, faces: usize) -> (chi: i32)
    requires
        euler_fits(vertices as nat, edges as nat, faces as nat),
    ensures
        chi == euler_value(vertices as nat, edges as nat, faces as nat),
        vertices <= i32::MAX && edges <= i32::MAX && faces <= i32::MAX ==> chi == vertices - edges
            + faces,
{
    (vertices as i32) - (edges as i32) + (faces as i32)
}

/// Law: for counts within 32 bits the Euler characteristic is `V - E + F`, whatever its sign or
/// size.
pub proof fn lemma_euler_is_alternating_sum(vertices: nat, edges: nat, faces: nat)
    requires
        vertices <= i32::MAX,
        edges <= i32::MAX,
        faces <= i32::MAX,
    ensures
        euler_value(vertices, edges, faces) == vertices - edges + faces,
{
}

/// The genus that a watertight surface with Euler characteristic `chi` has; zero when the surface
/// is open or `chi` exceeds 2.
pub open spec fn genus_of(is_watertight: bool, chi: int) -> int {
    if is_watertight && chi <= 2 {
        (2 - chi) / 2
    } else {
        0
    }
}

/// Genus `(2 - chi) / 2` of a watertight mesh, zero otherwise.
pub fn genus(is_watertight: bool, chi: i32) -> (g: usize)
    requires
        is_watertight && chi <= 2 ==> 2 - chi <= i32::MAX,
    ensures
        g == genus_of(is_watertight, chi as int),
        is_watertight && chi <= 2 ==> 2 * g <= 2 - chi < 2 * g + 2,
        !(is_watertight && chi <= 2) ==> g == 0,
{
    if is_watertight && chi <= 2 {
        let h = (2 - chi) / 2;
        let g = if h > 0 {
            h
        } else {
            0
        };
        g as usize
    } else {
        0
    }
}

/// Law: the genus of a watertight surface is the number of handles that its Euler characteristic
/// counts, `2 - 2g = chi` rounded down: `2g <= 2 - chi < 2g + 2`; a surface with `2 - 2g` as its
/// characteristic has genus `g`. An open surface, or one with `chi > 2`, gets genus zero.
pub proof fn lemma_genus_counts_handles(chi: int, g: nat)
    ensures
        chi <= 2 ==> 2 * genus_of(true, chi) <= 2 - chi < 2 * genus_of(true, chi) + 2,
        genus_of(true, 2 - 2 * g) == g,
        genus_of(false, chi) == 0,
        chi > 2 ==> genus_of(true, chi) == 0,
{
    assert((2 - (2 - 2 * g)) / 2 == g);
}

/// Law: the Euler characteristic in a topology report is `V - E + F` of the mesh, with `E` the
/// number of distinct undirected edges, whenever the counts fit in 32 bits.
pub proof fn lemma_report_euler(report: TopologyReport, vertex_count: nat, fs: Seq<Seq<usize>>)
    requires
        topology_report_holds(report, vertex_count, fs),
        vertex_count <= i32::MAX,
        edge_set(fs).len() <= i32::MAX,
        fs.len() <= i32::MAX,
    ensures
        report.euler_characteristic == vertex_count - edge_set(fs).len() + fs.len(),
        report.is_watertight && report.euler_characteristic <= 2 ==> 2 * report.genus <= 2
            - report.euler_characteristic < 2 * report.genus + 2,
{
    lemma_genus_counts_handles(report.euler_characteristic as int, 0);
}

/// Topological part of a preflight report.
pub struct TopologyReport {
    pub boundary_edges: Vec<(usize, usize)>,
    pub boundary_edges_count: usize,
    pub is_watertight: bool,
    pub euler_characteristic: i32,
    pub genus: usize,
    pub triangulated_faces: Vec<[u32; 3]>,
}

/// The preflight's topology checks can be computed in 32-bit arithmetic.
pub open spec fn topology_fits(vertex_count: nat, faces: Seq<Seq<usize>>) -> bool {
    let chi = euler_value(vertex_count, edge_set(faces).len(), faces.len());
    &&& euler_fits(vertex_count, edge_set(faces).len(), faces.len())
    &&& (chi <= 2 && forall|e: (usize, usize)| edge_multiplicity(faces, e) != 1) ==> 2 - chi
        <= i32::MAX
}

/// What the topology report of a mesh with `vertex_count` vertices and faces `fs` holds: its
/// boundary edges (each once), their number, whether the mesh is watertight, its Euler
/// characteristic, its genus and its fan triangulation.
pub open spec fn topology_report_holds(report: TopologyReport, vertex_count: nat, fs: Seq<Seq<usize>>) -> bool {
    let chi = euler_value(vertex_count, edge_set(fs).len(), fs.len());
    &&& report.boundary_edges@.no_duplicates()
    &&& in_first_appearance_order(report.boundary_edges@, mesh_edges(fs))
    &&& forall|e: (usize, usize)|
        #[trigger] report.boundary_edges@.contains(e) <==> edge_multiplicity(fs, e) == 1
    &&& report.boundary_edges_count == report.boundary_edges@.len()
    &&& report.is_watertight == (forall|e: (usize, usize)| edge_multiplicity(fs, e) != 1)
    &&& report.euler_characteristic == chi
    &&& report.genus == genus_of(report.is_watertight, chi)
    &&& report.triangulated_faces@.map_values(|t: [u32; 3]| t@) == mesh_triangles(fs)
}

/// Boundary edges, watertightness, Euler characteristic, genus and the triangulation of a mesh.
pub fn analyze_topology(vertex_count: usize, faces: &[Vec<usize>]) -> (report: TopologyReport)
    requires
        topology_fits(vertex_count as nat, face_seqs(faces@)),
    ensures
        topology_report_holds(report, vertex_count as nat, face_seqs(faces@)),
{
    let ghost fs = face_seqs(faces@);
    let boundary_edges = find_boundary_edges(faces);
    let boundary_edges_count = boundary_edges.len();
    let is_watertight = boundary_edges_count == 0;
    proof {
        if is_watertight {
            assert forall|e: (usize, usize)| edge_multiplicity(fs, e) != 1 by {
                if edge_multiplicity(fs, e) == 1 {
                    assert(boundary_edges@.contains(e));
                }
            }
        } else {
            assert(boundary_edges@.contains(boundary_edges@[0]));
        }
    }
    let unique_edges = count_unique_edges(faces);
    let chi = euler_characteristic(vertex_count, unique_edges, faces.len());
    let g = genus(is_watertight, chi);
    let triangulated_faces = triangulate_mesh(faces);
    TopologyReport {
        boundary_edges,
        boundary_edges_count,
        is_watertight,
        euler_characteristic: chi,
        genus: g,
        triangulated_faces,
    }
}

/// Fabrication profiles that a preflight can check against.
pub enum FabricationProfile {
    AbbConcrete3dPrint,
    KukaTimber,
    Standard,
}

/// The profile that a name selects; an unknown name selects the standard profile.
pub open spec fn profile_named(name: Seq<char>) -> FabricationProfile {
    if name == "abb-concrete-3dprint"@ {
        FabricationProfile::AbbConcrete3dPrint
    } else if name == "kuka-timber"@ {
        FabricationProfile::KukaTimber
    } else {
        FabricationProfile::Standard
    }
}

/// Selects a fabrication profile by name.
pub fn select_profile(name: &str) -> (profile: FabricationProfile)
    ensures
        profile == profile_named(name@),
{
    let given = name.to_string();
    let abb = "abb-concrete-3dprint".to_string();
    let kuka = "kuka-timber".to_string();
    if given == abb {
        FabricationProfile::AbbConcrete3dPrint
    } else if given == kuka {
        FabricationProfile::KukaTimber
    } else {
        FabricationProfile::Standard
    }
}

/// The limits a fabrication profile sets: the material density in kg/m³, the largest mass in kg,
/// and the workspace in millimetres along x, y and z.
pub struct ProfileLimits {
    pub density_kg_per_m3: u32,
    pub max_mass_kg: u32,
    pub max_x_mm: u32,
    pub max_y_mm: u32,
    pub max_z_mm: u32,
}

/// The limits of each profile: concrete printing allows heavier parts in a taller, squarer cell;
/// timber and the standard profile share the long, narrow timber cell.
pub open spec fn limits_of(profile: FabricationProfile) -> ProfileLimits {
    match profile {
        FabricationProfile::AbbConcrete3dPrint => ProfileLimits {
            density_kg_per_m3: 2400,
            max_mass_kg: 500,
            max_x_mm: 1500,
            max_y_mm: 1500,
            max_z_mm: 2000,
        },
        _ => ProfileLimits {
            density_kg_per_m3: 500,
            max_mass_kg: 150,
            max_x_mm: 3000,
            max_y_mm: 400,
            max_z_mm: 400,
        },
    }
}

/// The limits that a profile sets.
pub fn profile_limits(profile: &FabricationProfile) -> (limits: ProfileLimits)
    ensures
        limits == limits_of(*profile),
{
    match profile {
        FabricationProfile::AbbConcrete3dPrint => ProfileLimits {
            density_kg_per_m3: 2400,
            max_mass_kg: 500,
            max_x_mm: 1500,
            max_y_mm: 1500,
            max_z_mm: 2000,
        },
        _ => ProfileLimits {
            density_kg_per_m3: 500,
            max_mass_kg: 150,
            max_x_mm: 3000,
            max_y_mm: 400,
            max_z_mm: 400,
        },
    }
}

/// Law: a profile name that is neither of the known ones is checked exactly as timber is: the
/// same limits and the same watertightness requirement.
pub proof fn lemma_unknown_profile_checks_as_timber(name: Seq<char>)
    requires
        name != "abb-concrete-3dprint"@,
        name != "kuka-timber"@,
    ensures
        limits_of(profile_named(name)) == limits_of(FabricationProfile::KukaTimber),
        watertight_required(profile_named(name)) == watertight_required(
            FabricationProfile::KukaTimber,
        ),
{
}

/// Whether a profile rejects meshes that are not watertight.
pub open spec fn watertight_required(profile: FabricationProfile) -> bool {
    !(profile is AbbConcrete3dPrint)
}

/// Whether a profile rejects meshes that are not watertight.
pub fn requires_watertight(profile: &FabricationProfile) -> (required: bool)
    ensures
        required == watertight_required(*profile),
{
    match profile {
        FabricationProfile::AbbConcrete3dPrint => false,
        _ => true,
    }
}

/// A mesh is compliant when it fits the workspace, stays under the mass limit, is planar and
/// well-shaped enough, and is watertight where the profile asks for it.
pub fn is_compliant(
    profile: &FabricationProfile,
    fits_workspace: bool,
    mass_ok: bool,
    planarity_ok: bool,
    quality_ok: bool,
    is_watertight: bool,
) -> (compliant: bool)
    ensures
        compliant == (fits_workspace && mass_ok && planarity_ok && quality_ok && (
        !watertight_required(*profile) || is_watertight)),
{
    let mut compliant = fits_workspace && mass_ok && planarity_ok && quality_ok;
    if requires_watertight(profile) && !is_watertight {
        compliant = false;
    }
    compliant
}

/// Law: a mesh handed over as flat buffers and the same mesh handed over as a list of faces get
/// the same topology report: the same boundary edges in the same order, the same counts, watertightness,
/// Euler characteristic, genus and triangulation. The buffers are the indices of all faces, face
/// after face, and the running totals of the face lengths, with every index and the total number
/// of indices within 32 bits.
pub proof fn lemma_buffer_and_list_reports_agree(
    faces: Seq<Seq<usize>>,
    indices: Seq<i32>,
    offsets: Seq<i32>,
    vertex_count: nat,
    from_buffers: TopologyReport,
    from_list: TopologyReport,
)
    requires
        indices == flat_indices(faces).map_values(|v: usize| v as i32),
        offsets.len() == faces.len() + 1,
        forall|k: int|
            0 <= k <= faces.len() ==> #[trigger] offsets[k] == flat_indices(faces.take(k)).len() as i32,
        flat_indices(faces).len() <= i32::MAX,
        forall|f: int, c: int|
            0 <= f < faces.len() && 0 <= c < faces[f].len() ==> #[trigger] faces[f][c] <= i32::MAX,
        topology_report_holds(from_buffers, vertex_count, decoded_faces(indices, offsets)),
        topology_report_holds(from_list, vertex_count, faces),
    ensures
        offsets_valid(indices.len(), offsets),
        from_buffers.boundary_edges@ == from_list.boundary_edges@,
        from_buffers.boundary_edges_count == from_list.boundary_edges_count,
        from_buffers.is_watertight == from_list.is_watertight,
        from_buffers.euler_characteristic == from_list.euler_characteristic,
        from_buffers.genus == from_list.genus,
        from_buffers.triangulated_faces@.map_values(|t: [u32; 3]| t@)
            == from_list.triangulated_faces@.map_values(|t: [u32; 3]| t@),
{
    lemma_buffers_round_trip(faces, indices, offsets);
    let b = from_buffers.boundary_edges@;
    let l = from_list.boundary_edges@;
    let occ = mesh_edges(faces);
    assert forall|e: (usize, usize)| #[trigger] b.contains(e) implies occ.contains(e) by {
        occ.to_multiset_ensures();
    }
    lemma_first_appearance_order_unique(b, l, occ);
}

} // verus!
