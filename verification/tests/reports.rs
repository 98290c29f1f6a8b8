use compas_forge::buffers::{faces_from_buffers, faces_to_buffers};
use compas_forge::keys::ordered_record_keys;
use compas_forge::report::{
    analyze_topology, euler_characteristic, genus, is_compliant, profile_limits,
    requires_watertight, select_profile, validate_mesh, FabricationProfile, ValidationResult,
};

fn cube_faces() -> Vec<Vec<usize>> {
    vec![
        vec![0, 3, 2, 1],
        vec![4, 5, 6, 7],
        vec![0, 1, 5, 4],
        vec![1, 2, 6, 5],
        vec![2, 3, 7, 6],
        vec![3, 0, 4, 7],
    ]
}

fn torus_faces() -> Vec<Vec<usize>> {
    let mut faces = Vec::new();
    for i in 0..3 {
        for j in 0..3 {
            let a = 3 * i + j;
            let b = 3 * ((i + 1) % 3) + j;
            let c = 3 * ((i + 1) % 3) + (j + 1) % 3;
            let d = 3 * i + (j + 1) % 3;
            faces.push(vec![a, b, c, d]);
        }
    }
    faces
}

fn strings(items: &[&str]) -> Vec<String> {
    items.iter().map(|s| s.to_string()).collect()
}

#[test]
fn euler_characteristic_of_cube() {
    assert_eq!(euler_characteristic(8, 12, 6), 2);
}

#[test]
fn euler_characteristic_can_be_negative() {
    assert_eq!(euler_characteristic(1, 10, 2), -7);
}

#[test]
fn genus_values() {
    assert_eq!(genus(true, 2), 0);
    assert_eq!(genus(true, 1), 0);
    assert_eq!(genus(true, 0), 1);
    assert_eq!(genus(true, -2), 2);
    assert_eq!(genus(true, 4), 0);
    assert_eq!(genus(false, 0), 0);
}

#[test]
fn cube_topology() {
    let report = analyze_topology(8, &cube_faces());
    assert!(report.is_watertight);
    assert_eq!(report.boundary_edges_count, 0);
    assert_eq!(report.euler_characteristic, 2);
    assert_eq!(report.genus, 0);
    assert_eq!(report.triangulated_faces.len(), 12);
    assert_eq!(report.triangulated_faces[0], [0, 3, 2]);
}

#[test]
fn buffer_and_list_reports_agree() {
    let mut faces = cube_faces();
    faces.pop();
    let (indices, offsets) = faces_to_buffers(&faces);
    let decoded = faces_from_buffers(&indices, &offsets);
    let from_buffers = analyze_topology(8, &decoded);
    let from_list = analyze_topology(8, &faces);
    assert_eq!(from_buffers.boundary_edges, from_list.boundary_edges);
    let mut b = from_buffers.boundary_edges.clone();
    let mut l = from_list.boundary_edges.clone();
    b.sort();
    l.sort();
    assert_eq!(b, l);
    assert_eq!(b.len(), 4);
    assert_eq!(from_buffers.boundary_edges_count, from_list.boundary_edges_count);
    assert_eq!(from_buffers.is_watertight, from_list.is_watertight);
    assert!(!from_list.is_watertight);
    assert_eq!(from_buffers.euler_characteristic, from_list.euler_characteristic);
    assert_eq!(from_list.euler_characteristic, 1);
    assert_eq!(from_buffers.genus, from_list.genus);
    assert_eq!(from_buffers.triangulated_faces, from_list.triangulated_faces);
}

#[test]
fn torus_topology_has_genus_one() {
    let report = analyze_topology(9, &torus_faces());
    assert!(report.is_watertight);
    assert_eq!(report.euler_characteristic, 0);
    assert_eq!(report.genus, 1);
}

#[test]
fn open_box_topology() {
    let mut faces = cube_faces();
    faces.remove(1);
    let report = analyze_topology(8, &faces);
    assert!(!report.is_watertight);
    assert_eq!(report.boundary_edges_count, 4);
    assert_eq!(report.boundary_edges.len(), 4);
    assert_eq!(report.euler_characteristic, 1);
    assert_eq!(report.genus, 0);
}

#[test]
fn valid_cube_validates() {
    let sigs = strings(&["a", "b", "c", "d", "e", "f", "g", "h"]);
    let result: ValidationResult<u8> = validate_mesh(8, &sigs, &cube_faces(), 7);
    assert!(result.is_valid);
    assert_eq!(result.vertex_count, 8);
    assert_eq!(result.face_count, 6);
    assert_eq!(result.duplicate_vertices, 0);
    assert!(result.non_manifold_edges.is_empty());
    assert_eq!(result.bounding_box, 7);
}

#[test]
fn duplicate_vertices_invalidate() {
    let sigs = strings(&["a", "b", "a"]);
    let result = validate_mesh(3, &sigs, &[vec![0, 1, 2]], ());
    assert!(!result.is_valid);
    assert_eq!(result.duplicate_vertices, 1);
}

#[test]
fn non_manifold_edges_invalidate() {
    let sigs = strings(&["a", "b", "c", "d", "e"]);
    let faces = vec![vec![0, 1, 2], vec![1, 0, 3], vec![0, 1, 4]];
    let result = validate_mesh(5, &sigs, &faces, ());
    assert!(!result.is_valid);
    assert_eq!(result.non_manifold_edges, vec![(0, 1)]);
}

#[test]
fn profiles_by_name() {
    assert!(matches!(select_profile("abb-concrete-3dprint"), FabricationProfile::AbbConcrete3dPrint));
    assert!(matches!(select_profile("kuka-timber"), FabricationProfile::KukaTimber));
    assert!(matches!(select_profile("anything-else"), FabricationProfile::Standard));
    assert!(matches!(select_profile(""), FabricationProfile::Standard));
}

#[test]
fn watertight_requirement_per_profile() {
    assert!(!requires_watertight(&FabricationProfile::AbbConcrete3dPrint));
    assert!(requires_watertight(&FabricationProfile::KukaTimber));
    assert!(requires_watertight(&FabricationProfile::Standard));
}

#[test]
fn compliance_rules() {
    let kuka = FabricationProfile::KukaTimber;
    let abb = FabricationProfile::AbbConcrete3dPrint;
    assert!(is_compliant(&kuka, true, true, true, true, true));
    assert!(!is_compliant(&kuka, true, true, true, true, false));
    assert!(is_compliant(&abb, true, true, true, true, false));
    assert!(!is_compliant(&abb, false, true, true, true, true));
    assert!(!is_compliant(&abb, true, false, true, true, true));
    assert!(!is_compliant(&abb, true, true, false, true, true));
    assert!(!is_compliant(&abb, true, true, true, false, true));
}

#[test]
fn record_keys_in_numeric_order() {
    let keys = strings(&["10", "2", "0", "1"]);
    assert_eq!(ordered_record_keys(&keys), strings(&["0", "1", "2", "10"]));
}

#[test]
fn record_keys_quirks() {
    let keys = strings(&["10", "2", "01", "x", "1", "+3", "-4", ""]);
    assert_eq!(ordered_record_keys(&keys), strings(&["1", "1", "2", "10"]));
}

#[test]
fn record_keys_of_empty_record() {
    assert!(ordered_record_keys(&[]).is_empty());
}

#[test]
fn profile_limits_per_profile() {
    let abb = profile_limits(&select_profile("abb-concrete-3dprint"));
    assert_eq!(abb.density_kg_per_m3, 2400);
    assert_eq!(abb.max_mass_kg, 500);
    assert_eq!((abb.max_x_mm, abb.max_y_mm, abb.max_z_mm), (1500, 1500, 2000));
    let kuka = profile_limits(&select_profile("kuka-timber"));
    assert_eq!(kuka.density_kg_per_m3, 500);
    assert_eq!(kuka.max_mass_kg, 150);
    assert_eq!((kuka.max_x_mm, kuka.max_y_mm, kuka.max_z_mm), (3000, 400, 400));
}

#[test]
fn unknown_profile_checks_as_timber() {
    let other = select_profile("my-own-cell");
    let kuka = select_profile("kuka-timber");
    let a = profile_limits(&other);
    let b = profile_limits(&kuka);
    assert_eq!(a.density_kg_per_m3, b.density_kg_per_m3);
    assert_eq!(a.max_mass_kg, b.max_mass_kg);
    assert_eq!((a.max_x_mm, a.max_y_mm, a.max_z_mm), (b.max_x_mm, b.max_y_mm, b.max_z_mm));
    assert_eq!(requires_watertight(&other), requires_watertight(&kuka));
}

