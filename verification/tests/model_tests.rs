use meshviewer::bone_order::{bone_parents_well_formed, bone_update_order};
use meshviewer::mesh_stats::{
    calculate_mesh_stats_from_scene, imported_model_stats, total_count, MeshAttributeCounts,
    ModelStats,
};
use meshviewer::model_import::{
    advance_loading, collect_triangle_indices, count_used_materials, indexed_name,
    loaded_file_name, material_property_kind, mesh_display_name, shown_mesh_entries, LoadEvent,
    LoadingStage, LoadingState, MaterialPropertyKind, MeshMaterialEntry,
};
use meshviewer::skeleton::{
    animated_bone_flags, bone_children_and_roots, bone_parents, bone_segments, complete_skeleton,
    ensure_ancestor_bones, find_parent_bone_index, walk_reaches_top, BoneRegistry, BoneSegment,
    NodeHierarchy,
};

fn entry(name: &str, index: usize, materials: Vec<usize>) -> MeshMaterialEntry {
    MeshMaterialEntry { mesh_name: name.to_string(), mesh_index: index, material_indices: materials }
}

/// root -> hips -> spine -> chest -> arm ; root -> prop
fn rig() -> NodeHierarchy {
    let mut h = NodeHierarchy::new();
    h.record(String::from("root"), None);
    h.record(String::from("hips"), Some(String::from("root")));
    h.record(String::from("spine"), Some(String::from("hips")));
    h.record(String::from("chest"), Some(String::from("spine")));
    h.record(String::from("arm"), Some(String::from("chest")));
    h.record(String::from("prop"), Some(String::from("root")));
    h
}

fn registry(names: &[&str]) -> BoneRegistry {
    let mut r = BoneRegistry::new();
    for n in names {
        r.register(n.to_string());
    }
    r
}

#[test]
fn loading_progress_through_an_import() {
    let mut s = LoadingState::default();
    assert!(!s.is_loading);
    assert_eq!(s.progress_percent, 0);
    assert_eq!(s.stage, LoadingStage::Idle);
    advance_loading(&mut s, LoadEvent::Started(String::from("robot.glb")));
    assert!(s.is_loading);
    assert_eq!((s.stage.clone(), s.progress_percent), (LoadingStage::Reading, 10));
    assert_eq!(s.file_name, "robot.glb");
    advance_loading(&mut s, LoadEvent::Parsing);
    assert_eq!((s.stage.clone(), s.progress_percent), (LoadingStage::Parsing, 30));
    advance_loading(&mut s, LoadEvent::Building);
    assert_eq!((s.stage.clone(), s.progress_percent), (LoadingStage::Building, 60));
    advance_loading(&mut s, LoadEvent::Finished);
    assert!(!s.is_loading);
    assert_eq!((s.stage.clone(), s.progress_percent), (LoadingStage::Ready, 100));
    assert_eq!(s.file_name, "robot.glb");
}

#[test]
fn loading_failure_keeps_the_message() {
    let mut s = LoadingState::default();
    advance_loading(&mut s, LoadEvent::Started(String::from("bad.fbx")));
    advance_loading(&mut s, LoadEvent::Parsing);
    advance_loading(&mut s, LoadEvent::Failed(String::from("unreadable")));
    assert!(!s.is_loading);
    assert_eq!(s.progress_percent, 0);
    assert_eq!(s.stage, LoadingStage::Error(String::from("unreadable")));
    assert_eq!(LoadingStage::default(), LoadingStage::Idle);
}

#[test]
fn names_of_unnamed_parts() {
    assert_eq!(indexed_name("Mesh", 0), "Mesh_0");
    assert_eq!(indexed_name("Anim", 12), "Anim_12");
    assert_eq!(indexed_name("Material", 305), "Material_305");
    assert_eq!(mesh_display_name("", 3), "Mesh_3");
    assert_eq!(mesh_display_name("Body", 3), "Body");
    assert_eq!(loaded_file_name("/models/robot.glb"), "robot.glb");
    assert_eq!(loaded_file_name("robot.glb"), "robot.glb");
    assert_eq!(loaded_file_name("/"), "unknown");
    assert_eq!(loaded_file_name("/models/.."), "unknown");
    assert_eq!(loaded_file_name(""), "unknown");
}

#[test]
fn only_triangles_enter_the_index_buffer() {
    let faces = vec![vec![0, 1, 2], vec![2, 3], vec![3, 4, 5], vec![0, 1, 2, 3], vec![]];
    let (indices, triangles, skipped) = collect_triangle_indices(&faces);
    assert_eq!(indices, vec![0, 1, 2, 3, 4, 5]);
    assert_eq!((triangles, skipped), (2, 3));
    assert_eq!(indices.len(), 3 * triangles);
    let (i2, t2, s2) = collect_triangle_indices(&Vec::new());
    assert!(i2.is_empty() && t2 == 0 && s2 == 0);
}

#[test]
fn distinct_materials_are_counted_once() {
    let entries = vec![entry("a", 0, vec![0, 1]), entry("b", 1, vec![1]), entry("c", 2, vec![3, 0, 3])];
    assert_eq!(count_used_materials(&entries), 3);
    assert_eq!(count_used_materials(&Vec::new()), 0);
    assert_eq!(count_used_materials(&vec![entry("x", 0, vec![])]), 0);
}

#[test]
fn material_panel_search() {
    let entries = vec![entry("Body", 0, vec![0]), entry("Helmet", 1, vec![1]), entry("body_lod1", 2, vec![0])];
    assert_eq!(shown_mesh_entries(&entries, ""), vec![0, 1, 2]);
    assert_eq!(shown_mesh_entries(&entries, "body"), vec![0, 2]);
    assert_eq!(shown_mesh_entries(&entries, "helm"), vec![1]);
    assert!(shown_mesh_entries(&entries, "Body").is_empty());
}

#[test]
fn mesh_statistics() {
    let meshes = vec![
        MeshAttributeCounts { positions: Some(8), indices: Some(36) },
        MeshAttributeCounts { positions: None, indices: Some(5) },
        MeshAttributeCounts { positions: Some(3), indices: None },
    ];
    let s = calculate_mesh_stats_from_scene(&meshes);
    assert_eq!((s.num_meshes, s.num_vertices, s.num_faces), (3, 11, 13));
    assert_eq!((s.num_materials, s.num_textures), (0, 0));
    let d = ModelStats::default();
    assert_eq!((d.num_meshes, d.num_vertices, d.num_faces, d.num_materials, d.num_textures), (0, 0, 0, 0, 0));
    assert_eq!(total_count(&vec![1, 2, 3, 4]), 10);
    assert_eq!(total_count(&Vec::new()), 0);
    let m = imported_model_stats(&vec![8, 4], &vec![12, 2], 5);
    assert_eq!((m.num_meshes, m.num_vertices, m.num_faces, m.num_materials, m.num_textures), (2, 12, 14, 5, 0));
}

#[test]
fn hierarchy_lookups() {
    let mut h = rig();
    assert_eq!(h.parent_of("arm").as_deref(), Some("chest"));
    assert_eq!(h.parent_of("root"), None);
    assert_eq!(h.parent_of("missing"), None);
    // A later record replaces an earlier one.
    h.record(String::from("prop"), Some(String::from("arm")));
    assert_eq!(h.parent_of("prop").as_deref(), Some("arm"));
}

#[test]
fn bone_registry_indices() {
    let mut r = BoneRegistry::new();
    assert_eq!(r.register(String::from("a")), 0);
    assert_eq!(r.register(String::from("b")), 1);
    assert_eq!(r.register(String::from("a")), 0);
    assert_eq!(r.names, vec!["a", "b"]);
    assert_eq!(r.lookup("b"), Some(1));
    assert_eq!(r.lookup("c"), None);
}

#[test]
fn parent_bone_is_nearest_bone_ancestor() {
    let h = rig();
    let r = registry(&["arm", "hips"]);
    assert_eq!(find_parent_bone_index("arm", &h, &r), Some(1));
    assert_eq!(find_parent_bone_index("hips", &h, &r), None);
    assert_eq!(find_parent_bone_index("prop", &h, &r), None);
    assert_eq!(find_parent_bone_index("nowhere", &h, &r), None);
}

#[test]
fn ancestors_are_added_topmost_first() {
    let h = rig();
    let mut r = registry(&["arm", "hips"]);
    let added = ensure_ancestor_bones("arm", &h, &mut r);
    assert_eq!(added, vec!["spine", "chest"]);
    assert_eq!(r.names, vec!["arm", "hips", "spine", "chest"]);
    assert_eq!(find_parent_bone_index("arm", &h, &r), Some(3));
    let added = ensure_ancestor_bones("hips", &h, &mut r);
    assert_eq!(added, vec!["root"]);
    assert_eq!(find_parent_bone_index("hips", &h, &r), Some(4));
    assert!(ensure_ancestor_bones("arm", &h, &mut r).is_empty());
}

#[test]
fn completed_skeleton_links_parent_nodes() {
    let h = rig();
    let mut r = registry(&["arm", "hips"]);
    complete_skeleton(&h, &mut r);
    assert_eq!(r.names, vec!["arm", "hips", "spine", "chest", "root"]);
    let parents = bone_parents(&h, &r);
    assert_eq!(parents, vec![Some(3), Some(4), Some(1), Some(2), None]);
    assert!(bone_parents_well_formed(&parents));
    let (children, roots) = bone_children_and_roots(&parents);
    assert_eq!(roots, vec![4]);
    assert_eq!(children, vec![vec![], vec![2], vec![3], vec![0], vec![1]]);
}

#[test]
fn walks_through_cycles_do_not_reach_the_top() {
    let mut h = NodeHierarchy::new();
    h.record(String::from("a"), Some(String::from("b")));
    h.record(String::from("b"), Some(String::from("a")));
    h.record(String::from("c"), Some(String::from("d")));
    assert!(!walk_reaches_top(&h, "a", 10));
    assert!(walk_reaches_top(&h, "c", 10));
    assert!(!walk_reaches_top(&h, "c", 1));
    assert!(walk_reaches_top(&h, "c", 2));
    assert!(walk_reaches_top(&rig(), "arm", 5));
    assert!(!walk_reaches_top(&rig(), "arm", 4));
}

#[test]
fn bone_tree_lists_every_bone_once() {
    let parents = vec![None, Some(0), Some(0), Some(9), Some(2), Some(4)];
    let (children, roots) = bone_children_and_roots(&parents);
    assert_eq!(roots, vec![0, 3]);
    assert_eq!(children, vec![vec![1, 2], vec![], vec![4], vec![], vec![5], vec![]]);
    let mut seen: Vec<usize> = roots.clone();
    for c in &children {
        seen.extend(c.iter().copied());
    }
    seen.sort();
    assert_eq!(seen, vec![0, 1, 2, 3, 4, 5]);
    let (c0, r0) = bone_children_and_roots(&Vec::new());
    assert!(c0.is_empty() && r0.is_empty());
}

#[test]
fn animated_bones_are_flagged_by_track_name() {
    let r = registry(&["hips", "spine", "arm"]);
    let tracks = vec![String::from("arm"), String::from("tail"), String::from("hips")];
    assert_eq!(animated_bone_flags(&r, &tracks), vec![true, false, true]);
    assert_eq!(animated_bone_flags(&r, &Vec::new()), vec![false, false, false]);
}

#[test]
fn material_property_keys() {
    assert_eq!(material_property_kind("?mat.name"), MaterialPropertyKind::Name);
    assert_eq!(material_property_kind("$clr.diffuse"), MaterialPropertyKind::DiffuseColor);
    assert_eq!(material_property_kind("$mat.roughnessFactor"), MaterialPropertyKind::Roughness);
    assert_eq!(material_property_kind("$mat.roughness"), MaterialPropertyKind::Roughness);
    assert_eq!(material_property_kind("$mat.metallicFactor"), MaterialPropertyKind::Metallic);
    assert_eq!(material_property_kind("$mat.metallic"), MaterialPropertyKind::Metallic);
    assert_eq!(material_property_kind("$clr.specular"), MaterialPropertyKind::Other);
    assert_eq!(material_property_kind(""), MaterialPropertyKind::Other);
}

#[test]
fn skeleton_view_draws_bones_with_parents() {
    let parents = vec![None, Some(0), Some(1), Some(7), Some(1)];
    let seg = |bone, parent, highlighted| BoneSegment { bone, parent, highlighted };
    assert_eq!(
        bone_segments(&parents, 5, None),
        vec![seg(1, 0, false), seg(2, 1, false), seg(4, 1, false)]
    );
    assert_eq!(
        bone_segments(&parents, 5, Some(1)),
        vec![seg(1, 0, true), seg(2, 1, true), seg(4, 1, true)]
    );
    assert_eq!(bone_segments(&parents, 5, Some(2)), vec![seg(1, 0, false), seg(2, 1, true), seg(4, 1, false)]);
    // Only bones with a rest transform at both ends are drawn.
    assert_eq!(bone_segments(&parents, 3, None), vec![seg(1, 0, false), seg(2, 1, false)]);
    assert!(bone_segments(&parents, 0, None).is_empty());
}

#[test]
fn bones_are_updated_after_their_parents() {
    // 0 <- 2 <- 1, 3 <- 4, and 0 is a root.
    let parents = vec![None, Some(2), Some(0), None, Some(3)];
    assert!(bone_parents_well_formed(&parents));
    let order = bone_update_order(&parents);
    assert_eq!(order, vec![0, 2, 1, 3, 4]);
    // A child listed before its ancestors pulls them in first, topmost first.
    let parents = vec![Some(1), Some(2), None, Some(0)];
    assert!(bone_parents_well_formed(&parents));
    assert_eq!(bone_update_order(&parents), vec![2, 1, 0, 3]);
    assert!(bone_update_order(&Vec::new()).is_empty());
    assert!(bone_parents_well_formed(&Vec::new()));
}

#[test]
fn malformed_bone_parents_are_detected() {
    assert!(!bone_parents_well_formed(&vec![None, Some(5)]));
    assert!(!bone_parents_well_formed(&vec![Some(1), Some(0)]));
    assert!(!bone_parents_well_formed(&vec![Some(0)]));
}
