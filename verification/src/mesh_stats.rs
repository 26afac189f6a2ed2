//! Vertex and face totals of a model.

use vstd::prelude::*;

verus! {

/// The sum of a list of counts.
pub open spec fn sum_counts(s: Seq<usize>) -> nat
    decreases s.len(),
{
    if s.len() == 0 {
        0
    } else {
        sum_counts(s.drop_last()) + s.last() as nat
    }
}

/// The sum of `counts`, such as the vertex counts of the meshes of a scene.
pub fn total_count(counts: &Vec<usize>) -> (r: u64)
    requires
        sum_counts(counts@) <= u64::MAX,
    ensures
        r == sum_counts(counts@),
{
    let mut total: u64 = 0;
    let mut i: usize = 0;
    while i < counts.len()
        invariant
            i <= counts.len(),
            sum_counts(counts@) <= u64::MAX,
            total == sum_counts(counts@.take(i as int)),
        decreases counts.len() - i,
    {
        proof {
            assert(counts@.take(i + 1).drop_last() =~= counts@.take(i as int));
            lemma_sum_counts_prefix(counts@, i + 1);
        }
        total = total + counts[i] as u64;
        i += 1;
    }
    proof {
        assert(counts@.take(counts.len() as int) =~= counts@);
    }
    total
}

/// A prefix sums to no more than the whole list.
pub proof fn lemma_sum_counts_prefix(s: Seq<usize>, k: int)
    requires
        0 <= k <= s.len(),
    ensures
        sum_counts(s.take(k)) <= sum_counts(s),
    decreases s.len(),
{
    if k < s.len() {
        lemma_sum_counts_prefix(s.drop_last(), k);
        assert(s.drop_last().take(k) =~= s.take(k));
    } else {
        assert(s.take(k) =~= s);
    }
}

/// What a mesh holds that the statistics count: the number of vertex
/// positions and the number of triangle-list indices, each when present.
#[derive(Clone, Copy, Debug)]
pub struct MeshAttributeCounts {
    pub positions: Option<usize>,
    pub indices: Option<usize>,
}

/// The number of vertices of the meshes: their positions, where they have any.
pub open spec fn scene_vertex_total(m: Seq<MeshAttributeCounts>) -> nat
    decreases m.len(),
{
    if m.len() == 0 {
        0
    } else {
        scene_vertex_total(m.drop_last()) + match m.last().positions {
            Some(n) => n as nat,
            None => 0nat,
        }
    }
}

/// The number of triangles of the meshes: a third of their indices (rounded
/// down), where they have any.
pub open spec fn scene_face_total(m: Seq<MeshAttributeCounts>) -> nat
    decreases m.len(),
{
    if m.len() == 0 {
        0
    } else {
        scene_face_total(m.drop_last()) + match m.last().indices {
            Some(n) => (n / 3) as nat,
            None => 0nat,
        }
    }
}

/// Aggregate statistics of the loaded model (its bounding box is kept
/// beside them by the viewer).
#[derive(Clone, Copy, Debug)]
pub struct ModelStats {
    pub num_meshes: u32,
    pub num_vertices: u64,
    pub num_faces: u64,
    pub num_materials: u32,
    pub num_textures: u32,
}

impl Default for ModelStats {
    fn default() -> (r: Self)
        ensures
            r.num_meshes == 0,
            r.num_vertices == 0,
            r.num_faces == 0,
            r.num_materials == 0,
            r.num_textures == 0,
    {
        ModelStats { num_meshes: 0, num_vertices: 0, num_faces: 0, num_materials: 0, num_textures: 0 }
    }
}

/// The statistics of a set of meshes: how many there are (as `u32`, wrapping
/// as a cast does), their vertices and their triangles. Materials and
/// textures are not counted here.
pub fn calculate_mesh_stats_from_scene(meshes: &Vec<MeshAttributeCounts>) -> (r: ModelStats)
    requires
        scene_vertex_total(meshes@) <= u64::MAX,
        scene_face_total(meshes@) <= u64::MAX,
    ensures
        r.num_meshes == meshes@.len() as u32,
        r.num_vertices == scene_vertex_total(meshes@),
        r.num_faces == scene_face_total(meshes@),
        r.num_materials == 0,
        r.num_textures == 0,
{
    let mut vertices: u64 = 0;
    let mut faces: u64 = 0;
    let mut i: usize = 0;
    while i < meshes.len()
        invariant
            i <= meshes.len(),
            scene_vertex_total(meshes@) <= u64::MAX,
            scene_face_total(meshes@) <= u64::MAX,
            vertices == scene_vertex_total(meshes@.take(i as int)),
            faces == scene_face_total(meshes@.take(i as int)),
        decreases meshes.len() - i,
    {
        proof {
            assert(meshes@.take(i + 1).drop_last() =~= meshes@.take(i as int));
            lemma_scene_totals_prefix(meshes@, i + 1);
        }
        match meshes[i].positions {
            Some(n) => {
                vertices = vertices + n as u64;
            },
            None => {},
        }
        match meshes[i].indices {
            Some(n) => {
                faces = faces + (n / 3) as u64;
            },
            None => {},
        }
        i += 1;
    }
    proof {
        assert(meshes@.take(meshes.len() as int) =~= meshes@);
    }
    ModelStats {
        num_meshes: meshes.len() as u32,
        num_vertices: vertices,
        num_faces: faces,
        num_materials: 0,
        num_textures: 0,
    }
}

/// The statistics of an imported scene, given each mesh's vertex and face
/// counts (faces of any size) and the number of materials; textures are not
/// counted.
pub fn imported_model_stats(
    vertex_counts: &Vec<usize>,
    face_counts: &Vec<usize>,
    material_count: usize,
) -> (r: ModelStats)
    requires
        vertex_counts@.len() == face_counts@.len(),
        sum_counts(vertex_counts@) <= u64::MAX,
        sum_counts(face_counts@) <= u64::MAX,
    ensures
        r.num_meshes == vertex_counts@.len() as u32,
        r.num_vertices == sum_counts(vertex_counts@),
        r.num_faces == sum_counts(face_counts@),
        r.num_materials == material_count as u32,
        r.num_textures == 0,
{
    ModelStats {
        num_meshes: vertex_counts.len() as u32,
        num_vertices: total_count(vertex_counts),
        num_faces: total_count(face_counts),
        num_materials: material_count as u32,
        num_textures: 0,
    }
}

/// A prefix of the meshes has no more vertices and triangles than all of them.
pub proof fn lemma_scene_totals_prefix(m: Seq<MeshAttributeCounts>, k: int)
    requires
        0 <= k <= m.len(),
    ensures
        scene_vertex_total(m.take(k)) <= scene_vertex_total(m),
        scene_face_total(m.take(k)) <= scene_face_total(m),
    decreases m.len(),
{
    if k < m.len() {
        lemma_scene_totals_prefix(m.drop_last(), k);
        assert(m.drop_last().take(k) =~= m.take(k));
    } else {
        assert(m.take(k) =~= m);
    }
}

} // verus!
