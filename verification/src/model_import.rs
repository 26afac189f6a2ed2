//! Bookkeeping of a model import: the loading progress, the names given to
//! meshes and other unnamed parts, triangle index lists, and material usage.

use vstd::prelude::*;
use crate::file_utils::{path_file_name, unix_file_name};
use crate::format_helpers::{decimal, push_decimal};
use crate::text::{lowercase_of, matches_search, push_char, spec_matches_search, str_eq};
use vstd::string::*;

verus! {

/// Stages during model loading. `Error` carries a description.
#[derive(PartialEq, Clone, Debug)]
pub enum LoadingStage {
    Idle,
    Reading,
    Parsing,
    Building,
    Ready,
    Error(String),
}

impl Default for LoadingStage {
    fn default() -> (r: Self)
        ensures
            r is Idle,
    {
        LoadingStage::Idle
    }
}

/// Progress state while a model is being loaded.
#[derive(Debug)]
pub struct LoadingState {
    pub is_loading: bool,
    /// Progress in percent, 0 to 100.
    pub progress_percent: u32,
    /// Name of the file being loaded (display only).
    pub file_name: String,
    pub stage: LoadingStage,
}

impl Default for LoadingState {
    fn default() -> (r: Self)
        ensures
            !r.is_loading,
            r.progress_percent == 0,
            r.file_name@ == Seq::<char>::empty(),
            r.stage is Idle,
    {
        LoadingState {
            is_loading: false,
            progress_percent: 0,
            file_name: String::new(),
            stage: LoadingStage::Idle,
        }
    }
}

/// What happened in the import of a model.
#[derive(Debug)]
pub enum LoadEvent {
    /// Reading of the named file began.
    Started(String),
    /// The file is being parsed.
    Parsing,
    /// The scene is being turned into meshes.
    Building,
    /// The model is ready.
    Finished,
    /// The import failed with the given message.
    Failed(String),
}

/// Move the loading state on after an import event.
pub fn advance_loading(state: &mut LoadingState, event: LoadEvent)
    ensures
        match event {
            LoadEvent::Started(name) => {
                &&& final(state).is_loading
                &&& final(state).file_name == name
                &&& final(state).stage is Reading
                &&& final(state).progress_percent == 10
            },
            LoadEvent::Parsing => {
                &&& final(state).is_loading == old(state).is_loading
                &&& final(state).file_name == old(state).file_name
                &&& final(state).stage is Parsing
                &&& final(state).progress_percent == 30
            },
            LoadEvent::Building => {
                &&& final(state).is_loading == old(state).is_loading
                &&& final(state).file_name == old(state).file_name
                &&& final(state).stage is Building
                &&& final(state).progress_percent == 60
            },
            LoadEvent::Finished => {
                &&& !final(state).is_loading
                &&& final(state).file_name == old(state).file_name
                &&& final(state).stage is Ready
                &&& final(state).progress_percent == 100
            },
            LoadEvent::Failed(msg) => {
                &&& !final(state).is_loading
                &&& final(state).file_name == old(state).file_name
                &&& final(state).stage == LoadingStage::Error(msg)
                &&& final(state).progress_percent == 0
            },
        },
{
    match event {
        LoadEvent::Started(name) => {
            state.is_loading = true;
            state.file_name = name;
            state.stage = LoadingStage::Reading;
            state.progress_percent = 10;
        },
        LoadEvent::Parsing => {
            state.stage = LoadingStage::Parsing;
            state.progress_percent = 30;
        },
        LoadEvent::Building => {
            state.stage = LoadingStage::Building;
            state.progress_percent = 60;
        },
        LoadEvent::Finished => {
            state.is_loading = false;
            state.progress_percent = 100;
            state.stage = LoadingStage::Ready;
        },
        LoadEvent::Failed(msg) => {
            state.is_loading = false;
            state.stage = LoadingStage::Error(msg);
            state.progress_percent = 0;
        },
    }
}

/// `prefix`, an underscore and `index` in decimal, such as `Mesh_3`.
pub open spec fn spec_indexed_name(prefix: Seq<char>, index: nat) -> Seq<char> {
    prefix + seq!['_'] + decimal(index)
}

/// The name given to the `index`-th unnamed part, such as `Mesh_3`.
pub fn indexed_name(prefix: &str, index: usize) -> (r: String)
    ensures
        r@ == spec_indexed_name(prefix@, index as nat),
{
    let mut s = String::from_str(prefix);
    push_char(&mut s, '_');
    push_decimal(&mut s, index as u128);
    proof {
        assert(s@ =~= spec_indexed_name(prefix@, index as nat));
    }
    s
}

/// The display name of the `index`-th mesh: its own name, or `Mesh_<index>`
/// when it has none.
pub open spec fn spec_mesh_display_name(name: Seq<char>, index: nat) -> Seq<char> {
    if name.len() == 0 {
        spec_indexed_name(seq!['M', 'e', 's', 'h'], index)
    } else {
        name
    }
}

/// The display name of the `index`-th mesh.
pub fn mesh_display_name(name: &str, index: usize) -> (r: String)
    ensures
        r@ == spec_mesh_display_name(name@, index as nat),
{
    if name.unicode_len() == 0 {
        proof {
            reveal_strlit("Mesh");
        }
        indexed_name("Mesh", index)
    } else {
        String::from_str(name)
    }
}

/// The file name shown while and after a model loads: the path's file name,
/// or `unknown`.
pub open spec fn spec_loaded_file_name(path: Seq<char>) -> Seq<char> {
    match unix_file_name(path) {
        Some(n) => n,
        None => seq!['u', 'n', 'k', 'n', 'o', 'w', 'n'],
    }
}

/// The file name shown for a model being loaded from `path`.
pub fn loaded_file_name(path: &str) -> (r: String)
    ensures
        r@ == spec_loaded_file_name(path@),
{
    match path_file_name(path) {
        Some(n) => n,
        None => {
            proof {
                reveal_strlit("unknown");
            }
            String::from_str("unknown")
        },
    }
}

/// The vertex indices of the faces that are triangles, in order.
pub open spec fn triangle_indices(faces: Seq<Seq<u32>>) -> Seq<u32>
    decreases faces.len(),
{
    if faces.len() == 0 {
        Seq::empty()
    } else {
        triangle_indices(faces.drop_last()) + if faces.last().len() == 3 {
            faces.last()
        } else {
            Seq::empty()
        }
    }
}

/// The number of faces that are triangles.
pub open spec fn triangle_count(faces: Seq<Seq<u32>>) -> nat
    decreases faces.len(),
{
    if faces.len() == 0 {
        0
    } else {
        triangle_count(faces.drop_last()) + if faces.last().len() == 3 {
            1nat
        } else {
            0nat
        }
    }
}

/// The index lists of the faces.
pub open spec fn face_views(faces: Seq<Vec<u32>>) -> Seq<Seq<u32>> {
    faces.map_values(|f: Vec<u32>| f@)
}

/// The index buffer of a triangle list built from `faces`: only faces with
/// exactly three indices are kept. Also returns how many faces were kept and
/// how many were skipped.
pub fn collect_triangle_indices(faces: &Vec<Vec<u32>>) -> (r: (Vec<u32>, usize, usize))
    ensures
        r.0@ == triangle_indices(face_views(faces@)),
        r.1 == triangle_count(face_views(faces@)),
        r.1 + r.2 == faces.len(),
{
    let ghost fs = face_views(faces@);
    let mut indices: Vec<u32> = Vec::new();
    let mut tri: usize = 0;
    let mut skipped: usize = 0;
    let mut i: usize = 0;
    while i < faces.len()
        invariant
            i <= faces.len(),
            fs == face_views(faces@),
            indices@ == triangle_indices(fs.take(i as int)),
            tri == triangle_count(fs.take(i as int)),
            tri + skipped == i,
        decreases faces.len() - i,
    {
        proof {
            assert(fs.take(i + 1).drop_last() =~= fs.take(i as int));
            assert(fs.take(i + 1).last() == faces@[i as int]@);
        }
        if faces[i].len() == 3 {
            indices.push(faces[i][0]);
            indices.push(faces[i][1]);
            indices.push(faces[i][2]);
            tri += 1;
            proof {
                assert(indices@ =~= triangle_indices(fs.take(i + 1)));
            }
        } else {
            skipped += 1;
            proof {
                assert(indices@ =~= triangle_indices(fs.take(i + 1)));
            }
        }
        i += 1;
    }
    proof {
        assert(fs.take(faces.len() as int) =~= fs);
    }
    (indices, tri, skipped)
}

/// Maps a mesh to its material indices.
#[derive(Debug)]
pub struct MeshMaterialEntry {
    pub mesh_name: String,
    pub mesh_index: usize,
    pub material_indices: Vec<usize>,
}

/// All material indices of the entries, in order.
pub open spec fn all_material_indices(entries: Seq<MeshMaterialEntry>) -> Seq<usize>
    decreases entries.len(),
{
    if entries.len() == 0 {
        Seq::empty()
    } else {
        all_material_indices(entries.drop_last()) + entries.last().material_indices@
    }
}

/// How many distinct materials the meshes use.
pub fn count_used_materials(entries: &Vec<MeshMaterialEntry>) -> (r: usize)
    ensures
        r == all_material_indices(entries@).to_set().len(),
{
    let mut seen: Vec<usize> = Vec::new();
    let mut i: usize = 0;
    while i < entries.len()
        invariant
            i <= entries.len(),
            seen@.no_duplicates(),
            seen@.to_set() == all_material_indices(entries@.take(i as int)).to_set(),
        decreases entries.len() - i,
    {
        let ghost before = all_material_indices(entries@.take(i as int));
        let ghost list = entries@[i as int].material_indices@;
        proof {
            assert(entries@.take(i + 1).drop_last() =~= entries@.take(i as int));
        }
        let mut j: usize = 0;
        while j < entries[i].material_indices.len()
            invariant
                i < entries.len(),
                j <= list.len(),
                list == entries@[i as int].material_indices@,
                seen@.no_duplicates(),
                seen@.to_set() == (before + list.take(j as int)).to_set(),
            decreases list.len() - j,
        {
            let m = entries[i].material_indices[j];
            let mut found = false;
            let mut k: usize = 0;
            while k < seen.len()
                invariant
                    k <= seen.len(),
                    found ==> seen@.contains(m),
                    !found ==> forall|q: int| 0 <= q < k ==> seen@[q] != m,
                decreases seen.len() - k,
            {
                if seen[k] == m {
                    found = true;
                }
                k += 1;
            }
            proof {
                assert((before + list.take(j + 1)) =~= (before + list.take(j as int)).push(m));
                (before + list.take(j as int)).lemma_push_to_set_commute(m);
            }
            if !found {
                let ghost s0 = seen@;
                seen.push(m);
                proof {
                    s0.lemma_push_to_set_commute(m);
                    assert forall|a: int, b: int| 0 <= a < b < seen@.len() implies seen@[a]
                        != seen@[b] by {
                        if b == seen@.len() - 1 {
                            assert(seen@[a] == s0[a]);
                        }
                    }
                }
            } else {
                proof {
                    assert(seen@.to_set().insert(m) =~= seen@.to_set());
                }
            }
            j += 1;
        }
        proof {
            assert(list.take(list.len() as int) =~= list);
        }
        i += 1;
    }
    proof {
        assert(entries@.take(entries.len() as int) =~= entries@);
        seen@.unique_seq_to_set();
    }
    seen.len()
}

/// The indices, below `n`, of the entries whose mesh name passes the search.
pub open spec fn shown_entry_indices(
    entries: Seq<MeshMaterialEntry>,
    search: Seq<char>,
    n: nat,
) -> Seq<usize>
    decreases n,
{
    if n == 0 {
        Seq::empty()
    } else {
        let k = (n - 1) as nat;
        shown_entry_indices(entries, search, k) + if spec_matches_search(
            entries[k as int].mesh_name@,
            search,
        ) {
            seq![k as usize]
        } else {
            Seq::empty()
        }
    }
}

/// The entries the material panel lists for a search (given in lowercase):
/// those whose lowercased mesh name contains it, all of them for an empty
/// search, in order.
pub fn shown_mesh_entries(entries: &Vec<MeshMaterialEntry>, search: &str) -> (r: Vec<usize>)
    ensures
        r@ == shown_entry_indices(entries@, search@, entries@.len()),
{
    let mut shown: Vec<usize> = Vec::new();
    let mut i: usize = 0;
    while i < entries.len()
        invariant
            i <= entries.len(),
            shown@ == shown_entry_indices(entries@, search@, i as nat),
        decreases entries.len() - i,
    {
        if matches_search(entries[i].mesh_name.as_str(), search) {
            shown.push(i);
        }
        proof {
            assert(shown@ =~= shown_entry_indices(entries@, search@, (i + 1) as nat));
        }
        i += 1;
    }
    shown
}

/// What a material property of an imported scene sets.
#[derive(PartialEq, Eq, Structural, Clone, Copy, Debug)]
pub enum MaterialPropertyKind {
    /// The material's name.
    Name,
    /// Its diffuse (base) color.
    DiffuseColor,
    /// Its roughness.
    Roughness,
    /// Its metalness.
    Metallic,
    /// Nothing that the viewer shows.
    Other,
}

/// What the property with key `key` sets.
pub open spec fn spec_material_property_kind(key: Seq<char>) -> MaterialPropertyKind {
    if key == "?mat.name"@ {
        MaterialPropertyKind::Name
    } else if key == "$clr.diffuse"@ {
        MaterialPropertyKind::DiffuseColor
    } else if key == "$mat.roughnessFactor"@ || key == "$mat.roughness"@ {
        MaterialPropertyKind::Roughness
    } else if key == "$mat.metallicFactor"@ || key == "$mat.metallic"@ {
        MaterialPropertyKind::Metallic
    } else {
        MaterialPropertyKind::Other
    }
}

/// What the material property with key `key` sets.
pub fn material_property_kind(key: &str) -> (r: MaterialPropertyKind)
    ensures
        r == spec_material_property_kind(key@),
{
    if str_eq(key, "?mat.name") {
        MaterialPropertyKind::Name
    } else if str_eq(key, "$clr.diffuse") {
        MaterialPropertyKind::DiffuseColor
    } else if str_eq(key, "$mat.roughnessFactor") || str_eq(key, "$mat.roughness") {
        MaterialPropertyKind::Roughness
    } else if str_eq(key, "$mat.metallicFactor") || str_eq(key, "$mat.metallic") {
        MaterialPropertyKind::Metallic
    } else {
        MaterialPropertyKind::Other
    }
}

/// Every kept face contributes three indices.
pub proof fn law_three_indices_per_triangle(faces: Seq<Seq<u32>>)
    ensures
        triangle_indices(faces).len() == 3 * triangle_count(faces),
    decreases faces.len(),
{
    if faces.len() > 0 {
        law_three_indices_per_triangle(faces.drop_last());
    }
}

/// The faces with exactly three indices, in order.
pub open spec fn kept_triangles(faces: Seq<Seq<u32>>) -> Seq<Seq<u32>> {
    faces.filter(|f: Seq<u32>| f.len() == 3)
}

/// The index buffer is the three-index faces laid end to end, in face order:
/// the `k`-th of them fills positions `3k`, `3k + 1` and `3k + 2`, each index
/// in the order the face gives it. Their number is the triangle count.
pub proof fn law_triangles_kept_in_order(faces: Seq<Seq<u32>>)
    ensures
        kept_triangles(faces).len() == triangle_count(faces),
        triangle_indices(faces).len() == 3 * kept_triangles(faces).len(),
        forall|k: int, j: int|
            0 <= k < kept_triangles(faces).len() && 0 <= j < 3 ==> #[trigger] triangle_indices(
                faces,
            )[3 * k + j] == #[trigger] kept_triangles(faces)[k][j],
    decreases faces.len(),
{
    let pred = |f: Seq<u32>| f.len() == 3;
    if faces.len() > 0 {
        let init = faces.drop_last();
        law_triangles_kept_in_order(init);
        assert(init.push(faces.last()) =~= faces);
        init.lemma_filter_push(faces.last(), pred);
        let a = triangle_indices(init);
        let ka = kept_triangles(init);
        let t = triangle_indices(faces);
        let kt = kept_triangles(faces);
        if faces.last().len() == 3 {
            assert(kt == ka.push(faces.last()));
            assert(t == a + faces.last());
            assert forall|k: int, j: int| 0 <= k < kt.len() && 0 <= j < 3 implies #[trigger] t[3
                * k + j] == #[trigger] kt[k][j] by {
                if k < ka.len() {
                    assert(kt[k] == ka[k]);
                    assert(t[3 * k + j] == a[3 * k + j]);
                } else {
                    assert(kt[k] == faces.last());
                    assert(t[3 * k + j] == faces.last()[j]);
                }
            }
        } else {
            assert(kt == ka);
            assert(t =~= a);
        }
    } else {
        assert(kept_triangles(faces) =~= Seq::<Seq<u32>>::empty()) by {
            reveal(Seq::filter);
        }
    }
}

/// An entry is listed exactly when the search is empty or occurs anywhere in
/// its lowercased mesh name (not only at its start); the listed indices are
/// in increasing order, each below `n`.
pub proof fn law_shown_entries_contain_search(
    entries: Seq<MeshMaterialEntry>,
    search: Seq<char>,
    n: nat,
)
    requires
        n <= entries.len(),
        n <= usize::MAX + 1,
    ensures
        forall|i: usize|
            #[trigger] shown_entry_indices(entries, search, n).contains(i) <==> (i < n && (
            search.len() == 0 || exists|j: int|
                0 <= j && j + search.len() <= lowercase_of(entries[i as int].mesh_name@).len()
                    && #[trigger] lowercase_of(entries[i as int].mesh_name@).subrange(
                    j,
                    j + search.len(),
                ) == search)),
        forall|x: int, y: int|
            0 <= x < y < shown_entry_indices(entries, search, n).len() ==> #[trigger]
            shown_entry_indices(entries, search, n)[x] < #[trigger] shown_entry_indices(
                entries,
                search,
                n,
            )[y],
    decreases n,
{
    if n > 0 {
        let k = (n - 1) as nat;
        law_shown_entries_contain_search(entries, search, k);
        let a = shown_entry_indices(entries, search, k);
        let r = shown_entry_indices(entries, search, n);
        assert forall|x: int| 0 <= x < a.len() implies #[trigger] a[x] < k by {
            assert(a.contains(a[x]));
        }
        if spec_matches_search(entries[k as int].mesh_name@, search) {
            assert(r == a.push(k as usize));
            assert forall|i: usize| #[trigger] r.contains(i) <==> (a.contains(i) || i == k) by {
                if r.contains(i) {
                    let x = choose|x: int| 0 <= x < r.len() && r[x] == i;
                    if x < a.len() {
                        assert(a[x] == i);
                    }
                }
                if a.contains(i) {
                    let x = choose|x: int| 0 <= x < a.len() && a[x] == i;
                    assert(r[x] == i);
                }
                if i == k {
                    assert(r[a.len() as int] == i);
                }
            }
        } else {
            assert(r =~= a);
        }
    } else {
        assert(shown_entry_indices(entries, search, n) =~= Seq::<usize>::empty());
    }
}

} // verus!
