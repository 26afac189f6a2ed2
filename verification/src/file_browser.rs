//! State of the file browser sidebar: the directory tree, its filters, which
//! directories are expanded, and the lazily loaded listings.

use vstd::prelude::*;
use crate::file_utils::{
    is_3d_file, path_file_name, path_key, path_parent, paths_equal, same_path, spec_is_3d_file,
    unix_file_name, unix_parent, PathKey,
};
use crate::text::{lowercase_of, matches_search, spec_matches_search, to_lowercase};
use crate::events::UiAction;
use crate::ui_state::UiState;

verus! {

/// Sort column in the file browser.
#[derive(PartialEq, Eq, Structural, Clone, Copy, Debug)]
pub enum SortField {
    Name,
    Modified,
}

impl Default for SortField {
    fn default() -> (r: Self)
        ensures
            r == SortField::Name,
    {
        SortField::Name
    }
}

/// A node in the file/directory tree.
#[derive(Debug)]
pub struct TreeNode {
    pub name: String,
    pub path: String,
    pub is_directory: bool,
    pub size: u64,
    /// Last modification, in seconds since the Unix epoch.
    pub modified: u64,
    pub depth: u32,
    pub children: Vec<TreeNode>,
    /// Lazy-load flag: `false` means children have not been scanned yet.
    pub is_loaded: bool,
}

impl Default for TreeNode {
    fn default() -> (r: Self)
        ensures
            r.name@ == Seq::<char>::empty(),
            r.path@ == Seq::<char>::empty(),
            !r.is_directory,
            r.size == 0,
            r.modified == 0,
            r.depth == 0,
            r.children@ == Seq::<TreeNode>::empty(),
            !r.is_loaded,
    {
        TreeNode {
            name: String::new(),
            path: String::new(),
            is_directory: false,
            size: 0,
            modified: 0,
            depth: 0,
            children: Vec::new(),
            is_loaded: false,
        }
    }
}

/// State of the file browser sidebar.
#[derive(Debug)]
pub struct FileBrowserState {
    pub root_path: Option<String>,
    pub tree_nodes: Vec<TreeNode>,
    pub search_query: String,
    pub show_only_3d_files: bool,
    pub show_directories: bool,
    pub sort_field: SortField,
    pub sort_ascending: bool,
    pub selected_path: Option<String>,
    /// Paths of the expanded directories; no two are the same path.
    pub expanded_dirs: Vec<String>,
}

/// The paths of a list of strings, as character sequences.
pub open spec fn path_views(v: Seq<String>) -> Seq<Seq<char>> {
    v.map_values(|p: String| p@)
}

/// The keys by which `Path` compares a list of paths.
pub open spec fn path_keys(v: Seq<String>) -> Seq<PathKey> {
    v.map_values(|p: String| path_key(p@))
}

impl FileBrowserState {
    /// No directory is listed twice among the expanded ones.
    pub open spec fn wf(&self) -> bool {
        path_keys(self.expanded_dirs@).no_duplicates()
    }

    /// The expanded directories, by the key `Path` compares them by.
    pub open spec fn expanded_set(&self) -> Set<PathKey> {
        path_keys(self.expanded_dirs@).to_set()
    }

    /// Whether the directory at `path` is expanded.
    pub fn is_expanded(&self, path: &str) -> (r: bool)
        ensures
            r == self.expanded_set().contains(path_key(path@)),
    {
        let mut i: usize = 0;
        while i < self.expanded_dirs.len()
            invariant
                i <= self.expanded_dirs.len(),
                forall|j: int| 0 <= j < i ==> path_key(self.expanded_dirs@[j]@) != path_key(path@),
            decreases self.expanded_dirs.len() - i,
        {
            if paths_equal(self.expanded_dirs[i].as_str(), path) {
                proof {
                    assert(path_keys(self.expanded_dirs@)[i as int] == path_key(path@));
                }
                return true;
            }
            i += 1;
        }
        proof {
            if path_keys(self.expanded_dirs@).contains(path_key(path@)) {
                let j = choose|j: int|
                    0 <= j < path_keys(self.expanded_dirs@).len() && path_keys(
                        self.expanded_dirs@,
                    )[j] == path_key(path@);
                assert(path_key(self.expanded_dirs@[j]@) == path_key(path@));
            }
        }
        false
    }

    /// Mark the directory at `path` as expanded.
    pub fn expand_dir(&mut self, path: String)
        requires
            old(self).wf(),
        ensures
            final(self).wf(),
            final(self).expanded_set() == old(self).expanded_set().insert(path_key(path@)),
            final(self).root_path == old(self).root_path,
            final(self).tree_nodes == old(self).tree_nodes,
            final(self).selected_path == old(self).selected_path,
            final(self).search_query == old(self).search_query,
            final(self).show_only_3d_files == old(self).show_only_3d_files,
            final(self).show_directories == old(self).show_directories,
            final(self).sort_field == old(self).sort_field,
            final(self).sort_ascending == old(self).sort_ascending,
    {
        if self.is_expanded(path.as_str()) {
            proof {
                assert(self.expanded_set().insert(path_key(path@)) =~= self.expanded_set());
            }
            return;
        }
        let ghost before = self.expanded_dirs@;
        self.expanded_dirs.push(path);
        proof {
            assert(path_keys(self.expanded_dirs@) =~= path_keys(before).push(path_key(path@)));
            path_keys(before).lemma_push_to_set_commute(path_key(path@));
        }
    }

    /// Mark the directory at `path` as collapsed.
    pub fn collapse_dir(&mut self, path: &str)
        requires
            old(self).wf(),
        ensures
            final(self).wf(),
            final(self).expanded_set() == old(self).expanded_set().remove(path_key(path@)),
            final(self).root_path == old(self).root_path,
            final(self).tree_nodes == old(self).tree_nodes,
            final(self).selected_path == old(self).selected_path,
            final(self).search_query == old(self).search_query,
            final(self).show_only_3d_files == old(self).show_only_3d_files,
            final(self).show_directories == old(self).show_directories,
            final(self).sort_field == old(self).sort_field,
            final(self).sort_ascending == old(self).sort_ascending,
    {
        let mut i: usize = 0;
        while i < self.expanded_dirs.len()
            invariant
                i <= self.expanded_dirs.len(),
                *self == *old(self),
                self.wf(),
                forall|j: int| 0 <= j < i ==> path_key(self.expanded_dirs@[j]@) != path_key(path@),
            decreases self.expanded_dirs.len() - i,
        {
            if paths_equal(self.expanded_dirs[i].as_str(), path) {
                let ghost before = path_keys(self.expanded_dirs@);
                let _removed = self.expanded_dirs.remove(i);
                proof {
                    assert(path_keys(self.expanded_dirs@) =~= before.remove(i as int));
                    lemma_remove_from_set(before, i as int);
                }
                return;
            }
            i += 1;
        }
        proof {
            assert forall|q: PathKey|
                #[trigger] self.expanded_set().contains(q) implies q != path_key(path@) by {
                let k = choose|k: int|
                    0 <= k < path_keys(self.expanded_dirs@).len() && path_keys(
                        self.expanded_dirs@,
                    )[k] == q;
                assert(path_key(self.expanded_dirs@[k]@) == q);
            }
            assert(self.expanded_set().remove(path_key(path@)) =~= self.expanded_set());
        }
    }
}

impl Default for FileBrowserState {
    fn default() -> (r: Self)
        ensures
            r.wf(),
            r.root_path is None,
            r.tree_nodes@ == Seq::<TreeNode>::empty(),
            r.search_query@ == Seq::<char>::empty(),
            r.show_only_3d_files,
            r.show_directories,
            r.sort_field == SortField::Name,
            r.sort_ascending,
            r.selected_path is None,
            r.expanded_dirs@ == Seq::<String>::empty(),
    {
        let r = FileBrowserState {
            root_path: None,
            tree_nodes: Vec::new(),
            search_query: String::new(),
            show_only_3d_files: true,
            show_directories: true,
            sort_field: SortField::Name,
            sort_ascending: true,
            selected_path: None,
            expanded_dirs: Vec::new(),
        };
        proof {
            assert(path_keys(r.expanded_dirs@) =~= Seq::<PathKey>::empty());
        }
        r
    }
}

/// Removing the element at `i` from a sequence without duplicates removes
/// exactly that value from its set of elements.
pub proof fn lemma_remove_from_set<A>(s: Seq<A>, i: int)
    requires
        s.no_duplicates(),
        0 <= i < s.len(),
    ensures
        s.remove(i).no_duplicates(),
        s.remove(i).to_set() == s.to_set().remove(s[i]),
{
    let r = s.remove(i);
    assert forall|a: int, b: int| 0 <= a < b < r.len() implies r[a] != r[b] by {
        let a2 = if a < i { a } else { a + 1 };
        let b2 = if b < i { b } else { b + 1 };
        assert(r[a] == s[a2] && r[b] == s[b2]);
    }
    assert forall|q: A| #[trigger] r.to_set().contains(q) <==> s.to_set().remove(
        s[i],
    ).contains(q) by {
        if r.to_set().contains(q) {
            let k = choose|k: int| 0 <= k < r.len() && r[k] == q;
            let k2 = if k < i { k } else { k + 1 };
            assert(s[k2] == q);
        }
        if s.to_set().remove(s[i]).contains(q) {
            let k = choose|k: int| 0 <= k < s.len() && s[k] == q;
            assert(k != i);
            if k < i {
                assert(r[k] == q);
            } else {
                assert(r[k - 1] == q);
            }
        }
    }
    assert(r.to_set() =~= s.to_set().remove(s[i]));
}

/// The arrow shown beside a sort button.
pub open spec fn spec_sort_arrow(is_active: bool, ascending: bool) -> Seq<char> {
    if !is_active {
        seq![' ']
    } else if ascending {
        seq!['\u{2191}']
    } else {
        seq!['\u{2193}']
    }
}

/// The arrow shown beside a sort button: blank when the column is not the
/// active one, up for ascending, down for descending.
pub fn sort_arrow(is_active: bool, ascending: bool) -> (r: &'static str)
    ensures
        r@ == spec_sort_arrow(is_active, ascending),
{
    proof {
        reveal_strlit(" ");
        reveal_strlit("\u{2191}");
        reveal_strlit("\u{2193}");
    }
    if !is_active {
        " "
    } else if ascending {
        "\u{2191}"
    } else {
        "\u{2193}"
    }
}

/// The sort column and direction after a click on `clicked`.
pub open spec fn spec_sort_after(field: SortField, ascending: bool, clicked: SortField) -> (
    SortField,
    bool,
) {
    if field == clicked {
        (field, !ascending)
    } else {
        (clicked, true)
    }
}

/// Click on a sort column: the active column flips its direction, another
/// column becomes active in ascending order.
pub fn toggle_sort(state: &mut FileBrowserState, field: SortField)
    ensures
        (final(state).sort_field, final(state).sort_ascending) == spec_sort_after(
            old(state).sort_field,
            old(state).sort_ascending,
            field,
        ),
        final(state).root_path == old(state).root_path,
        final(state).tree_nodes == old(state).tree_nodes,
        final(state).expanded_dirs == old(state).expanded_dirs,
        final(state).selected_path == old(state).selected_path,
        final(state).search_query == old(state).search_query,
        final(state).show_only_3d_files == old(state).show_only_3d_files,
        final(state).show_directories == old(state).show_directories,
{
    if state.sort_field == field {
        state.sort_ascending = !state.sort_ascending;
    } else {
        state.sort_field = field;
        state.sort_ascending = true;
    }
}

/// Clicking a column twice leaves it active, and its direction as it was
/// when it already was the active column (ascending otherwise).
pub proof fn law_sort_click_twice(field: SortField, ascending: bool, clicked: SortField)
    ensures
        ({
            let once = spec_sort_after(field, ascending, clicked);
            let twice = spec_sort_after(once.0, once.1, clicked);
            &&& twice.0 == clicked
            &&& twice.1 == (if field == clicked { ascending } else { false })
        }),
{
}

/// Whether a node is listed under the current filters. Directories follow
/// the "folders" switch; files must pass the 3D-only switch and, when a
/// search is entered, contain it in their lowercased name.
pub open spec fn spec_should_show_node(
    node: TreeNode,
    search: Seq<char>,
    show_only_3d: bool,
    show_dirs: bool,
) -> bool {
    if node.is_directory {
        show_dirs
    } else if show_only_3d && !spec_is_3d_file(node.name@) {
        false
    } else {
        spec_matches_search(node.name@, search)
    }
}

/// Whether a node is listed under the current filters (`search` is expected
/// in lowercase already).
pub fn should_show_node(node: &TreeNode, search: &str, show_only_3d: bool, show_dirs: bool) -> (r:
    bool)
    ensures
        r == spec_should_show_node(*node, search@, show_only_3d, show_dirs),
{
    if node.is_directory {
        return show_dirs;
    }
    if show_only_3d && !is_3d_file(node.name.as_str()) {
        return false;
    }
    matches_search(node.name.as_str(), search)
}

/// The name shown for the root of a browsed directory: its file name, or the
/// whole path when it has none.
pub open spec fn spec_root_name(path: Seq<char>) -> Seq<char> {
    match unix_file_name(path) {
        Some(n) => n,
        None => path,
    }
}

/// Open `path` in the file browser: it becomes the root, shown as a single
/// unloaded, expanded directory node, and the sidebar is shown.
pub fn open_directory(browser: &mut FileBrowserState, ui_state: &mut UiState, path: String)
    ensures
        final(browser).wf(),
        final(browser).root_path matches Some(r) && r@ == path@,
        final(browser).tree_nodes@.len() == 1,
        ({
            let n = final(browser).tree_nodes@[0];
            &&& n.name@ == spec_root_name(path@)
            &&& n.path@ == path@
            &&& n.is_directory
            &&& !n.is_loaded
            &&& n.size == 0
            &&& n.modified == 0
            &&& n.depth == 0
            &&& n.children@.len() == 0
        }),
        path_views(final(browser).expanded_dirs@) == seq![path@],
        final(browser).search_query == old(browser).search_query,
        final(browser).show_only_3d_files == old(browser).show_only_3d_files,
        final(browser).show_directories == old(browser).show_directories,
        final(browser).sort_field == old(browser).sort_field,
        final(browser).sort_ascending == old(browser).sort_ascending,
        final(browser).selected_path == old(browser).selected_path,
        *final(ui_state) == (UiState { show_sidebar: true, ..*old(ui_state) }),
{
    let name = match path_file_name(path.as_str()) {
        Some(n) => n,
        None => path.clone(),
    };
    let root = TreeNode {
        name,
        path: path.clone(),
        is_directory: true,
        size: 0,
        modified: 0,
        depth: 0,
        children: Vec::new(),
        is_loaded: false,
    };
    browser.root_path = Some(path.clone());
    browser.tree_nodes = Vec::new();
    browser.tree_nodes.push(root);
    browser.expanded_dirs = Vec::new();
    browser.expanded_dirs.push(path);
    ui_state.show_sidebar = true;
    proof {
        assert(path_views(browser.expanded_dirs@) =~= seq![path@]);
        assert(path_keys(browser.expanded_dirs@) =~= seq![path_key(path@)]);
    }
}

/// What a tree node holds, with its children as a sequence of views.
pub struct NodeView {
    pub name: Seq<char>,
    pub path: Seq<char>,
    pub is_directory: bool,
    pub size: u64,
    pub modified: u64,
    pub depth: u32,
    pub children: Seq<NodeView>,
    pub is_loaded: bool,
}

/// The view of one node.
pub open spec fn node_view(n: TreeNode) -> NodeView
    decreases n,
{
    NodeView {
        name: n.name@,
        path: n.path@,
        is_directory: n.is_directory,
        size: n.size,
        modified: n.modified,
        depth: n.depth,
        children: forest_view(n.children@),
        is_loaded: n.is_loaded,
    }
}

/// The views of a sequence of nodes.
pub open spec fn forest_view(s: Seq<TreeNode>) -> Seq<NodeView>
    decreases s,
{
    if s.len() == 0 {
        Seq::empty()
    } else {
        seq![node_view(s[0])] + forest_view(s.drop_first())
    }
}

impl View for TreeNode {
    type V = NodeView;

    open spec fn view(&self) -> NodeView {
        node_view(*self)
    }
}

/// The first node, in pre-order, whose path is `path`.
pub open spec fn find_view(nodes: Seq<NodeView>, path: Seq<char>) -> Option<NodeView>
    decreases nodes,
{
    if nodes.len() == 0 {
        None
    } else if same_path(nodes[0].path, path) {
        Some(nodes[0])
    } else {
        match find_view(nodes[0].children, path) {
            Some(n) => Some(n),
            None => find_view(nodes.drop_first(), path),
        }
    }
}

/// Whether `path` is the path of `n` or of a node below it.
pub open spec fn found_view(n: NodeView, path: Seq<char>) -> bool {
    same_path(n.path, path) || find_view(n.children, path) is Some
}

/// The forest with `children` attached, as loaded, to the first node (in
/// pre-order) whose path is `path`; unchanged when there is none.
pub open spec fn attach_view(nodes: Seq<NodeView>, path: Seq<char>, children: Seq<NodeView>) -> Seq<
    NodeView,
>
    decreases nodes,
{
    if nodes.len() == 0 {
        nodes
    } else if same_path(nodes[0].path, path) {
        seq![NodeView { children: children, is_loaded: true, ..nodes[0] }] + nodes.drop_first()
    } else if find_view(nodes[0].children, path) is Some {
        seq![NodeView { children: attach_view(nodes[0].children, path, children), ..nodes[0] }]
            + nodes.drop_first()
    } else {
        seq![nodes[0]] + attach_view(nodes.drop_first(), path, children)
    }
}

/// The number of nodes in a forest of views.
pub open spec fn view_size(nodes: Seq<NodeView>) -> nat
    decreases nodes,
{
    if nodes.len() == 0 {
        0
    } else {
        1 + view_size(nodes[0].children) + view_size(nodes.drop_first())
    }
}

/// The view of a forest has one view per node, in order.
pub proof fn lemma_forest_view_index(s: Seq<TreeNode>)
    ensures
        forest_view(s).len() == s.len(),
        forall|i: int| 0 <= i < s.len() ==> #[trigger] forest_view(s)[i] == node_view(s[i]),
    decreases s.len(),
{
    if s.len() > 0 {
        lemma_forest_view_index(s.drop_first());
        assert forall|i: int| 0 <= i < s.len() implies #[trigger] forest_view(s)[i] == node_view(
            s[i],
        ) by {
            if i > 0 {
                assert(forest_view(s)[i] == forest_view(s.drop_first())[i - 1]);
            }
        }
    }
}

/// Views of two forests agree when their nodes' views agree one by one.
pub proof fn lemma_forest_view_ext(a: Seq<TreeNode>, b: Seq<TreeNode>)
    requires
        a.len() == b.len(),
        forall|i: int| 0 <= i < a.len() ==> node_view(#[trigger] a[i]) == node_view(b[i]),
    ensures
        forest_view(a) == forest_view(b),
{
    lemma_forest_view_index(a);
    lemma_forest_view_index(b);
    assert(forest_view(a) =~= forest_view(b));
}

/// Skipping nodes that neither are nor hold `path` changes neither the search
/// nor the attachment.
pub proof fn lemma_view_skip(
    s: Seq<NodeView>,
    path: Seq<char>,
    children: Seq<NodeView>,
    i: int,
)
    requires
        0 <= i <= s.len(),
        forall|j: int| 0 <= j < i ==> !found_view(#[trigger] s[j], path),
    ensures
        find_view(s, path) == find_view(s.skip(i), path),
        attach_view(s, path, children) == s.take(i) + attach_view(s.skip(i), path, children),
    decreases i,
{
    if i > 0 {
        assert(!found_view(s[0], path));
        lemma_view_skip(s.drop_first(), path, children, i - 1);
        assert(s.drop_first().skip(i - 1) =~= s.skip(i));
        assert(seq![s[0]] + s.drop_first().take(i - 1) =~= s.take(i));
        assert(attach_view(s, path, children) =~= s.take(i) + attach_view(s.skip(i), path, children));
    } else {
        assert(s.skip(0) =~= s);
        assert(s.take(0) + attach_view(s, path, children) =~= attach_view(s, path, children));
    }
}

/// Attaching where there is no node at `path` changes nothing.
pub proof fn lemma_attach_absent(s: Seq<NodeView>, path: Seq<char>, children: Seq<NodeView>)
    requires
        find_view(s, path) is None,
    ensures
        attach_view(s, path, children) == s,
    decreases s,
{
    if s.len() > 0 {
        lemma_attach_absent(s.drop_first(), path, children);
        assert(seq![s[0]] + s.drop_first() =~= s);
    }
}

/// The children of a node are a smaller forest than the forest holding it.
pub proof fn lemma_child_smaller(s: Seq<NodeView>, i: int)
    requires
        0 <= i < s.len(),
    ensures
        view_size(s[i].children) < view_size(s),
    decreases i,
{
    if i > 0 {
        lemma_child_smaller(s.drop_first(), i - 1);
        assert(s.drop_first()[i - 1] == s[i]);
    }
}

/// The first node, in pre-order, whose path is `path`.
pub fn find_node<'a>(nodes: &'a Vec<TreeNode>, path: &str) -> (r: Option<&'a TreeNode>)
    ensures
        match r {
            Some(n) => find_view(forest_view(nodes@), path@) == Some(node_view(*n)),
            None => find_view(forest_view(nodes@), path@) is None,
        },
    decreases view_size(forest_view(nodes@)),
{
    let ghost fv = forest_view(nodes@);
    proof {
        lemma_forest_view_index(nodes@);
    }
    let mut i: usize = 0;
    while i < nodes.len()
        invariant
            i <= nodes.len(),
            fv == forest_view(nodes@),
            fv.len() == nodes@.len(),
            forall|k: int| 0 <= k < nodes@.len() ==> #[trigger] fv[k] == node_view(nodes@[k]),
            forall|j: int| 0 <= j < i ==> !found_view(#[trigger] fv[j], path@),
        decreases nodes.len() - i,
    {
        if paths_equal(nodes[i].path.as_str(), path) {
            proof {
                lemma_view_skip(fv, path@, Seq::empty(), i as int);
                assert(fv.skip(i as int)[0] == fv[i as int]);
            }
            return Some(&nodes[i]);
        }
        proof {
            lemma_child_smaller(fv, i as int);
        }
        match find_node(&nodes[i].children, path) {
            Some(n) => {
                proof {
                    lemma_view_skip(fv, path@, Seq::empty(), i as int);
                    assert(fv.skip(i as int)[0] == fv[i as int]);
                }
                return Some(n);
            },
            None => {},
        }
        i += 1;
    }
    proof {
        lemma_view_skip(fv, path@, Seq::empty(), fv.len() as int);
    }
    None
}

/// Attach `children` as the loaded listing of the first node (in pre-order)
/// whose path is `path`. When there is no such node nothing changes and the
/// children are handed back.
pub fn attach_children(nodes: &mut Vec<TreeNode>, path: &str, children: Vec<TreeNode>) -> (r:
    Option<Vec<TreeNode>>)
    ensures
        forest_view(final(nodes)@) == attach_view(
            forest_view(old(nodes)@),
            path@,
            forest_view(children@),
        ),
        r is None <==> find_view(forest_view(old(nodes)@), path@) is Some,
        r is Some ==> r == Some(children),
    decreases view_size(forest_view(old(nodes)@)),
{
    let ghost orig = nodes@;
    let ghost fv = forest_view(orig);
    let ghost kids = forest_view(children@);
    proof {
        lemma_forest_view_index(orig);
    }
    let mut pending = children;
    let mut i: usize = 0;
    while i < nodes.len()
        invariant
            i <= nodes.len(),
            orig == old(nodes)@,
            fv == forest_view(orig),
            fv.len() == orig.len(),
            forall|k: int| 0 <= k < orig.len() ==> #[trigger] fv[k] == node_view(orig[k]),
            nodes@.len() == orig.len(),
            forest_view(nodes@) == fv,
            pending == children,
            kids == forest_view(children@),
            forall|j: int| 0 <= j < i ==> !found_view(#[trigger] fv[j], path@),
        decreases nodes.len() - i,
    {
        proof {
            lemma_forest_view_index(nodes@);
            assert(node_view(nodes@[i as int]) == fv[i as int]);
        }
        if paths_equal(nodes[i].path.as_str(), path) {
            let ghost before = nodes@;
            let mut n = nodes.remove(i);
            n.children = pending;
            n.is_loaded = true;
            nodes.insert(i, n);
            proof {
                lemma_view_skip(fv, path@, kids, i as int);
                assert(fv.skip(i as int)[0] == fv[i as int]);
                lemma_forest_view_index(nodes@);
                assert(forest_view(nodes@) =~= fv.take(i as int) + attach_view(
                    fv.skip(i as int),
                    path@,
                    kids,
                )) by {
                    assert forall|k: int| 0 <= k < nodes@.len() implies #[trigger] forest_view(
                        nodes@,
                    )[k] == (fv.take(i as int) + attach_view(fv.skip(i as int), path@, kids))[k] by {
                        if k != i {
                            assert(nodes@[k] == before[k]);
                            lemma_forest_view_index(before);
                        }
                    }
                }
            }
            return None;
        }
        let ghost before = nodes@;
        let mut n = nodes.remove(i);
        proof {
            lemma_child_smaller(fv, i as int);
            lemma_forest_view_index(before);
        }
        let r = attach_children(&mut n.children, path, pending);
        let ghost after_node = n;
        nodes.insert(i, n);
        proof {
            lemma_forest_view_index(nodes@);
            lemma_forest_view_index(before);
        }
        match r {
            None => {
                proof {
                    lemma_view_skip(fv, path@, kids, i as int);
                    assert(fv.skip(i as int)[0] == fv[i as int]);
                    assert(forest_view(nodes@) =~= fv.take(i as int) + attach_view(
                        fv.skip(i as int),
                        path@,
                        kids,
                    )) by {
                        assert forall|k: int| 0 <= k < nodes@.len() implies #[trigger] forest_view(
                            nodes@,
                        )[k] == (fv.take(i as int) + attach_view(fv.skip(i as int), path@, kids))[k] by {
                            if k != i {
                                assert(nodes@[k] == before[k]);
                            }
                        }
                    }
                }
                return None;
            },
            Some(c) => {
                pending = c;
                proof {
                    lemma_attach_absent(forest_view(before[i as int].children@), path@, kids);
                    assert(node_view(after_node) == node_view(before[i as int]));
                    assert forall|k: int| 0 <= k < nodes@.len() implies node_view(
                        #[trigger] nodes@[k],
                    ) == node_view(before[k]) by {}
                    lemma_forest_view_ext(nodes@, before);
                }
            },
        }
        i += 1;
    }
    proof {
        lemma_view_skip(fv, path@, kids, fv.len() as int);
        assert(fv.skip(fv.len() as int) =~= Seq::<NodeView>::empty());
        assert(fv.take(fv.len() as int) =~= fv);
    }
    Some(pending)
}

/// A click on a row of the tree: the row's path becomes the selection, and a
/// click on a file asks for that file to be opened.
pub fn row_clicked(state: &mut FileBrowserState, path: String, is_directory: bool) -> (r: Option<
    UiAction,
>)
    ensures
        *final(state) == (FileBrowserState { selected_path: Some(path), ..*old(state) }),
        r == if is_directory {
            None
        } else {
            Some(UiAction::OpenFile(path))
        },
{
    state.selected_path = Some(path.clone());
    if is_directory {
        None
    } else {
        Some(UiAction::OpenFile(path))
    }
}

/// Move the browser up to the parent of its root directory: the parent becomes
/// the root and the tree is emptied. Nothing changes when there is no root or
/// the root has no parent. Returns whether the browser moved.
pub fn show_parent_directory(state: &mut FileBrowserState) -> (moved: bool)
    ensures
        moved <==> (old(state).root_path matches Some(r) && unix_parent(r@) is Some),
        moved ==> (final(state).root_path matches Some(p) && Some(p@) == unix_parent(
            old(state).root_path->0@,
        )) && final(state).tree_nodes@.len() == 0,
        !moved ==> final(state).root_path == old(state).root_path && final(state).tree_nodes
            == old(state).tree_nodes,
        final(state).expanded_dirs == old(state).expanded_dirs,
        final(state).selected_path == old(state).selected_path,
        final(state).search_query == old(state).search_query,
        final(state).show_only_3d_files == old(state).show_only_3d_files,
        final(state).show_directories == old(state).show_directories,
        final(state).sort_field == old(state).sort_field,
        final(state).sort_ascending == old(state).sort_ascending,
{
    let parent = match &state.root_path {
        Some(root) => path_parent(root.as_str()),
        None => None,
    };
    match parent {
        Some(p) => {
            state.root_path = Some(p);
            state.tree_nodes = Vec::new();
            true
        },
        None => false,
    }
}

/// One row of the file tree as the sidebar lists it.
#[derive(Debug)]
pub struct BrowserRow {
    pub name: String,
    pub path: String,
    pub is_directory: bool,
    /// Nesting level, used for indentation.
    pub depth: usize,
}

/// What a row holds.
pub struct RowView {
    pub name: Seq<char>,
    pub path: Seq<char>,
    pub is_directory: bool,
    pub depth: nat,
}

/// The views of a list of rows.
pub open spec fn row_views(rows: Seq<BrowserRow>) -> Seq<RowView> {
    rows.map_values(
        |r: BrowserRow|
            RowView {
                name: r.name@,
                path: r.path@,
                is_directory: r.is_directory,
                depth: r.depth as nat,
            },
    )
}

/// One level deeper (levels are counted in `usize` and stop at its maximum).
pub open spec fn next_depth(d: nat) -> nat {
    if d < usize::MAX {
        d + 1
    } else {
        d
    }
}

/// The filter of `should_show_node`, on a node view.
pub open spec fn view_shown(n: NodeView, search: Seq<char>, show_only_3d: bool, show_dirs: bool) -> bool {
    if n.is_directory {
        show_dirs
    } else if show_only_3d && !spec_is_3d_file(n.name) {
        false
    } else {
        spec_matches_search(n.name, search)
    }
}

/// The rows of a node and, when it is an expanded directory, of its shown
/// children one level deeper.
pub open spec fn subtree_rows(
    n: NodeView,
    expanded: Set<PathKey>,
    search: Seq<char>,
    show_only_3d: bool,
    show_dirs: bool,
    depth: nat,
) -> Seq<RowView>
    decreases n, 1nat,
{
    seq![RowView { name: n.name, path: n.path, is_directory: n.is_directory, depth: depth }] + if n.is_directory
        && expanded.contains(path_key(n.path)) {
        children_rows(n.children, expanded, search, show_only_3d, show_dirs, next_depth(depth))
    } else {
        Seq::empty()
    }
}

/// The rows of the shown nodes among `cs`, each with its subtree.
pub open spec fn children_rows(
    cs: Seq<NodeView>,
    expanded: Set<PathKey>,
    search: Seq<char>,
    show_only_3d: bool,
    show_dirs: bool,
    depth: nat,
) -> Seq<RowView>
    decreases cs, 0nat,
{
    if cs.len() == 0 {
        Seq::empty()
    } else {
        children_rows(cs.drop_last(), expanded, search, show_only_3d, show_dirs, depth) + if view_shown(
            cs.last(),
            search,
            show_only_3d,
            show_dirs,
        ) {
            subtree_rows(cs.last(), expanded, search, show_only_3d, show_dirs, depth)
        } else {
            Seq::empty()
        }
    }
}

/// The rows the sidebar lists for the top-level nodes: a shown node with its
/// subtree at depth 0; but while folders are hidden, a top-level directory is
/// not listed and, when expanded, its shown children are listed at depth 0.
pub open spec fn top_rows(
    tops: Seq<NodeView>,
    expanded: Set<PathKey>,
    search: Seq<char>,
    show_only_3d: bool,
    show_dirs: bool,
) -> Seq<RowView>
    decreases tops.len(),
{
    if tops.len() == 0 {
        Seq::empty()
    } else {
        let n = tops.last();
        top_rows(tops.drop_last(), expanded, search, show_only_3d, show_dirs) + if n.is_directory
            && !show_dirs {
            if expanded.contains(path_key(n.path)) {
                children_rows(n.children, expanded, search, show_only_3d, show_dirs, 0)
            } else {
                Seq::empty()
            }
        } else if view_shown(n, search, show_only_3d, show_dirs) {
            subtree_rows(n, expanded, search, show_only_3d, show_dirs, 0)
        } else {
            Seq::empty()
        }
    }
}

/// The rows the sidebar lists for the browser's state.
pub open spec fn spec_visible_rows(state: FileBrowserState) -> Seq<RowView> {
    top_rows(
        forest_view(state.tree_nodes@),
        state.expanded_set(),
        lowercase_of(state.search_query@),
        state.show_only_3d_files,
        state.show_directories,
    )
}

/// Appends the rows of `n` and its listed descendants.
fn push_subtree_rows(
    out: &mut Vec<BrowserRow>,
    n: &TreeNode,
    state: &FileBrowserState,
    search: &str,
    depth: usize,
)
    ensures
        row_views(final(out)@) == row_views(old(out)@) + subtree_rows(
            node_view(*n),
            state.expanded_set(),
            search@,
            state.show_only_3d_files,
            state.show_directories,
            depth as nat,
        ),
    decreases 2 * view_size(node_view(*n).children) + 1,
{
    let ghost before = out@;
    out.push(
        BrowserRow {
            name: n.name.clone(),
            path: n.path.clone(),
            is_directory: n.is_directory,
            depth: depth,
        },
    );
    proof {
        assert(row_views(out@) =~= row_views(before) + seq![
            RowView {
                name: n.name@,
                path: n.path@,
                is_directory: n.is_directory,
                depth: depth as nat,
            },
        ]);
    }
    if n.is_directory && state.is_expanded(n.path.as_str()) {
        let next: usize = if depth < usize::MAX {
            depth + 1
        } else {
            depth
        };
        let ghost mid = out@;
        push_children_rows(out, &n.children, state, search, next);
        proof {
            assert(row_views(out@) =~= row_views(before) + subtree_rows(
                node_view(*n),
                state.expanded_set(),
                search@,
                state.show_only_3d_files,
                state.show_directories,
                depth as nat,
            ));
        }
    } else {
        proof {
            assert(row_views(out@) =~= row_views(before) + subtree_rows(
                node_view(*n),
                state.expanded_set(),
                search@,
                state.show_only_3d_files,
                state.show_directories,
                depth as nat,
            ));
        }
    }
}

/// Appends the rows of the shown nodes among `cs`, each with its subtree.
fn push_children_rows(
    out: &mut Vec<BrowserRow>,
    cs: &Vec<TreeNode>,
    state: &FileBrowserState,
    search: &str,
    depth: usize,
)
    ensures
        row_views(final(out)@) == row_views(old(out)@) + children_rows(
            forest_view(cs@),
            state.expanded_set(),
            search@,
            state.show_only_3d_files,
            state.show_directories,
            depth as nat,
        ),
    decreases 2 * view_size(forest_view(cs@)),
{
    let ghost fv = forest_view(cs@);
    let ghost start = row_views(out@);
    proof {
        lemma_forest_view_index(cs@);
        assert(fv.take(0) =~= Seq::<NodeView>::empty());
        assert(row_views(out@) =~= start + children_rows(
            fv.take(0),
            state.expanded_set(),
            search@,
            state.show_only_3d_files,
            state.show_directories,
            depth as nat,
        ));
    }
    let mut i: usize = 0;
    while i < cs.len()
        invariant
            i <= cs@.len(),
            fv == forest_view(cs@),
            fv.len() == cs@.len(),
            forall|k: int| 0 <= k < cs@.len() ==> #[trigger] fv[k] == node_view(cs@[k]),
            start == row_views(old(out)@),
            row_views(out@) == start + children_rows(
                fv.take(i as int),
                state.expanded_set(),
                search@,
                state.show_only_3d_files,
                state.show_directories,
                depth as nat,
            ),
        decreases cs@.len() - i,
    {
        proof {
            assert(fv.take(i + 1).drop_last() =~= fv.take(i as int));
            assert(fv.take(i + 1).last() == fv[i as int]);
            lemma_child_smaller(fv, i as int);
            assert(view_size(fv) >= 1 + view_size(fv[i as int].children)) by {
                lemma_child_smaller(fv, i as int);
            }
        }
        let ghost before = row_views(out@);
        if should_show_node(&cs[i], search, state.show_only_3d_files, state.show_directories) {
            proof {
                lemma_view_size_bound(fv, i as int);
            }
            push_subtree_rows(out, &cs[i], state, search, depth);
        }
        proof {
            assert(row_views(out@) =~= start + children_rows(
                fv.take(i + 1),
                state.expanded_set(),
                search@,
                state.show_only_3d_files,
                state.show_directories,
                depth as nat,
            ));
        }
        i += 1;
    }
    proof {
        assert(fv.take(cs@.len() as int) =~= fv);
    }
}

/// A node's subtree is at most as large as the forest holding it, less one.
pub proof fn lemma_view_size_bound(s: Seq<NodeView>, i: int)
    requires
        0 <= i < s.len(),
    ensures
        1 + view_size(s[i].children) <= view_size(s),
    decreases i,
{
    if i > 0 {
        lemma_view_size_bound(s.drop_first(), i - 1);
        assert(s.drop_first()[i - 1] == s[i]);
    }
}

/// The rows the sidebar lists for a search given in lowercase, in order, for
/// the current tree, filters and expanded directories.
pub fn rows_for_search(state: &FileBrowserState, search: &str) -> (r: Vec<BrowserRow>)
    ensures
        row_views(r@) == top_rows(
            forest_view(state.tree_nodes@),
            state.expanded_set(),
            search@,
            state.show_only_3d_files,
            state.show_directories,
        ),
{
    let ghost tops = forest_view(state.tree_nodes@);
    let mut out: Vec<BrowserRow> = Vec::new();
    proof {
        lemma_forest_view_index(state.tree_nodes@);
        assert(tops.take(0) =~= Seq::<NodeView>::empty());
        assert(row_views(out@) =~= Seq::<RowView>::empty());
    }
    let mut i: usize = 0;
    while i < state.tree_nodes.len()
        invariant
            i <= state.tree_nodes@.len(),
            tops == forest_view(state.tree_nodes@),
            tops.len() == state.tree_nodes@.len(),
            forall|k: int| 0 <= k < tops.len() ==> #[trigger] tops[k] == node_view(state.tree_nodes@[k]),
            row_views(out@) == top_rows(
                tops.take(i as int),
                state.expanded_set(),
                search@,
                state.show_only_3d_files,
                state.show_directories,
            ),
        decreases state.tree_nodes@.len() - i,
    {
        proof {
            assert(tops.take(i + 1).drop_last() =~= tops.take(i as int));
            assert(tops.take(i + 1).last() == tops[i as int]);
        }
        let node = &state.tree_nodes[i];
        let ghost before = row_views(out@);
        if node.is_directory && !state.show_directories {
            if state.is_expanded(node.path.as_str()) {
                push_children_rows(&mut out, &node.children, state, search, 0);
            }
        } else if should_show_node(node, search, state.show_only_3d_files, state.show_directories) {
            push_subtree_rows(&mut out, node, state, search, 0);
        }
        proof {
            assert(row_views(out@) =~= top_rows(
                tops.take(i + 1),
                state.expanded_set(),
                search@,
                state.show_only_3d_files,
                state.show_directories,
            ));
        }
        i += 1;
    }
    proof {
        assert(tops.take(state.tree_nodes@.len() as int) =~= tops);
    }
    out
}

/// The rows the sidebar lists, in order, for the current tree, filters,
/// search and expanded directories.
pub fn visible_rows(state: &FileBrowserState) -> (r: Vec<BrowserRow>)
    ensures
        row_views(r@) == spec_visible_rows(*state),
{
    let lower = to_lowercase(state.search_query.as_str());
    rows_for_search(state, lower.as_str())
}

/// Whether the directory at `dir` is in the tree and not yet loaded.
pub open spec fn needs_load(tree: Seq<NodeView>, dir: Seq<char>) -> bool {
    match find_view(tree, dir) {
        Some(n) => !n.is_loaded,
        None => false,
    }
}

/// The expanded directories that are in the tree but whose children have not
/// been scanned yet, in the order they were expanded.
pub fn dirs_to_load(state: &FileBrowserState) -> (r: Vec<String>)
    ensures
        path_views(r@) == path_views(state.expanded_dirs@).filter(
            |d: Seq<char>| needs_load(forest_view(state.tree_nodes@), d),
        ),
{
    let ghost pred = |d: Seq<char>| needs_load(forest_view(state.tree_nodes@), d);
    let ghost all = path_views(state.expanded_dirs@);
    let mut r: Vec<String> = Vec::new();
    let mut i: usize = 0;
    while i < state.expanded_dirs.len()
        invariant
            i <= state.expanded_dirs.len(),
            all == path_views(state.expanded_dirs@),
            pred == (|d: Seq<char>| needs_load(forest_view(state.tree_nodes@), d)),
            path_views(r@) == all.take(i as int).filter(pred),
        decreases state.expanded_dirs.len() - i,
    {
        let ghost d = state.expanded_dirs@[i as int]@;
        proof {
            assert(all.take(i + 1) =~= all.take(i as int).push(d));
            all.take(i as int).lemma_filter_push(d, pred);
        }
        let ghost before = r@;
        match find_node(&state.tree_nodes, state.expanded_dirs[i].as_str()) {
            Some(n) => {
                if !n.is_loaded {
                    r.push(state.expanded_dirs[i].clone());
                    proof {
                        assert(path_views(r@) =~= path_views(before).push(d));
                    }
                }
            },
            None => {},
        }
        i += 1;
    }
    proof {
        assert(all.take(all.len() as int) =~= all);
    }
    r
}

/// Store a freshly scanned listing of `dir`: the entries are put in listing
/// order and attached as the loaded children of the node at `dir`. Nothing
/// changes when `dir` is not in the tree.
pub fn apply_directory_listing(state: &mut FileBrowserState, dir: &str, entries: Vec<TreeNode>)
    ensures
        exists|sorted: Seq<NodeView>|
            crate::listing_order::is_listing_order(forest_view(entries@), sorted)
                && forest_view(final(state).tree_nodes@) == attach_view(
                forest_view(old(state).tree_nodes@),
                dir@,
                sorted,
            ),
        final(state).root_path == old(state).root_path,
        final(state).expanded_dirs == old(state).expanded_dirs,
        final(state).selected_path == old(state).selected_path,
        final(state).search_query == old(state).search_query,
        final(state).show_only_3d_files == old(state).show_only_3d_files,
        final(state).show_directories == old(state).show_directories,
        final(state).sort_field == old(state).sort_field,
        final(state).sort_ascending == old(state).sort_ascending,
{
    let sorted = crate::listing_order::sort_listing(entries);
    let ghost sv = forest_view(sorted@);
    let _unused = attach_children(&mut state.tree_nodes, dir, sorted);
    proof {
        assert(crate::listing_order::is_listing_order(forest_view(entries@), sv));
    }
}

/// An expanded directory reads as expanded, under any spelling of its path,
/// until it is collapsed; a collapsed one reads as collapsed.
pub proof fn law_expansion_read_back(expanded: Set<PathKey>, p: Seq<char>, q: Seq<char>)
    requires
        same_path(p, q),
    ensures
        expanded.insert(path_key(p)).contains(path_key(q)),
        !expanded.remove(path_key(p)).contains(path_key(q)),
{
}

/// After children are attached at `path`, looking up `path` finds the node
/// with exactly those children, marked as loaded; absent paths stay absent.
pub proof fn law_find_after_attach(nodes: Seq<NodeView>, path: Seq<char>, children: Seq<NodeView>)
    ensures
        find_view(attach_view(nodes, path, children), path) == match find_view(nodes, path) {
            Some(n) => Some(NodeView { children: children, is_loaded: true, ..n }),
            None => None,
        },
    decreases nodes,
{
    if nodes.len() > 0 {
        let a = attach_view(nodes, path, children);
        if same_path(nodes[0].path, path) {
            assert(a[0].path == nodes[0].path);
        } else if find_view(nodes[0].children, path) is Some {
            law_find_after_attach(nodes[0].children, path, children);
            assert(a[0].children == attach_view(nodes[0].children, path, children));
            assert(a[0].path == nodes[0].path);
        } else {
            law_find_after_attach(nodes.drop_first(), path, children);
            assert(a[0] == nodes[0]);
            assert(a.drop_first() =~= attach_view(nodes.drop_first(), path, children));
        }
    }
}

/// Once the listing of a directory that needed loading is attached, the
/// directory no longer needs loading.
pub proof fn law_attached_directory_is_loaded(
    nodes: Seq<NodeView>,
    dir: Seq<char>,
    children: Seq<NodeView>,
)
    requires
        needs_load(nodes, dir),
    ensures
        !needs_load(attach_view(nodes, dir, children), dir),
        find_view(attach_view(nodes, dir, children), dir) matches Some(n) && n.children
            == children,
{
    law_find_after_attach(nodes, dir, children);
}

/// Every row listed for the children of a directory at level `depth` lies
/// at that level or deeper.
pub proof fn lemma_children_rows_deeper(
    cs: Seq<NodeView>,
    expanded: Set<PathKey>,
    search: Seq<char>,
    show_only_3d: bool,
    show_dirs: bool,
    depth: nat,
)
    ensures
        forall|x: int|
            0 <= x < children_rows(cs, expanded, search, show_only_3d, show_dirs, depth).len()
                ==> #[trigger] children_rows(
                cs,
                expanded,
                search,
                show_only_3d,
                show_dirs,
                depth,
            )[x].depth >= depth,
    decreases cs, 0nat,
{
    if cs.len() > 0 {
        lemma_children_rows_deeper(cs.drop_last(), expanded, search, show_only_3d, show_dirs, depth);
        let a = children_rows(cs.drop_last(), expanded, search, show_only_3d, show_dirs, depth);
        let r = children_rows(cs, expanded, search, show_only_3d, show_dirs, depth);
        if view_shown(cs.last(), search, show_only_3d, show_dirs) {
            assert(cs.last() == cs[cs.len() - 1]);
            law_subtree_rows_shape(cs.last(), expanded, search, show_only_3d, show_dirs, depth);
            let b = subtree_rows(cs.last(), expanded, search, show_only_3d, show_dirs, depth);
            assert(r == a + b);
            assert forall|x: int| 0 <= x < r.len() implies #[trigger] r[x].depth >= depth by {
                if x >= a.len() {
                    assert(r[x] == b[x - a.len()]);
                    if x - a.len() >= 1 {
                        assert(b[x - a.len()].depth >= next_depth(depth));
                    }
                } else {
                    assert(r[x] == a[x]);
                }
            }
        } else {
            assert(r =~= a);
        }
    }
}

/// The rows of a node's subtree begin with the node's own row at its level;
/// every further row lies deeper (one level or more below). A file, or a
/// directory that is not expanded, lists nothing under its row, whatever its
/// level and whether its children have been loaded: only an expanded
/// directory lists its children.
pub proof fn law_subtree_rows_shape(
    n: NodeView,
    expanded: Set<PathKey>,
    search: Seq<char>,
    show_only_3d: bool,
    show_dirs: bool,
    depth: nat,
)
    ensures
        ({
            let r = subtree_rows(n, expanded, search, show_only_3d, show_dirs, depth);
            &&& r.len() >= 1
            &&& r[0] == (RowView {
                name: n.name,
                path: n.path,
                is_directory: n.is_directory,
                depth: depth,
            })
            &&& !(n.is_directory && expanded.contains(path_key(n.path))) ==> r.len() == 1
            &&& forall|x: int| 1 <= x < r.len() ==> #[trigger] r[x].depth >= next_depth(depth)
            &&& depth < usize::MAX ==> forall|x: int| 1 <= x < r.len() ==> #[trigger] r[x].depth
                > depth
        }),
    decreases n, 1nat,
{
    let r = subtree_rows(n, expanded, search, show_only_3d, show_dirs, depth);
    let own = seq![RowView { name: n.name, path: n.path, is_directory: n.is_directory, depth: depth }];
    if n.is_directory && expanded.contains(path_key(n.path)) {
        let c = children_rows(
            n.children,
            expanded,
            search,
            show_only_3d,
            show_dirs,
            next_depth(depth),
        );
        lemma_children_rows_deeper(
            n.children,
            expanded,
            search,
            show_only_3d,
            show_dirs,
            next_depth(depth),
        );
        assert(r == own + c);
        assert forall|x: int| 1 <= x < r.len() implies #[trigger] r[x].depth >= next_depth(depth) by {
            assert(r[x] == c[x - 1]);
        }
    } else {
        assert(r =~= own);
    }
}

} // verus!
