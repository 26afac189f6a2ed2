use meshviewer::file_browser::{
    apply_directory_listing, attach_children, dirs_to_load, find_node, open_directory,
    row_clicked, rows_for_search, should_show_node, show_parent_directory, sort_arrow, toggle_sort,
    visible_rows, BrowserRow, FileBrowserState, SortField, TreeNode,
};
use meshviewer::events::UiAction;
use meshviewer::listing_order::{sort_by_keys, sort_listing};
use meshviewer::ui_state::UiState;

fn file(name: &str, dir: &str) -> TreeNode {
    TreeNode {
        name: name.to_string(),
        path: format!("{}/{}", dir, name),
        is_directory: false,
        size: 10,
        modified: 5,
        depth: 0,
        children: Vec::new(),
        is_loaded: false,
    }
}

fn folder(name: &str, dir: &str) -> TreeNode {
    TreeNode { is_directory: true, ..file(name, dir) }
}

fn rows(r: &[BrowserRow]) -> Vec<(String, usize)> {
    r.iter().map(|row| (row.name.clone(), row.depth)).collect()
}

fn opened(root: &str) -> (FileBrowserState, UiState) {
    let mut b = FileBrowserState::default();
    let mut ui = UiState::default();
    open_directory(&mut b, &mut ui, root.to_string());
    (b, ui)
}

#[test]
fn browser_defaults() {
    let b = FileBrowserState::default();
    assert!(b.root_path.is_none());
    assert!(b.tree_nodes.is_empty());
    assert!(b.search_query.is_empty());
    assert!(b.show_only_3d_files);
    assert!(b.show_directories);
    assert_eq!(b.sort_field, SortField::Name);
    assert!(b.sort_ascending);
    assert!(b.selected_path.is_none());
    assert!(b.expanded_dirs.is_empty());
    let n = TreeNode::default();
    assert!(n.name.is_empty() && n.path.is_empty() && !n.is_directory && !n.is_loaded);
    assert_eq!((n.size, n.modified, n.depth), (0, 0, 0));
}

#[test]
fn sort_arrows_and_toggling() {
    assert_eq!(sort_arrow(false, true), " ");
    assert_eq!(sort_arrow(false, false), " ");
    assert_eq!(sort_arrow(true, true), "\u{2191}");
    assert_eq!(sort_arrow(true, false), "\u{2193}");
    let mut b = FileBrowserState::default();
    toggle_sort(&mut b, SortField::Name);
    assert_eq!((b.sort_field, b.sort_ascending), (SortField::Name, false));
    toggle_sort(&mut b, SortField::Name);
    assert_eq!((b.sort_field, b.sort_ascending), (SortField::Name, true));
    toggle_sort(&mut b, SortField::Name);
    toggle_sort(&mut b, SortField::Modified);
    assert_eq!((b.sort_field, b.sort_ascending), (SortField::Modified, true));
}

#[test]
fn node_filters() {
    let dir = folder("sub", "/m");
    assert!(should_show_node(&dir, "", true, true));
    assert!(!should_show_node(&dir, "", true, false));
    assert!(should_show_node(&dir, "zzz", true, true));
    let model = file("Robot.GLB", "/m");
    let text = file("notes.txt", "/m");
    assert!(should_show_node(&model, "", true, true));
    assert!(!should_show_node(&text, "", true, true));
    assert!(should_show_node(&text, "", false, true));
    assert!(should_show_node(&model, "robot", true, true));
    assert!(!should_show_node(&model, "tank", true, true));
    assert!(!should_show_node(&text, "robot", false, true));
}

#[test]
fn opening_a_directory() {
    let mut b = FileBrowserState::default();
    b.search_query = String::from("abc");
    b.expanded_dirs.push(String::from("/old"));
    let mut ui = UiState::default();
    open_directory(&mut b, &mut ui, String::from("/home/me/models"));
    assert_eq!(b.root_path.as_deref(), Some("/home/me/models"));
    assert_eq!(b.tree_nodes.len(), 1);
    assert_eq!(b.tree_nodes[0].name, "models");
    assert_eq!(b.tree_nodes[0].path, "/home/me/models");
    assert!(b.tree_nodes[0].is_directory && !b.tree_nodes[0].is_loaded);
    assert_eq!(b.expanded_dirs, vec!["/home/me/models"]);
    assert_eq!(b.search_query, "abc");
    assert!(ui.show_sidebar);
    assert_eq!(UiState { show_sidebar: false, ..ui }, UiState::default());
    // The root has no file name: its whole path is shown.
    let (root, _) = opened("/");
    assert_eq!(root.tree_nodes[0].name, "/");
}

#[test]
fn expanding_and_collapsing() {
    let (mut b, _) = opened("/m");
    assert!(b.is_expanded("/m"));
    assert!(b.is_expanded("/m/"));
    assert!(!b.is_expanded("/m/sub"));
    b.expand_dir(String::from("/m/sub"));
    b.expand_dir(String::from("/m//sub/"));
    assert_eq!(b.expanded_dirs.len(), 2);
    assert!(b.is_expanded("/m/sub"));
    b.collapse_dir("/m/sub/");
    assert!(!b.is_expanded("/m/sub"));
    assert!(b.is_expanded("/m"));
    b.collapse_dir("/nowhere");
    assert_eq!(b.expanded_dirs, vec!["/m"]);
}

#[test]
fn listing_is_sorted_directories_first_then_by_name() {
    let entries = vec![
        file("b.glb", "/m"),
        folder("Zeta", "/m"),
        file("A.obj", "/m"),
        folder("alpha", "/m"),
        file("a.OBJ", "/m"),
        file("c.stl", "/m"),
    ];
    let sorted = sort_listing(entries);
    let names: Vec<&str> = sorted.iter().map(|n| n.name.as_str()).collect();
    // Stable: "A.obj" and "a.OBJ" have the same key and keep their order.
    assert_eq!(names, vec!["alpha", "Zeta", "A.obj", "a.OBJ", "b.glb", "c.stl"]);
    assert!(sort_listing(Vec::new()).is_empty());
}

#[test]
fn listing_order_matches_std_sort() {
    let names = ["d", "B", "a", "C", "b", "aa", "Ab", "é", "E", "z9", "z10", "_x", "X_"];
    let mut entries = Vec::new();
    for (i, n) in names.iter().enumerate() {
        if i % 3 == 0 {
            entries.push(folder(n, "/r"));
        } else {
            entries.push(file(n, "/r"));
        }
    }
    let mut expected: Vec<(bool, String)> =
        entries.iter().map(|n| (n.is_directory, n.name.clone())).collect();
    expected.sort_by(|a, b| {
        b.0.cmp(&a.0).then_with(|| a.1.to_lowercase().cmp(&b.1.to_lowercase()))
    });
    let got: Vec<(bool, String)> =
        sort_listing(entries).iter().map(|n| (n.is_directory, n.name.clone())).collect();
    assert_eq!(got, expected);
}

#[test]
fn lazy_loading_fills_expanded_directories() {
    let (mut b, _) = opened("/m");
    assert_eq!(dirs_to_load(&b), vec!["/m"]);
    apply_directory_listing(
        &mut b,
        "/m",
        vec![file("z.glb", "/m"), folder("sub", "/m"), file("a.txt", "/m")],
    );
    assert!(b.tree_nodes[0].is_loaded);
    let names: Vec<&str> = b.tree_nodes[0].children.iter().map(|n| n.name.as_str()).collect();
    assert_eq!(names, vec!["sub", "a.txt", "z.glb"]);
    assert!(dirs_to_load(&b).is_empty());
    b.expand_dir(String::from("/m/sub"));
    b.expand_dir(String::from("/elsewhere"));
    assert_eq!(dirs_to_load(&b), vec!["/m/sub"]);
    apply_directory_listing(&mut b, "/m/sub", vec![file("deep.fbx", "/m/sub")]);
    assert!(dirs_to_load(&b).is_empty());
    let sub = find_node(&b.tree_nodes, "/m/sub").unwrap();
    assert!(sub.is_loaded);
    assert_eq!(sub.children.len(), 1);
    // A listing for a directory that is not in the tree changes nothing.
    apply_directory_listing(&mut b, "/elsewhere", vec![file("x.glb", "/elsewhere")]);
    assert!(find_node(&b.tree_nodes, "/elsewhere").is_none());
}

#[test]
fn find_and_attach() {
    let mut nodes = vec![folder("a", ""), folder("b", "")];
    nodes[0].children = vec![folder("c", "/a")];
    assert_eq!(find_node(&nodes, "/a/c").map(|n| n.name.as_str()), Some("c"));
    assert_eq!(find_node(&nodes, "/b").map(|n| n.name.as_str()), Some("b"));
    assert!(find_node(&nodes, "/d").is_none());
    let back = attach_children(&mut nodes, "/a/c", vec![file("x.obj", "/a/c")]);
    assert!(back.is_none());
    let c = find_node(&nodes, "/a/c").unwrap();
    assert!(c.is_loaded);
    assert_eq!(c.children[0].name, "x.obj");
    let missing = attach_children(&mut nodes, "/zzz", vec![file("y.obj", "/zzz")]);
    assert_eq!(missing.unwrap()[0].name, "y.obj");
}

#[test]
fn visible_rows_follow_filters_and_expansion() {
    let (mut b, _) = opened("/m");
    apply_directory_listing(
        &mut b,
        "/m",
        vec![file("Robot.glb", "/m"), folder("sub", "/m"), file("notes.txt", "/m")],
    );
    assert_eq!(
        rows(&visible_rows(&b)),
        vec![
            ("m".to_string(), 0),
            ("sub".to_string(), 1),
            ("Robot.glb".to_string(), 1)
        ]
    );
    b.expand_dir(String::from("/m/sub"));
    apply_directory_listing(&mut b, "/m/sub", vec![file("deep.fbx", "/m/sub")]);
    assert_eq!(
        rows(&visible_rows(&b)),
        vec![
            ("m".to_string(), 0),
            ("sub".to_string(), 1),
            ("deep.fbx".to_string(), 2),
            ("Robot.glb".to_string(), 1)
        ]
    );
    b.show_only_3d_files = false;
    b.search_query = String::from("NOTES");
    assert_eq!(
        rows(&visible_rows(&b)),
        vec![
            ("m".to_string(), 0),
            ("sub".to_string(), 1),
            ("notes.txt".to_string(), 1)
        ]
    );
    // With folders hidden the root row disappears and its files move up.
    b.search_query.clear();
    b.show_only_3d_files = true;
    b.show_directories = false;
    assert_eq!(rows(&visible_rows(&b)), vec![("Robot.glb".to_string(), 0)]);
    b.collapse_dir("/m");
    assert!(visible_rows(&b).is_empty());
}

#[test]
fn moving_up_to_the_parent_directory() {
    let (mut b, _) = opened("/home/me/models");
    assert!(show_parent_directory(&mut b));
    assert_eq!(b.root_path.as_deref(), Some("/home/me"));
    assert!(b.tree_nodes.is_empty());
    assert!(show_parent_directory(&mut b));
    assert!(show_parent_directory(&mut b));
    assert_eq!(b.root_path.as_deref(), Some("/"));
    assert!(!show_parent_directory(&mut b));
    assert_eq!(b.root_path.as_deref(), Some("/"));
    let mut none = FileBrowserState::default();
    assert!(!show_parent_directory(&mut none));
    assert!(none.root_path.is_none());
}

#[test]
fn sorting_by_given_keys() {
    let entries = vec![file("x", "/k"), folder("y", "/k"), file("z", "/k"), file("w", "/k")];
    let keys = vec![String::from("b"), String::from("z"), String::from("a"), String::from("b")];
    let sorted = sort_by_keys(entries, keys);
    let names: Vec<&str> = sorted.iter().map(|n| n.name.as_str()).collect();
    // The directory first, then by key; "x" and "w" share a key and keep their order.
    assert_eq!(names, vec!["y", "z", "x", "w"]);
}

#[test]
fn rows_for_a_lowercase_search() {
    let (mut b, _) = opened("/m");
    apply_directory_listing(&mut b, "/m", vec![file("Robot.glb", "/m"), file("tank.fbx", "/m")]);
    assert_eq!(
        rows(&rows_for_search(&b, "tank")),
        vec![("m".to_string(), 0), ("tank.fbx".to_string(), 1)]
    );
    // The search is not lowercased here: the names are.
    assert_eq!(rows(&rows_for_search(&b, "Robot")), vec![("m".to_string(), 0)]);
    b.search_query = String::from("Robot");
    assert_eq!(
        rows(&visible_rows(&b)),
        vec![("m".to_string(), 0), ("Robot.glb".to_string(), 1)]
    );
}

#[test]
fn clicking_rows_selects_and_opens_files() {
    let (mut state, _) = opened("/models");
    let dir_action = row_clicked(&mut state, "/models/cars".to_string(), true);
    assert!(dir_action.is_none());
    assert_eq!(state.selected_path.as_deref(), Some("/models/cars"));
    let file_action = row_clicked(&mut state, "/models/robot.glb".to_string(), false);
    assert_eq!(state.selected_path.as_deref(), Some("/models/robot.glb"));
    match file_action {
        Some(UiAction::OpenFile(p)) => assert_eq!(p, "/models/robot.glb"),
        other => panic!("unexpected action {:?}", other),
    }
    assert_eq!(state.root_path.as_deref(), Some("/models"));
}
