use std::path::Path;

use meshviewer::file_utils::{
    is_3d_file, is_supported_extension, is_supported_format, partition_supported_paths,
    path_extension, path_file_name, path_parent, paths_equal, push_pending_path,
    supported_3d_extensions,
};
use meshviewer::text::{chars_of, matches_search, range_eq, str_contains, str_eq, string_from_range};

const SAMPLE_PATHS: &[&str] = &[
    "",
    "/",
    "//",
    ".",
    "..",
    "./",
    "./a",
    "a",
    "a/",
    "a//",
    "a/.",
    "a/./",
    "a/..",
    "/a",
    "/a/",
    "/a/b",
    "/a/b/",
    "/a//b",
    "/a/./b",
    "/a/b/.",
    "a/b/c.glb",
    "/tmp/scene.gltf",
    "/tmp/.hidden",
    "/tmp/.hidden.obj",
    "/tmp/archive.tar.gz",
    "/tmp/trailing.",
    "/tmp/dir.d/",
    "relative/model.FBX",
    "./models/hero.fbx",
    "../up/thing.stl",
    "/home/用户/模型.glb",
    "..a",
    "a..",
    "...",
    "/.",
    "/..",
    "/a/..",
    "x/y/z/",
];

#[test]
fn file_name_matches_std_path() {
    for p in SAMPLE_PATHS {
        let expected = Path::new(p).file_name().map(|s| s.to_str().unwrap().to_string());
        assert_eq!(path_file_name(p), expected, "file name of {:?}", p);
    }
}

#[test]
fn extension_matches_std_path() {
    for p in SAMPLE_PATHS {
        let expected = Path::new(p).extension().map(|s| s.to_str().unwrap().to_string());
        assert_eq!(path_extension(p), expected, "extension of {:?}", p);
    }
}

#[test]
fn parent_matches_std_path() {
    for p in SAMPLE_PATHS {
        let expected = Path::new(p).parent().map(|q| q.to_str().unwrap().to_string());
        assert_eq!(path_parent(p), expected, "parent of {:?}", p);
    }
}

#[test]
fn path_equality_matches_std_path() {
    for a in SAMPLE_PATHS {
        for b in SAMPLE_PATHS {
            let expected = Path::new(a) == Path::new(b);
            assert_eq!(paths_equal(a, b), expected, "{:?} == {:?}", a, b);
        }
    }
}

#[test]
fn same_path_ignores_repeated_separators_and_dots() {
    assert!(paths_equal("/a/b", "/a//b/"));
    assert!(paths_equal("/a/b", "/a/./b"));
    assert!(paths_equal("./a", "./a/"));
    assert!(!paths_equal("./a", "a"));
    assert!(!paths_equal("/a", "a"));
    assert!(!paths_equal("/a/b", "/a/b/c"));
    assert!(!paths_equal("/a/..", "/"));
}

#[test]
fn supported_extensions_in_dialog_order() {
    assert_eq!(
        supported_3d_extensions(),
        vec!["glb", "gltf", "fbx", "obj", "stl", "ply", "dae", "3ds"]
    );
    for ext in supported_3d_extensions() {
        assert!(is_supported_extension(ext));
    }
    assert!(!is_supported_extension("GLB"));
    assert!(!is_supported_extension("png"));
    assert!(!is_supported_extension(""));
}

#[test]
fn is_3d_file_is_case_insensitive() {
    assert!(is_3d_file("MODEL.GLTF"));
    assert!(is_3d_file("a.b.3DS"));
    assert!(is_3d_file("x.Stl"));
    assert!(!is_3d_file("model.glb.bak"));
    assert!(!is_3d_file(""));
    assert!(!is_3d_file("file."));
}

#[test]
fn is_3d_file_takes_text_after_last_dot() {
    // A name without a dot has no extension.
    assert!(!is_3d_file("fbx"));
    assert!(!is_3d_file("obj"));
    assert!(is_3d_file(".ply"));
    assert!(!is_3d_file("ply.txt"));
}

#[test]
fn supported_format_uses_path_extension() {
    assert!(is_supported_format("/models/ROBOT.Dae"));
    assert!(is_supported_format("relative/model.ply"));
    // A leading dot starts a hidden file name, not an extension.
    assert!(!is_supported_format("/tmp/.glb"));
    assert!(!is_3d_file("readme") && !is_supported_format("/tmp/readme"));
    assert!(is_supported_format("/tmp/dir.obj/"));
    assert!(!is_supported_format("/tmp/x.glb/.."));
    assert!(!is_supported_format(""));
}

#[test]
fn format_and_3d_file_agree_on_plain_names() {
    for name in ["model.glb", "hero.FBX", "scene.gltf", "notes.txt", "a.b.obj", "x.Stl"] {
        assert_eq!(is_supported_format(name), is_3d_file(name), "{}", name);
    }
}

#[test]
fn partition_keeps_order_and_every_path() {
    let input = vec![
        String::from("a.txt"),
        String::from("b.OBJ"),
        String::from("c.stl"),
        String::from("d"),
        String::from("e.ply"),
    ];
    let (supported, unsupported) = partition_supported_paths(input.clone());
    assert_eq!(supported, vec!["b.OBJ", "c.stl", "e.ply"]);
    assert_eq!(unsupported, vec!["a.txt", "d"]);
    assert_eq!(supported.len() + unsupported.len(), input.len());
    let (s2, u2) = partition_supported_paths(Vec::new());
    assert!(s2.is_empty() && u2.is_empty());
}

#[test]
fn pending_paths_skip_empty_and_repeated() {
    let mut pending: Vec<String> = Vec::new();
    push_pending_path(&mut pending, String::from("/tmp/a.glb"));
    push_pending_path(&mut pending, String::new());
    push_pending_path(&mut pending, String::from("/tmp/b.glb"));
    push_pending_path(&mut pending, String::from("/tmp/a.glb"));
    // The same path written differently is the same path.
    push_pending_path(&mut pending, String::from("/tmp//a.glb"));
    assert_eq!(pending, vec!["/tmp/a.glb", "/tmp/b.glb"]);
}

#[test]
fn character_helpers() {
    assert_eq!(chars_of("añb"), vec!['a', 'ñ', 'b']);
    let v = chars_of("hello world");
    assert_eq!(string_from_range(&v, 6, 11), "world");
    assert_eq!(string_from_range(&v, 3, 3), "");
    assert!(range_eq(&v, 0, 5, &chars_of("hello")));
    assert!(!range_eq(&v, 0, 4, &chars_of("hello")));
    assert!(str_contains("hello world", "o w"));
    assert!(str_contains("hello", ""));
    assert!(!str_contains("hello", "hello!"));
    assert!(str_eq("模型", "模型"));
    assert!(!str_eq("a", "A"));
}

#[test]
fn search_lowercases_the_name_only() {
    assert!(matches_search("Hero.FBX", "fbx"));
    assert!(matches_search("Hero.FBX", ""));
    assert!(!matches_search("Hero.FBX", "FBX"));
    assert!(matches_search("ÄRGER.obj", "ärger"));
    assert!(!matches_search("model.glb", "gltf"));
}
