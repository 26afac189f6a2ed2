use std::path::PathBuf;

use meshviewer::file_utils::{is_3d_file, is_supported_format, partition_supported_paths};
use meshviewer::format_helpers::{format_file_size, format_number, truncate_path};

#[test]
fn test_is_3d_file() {
    assert!(is_3d_file("model.glb"));
    assert!(is_3d_file("hero.FBX"));
    assert!(!is_3d_file("readme.md"));
    assert!(!is_3d_file("no_extension"));
}

#[test]
fn test_is_supported_format() {
    assert!(is_supported_format(PathBuf::from("/tmp/scene.gltf").to_str().unwrap()));
    assert!(!is_supported_format(PathBuf::from("/tmp/image.png").to_str().unwrap()));
}

#[test]
fn test_format_number() {
    assert_eq!(format_number(0), "0");
    assert_eq!(format_number(999), "999");
    assert_eq!(format_number(1000), "1,000");
    assert_eq!(format_number(1234567), "1,234,567");
}

#[test]
fn test_format_file_size() {
    assert_eq!(format_file_size(500), "500 B");
    assert_eq!(format_file_size(1024), "1.0 KB");
    assert_eq!(format_file_size(1_500_000), "1.4 MB");
    assert_eq!(format_file_size(2_500_000_000), "2.3 GB");
}

#[test]
fn test_truncate_path() {
    assert_eq!(truncate_path("short", 20), "short");
    let long = "/very/long/path/to/some/file.glb";
    let truncated = truncate_path(long, 20);
    assert!(truncated.len() <= 20);
    assert!(truncated.contains("..."));
}

#[test]
fn partitions_supported_and_unsupported_extensions() {
    let input = vec![
        String::from("/tmp/a.fbx"),
        String::from("/tmp/b.gltf"),
        String::from("/tmp/c.txt"),
    ];

    let (supported, unsupported) = partition_supported_paths(input);

    assert_eq!(supported, vec![String::from("/tmp/a.fbx"), String::from("/tmp/b.gltf")]);
    assert_eq!(unsupported, vec![String::from("/tmp/c.txt")]);
}
