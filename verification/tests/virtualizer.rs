//! Tests of caller-side argument virtualization and reverse mapping.

use mediaproc::client::{create_replacements, forwarded_ext, is_absolute_path, update_replacements};
use mediaproc::strutil::decimal_string;
use mediaproc::{ExecuteCommandError, FileMap};

fn strings(args: &[&str]) -> Vec<String> {
    args.iter().map(|s| s.to_string()).collect()
}

#[test]
fn same_path_twice_reuses_one_token() {
    let args = strings(&["/tmp/a.png", "/tmp/a.png"]);
    let reads = vec![Some(b"data".to_vec()), Some(b"data".to_vec())];
    let out = create_replacements(args, reads);
    assert_eq!(out.arguments, strings(&["0.png", "0.png"]));
    // The counter was consumed only once: one replacement, one file entry.
    assert_eq!(out.replacements.len(), 1);
    assert_eq!(out.file_map.len(), 1);
    assert_eq!(out.file_map.get("0.png"), Some(&b"data".to_vec()));
}

#[test]
fn same_path_at_distant_positions() {
    let args = strings(&["/a.png", "/b.txt", "/a.png"]);
    let reads = vec![
        Some(b"p".to_vec()),
        Some(b"t".to_vec()),
        Some(b"p".to_vec()),
    ];
    let out = create_replacements(args, reads);
    assert_eq!(out.arguments, strings(&["0.png", "1", "0.png"]));
    assert_eq!(out.file_map.len(), 2);
}

#[test]
fn first_occurrence_decides_the_contents() {
    // Once a path is tokenized, later occurrences reuse the token without
    // consulting their own read outcome.
    let args = strings(&["/tmp/a.png", "/tmp/a.png"]);
    let reads = vec![Some(b"first".to_vec()), None];
    let out = create_replacements(args, reads);
    assert_eq!(out.arguments, strings(&["0.png", "0.png"]));
    assert_eq!(out.file_map.get("0.png"), Some(&b"first".to_vec()));
}

#[test]
fn png_path_keeps_extension() {
    let args = strings(&["/images/photo.png"]);
    let reads = vec![Some(b"PNG".to_vec())];
    let out = create_replacements(args, reads);
    assert_eq!(out.arguments, strings(&["0.png"]));
    assert_eq!(
        out.replacements,
        vec![("0.png".to_string(), "/images/photo.png".to_string())]
    );
}

#[test]
fn second_tokenized_path_gets_next_counter() {
    let args = strings(&["/a.png", "/b.jpg"]);
    let reads = vec![Some(b"a".to_vec()), Some(b"b".to_vec())];
    let out = create_replacements(args, reads);
    assert_eq!(out.arguments, strings(&["0.png", "1.jpg"]));
}

#[test]
fn txt_path_gets_bare_counter() {
    let args = strings(&["/notes/readme.txt"]);
    let reads = vec![Some(b"hello".to_vec())];
    let out = create_replacements(args, reads);
    assert_eq!(out.arguments, strings(&["0"]));
    assert_eq!(out.file_map.get("0"), Some(&b"hello".to_vec()));
}

#[test]
fn non_absolute_argument_passes_through() {
    let args = strings(&["-v", "/a.png"]);
    // A read outcome is supplied even for "-v"; it must be ignored.
    let reads = vec![Some(b"junk".to_vec()), Some(b"img".to_vec())];
    let out = create_replacements(args, reads);
    // "-v" is unchanged and consumed no counter value: the path is token 0.
    assert_eq!(out.arguments, strings(&["-v", "0.png"]));
    assert_eq!(out.file_map.len(), 1);
    assert!(out.file_map.get("-v").is_none());
}

#[test]
fn unreadable_absolute_path_passes_through() {
    let args = strings(&["/does/not/exist.png", "/real.png"]);
    let reads = vec![None, Some(b"img".to_vec())];
    let out = create_replacements(args, reads);
    // No error, no counter consumed for the unreadable path.
    assert_eq!(out.arguments, strings(&["/does/not/exist.png", "0.png"]));
    assert_eq!(out.replacements.len(), 1);
    assert_eq!(out.file_map.len(), 1);
}

#[test]
fn empty_argument_list() {
    let out = create_replacements(Vec::new(), Vec::new());
    assert!(out.arguments.is_empty());
    assert!(out.replacements.is_empty());
    assert_eq!(out.file_map.len(), 0);
}

#[test]
fn forwarded_ext_exact_matches_only() {
    assert_eq!(forwarded_ext("/a/b.png"), Some("png".to_string()));
    assert_eq!(forwarded_ext("/a/b.jpeg"), Some("jpeg".to_string()));
    assert_eq!(forwarded_ext("/a/movie.mp4"), Some("mp4".to_string()));
    assert_eq!(forwarded_ext("/a/profile.icc"), Some("icc".to_string()));
    // Case-sensitive: PNG is not png.
    assert_eq!(forwarded_ext("/a/b.PNG"), None);
    // Outside the allow-list.
    assert_eq!(forwarded_ext("/a/b.txt"), None);
    assert_eq!(forwarded_ext("/a/b.tar.gz"), None);
    // A leading dot marks a hidden file, not an extension.
    assert_eq!(forwarded_ext("/a/.png"), None);
    // No dot at all.
    assert_eq!(forwarded_ext("/a/noext"), None);
    // The extension belongs to the final segment only.
    assert_eq!(forwarded_ext("/a.png/x"), None);
    // A trailing dot yields an empty extension, which is not forwarded.
    assert_eq!(forwarded_ext("/a/b."), None);
}

#[test]
fn forwarded_ext_ignores_trailing_separators() {
    // Trailing separators and trailing current-directory components do not
    // hide the final component's extension.
    assert_eq!(forwarded_ext("/a.png/"), Some("png".to_string()));
    assert_eq!(forwarded_ext("/a/b.png//"), Some("png".to_string()));
    assert_eq!(forwarded_ext("/a/b.png/."), Some("png".to_string()));
    assert_eq!(forwarded_ext("/a/b.png/.//"), Some("png".to_string()));
    // A parent-directory component leaves no file name, hence no extension.
    assert_eq!(forwarded_ext("/a/b.png/.."), None);
    assert_eq!(forwarded_ext(".."), None);
    // Paths with no component at all.
    assert_eq!(forwarded_ext("/"), None);
    assert_eq!(forwarded_ext("."), None);
    assert_eq!(forwarded_ext("//."), None);
    assert_eq!(forwarded_ext(""), None);
}

#[test]
fn absolute_path_shape() {
    assert!(is_absolute_path("/"));
    assert!(is_absolute_path("/tmp/x"));
    assert!(!is_absolute_path(""));
    assert!(!is_absolute_path("-v"));
    assert!(!is_absolute_path("relative/path"));
}

#[test]
fn decimal_formatting_exact() {
    assert_eq!(decimal_string(0), "0");
    assert_eq!(decimal_string(7), "7");
    assert_eq!(decimal_string(10), "10");
    assert_eq!(decimal_string(255), "255");
    assert_eq!(decimal_string(12345), "12345");
}

#[test]
fn tenth_token_is_two_digits() {
    let mut args = Vec::new();
    let mut reads = Vec::new();
    for i in 0..11 {
        args.push(format!("/files/input{}.png", i));
        reads.push(Some(vec![i as u8]));
    }
    let out = create_replacements(args, reads);
    assert_eq!(out.arguments[9], "9.png");
    assert_eq!(out.arguments[10], "10.png");
}

#[test]
fn update_replacements_maps_tokens_back() {
    let replacements = vec![
        ("0.png".to_string(), "/tmp/in.png".to_string()),
        ("1".to_string(), "/tmp/list.txt".to_string()),
    ];
    let mut returned = FileMap::new();
    returned.insert("1".to_string(), b"new list".to_vec());
    returned.insert("0.png".to_string(), b"new image".to_vec());
    let plan = update_replacements(&replacements, &returned).unwrap();
    assert_eq!(
        plan,
        vec![
            ("/tmp/list.txt".to_string(), b"new list".to_vec()),
            ("/tmp/in.png".to_string(), b"new image".to_vec()),
        ]
    );
}

#[test]
fn update_replacements_rejects_unknown_token() {
    let replacements = vec![("0.png".to_string(), "/tmp/in.png".to_string())];
    let mut returned = FileMap::new();
    returned.insert("7".to_string(), b"spoofed".to_vec());
    let err = update_replacements(&replacements, &returned).unwrap_err();
    assert!(matches!(err, ExecuteCommandError::InvalidFileMapName));
}

#[test]
fn update_replacements_of_empty_map() {
    let replacements = vec![("0".to_string(), "/tmp/a".to_string())];
    let plan = update_replacements(&replacements, &FileMap::new()).unwrap();
    assert!(plan.is_empty());
}

#[test]
fn file_map_insert_replaces_equal_keys() {
    let mut fm = FileMap::new();
    fm.insert("a".to_string(), b"one".to_vec());
    fm.insert("a".to_string(), b"two".to_vec());
    assert_eq!(fm.len(), 1);
    assert_eq!(fm.get("a"), Some(&b"two".to_vec()));
}
