//! Tests of worker-side validation, output collection, and the end-to-end
//! protocol round trip.

use mediaproc::client::{create_replacements, update_replacements};
use mediaproc::command_server::{
    build_reply, collect_outputs, is_permitted_program, truncate_exit_status, validate_name,
    validate_request,
};
use mediaproc::{CommandReply, ExecuteCommandError, FileMap};

fn strings(args: &[&str]) -> Vec<String> {
    args.iter().map(|s| s.to_string()).collect()
}

#[test]
fn traversal_unsafe_names_rejected() {
    for name in [".", "../x", "a/b", "a\\b"] {
        let err = validate_name(name).unwrap_err();
        assert!(matches!(err, ExecuteCommandError::InvalidFileMapName));
    }
    for name in ["..", "a..b", "x/", "\\x"] {
        assert!(validate_name(name).is_err());
    }
    assert!(validate_name("0.png").is_ok());
    assert!(validate_name("plain").is_ok());
    assert!(validate_name(".hidden").is_ok());
}

#[test]
fn traversal_unsafe_names_rejected_for_any_content() {
    for name in [".", "../x", "a/b", "a\\b"] {
        for contents in [b"".to_vec(), b"some bytes".to_vec()] {
            let mut fm = FileMap::new();
            fm.insert(name.to_string(), contents);
            let err = validate_request(&"file".to_string(), &fm).unwrap_err();
            assert!(matches!(err, ExecuteCommandError::InvalidFileMapName));
        }
    }
}

#[test]
fn unpermitted_program_rejected_before_any_write() {
    let mut fm = FileMap::new();
    fm.insert("0.png".to_string(), b"data".to_vec());
    let err = validate_request(&"rm".to_string(), &fm).unwrap_err();
    match err {
        ExecuteCommandError::UnpermittedProgram(name) => assert_eq!(name, "rm"),
        other => panic!("expected UnpermittedProgram, got {:?}", other),
    }
    // The program is checked first: even a traversal-unsafe name does not
    // change the error, since nothing is materialized for "rm".
    let mut bad = FileMap::new();
    bad.insert("../x".to_string(), b"data".to_vec());
    let err = validate_request(&"rm".to_string(), &bad).unwrap_err();
    assert!(matches!(err, ExecuteCommandError::UnpermittedProgram(_)));
}

#[test]
fn allow_list_membership() {
    for p in [
        "ffprobe",
        "ffmpeg",
        "file",
        "gifsicle",
        "image-intensities",
        "jpegtran",
        "magick",
        "mediastat",
        "mediathumb",
        "optipng",
        "safe-rsvg-convert",
        "svgstat",
    ] {
        assert!(is_permitted_program(p));
    }
    assert!(!is_permitted_program("rm"));
    assert!(!is_permitted_program("bash"));
    assert!(!is_permitted_program("FILE"));
    assert!(!is_permitted_program(""));
}

#[test]
fn valid_request_accepted() {
    let mut fm = FileMap::new();
    fm.insert("0.png".to_string(), b"image".to_vec());
    fm.insert("1".to_string(), b"text".to_vec());
    assert!(validate_request(&"magick".to_string(), &fm).is_ok());
    // An empty file map is valid too.
    assert!(validate_request(&"ffprobe".to_string(), &FileMap::new()).is_ok());
}

#[test]
fn deadline_presets() {
    assert_eq!(mediaproc::client::SHORT_DEADLINE_SECS, 10);
    assert_eq!(mediaproc::client::LONG_DEADLINE_SECS, 60 * 60);
}

#[test]
fn collect_outputs_packs_reread_contents() {
    let names = strings(&["0.png", "1"]);
    let contents = vec![Some(b"image".to_vec()), Some(b"text".to_vec())];
    let fm = collect_outputs(&names, &contents).unwrap();
    assert_eq!(fm.len(), 2);
    assert_eq!(fm.get("0.png"), Some(&b"image".to_vec()));
    assert_eq!(fm.get("1"), Some(&b"text".to_vec()));
}

#[test]
fn collect_outputs_fails_on_deleted_file() {
    let names = strings(&["0.png", "1"]);
    let contents = vec![Some(b"image".to_vec()), None];
    let err = collect_outputs(&names, &contents).unwrap_err();
    assert!(matches!(err, ExecuteCommandError::RemoteFilesystemError));
}

#[test]
fn exit_status_truncated_to_eight_bits() {
    assert_eq!(truncate_exit_status(0), 0);
    assert_eq!(truncate_exit_status(1), 1);
    assert_eq!(truncate_exit_status(255), 255);
    assert_eq!(truncate_exit_status(256), 0);
    assert_eq!(truncate_exit_status(257), 1);
    assert_eq!(truncate_exit_status(-1), 255);
}

#[test]
fn reply_carries_raw_streams() {
    let reply = build_reply(3, b"out".to_vec(), b"err".to_vec());
    assert_eq!(reply.status, 3);
    assert_eq!(reply.stdout, b"out".to_vec());
    assert_eq!(reply.stderr, b"err".to_vec());
}

/// Runs the protocol for one call, with the subprocess execution replaced
/// by its recorded outcome: `file 0.png` exits 0, prints a description, and
/// leaves its input unchanged.
fn run_file_call(contents: &[u8]) -> (CommandReply, Vec<(String, Vec<u8>)>) {
    // Caller side: virtualize the request.
    let args = strings(&["/tmp/in.png"]);
    let reads = vec![Some(contents.to_vec())];
    let params = create_replacements(args, reads);
    assert_eq!(params.arguments, strings(&["0.png"]));
    assert_eq!(params.file_map.len(), 1);
    assert_eq!(params.file_map.get("0.png"), Some(&contents.to_vec()));

    // Worker side: validate, materialize, run, re-read.
    let program = "file".to_string();
    assert!(validate_request(&program, &params.file_map).is_ok());
    let names = strings(&["0.png"]);
    // `file` does not mutate its input: re-reading yields the same bytes.
    let reread = vec![Some(contents.to_vec())];
    let outbound = collect_outputs(&names, &reread).unwrap();
    assert_eq!(outbound.get("0.png"), Some(&contents.to_vec()));
    let reply = build_reply(0, b"0.png: PNG image data\n".to_vec(), Vec::new());

    // Caller side: map the returned names back to original paths.
    let plan = update_replacements(&params.replacements, &outbound).unwrap();
    (reply, plan)
}

#[test]
fn end_to_end_file_call() {
    let contents = b"\x89PNG fake image bytes";
    let (reply, plan) = run_file_call(contents);
    assert_eq!(reply.status, 0);
    assert_eq!(reply.stdout, b"0.png: PNG image data\n".to_vec());
    assert_eq!(reply.stderr, Vec::<u8>::new());
    // The caller writes the unchanged contents back to /tmp/in.png.
    assert_eq!(plan, vec![("/tmp/in.png".to_string(), contents.to_vec())]);
}

#[test]
fn repeated_call_is_byte_identical() {
    let contents = b"\x89PNG fake image bytes";
    let (reply1, plan1) = run_file_call(contents);
    let (reply2, plan2) = run_file_call(contents);
    assert_eq!(reply1, reply2);
    assert_eq!(plan1, plan2);
}
