//! Worker-side request validation and reply construction.
//!
//! The sandbox trusts nothing it receives: the program name must exactly
//! match the fixed allow-list, and every file name must be safe to
//! materialize inside the call's ephemeral directory, independent of any
//! table the caller keeps. Both checks run before anything touches the
//! filesystem. After the program has run, the same set of names is re-read
//! and packed into the outbound file map, and the exit status is truncated
//! to eight bits for the reply.

use vstd::prelude::*;
use vstd::string::*;
use crate::alist::alist_insert;
use crate::strutil::{contains_char, contains_dot_dot, find_char, find_dot_dot, str_eq};
use crate::{CommandReply, ExecuteCommandError, FileMap};

verus! {

/// Whether `s` is safe to use as a file name inside the call's directory:
/// not the current-directory name, no parent traversal, and no path
/// separator of either flavor.
pub open spec fn valid_name(s: Seq<char>) -> bool {
    &&& s != seq!['.']
    &&& !contains_dot_dot(s)
    &&& !contains_char(s, '/')
    &&& !contains_char(s, '\\')
}

/// Rejects a file-map name that could escape the call's directory.
pub fn validate_name(name: &str) -> (r: Result<(), ExecuteCommandError>)
    ensures
        match r {
            Ok(()) => valid_name(name@),
            Err(e) => !valid_name(name@) && e == ExecuteCommandError::InvalidFileMapName,
        },
{
    let n = name.unicode_len();
    let is_dot = n == 1 && name.get_char(0) == '.';
    proof {
        if is_dot {
            assert(name@ =~= seq!['.']);
        } else {
            assert(name@ != seq!['.']);
        }
    }
    if is_dot || find_dot_dot(name) || find_char(name, '/') || find_char(name, '\\') {
        Err(ExecuteCommandError::InvalidFileMapName)
    } else {
        Ok(())
    }
}

/// The fixed, process-wide allow-list of programs the sandbox will run.
pub open spec fn is_permitted(program: Seq<char>) -> bool {
    ||| program == "ffprobe"@
    ||| program == "ffmpeg"@
    ||| program == "file"@
    ||| program == "gifsicle"@
    ||| program == "image-intensities"@
    ||| program == "jpegtran"@
    ||| program == "magick"@
    ||| program == "mediastat"@
    ||| program == "mediathumb"@
    ||| program == "optipng"@
    ||| program == "safe-rsvg-convert"@
    ||| program == "svgstat"@
}

/// Whether `program` exactly matches an entry of the allow-list.
pub fn is_permitted_program(program: &str) -> (r: bool)
    ensures
        r == is_permitted(program@),
{
    str_eq(program, "ffprobe") || str_eq(program, "ffmpeg") || str_eq(program, "file") || str_eq(
        program,
        "gifsicle",
    ) || str_eq(program, "image-intensities") || str_eq(program, "jpegtran") || str_eq(
        program,
        "magick",
    ) || str_eq(program, "mediastat") || str_eq(program, "mediathumb") || str_eq(
        program,
        "optipng",
    ) || str_eq(program, "safe-rsvg-convert") || str_eq(program, "svgstat")
}

/// Whether every name in the file map is safe to materialize.
pub open spec fn all_names_valid(fm: Seq<(Seq<char>, Seq<u8>)>) -> bool {
    forall|k: int| 0 <= k < fm.len() ==> valid_name((#[trigger] fm[k]).0)
}

/// Validates a request before the sandbox performs any filesystem write:
/// first the program name against the allow-list, then every file-map name.
/// An unpermitted program is rejected whatever the file map holds.
pub fn validate_request(program: &String, file_map: &FileMap) -> (r: Result<
    (),
    ExecuteCommandError,
>)
    ensures
        match r {
            Ok(()) => is_permitted(program@) && all_names_valid(file_map@),
            Err(e) => match e {
                ExecuteCommandError::UnpermittedProgram(p) => p@ == program@ && !is_permitted(
                    program@,
                ),
                ExecuteCommandError::InvalidFileMapName => is_permitted(program@)
                    && !all_names_valid(file_map@),
                _ => false,
            },
        },
{
    if !is_permitted_program(program.as_str()) {
        return Err(ExecuteCommandError::UnpermittedProgram(program.clone()));
    }
    let entries = file_map.entries();
    let n = entries.len();
    let mut i: usize = 0;
    while i < n
        invariant
            is_permitted(program@),
            entries.deep_view() == file_map@,
            n == entries@.len(),
            file_map@.len() == n,
            i <= n,
            forall|k: int| 0 <= k < i ==> valid_name((#[trigger] file_map@[k]).0),
        decreases n - i,
    {
        if validate_name(entries[i].0.as_str()).is_err() {
            proof {
                assert(!valid_name(file_map@[i as int].0));
            }
            return Err(ExecuteCommandError::InvalidFileMapName);
        }
        i = i + 1;
    }
    Ok(())
}

/// The outbound file map after re-reading the first `n` of the
/// materialized names, assuming every one of them could be read.
pub open spec fn spec_collect_outputs(
    names: Seq<Seq<char>>,
    contents: Seq<Option<Seq<u8>>>,
    n: int,
) -> Seq<(Seq<char>, Seq<u8>)>
    decreases n,
{
    if n <= 0 {
        Seq::empty()
    } else {
        alist_insert(
            spec_collect_outputs(names, contents, n - 1),
            names[n - 1],
            contents[n - 1]->Some_0,
        )
    }
}

/// Law: a program that mutates nothing sends the file map back unchanged.
/// Re-reading the materialized names in order, each with the contents it
/// was materialized with, rebuilds exactly the inbound map.
pub proof fn lemma_unchanged_files_round_trip(
    fm: Seq<(Seq<char>, Seq<u8>)>,
    names: Seq<Seq<char>>,
    contents: Seq<Option<Seq<u8>>>,
    n: int,
)
    requires
        0 <= n <= fm.len(),
        names.len() == fm.len(),
        contents.len() == fm.len(),
        forall|k: int| 0 <= k < fm.len() ==> names[k] == (#[trigger] fm[k]).0,
        forall|k: int| 0 <= k < fm.len() ==> contents[k] == Some((#[trigger] fm[k]).1),
        forall|j1: int, j2: int|
            0 <= j1 < j2 < fm.len() ==> (#[trigger] fm[j1]).0 != (#[trigger] fm[j2]).0,
    ensures
        spec_collect_outputs(names, contents, n) == fm.subrange(0, n),
    decreases n,
{
    if n == 0 {
        assert(spec_collect_outputs(names, contents, 0) =~= fm.subrange(0, 0));
    } else {
        lemma_unchanged_files_round_trip(fm, names, contents, n - 1);
        let prev = fm.subrange(0, n - 1);
        crate::alist::lemma_alist_first_index(prev, fm[n - 1].0);
        if crate::alist::alist_contains_key(prev, fm[n - 1].0) {
            let j = choose|j: int|
                0 <= j < prev.len() && (#[trigger] prev[j]).0 == fm[n - 1].0;
            assert(fm[j].0 == fm[n - 1].0);
        }
        assert(crate::alist::alist_first_index(prev, fm[n - 1].0) == -1);
        assert(prev.push((fm[n - 1].0, fm[n - 1].1)) =~= fm.subrange(0, n));
    }
}

/// Packs the re-read contents of the materialized names into the outbound
/// file map. `contents[i]` is the outcome of re-reading `names[i]` after
/// the program ran; a file that can no longer be read (for instance,
/// deleted by the program) aborts the call with a filesystem error.
pub fn collect_outputs(names: &Vec<String>, contents: &Vec<Option<Vec<u8>>>) -> (r: Result<
    FileMap,
    ExecuteCommandError,
>)
    requires
        contents@.len() == names@.len(),
    ensures
        match r {
            Ok(fm) => {
                &&& forall|k: int| 0 <= k < contents@.len() ==> (#[trigger] contents@[k]) is Some
                &&& fm@ == spec_collect_outputs(
                    names.deep_view(),
                    contents.deep_view(),
                    names@.len() as int,
                )
            },
            Err(e) => {
                &&& e == ExecuteCommandError::RemoteFilesystemError
                &&& exists|k: int| 0 <= k < contents@.len() && (#[trigger] contents@[k]) is None
            },
        },
{
    let ghost namev = names.deep_view();
    let ghost contv = contents.deep_view();
    let n = names.len();
    let mut fm = FileMap::new();
    let mut i: usize = 0;
    while i < n
        invariant
            namev == names.deep_view(),
            contv == contents.deep_view(),
            n == names@.len(),
            contents@.len() == n,
            namev.len() == n,
            contv.len() == n,
            i <= n,
            forall|k: int| 0 <= k < i ==> (#[trigger] contents@[k]) is Some,
            fm@ == spec_collect_outputs(namev, contv, i as int),
        decreases n - i,
    {
        match &contents[i] {
            None => {
                return Err(ExecuteCommandError::RemoteFilesystemError);
            },
            Some(c) => {
                let name = names[i].clone();
                let data = c.clone();
                proof {
                    assert(namev[i as int] == names@[i as int]@);
                    assert(contv[i as int] == contents@[i as int].deep_view());
                    assert(data@ =~= contv[i as int]->Some_0);
                }
                fm.insert(name, data);
            },
        }
        i = i + 1;
    }
    Ok(fm)
}

/// Truncates a raw process exit status to eight bits, as native exit-code
/// truncation does.
pub fn truncate_exit_status(raw_status: i32) -> (r: u8)
    ensures
        r as i32 == raw_status & 0xff,
        0 <= raw_status < 256 ==> r as i32 == raw_status,
{
    proof {
        assert(0 <= (raw_status & 0xff) < 256) by (bit_vector);
        assert(0 <= raw_status < 256 ==> (raw_status & 0xff) == raw_status) by (bit_vector);
    }
    (raw_status & 0xff) as u8
}

/// Builds the reply from a finished execution: the exit status truncated
/// to eight bits, and the raw output byte streams.
pub fn build_reply(raw_status: i32, stdout: Vec<u8>, stderr: Vec<u8>) -> (r: CommandReply)
    ensures
        r.status as i32 == raw_status & 0xff,
        0 <= raw_status < 256 ==> r.status as i32 == raw_status,
        r.stdout == stdout,
        r.stderr == stderr,
{
    CommandReply { status: truncate_exit_status(raw_status), stdout, stderr }
}

} // verus!
