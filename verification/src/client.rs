//! Caller-side request virtualization.
//!
//! Before a command request leaves the caller, every argument that names a
//! readable local file under an absolute path is replaced by an opaque
//! token, and the file's contents are collected into the outbound file map.
//! The token-to-path table stays on the caller and is used afterwards to
//! map returned file contents back onto the original paths.

use vstd::prelude::*;
use vstd::string::*;
use crate::alist::{alist_get, alist_find};
use crate::strutil::{decimal_digits, decimal_string, last_index_of, last_char_index, str_eq};
use crate::{ExecuteCommandError, FileMap};

verus! {

/// Number of seconds of the short call deadline, for lightweight calls.
pub const SHORT_DEADLINE_SECS: u64 = 10;

/// Number of seconds of the long call deadline, for slow transcodes.
pub const LONG_DEADLINE_SECS: u64 = 3600;

/// Whether `s` is an absolute filesystem path.
pub open spec fn is_absolute(s: Seq<char>) -> bool {
    s.len() > 0 && s[0] == '/'
}

/// Whether the argument looks like an absolute filesystem path. Only such
/// arguments are candidates for tokenization.
pub fn is_absolute_path(arg: &str) -> (r: bool)
    ensures
        r == is_absolute(arg@),
{
    let n = arg.unicode_len();
    n > 0 && arg.get_char(0) == '/'
}

/// Whether the path's last character is ignored when looking for its final
/// component: a trailing separator, or the dot of a trailing
/// current-directory component.
pub open spec fn strippable(s: Seq<char>) -> bool {
    s.len() > 0 && (s.last() == '/' || (s.last() == '.' && (s.len() == 1 || s[s.len() - 2]
        == '/')))
}

/// The path with trailing separators and trailing current-directory
/// components removed.
pub open spec fn strip_trailing(path: Seq<char>) -> Seq<char>
    decreases path.len(),
{
    if strippable(path) {
        strip_trailing(path.drop_last())
    } else {
        path
    }
}

/// The final component of the path, read as a file name: trailing
/// separators and trailing current-directory components are ignored, and a
/// path that ends in a parent-directory component, or that has no component
/// at all, has no file name.
pub open spec fn spec_file_name(path: Seq<char>) -> Option<Seq<char>> {
    let s = strip_trailing(path);
    let name = s.subrange(last_index_of(s, '/') + 1, s.len() as int);
    if name.len() == 0 || name == seq!['.', '.'] {
        None
    } else {
        Some(name)
    }
}

/// The extension of the path's file name: the part after the file name's
/// last dot. A file name without a dot has no extension, and a dot at the
/// very front marks a hidden file, not an extension.
pub open spec fn spec_extension(path: Seq<char>) -> Option<Seq<char>> {
    match spec_file_name(path) {
        None => None,
        Some(name) => {
            let j = last_index_of(name, '.');
            if j <= 0 {
                None
            } else {
                Some(name.subrange(j + 1, name.len() as int))
            }
        },
    }
}

/// The extensions that may be forwarded to the worker. Forwarding them
/// preserves format sniffing by extension-sensitive tools; everything else
/// is hidden behind a bare counter token.
pub open spec fn is_forwarded_extension(e: Seq<char>) -> bool {
    ||| e == "gif"@
    ||| e == "jpg"@
    ||| e == "jpeg"@
    ||| e == "png"@
    ||| e == "svg"@
    ||| e == "webm"@
    ||| e == "webp"@
    ||| e == "mp4"@
    ||| e == "icc"@
}

/// The extension a token carries for `path`, if any: the path's extension
/// when it is on the forwarding allow-list.
pub open spec fn spec_forwarded_ext(path: Seq<char>) -> Option<Seq<char>> {
    match spec_extension(path) {
        Some(e) => if is_forwarded_extension(e) {
            Some(e)
        } else {
            None
        },
        None => None,
    }
}

/// Whether `e` exactly matches a forwarded extension.
fn is_forwarded_ext_str(e: &str) -> (r: bool)
    ensures
        r == is_forwarded_extension(e@),
{
    str_eq(e, "gif") || str_eq(e, "jpg") || str_eq(e, "jpeg") || str_eq(e, "png") || str_eq(
        e,
        "svg",
    ) || str_eq(e, "webm") || str_eq(e, "webp") || str_eq(e, "mp4") || str_eq(e, "icc")
}

/// Whether the character just before position `end` is ignored when
/// looking for the path's final component.
fn is_strippable_at(path: &str, end: usize) -> (r: bool)
    requires
        1 <= end <= path@.len(),
    ensures
        r == strippable(path@.subrange(0, end as int)),
{
    proof {
        assert(path@.subrange(0, end as int).last() == path@[end - 1]);
        if end >= 2 {
            assert(path@.subrange(0, end as int)[end - 2] == path@[end - 2]);
        }
    }
    let c = path.get_char(end - 1);
    if c == '/' {
        true
    } else if c == '.' {
        end == 1 || path.get_char(end - 2) == '/'
    } else {
        false
    }
}

/// The extension of `path` when it is on the forwarding allow-list.
pub fn forwarded_ext(path: &str) -> (r: Option<String>)
    ensures
        match r {
            Some(e) => spec_forwarded_ext(path@) == Some(e@),
            None => spec_forwarded_ext(path@) is None,
        },
{
    let n = path.unicode_len();
    let mut end: usize = n;
    proof {
        assert(path@.subrange(0, n as int) =~= path@);
    }
    while end > 0 && is_strippable_at(path, end)
        invariant
            n == path@.len(),
            end <= n,
            strip_trailing(path@) == strip_trailing(path@.subrange(0, end as int)),
        decreases end,
    {
        proof {
            assert(path@.subrange(0, end as int).drop_last() =~= path@.subrange(0, end - 1));
        }
        end = end - 1;
    }
    proof {
        if end == 0 {
            assert(!strippable(path@.subrange(0, 0)));
        }
        assert(strip_trailing(path@) == path@.subrange(0, end as int));
    }
    if end == 0 {
        proof {
            assert(strip_trailing(path@).subrange(
                last_index_of(strip_trailing(path@), '/') + 1,
                strip_trailing(path@).len() as int,
            ) =~= Seq::<char>::empty());
        }
        return None;
    }
    let stripped = path.substring_char(0, end);
    let m = stripped.unicode_len();
    let ghost s = stripped@;
    let start: usize = match last_char_index(stripped, '/') {
        Some(i) => {
            proof {
                crate::strutil::lemma_last_index_of(s, '/');
                assert(!strippable(s));
                assert(s[s.len() - 1] != '/');
                assert(i < s.len() - 1);
            }
            i + 1
        },
        None => 0,
    };
    let name = stripped.substring_char(start, m);
    let nl = name.unicode_len();
    proof {
        assert(name@.len() > 0);
        assert(seq!['.', '.'].len() == 2);
        assert(seq!['.', '.'][0] == '.');
        assert(seq!['.', '.'][1] == '.');
    }
    if nl == 2 && name.get_char(0) == '.' && name.get_char(1) == '.' {
        proof {
            assert(name@ =~= seq!['.', '.']);
        }
        return None;
    }
    proof {
        assert(name@ != seq!['.', '.']);
        assert(spec_file_name(path@) == Some(name@));
    }
    let j: usize = match last_char_index(name, '.') {
        Some(j) => j,
        None => {
            return None;
        },
    };
    if j == 0 {
        return None;
    }
    let ext = name.substring_char(j + 1, nl);
    if is_forwarded_ext_str(ext) {
        Some(ext.to_owned())
    } else {
        None
    }
}

/// The token that replaces the path holding counter value `n`: the counter
/// in decimal, with the path's forwarded extension appended when there is
/// one.
pub open spec fn spec_token(n: nat, path: Seq<char>) -> Seq<char> {
    match spec_forwarded_ext(path) {
        Some(e) => decimal_digits(n) + seq!['.'] + e,
        None => decimal_digits(n),
    }
}

/// Builds the token for `path` from the next counter value.
fn make_token(counter: usize, path: &str) -> (t: String)
    ensures
        t@ == spec_token(counter as nat, path@),
{
    let mut t = decimal_string(counter);
    match forwarded_ext(path) {
        Some(e) => {
            proof {
                reveal_strlit(".");
                assert("."@ =~= seq!['.']);
            }
            t.append(".");
            t.append(e.as_str());
        },
        None => {},
    }
    t
}

/// The caller-side state of one call's virtualization, after some prefix of
/// the arguments has been processed.
pub ghost struct VirtState {
    /// Original path to token, one entry per path tokenized so far.
    pub processed: Seq<(Seq<char>, Seq<char>)>,
    /// The next counter value; equals the number of paths tokenized so far.
    pub counter: nat,
    /// The rewritten arguments.
    pub arguments: Seq<Seq<char>>,
    /// Token to original path.
    pub replacements: Seq<(Seq<char>, Seq<char>)>,
    /// Token to file contents.
    pub file_map: Seq<(Seq<char>, Seq<u8>)>,
}

/// The state before any argument is processed.
pub open spec fn virt_init() -> VirtState {
    VirtState {
        processed: Seq::empty(),
        counter: 0,
        arguments: Seq::empty(),
        replacements: Seq::empty(),
        file_map: Seq::empty(),
    }
}

/// Whether a step tokenizes its argument: an absolute path, not tokenized
/// earlier in the same call, whose contents could be read.
pub open spec fn tokenizes(st: VirtState, arg: Seq<char>, read: Option<Seq<u8>>) -> bool {
    &&& alist_get(st.processed, arg) is None
    &&& is_absolute(arg)
    &&& read is Some
}

/// The rewritten form of one argument: the token already issued for the
/// same path, a fresh token from the next counter value, or the argument
/// itself when it is not a readable absolute path.
pub open spec fn virt_output(st: VirtState, arg: Seq<char>, read: Option<Seq<u8>>) -> Seq<char> {
    match alist_get(st.processed, arg) {
        Some(token) => token,
        None => if is_absolute(arg) && read is Some {
            spec_token(st.counter, arg)
        } else {
            arg
        },
    }
}

/// Processes one argument. `read` is the outcome of reading the argument as
/// a file path: the contents when it could be read in full, or nothing. It
/// is consulted only for an absolute path not tokenized earlier in the same
/// call.
pub open spec fn virt_step(st: VirtState, arg: Seq<char>, read: Option<Seq<u8>>) -> VirtState {
    let out = virt_output(st, arg, read);
    if tokenizes(st, arg, read) {
        VirtState {
            processed: st.processed.push((arg, out)),
            counter: st.counter + 1,
            arguments: st.arguments.push(out),
            replacements: st.replacements.push((out, arg)),
            file_map: st.file_map.push((out, read->Some_0)),
        }
    } else {
        VirtState { arguments: st.arguments.push(out), ..st }
    }
}

/// The state after the first `n` arguments.
pub open spec fn virt_prefix(args: Seq<Seq<char>>, reads: Seq<Option<Seq<u8>>>, n: int) -> VirtState
    decreases n,
{
    if n <= 0 {
        virt_init()
    } else {
        virt_step(virt_prefix(args, reads, n - 1), args[n - 1], reads[n - 1])
    }
}

/// The complete virtualization of an argument list, given the outcome of
/// reading each argument as a file path.
pub open spec fn virt_run(args: Seq<Seq<char>>, reads: Seq<Option<Seq<u8>>>) -> VirtState {
    virt_prefix(args, reads, args.len() as int)
}

/// Parameters of one remote call, produced by argument virtualization.
#[derive(Debug)]
pub struct CallParameters {
    /// Mapping from replaced name to original name. Never transmitted.
    pub replacements: Vec<(String, String)>,
    /// List of post-processed arguments.
    pub arguments: Vec<String>,
    /// Mapping of replaced name to file contents.
    pub file_map: FileMap,
}

/// Rewrites an argument list for transmission, replacing each readable
/// absolute file path with a token and collecting file contents into the
/// outbound file map. `reads[i]` is the outcome of reading `arguments[i]`
/// as a file: its full contents, or nothing when it is not a path to a
/// readable file. The outcome is consulted only for an absolute path that
/// was not already tokenized at an earlier position.
pub fn create_replacements(arguments: Vec<String>, reads: Vec<Option<Vec<u8>>>) -> (out:
    CallParameters)
    requires
        reads@.len() == arguments@.len(),
    ensures
        ({
            let st = virt_run(arguments.deep_view(), reads.deep_view());
            &&& out.replacements.deep_view() == st.replacements
            &&& out.arguments.deep_view() == st.arguments
            &&& out.file_map@ == st.file_map
        }),
{
    let ghost argv = arguments.deep_view();
    let ghost readv = reads.deep_view();
    let n = arguments.len();
    let mut processed: Vec<(String, String)> = Vec::new();
    let mut counter: usize = 0;
    let mut out_replacements: Vec<(String, String)> = Vec::new();
    let mut out_arguments: Vec<String> = Vec::new();
    let mut out_file_map = FileMap::new();
    proof {
        assert(processed.deep_view() =~= virt_init().processed);
        assert(out_replacements.deep_view() =~= virt_init().replacements);
        assert(out_arguments.deep_view() =~= virt_init().arguments);
    }
    let mut i: usize = 0;
    while i < n
        invariant
            argv == arguments.deep_view(),
            readv == reads.deep_view(),
            n == arguments@.len(),
            argv.len() == n,
            readv.len() == n,
            i <= n,
            counter <= i,
            ({
                let st = virt_prefix(argv, readv, i as int);
                &&& processed.deep_view() == st.processed
                &&& counter as nat == st.counter
                &&& out_replacements.deep_view() == st.replacements
                &&& out_arguments.deep_view() == st.arguments
                &&& out_file_map@ == st.file_map
            }),
        decreases n - i,
    {
        let ghost st = virt_prefix(argv, readv, i as int);
        proof {
            assert(virt_prefix(argv, readv, i + 1) == virt_step(st, argv[i as int], readv[i as int]));
            assert(argv[i as int] == arguments@[i as int]@);
            assert(readv[i as int] == reads@[i as int].deep_view());
        }
        let arg: &String = &arguments[i];
        match alist_find(&processed, arg.as_str()) {
            Some(token) => {
                let ghost tok = token@;
                let t = token.clone();
                out_arguments.push(t);
                proof {
                    assert(alist_get(st.processed, argv[i as int]) == Some(tok));
                    assert(out_arguments.deep_view() =~= st.arguments.push(tok));
                }
            },
            None => {
                if !is_absolute_path(arg.as_str()) {
                    out_arguments.push(arg.clone());
                    proof {
                        assert(out_arguments.deep_view() =~= st.arguments.push(argv[i as int]));
                    }
                } else {
                    match &reads[i] {
                        None => {
                            out_arguments.push(arg.clone());
                            proof {
                                assert(out_arguments.deep_view() =~= st.arguments.push(
                                    argv[i as int],
                                ));
                            }
                        },
                        Some(contents) => {
                            let token = make_token(counter, arg.as_str());
                            counter = counter + 1;
                            processed.push((arg.clone(), token.clone()));
                            out_replacements.push((token.clone(), arg.clone()));
                            out_arguments.push(token.clone());
                            let c = contents.clone();
                            proof {
                                assert(c@ =~= reads@[i as int]->Some_0.deep_view());
                            }
                            out_file_map.push_entry(token, c);
                            proof {
                                let st1 = virt_step(st, argv[i as int], readv[i as int]);
                                assert(processed.deep_view() =~= st1.processed);
                                assert(out_replacements.deep_view() =~= st1.replacements);
                                assert(out_arguments.deep_view() =~= st1.arguments);
                                assert(out_file_map@ =~= st1.file_map);
                            }
                        },
                    }
                }
            },
        }
        i = i + 1;
    }
    CallParameters { replacements: out_replacements, arguments: out_arguments, file_map: out_file_map }
}

/// Lengths of the virtualization state: one rewritten argument per argument
/// processed; the counter equals the number of tokenized paths, which the
/// processed table, the replacement table and the outbound file map list
/// one entry each.
pub proof fn lemma_virt_lengths(args: Seq<Seq<char>>, reads: Seq<Option<Seq<u8>>>, n: int)
    requires
        0 <= n <= args.len(),
    ensures
        virt_prefix(args, reads, n).arguments.len() == n,
        virt_prefix(args, reads, n).counter == virt_prefix(args, reads, n).processed.len(),
        virt_prefix(args, reads, n).replacements.len() == virt_prefix(args, reads, n).processed.len(),
        virt_prefix(args, reads, n).file_map.len() == virt_prefix(args, reads, n).processed.len(),
    decreases n,
{
    if n > 0 {
        lemma_virt_lengths(args, reads, n - 1);
    }
}

/// Only absolute paths are ever tokenized: every original path in the
/// processed table is absolute.
pub proof fn lemma_virt_processed_absolute(args: Seq<Seq<char>>, reads: Seq<Option<Seq<u8>>>, n: int)
    requires
        0 <= n <= args.len(),
    ensures
        forall|k: int|
            0 <= k < virt_prefix(args, reads, n).processed.len() ==> is_absolute(
                (#[trigger] virt_prefix(args, reads, n).processed[k]).0,
            ),
    decreases n,
{
    if n > 0 {
        lemma_virt_processed_absolute(args, reads, n - 1);
        let st = virt_prefix(args, reads, n - 1);
        let st1 = virt_prefix(args, reads, n);
        assert(forall|k: int|
            0 <= k < st.processed.len() ==> #[trigger] st1.processed[k] == st.processed[k]);
    }
}

/// Each step only appends: an earlier state's tables are prefixes of a
/// later state's.
pub proof fn lemma_virt_prefix_monotone(
    args: Seq<Seq<char>>,
    reads: Seq<Option<Seq<u8>>>,
    m: int,
    n: int,
)
    requires
        0 <= m <= n <= args.len(),
    ensures
        virt_prefix(args, reads, m).processed.is_prefix_of(virt_prefix(args, reads, n).processed),
        virt_prefix(args, reads, m).arguments.is_prefix_of(virt_prefix(args, reads, n).arguments),
    decreases n - m,
{
    let stm = virt_prefix(args, reads, m);
    if m == n {
        assert(stm.processed =~= stm.processed.subrange(0, stm.processed.len() as int));
        assert(stm.arguments =~= stm.arguments.subrange(0, stm.arguments.len() as int));
    } else {
        lemma_virt_prefix_monotone(args, reads, m, n - 1);
        let st = virt_prefix(args, reads, n - 1);
        let st1 = virt_prefix(args, reads, n);
        assert(stm.processed =~= st1.processed.subrange(0, stm.processed.len() as int));
        assert(stm.arguments =~= st1.arguments.subrange(0, stm.arguments.len() as int));
    }
}

/// The rewritten argument at each position `m` is the output of the step
/// that processed it.
pub proof fn lemma_virt_arguments(args: Seq<Seq<char>>, reads: Seq<Option<Seq<u8>>>, n: int, m: int)
    requires
        0 <= m < n <= args.len(),
    ensures
        virt_prefix(args, reads, n).arguments[m] == virt_output(
            virt_prefix(args, reads, m),
            args[m],
            reads[m],
        ),
    decreases n,
{
    lemma_virt_lengths(args, reads, n - 1);
    if m < n - 1 {
        lemma_virt_arguments(args, reads, n - 1, m);
    }
}

/// The processed table holds each original path at most once.
pub proof fn lemma_virt_processed_keys_distinct(
    args: Seq<Seq<char>>,
    reads: Seq<Option<Seq<u8>>>,
    n: int,
)
    requires
        0 <= n <= args.len(),
    ensures
        forall|j1: int, j2: int|
            0 <= j1 < j2 < virt_prefix(args, reads, n).processed.len() ==> (#[trigger] virt_prefix(
                args,
                reads,
                n,
            ).processed[j1]).0 != (#[trigger] virt_prefix(args, reads, n).processed[j2]).0,
    decreases n,
{
    if n > 0 {
        lemma_virt_processed_keys_distinct(args, reads, n - 1);
        let st = virt_prefix(args, reads, n - 1);
        let st1 = virt_prefix(args, reads, n);
        assert(forall|k: int|
            0 <= k < st.processed.len() ==> #[trigger] st1.processed[k] == st.processed[k]);
        if tokenizes(st, args[n - 1], reads[n - 1]) {
            crate::alist::lemma_alist_get_contains(st.processed, args[n - 1]);
            assert(!crate::alist::alist_contains_key(st.processed, args[n - 1]));
        }
    }
}

/// A token starts with the digits of its counter value, followed either by
/// nothing or by a dot.
pub proof fn lemma_token_prefix(n: nat, path: Seq<char>)
    ensures
        spec_token(n, path).len() >= decimal_digits(n).len(),
        forall|k: int|
            0 <= k < decimal_digits(n).len() ==> #[trigger] spec_token(n, path)[k]
                == decimal_digits(n)[k],
        spec_token(n, path).len() > decimal_digits(n).len() ==> spec_token(n, path)[decimal_digits(
            n,
        ).len() as int] == '.',
{
    let d = decimal_digits(n);
    match spec_forwarded_ext(path) {
        Some(e) => {
            let t = d + seq!['.'] + e;
            assert(t.len() == d.len() + 1 + e.len());
            assert(forall|k: int| 0 <= k < d.len() ==> #[trigger] t[k] == d[k]);
            assert((d + seq!['.'])[d.len() as int] == seq!['.'][0]);
            assert(t[d.len() as int] == '.');
        },
        None => {},
    }
}

/// Tokens issued from distinct counter values differ, whatever paths they
/// were issued for: the digits of the counter are recoverable from the
/// token, since a dot never reads as a digit.
pub proof fn lemma_tokens_distinct(n1: nat, path1: Seq<char>, n2: nat, path2: Seq<char>)
    requires
        n1 != n2,
    ensures
        spec_token(n1, path1) != spec_token(n2, path2),
{
    crate::strutil::lemma_decimal_digits_shape(n1);
    crate::strutil::lemma_decimal_digits_shape(n2);
    lemma_token_prefix(n1, path1);
    lemma_token_prefix(n2, path2);
    let d1 = decimal_digits(n1);
    let d2 = decimal_digits(n2);
    if spec_token(n1, path1) == spec_token(n2, path2) {
        let t = spec_token(n1, path1);
        if d1.len() == d2.len() {
            assert forall|k: int| 0 <= k < d1.len() implies d1[k] == d2[k] by {
                assert(spec_token(n1, path1)[k] == d1[k]);
                assert(spec_token(n2, path2)[k] == d2[k]);
            }
            assert(d1 =~= d2);
            crate::strutil::lemma_decimal_digits_injective(n1, n2);
        } else if d1.len() < d2.len() {
            let k = d1.len() as int;
            assert(t[k] == d2[k]);
            assert(crate::strutil::is_digit(t[k]));
            assert(t[k] == '.');
        } else {
            let k = d2.len() as int;
            assert(t[k] == d1[k]);
            assert(crate::strutil::is_digit(t[k]));
            assert(t[k] == '.');
        }
    }
}

/// The `k`-th tokenized path was tokenized with counter value `k`, and its
/// token names the `k`-th entry of both the replacement table and the
/// outbound file map.
pub proof fn lemma_virt_tokens_by_index(args: Seq<Seq<char>>, reads: Seq<Option<Seq<u8>>>, n: int)
    requires
        0 <= n <= args.len(),
    ensures
        forall|k: int|
            0 <= k < virt_prefix(args, reads, n).processed.len() ==> (#[trigger] virt_prefix(
                args,
                reads,
                n,
            ).processed[k]).1 == spec_token(k as nat, virt_prefix(args, reads, n).processed[k].0),
        forall|k: int|
            0 <= k < virt_prefix(args, reads, n).processed.len() ==> (#[trigger] virt_prefix(
                args,
                reads,
                n,
            ).file_map[k]).0 == virt_prefix(args, reads, n).processed[k].1,
        forall|k: int|
            0 <= k < virt_prefix(args, reads, n).processed.len() ==> (#[trigger] virt_prefix(
                args,
                reads,
                n,
            ).replacements[k]).0 == virt_prefix(args, reads, n).processed[k].1,
        forall|k: int|
            0 <= k < virt_prefix(args, reads, n).processed.len() ==> (#[trigger] virt_prefix(
                args,
                reads,
                n,
            ).replacements[k]).1 == virt_prefix(args, reads, n).processed[k].0,
    decreases n,
{
    lemma_virt_lengths(args, reads, n);
    if n > 0 {
        lemma_virt_tokens_by_index(args, reads, n - 1);
        lemma_virt_lengths(args, reads, n - 1);
        let st = virt_prefix(args, reads, n - 1);
        let st1 = virt_prefix(args, reads, n);
        assert(forall|k: int|
            0 <= k < st.processed.len() ==> #[trigger] st1.processed[k] == st.processed[k]);
        assert(forall|k: int|
            0 <= k < st.file_map.len() ==> #[trigger] st1.file_map[k] == st.file_map[k]);
        assert(forall|k: int|
            0 <= k < st.replacements.len() ==> #[trigger] st1.replacements[k]
                == st.replacements[k]);
    }
}

/// Law: the outbound file map and the replacement table name each entry by
/// a token of its own: their names are pairwise distinct, so each is a
/// mapping.
pub proof fn lemma_file_map_names_distinct(args: Seq<Seq<char>>, reads: Seq<Option<Seq<u8>>>, n: int)
    requires
        0 <= n <= args.len(),
    ensures
        forall|j1: int, j2: int|
            0 <= j1 < j2 < virt_prefix(args, reads, n).file_map.len() ==> (#[trigger] virt_prefix(
                args,
                reads,
                n,
            ).file_map[j1]).0 != (#[trigger] virt_prefix(args, reads, n).file_map[j2]).0,
        forall|j1: int, j2: int|
            0 <= j1 < j2 < virt_prefix(args, reads, n).replacements.len() ==> (
            #[trigger] virt_prefix(args, reads, n).replacements[j1]).0 != (#[trigger] virt_prefix(
                args,
                reads,
                n,
            ).replacements[j2]).0,
{
    lemma_virt_lengths(args, reads, n);
    lemma_virt_tokens_by_index(args, reads, n);
    let st = virt_prefix(args, reads, n);
    assert forall|j1: int, j2: int| 0 <= j1 < j2 < st.file_map.len() implies (
    #[trigger] st.file_map[j1]).0 != (#[trigger] st.file_map[j2]).0 by {
        lemma_tokens_distinct(j1 as nat, st.processed[j1].0, j2 as nat, st.processed[j2].0);
    }
    assert forall|j1: int, j2: int| 0 <= j1 < j2 < st.replacements.len() implies (
    #[trigger] st.replacements[j1]).0 != (#[trigger] st.replacements[j2]).0 by {
        lemma_tokens_distinct(j1 as nat, st.processed[j1].0, j2 as nat, st.processed[j2].0);
    }
}

/// Law: the virtualizer's tables are consistent with one another: every
/// name in the outbound file map resolves in the replacement table to the
/// path it was issued for. A worker that returns the names it was sent can
/// therefore never trigger the invalid-file-map-name error on the caller.
pub proof fn lemma_virt_tables_consistent(args: Seq<Seq<char>>, reads: Seq<Option<Seq<u8>>>, n: int)
    requires
        0 <= n <= args.len(),
    ensures
        forall|k: int|
            0 <= k < virt_prefix(args, reads, n).file_map.len() ==> alist_get(
                virt_prefix(args, reads, n).replacements,
                (#[trigger] virt_prefix(args, reads, n).file_map[k]).0,
            ) == Some(virt_prefix(args, reads, n).processed[k].0),
{
    lemma_virt_lengths(args, reads, n);
    lemma_virt_tokens_by_index(args, reads, n);
    lemma_file_map_names_distinct(args, reads, n);
    let st = virt_prefix(args, reads, n);
    assert forall|k: int| 0 <= k < st.file_map.len() implies alist_get(
        st.replacements,
        (#[trigger] st.file_map[k]).0,
    ) == Some(st.processed[k].0) by {
        assert(st.file_map[k].0 == st.replacements[k].0);
        crate::alist::lemma_alist_get_at(st.replacements, st.replacements[k].0, k);
    }
}

/// Law: the counter is consumed once per distinct tokenized path. It always
/// equals the number of entries of the processed table, and those entries
/// carry pairwise distinct paths, so tokenizing the same path again never
/// consumes another counter value.
pub proof fn lemma_counter_counts_tokenized_paths(
    args: Seq<Seq<char>>,
    reads: Seq<Option<Seq<u8>>>,
    n: int,
)
    requires
        0 <= n <= args.len(),
    ensures
        virt_prefix(args, reads, n).counter == virt_prefix(args, reads, n).processed.len(),
        forall|j1: int, j2: int|
            0 <= j1 < j2 < virt_prefix(args, reads, n).processed.len() ==> (#[trigger] virt_prefix(
                args,
                reads,
                n,
            ).processed[j1]).0 != (#[trigger] virt_prefix(args, reads, n).processed[j2]).0,
{
    lemma_virt_lengths(args, reads, n);
    lemma_virt_processed_keys_distinct(args, reads, n);
}

/// Law: tokenizing the same absolute path twice within one call yields one
/// token, used at both positions.
pub proof fn lemma_repeated_path_reuses_token(
    args: Seq<Seq<char>>,
    reads: Seq<Option<Seq<u8>>>,
    i: int,
    j: int,
)
    requires
        reads.len() == args.len(),
        0 <= i < j < args.len(),
        args[i] == args[j],
        alist_get(virt_prefix(args, reads, i + 1).processed, args[i]) is Some,
    ensures
        virt_run(args, reads).arguments[j] == virt_run(args, reads).arguments[i],
        virt_run(args, reads).arguments[j] == alist_get(
            virt_prefix(args, reads, i + 1).processed,
            args[i],
        )->Some_0,
{
    let n = args.len() as int;
    lemma_virt_arguments(args, reads, n, i);
    lemma_virt_arguments(args, reads, n, j);
    let sti = virt_prefix(args, reads, i);
    let sti1 = virt_prefix(args, reads, i + 1);
    let stj = virt_prefix(args, reads, j);
    let tok = alist_get(sti1.processed, args[i])->Some_0;
    lemma_virt_prefix_monotone(args, reads, i + 1, j);
    crate::alist::lemma_alist_get_prefix(sti1.processed, stj.processed, args[i]);
    assert(virt_output(stj, args[j], reads[j]) == tok);
    if alist_get(sti.processed, args[i]) is Some {
        assert(virt_output(sti, args[i], reads[i]) == tok);
    } else {
        assert(tokenizes(sti, args[i], reads[i])) by {
            if !tokenizes(sti, args[i], reads[i]) {
                assert(sti1.processed == sti.processed);
            }
        }
        let out = virt_output(sti, args[i], reads[i]);
        crate::alist::lemma_alist_get_push(sti.processed, args[i], (args[i], out));
        assert(tok == out);
    }
}

/// Law: a newly tokenized path is rewritten to the decimal form of the
/// counter at its position — the number of distinct paths tokenized before
/// it — with the path's extension appended exactly when that extension is
/// on the forwarding allow-list.
pub proof fn lemma_token_shape(args: Seq<Seq<char>>, reads: Seq<Option<Seq<u8>>>, i: int)
    requires
        reads.len() == args.len(),
        0 <= i < args.len(),
        tokenizes(virt_prefix(args, reads, i), args[i], reads[i]),
    ensures
        virt_run(args, reads).arguments[i] == spec_token(
            virt_prefix(args, reads, i).counter,
            args[i],
        ),
        virt_prefix(args, reads, i).counter == virt_prefix(args, reads, i).processed.len(),
        spec_forwarded_ext(args[i]) is Some ==> virt_run(args, reads).arguments[i]
            == decimal_digits(virt_prefix(args, reads, i).counter) + seq!['.']
            + spec_forwarded_ext(args[i])->Some_0,
        spec_forwarded_ext(args[i]) is None ==> virt_run(args, reads).arguments[i]
            == decimal_digits(virt_prefix(args, reads, i).counter),
{
    lemma_virt_arguments(args, reads, args.len() as int, i);
    lemma_virt_lengths(args, reads, i);
}

/// Law: a non-absolute argument passes through unchanged; it consumes no
/// counter value and contributes nothing to the file map.
pub proof fn lemma_non_absolute_passes_through(
    args: Seq<Seq<char>>,
    reads: Seq<Option<Seq<u8>>>,
    i: int,
)
    requires
        reads.len() == args.len(),
        0 <= i < args.len(),
        !is_absolute(args[i]),
    ensures
        virt_run(args, reads).arguments[i] == args[i],
        virt_prefix(args, reads, i + 1).counter == virt_prefix(args, reads, i).counter,
        virt_prefix(args, reads, i + 1).file_map == virt_prefix(args, reads, i).file_map,
{
    lemma_virt_arguments(args, reads, args.len() as int, i);
    let st = virt_prefix(args, reads, i);
    lemma_virt_processed_absolute(args, reads, i);
    crate::alist::lemma_alist_get_contains(st.processed, args[i]);
    if alist_get(st.processed, args[i]) is Some {
        let k = choose|k: int|
            0 <= k < st.processed.len() && (#[trigger] st.processed[k]).0 == args[i];
        assert(is_absolute(st.processed[k].0));
    }
}

/// Law: an absolute path that cannot be read passes through unchanged, with
/// no error, no counter value consumed, and nothing added to the file map —
/// unless the same path was already tokenized earlier in the call, in which
/// case its token is reused.
pub proof fn lemma_unreadable_passes_through(
    args: Seq<Seq<char>>,
    reads: Seq<Option<Seq<u8>>>,
    i: int,
)
    requires
        reads.len() == args.len(),
        0 <= i < args.len(),
        is_absolute(args[i]),
        reads[i] is None,
        alist_get(virt_prefix(args, reads, i).processed, args[i]) is None,
    ensures
        virt_run(args, reads).arguments[i] == args[i],
        virt_prefix(args, reads, i + 1).counter == virt_prefix(args, reads, i).counter,
        virt_prefix(args, reads, i + 1).file_map == virt_prefix(args, reads, i).file_map,
{
    lemma_virt_arguments(args, reads, args.len() as int, i);
}

/// Law: virtualization is a function of the argument list and the read
/// outcomes alone. Repeating a call with unchanged inputs yields an
/// identical rewriting, replacement table and outbound file map; since the
/// reply and the write-back plan are pinned pointwise by the contracts of
/// the functions that build them, a repeated call with the same execution
/// outcome returns a byte-identical reply.
pub proof fn lemma_virtualization_deterministic(
    args1: Seq<Seq<char>>,
    reads1: Seq<Option<Seq<u8>>>,
    args2: Seq<Seq<char>>,
    reads2: Seq<Option<Seq<u8>>>,
)
    requires
        args1 == args2,
        reads1 == reads2,
    ensures
        virt_run(args1, reads1) == virt_run(args2, reads2),
{
}

/// Maps each returned (token, contents) pair back to the original path it
/// stands for, using the call's replacement table. Fails with an
/// invalid-file-map-name error when the worker returns a name the caller
/// never issued. On success the result lists, in the file map's order, the
/// (original path, contents) writes to perform.
pub fn update_replacements(replacements: &Vec<(String, String)>, file_map: &FileMap) -> (r: Result<
    Vec<(String, Vec<u8>)>,
    ExecuteCommandError,
>)
    ensures
        match r {
            Ok(plan) => {
                &&& plan@.len() == file_map@.len()
                &&& forall|k: int|
                    0 <= k < file_map@.len() ==> alist_get(
                        replacements.deep_view(),
                        (#[trigger] file_map@[k]).0,
                    ) == Some(plan.deep_view()[k].0)
                &&& forall|k: int|
                    0 <= k < file_map@.len() ==> (#[trigger] plan.deep_view()[k]).1
                        == file_map@[k].1
            },
            Err(e) => {
                &&& e == ExecuteCommandError::InvalidFileMapName
                &&& exists|k: int|
                    0 <= k < file_map@.len() && alist_get(
                        replacements.deep_view(),
                        (#[trigger] file_map@[k]).0,
                    ) is None
            },
        },
{
    let entries = file_map.entries();
    let n = entries.len();
    let mut plan: Vec<(String, Vec<u8>)> = Vec::new();
    let mut i: usize = 0;
    while i < n
        invariant
            entries.deep_view() == file_map@,
            n == entries@.len(),
            file_map@.len() == n,
            i <= n,
            plan@.len() == i,
            forall|k: int|
                0 <= k < i ==> alist_get(replacements.deep_view(), (#[trigger] file_map@[k]).0)
                    == Some(plan.deep_view()[k].0),
            forall|k: int|
                0 <= k < i ==> (#[trigger] plan.deep_view()[k]).1 == file_map@[k].1,
        decreases n - i,
    {
        match alist_find(replacements, entries[i].0.as_str()) {
            Some(original) => {
                let ghost old_plan = plan.deep_view();
                plan.push((original.clone(), entries[i].1.clone()));
                proof {
                    assert(plan.deep_view() =~~= old_plan.push(
                        (original@, entries@[i as int].1@),
                    ));
                    assert(entries@[i as int].1@ =~= file_map@[i as int].1);
                }
            },
            None => {
                proof {
                    assert(alist_get(
                        replacements.deep_view(),
                        file_map@[i as int].0,
                    ) is None);
                }
                return Err(ExecuteCommandError::InvalidFileMapName);
            },
        }
        i = i + 1;
    }
    Ok(plan)
}

} // verus!
