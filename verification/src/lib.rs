//! Request virtualization and sandboxed execution for a remote media
//! processor.
//!
//! A caller rewrites an argument list, replacing local absolute file paths
//! with opaque tokens and collecting the file contents into a transmissible
//! file map. A worker validates the request against an allow-list of
//! programs and traversal-safe file names, runs the program in an ephemeral
//! directory, and returns the exit status, output streams, and the possibly
//! mutated file contents. The caller then maps returned tokens back to the
//! original paths.
//!
//! This crate holds the verified core of that protocol: tokenization,
//! request validation, reply construction, and the reverse mapping of
//! results. Everything that touches the network, the filesystem, or a
//! subprocess lives outside and exchanges plain values with these functions.

use vstd::prelude::*;

pub mod alist;
pub mod client;
pub mod command_server;
pub mod strutil;

use crate::alist::{alist_contains_key, alist_find, alist_first_index, alist_get, alist_insert, lemma_alist_first_index};

verus! {

/// Errors which can occur during command execution.
#[derive(Debug, Clone, PartialEq, Eq)]
pub enum ExecuteCommandError {
    /// Failed to connect to server.
    ConnectionError,
    /// Requested program was not allowed to be executed.
    UnpermittedProgram(String),
    /// Failed to launch program.
    ExecutionError,
    /// File map name character was not allowed ('..', '/', '\\').
    InvalidFileMapName,
    /// Generic filesystem error.
    RemoteFilesystemError,
    /// Generic filesystem error.
    LocalFilesystemError,
    /// Unknown error.
    UnknownError,
}

/// Errors which can occur during image feature extraction.
#[derive(Debug, Clone, PartialEq, Eq)]
pub enum FeatureExtractionError {
    /// Failed to connect to server.
    ConnectionError,
    /// Generic filesystem error.
    LocalFilesystemError,
    /// Unrecognized image format.
    UnknownImageFormat,
    /// Failed to decode the image.
    ImageDecodeError,
}

/// Output reply after command execution has finished.
#[derive(Debug, Clone, PartialEq, Eq)]
pub struct CommandReply {
    pub status: u8,
    pub stdout: Vec<u8>,
    pub stderr: Vec<u8>,
}

/// Mapping between file name and file contents, exchanged in one call.
///
/// Names bind to contents as in a map: inserting an existing name replaces
/// its contents. The entries keep their insertion order, which is the order
/// in which files are materialized and read back.
#[derive(Debug, Clone, PartialEq, Eq)]
pub struct FileMap {
    entries: Vec<(String, Vec<u8>)>,
}

impl View for FileMap {
    type V = Seq<(Seq<char>, Seq<u8>)>;

    closed spec fn view(&self) -> Seq<(Seq<char>, Seq<u8>)> {
        self.entries.deep_view()
    }
}

impl FileMap {
    /// An empty file map.
    pub fn new() -> (r: FileMap)
        ensures
            r@ == Seq::<(Seq<char>, Seq<u8>)>::empty(),
    {
        let r = FileMap { entries: Vec::new() };
        proof {
            assert(r@ =~= Seq::<(Seq<char>, Seq<u8>)>::empty());
        }
        r
    }

    /// The number of entries.
    pub fn len(&self) -> (n: usize)
        ensures
            n == self@.len(),
    {
        self.entries.len()
    }

    /// Binds `name` to `contents`: replaces the first entry with that name,
    /// or appends a new entry if the name is absent.
    pub fn insert(&mut self, name: String, contents: Vec<u8>)
        ensures
            final(self)@ == alist_insert(old(self)@, name@, contents@),
    {
        let ghost dv = self@;
        proof {
            lemma_alist_first_index(dv, name@);
        }
        let n = self.entries.len();
        let mut i: usize = 0;
        while i < n
            invariant
                dv == self@,
                dv == old(self)@,
                dv.len() == self.entries@.len(),
                n == self.entries@.len(),
                i <= n,
                forall|k: int| 0 <= k < dv.len() ==> (#[trigger] dv[k]).0 == self.entries@[k].0@,
                forall|k: int| 0 <= k < i ==> (#[trigger] dv[k]).0 != name@,
            decreases n - i,
        {
            if crate::strutil::str_eq(self.entries[i].0.as_str(), name.as_str()) {
                proof {
                    lemma_alist_first_index(dv, name@);
                    assert(dv[i as int].0 == name@);
                    assert(alist_contains_key(dv, name@));
                    assert(alist_first_index(dv, name@) == i as int);
                }
                self.entries[i] = (name, contents);
                proof {
                    assert(self@ =~~= dv.update(i as int, (name@, contents@)));
                    assert(self@ == alist_insert(dv, name@, contents@));
                }
                return ;
            }
            i = i + 1;
        }
        proof {
            assert(!alist_contains_key(dv, name@));
            assert(alist_first_index(dv, name@) == -1);
        }
        self.entries.push((name, contents));
        proof {
            assert(self@ =~~= dv.push((name@, contents@)));
        }
    }

    /// The contents bound to `name`, if any.
    pub fn get(&self, name: &str) -> (r: Option<&Vec<u8>>)
        ensures
            match r {
                Some(c) => alist_get(self@, name@) == Some(c@),
                None => alist_get(self@, name@) is None,
            },
    {
        let r = alist_find(&self.entries, name);
        proof {
            if let Some(c) = r {
                assert(c.deep_view() =~= c@);
            }
        }
        r
    }

    /// The entries in insertion order.
    pub fn entries(&self) -> (r: &Vec<(String, Vec<u8>)>)
        ensures
            r.deep_view() == self@,
    {
        &self.entries
    }

    /// Appends an entry known to carry a fresh name.
    pub(crate) fn push_entry(&mut self, name: String, contents: Vec<u8>)
        ensures
            final(self)@ == old(self)@.push((name@, contents@)),
    {
        let ghost dv = self@;
        self.entries.push((name, contents));
        proof {
            assert(self@ =~~= dv.push((name@, contents@)));
        }
    }
}

} // verus!
