//! One object met while walking a directory tree.

use crate::stats::{DirectoryStats, Tally};
use vstd::prelude::*;

verus! {

/// A file or directory found by the walk, reduced to what the counting reads.
#[derive(Clone, Debug)]
pub struct Entry {
    /// Path of the directory that holds the entry; `None` where the entry has
    /// no parent, as the root of the file system.
    pub parent: Option<String>,
    /// Whether the entry is a directory.
    pub is_dir: bool,
    /// Length of the entry in bytes; `None` where its metadata could not be
    /// read.
    pub size: Option<u64>,
}

impl Entry {
    /// The key under which the entry is counted: its parent's path, or the
    /// empty string where it has none.
    pub open spec fn key(&self) -> Seq<char> {
        match self.parent {
            Some(path) => path@,
            None => Seq::empty(),
        }
    }

    /// The bytes the entry accounts for; unreadable metadata counts as none.
    pub open spec fn bytes(&self) -> nat {
        match self.size {
            Some(n) => n as nat,
            None => 0,
        }
    }

    /// What the entry adds to its parent's counters: a directory adds one
    /// subdirectory; anything else adds one file and, where sizes are counted,
    /// its bytes.
    pub open spec fn contribution(&self, count_size: bool) -> Tally {
        if self.is_dir {
            Tally { subdirectories: 1, files: 0, bytes: 0 }
        } else {
            Tally { subdirectories: 0, files: 1, bytes: if count_size { self.bytes() } else { 0 } }
        }
    }

    /// The key under which the entry is counted.
    pub fn parent_key(&self) -> (key: &str)
        ensures
            key@ == self.key(),
    {
        match &self.parent {
            Some(path) => path.as_str(),
            None => {
                proof {
                    reveal_strlit("");
                }
                ""
            },
        }
    }

    /// The counters that the entry contributes.
    pub fn counters(&self, count_size: bool) -> (amount: DirectoryStats)
        ensures
            amount@ == self.contribution(count_size),
    {
        if self.is_dir {
            DirectoryStats { subdirectory_count: 1, file_count: 0, total_size_bytes: 0 }
        } else {
            let bytes: u64 = if count_size {
                match self.size {
                    Some(n) => n,
                    None => 0,
                }
            } else {
                0
            };
            DirectoryStats { subdirectory_count: 0, file_count: 1, total_size_bytes: bytes }
        }
    }
}

} // verus!
