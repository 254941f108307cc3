//! The counters kept for one parent directory.

use vstd::prelude::*;

verus! {

/// The mathematical value of a [`DirectoryStats`]: three natural numbers,
/// free of any machine limit.
pub ghost struct Tally {
    pub subdirectories: nat,
    pub files: nat,
    pub bytes: nat,
}

impl Tally {
    /// The tally of a directory under which nothing has been seen.
    pub open spec fn zero() -> Tally {
        Tally { subdirectories: 0, files: 0, bytes: 0 }
    }

    /// Field-wise sum.
    pub open spec fn plus(self, other: Tally) -> Tally {
        Tally {
            subdirectories: self.subdirectories + other.subdirectories,
            files: self.files + other.files,
            bytes: self.bytes + other.bytes,
        }
    }

    /// Whether the three numbers fit the machine counters of a
    /// [`DirectoryStats`].
    pub open spec fn fits(self) -> bool {
        &&& self.subdirectories <= usize::MAX
        &&& self.files <= usize::MAX
        &&& self.bytes <= u64::MAX
    }
}

/// Aggregate counts for one parent directory.
#[derive(Clone, Copy, Debug, PartialEq, Eq, Structural)]
pub struct DirectoryStats {
    /// Immediate subdirectories seen under the parent.
    pub subdirectory_count: usize,
    /// Immediate files seen under the parent.
    pub file_count: usize,
    /// Sum of the sizes of those files, where sizes are counted.
    pub total_size_bytes: u64,
}

impl View for DirectoryStats {
    type V = Tally;

    open spec fn view(&self) -> Tally {
        Tally {
            subdirectories: self.subdirectory_count as nat,
            files: self.file_count as nat,
            bytes: self.total_size_bytes as nat,
        }
    }
}

impl DirectoryStats {
    /// Counters that are all zero.
    pub fn new() -> (stats: DirectoryStats)
        ensures
            stats@ == Tally::zero(),
    {
        DirectoryStats { subdirectory_count: 0, file_count: 0, total_size_bytes: 0 }
    }

    /// Whether the field-wise sum with `other` fits the counters.
    pub fn can_combine(&self, other: &DirectoryStats) -> (ok: bool)
        ensures
            ok == self@.plus(other@).fits(),
    {
        self.subdirectory_count <= usize::MAX - other.subdirectory_count
            && self.file_count <= usize::MAX - other.file_count
            && self.total_size_bytes <= u64::MAX - other.total_size_bytes
    }

    /// The field-wise sum of two sets of counters.
    pub fn combine(&self, other: &DirectoryStats) -> (sum: DirectoryStats)
        requires
            self@.plus(other@).fits(),
        ensures
            sum@ == self@.plus(other@),
    {
        DirectoryStats {
            subdirectory_count: self.subdirectory_count + other.subdirectory_count,
            file_count: self.file_count + other.file_count,
            total_size_bytes: self.total_size_bytes + other.total_size_bytes,
        }
    }
}

} // verus!
