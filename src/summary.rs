use vstd::prelude::*;
use crate::case_check::{case_collision_count, entries_paths, folded, repeated};
use crate::lfs_check::{lfs_entries, lfs_violation_count};
use crate::meta_check::{meta_entries, sidecar_violation_count, unpaired};
use crate::tree::Entry;

verus! {

/// The violation counts of the three checks over one tree.
#[derive(Clone, Copy, Debug, PartialEq, Eq, Structural)]
pub struct Summary {
    pub meta_errors: usize,
    pub case_errors: usize,
    pub lfs_errors: usize,
}

impl Summary {
    /// All violations together.
    pub fn total(&self) -> (r: u128)
        ensures
            r == self.meta_errors + self.case_errors + self.lfs_errors,
    {
        self.meta_errors as u128 + self.case_errors as u128 + self.lfs_errors as u128
    }

    /// The run passes when no check found a violation.
    pub fn is_success(&self) -> (r: bool)
        ensures
            r == (self.meta_errors + self.case_errors + self.lfs_errors == 0),
    {
        self.total() == 0
    }

    /// The process exit status: 0 on success, 1 otherwise.
    pub fn exit_code(&self) -> (r: i32)
        ensures
            r == if self.meta_errors + self.case_errors + self.lfs_errors == 0 { 0i32 } else { 1i32 },
    {
        if self.is_success() {
            0
        } else {
            1
        }
    }
}

/// Runs the three checks over one tree; blobs of `threshold` bytes or more
/// that are marked for LFS count as misplaced.
pub fn check_tree(root: &Vec<Entry>, threshold: u64) -> (r: Summary)
    ensures
        r.meta_errors == Set::new(|k: Seq<char>| unpaired(meta_entries(root@, Seq::empty()), k)).len(),
        r.case_errors == repeated(entries_paths(root@, Seq::empty()), folded(entries_paths(root@, Seq::empty()))).len(),
        r.lfs_errors == lfs_entries(root@, Seq::empty(), threshold).len(),
{
    Summary {
        meta_errors: sidecar_violation_count(root),
        case_errors: case_collision_count(root),
        lfs_errors: lfs_violation_count(root, threshold),
    }
}

} // verus!
