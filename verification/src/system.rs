use vstd::prelude::*;

use crate::text::str_eq;

verus! {

/// What the disk choice reads of a mounted disk.
pub struct DiskSpace {
    /// Where the disk is mounted.
    pub mount_point: String,
    /// Its size, in bytes.
    pub total_space: u64,
    /// Its free space, in bytes.
    pub available_space: u64,
}

/// The size and used space of a disk; the used space is the size minus the
/// free space, or 0 when more is free than the size.
pub open spec fn disk_sizes(d: DiskSpace) -> (u64, u64) {
    (d.total_space, if d.total_space >= d.available_space { (d.total_space - d.available_space) as u64 } else { 0 })
}

/// The disk is the root file system.
pub open spec fn is_root(d: DiskSpace) -> bool {
    d.mount_point@ == seq!['/']
}

/// Disk `i` is the first one mounted at `/`.
pub open spec fn first_root(disks: Seq<DiskSpace>, i: int) -> bool {
    &&& 0 <= i < disks.len()
    &&& is_root(disks[i])
    &&& forall|k: int| 0 <= k < i ==> !is_root(#[trigger] disks[k])
}

/// Disk `i` is the first of the largest disks, and is not empty.
pub open spec fn first_largest(disks: Seq<DiskSpace>, i: int) -> bool {
    &&& 0 <= i < disks.len()
    &&& disks[i].total_space > 0
    &&& forall|k: int| 0 <= k < disks.len() ==> (#[trigger] disks[k]).total_space <= disks[i].total_space
    &&& forall|k: int| 0 <= k < i ==> (#[trigger] disks[k]).total_space < disks[i].total_space
}

/// The disk whose size and usage the system snapshot reports: the root
/// file system when one is listed (the first one listed), otherwise the
/// first of the largest disks, and `(0, 0)` when every disk is empty.
pub fn pick_root_disk(disks: &Vec<DiskSpace>) -> (r: (u64, u64))
    ensures
        (exists|i: int| 0 <= i < disks@.len() && is_root(#[trigger] disks@[i]))
            ==> exists|i: int| first_root(disks@, i) && r == disk_sizes(disks@[i]),
        !(exists|i: int| 0 <= i < disks@.len() && is_root(#[trigger] disks@[i])) ==> {
            ||| (r == (0u64, 0u64) && forall|k: int| 0 <= k < disks@.len() ==> (#[trigger] disks@[k]).total_space == 0)
            ||| exists|i: int| first_largest(disks@, i) && r == disk_sizes(disks@[i])
        },
{
    let mut best: (u64, u64) = (0, 0);
    let ghost mut best_at: int = -1;
    let mut i: usize = 0;
    while i < disks.len()
        invariant
            i <= disks@.len(),
            forall|k: int| 0 <= k < i ==> !is_root(#[trigger] disks@[k]),
            best_at == -1 ==> best == (0u64, 0u64) && forall|k: int| 0 <= k < i ==> (#[trigger] disks@[k]).total_space == 0,
            best_at != -1 ==> {
                &&& 0 <= best_at < i
                &&& best == disk_sizes(disks@[best_at])
                &&& disks@[best_at].total_space > 0
                &&& forall|k: int| 0 <= k < i ==> (#[trigger] disks@[k]).total_space <= disks@[best_at].total_space
                &&& forall|k: int| 0 <= k < best_at ==> (#[trigger] disks@[k]).total_space < disks@[best_at].total_space
            },
        decreases disks@.len() - i,
    {
        let d = &disks[i];
        let total = d.total_space;
        let used = if total >= d.available_space { total - d.available_space } else { 0 };
        if str_eq(d.mount_point.as_str(), "/") {
            proof {
                reveal_strlit("/");
                assert("/"@ =~= seq!['/']);
                assert(first_root(disks@, i as int));
            }
            return (total, used);
        }
        proof {
            reveal_strlit("/");
            assert("/"@ =~= seq!['/']);
        }
        if total > best.0 {
            best = (total, used);
            proof {
                best_at = i as int;
            }
        }
        i = i + 1;
    }
    proof {
        if best_at != -1 {
            assert(first_largest(disks@, best_at));
        }
    }
    best
}

/// The reported disk usage: the size is the disk's size, and the used space
/// is the size minus the free space whenever no more is free than the size
/// (and 0 otherwise); the used space never exceeds the size.
pub proof fn lemma_disk_usage(d: DiskSpace)
    ensures
        disk_sizes(d).0 == d.total_space,
        d.available_space <= d.total_space ==> disk_sizes(d).1 + d.available_space == d.total_space,
        d.available_space > d.total_space ==> disk_sizes(d).1 == 0,
        disk_sizes(d).1 <= disk_sizes(d).0,
{
}

} // verus!
