//! The memory limit and the collection threshold.

use vstd::layout::{align_of, size_of, valid_layout};
use vstd::prelude::*;

use crate::heap::{adjusted_threshold, capped_threshold, spec_min_threshold};
use crate::helpers::GcError;
use crate::laws::layout::law_align_up;
use crate::model::HeapView;
use crate::node::{GcHead, GcPartitionId};

verus! {

/// When a node is refused: in a partition that does not exist, with a layout that no allocator
/// takes, or where a limit is set and the bytes in use together with the node exceed it. In every
/// other case it is admitted.
pub proof fn law_admission<T>(v: HeapView<T>, pid: GcPartitionId, dtype: u8)
    ensures
        ({
            let info = v.reg.infos[dtype as int];
            let there = (pid.0 as int) < v.parts.len();
            let valid = valid_layout(info.layout_size, info.layout_align);
            let room = v.limit <= 0 || v.total + info.layout_size <= v.limit;
            &&& there && valid && room ==> v.alloc_error(pid, dtype) is None
            &&& !there ==> v.alloc_error(pid, dtype) == Some(GcError::PartitionNotFound)
            &&& there && !valid ==> v.alloc_error(pid, dtype) == Some(GcError::AllocationFailed)
            &&& there && valid && !room ==> v.alloc_error(pid, dtype) == Some(
                GcError::PartitionFull,
            )
        }),
{
}

/// A larger limit, or none, admits every node that a smaller one admits.
pub proof fn law_larger_limit<T>(v: HeapView<T>, limit: int, pid: GcPartitionId, dtype: u8)
    requires
        v.limit > 0,
        limit == 0 || limit >= v.limit,
        v.alloc_error(pid, dtype) is None,
    ensures
        (HeapView { limit, ..v }).alloc_error(pid, dtype) is None,
{
}

/// A node can be accounted wherever the numbers stay in range.
pub proof fn law_accountable<T>(v: HeapView<T>, pid: GcPartitionId, dtype: u8)
    requires
        (dtype as int) < v.reg.infos.len(),
        v.total + v.reg.infos[dtype as int].layout_size <= usize::MAX,
        v.reg.infos[dtype as int].layout_size <= 0x7FFF_FFFF,
        (pid.0 as int) < v.parts.len() && v.parts[pid.0 as int].arena is Some ==> v.parts[
            pid.0 as int
        ].arena.unwrap().live < usize::MAX,
    ensures
        v.alloc_fits(pid, dtype),
{
}

/// The least threshold that a heap sets by itself is a header and one step of its alignment.
pub proof fn law_least_threshold()
    requires
        align_of::<GcHead>() >= 1,
    ensures
        spec_min_threshold() == size_of::<GcHead>() + align_of::<GcHead>(),
{
    let a = align_of::<GcHead>() as int;
    law_align_up(1, a);
    let r = crate::gctype::spec_align_up(1, a);
    assert(r == a) by (nonlinear_arith)
        requires
            a >= 1,
            1 <= r < 1 + a,
            r % a == 0,
    {
        if r < a {
            vstd::arithmetic::div_mod::lemma_small_mod(r as nat, a as nat);
        }
    }
}

/// A new limit of `applied` bytes leaves a threshold below it alone. Another one becomes three
/// quarters of the limit, rounded up, but not less than the least threshold.
pub proof fn law_threshold_under_new_limit(threshold: int, applied: int)
    requires
        0 <= threshold,
        0 < applied,
    ensures
        ({
            let t = adjusted_threshold(threshold, applied);
            &&& threshold < applied || threshold == 0 ==> t == threshold
            &&& threshold >= applied && threshold > 0 ==> {
                &&& 4 * t >= 3 * applied
                &&& t >= spec_min_threshold()
                &&& 4 * t <= 3 * applied + 3 || t == spec_min_threshold()
            }
        }),
{
}

/// A threshold under a limit is what was asked for, up to eight tenths of the limit: it is never
/// above that, and if it is not what was asked for, no larger number is within. (Eight times the
/// limit is cut off at the largest number.) Without a limit, and for zero, it is what was asked for.
pub proof fn law_threshold_capped(threshold: int, limit: int)
    requires
        0 <= threshold <= usize::MAX,
        0 <= limit <= usize::MAX,
    ensures
        ({
            let t = capped_threshold(threshold, limit);
            let eight = if limit * 8 > usize::MAX {
                usize::MAX as int
            } else {
                limit * 8
            };
            &&& 0 <= t <= threshold
            &&& limit == 0 ==> t == threshold
            &&& threshold == 0 ==> t == 0
            &&& limit > 0 ==> 10 * t <= eight
            &&& t < threshold ==> limit > 0 && 10 * (t + 1) > eight
        }),
{
}

} // verus!
