//! What a run of the program decides once the cache has answered: which
//! validations to show, and the exit code.

use vstd::prelude::*;
use crate::models::{Status, SyncResult, Validation};

verus! {

/// One of the validations has the status `status`.
pub open spec fn has_status(validations: Seq<Validation>, status: Status) -> bool {
    exists|k: int| 0 <= k < validations.len() && (#[trigger] validations[k]).status == status
}

/// The exit code after the statuses were shown: 2 where a document is
/// orphaned, else 1 where one is stale, else 0.
pub open spec fn status_code(validations: Seq<Validation>) -> i32 {
    if has_status(validations, Status::Orphaned) {
        2
    } else if has_status(validations, Status::Stale) {
        1
    } else {
        0
    }
}

/// The exit code after a validation: 1 where a document is not valid, else
/// 0.
pub open spec fn validation_code(validations: Seq<Validation>) -> i32 {
    if has_status(validations, Status::Orphaned) || has_status(validations, Status::Stale) {
        1
    } else {
        0
    }
}

/// The validations of `validations` that are not valid, in order.
pub open spec fn invalid_only(validations: Seq<Validation>) -> Seq<Validation>
    decreases validations.len(),
{
    if validations.len() == 0 {
        Seq::empty()
    } else {
        let before = invalid_only(validations.drop_last());
        if validations.last().status != Status::Valid {
            before.push(validations.last())
        } else {
            before
        }
    }
}

/// Whether one of the validations has the status `status`.
pub fn any_with_status(validations: &Vec<Validation>, status: Status) -> (r: bool)
    ensures
        r == has_status(validations@, status),
{
    let mut k: usize = 0;
    while k < validations.len()
        invariant
            k <= validations.len(),
            forall|j: int| 0 <= j < k ==> (#[trigger] validations@[j]).status != status,
        decreases validations.len() - k,
    {
        if validations[k].status == status {
            return true;
        }
        k += 1;
    }
    false
}

/// The exit code after the statuses were shown.
pub fn status_exit_code(validations: &Vec<Validation>) -> (code: i32)
    ensures
        code == status_code(validations@),
{
    if any_with_status(validations, Status::Orphaned) {
        2
    } else if any_with_status(validations, Status::Stale) {
        1
    } else {
        0
    }
}

/// The exit code after a validation.
pub fn validation_exit_code(validations: &Vec<Validation>) -> (code: i32)
    ensures
        code == validation_code(validations@),
{
    if any_with_status(validations, Status::Orphaned) || any_with_status(validations, Status::Stale) {
        1
    } else {
        0
    }
}

/// The exit code after a synchronization: 1 where a document failed, else
/// 0.
pub fn sync_exit_code(outcome: &SyncResult) -> (code: i32)
    ensures
        code == if outcome.failed@.len() > 0 {
            1i32
        } else {
            0i32
        },
{
    if outcome.failed.len() > 0 {
        1
    } else {
        0
    }
}

/// The validations that are not valid, in order.
pub fn retain_invalid(validations: Vec<Validation>) -> (kept: Vec<Validation>)
    ensures
        kept@ == invalid_only(validations@),
{
    let ghost all = validations@;
    let ghost mut seen: int = 0;
    let mut kept = validations;
    let mut k: usize = 0;
    proof {
        assert(kept@.take(0) =~= invalid_only(all.take(0)));
        assert(kept@.skip(0) =~= all.skip(0));
    }
    while k < kept.len()
        invariant
            0 <= k <= kept@.len(),
            0 <= seen <= all.len(),
            kept@.len() - k == all.len() - seen,
            kept@.take(k as int) == invalid_only(all.take(seen)),
            kept@.skip(k as int) == all.skip(seen),
        decreases kept@.len() - k,
    {
        let ghost before = kept@;
        proof {
            assert(before[k as int] == before.skip(k as int)[0]);
            assert(all[seen] == all.skip(seen)[0]);
            assert(all.take(seen + 1).drop_last() =~= all.take(seen));
            assert(all.take(seen + 1).last() == all[seen]);
        }
        if kept[k].status == Status::Valid {
            kept.remove(k);
            proof {
                assert(kept@.take(k as int) =~= before.take(k as int));
                assert(kept@.skip(k as int) =~= before.skip(k as int).skip(1));
                assert(all.skip(seen + 1) =~= all.skip(seen).skip(1));
            }
        } else {
            k += 1;
            proof {
                assert(kept@.take(k as int) =~= before.take(k - 1).push(before[k - 1]));
                assert(kept@.skip(k as int) =~= before.skip(k - 1).skip(1));
                assert(all.skip(seen + 1) =~= all.skip(seen).skip(1));
            }
        }
        proof {
            seen = seen + 1;
        }
    }
    proof {
        assert(kept@.take(k as int) =~= kept@);
        assert(all.take(seen) =~= all);
    }
    kept
}

} // verus!
