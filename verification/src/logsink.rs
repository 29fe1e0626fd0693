//! Rotation policy of the rolling log sink.
//!
//! The sink keeps numbered segments, `0` being the active one. Before
//! the stream is opened, a full active segment pushes every segment one
//! rank up, oldest-targeted rename first, and the segment beyond the
//! retention count is deleted. The policy computes the exact action
//! sequence; executing the renames and deletes is file work done
//! outside.

use vstd::prelude::*;

verus! {

/// One step of the sink's rotation.
#[derive(Clone, Copy, Debug, PartialEq, Eq, Structural)]
pub enum LogAction {
    /// Rename the segment at the first rank onto the second.
    Rename(u32, u32),
    /// Delete the segment at the rank, where present.
    Delete(u32),
}

/// The rename at rank `lo`, skipped where the source segment does not
/// exist.
pub open spec fn rename_at(present: Seq<bool>, lo: int) -> Seq<LogAction> {
    if present[lo] {
        seq![LogAction::Rename(lo as u32, (lo + 1) as u32)]
    } else {
        Seq::empty()
    }
}

/// The renames for ranks `hi - 1` down to `lo`, highest rank first, so
/// every rename's target rank is free or already vacated.
pub open spec fn renames_between(present: Seq<bool>, hi: int, lo: int) -> Seq<LogAction>
    decreases hi - lo,
{
    if hi <= lo {
        Seq::empty()
    } else {
        rename_at(present, hi - 1) + renames_between(present, hi - 1, lo)
    }
}

proof fn lemma_renames_snoc(present: Seq<bool>, hi: int, lo: int)
    requires
        lo < hi,
    ensures
        renames_between(present, hi, lo) =~= renames_between(present, hi, lo + 1) + rename_at(
            present,
            lo,
        ),
    decreases hi - lo,
{
    if hi - 1 == lo {
        assert(renames_between(present, hi, lo + 1) =~= Seq::<LogAction>::empty());
        assert(renames_between(present, hi - 1, lo) =~= Seq::<LogAction>::empty());
        assert(rename_at(present, lo) + Seq::<LogAction>::empty() =~= rename_at(present, lo));
        assert(Seq::<LogAction>::empty() + rename_at(present, lo) =~= rename_at(present, lo));
    } else {
        lemma_renames_snoc(present, hi - 1, lo);
        assert(rename_at(present, hi - 1) + (renames_between(present, hi - 1, lo + 1)
            + rename_at(present, lo)) =~= (rename_at(present, hi - 1) + renames_between(
            present,
            hi - 1,
            lo + 1,
        )) + rename_at(present, lo));
    }
}

/// The sink rotates before opening only when the active segment exists
/// and has reached the byte cap.
pub open spec fn must_rotate(present: Seq<bool>, active_size: u64, max_bytes: u64) -> bool {
    present[0] && active_size >= max_bytes
}

/// The action sequence of one sink opening: where rotation is due, the
/// renames for ranks `max_segments - 1` down to `0` whose source
/// exists, then the deletion of the segment beyond the retention count;
/// otherwise nothing.
pub open spec fn rotation_plan_spec(
    present: Seq<bool>,
    active_size: u64,
    max_bytes: u64,
    max_segments: nat,
) -> Seq<LogAction> {
    if must_rotate(present, active_size, max_bytes) {
        renames_between(present, max_segments as int, 0) + seq![
            LogAction::Delete(max_segments as u32),
        ]
    } else {
        Seq::empty()
    }
}

/// Compute the rotation actions for one sink opening. `present[i]` says
/// whether the segment of rank `i` exists, for ranks `0 ..= max_segments`;
/// `active_size` is the byte size of the active segment, if present.
pub fn rotation_plan(present: &Vec<bool>, active_size: u64, max_bytes: u64, max_segments: u32)
    -> (r: Vec<LogAction>)
    requires
        present@.len() == max_segments + 1,
        1 <= max_segments,
    ensures
        r@ == rotation_plan_spec(present@, active_size, max_bytes, max_segments as nat),
{
    let mut out: Vec<LogAction> = Vec::new();
    if !(present[0] && active_size >= max_bytes) {
        proof {
            assert(out@ =~= rotation_plan_spec(
                present@,
                active_size,
                max_bytes,
                max_segments as nat,
            ));
        }
        return out;
    }
    let mut k: u32 = max_segments;
    while k > 0
        invariant
            present@.len() == max_segments + 1,
            k <= max_segments,
            out@ == renames_between(present@, max_segments as int, k as int),
        decreases k,
    {
        let ghost out0 = out@;
        if present[(k - 1) as usize] {
            out.push(LogAction::Rename(k - 1, k));
            proof {
                assert(out@ =~= out0 + rename_at(present@, k as int - 1));
            }
        } else {
            proof {
                assert(out@ =~= out0 + rename_at(present@, k as int - 1));
            }
        }
        proof {
            lemma_renames_snoc(present@, max_segments as int, k as int - 1);
        }
        k = k - 1;
    }
    let ghost renames = out@;
    out.push(LogAction::Delete(max_segments));
    proof {
        assert(out@ =~= renames + seq![LogAction::Delete(max_segments)]);
        assert(out@ =~= rotation_plan_spec(
            present@,
            active_size,
            max_bytes,
            max_segments as nat,
        ));
    }
    out
}

} // verus!
