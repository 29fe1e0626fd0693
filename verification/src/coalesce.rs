//! Event coalescer: a per-path debounce table that turns bursts of
//! notifications into one confirmed trigger.
//!
//! Every qualifying event overwrites the path's pending timestamp and
//! schedules a confirmation for one debounce window later, capturing the
//! timestamp it recorded. The confirmation dispatches only if the stored
//! timestamp still equals the captured one; a newer event supersedes it
//! and the stale confirmation does nothing.

use vstd::prelude::*;
use crate::filter::{bytes_eq, copy_bytes};

verus! {

/// The quiet period a path must keep before it is treated as stable,
/// in milliseconds.
pub const DEBOUNCE_WINDOW_MS: u64 = 2000;

/// The kind of a filesystem notification, reduced to what the coalescer
/// distinguishes.
#[derive(Clone, Copy, Debug, PartialEq, Eq, Structural)]
pub enum WatchEventKind {
    /// A file was created.
    Create,
    /// A file was modified, subkind unknown.
    ModifyAny,
    /// A file was renamed into the watched directory.
    RenameInto,
    /// Anything else: accesses, removals, metadata-only changes.
    Other,
}

/// Creations, plain modifications and renames into the directory
/// qualify for processing; every other kind is dropped.
pub fn is_relevant_kind(kind: &WatchEventKind) -> (r: bool)
    ensures
        r == (kind is Create || kind is ModifyAny || kind is RenameInto),
{
    match kind {
        WatchEventKind::Create => true,
        WatchEventKind::ModifyAny => true,
        WatchEventKind::RenameInto => true,
        WatchEventKind::Other => false,
    }
}

/// The debounce table: each entry pairs a path with the timestamp of its
/// most recent observed notification.
pub struct PendingTable {
    pub entries: Vec<(Vec<u8>, u64)>,
}

impl PendingTable {
    /// Each path appears at most once.
    pub open spec fn wf(self) -> bool {
        forall|i: int, j: int|
            0 <= i < j < self.entries@.len() ==> self.entries@[i].0@ != self.entries@[j].0@
    }

    /// The path is pending with exactly this timestamp.
    pub open spec fn pending_at(self, path: Seq<u8>, t: u64) -> bool {
        exists|i: int|
            0 <= i < self.entries@.len() && self.entries@[i].0@ == path
                && self.entries@[i].1 == t
    }

    /// An empty table.
    pub fn new() -> (r: Self)
        ensures
            r.wf(),
            forall|p: Seq<u8>, t: u64| !r.pending_at(p, t),
    {
        PendingTable { entries: Vec::new() }
    }

    fn find(&self, path: &Vec<u8>) -> (r: Option<usize>)
        ensures
            match r {
                Some(i) => i < self.entries@.len() && self.entries@[i as int].0@ == path@,
                None => forall|k: int|
                    0 <= k < self.entries@.len() ==> self.entries@[k].0@ != path@,
            },
    {
        let mut k: usize = 0;
        while k < self.entries.len()
            invariant
                k <= self.entries@.len(),
                forall|m: int| 0 <= m < k ==> self.entries@[m].0@ != path@,
            decreases self.entries@.len() - k,
        {
            if bytes_eq(&self.entries[k].0, path) {
                return Some(k);
            }
            k = k + 1;
        }
        None
    }

    /// Record a qualifying event: insert or overwrite the path's
    /// timestamp with `now`.
    pub fn record(&mut self, path: &Vec<u8>, now: u64)
        requires
            old(self).wf(),
        ensures
            final(self).wf(),
            final(self).pending_at(path@, now),
            forall|t: u64| t != now ==> !final(self).pending_at(path@, t),
            forall|q: Seq<u8>, t: u64|
                q != path@ ==> final(self).pending_at(q, t) == old(self).pending_at(q, t),
    {
        match self.find(path) {
            Some(i) => {
                let p = copy_bytes(path);
                self.entries[i] = (p, now);
                proof {
                    assert(self.entries@[i as int].0@ == path@);
                    assert(self.pending_at(path@, now));
                    assert forall|t: u64| t != now implies !self.pending_at(path@, t) by {
                        if self.pending_at(path@, t) {
                            let j = choose|j: int|
                                0 <= j < self.entries@.len() && self.entries@[j].0@ == path@
                                    && self.entries@[j].1 == t;
                            if j != i {
                                assert(old(self).entries@[j].0@ == path@);
                            }
                        }
                    }
                    assert forall|q: Seq<u8>, t: u64| q != path@ implies self.pending_at(
                        q,
                        t,
                    ) == old(self).pending_at(q, t) by {
                        if self.pending_at(q, t) {
                            let j = choose|j: int|
                                0 <= j < self.entries@.len() && self.entries@[j].0@ == q
                                    && self.entries@[j].1 == t;
                            assert(j != i);
                            assert(old(self).entries@[j] == self.entries@[j]);
                        }
                        if old(self).pending_at(q, t) {
                            let j = choose|j: int|
                                0 <= j < old(self).entries@.len() && old(self).entries@[j].0@
                                    == q && old(self).entries@[j].1 == t;
                            assert(j != i);
                            assert(self.entries@[j] == old(self).entries@[j]);
                        }
                    }
                }
            },
            None => {
                let p = copy_bytes(path);
                self.entries.push((p, now));
                proof {
                    let ghost ne = self.entries@;
                    assert(ne[ne.len() - 1].0@ == path@);
                    assert(self.pending_at(path@, now));
                    assert forall|t: u64| t != now implies !self.pending_at(path@, t) by {
                        if self.pending_at(path@, t) {
                            let j = choose|j: int|
                                0 <= j < ne.len() && ne[j].0@ == path@ && ne[j].1 == t;
                            if j != ne.len() - 1 {
                                assert(old(self).entries@[j].0@ == path@);
                            }
                        }
                    }
                    assert forall|q: Seq<u8>, t: u64| q != path@ implies self.pending_at(
                        q,
                        t,
                    ) == old(self).pending_at(q, t) by {
                        if self.pending_at(q, t) {
                            let j = choose|j: int|
                                0 <= j < ne.len() && ne[j].0@ == q && ne[j].1 == t;
                            assert(j != ne.len() - 1);
                            assert(old(self).pending_at(q, t));
                        }
                        if old(self).pending_at(q, t) {
                            let j = choose|j: int|
                                0 <= j < old(self).entries@.len() && old(self).entries@[j].0@
                                    == q && old(self).entries@[j].1 == t;
                            assert(ne[j] == old(self).entries@[j]);
                        }
                    }
                }
            },
        }
    }

    /// A confirmation check, firing one debounce window after the event
    /// whose timestamp it captured. Dispatches — removes the entry and
    /// returns true — only if the stored timestamp still equals the
    /// captured one; otherwise a newer event superseded it, or the entry
    /// is already gone, and the check is a no-op.
    pub fn confirm(&mut self, path: &Vec<u8>, captured: u64) -> (dispatched: bool)
        requires
            old(self).wf(),
        ensures
            final(self).wf(),
            dispatched == old(self).pending_at(path@, captured),
            dispatched ==> (forall|t: u64| !final(self).pending_at(path@, t)) && (forall|
                q: Seq<u8>,
                t: u64,
            |
                q != path@ ==> final(self).pending_at(q, t) == old(self).pending_at(q, t)),
            !dispatched ==> *final(self) == *old(self),
    {
        match self.find(path) {
            Some(i) => {
                if self.entries[i].1 == captured {
                    proof {
                        assert(old(self).pending_at(path@, captured));
                    }
                    self.remove_path(path);
                    true
                } else {
                    proof {
                        assert forall|t: u64| old(self).pending_at(path@, t) implies t
                            == old(self).entries@[i as int].1 by {
                            let j = choose|j: int|
                                0 <= j < old(self).entries@.len() && old(self).entries@[j].0@
                                    == path@ && old(self).entries@[j].1 == t;
                            if j != i {
                                assert(old(self).entries@[j].0@ != old(
                                    self,
                                ).entries@[i as int].0@);
                            }
                        }
                    }
                    false
                }
            },
            None => {
                false
            },
        }
    }

    /// Drop the path's entry, if any.
    fn remove_path(&mut self, path: &Vec<u8>)
        requires
            old(self).wf(),
        ensures
            final(self).wf(),
            forall|t: u64| !final(self).pending_at(path@, t),
            forall|q: Seq<u8>, t: u64|
                q != path@ ==> final(self).pending_at(q, t) == old(self).pending_at(q, t),
    {
        let ghost olde = self.entries@;
        let mut kept: Vec<(Vec<u8>, u64)> = Vec::new();
        let mut k: usize = 0;
        while k < self.entries.len()
            invariant
                self.entries@ == olde,
                k <= olde.len(),
                forall|i: int, j: int| 0 <= i < j < olde.len() ==> olde[i].0@ != olde[j].0@,
                forall|m: int|
                    0 <= m < kept@.len() ==> kept@[m].0@ != path@ && exists|j: int|
                        0 <= j < k && kept@[m].0@ == olde[j].0@ && kept@[m].1 == olde[j].1,
                forall|j: int|
                    0 <= j < k && olde[j].0@ != path@ ==> exists|m: int|
                        0 <= m < kept@.len() && kept@[m].0@ == olde[j].0@ && kept@[m].1
                            == olde[j].1,
                forall|m1: int, m2: int|
                    0 <= m1 < m2 < kept@.len() ==> kept@[m1].0@ != kept@[m2].0@,
            decreases olde.len() - k,
        {
            let ghost k0 = kept@;
            if !bytes_eq(&self.entries[k].0, path) {
                let p = copy_bytes(&self.entries[k].0);
                let t = self.entries[k].1;
                kept.push((p, t));
                proof {
                    assert(kept@[kept@.len() - 1].0@ == olde[k as int].0@);
                    assert(kept@[kept@.len() - 1].1 == olde[k as int].1);
                    assert forall|j: int| 0 <= j < k + 1 && olde[j].0@ != path@ implies exists|
                        m: int,
                    |
                        0 <= m < kept@.len() && kept@[m].0@ == olde[j].0@ && kept@[m].1
                            == olde[j].1 by {
                        if j < k {
                            let m = choose|m: int|
                                0 <= m < k0.len() && k0[m].0@ == olde[j].0@ && k0[m].1
                                    == olde[j].1;
                            assert(kept@[m].0@ == olde[j].0@ && kept@[m].1 == olde[j].1);
                        } else {
                            assert(kept@[kept@.len() - 1].0@ == olde[j].0@);
                        }
                    }
                    assert forall|m1: int, m2: int|
                        0 <= m1 < m2 < kept@.len() implies kept@[m1].0@ != kept@[m2].0@ by {
                        if m2 == kept@.len() - 1 {
                            let j = choose|j: int|
                                0 <= j < k && k0[m1].0@ == olde[j].0@ && k0[m1].1
                                    == olde[j].1;
                            assert(olde[j].0@ != olde[k as int].0@);
                        }
                    }
                }
            }
            k = k + 1;
        }
        self.entries = kept;
    }
}

} // verus!

verus! {

/// Replay a burst against the debounce table: events for one path at the
/// given times, in order, each spaced less than `window` from the next
/// (several may share an instant), each followed by its confirmation
/// `window` later. Records and confirmations are interleaved in
/// timestamp order, a record before a confirmation due at the same
/// instant, as the scheduler's sleep lets the recording thread run
/// first.
///
/// Exactly one dispatch occurs, carrying the timestamp of the last event
/// of the burst.
pub fn run_burst(times: &Vec<u64>, window: u64) -> (dispatches: Vec<u64>)
    requires
        times@.len() >= 1,
        forall|a: int, b: int| 0 <= a < b < times@.len() ==> times@[a] <= times@[b],
        forall|k: int| 0 <= k < times@.len() - 1 ==> #[trigger] times@[k + 1] < times@[k] + window,
        times@[times@.len() - 1] + window <= u64::MAX,
    ensures
        dispatches@ == seq![times@[times@.len() - 1]],
{
    let n = times.len();
    let path: Vec<u8> = Vec::new();
    let mut table = PendingTable::new();
    let mut dispatches: Vec<u64> = Vec::new();
    let mut i: usize = 0;
    let mut j: usize = 0;
    while j < n
        invariant
            n == times@.len(),
            n >= 1,
            path@.len() == 0,
            forall|a: int, b: int| 0 <= a < b < n ==> times@[a] <= times@[b],
            forall|k: int| 0 <= k < n - 1 ==> #[trigger] times@[k + 1] < times@[k] + window,
            times@[n - 1] + window <= u64::MAX,
            j <= i <= n,
            table.wf(),
            dispatches@.len() == 0 ==> {
                &&& (i == 0 ==> forall|t: u64| !table.pending_at(path@, t))
                &&& (i >= 1 ==> table.pending_at(path@, times@[i - 1]) && (forall|t: u64|
                    t != times@[i - 1] ==> !table.pending_at(path@, t)))
            },
            dispatches@.len() != 0 ==> dispatches@ == seq![times@[n - 1]] && i == n && (forall|
                t: u64,
            | !table.pending_at(path@, t)),
            j == n ==> dispatches@.len() != 0,
        decreases (n - i) + (n - j),
    {
        proof {
            if j < n - 1 {
                assert(times@[j as int] <= times@[n - 1]);
            }
        }
        let deadline = times[j] + window;
        if i < n && times[i] <= deadline {
            proof {
                assert(dispatches@.len() == 0);
            }
            table.record(&path, times[i]);
            i = i + 1;
        } else {
            if dispatches.len() == 0 {
                proof {
                    if i < n {
                        assert(j < i);
                    } else {
                        if j == i {
                            assert(false);
                        }
                    }
                    assert(i >= 1 && j <= i - 1);
                }
                let dispatched = table.confirm(&path, times[j]);
                proof {
                    if j < i - 1 {
                        assert(times@[j as int] <= times@[i - 1]);
                    }
                    if dispatched {
                        assert(times@[j as int] == times@[i - 1]);
                        if i < n {
                            assert(times@[(i - 1) + 1] < times@[i - 1] + window);
                            assert(times@[i as int] > times@[j as int] + window);
                            assert(false);
                        }
                        assert(i == n);
                        if j < n - 1 {
                            assert(times@[i - 1] <= times@[n - 1]);
                            assert(times@[j as int] <= times@[i - 1]);
                        }
                        assert(times@[j as int] == times@[n - 1]);
                    }
                }
                if dispatched {
                    dispatches.push(times[j]);
                    proof {
                        assert(dispatches@ =~= seq![times@[n - 1]]);
                    }
                } else {
                    proof {
                        if j == n - 1 {
                            assert(times@[j as int] <= times@[i - 1]);
                            assert(times@[i - 1] <= times@[n - 1]);
                            assert(times@[j as int] == times@[i - 1]);
                            assert(false);
                        }
                    }
                }
                j = j + 1;
            } else {
                let dispatched = table.confirm(&path, times[j]);
                proof {
                    assert(!dispatched);
                }
                j = j + 1;
            }
        }
    }
    dispatches
}

/// Replay two events for one path spaced more than the debounce window
/// apart: each confirmation fires before the next event arrives, and
/// both dispatch, each with its own timestamp.
pub fn run_spaced_pair(t1: u64, t2: u64, window: u64) -> (dispatches: Vec<u64>)
    requires
        t1 + window < t2,
        t2 <= u64::MAX,
    ensures
        dispatches@ == seq![t1, t2],
{
    let path: Vec<u8> = Vec::new();
    let mut table = PendingTable::new();
    let mut dispatches: Vec<u64> = Vec::new();
    table.record(&path, t1);
    let d1 = table.confirm(&path, t1);
    if d1 {
        dispatches.push(t1);
    }
    table.record(&path, t2);
    let d2 = table.confirm(&path, t2);
    if d2 {
        dispatches.push(t2);
    }
    proof {
        assert(dispatches@ =~= seq![t1, t2]);
    }
    dispatches
}

} // verus!
