//! The five-state file lock that every open handle holds, and the table that
//! the handles of one adapter share.

use vstd::prelude::*;

verus! {

/// The lock a handle holds on the database file, weakest first.
#[derive(Clone, Copy, Debug, PartialEq, Eq, Structural)]
pub enum LockKind {
    /// Nothing is held.
    Unlocked,
    /// The file may be read.
    Shared,
    /// The holder plans to write; readers may still join.
    Reserved,
    /// The holder waits for the readers to leave; no reader may join.
    Pending,
    /// The holder may write.
    Exclusive,
}

impl LockKind {
    /// The strength of the lock: 0 for `Unlocked` up to 4 for `Exclusive`.
    pub open spec fn level(self) -> nat {
        match self {
            LockKind::Unlocked => 0,
            LockKind::Shared => 1,
            LockKind::Reserved => 2,
            LockKind::Pending => 3,
            LockKind::Exclusive => 4,
        }
    }

    /// The strength of the lock as a number.
    pub fn rank(self) -> (r: u8)
        ensures
            r == self.level(),
    {
        match self {
            LockKind::Unlocked => 0,
            LockKind::Shared => 1,
            LockKind::Reserved => 2,
            LockKind::Pending => 3,
            LockKind::Exclusive => 4,
        }
    }
}

/// The lock table: how many handles read, and whether one has claimed the
/// right to write (`Some(false)`: reserved, `Some(true)`: pending or
/// exclusive).
#[derive(Clone, Copy, Debug, PartialEq, Eq, Structural)]
pub struct LockState {
    pub read: usize,
    pub write: Option<bool>,
}

/// What a lock request leaves behind: the handle's lock, the table, and the
/// answer given to the caller.
pub struct LockStep {
    pub lock: LockKind,
    pub state: LockState,
    pub granted: bool,
}

/// The number of readers after one has left.
pub open spec fn one_less(read: usize) -> usize {
    if read > 0 {
        (read - 1) as usize
    } else {
        0
    }
}

/// The lock protocol: what a request for `to` does to a handle that holds
/// `from` and to the table `state`.
pub open spec fn lock_step(from: LockKind, state: LockState, to: LockKind) -> LockStep {
    if from == to {
        LockStep { lock: from, state, granted: true }
    } else {
        match to {
            LockKind::Unlocked => LockStep {
                lock: LockKind::Unlocked,
                state: LockState {
                    read: if from == LockKind::Shared {
                        one_less(state.read)
                    } else {
                        state.read
                    },
                    write: if from.level() > 1 {
                        None
                    } else {
                        state.write
                    },
                },
                granted: true,
            },
            LockKind::Shared => if state.write == Some(true) && from.level() <= 1 {
                LockStep { lock: from, state, granted: false }
            } else {
                LockStep {
                    lock: LockKind::Shared,
                    state: LockState {
                        read: (state.read + 1) as usize,
                        write: if from.level() > 1 {
                            None
                        } else {
                            state.write
                        },
                    },
                    granted: true,
                }
            },
            LockKind::Reserved => if state.write is Some || from != LockKind::Shared {
                LockStep { lock: from, state, granted: false }
            } else {
                LockStep {
                    lock: LockKind::Reserved,
                    state: LockState { read: one_less(state.read), write: Some(false) },
                    granted: true,
                }
            },
            LockKind::Pending => LockStep { lock: from, state, granted: false },
            LockKind::Exclusive => if state.write is Some && from.level() <= 1 {
                LockStep { lock: from, state, granted: false }
            } else {
                let read = if from == LockKind::Shared {
                    one_less(state.read)
                } else {
                    state.read
                };
                LockStep {
                    lock: if read == 0 {
                        LockKind::Exclusive
                    } else {
                        LockKind::Pending
                    },
                    state: LockState { read, write: Some(true) },
                    granted: read == 0,
                }
            },
        }
    }
}

impl LockState {
    /// The table of an adapter that has no handle yet.
    pub fn new() -> (r: LockState)
        ensures
            r.read == 0,
            r.write is None,
    {
        LockState { read: 0, write: None }
    }

    /// Whether the table accounts for a handle that holds `lock`: a reader is
    /// counted, and one more reader can be.
    pub open spec fn admits(self, lock: LockKind) -> bool {
        &&& lock == LockKind::Shared ==> self.read > 0
        &&& self.read < usize::MAX
    }

    /// Tests `admits`.
    pub fn check(&self, lock: LockKind) -> (r: bool)
        ensures
            r == self.admits(lock),
    {
        let counted = match lock {
            LockKind::Shared => self.read > 0,
            _ => true,
        };
        counted && self.read < usize::MAX
    }
}

/// An open handle on the database file: it carries the lock that it holds.
#[derive(Debug)]
pub struct Connection {
    pub lock: LockKind,
}

impl Connection {
    /// Asks for the lock `to`. The handle and the table change as the lock
    /// protocol says; the answer is whether the lock was granted. A request
    /// for `Exclusive` that finds readers leaves the handle `Pending` and is
    /// not granted.
    pub fn lock(&mut self, lock_state: &mut LockState, to: LockKind) -> (granted: bool)
        requires
            old(lock_state).admits(old(self).lock),
        ensures
            final(self).lock == lock_step(old(self).lock, *old(lock_state), to).lock,
            *final(lock_state) == lock_step(old(self).lock, *old(lock_state), to).state,
            granted == lock_step(old(self).lock, *old(lock_state), to).granted,
    {
        if self.lock == to {
            return true;
        }
        let from = self.lock.rank();
        match to {
            LockKind::Unlocked => {
                if from == 1 {
                    lock_state.read = lock_state.read - 1;
                } else if from > 1 {
                    lock_state.write = None;
                }
                self.lock = LockKind::Unlocked;
                true
            },
            LockKind::Shared => {
                if lock_state.write == Some(true) && from <= 1 {
                    return false;
                }
                lock_state.read = lock_state.read + 1;
                if from > 1 {
                    lock_state.write = None;
                }
                self.lock = LockKind::Shared;
                true
            },
            LockKind::Reserved => {
                if lock_state.write.is_some() || from != 1 {
                    return false;
                }
                lock_state.read = lock_state.read - 1;
                lock_state.write = Some(false);
                self.lock = LockKind::Reserved;
                true
            },
            LockKind::Pending => {
                // cannot be requested directly
                false
            },
            LockKind::Exclusive => {
                if lock_state.write.is_some() && from <= 1 {
                    return false;
                }
                if from == 1 {
                    lock_state.read = lock_state.read - 1;
                }
                lock_state.write = Some(true);
                if lock_state.read == 0 {
                    self.lock = LockKind::Exclusive;
                    true
                } else {
                    self.lock = LockKind::Pending;
                    false
                }
            },
        }
    }

    /// Whether some handle has claimed the right to write: this one holds
    /// more than `Shared`, or the table records a claim.
    pub fn reserved(&self, lock_state: &LockState) -> (r: bool)
        ensures
            r == (self.lock.level() > 1 || lock_state.write is Some),
    {
        if self.lock.rank() > 1 {
            return true;
        }
        lock_state.write.is_some()
    }

    /// The lock that the handle holds.
    pub fn current_lock(&self) -> (r: LockKind)
        ensures
            r == self.lock,
    {
        self.lock
    }

    /// Gives up whatever lock the handle holds, as closing it does.
    pub fn release(&mut self, lock_state: &mut LockState)
        requires
            old(lock_state).admits(old(self).lock),
        ensures
            final(self).lock == LockKind::Unlocked,
            *final(lock_state) == lock_step(
                old(self).lock,
                *old(lock_state),
                LockKind::Unlocked,
            ).state,
    {
        if self.lock != LockKind::Unlocked {
            self.lock(lock_state, LockKind::Unlocked);
        }
    }
}

/// The number of handles that hold `Shared`.
pub open spec fn count_shared(handles: Seq<LockKind>) -> nat
    decreases handles.len(),
{
    if handles.len() == 0 {
        0
    } else {
        count_shared(handles.drop_last()) + if handles.last() == LockKind::Shared {
            1nat
        } else {
            0nat
        }
    }
}

/// The table agrees with the handles that share it: it counts the readers,
/// records the one writer there may be, and counts no reader beside an
/// exclusive lock.
pub open spec fn table_matches(state: LockState, handles: Seq<LockKind>) -> bool {
    &&& state.read == count_shared(handles)
    &&& handles.len() < usize::MAX
    &&& state.write is None <==> forall|i: int|
        0 <= i < handles.len() ==> (#[trigger] handles[i]).level() <= 1
    &&& forall|i: int|
        0 <= i < handles.len() && #[trigger] handles[i] == LockKind::Reserved ==> state.write
            == Some(false)
    &&& forall|i: int|
        0 <= i < handles.len() && (#[trigger] handles[i]).level() > 2 ==> state.write == Some(true)
    &&& forall|i: int, j: int|
        0 <= i < handles.len() && 0 <= j < handles.len() && (#[trigger] handles[i]).level() > 1 && (
        #[trigger] handles[j]).level() > 1 ==> i == j
    &&& forall|i: int|
        0 <= i < handles.len() && #[trigger] handles[i] == LockKind::Exclusive ==> state.read == 0
}

/// Changing one handle changes the count of readers by that handle alone.
pub proof fn lemma_count_update(handles: Seq<LockKind>, i: int, lock: LockKind)
    requires
        0 <= i < handles.len(),
    ensures
        count_shared(handles.update(i, lock)) + (if handles[i] == LockKind::Shared {
            1nat
        } else {
            0nat
        }) == count_shared(handles) + (if lock == LockKind::Shared {
            1nat
        } else {
            0nat
        }),
        count_shared(handles) <= handles.len(),
        handles[i] == LockKind::Shared ==> count_shared(handles) >= 1,
    decreases handles.len(),
{
    let after = handles.update(i, lock);
    if i == handles.len() - 1 {
        assert(after.drop_last() =~= handles.drop_last());
        lemma_count_bound(handles.drop_last());
    } else {
        assert(after.drop_last() =~= handles.drop_last().update(i, lock));
        lemma_count_update(handles.drop_last(), i, lock);
    }
}

/// No more handles read than there are.
pub proof fn lemma_count_bound(handles: Seq<LockKind>)
    ensures
        count_shared(handles) <= handles.len(),
    decreases handles.len(),
{
    if handles.len() > 0 {
        lemma_count_bound(handles.drop_last());
    }
}

/// The lock protocol keeps the table and its handles in agreement: where
/// they agree, the table admits every handle's request, and after any
/// request of any handle they agree again. So from an empty table on, under
/// any sequence of requests on any number of handles, an exclusive lock is
/// held with no reader counted and by one handle alone.
pub proof fn law_lock_keeps_table(
    state: LockState,
    handles: Seq<LockKind>,
    i: int,
    to: LockKind,
)
    requires
        table_matches(state, handles),
        0 <= i < handles.len(),
    ensures
        state.admits(handles[i]),
        table_matches(
            lock_step(handles[i], state, to).state,
            handles.update(i, lock_step(handles[i], state, to).lock),
        ),
{
    let step = lock_step(handles[i], state, to);
    let after = handles.update(i, step.lock);
    lemma_count_update(handles, i, step.lock);
    assert(handles[i].level() > 1 ==> state.write is Some);
    assert forall|j: int| 0 <= j < after.len() && j != i implies after[j] == handles[j] by {}
    if step.state.write is None {
        assert forall|j: int| 0 <= j < after.len() implies (#[trigger] after[j]).level() <= 1 by {
            if j != i {
                assert(after[j] == handles[j]);
                if handles[j].level() > 1 {
                    assert(handles[i].level() > 1 ==> i == j);
                }
            }
        }
    } else {
        if forall|j: int| 0 <= j < after.len() ==> (#[trigger] after[j]).level() <= 1 {
            assert(after[i].level() <= 1);
            assert forall|j: int| 0 <= j < handles.len() && j != i implies (
            #[trigger] handles[j]).level() <= 1 by {
                assert(after[j] == handles[j]);
            }
            assert(false);
        }
    }
    assert forall|a: int, b: int|
        0 <= a < after.len() && 0 <= b < after.len() && (#[trigger] after[a]).level() > 1 && (
        #[trigger] after[b]).level() > 1 implies a == b by {
        if a != i {
            assert(after[a] == handles[a]);
        }
        if b != i {
            assert(after[b] == handles[b]);
        }
    }
    assert forall|j: int|
        0 <= j < after.len() && #[trigger] after[j] == LockKind::Exclusive implies step.state.read
        == 0 by {
        if j != i {
            assert(after[j] == handles[j]);
        }
    }
    assert forall|j: int|
        0 <= j < after.len() && #[trigger] after[j] == LockKind::Reserved implies step.state.write
        == Some(false) by {
        if j != i {
            assert(after[j] == handles[j]);
        }
    }
    assert forall|j: int|
        0 <= j < after.len() && (#[trigger] after[j]).level() > 2 implies step.state.write == Some(
        true,
    ) by {
        if j != i {
            assert(after[j] == handles[j]);
        }
    }
}

/// After a granted request for `Exclusive` the table records the writer and
/// counts no reader.
pub proof fn law_exclusive_has_no_reader(from: LockKind, state: LockState)
    requires
        lock_step(from, state, LockKind::Exclusive).granted,
        from != LockKind::Exclusive,
    ensures
        lock_step(from, state, LockKind::Exclusive).lock == LockKind::Exclusive,
        lock_step(from, state, LockKind::Exclusive).state.write == Some(true),
        lock_step(from, state, LockKind::Exclusive).state.read == 0,
{
}

/// A handle becomes `Pending` only by a request for `Exclusive` that finds
/// readers, and then the table records the writer's claim.
pub proof fn law_pending_waits_for_readers(from: LockKind, state: LockState, to: LockKind)
    requires
        lock_step(from, state, to).lock == LockKind::Pending,
        from != LockKind::Pending,
    ensures
        to == LockKind::Exclusive,
        !lock_step(from, state, to).granted,
        lock_step(from, state, to).state.write == Some(true),
        lock_step(from, state, to).state.read > 0,
{
}

} // verus!
