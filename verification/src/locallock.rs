//! The decisions of a lock for single-threaded asynchronous code. Tasks that
//! find the lock taken queue up; unlocking wakes the task that queued first.
//! The lock is not handed over: a woken task polls again and may find the
//! lock taken once more, in which case it queues again at the back.
//!
//! Waiting tasks are named by numbers that the caller assigns; the caller
//! performs the wake-up that `unlock` asks for.

use std::collections::VecDeque;
use vstd::prelude::*;

verus! {

/// The lock state: whether it is held, and the tasks waiting for it.
pub struct LocalLock {
    queue: VecDeque<u64>,
    locked: bool,
}

/// The outcome of polling a lock acquisition.
#[derive(PartialEq, Eq, Structural, Clone, Copy, Debug)]
pub enum LockPoll {
    /// The lock was free and is now held by the poller.
    Ready,
    /// The lock is held; the poller was queued.
    Pending,
}

/// A pending acquisition of a lock, polled by the waiting task.
pub struct LocalLocker<'a> {
    /// The lock being acquired.
    pub lock: &'a mut LocalLock,
}

/// `VecDeque::capacity`: how many items the queue can hold without
/// reallocating. Nothing is stated of it: it depends on the allocator.
#[verifier::external_body]
fn queue_capacity(queue: &VecDeque<u64>) -> usize {
    queue.capacity()
}

/// `VecDeque::shrink_to`: frees buffer space, keeping the queued items.
#[verifier::external_body]
fn queue_shrink_to(queue: &mut VecDeque<u64>, min_capacity: usize)
    ensures
        final(queue)@ == old(queue)@,
{
    queue.shrink_to(min_capacity)
}

impl LocalLock {
    pub closed spec fn is_locked(&self) -> bool {
        self.locked
    }

    /// The waiting tasks, first to be woken first.
    pub closed spec fn waiters(&self) -> Seq<u64> {
        self.queue@
    }

    pub fn new() -> (l: Self)
        ensures
            !l.is_locked(),
            l.waiters() == Seq::<u64>::empty(),
    {
        LocalLock { queue: VecDeque::new(), locked: false }
    }

    /// Takes the lock if it is free; returns whether it was taken.
    pub fn try_lock(&mut self) -> (r: bool)
        ensures
            r == !old(self).is_locked(),
            final(self).is_locked(),
            final(self).waiters() == old(self).waiters(),
    {
        if self.locked {
            false
        } else {
            self.locked = true;
            true
        }
    }

    /// Releases a held lock. Returns `None` if the lock was not held;
    /// otherwise `Some(w)` where `w` is the first waiting task, which is
    /// taken out of the queue and must be woken.
    pub fn try_unlock(&mut self) -> (r: Option<Option<u64>>)
        ensures
            old(self).is_locked() ==> {
                &&& !final(self).is_locked()
                &&& r == Some(if old(self).waiters().len() == 0 {
                    None::<u64>
                } else {
                    Some(old(self).waiters()[0])
                })
                &&& final(self).waiters() == if old(self).waiters().len() == 0 {
                    old(self).waiters()
                } else {
                    old(self).waiters().drop_first()
                }
            },
            !old(self).is_locked() ==> r is None && *final(self) == *old(self),
    {
        if self.locked {
            self.locked = false;
            match self.queue.pop_front() {
                Some(waker) => {
                    let len = self.queue.len();
                    let cap = queue_capacity(&self.queue) / 3;
                    if len > 0x100 && len < cap {
                        queue_shrink_to(&mut self.queue, cap * 2);
                    }
                    Some(Some(waker))
                },
                None => Some(None),
            }
        } else {
            None
        }
    }

    /// Releases the lock, which must be held; returns the task to wake, if any.
    pub fn unlock(&mut self) -> (r: Option<u64>)
        requires
            old(self).is_locked(),
        ensures
            !final(self).is_locked(),
            r == if old(self).waiters().len() == 0 { None::<u64> } else { Some(old(self).waiters()[0]) },
            final(self).waiters() == if old(self).waiters().len() == 0 {
                old(self).waiters()
            } else {
                old(self).waiters().drop_first()
            },
    {
        match self.try_unlock() {
            Some(w) => w,
            None => {
                // the lock is held, so releasing it cannot fail
                None
            },
        }
    }

    /// Starts acquiring the lock.
    pub fn lock(&mut self) -> (l: LocalLocker<'_>)
        ensures
            *l.target() == *old(self),
            *final(self) == *final(l.lock),
    {
        LocalLocker { lock: self }
    }
}

impl Default for LocalLock {
    fn default() -> (l: Self)
        ensures
            !l.is_locked(),
            l.waiters() == Seq::<u64>::empty(),
    {
        LocalLock::new()
    }
}

impl<'a> LocalLocker<'a> {
    /// The lock being acquired, as it stands now.
    pub open spec fn target(&self) -> &LocalLock {
        &*self.lock
    }

    /// One poll by task `waiter`: takes the lock if it is free, and otherwise
    /// queues the task at the back.
    pub fn poll(&mut self, waiter: u64) -> (r: LockPoll)
        ensures
            r == if old(self).lock.is_locked() { LockPoll::Pending } else { LockPoll::Ready },
            final(self).lock.is_locked(),
            *final(final(self).lock) == *final(old(self).lock),
            final(self).lock.waiters() == if old(self).lock.is_locked() {
                old(self).lock.waiters().push(waiter)
            } else {
                old(self).lock.waiters()
            },
    {
        if self.lock.locked {
            self.lock.queue.push_back(waiter);
            LockPoll::Pending
        } else {
            self.lock.locked = true;
            LockPoll::Ready
        }
    }
}

/// Waiters are woken first come, first served: a waiter that polls a held
/// lock is woken after every waiter already queued, and the first unlock
/// wakes the oldest waiter.
pub proof fn law_waiters_first_come_first_served(waiters: Seq<u64>, w: u64)
    ensures
        waiters.push(w)[0] == if waiters.len() == 0 { w } else { waiters[0] },
        waiters.len() > 0 ==> waiters.push(w).drop_first() == waiters.drop_first().push(w),
{
    if waiters.len() > 0 {
        assert(waiters.push(w).drop_first() =~= waiters.drop_first().push(w));
    }
}

} // verus!
