//! What an attempt has allocated, attributed to the thread that it runs on.

use vstd::prelude::*;

verus! {

/// What a thread attributes to the attempt that it runs. Without an attempt nothing is
/// attributed.
#[derive(Debug, Clone, Copy, PartialEq, Eq, Structural)]
pub struct ThreadAccount {
    /// Bytes that are held.
    pub live: u64,
    /// The most bytes that were held at once.
    pub peak: u64,
    /// How many scopes of an attempt are open.
    pub depth: u32,
}

impl Default for ThreadAccount {
    fn default() -> (r: Self)
        ensures
            r == ThreadAccount::idle(),
    {
        ThreadAccount::new()
    }
}

impl ThreadAccount {
    /// The account of a thread that runs no attempt.
    pub open spec fn idle() -> Self {
        ThreadAccount { live: 0, peak: 0, depth: 0 }
    }

    /// The peak covers what is held, and without an attempt nothing is.
    pub open spec fn wf(self) -> bool {
        &&& self.live <= self.peak
        &&& self.depth == 0 ==> self.peak == 0
    }

    /// The account inside a further scope. The first one starts from nothing.
    pub open spec fn entered(self) -> Self {
        if self.depth == 0 {
            ThreadAccount { live: 0, peak: 0, depth: 1 }
        } else {
            ThreadAccount { depth: (self.depth + 1) as u32, ..self }
        }
    }

    /// The account outside the innermost scope. Outside the last one nothing is left.
    pub open spec fn left(self) -> Self {
        if self.depth <= 1 {
            ThreadAccount::idle()
        } else {
            ThreadAccount { depth: (self.depth - 1) as u32, ..self }
        }
    }

    /// The account after an allocation.
    pub open spec fn allocated(self, size: usize) -> Self {
        if self.depth == 0 {
            self
        } else {
            let live = if self.live + size <= u64::MAX {
                (self.live + size) as u64
            } else {
                u64::MAX
            };
            ThreadAccount {
                live,
                peak: if live > self.peak {
                    live
                } else {
                    self.peak
                },
                ..self
            }
        }
    }

    /// The account after memory was freed. The peak stays.
    pub open spec fn freed(self, size: usize) -> Self {
        if self.depth == 0 {
            self
        } else {
            ThreadAccount {
                live: if size <= self.live {
                    (self.live - size) as u64
                } else {
                    0
                },
                ..self
            }
        }
    }

    /// The account after memory changed its size: the difference counts.
    pub open spec fn resized(self, old_size: usize, new_size: usize) -> Self {
        if new_size >= old_size {
            self.allocated((new_size - old_size) as usize)
        } else {
            self.freed((old_size - new_size) as usize)
        }
    }

    /// The account of a thread that runs no attempt.
    #[must_use]
    pub fn new() -> (r: Self)
        ensures
            r == ThreadAccount::idle(),
            r.wf(),
    {
        ThreadAccount { live: 0, peak: 0, depth: 0 }
    }

    /// Attributes an allocation.
    pub fn on_alloc(&mut self, size: usize)
        ensures
            *final(self) == old(self).allocated(size),
            old(self).wf() ==> final(self).wf(),
    {
        if self.depth == 0 {
            return;
        }
        let live: u64 = self.live.saturating_add(size as u64);
        self.live = live;
        if live > self.peak {
            self.peak = live;
        }
    }

    /// Attributes that memory was freed.
    pub fn on_dealloc(&mut self, size: usize)
        ensures
            *final(self) == old(self).freed(size),
            old(self).wf() ==> final(self).wf(),
    {
        if self.depth == 0 {
            return;
        }
        self.live = self.live.saturating_sub(size as u64);
    }

    /// Attributes that memory changed its size.
    pub fn on_realloc(&mut self, old_size: usize, new_size: usize)
        ensures
            *final(self) == old(self).resized(old_size, new_size),
            old(self).wf() ==> final(self).wf(),
    {
        if new_size >= old_size {
            self.on_alloc(new_size - old_size);
        } else {
            self.on_dealloc(old_size - new_size);
        }
    }
}

/// Attributes allocations to attempts, and counts what the process holds in all.
#[derive(Debug, Clone, Copy, PartialEq, Eq, Structural)]
pub struct AttributingAllocator {
    process_live: u64,
}

impl View for AttributingAllocator {
    type V = u64;

    closed spec fn view(&self) -> u64 {
        self.process_live
    }
}

impl Default for AttributingAllocator {
    fn default() -> (r: Self)
        ensures
            r@ == 0,
    {
        AttributingAllocator::new()
    }
}

impl AttributingAllocator {
    /// Nothing was allocated yet.
    #[must_use]
    pub fn new() -> (r: Self)
        ensures
            r@ == 0,
    {
        AttributingAllocator { process_live: 0 }
    }

    /// Opens a scope of an attempt on a thread.
    #[must_use]
    pub fn enter_attempt(account: &mut ThreadAccount) -> (r: AttemptScope)
        requires
            old(account).depth < u32::MAX,
        ensures
            *final(account) == old(account).entered(),
            old(account).wf() ==> final(account).wf(),
    {
        if account.depth == 0 {
            account.live = 0;
            account.peak = 0;
            account.depth = 1;
        } else {
            account.depth = account.depth + 1;
        }
        AttemptScope { open: () }
    }

    /// The most bytes that the attempt on a thread held at once.
    #[must_use]
    pub fn attempt_peak_bytes(account: &ThreadAccount) -> (r: u64)
        ensures
            r == account.peak,
    {
        account.peak
    }

    /// The bytes that the attempt on a thread holds.
    #[must_use]
    pub fn attempt_live_bytes(account: &ThreadAccount) -> (r: u64)
        ensures
            r == account.live,
    {
        account.live
    }

    /// The bytes that the process holds.
    #[must_use]
    pub fn process_live_bytes(&self) -> (r: u64)
        ensures
            r == self@,
    {
        self.process_live
    }

    /// Counts an allocation on a thread, for the process and for the thread's attempt.
    pub fn on_alloc(&mut self, account: &mut ThreadAccount, size: usize)
        ensures
            final(self)@ == old(self)@.wrapping_add(size as u64),
            *final(account) == old(account).allocated(size),
            old(account).wf() ==> final(account).wf(),
    {
        self.process_live = self.process_live.wrapping_add(size as u64);
        account.on_alloc(size);
    }

    /// Counts memory that was freed on a thread, for the process and for the thread's
    /// attempt.
    pub fn on_dealloc(&mut self, account: &mut ThreadAccount, size: usize)
        ensures
            final(self)@ == old(self)@.wrapping_sub(size as u64),
            *final(account) == old(account).freed(size),
            old(account).wf() ==> final(account).wf(),
    {
        self.process_live = self.process_live.wrapping_sub(size as u64);
        account.on_dealloc(size);
    }

    /// Counts memory that changed its size on a thread, for the process and for the
    /// thread's attempt.
    pub fn on_realloc(&mut self, account: &mut ThreadAccount, old_size: usize, new_size: usize)
        ensures
            final(self)@ == (if new_size >= old_size {
                old(self)@.wrapping_add((new_size - old_size) as u64)
            } else {
                old(self)@.wrapping_sub((old_size - new_size) as u64)
            }),
            *final(account) == old(account).resized(old_size, new_size),
            old(account).wf() ==> final(account).wf(),
    {
        if new_size >= old_size {
            self.on_alloc(account, new_size - old_size);
        } else {
            self.on_dealloc(account, old_size - new_size);
        }
    }
}

/// An open scope of an attempt.
#[derive(Debug)]
#[must_use]
pub struct AttemptScope {
    open: (),
}

impl AttemptScope {
    /// Closes the scope.
    pub fn leave(self, account: &mut ThreadAccount)
        ensures
            *final(account) == old(account).left(),
            old(account).wf() ==> final(account).wf(),
    {
        if account.depth <= 1 {
            account.live = 0;
            account.peak = 0;
            account.depth = 0;
        } else {
            account.depth = account.depth - 1;
        }
    }
}

} // verus!
