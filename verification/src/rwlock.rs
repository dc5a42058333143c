//! The reader-writer lock that guards a mapped view.
//!
//! The lock is a single `i32` word stored at the start of the segment:
//!
//! | Value | Meaning |
//! |-------|---------|
//! | `> 0` | that many readers hold the read lock |
//! | `0`   | the lock is free |
//! | `-1`  | one writer holds the write lock |
//!
//! [`ShmRwLock`] holds one observed value of that word and computes the
//! word that each lock operation leaves behind. Whoever shares the word
//! publishes the new value with an atomic compare-and-swap and, when an
//! acquisition is refused, observes the word again and retries.
use vstd::prelude::*;

verus! {

/// Size in bytes of the lock header at the start of a mapped segment.
pub const RWLOCK_SIZE: usize = 4;

/// The word that a lock holds when nobody holds it.
pub open spec fn free_word() -> i32 {
    0
}

/// The word of a lock held by one writer.
pub open spec fn write_locked_word() -> i32 {
    -1i32
}

/// A lock word that the encoding gives a meaning to: a reader count, zero,
/// or the writer mark.
pub open spec fn valid_word(w: i32) -> bool {
    w >= -1
}

/// The number of readers that the word records.
pub open spec fn readers_of(w: i32) -> i32 {
    if w > 0 { w } else { 0 }
}

/// The word after a read acquisition, or `None` where the acquisition has
/// to wait (a writer holds the lock).
pub open spec fn after_read_lock(w: i32) -> Option<i32> {
    if w >= 0 { Some((w + 1) as i32) } else { None }
}

/// The word after a read release: the reader count decremented, wrapping
/// as an atomic subtraction does.
pub open spec fn after_read_unlock(w: i32) -> i32 {
    if w == i32::MIN { i32::MAX } else { (w - 1) as i32 }
}

/// The word after a write acquisition, or `None` where it has to wait.
pub open spec fn after_write_lock(w: i32) -> Option<i32> {
    if w == 0 { Some(-1i32) } else { None }
}

/// One observed value of a cross-process reader-writer lock word.
#[derive(Debug)]
pub struct ShmRwLock {
    /// The lock word.
    pub state: i32,
}

impl ShmRwLock {
    /// Wraps an observed lock word.
    pub fn from_word(state: i32) -> (l: ShmRwLock)
        ensures
            l.state == state,
    {
        ShmRwLock { state }
    }

    /// The lock word.
    pub fn word(&self) -> (w: i32)
        ensures
            w == self.state,
    {
        self.state
    }

    /// Initialises the word to the unlocked state.
    ///
    /// Done once by the process that created the segment, before any reader
    /// or writer uses the lock.
    pub fn init(&mut self)
        ensures
            final(self).state == free_word(),
    {
        self.state = 0;
    }

    /// Tries to take a read hold: succeeds, incrementing the reader count,
    /// exactly when no writer holds the lock. On failure the word is left
    /// as it was and the caller retries on a fresh observation.
    pub fn read_lock(&mut self) -> (acquired: bool)
        requires
            old(self).state < i32::MAX,
        ensures
            acquired == after_read_lock(old(self).state) is Some,
            acquired ==> Some(final(self).state) == after_read_lock(old(self).state),
            !acquired ==> final(self).state == old(self).state,
    {
        if self.state >= 0 {
            self.state = self.state + 1;
            true
        } else {
            false
        }
    }

    /// Releases a read hold by decrementing the reader count.
    pub fn read_unlock(&mut self)
        ensures
            final(self).state == after_read_unlock(old(self).state),
    {
        self.state = self.state.wrapping_sub(1);
    }

    /// Tries to take the write hold: succeeds exactly when the lock is free
    /// (no reader and no writer), leaving the writer mark.
    pub fn write_lock(&mut self) -> (acquired: bool)
        ensures
            acquired == after_write_lock(old(self).state) is Some,
            acquired ==> Some(final(self).state) == after_write_lock(old(self).state),
            !acquired ==> final(self).state == old(self).state,
    {
        if self.state == 0 {
            self.state = -1;
            true
        } else {
            false
        }
    }

    /// Releases the write hold by resetting the word to the unlocked state.
    pub fn write_unlock(&mut self)
        ensures
            final(self).state == free_word(),
    {
        self.state = 0;
    }

    /// The number of readers holding the lock, or `0` if a writer holds it.
    pub fn reader_count(&self) -> (n: i32)
        ensures
            n == readers_of(self.state),
    {
        if self.state > 0 {
            self.state
        } else {
            0
        }
    }

    /// Whether a writer holds the lock.
    pub fn is_write_locked(&self) -> (b: bool)
        ensures
            b == (self.state == write_locked_word()),
    {
        self.state == -1
    }
}

/// A read hold, taken where no writer holds the lock, followed by its
/// release leaves the word as it was.
pub proof fn lemma_read_hold_released(w: i32)
    requires
        valid_word(w),
        w != write_locked_word(),
        w < i32::MAX,
    ensures
        after_read_lock(w) is Some,
        after_read_unlock(after_read_lock(w)->0) == w,
{
}

/// A write hold followed by its release leaves the lock free.
pub proof fn lemma_write_hold_released(w: i32)
    requires
        after_write_lock(w) is Some,
    ensures
        w == free_word(),
        after_write_lock(w)->0 == write_locked_word(),
{
}

/// Readers and a writer exclude each other: a write hold is granted only
/// on a free lock, a read hold never while a writer holds the lock, and a
/// word held by a writer records no reader.
pub proof fn lemma_mutual_exclusion(w: i32)
    requires
        valid_word(w),
    ensures
        after_write_lock(w) is Some <==> (readers_of(w) == 0 && w != write_locked_word()),
        after_read_lock(w) is Some <==> w != write_locked_word(),
        w == write_locked_word() ==> readers_of(w) == 0,
        readers_of(w) >= 0,
{
}

/// Every acquisition, and every release of a hold that is held, keeps the
/// word within the encoding.
pub proof fn lemma_valid_word_preserved(w: i32)
    requires
        valid_word(w),
    ensures
        w < i32::MAX && after_read_lock(w) is Some ==> valid_word(after_read_lock(w)->0)
            && readers_of(after_read_lock(w)->0) == readers_of(w) + 1,
        after_write_lock(w) is Some ==> valid_word(after_write_lock(w)->0),
        readers_of(w) > 0 ==> valid_word(after_read_unlock(w)) && readers_of(after_read_unlock(w))
            == readers_of(w) - 1,
        valid_word(free_word()),
{
}

/// Whether the word `w` records `readers` read holds and, where `writer`
/// holds, the one write hold: a held write lock is the writer mark with no
/// reader, otherwise the word is the reader count.
pub open spec fn in_step(w: i32, readers: nat, writer: bool) -> bool {
    if writer {
        w == write_locked_word() && readers == 0
    } else {
        w == readers
    }
}

/// One operation on the lock, by some process.
pub enum LockStep {
    ReadLock,
    ReadUnlock,
    WriteLock,
    WriteUnlock,
}

/// The word and the holders (read holds, write hold) after one step; an
/// acquisition that has to wait changes nothing. `None` for a release made
/// by no holder, and for a read acquisition on a word at its maximum.
pub open spec fn lock_step(s: (i32, nat, bool), step: LockStep) -> Option<(i32, nat, bool)> {
    let (w, readers, writer) = s;
    match step {
        LockStep::ReadLock => if w == i32::MAX {
            None
        } else {
            match after_read_lock(w) {
                Some(w2) => Some((w2, readers + 1, writer)),
                None => Some(s),
            }
        },
        LockStep::ReadUnlock => if readers > 0 {
            Some((after_read_unlock(w), (readers - 1) as nat, writer))
        } else {
            None
        },
        LockStep::WriteLock => match after_write_lock(w) {
            Some(w2) => Some((w2, readers, true)),
            None => Some(s),
        },
        LockStep::WriteUnlock => if writer {
            Some((free_word(), readers, false))
        } else {
            None
        },
    }
}

/// The word and the holders after `steps`, from a freshly initialised
/// lock, or `None` where some release is made by no holder.
pub open spec fn lock_run(steps: Seq<LockStep>) -> Option<(i32, nat, bool)>
    decreases steps.len(),
{
    if steps.len() == 0 {
        Some((free_word(), 0, false))
    } else {
        match lock_run(steps.drop_last()) {
            None => None,
            Some(s) => lock_step(s, steps.last()),
        }
    }
}

/// Each step keeps the word in step with the holders: from a word that
/// records the holders, every acquisition and every release by a holder
/// leads to a word that records the new holders.
pub proof fn lemma_step_keeps_in_step(w: i32, readers: nat, writer: bool, step: LockStep)
    requires
        in_step(w, readers, writer),
    ensures
        lock_step((w, readers, writer), step) matches Some((w2, r2, wr2)) ==> in_step(w2, r2, wr2),
{
}

/// In every state that the lock operations reach from [`ShmRwLock::init`],
/// releases made only by holders, the word is within the encoding, counts
/// exactly the read holds, and is the writer mark exactly while the write
/// hold is held, with no reader then.
pub proof fn lemma_lock_reachable(steps: Seq<LockStep>)
    ensures
        lock_run(steps) matches Some((w, readers, writer)) ==> {
            &&& in_step(w, readers, writer)
            &&& valid_word(w)
            &&& readers_of(w) == readers
            &&& (w == write_locked_word() <==> writer)
            &&& writer ==> readers == 0
        },
    decreases steps.len(),
{
    if steps.len() > 0 {
        lemma_lock_reachable(steps.drop_last());
        if let Some((w, r, wr)) = lock_run(steps.drop_last()) {
            lemma_step_keeps_in_step(w, r, wr, steps.last());
        }
    }
}

/// No read acquisition is lost: `k` read acquisitions from a freshly
/// initialised lock, each one atomic step on the word, in whatever order
/// the processes make them, leave the word at `k`, with `k` readers
/// holding the lock.
pub proof fn lemma_reads_counted(k: nat)
    requires
        k <= i32::MAX,
    ensures
        lock_run(Seq::new(k, |i: int| LockStep::ReadLock)) == Some((k as i32, k, false)),
    decreases k,
{
    let steps = Seq::new(k, |i: int| LockStep::ReadLock);
    if k > 0 {
        lemma_reads_counted((k - 1) as nat);
        assert(steps.drop_last() =~= Seq::new((k - 1) as nat, |i: int| LockStep::ReadLock));
    }
}

} // verus!
