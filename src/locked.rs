//! Single-writer access to the local database: a database handle travels
//! together with the exclusive advisory lock on its lock file, which the
//! operating system releases when the holder closes it or dies.

use vstd::prelude::*;

verus! {

/// An exclusive or shared advisory lock on an open file, released on drop.
#[verifier::external_type_specification]
#[verifier::external_body]
pub struct ExFileLock(fs_lock::FileLock);

/// How to react when the lock is held by another process.
#[derive(Debug, Clone, Copy, PartialEq, Eq, Structural)]
pub enum LockMode {
    /// Wait until the other process releases it.
    Blocking,
    /// Give up at once.
    NonBlocking,
}

/// What follows a non-blocking attempt to take the lock.
#[derive(Debug, Clone, Copy, PartialEq, Eq, Structural)]
pub enum LockStep {
    /// The lock is held; open the database.
    Acquired,
    /// Signal that we are waiting, then wait for the lock.
    Wait,
    /// Fail with `LockError::LockBusy`.
    Busy,
}

/// Why the database could not be locked.
#[derive(Debug, Clone, Copy, PartialEq, Eq, Structural)]
pub enum LockError {
    /// Another process holds the lock and waiting was not wanted.
    LockBusy,
}

/// The step after one non-blocking attempt that did or did not take the
/// lock. The database is opened only once the lock is held.
pub fn after_try_lock(mode: LockMode, acquired: bool) -> (r: LockStep)
    ensures
        r == (if acquired {
            LockStep::Acquired
        } else if mode == LockMode::Blocking {
            LockStep::Wait
        } else {
            LockStep::Busy
        }),
{
    if acquired {
        LockStep::Acquired
    } else {
        match mode {
            LockMode::Blocking => LockStep::Wait,
            LockMode::NonBlocking => LockStep::Busy,
        }
    }
}

/// A database that may be used only while its lock file is held.
///
/// Build it with [`LockedBuilder`]; the lock lives as long as this value.
#[derive(Debug)]
pub struct Locked<DB> {
    inner: DB,
    #[allow(dead_code)]
    lock: fs_lock::FileLock,
}

/// Holds the lock until a database is given to wrap.
pub struct LockedBuilder {
    lock: fs_lock::FileLock,
}

impl LockedBuilder {
    /// Takes an exclusive lock already acquired on the lock file.
    pub fn new(lock: fs_lock::FileLock) -> (r: LockedBuilder) {
        LockedBuilder { lock }
    }

    /// Wraps `db`, which is then used under this builder's lock.
    pub fn with_db<DB>(self, db: DB) -> (r: Locked<DB>)
        ensures
            r.db_spec() == db,
    {
        Locked { inner: db, lock: self.lock }
    }
}

impl<DB> Locked<DB> {
    /// The wrapped database.
    pub closed spec fn db_spec(&self) -> DB {
        self.inner
    }

    /// The wrapped database; all its operations pass through unchanged.
    pub fn db(&self) -> (r: &DB)
        ensures
            *r == self.db_spec(),
    {
        &self.inner
    }

    /// Gives the database back, releasing the lock.
    pub fn into_inner(self) -> (r: DB)
        ensures
            r == self.db_spec(),
    {
        self.inner
    }
}

} // verus!
