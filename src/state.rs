//! The cache refresh policy: when the cached template repositories are
//! stale and must be refreshed before they are indexed.

use vstd::prelude::*;
use crate::config::Operation;
use crate::errors;

verus! {

/// Seconds in a day.
pub const SECONDS_IN_DAY: u64 = 86400;

/// The age, in seconds, past which the cached repositories are stale: seven
/// days.
pub const REPO_UPDATE_LIMIT: u64 = SECONDS_IN_DAY * 7;

/// A point in time: seconds and nanoseconds since the Unix epoch.
#[derive(Debug, Clone, Copy, PartialEq, Eq, Structural)]
pub struct Timestamp {
    pub secs: u64,
    pub nanos: u32,
}

impl Timestamp {
    /// The time in nanoseconds since the epoch.
    pub open spec fn total(&self) -> int {
        self.secs * 1_000_000_000 + self.nanos
    }
}

/// Whether repositories last refreshed at `last_update` are stale at `now`:
/// more than the update limit has passed, or no time at all, which marks a
/// cache that was never refreshed.
pub open spec fn stale(last_update: Timestamp, now: Timestamp) -> bool {
    now.total() - last_update.total() > REPO_UPDATE_LIMIT * 1_000_000_000 || now.total()
        == last_update.total()
}

fn total_nanos(t: &Timestamp) -> (r: u128)
    ensures
        r == t.total(),
{
    t.secs as u128 * 1_000_000_000u128 + t.nanos as u128
}

/// Checks whether repositories last refreshed at `last_update` are stale at
/// `now`. Fails when `now` precedes `last_update`.
pub fn check_staleness(last_update: &Timestamp, now: &Timestamp) -> (r: Result<bool, errors::Error>)
    ensures
        match r {
            Ok(is_stale) => now.total() >= last_update.total() && is_stale == stale(*last_update, *now),
            Err(e) => now.total() < last_update.total() && e.kind_of() == errors::ErrorKind::ClockSkew,
        },
{
    let last = total_nanos(last_update);
    let current = total_nanos(now);
    if current < last {
        return Err(errors::Error::from_kind(errors::ErrorKind::ClockSkew));
    }
    let limit: u128 = REPO_UPDATE_LIMIT as u128 * 1_000_000_000u128;
    Ok(current - last > limit || current == last)
}

/// What persists between runs: when the repositories were last refreshed,
/// and the file this is kept in.
#[derive(Debug, Clone)]
pub struct State {
    state_path: String,
    pub last_update: Timestamp,
}

impl State {
    /// When the repositories were last refreshed.
    pub closed spec fn refreshed_at(&self) -> Timestamp {
        self.last_update
    }

    /// The file this state is kept in.
    pub closed spec fn path_view(&self) -> Seq<char> {
        self.state_path@
    }

    /// A state last refreshed one second before `now`, kept in no file yet.
    pub fn new(now: &Timestamp) -> (r: State)
        requires
            now.secs >= 1,
        ensures
            r.refreshed_at() == (Timestamp { secs: (now.secs - 1) as u64, nanos: now.nanos }),
            r.path_view().len() == 0,
    {
        State { state_path: String::new(), last_update: Timestamp { secs: now.secs - 1, nanos: now.nanos } }
    }

    /// A state last refreshed at `last_update`, kept in the file `path`.
    pub fn at_path(path: String, last_update: Timestamp) -> (r: State)
        ensures
            r.refreshed_at() == last_update,
            r.path_view() == path@,
    {
        State { state_path: path, last_update }
    }

    /// The file this state is kept in.
    pub fn path(&self) -> (r: &String)
        ensures
            r@ == self.path_view(),
    {
        &self.state_path
    }

    /// Checks whether the repositories are stale at `now`. Fails when `now`
    /// precedes the last refresh.
    pub fn check_staleness(&self, now: &Timestamp) -> (r: Result<bool, errors::Error>)
        ensures
            match r {
                Ok(is_stale) => now.total() >= self.refreshed_at().total() && is_stale == stale(
                    self.refreshed_at(),
                    *now,
                ),
                Err(e) => now.total() < self.refreshed_at().total() && e.kind_of()
                    == errors::ErrorKind::ClockSkew,
            },
    {
        check_staleness(&self.last_update, now)
    }

    /// Whether the repositories must be refreshed before `operation` runs at
    /// `now`: they are stale, or the user asked for the refresh. Fails when
    /// `now` precedes the last refresh.
    pub fn refresh_due(&self, now: &Timestamp, operation: Operation) -> (r: Result<bool, errors::Error>)
        ensures
            match r {
                Ok(due) => now.total() >= self.refreshed_at().total() && due == (stale(
                    self.refreshed_at(),
                    *now,
                ) || operation == Operation::UpdateRepositories),
                Err(e) => now.total() < self.refreshed_at().total() && e.kind_of()
                    == errors::ErrorKind::ClockSkew,
            },
    {
        let is_stale = match check_staleness(&self.last_update, now) {
            Ok(b) => b,
            Err(e) => {
                return Err(e);
            },
        };
        let forced = match operation {
            Operation::UpdateRepositories => true,
            _ => false,
        };
        Ok(is_stale || forced)
    }

    /// Records that a refresh of the repositories ended at `now`, whatever
    /// each repository's outcome.
    pub fn mark_refreshed(&mut self, now: Timestamp)
        ensures
            final(self).refreshed_at() == now,
            final(self).path_view() == old(self).path_view(),
    {
        self.last_update = now;
    }
}

} // verus!
