//! What the migration worker does next.
//!
//! The worker waits for a chain head, then runs pass after pass until it is told to
//! stop. Sleeping, reading the signals and writing the log are left to whoever drives it.

use crate::api::StoreError;
use vstd::prelude::*;

verus! {

/// How long to wait, in milliseconds, before looking for a head again.
pub const HEAD_POLL_MILLIS: u64 = 5_000;

/// How long to rest, in milliseconds, after a pass that found nothing to move.
pub const IDLE_MILLIS: u64 = 30_000;

/// How long to yield, in milliseconds, after a pass that moved blocks.
pub const YIELD_MILLIS: u64 = 100;

/// How long to back off, in milliseconds, after a pass that failed.
pub const FAILURE_MILLIS: u64 = 60_000;

/// What the worker is about.
#[derive(Clone, Copy, Debug, PartialEq, Eq, Structural)]
pub enum Phase {
    /// No head is known yet.
    AwaitingHead,
    /// A head has been seen.
    Migrating,
}

/// What the worker does next.
#[derive(Clone, Copy, Debug, PartialEq, Eq, Structural)]
pub enum Action {
    /// Ends.
    Stop,
    /// Looks at the signals again at once.
    Look,
    /// Looks at the signals again after so many milliseconds.
    Sleep(u64),
    /// Runs a pass.
    RunPass,
}

/// What there is to say about a pass.
#[derive(Debug, PartialEq, Eq)]
pub enum Report {
    /// There was nothing to move.
    Idle,
    /// Blocks were moved, up to and without `cursor`; so many remain below the cutoff.
    Migrated { blocks: u64, cursor: u64, cutoff: u64, remaining: u64 },
    /// The pass failed.
    Failed(StoreError),
}

/// Decides from the signals what the worker does next. A raised shutdown ends it at
/// once, whatever else holds, and no pass is run before a head is known.
pub fn next_action(phase: Phase, shutdown: bool, head: u64) -> (r: (Phase, Action))
    ensures
        shutdown ==> r == (phase, Action::Stop),
        !shutdown && phase is Migrating ==> r == (Phase::Migrating, Action::RunPass),
        !shutdown && phase is AwaitingHead && head > 0 ==> r == (Phase::Migrating, Action::Look),
        !shutdown && phase is AwaitingHead && head == 0 ==> r == (
            Phase::AwaitingHead,
            Action::Sleep(HEAD_POLL_MILLIS),
        ),
{
    if shutdown {
        return (phase, Action::Stop);
    }
    match phase {
        Phase::AwaitingHead => if head > 0 {
            (Phase::Migrating, Action::Look)
        } else {
            (Phase::AwaitingHead, Action::Sleep(HEAD_POLL_MILLIS))
        },
        Phase::Migrating => (Phase::Migrating, Action::RunPass),
    }
}

/// Decides what to say about a pass, and how long to sleep after it.
pub fn after_pass(result: Result<(u64, u64, u64), StoreError>) -> (r: (Report, u64))
    ensures
        match result {
            Ok((migrated, cursor, cutoff)) => if migrated == 0 {
                r == (Report::Idle, IDLE_MILLIS)
            } else {
                r == (
                    Report::Migrated {
                        blocks: migrated,
                        cursor,
                        cutoff,
                        remaining: if cursor < cutoff {
                            (cutoff - cursor) as u64
                        } else {
                            0
                        },
                    },
                    YIELD_MILLIS,
                )
            },
            Err(e) => r == (Report::Failed(e), FAILURE_MILLIS),
        },
{
    match result {
        Ok((migrated, cursor, cutoff)) => if migrated == 0 {
            (Report::Idle, IDLE_MILLIS)
        } else {
            let remaining: u64 = if cursor < cutoff {
                cutoff - cursor
            } else {
                0
            };
            (Report::Migrated { blocks: migrated, cursor, cutoff, remaining }, YIELD_MILLIS)
        },
        Err(e) => (Report::Failed(e), FAILURE_MILLIS),
    }
}

} // verus!
