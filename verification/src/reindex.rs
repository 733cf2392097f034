//! The decisions of the user-dictionary re-index worker. The worker sleeps
//! until a change to the user dictionary is signalled, reloads the
//! dictionaries off the async runtime, and publishes the result; a stop
//! request ends it. Wake-ups that arrive during a reload are coalesced by the
//! signal into one follow-up run, so the worker only decides what to do at
//! each of its two waiting points.

use vstd::prelude::*;

verus! {

/// What the worker has just waited for.
#[derive(Debug, Clone, Copy, PartialEq, Eq, Structural)]
pub enum WorkerEvent {
    /// A change to the user dictionary was signalled.
    Woken,
    /// A reload finished, successfully or not.
    Loaded { succeeded: bool },
}

/// What the worker does next.
#[derive(Debug, Clone, Copy, PartialEq, Eq, Structural)]
pub enum WorkerAction {
    /// Leave the loop without touching the store.
    Exit,
    /// Reload the dictionaries.
    Reload,
    /// Store the freshly built snapshot, then wait for the next change.
    Publish,
    /// Keep the previous snapshot, then wait for the next change.
    KeepPrevious,
}

/// The worker's decision. A stop request wins at both waiting points, so a
/// reload that finishes after the watcher was stopped is never published.
pub fn worker_action(stopped: bool, event: WorkerEvent) -> (a: WorkerAction)
    ensures
        stopped ==> a == WorkerAction::Exit,
        !stopped && event == WorkerEvent::Woken ==> a == WorkerAction::Reload,
        !stopped && event == (WorkerEvent::Loaded { succeeded: true }) ==> a == WorkerAction::Publish,
        !stopped && event == (WorkerEvent::Loaded { succeeded: false }) ==> a == WorkerAction::KeepPrevious,
{
    if stopped {
        return WorkerAction::Exit;
    }
    match event {
        WorkerEvent::Woken => WorkerAction::Reload,
        WorkerEvent::Loaded { succeeded } => if succeeded {
            WorkerAction::Publish
        } else {
            WorkerAction::KeepPrevious
        },
    }
}

} // verus!
