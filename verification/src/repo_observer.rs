//! The repository observer: it keeps running the update script and, each time
//! the script leaves a new commit id behind, hands the commit to the
//! dispatcher.

use vstd::prelude::*;
use crate::addr::SocketAddrV4;
use crate::common::Response;

verus! {

/// Where the observer finds the dispatcher and the repository it watches.
#[derive(Debug)]
pub struct RepoObserverConfig {
    pub socket: SocketAddrV4,
    pub repository_path: String,
}

/// What the observer learned from the last thing it did.
#[derive(Debug)]
pub enum ObserverEvent {
    /// The update script ran (`true`) or could not be started (`false`).
    ScriptRan(bool),
    /// Whether the script left a commit id file behind.
    CommitFile(bool),
    /// The dispatcher's answer to the status check.
    StatusAnswer(Response),
    /// The dispatcher's answer to the commit handed to it.
    DispatchAnswer(Response),
    /// The pause between two rounds is over.
    Woke,
}

/// What the observer does next.
#[derive(Debug, PartialEq, Eq, Structural)]
pub enum ObserverAction {
    /// Run the update script on the repository.
    RunScript,
    /// Look for the commit id file.
    CheckCommitFile,
    /// Ask the dispatcher whether it is up.
    CheckStatus,
    /// Hand the commit id found in the file to the dispatcher.
    DispatchCommit,
    /// Pause before the next round.
    Sleep,
    /// Stop the program with a failure.
    Exit,
}

/// One step of the observer: a script that cannot be started or a dispatcher
/// that reports an error stops it; a commit id file leads to a status check
/// and then to handing the commit over; every round ends with a pause, after
/// which the script runs again.
pub open spec fn next_action(event: ObserverEvent) -> ObserverAction {
    match event {
        ObserverEvent::ScriptRan(started) => if started {
            ObserverAction::CheckCommitFile
        } else {
            ObserverAction::Exit
        },
        ObserverEvent::CommitFile(exists) => if exists {
            ObserverAction::CheckStatus
        } else {
            ObserverAction::Sleep
        },
        ObserverEvent::StatusAnswer(answer) => if answer is Okay {
            ObserverAction::DispatchCommit
        } else {
            ObserverAction::Exit
        },
        ObserverEvent::DispatchAnswer(_) => ObserverAction::Sleep,
        ObserverEvent::Woke => ObserverAction::RunScript,
    }
}

/// The observer's decision after `event`.
pub fn observer_step(event: &ObserverEvent) -> (a: ObserverAction)
    ensures
        a == next_action(*event),
        a == ObserverAction::RunScript <==> *event is Woke,
        a == ObserverAction::CheckCommitFile <==> *event == ObserverEvent::ScriptRan(true),
        a == ObserverAction::CheckStatus <==> *event == ObserverEvent::CommitFile(true),
        a == ObserverAction::DispatchCommit <==> *event matches ObserverEvent::StatusAnswer(Response::Okay),
        a == ObserverAction::Sleep <==> (*event == ObserverEvent::CommitFile(false) || *event is DispatchAnswer),
        a == ObserverAction::Exit <==> (*event == ObserverEvent::ScriptRan(false)
            || *event matches ObserverEvent::StatusAnswer(Response::Error(_))),
{
    proof {
        lemma_observer_step_table(*event);
    }
    match event {
        ObserverEvent::ScriptRan(started) => if *started {
            ObserverAction::CheckCommitFile
        } else {
            ObserverAction::Exit
        },
        ObserverEvent::CommitFile(exists) => if *exists {
            ObserverAction::CheckStatus
        } else {
            ObserverAction::Sleep
        },
        ObserverEvent::StatusAnswer(answer) => match answer {
            Response::Okay => ObserverAction::DispatchCommit,
            Response::Error(_) => ObserverAction::Exit,
        },
        ObserverEvent::DispatchAnswer(_) => ObserverAction::Sleep,
        ObserverEvent::Woke => ObserverAction::RunScript,
    }
}

/// The observer's loop, event by event: after the pause the script runs;
/// after the script ran the commit file is looked for, and a script that
/// could not start stops the observer; a commit file leads to a status check
/// and its absence to the pause; an `Okay` status leads to handing the
/// commit over and an `Error` status stops the observer; whatever the
/// dispatcher answers to the hand-over, the observer pauses.
pub proof fn lemma_observer_step_table(event: ObserverEvent)
    ensures
        next_action(event) == ObserverAction::RunScript <==> event is Woke,
        next_action(event) == ObserverAction::CheckCommitFile <==> event == ObserverEvent::ScriptRan(true),
        next_action(event) == ObserverAction::CheckStatus <==> event == ObserverEvent::CommitFile(true),
        next_action(event) == ObserverAction::DispatchCommit <==> event matches ObserverEvent::StatusAnswer(
            Response::Okay,
        ),
        next_action(event) == ObserverAction::Sleep <==> (event == ObserverEvent::CommitFile(false)
            || event is DispatchAnswer),
        next_action(event) == ObserverAction::Exit <==> (event == ObserverEvent::ScriptRan(false)
            || event matches ObserverEvent::StatusAnswer(Response::Error(_))),
{
}

/// Whatever the dispatcher answers to a commit handed to it, the observer
/// pauses and then goes on with its next round.
pub proof fn lemma_pause_after_every_hand_over(answer: Response)
    ensures
        next_action(ObserverEvent::DispatchAnswer(answer)) == ObserverAction::Sleep,
        next_action(ObserverEvent::Woke) == ObserverAction::RunScript,
{
}

/// A commit is handed to the dispatcher only right after the dispatcher
/// answered a status check with `Okay`.
pub proof fn lemma_dispatch_only_after_okay_status(event: ObserverEvent)
    requires
        next_action(event) == ObserverAction::DispatchCommit,
    ensures
        event matches ObserverEvent::StatusAnswer(answer) && answer is Okay,
{
}

} // verus!
