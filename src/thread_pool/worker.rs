//! What a worker does with each message it takes from the queue.
use vstd::prelude::*;

verus! {

/// Message the worker thread can process
pub enum Message<J> {
    /// Instructs the worker to stop the thread
    Quit,
    /// Instructs the worker to execute the given job
    Execute(J),
}

/// The two states of a worker; `Stopped` is final.
#[derive(Clone, Copy, Debug, PartialEq, Eq, Structural)]
pub enum WorkerState {
    Running,
    Stopped,
}

/// What a worker does next.
pub enum Action<J> {
    /// Run the job to completion on the worker's own thread, then receive again.
    Run(J),
    /// Leave the receive loop; the thread ends and can be joined.
    Exit,
    /// The queue closed before this worker was told to quit: the pool was torn
    /// down out of order, and the worker's thread must fail.
    Fail,
}

/// The action for the outcome of a receive: `None` when the queue has closed.
pub open spec fn action_of<J>(received: Option<Message<J>>) -> Action<J> {
    match received {
        Some(Message::Execute(job)) => Action::Run(job),
        Some(Message::Quit) => Action::Exit,
        None => Action::Fail,
    }
}

/// The state a running worker is in after taking an action.
pub open spec fn state_after<J>(action: Action<J>) -> WorkerState {
    match action {
        Action::Run(_) => WorkerState::Running,
        _ => WorkerState::Stopped,
    }
}

/// Decides what a running worker does with the outcome of a receive.
pub fn on_receive<J>(received: Option<Message<J>>) -> (r: Action<J>)
    ensures
        r == action_of(received),
{
    match received {
        Some(Message::Execute(job)) => Action::Run(job),
        Some(Message::Quit) => Action::Exit,
        None => Action::Fail,
    }
}

} // verus!
