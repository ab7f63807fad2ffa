//! The pool's side of the protocol: how many workers to start, and the order
//! of the shutdown handshake.
use vstd::prelude::*;

pub mod model;
pub mod worker;

verus! {

/// The number of workers a pool of the requested size starts: `None` when the
/// size is not positive, for a pool without workers could never run a job.
pub fn worker_count(size: i32) -> (r: Option<usize>)
    ensures
        r is Some <==> size > 0,
        r matches Some(n) ==> n == size,
{
    if size > 0 {
        Some(size as usize)
    } else {
        None
    }
}

/// One step of the shutdown handshake.
#[derive(Clone, Copy, Debug, PartialEq, Eq, Structural)]
pub enum ShutdownStep {
    /// Send one `Quit` message on the queue.
    SendQuit,
    /// Wait for the worker with this index (in order of creation) to end.
    Join(usize),
    /// Every worker has ended.
    Done,
}

/// The `k`-th step of the handshake for `n` workers: first one `Quit` per
/// worker, then a join of each worker in order of creation.
pub open spec fn shutdown_step(n: nat, k: nat) -> ShutdownStep {
    if k < n {
        ShutdownStep::SendQuit
    } else if k < 2 * n {
        ShutdownStep::Join((k - n) as usize)
    } else {
        ShutdownStep::Done
    }
}

/// Where a pool's shutdown handshake stands.
pub struct Shutdown {
    workers: usize,
    quits_sent: usize,
    joined: usize,
}

impl Shutdown {
    /// The number of workers being shut down.
    pub closed spec fn workers(&self) -> nat {
        self.workers as nat
    }

    /// The number of steps taken so far.
    pub closed spec fn taken(&self) -> nat {
        (self.quits_sent + self.joined) as nat
    }

    pub closed spec fn wf(&self) -> bool {
        &&& self.quits_sent <= self.workers
        &&& self.joined <= self.workers
        &&& self.joined > 0 ==> self.quits_sent == self.workers
    }

    /// A handshake for `workers` workers, with no step taken.
    pub fn new(workers: usize) -> (r: Shutdown)
        ensures
            r.wf(),
            r.workers() == workers,
            r.taken() == 0,
    {
        Shutdown { workers, quits_sent: 0, joined: 0 }
    }

    /// The next step to perform; after the last join it is `Done` for good.
    pub fn next_step(&mut self) -> (r: ShutdownStep)
        requires
            old(self).wf(),
        ensures
            final(self).wf(),
            r == shutdown_step(old(self).workers(), old(self).taken()),
            final(self).workers() == old(self).workers(),
            final(self).taken() == if r is Done {
                old(self).taken()
            } else {
                old(self).taken() + 1
            },
    {
        if self.quits_sent < self.workers {
            self.quits_sent = self.quits_sent + 1;
            ShutdownStep::SendQuit
        } else if self.joined < self.workers {
            let index = self.joined;
            self.joined = self.joined + 1;
            ShutdownStep::Join(index)
        } else {
            ShutdownStep::Done
        }
    }
}

} // verus!
