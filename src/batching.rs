//! When a worker sends its alignment results on: in batches of a fixed size,
//! and with whatever is left once every pair of a work package has come in.
use vstd::prelude::*;

verus! {

/// Results held back, results received for the current work package, and the
/// number of pairs that package holds.
#[derive(Clone, Copy, PartialEq, Eq, Structural)]
pub struct BatchState {
    pub buffered: usize,
    pub received: usize,
    pub total: usize,
}

#[derive(Clone, Copy, PartialEq, Eq, Structural)]
pub enum BatchEvent {
    /// A new work package of this many pairs starts.
    NewPackage(usize),
    /// One alignment result comes in.
    ResultArrived,
}

#[derive(Clone, Copy, PartialEq, Eq, Structural)]
pub enum BatchAction {
    /// Keep the results buffered.
    Hold,
    /// Send every buffered result now.
    Send,
}

impl BatchState {
    pub fn new() -> (r: BatchState)
        ensures
            r == (BatchState { buffered: 0, received: 0, total: 0 }),
    {
        BatchState { buffered: 0, received: 0, total: 0 }
    }

    /// The state after `event`, and what to do with the buffer. A result is
    /// buffered; the buffer is sent when it holds `buffer_size` results or when
    /// the package's last result has come in. A new package restarts the count
    /// and keeps the buffer.
    pub fn step(self, event: BatchEvent, buffer_size: usize) -> (r: (BatchState, BatchAction))
        requires
            self.buffered < usize::MAX,
            self.received < usize::MAX,
        ensures
            match event {
                BatchEvent::NewPackage(total) => r == (
                    BatchState { buffered: self.buffered, received: 0, total },
                    BatchAction::Hold,
                ),
                BatchEvent::ResultArrived => {
                    let send = self.buffered + 1 >= buffer_size || self.received + 1 >= self.total;
                    &&& r.0.received == self.received + 1
                    &&& r.0.total == self.total
                    &&& r.0.buffered == if send { 0 } else { self.buffered + 1 }
                    &&& r.1 == if send { BatchAction::Send } else { BatchAction::Hold }
                },
            },
    {
        match event {
            BatchEvent::NewPackage(total) => (
                BatchState { buffered: self.buffered, received: 0, total },
                BatchAction::Hold,
            ),
            BatchEvent::ResultArrived => {
                let buffered = self.buffered + 1;
                let received = self.received + 1;
                if buffered >= buffer_size || received >= self.total {
                    (BatchState { buffered: 0, received, total: self.total }, BatchAction::Send)
                } else {
                    (BatchState { buffered, received, total: self.total }, BatchAction::Hold)
                }
            },
        }
    }
}

} // verus!
