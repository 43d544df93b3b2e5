//! Reading and writing whole buffers on a non-blocking socket.
//!
//! The system calls are made elsewhere. What is decided here is what to do
//! after each of them.

use vstd::prelude::*;

verus! {

/// How a system call ended.
#[derive(Clone, Copy, Debug, PartialEq, Eq, Structural)]
pub enum CallOutcome {
    /// The socket is not ready.
    WouldBlock,
    /// A signal came in between.
    Interrupted,
    /// It failed.
    Failed,
    /// This many bytes were transferred.
    Count(usize),
}

/// What to do after a system call.
#[derive(Clone, Copy, Debug, PartialEq, Eq, Structural)]
pub enum IoNext {
    /// Wait until the socket is ready anew.
    WaitAnew,
    /// Make the call again.
    Again,
    /// Fail with the call's error.
    Fail,
    /// Fail because the peer has closed the connection.
    EndOfStream,
    /// All bytes are there.
    Done,
}

/// What to do after looking at, without taking, what should be `wanted` bytes.
pub open spec fn peek_next(wanted: usize, outcome: CallOutcome) -> IoNext {
    match outcome {
        CallOutcome::WouldBlock => IoNext::WaitAnew,
        CallOutcome::Interrupted => IoNext::Again,
        CallOutcome::Failed => IoNext::Fail,
        CallOutcome::Count(n) => if n == 0 {
            IoNext::EndOfStream
        } else if n < wanted {
            IoNext::WaitAnew
        } else {
            IoNext::Done
        },
    }
}

/// Decides what to do after looking at what should be `wanted` bytes.
pub fn after_peek(wanted: usize, outcome: CallOutcome) -> (r: IoNext)
    ensures
        r == peek_next(wanted, outcome),
{
    match outcome {
        CallOutcome::WouldBlock => IoNext::WaitAnew,
        CallOutcome::Interrupted => IoNext::Again,
        CallOutcome::Failed => IoNext::Fail,
        CallOutcome::Count(n) => if n == 0 {
            IoNext::EndOfStream
        } else if n < wanted {
            IoNext::WaitAnew
        } else {
            IoNext::Done
        },
    }
}

/// Which way bytes go.
#[derive(Clone, Copy, Debug, PartialEq, Eq, Structural)]
pub enum Direction {
    Receive,
    Send,
}

/// A buffer that is transferred as a whole.
#[derive(Clone, Copy, Debug, PartialEq, Eq, Structural)]
pub struct Transfer {
    pub direction: Direction,
    pub len: usize,
    /// How many of the bytes are through.
    pub done: usize,
}

/// Where a transfer is after a call, and what to do next. Receiving nothing
/// means that the peer has closed the connection; sending nothing does not.
pub open spec fn transfer_after(t: Transfer, outcome: CallOutcome) -> (Transfer, IoNext) {
    match outcome {
        CallOutcome::WouldBlock => (t, IoNext::WaitAnew),
        CallOutcome::Interrupted => (t, IoNext::Again),
        CallOutcome::Failed => (t, IoNext::Fail),
        CallOutcome::Count(n) => if n == 0 && t.direction == Direction::Receive {
            (t, IoNext::EndOfStream)
        } else {
            let next = Transfer { done: (t.done + n) as usize, ..t };
            (
                next,
                if next.done < t.len {
                    IoNext::Again
                } else {
                    IoNext::Done
                },
            )
        },
    }
}

/// What to do at the start of a transfer: nothing for an empty buffer.
pub open spec fn start_next(t: Transfer) -> IoNext {
    if t.done < t.len {
        IoNext::Again
    } else {
        IoNext::Done
    }
}

/// Whether a call for the bytes that are left may end like this.
pub open spec fn may_end(t: Transfer, outcome: CallOutcome) -> bool {
    outcome matches CallOutcome::Count(n) ==> n <= t.len - t.done
}

impl Transfer {
    /// Whether no more than the whole buffer is through.
    pub open spec fn wf(self) -> bool {
        self.done <= self.len
    }

    /// A transfer that has not started.
    pub fn new(direction: Direction, len: usize) -> (r: Transfer)
        ensures
            r == (Transfer { direction, len, done: 0 }),
            r.wf(),
    {
        Transfer { direction, len, done: 0 }
    }

    /// What to do at the start: nothing for an empty buffer.
    pub fn start(&self) -> (r: IoNext)
        ensures
            r == start_next(*self),
    {
        if self.done < self.len {
            IoNext::Again
        } else {
            IoNext::Done
        }
    }

    /// Goes on after a call for the bytes that are left.
    pub fn after(&mut self, outcome: CallOutcome) -> (r: IoNext)
        requires
            old(self).wf(),
            may_end(*old(self), outcome),
        ensures
            (*final(self), r) == transfer_after(*old(self), outcome),
            final(self).wf(),
    {
        match outcome {
            CallOutcome::WouldBlock => IoNext::WaitAnew,
            CallOutcome::Interrupted => IoNext::Again,
            CallOutcome::Failed => IoNext::Fail,
            CallOutcome::Count(n) => {
                if n == 0 && self.direction == Direction::Receive {
                    return IoNext::EndOfStream;
                }
                self.done = self.done + n;
                if self.done < self.len {
                    IoNext::Again
                } else {
                    IoNext::Done
                }
            },
        }
    }
}

/// Where a transfer comes to from its start through calls that end like this,
/// and what is to be done after the last of them; `None` where no more call was
/// to be made, or a call cannot have ended like this.
pub open spec fn transfer_run(t: Transfer, outcomes: Seq<CallOutcome>) -> Option<(Transfer, IoNext)>
    decreases outcomes.len(),
{
    if outcomes.len() == 0 {
        Some((t, start_next(t)))
    } else {
        match transfer_run(t, outcomes.drop_last()) {
            None => None,
            Some((last, next)) => if goes_on(next) && may_end(last, outcomes.last()) {
                Some(transfer_after(last, outcomes.last()))
            } else {
                None
            },
        }
    }
}

/// Whether another call is to be made.
pub open spec fn goes_on(next: IoNext) -> bool {
    next == IoNext::Again || next == IoNext::WaitAnew
}

/// How many bytes were transferred in calls that ended like this.
pub open spec fn transferred(outcomes: Seq<CallOutcome>) -> nat
    decreases outcomes.len(),
{
    if outcomes.len() == 0 {
        0
    } else {
        transferred(outcomes.drop_last()) + match outcomes.last() {
            CallOutcome::Count(n) => n as nat,
            _ => 0,
        }
    }
}

/// Through any calls, what is through of a transfer is the sum of what the calls
/// transferred, and the transfer is done exactly when that is the whole buffer.
pub proof fn lemma_done_means_whole(t: Transfer, outcomes: Seq<CallOutcome>)
    requires
        t.done == 0,
    ensures
        transfer_run(t, outcomes) matches Some((end, next)) ==> {
            &&& end == (Transfer { done: end.done, ..t })
            &&& end.done == transferred(outcomes) <= t.len
            &&& next == IoNext::Done <==> end.done == t.len
        },
    decreases outcomes.len(),
{
    if outcomes.len() > 0 {
        lemma_done_means_whole(t, outcomes.drop_last());
    }
}

/// Where a call was not made in full, it is made again after a signal, and after
/// a wait where the socket is not ready; where it failed, so does the transfer.
/// None of them changes how much is through. Receiving nothing ends the stream;
/// sending nothing is tried again.
pub proof fn lemma_what_comes_after_a_call(t: Transfer, n: usize)
    requires
        t.done < t.len,
        n <= t.len - t.done,
    ensures
        transfer_after(t, CallOutcome::WouldBlock) == (t, IoNext::WaitAnew),
        transfer_after(t, CallOutcome::Interrupted) == (t, IoNext::Again),
        transfer_after(t, CallOutcome::Failed) == (t, IoNext::Fail),
        t.direction == Direction::Receive ==> transfer_after(t, CallOutcome::Count(0)) == (
            t,
            IoNext::EndOfStream,
        ),
        t.direction == Direction::Send ==> transfer_after(t, CallOutcome::Count(0)) == (
            t,
            IoNext::Again,
        ),
        n > 0 ==> ({
            let (next, what) = transfer_after(t, CallOutcome::Count(n));
            &&& next.done == t.done + n
            &&& next.len == t.len
            &&& next.direction == t.direction
            &&& what == (if t.done + n == t.len {
                IoNext::Done
            } else {
                IoNext::Again
            })
        }),
{
}

/// Looking at bytes without taking them is done only once all of them are there.
/// Until then the socket is waited for, the call made again after a signal, and
/// the end of the stream or a failure reported.
pub proof fn lemma_peeking_waits_for_all(wanted: usize, n: usize)
    ensures
        peek_next(wanted, CallOutcome::WouldBlock) == IoNext::WaitAnew,
        peek_next(wanted, CallOutcome::Interrupted) == IoNext::Again,
        peek_next(wanted, CallOutcome::Failed) == IoNext::Fail,
        peek_next(wanted, CallOutcome::Count(0)) == IoNext::EndOfStream,
        n > 0 && n >= wanted ==> peek_next(wanted, CallOutcome::Count(n)) == IoNext::Done,
        0 < n < wanted ==> peek_next(wanted, CallOutcome::Count(n)) == IoNext::WaitAnew,
{
}

} // verus!
