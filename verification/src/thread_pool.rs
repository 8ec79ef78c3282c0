//! The worker pool's decisions: its configuration check and the shared job
//! queue that feeds the workers.
//!
//! The threads themselves, and the blocking wait on an empty queue, live
//! with the caller; here is what they rely on: the queue hands jobs out
//! first in, first out, a message is either a job or the signal to exit,
//! and teardown enqueues exactly one signal per worker, after every job,
//! so no job is abandoned and every worker stops.

use vstd::prelude::*;
use crate::error::KvsError;

verus! {

/// What the pool hands a worker: a job to run, or the signal to exit its
/// loop.
pub enum PoolMessage<T> {
    NewJob(T),
    Terminate,
}

/// The pool's shared, unbounded job queue: messages leave in the order they
/// entered.
pub struct JobQueue<T> {
    jobs: Vec<PoolMessage<T>>,
}

impl<T> View for JobQueue<T> {
    type V = Seq<PoolMessage<T>>;

    closed spec fn view(&self) -> Seq<PoolMessage<T>> {
        self.jobs@
    }
}

impl<T> JobQueue<T> {
    /// An empty queue.
    pub fn new() -> (q: JobQueue<T>)
        ensures
            q@ == Seq::<PoolMessage<T>>::empty(),
    {
        let q = JobQueue { jobs: Vec::new() };
        proof {
            assert(q@ =~= Seq::<PoolMessage<T>>::empty());
        }
        q
    }

    /// How many messages wait.
    pub fn len(&self) -> (n: usize)
        ensures
            n == self@.len(),
    {
        self.jobs.len()
    }

    /// Submission: appends a message at the back and never blocks.
    pub fn enqueue(&mut self, m: PoolMessage<T>)
        ensures
            final(self)@ == old(self)@.push(m),
    {
        self.jobs.push(m);
    }

    /// Hands out the oldest message, or nothing when the queue is empty.
    pub fn dequeue(&mut self) -> (r: Option<PoolMessage<T>>)
        ensures
            old(self)@.len() == 0 ==> r is None && final(self)@ == old(self)@,
            old(self)@.len() > 0 ==> r == Some(old(self)@[0]) && final(self)@ == old(
                self,
            )@.drop_first(),
    {
        if self.jobs.len() == 0 {
            return None;
        }
        let m = self.jobs.remove(0);
        proof {
            assert(self.jobs@ =~= old(self)@.drop_first());
        }
        Some(m)
    }

    /// Teardown: enqueues one termination signal per worker, behind every
    /// job already submitted, so each worker finishes its work and then
    /// stops.
    pub fn enqueue_termination_signals(&mut self, workers: usize)
        ensures
            final(self)@ == old(self)@ + Seq::new(
                workers as nat,
                |i: int| PoolMessage::<T>::Terminate,
            ),
    {
        let mut sent: usize = 0;
        proof {
            assert(self@ =~= self@ + Seq::new(0, |i: int| PoolMessage::<T>::Terminate));
        }
        while sent < workers
            invariant
                sent <= workers,
                self@ == old(self)@ + Seq::new(sent as nat, |i: int| PoolMessage::<T>::Terminate),
            decreases workers - sent,
        {
            self.jobs.push(PoolMessage::Terminate);
            sent = sent + 1;
            proof {
                assert(self@ =~= old(self)@ + Seq::new(
                    sent as nat,
                    |i: int| PoolMessage::<T>::Terminate,
                ));
            }
        }
    }
}

/// Checks a requested pool size: a pool needs at least one worker thread.
pub fn validate_pool_size(threads: u32) -> (r: Result<u32, KvsError>)
    ensures
        threads >= 1 ==> r == Ok::<u32, KvsError>(threads),
        threads == 0 ==> r == Err::<u32, KvsError>(KvsError::ThreadPoolError),
{
    if threads == 0 {
        Err(KvsError::ThreadPoolError)
    } else {
        Ok(threads)
    }
}

} // verus!
