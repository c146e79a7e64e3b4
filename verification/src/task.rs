//! A job that runs off the interface thread: its progress counters and the
//! channel on which its one result arrives.
use vstd::prelude::*;
use std::sync::atomic::AtomicUsize;
use std::sync::mpsc::{Receiver, TryRecvError};
use std::sync::Arc;

verus! {

#[verifier::external_type_specification]
#[verifier::external_body]
#[verifier::reject_recursive_types(T)]
pub struct ExReceiver<T>(std::sync::mpsc::Receiver<T>);

#[verifier::external_type_specification]
#[verifier::external_body]
pub struct ExTryRecvError(std::sync::mpsc::TryRecvError);

/// What a look at the channel finds: the job's result, nothing yet, or a
/// channel whose sender is gone.
pub enum Received<T> {
    Message(Result<T, String>),
    Empty,
    Closed(TryRecvError),
}

/// `Receiver::try_recv`, its outcome carried over variant for variant.
/// Trusted only to return: what it finds depends on the other thread.
#[verifier::external_body]
fn try_receive<T>(rx: &Receiver<Result<T, String>>) -> Received<T> {
    match rx.try_recv() {
        Ok(m) => Received::Message(m),
        Err(TryRecvError::Empty) => Received::Empty,
        Err(e) => Received::Closed(e),
    }
}

/// A background job: whether it runs, its progress and total counters
/// (shared with the job), and the channel its result comes on while one is
/// awaited.
#[verifier::reject_recursive_types(T)]
pub struct BackgroundTask<T> {
    pub is_running: bool,
    pub progress: Arc<AtomicUsize>,
    pub total_tasks: Arc<AtomicUsize>,
    rx: Option<Receiver<Result<T, String>>>,
}

impl<T> BackgroundTask<T> {
    /// The job runs.
    pub closed spec fn running(&self) -> bool {
        self.is_running
    }

    /// The shared progress and total counters.
    pub closed spec fn counters(&self) -> (Arc<AtomicUsize>, Arc<AtomicUsize>) {
        (self.progress, self.total_tasks)
    }

    /// A result is still awaited on a channel.
    pub closed spec fn awaiting(&self) -> bool {
        self.rx is Some
    }

    /// A job has been started: it runs, `total` tasks are announced, the
    /// progress is reset, and its result will come on `rx`.
    pub fn attach(&mut self, total: usize, rx: Receiver<Result<T, String>>)
        ensures
            final(self).running(),
            final(self).awaiting(),
            final(self).counters() == old(self).counters(),
    {
        self.is_running = true;
        self.total_tasks.store(total, std::sync::atomic::Ordering::Relaxed);
        self.progress.store(0, std::sync::atomic::Ordering::Relaxed);
        self.rx = Some(rx);
    }

    /// What a look at the channel decides: a result or a closed channel ends
    /// the wait (and the run) and is handed out; an empty channel changes
    /// nothing.
    pub fn settle(&mut self, found: Received<T>) -> (r: Option<Result<Result<T, String>, TryRecvError>>)
        ensures
            final(self).counters() == old(self).counters(),
            match found {
                Received::Message(m) => {
                    &&& r == Some(Ok::<Result<T, String>, TryRecvError>(m))
                    &&& !final(self).running()
                    &&& !final(self).awaiting()
                },
                Received::Empty => {
                    &&& r is None
                    &&& final(self).running() == old(self).running()
                    &&& final(self).awaiting() == old(self).awaiting()
                },
                Received::Closed(e) => {
                    &&& r == Some(Err::<Result<T, String>, TryRecvError>(e))
                    &&& !final(self).running()
                    &&& !final(self).awaiting()
                },
            },
    {
        match found {
            Received::Message(m) => {
                self.is_running = false;
                self.rx = None;
                Some(Ok(m))
            },
            Received::Empty => None,
            Received::Closed(e) => {
                self.is_running = false;
                self.rx = None;
                Some(Err(e))
            },
        }
    }

    /// Looks at the channel once: with none, nothing happens; else the
    /// outcome is settled (see `settle`).
    pub fn poll(&mut self) -> (r: Option<Result<Result<T, String>, TryRecvError>>)
        ensures
            final(self).counters() == old(self).counters(),
            !old(self).awaiting() ==> {
                &&& r is None
                &&& final(self).running() == old(self).running()
                &&& !final(self).awaiting()
            },
            old(self).awaiting() ==> match r {
                None => final(self).running() == old(self).running() && final(self).awaiting(),
                Some(_) => !final(self).running() && !final(self).awaiting(),
            },
    {
        let found = match &self.rx {
            Some(rx) => try_receive(rx),
            None => {
                return None;
            },
        };
        self.settle(found)
    }
}

impl<T> Default for BackgroundTask<T> {
    /// An idle task: not running, counters at zero, no channel.
    fn default() -> (r: Self)
        ensures
            !r.running(),
            !r.awaiting(),
    {
        BackgroundTask {
            is_running: false,
            progress: Arc::new(AtomicUsize::new(0)),
            total_tasks: Arc::new(AtomicUsize::new(0)),
            rx: None,
        }
    }
}

} // verus!
