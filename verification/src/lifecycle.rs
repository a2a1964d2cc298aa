//! The life cycle of a service that runs or is stopped. `start` and `stop`
//! decide what happens to the state and which event, if any, is to be sent;
//! sending it is left to the caller.

use vstd::prelude::*;

verus! {

/// What the owner of a [`Core`] tells its listeners.
#[derive(Debug, PartialEq, Eq)]
pub enum Event {
    Start,
    Stop,
    Error(String),
}

/// Whether the service runs, and with how many workers.
pub struct Core {
    running: bool,
    workers: usize,
}

/// A `Core` as the contracts see it.
pub struct CoreView {
    pub running: bool,
    pub workers: usize,
}

impl View for Core {
    type V = CoreView;

    closed spec fn view(&self) -> CoreView {
        CoreView { running: self.running, workers: self.workers }
    }
}

impl Core {
    /// A stopped service with `workers` workers.
    pub fn new(workers: usize) -> (c: Core)
        ensures
            c@ == (CoreView { running: false, workers }),
    {
        Core { running: false, workers }
    }

    /// Starts the service. Where it was stopped, `Event::Start` is to be
    /// sent; where it ran already, nothing changes and nothing is sent.
    pub fn start(&mut self) -> (ev: Option<Event>)
        ensures
            final(self)@ == (CoreView { running: true, workers: old(self)@.workers }),
            ev == (if old(self)@.running {
                None
            } else {
                Some(Event::Start)
            }),
    {
        if !self.running {
            self.running = true;
            Some(Event::Start)
        } else {
            None
        }
    }

    /// Stops the service. Where it ran, `Event::Stop` is to be sent; where it
    /// was stopped already, nothing changes and nothing is sent.
    pub fn stop(&mut self) -> (ev: Option<Event>)
        ensures
            final(self)@ == (CoreView { running: false, workers: old(self)@.workers }),
            ev == (if old(self)@.running {
                Some(Event::Stop)
            } else {
                None
            }),
    {
        if self.running {
            self.running = false;
            Some(Event::Stop)
        } else {
            None
        }
    }

    /// Whether the service runs.
    pub fn is_running(&self) -> (r: bool)
        ensures
            r == self@.running,
    {
        self.running
    }

    /// The number of workers that the service was made with.
    pub fn workers(&self) -> (n: usize)
        ensures
            n == self@.workers,
    {
        self.workers
    }
}

} // verus!
