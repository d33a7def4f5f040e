use crate::channel::{poll_request, send_completion, Polled};
use crate::status::SourceError;
use futures::channel::mpsc::UnboundedReceiver;
use std::sync::mpsc::Sender;
use vstd::prelude::*;

verus! {

/// What became of the bytes fetched for one request.
#[derive(Copy, Clone, Debug, PartialEq, Eq, Structural)]
pub enum Delivery {
    /// The bytes are queued for the manager that asked.
    Delivered,
    /// The source gave no bytes: there is nothing to deliver, and the manager's entry
    /// stays `Loading`.
    FetchFailed,
    /// The request names a manager this loader was not built with.
    UnknownManager,
    /// The manager that asked is gone; the bytes are thrown away.
    ManagerGone,
}

/// The requests a loader found waiting.
pub struct Intake {
    /// The requests, oldest first: the asking manager's number and the path.
    pub requests: Vec<(usize, String)>,
    /// Whether every manager and the builder are gone, so that no request can follow.
    pub closed: bool,
}

/// What a loader does when no fetch is under way and none was asked for.
#[derive(Copy, Clone, Debug, PartialEq, Eq, Structural)]
pub enum Idle {
    /// No request can follow: the loader has nothing left to do.
    Stop,
    /// A manager may still ask: the loader lets others run and looks again.
    Wait,
}

/// The worker shared by all managers of one builder: it takes their requests in and
/// sends each fetched payload back to the manager that asked. Fetching itself, and
/// running many fetches side by side, is the business of whoever drives the loader.
pub struct Loader {
    to_load: UnboundedReceiver<(usize, String)>,
    loaded: Vec<Sender<(String, Vec<u8>)>>,
}

impl Loader {
    /// How many managers the loader was built with; they are numbered from 0.
    pub closed spec fn managers(&self) -> nat {
        self.loaded@.len()
    }

    /// What [`deliver`](Loader::deliver) answers, given whether the manager's channel
    /// took the bytes.
    pub open spec fn delivery(&self, manager_idx: usize, fetched: bool, queued: bool) -> Delivery {
        if !fetched {
            Delivery::FetchFailed
        } else if manager_idx >= self.managers() {
            Delivery::UnknownManager
        } else if queued {
            Delivery::Delivered
        } else {
            Delivery::ManagerGone
        }
    }

    /// A loader that reads requests from `to_load` and answers the manager numbered
    /// `i` through `loaded[i]`.
    pub(crate) fn new(
        to_load: UnboundedReceiver<(usize, String)>,
        loaded: Vec<Sender<(String, Vec<u8>)>>,
    ) -> (loader: Self)
        ensures
            loader.managers() == loaded@.len(),
    {
        Self { to_load, loaded }
    }

    /// How many managers the loader was built with.
    pub fn manager_count(&self) -> (count: usize)
        ensures
            count == self.managers(),
    {
        self.loaded.len()
    }

    /// Takes in the requests that are waiting, without waiting for more: it looks into
    /// the request channel until a look finds nothing, and [records](Intake::record)
    /// what each look found. Which requests are waiting is for the managers to say; the
    /// count is capped at `usize::MAX` so that the call ends.
    pub fn intake(&mut self) -> (intake: Intake)
        ensures
            final(self).managers() == old(self).managers(),
    {
        let mut intake = Intake { requests: Vec::new(), closed: false };
        let mut budget: usize = usize::MAX;
        while budget > 0
            invariant
                self.managers() == old(self).managers(),
            decreases budget,
        {
            let found = poll_request(&mut self.to_load);
            if !intake.record(found) {
                break ;
            }
            budget = budget - 1;
        }
        intake
    }

    /// Decides where the outcome of one fetch goes, without sending anything. For
    /// fetched bytes and a manager that the loader knows, this is the manager's number
    /// and the message for it: `path` with its bytes, as they came. Otherwise nothing is
    /// to be sent, and the reason is given: a failed fetch, or else an unknown manager.
    pub fn addressed(
        &self,
        manager_idx: usize,
        path: String,
        fetched: Result<Vec<u8>, SourceError>,
    ) -> (to: Result<(usize, (String, Vec<u8>)), Delivery>)
        ensures
            match to {
                Ok(sent) => {
                    &&& fetched is Ok
                    &&& manager_idx < self.managers()
                    &&& sent.0 == manager_idx
                    &&& sent.1 == (path, fetched->Ok_0)
                },
                Err(why) => {
                    &&& fetched is Err || manager_idx >= self.managers()
                    &&& why == self.delivery(manager_idx, fetched is Ok, false)
                },
            },
    {
        match fetched {
            Ok(bytes) => {
                if manager_idx < self.loaded.len() {
                    Ok((manager_idx, (path, bytes)))
                } else {
                    Err(Delivery::UnknownManager)
                }
            },
            Err(_) => Err(Delivery::FetchFailed),
        }
    }

    /// Hands the outcome of one fetch to the manager that asked for `path`: what
    /// [`addressed`](Loader::addressed) makes of it is sent, once, into the channel of
    /// the manager it names. A failed fetch is dropped here and never reaches a manager.
    /// Bytes for a manager that the loader does not know, or that is gone, are thrown
    /// away; neither is a failure of the loader.
    pub fn deliver(
        &self,
        manager_idx: usize,
        path: String,
        fetched: Result<Vec<u8>, SourceError>,
    ) -> (delivery: Delivery)
        ensures
            exists|queued: bool| delivery == #[trigger] self.delivery(manager_idx, fetched is Ok, queued),
            fetched is Err ==> delivery == Delivery::FetchFailed,
            fetched is Ok && manager_idx >= self.managers() ==> delivery == Delivery::UnknownManager,
    {
        match self.addressed(manager_idx, path, fetched) {
            Ok(sent) => {
                let queued = send_completion(&self.loaded[sent.0], sent.1);
                assert(self.delivery(manager_idx, true, queued) == if queued {
                    Delivery::Delivered
                } else {
                    Delivery::ManagerGone
                });
                if queued {
                    Delivery::Delivered
                } else {
                    Delivery::ManagerGone
                }
            },
            Err(why) => {
                assert(self.delivery(manager_idx, fetched is Ok, false) == why);
                why
            },
        }
    }
}

impl Intake {
    /// What the loader does after this intake when no fetch is under way: it stops if
    /// the request channel is closed, and waits for requests if it is not.
    pub fn when_idle(&self) -> (next: Idle)
        ensures
            next == if self.closed {
                Idle::Stop
            } else {
                Idle::Wait
            },
    {
        if self.closed {
            Idle::Stop
        } else {
            Idle::Wait
        }
    }

    /// Takes note of what one look into the request channel found, and says whether to
    /// look again. A request is appended to the list, and another look is due. An empty
    /// channel ends the intake as it stands. A closed channel ends it too, and is noted.
    pub fn record(&mut self, found: Polled<(usize, String)>) -> (again: bool)
        ensures
            match found {
                Polled::Item(request) => {
                    &&& again
                    &&& final(self).requests@ == old(self).requests@.push(request)
                    &&& final(self).closed == old(self).closed
                },
                Polled::Empty => !again && *final(self) == *old(self),
                Polled::Closed => {
                    &&& !again
                    &&& final(self).requests@ == old(self).requests@
                    &&& final(self).closed
                },
            },
    {
        match found {
            Polled::Item(request) => {
                self.requests.push(request);
                true
            },
            Polled::Empty => false,
            Polled::Closed => {
                self.closed = true;
                false
            },
        }
    }
}

} // verus!
