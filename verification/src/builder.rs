use crate::asset::Asset;
use crate::channel::{clone_sender, completion_channel, request_channel};
use crate::loader::Loader;
use crate::manager::Manager;
use crate::model::CacheModel;
use crate::sources::Source;
use futures::channel::mpsc::{UnboundedReceiver, UnboundedSender};
use std::sync::mpsc::Sender;
use vstd::prelude::*;

verus! {

/// Wires managers to one loader: make a builder, create the managers, then finish with
/// the loader that serves them.
pub struct Builder {
    to_load_send: UnboundedSender<(usize, String)>,
    to_load_recv: UnboundedReceiver<(usize, String)>,
    loaded: Vec<Sender<(String, Vec<u8>)>>,
}

impl Builder {
    /// How many managers have been created so far.
    pub closed spec fn managers(&self) -> nat {
        self.loaded@.len()
    }

    /// A builder with no managers yet.
    pub fn new() -> (builder: Self)
        ensures
            builder.managers() == 0,
    {
        let (to_load_send, to_load_recv) = request_channel();
        Self { to_load_send, to_load_recv, loaded: Vec::new() }
    }

    /// A new manager without entries, both eviction policies off, known to the loader
    /// under the next free number: that of the first manager is 0, and no two managers of
    /// one builder share a number.
    pub fn create_manager<A: Asset, S: Source>(&mut self, data: A::DataManager) -> (manager: Manager<A, S>)
        ensures
            final(self).managers() == old(self).managers() + 1,
            manager.wf(),
            manager@ == CacheModel::<A>::empty(old(self).managers(), data),
    {
        let (s, r) = completion_channel();
        let loader_id: usize = self.loaded.len();
        self.loaded.push(s);
        Manager::new(loader_id, clone_sender(&self.to_load_send), r, data)
    }

    /// The loader for the managers created so far. The builder is used up: no manager
    /// can join the loader later.
    pub fn finish_loader(self) -> (loader: Loader)
        ensures
            loader.managers() == self.managers(),
    {
        Loader::new(self.to_load_recv, self.loaded)
    }
}

} // verus!
