use crate::asset::{decodes_to, pointee, Asset, AssetHandle};
use crate::channel::{await_completion, poll_completion, reserved, send_request, share, Polled};
use crate::laws::{
    lemma_advances_compose, lemma_advances_reflexive, lemma_batch_grows, lemma_completion_advances,
    lemma_first_vacant_unique, lemma_install_advances,
};
use crate::model::{CacheModel, EntryModel};
use crate::sources::{resolves_to, Source};
use crate::status::{DecodeError, LoadError, LoadStatus};
use core::marker::PhantomData;
use futures::channel::mpsc::UnboundedSender;
use std::sync::mpsc::Receiver;
use std::sync::Arc;
use vstd::prelude::*;

verus! {

/// The paths a list of strings spells out.
pub open spec fn paths_of(list: Seq<String>) -> Seq<Seq<char>> {
    Seq::new(list.len(), |i: int| list[i]@)
}

/// Slot `i` is taken, by the handle for `path`.
spec fn holds<A: Asset>(slots: Seq<Option<AssetHandle<A>>>, i: int, path: Seq<char>) -> bool {
    0 <= i < slots.len() && slots[i] is Some && slots[i].unwrap().id() == path
}

/// No path has two slots.
spec fn distinct<A: Asset>(slots: Seq<Option<AssetHandle<A>>>) -> bool {
    forall|i: int, j: int, path: Seq<char>|
        #[trigger] holds(slots, i, path) && #[trigger] holds(slots, j, path) ==> i == j
}

/// Some slot is taken by the handle for `path`.
spec fn known<A: Asset>(slots: Seq<Option<AssetHandle<A>>>, path: Seq<char>) -> bool {
    exists|i: int| holds(slots, i, path)
}

/// The slot taken by the handle for `path`.
spec fn index_of<A: Asset>(slots: Seq<Option<AssetHandle<A>>>, path: Seq<char>) -> int {
    choose|i: int| holds(slots, i, path)
}

/// The entries that the slots hold, by path.
spec fn entries_of<A: Asset>(slots: Seq<Option<AssetHandle<A>>>) -> Map<Seq<char>, EntryModel<A>> {
    Map::new(|path: Seq<char>| known(slots, path), |path: Seq<char>| slots[index_of(slots, path)].unwrap()@)
}

/// The slot of each path: its key.
spec fn keys_of<A: Asset>(slots: Seq<Option<AssetHandle<A>>>) -> Map<Seq<char>, nat> {
    Map::new(|path: Seq<char>| known(slots, path), |path: Seq<char>| index_of(slots, path) as nat)
}

/// A taken slot is where its path's entry and key come from.
proof fn lemma_slot<A: Asset>(slots: Seq<Option<AssetHandle<A>>>, i: int, path: Seq<char>)
    requires
        distinct(slots),
        holds(slots, i, path),
    ensures
        known(slots, path),
        index_of(slots, path) == i,
        entries_of(slots).dom().contains(path),
        entries_of(slots)[path] == slots[i].unwrap()@,
        keys_of(slots).dom().contains(path),
        keys_of(slots)[path] == i as nat,
{
    assert(holds(slots, index_of(slots, path), path));
}

/// Putting another handle for the same path into a taken slot changes that entry alone.
proof fn lemma_replace<A: Asset>(slots: Seq<Option<AssetHandle<A>>>, i: int, handle: AssetHandle<A>)
    requires
        distinct(slots),
        holds(slots, i, handle.id()),
    ensures
        distinct(slots.update(i, Some(handle))),
        entries_of(slots.update(i, Some(handle))) =~= entries_of(slots).insert(handle.id(), handle@),
        keys_of(slots.update(i, Some(handle))) =~= keys_of(slots),
{
    let after = slots.update(i, Some(handle));
    assert forall|j: int, path: Seq<char>| holds(after, j, path) == holds(slots, j, path) by {}
    assert(distinct(after)) by {
        assert forall|a: int, b: int, path: Seq<char>| #[trigger]
            holds(after, a, path) && #[trigger] holds(after, b, path) implies a == b by {
            assert(holds(slots, a, path) && holds(slots, b, path));
        }
    }
    assert forall|path: Seq<char>| known(after, path) == known(slots, path) by {
        if known(after, path) {
            assert(holds(slots, index_of(after, path), path));
        }
        if known(slots, path) {
            assert(holds(after, index_of(slots, path), path));
        }
    }
    assert forall|path: Seq<char>| known(slots, path) implies index_of(after, path) == index_of(
        slots,
        path,
    ) by {
        let j = index_of(slots, path);
        assert(holds(after, j, path));
        lemma_slot(after, j, path);
    }
    lemma_slot(slots, i, handle.id());
    lemma_slot(after, i, handle.id());
}

/// Putting a handle for an unknown path into slot `i`, which was free or is new at the
/// end, adds that entry, under the slot's number.
proof fn lemma_add<A: Asset>(
    slots: Seq<Option<AssetHandle<A>>>,
    after: Seq<Option<AssetHandle<A>>>,
    i: int,
    handle: AssetHandle<A>,
)
    requires
        distinct(slots),
        !known(slots, handle.id()),
        0 <= i <= slots.len(),
        i < slots.len() ==> slots[i] is None && after == slots.update(i, Some(handle)),
        i == slots.len() ==> after == slots.push(Some(handle)),
    ensures
        distinct(after),
        entries_of(after) =~= entries_of(slots).insert(handle.id(), handle@),
        keys_of(after) =~= keys_of(slots).insert(handle.id(), i as nat),
{
    assert forall|j: int, path: Seq<char>| holds(after, j, path) == (holds(slots, j, path) || (j == i
        && path == handle.id())) by {}
    assert(distinct(after)) by {
        assert forall|a: int, b: int, path: Seq<char>| #[trigger]
            holds(after, a, path) && #[trigger] holds(after, b, path) implies a == b by {
            if a != b {
                if a == i {
                    assert(holds(slots, b, handle.id()));
                } else if b == i {
                    assert(holds(slots, a, handle.id()));
                } else {
                    assert(holds(slots, a, path) && holds(slots, b, path));
                }
            }
        }
    }
    assert(holds(after, i, handle.id()));
    lemma_slot(after, i, handle.id());
    assert forall|path: Seq<char>| known(after, path) == (known(slots, path) || path == handle.id()) by {
        if known(after, path) {
            let j = index_of(after, path);
            assert(holds(after, j, path));
            if path != handle.id() {
                assert(holds(slots, j, path));
            }
        }
        if known(slots, path) {
            assert(holds(after, index_of(slots, path), path));
        }
    }
    assert forall|path: Seq<char>| known(slots, path) implies index_of(after, path) == index_of(
        slots,
        path,
    ) by {
        let j = index_of(slots, path);
        assert(holds(after, j, path));
        lemma_slot(after, j, path);
    }
}

/// Freeing a taken slot removes its path's entry and key, and nothing else.
proof fn lemma_clear<A: Asset>(slots: Seq<Option<AssetHandle<A>>>, i: int, path: Seq<char>)
    requires
        distinct(slots),
        holds(slots, i, path),
    ensures
        distinct(slots.update(i, None)),
        entries_of(slots.update(i, None)) =~= entries_of(slots).remove(path),
        keys_of(slots.update(i, None)) =~= keys_of(slots).remove(path),
{
    let after = slots.update(i, None);
    assert forall|j: int, other: Seq<char>| holds(after, j, other) == (holds(slots, j, other) && j != i) by {}
    assert(distinct(after)) by {
        assert forall|a: int, b: int, other: Seq<char>| #[trigger]
            holds(after, a, other) && #[trigger] holds(after, b, other) implies a == b by {
            assert(holds(slots, a, other) && holds(slots, b, other));
        }
    }
    assert forall|other: Seq<char>| known(after, other) == (known(slots, other) && other != path) by {
        if known(after, other) {
            let j = index_of(after, other);
            assert(holds(slots, j, other));
            if other == path {
                assert(holds(slots, i, other));
            }
        }
        if known(slots, other) && other != path {
            let j = index_of(slots, other);
            assert(holds(slots, j, other));
            assert(holds(after, j, other));
        }
    }
    assert forall|other: Seq<char>| known(after, other) implies index_of(after, other) == index_of(
        slots,
        other,
    ) by {
        let j = index_of(after, other);
        assert(holds(slots, j, other));
        lemma_slot(slots, j, other);
    }
}

/// The store of one asset type: entries by path, loaded on request through the loader
/// and evicted by policy on [`maintain`](Manager::maintain).
pub struct Manager<A: Asset, S: Source> {
    drop: bool,
    unload: bool,
    loader_id: usize,
    load_send: UnboundedSender<(usize, String)>,
    load_recv: Receiver<(String, Vec<u8>)>,
    asset_handles: Vec<Option<AssetHandle<A>>>,
    loaded_once: Vec<String>,
    data: A::DataManager,
    source: PhantomData<S>,
}

impl<A: Asset, S: Source> View for Manager<A, S> {
    type V = CacheModel<A>;

    closed spec fn view(&self) -> CacheModel<A> {
        CacheModel {
            entries: entries_of(self.asset_handles@),
            keys: keys_of(self.asset_handles@),
            auto_unload: self.unload,
            auto_dropout: self.drop,
            loader_id: self.loader_id as nat,
            loaded_once: paths_of(self.loaded_once@),
            data: self.data,
        }
    }
}

impl<A: Asset, S: Source> Manager<A, S> {
    /// What the manager keeps true of itself between calls. It implies that the view
    /// is well-formed: see [`lemma_view_wf`](Manager::lemma_view_wf).
    pub closed spec fn wf(&self) -> bool {
        &&& distinct(self.asset_handles@)
        &&& forall|i: int|
            0 <= i < self.asset_handles@.len() && (#[trigger] self.asset_handles@[i]) is Some
                ==> self.asset_handles@[i].unwrap()@.wf()
    }

    /// The two channel ends the manager was made with: where its requests go, and
    /// where its completions come from. No operation exchanges them.
    pub closed spec fn wiring(&self) -> (UnboundedSender<(usize, String)>, Receiver<(String, Vec<u8>)>) {
        (self.load_send, self.load_recv)
    }

    /// A well-formed manager has a well-formed view.
    pub proof fn lemma_view_wf(&self)
        requires
            self.wf(),
        ensures
            self@.wf(),
    {
        let slots = self.asset_handles@;
        let m = self@;
        assert forall|p: Seq<char>| m.contains(p) implies (#[trigger] m.entries[p]).wf() && m.keys[p]
            < slots.len() by {
            let i = index_of(slots, p);
            assert(holds(slots, i, p));
        }
        assert(m.keys_below(slots.len()));
        assert forall|p: Seq<char>, q: Seq<char>|
            m.contains(p) && m.contains(q) && #[trigger] m.keys[p] == #[trigger] m.keys[q] implies p
            == q by {
            assert(holds(slots, index_of(slots, p), p));
            assert(holds(slots, index_of(slots, q), q));
        }
    }

    /// A slot with only taken slots before it, itself free or past the end, has the
    /// first vacant key.
    proof fn lemma_first_free(&self, k: int)
        requires
            self.wf(),
            0 <= k <= self.asset_handles@.len(),
            forall|j: int| 0 <= j < k ==> (#[trigger] self.asset_handles@[j]) is Some,
            k < self.asset_handles@.len() ==> self.asset_handles@[k] is None,
        ensures
            self@.first_vacant() == k,
    {
        let slots = self.asset_handles@;
        let m = self@;
        assert forall|p: Seq<char>| m.contains(p) implies #[trigger] m.keys[p] != k as nat by {
            assert(holds(slots, index_of(slots, p), p));
        }
        assert forall|smaller: nat| smaller < k implies !#[trigger] m.vacant(smaller) by {
            let p = slots[smaller as int].unwrap().id();
            assert(holds(slots, smaller as int, p));
            lemma_slot(slots, smaller as int, p);
            assert(m.contains(p) && m.keys[p] == smaller);
        }
        assert(m.is_first_vacant(k as nat));
        lemma_first_vacant_unique(m, k as nat);
    }

    /// A manager without entries that the loader knows as `loader_id`: it sends its
    /// requests into `load_send` and finds its completions in `load_recv`.
    pub(crate) fn new(
        loader_id: usize,
        load_send: UnboundedSender<(usize, String)>,
        load_recv: Receiver<(String, Vec<u8>)>,
        data: A::DataManager,
    ) -> (manager: Self)
        ensures
            manager.wf(),
            manager.wiring() == (load_send, load_recv),
            manager@ == CacheModel::<A>::empty(loader_id as nat, data),
    {
        let manager = Self {
            drop: false,
            unload: false,
            loader_id,
            load_send,
            load_recv,
            asset_handles: Vec::new(),
            loaded_once: Vec::new(),
            data,
            source: PhantomData,
        };
        proof {
            assert(manager@.entries =~= Map::empty());
            assert(manager@.keys =~= Map::empty());
            assert(manager@.loaded_once =~= Seq::empty());
        }
        manager
    }

    /// The slot of `path`, if it has one.
    fn find(&self, path: &str) -> (found: Option<usize>)
        ensures
            match found {
                Some(i) => holds(self.asset_handles@, i as int, path@),
                None => !known(self.asset_handles@, path@),
            },
    {
        let wanted = path.to_owned();
        let mut i: usize = 0;
        while i < self.asset_handles.len()
            invariant
                i <= self.asset_handles.len(),
                wanted@ == path@,
                forall|j: int| 0 <= j < i ==> !holds(self.asset_handles@, j, path@),
            decreases self.asset_handles.len() - i,
        {
            match &self.asset_handles[i] {
                Some(handle) => {
                    if *handle.path() == wanted {
                        return Some(i);
                    }
                },
                None => {},
            }
            i = i + 1;
        }
        None
    }

    /// The first free slot, or the number of slots if none is free.
    fn first_free(&self) -> (k: usize)
        ensures
            k <= self.asset_handles@.len(),
            forall|j: int| 0 <= j < k ==> (#[trigger] self.asset_handles@[j]) is Some,
            k < self.asset_handles@.len() ==> self.asset_handles@[k as int] is None,
    {
        let mut k: usize = 0;
        while k < self.asset_handles.len()
            invariant
                k <= self.asset_handles.len(),
                forall|j: int| 0 <= j < k ==> (#[trigger] self.asset_handles@[j]) is Some,
            decreases self.asset_handles.len() - k,
        {
            if self.asset_handles[k].is_none() {
                return k;
            }
            k = k + 1;
        }
        k
    }

    /// Puts `handle`, for a path without a slot, into the first free slot, and returns
    /// that slot's number.
    fn place(&mut self, handle: AssetHandle<A>) -> (key: usize)
        requires
            old(self).wf(),
            handle@.wf(),
            !old(self)@.contains(handle.id()),
        ensures
            final(self).wf(),
            final(self).wiring() == old(self).wiring(),
            final(self)@ == old(self)@.with_entry(handle.id(), handle@),
            key == old(self)@.first_vacant(),
    {
        let k = self.first_free();
        proof {
            self.lemma_first_free(k as int);
            let slots = self.asset_handles@;
            let after = if k < slots.len() {
                slots.update(k as int, Some(handle))
            } else {
                slots.push(Some(handle))
            };
            lemma_add(slots, after, k as int, handle);
        }
        if k < self.asset_handles.len() {
            self.asset_handles[k] = Some(handle);
        } else {
            self.asset_handles.push(Some(handle));
        }
        k
    }

    /// Makes `path` known, with `data` as the entry's side data, and returns the key of
    /// its entry. A path that is known already keeps its entry, side data and key.
    pub fn insert(&mut self, path: &str, data: A::DataAsset) -> (key: usize)
        requires
            old(self).wf(),
        ensures
            final(self).wf(),
            final(self).wiring() == old(self).wiring(),
            final(self)@ == old(self)@.inserted(path@, data),
            key == old(self)@.key_for(path@),
            key == final(self)@.keys[path@],
    {
        match self.find(path) {
            Some(i) => {
                proof {
                    lemma_slot(self.asset_handles@, i as int, path@);
                }
                i
            },
            None => {
                let handle = AssetHandle::new(path.to_owned(), data);
                self.place(handle)
            },
        }
    }

    /// Everything but the slots is the same in both managers.
    spec fn rest_same(&self, other: &Self) -> bool {
        &&& self.drop == other.drop
        &&& self.unload == other.unload
        &&& self.loader_id == other.loader_id
        &&& self.loaded_once == other.loaded_once
        &&& self.data == other.data
    }

    /// Changing the handle in one taken slot, the path staying, changes that entry alone.
    proof fn lemma_changed(&self, after: &Self, i: int)
        requires
            self.wf(),
            0 <= i < self.asset_handles@.len(),
            self.asset_handles@[i] is Some,
            after.asset_handles@.len() == self.asset_handles@.len(),
            after.asset_handles@[i] is Some,
            after.asset_handles@ == self.asset_handles@.update(i, after.asset_handles@[i]),
            after.asset_handles@[i].unwrap().id() == self.asset_handles@[i].unwrap().id(),
            after.asset_handles@[i].unwrap()@.wf(),
            self.rest_same(after),
        ensures
            after.wf(),
            self@.contains(self.asset_handles@[i].unwrap().id()),
            self@.entries[self.asset_handles@[i].unwrap().id()] == self.asset_handles@[i].unwrap()@,
            after@ == self@.with_entry(
                self.asset_handles@[i].unwrap().id(),
                after.asset_handles@[i].unwrap()@,
            ),
    {
        let handle = after.asset_handles@[i].unwrap();
        let path = handle.id();
        assert(holds(self.asset_handles@, i, path));
        lemma_slot(self.asset_handles@, i, path);
        lemma_replace(self.asset_handles@, i, handle);
        assert(self@.keys.insert(path, self@.key_for(path)) =~= self@.keys);
        assert(after@ =~= self@.with_entry(path, handle@));
    }

    /// How many entries fit before the manager's storage grows. Every key is below it.
    pub fn capacity(&self) -> (capacity: usize)
        requires
            self.wf(),
        ensures
            self@.keys_below(capacity as nat),
    {
        proof {
            self.lemma_view_wf();
            let slots = self.asset_handles@;
            assert forall|p: Seq<char>| self@.contains(p) implies #[trigger] self@.keys[p] < slots.len() by {
                assert(holds(slots, index_of(slots, p), p));
            }
        }
        reserved(&self.asset_handles)
    }

    /// Turns the dropout policy on: every [`maintain`](Manager::maintain) then removes
    /// the entries that are not `Loading`; their keys may be given out again.
    pub fn auto_dropout(self) -> (manager: Self)
        requires
            self.wf(),
        ensures
            manager.wf(),
            manager.wiring() == self.wiring(),
            manager@ == (CacheModel { auto_dropout: true, ..self@ }),
    {
        let mut manager = self;
        manager.drop = true;
        manager
    }

    /// Turns the unload policy on: every [`maintain`](Manager::maintain) then lets go
    /// of the payloads that nobody outside the manager holds.
    pub fn auto_unload(self) -> (manager: Self)
        requires
            self.wf(),
        ensures
            manager.wf(),
            manager.wiring() == self.wiring(),
            manager@ == (CacheModel { auto_unload: true, ..self@ }),
    {
        let mut manager = self;
        manager.unload = true;
        manager
    }

    /// Stores `asset` under `path` as a `Loaded` entry with `data` as its side data,
    /// in place of whatever `path` had, and returns the entry's key: the old one for a
    /// known path.
    pub fn insert_raw(&mut self, path: &str, asset: A::Structure, data: A::DataAsset) -> (key: usize)
        requires
            old(self).wf(),
        ensures
            final(self).wf(),
            final(self).wiring() == old(self).wiring(),
            final(self)@ == old(self)@.inserted_raw(path@, asset, data),
            key == old(self)@.key_for(path@),
            key == final(self)@.keys[path@],
    {
        let mut handle = AssetHandle::new(path.to_owned(), data);
        handle.set(asset);
        match self.find(path) {
            Some(i) => {
                let ghost before = *self;
                proof {
                    lemma_slot(self.asset_handles@, i as int, path@);
                }
                self.asset_handles[i] = Some(handle);
                proof {
                    before.lemma_changed(self, i as int);
                }
                i
            },
            None => self.place(handle),
        }
    }

    /// The first half of [`load`](Manager::load), for a caller that has asked the source
    /// itself: `resolves` says whether the source resolves `path`. A known path that
    /// resolves becomes `Loading`, and the request to hand to the loader is returned:
    /// this manager's number with the loader, and the path.
    pub fn begin_load(&mut self, path: &str, resolves: bool) -> (request: Result<(usize, String), LoadError>)
        requires
            old(self).wf(),
        ensures
            final(self).wf(),
            final(self).wiring() == old(self).wiring(),
            final(self)@ == old(self)@.load_begun(path@, resolves),
            match request {
                Ok(request) => {
                    &&& old(self)@.contains(path@)
                    &&& resolves
                    &&& request.0 == old(self)@.loader_id
                    &&& request.1@ == path@
                },
                Err(e) => {
                    &&& !(old(self)@.contains(path@) && resolves)
                    &&& e == if old(self)@.contains(path@) {
                        LoadError::SourceUnavailable
                    } else {
                        LoadError::NotFound
                    }
                },
            },
    {
        match self.find(path) {
            Some(i) => self.begin_at(i, resolves),
            None => Err(LoadError::NotFound),
        }
    }

    /// [`begin_load`](Manager::begin_load) for the path in the taken slot `i`.
    fn begin_at(&mut self, i: usize, resolves: bool) -> (request: Result<(usize, String), LoadError>)
        requires
            old(self).wf(),
            i < old(self).asset_handles@.len(),
            old(self).asset_handles@[i as int] is Some,
        ensures
            final(self).wf(),
            final(self).wiring() == old(self).wiring(),
            final(self)@ == old(self)@.load_begun(old(self).asset_handles@[i as int].unwrap().id(), resolves),
            old(self)@.contains(old(self).asset_handles@[i as int].unwrap().id()),
            match request {
                Ok(request) => {
                    &&& resolves
                    &&& request.0 == old(self)@.loader_id
                    &&& request.1@ == old(self).asset_handles@[i as int].unwrap().id()
                },
                Err(e) => !resolves && e == LoadError::SourceUnavailable,
            },
    {
        let ghost before = *self;
        proof {
            let path = self.asset_handles@[i as int].unwrap().id();
            assert(holds(self.asset_handles@, i as int, path));
            lemma_slot(self.asset_handles@, i as int, path);
        }
        if !resolves {
            return Err(LoadError::SourceUnavailable);
        }
        let mut path = String::new();
        match &mut self.asset_handles[i] {
            Some(handle) => {
                handle.start_loading();
                path = handle.path().clone();
            },
            None => {},
        }
        proof {
            before.lemma_changed(self, i as int);
        }
        Ok((self.loader_id, path))
    }

    /// Asks the loader for the payload of `path`.
    ///
    /// Fails with `NotFound` for a path without an entry, and with `SourceUnavailable`
    /// where the source does not resolve the path right now; nothing changes then.
    /// Otherwise the entry becomes `Loading`, and the request is queued for the loader;
    /// with the loader gone it cannot be, and the call fails with `ChannelClosed`. The
    /// call never waits.
    pub fn load(&mut self, path: &str) -> (outcome: Result<(), LoadError>)
        requires
            old(self).wf(),
        ensures
            final(self).wf(),
            final(self).wiring() == old(self).wiring(),
            !old(self)@.contains(path@) ==> outcome == Err::<(), LoadError>(LoadError::NotFound)
                && final(self)@ == old(self)@,
            old(self)@.contains(path@) ==> exists|resolves: bool, queued: bool|
                {
                    &&& resolves_to::<S>(path, resolves)
                    &&& #[trigger] old(self)@.load_outcome(path@, resolves, queued) == outcome
                    &&& final(self)@ == old(self)@.load_begun(path@, resolves)
                },
    {
        match self.find(path) {
            None => Err(LoadError::NotFound),
            Some(i) => {
                proof {
                    lemma_slot(self.asset_handles@, i as int, path@);
                }
                let resolves = S::resolves(path);
                assert(resolves_to::<S>(path, resolves));
                match self.begin_at(i, resolves) {
                    Ok(request) => {
                        let queued = send_request(&self.load_send, request);
                        assert(old(self)@.load_outcome(path@, resolves, queued) == (if queued {
                            Ok::<(), LoadError>(())
                        } else {
                            Err::<(), LoadError>(LoadError::ChannelClosed)
                        }));
                        if queued {
                            Ok(())
                        } else {
                            Err(LoadError::ChannelClosed)
                        }
                    },
                    Err(e) => {
                        assert(old(self)@.load_outcome(path@, resolves, true) == Err::<(), LoadError>(e));
                        Err(e)
                    },
                }
            },
        }
    }

    /// Lets go of the payload of `path`, which is `NotLoaded` afterwards whatever it
    /// was; the entry stays and can be loaded again. Nothing happens for a path without
    /// an entry.
    pub fn unload(&mut self, path: &str)
        requires
            old(self).wf(),
        ensures
            final(self).wf(),
            final(self).wiring() == old(self).wiring(),
            final(self)@ == old(self)@.unloaded(path@),
    {
        match self.find(path) {
            Some(i) => {
                let ghost before = *self;
                proof {
                    lemma_slot(self.asset_handles@, i as int, path@);
                }
                match &mut self.asset_handles[i] {
                    Some(handle) => {
                        handle.unload();
                    },
                    None => {},
                }
                proof {
                    before.lemma_changed(self, i as int);
                }
            },
            None => {},
        }
    }

    /// Removes the entry of `path` altogether; its key may be given out again. Nothing
    /// happens for a path without an entry.
    pub fn drop(&mut self, path: &str)
        requires
            old(self).wf(),
        ensures
            final(self).wf(),
            final(self).wiring() == old(self).wiring(),
            final(self)@ == old(self)@.dropped(path@),
    {
        match self.find(path) {
            Some(i) => {
                proof {
                    lemma_clear(self.asset_handles@, i as int, path@);
                }
                self.asset_handles[i] = None;
                proof {
                    assert(final(self)@ =~= old(self)@.dropped(path@));
                }
            },
            None => {
                proof {
                    assert(self@.entries.remove(path@) =~= self@.entries);
                    assert(self@.keys.remove(path@) =~= self@.keys);
                    assert(self@ =~= old(self)@.dropped(path@));
                }
            },
        }
    }

    /// The payload of `path`, shared with the manager: there is one exactly while the
    /// entry is `Loaded`. The call never waits.
    pub fn get(&self, path: &str) -> (payload: Option<Arc<A::Structure>>)
        requires
            self.wf(),
        ensures
            pointee(payload) == self@.payload_of(path@),
            payload is Some <==> self@.status_of(path@) == Some(LoadStatus::Loaded),
    {
        match self.find(path) {
            Some(i) => {
                proof {
                    lemma_slot(self.asset_handles@, i as int, path@);
                }
                match &self.asset_handles[i] {
                    Some(handle) => match handle.get() {
                        Some(a) => Some(share(a)),
                        None => None,
                    },
                    None => None,
                }
            },
            None => None,
        }
    }

    /// The status of `path`, if it has an entry.
    pub fn status(&self, path: &str) -> (status: Option<LoadStatus>)
        requires
            self.wf(),
        ensures
            status == self@.status_of(path@),
    {
        match self.find(path) {
            Some(i) => {
                proof {
                    lemma_slot(self.asset_handles@, i as int, path@);
                }
                match &self.asset_handles[i] {
                    Some(handle) => Some(handle.status()),
                    None => None,
                }
            },
            None => None,
        }
    }

    /// How many pointers to the payload of `path` are alive, the manager's own among
    /// them: a number exactly while the entry is `Loaded`, and then at least one.
    pub fn strong_count(&self, path: &str) -> (count: Option<usize>)
        requires
            self.wf(),
        ensures
            count is Some <==> self@.status_of(path@) == Some(LoadStatus::Loaded),
            count matches Some(n) ==> n >= 1,
    {
        match self.find(path) {
            Some(i) => {
                proof {
                    lemma_slot(self.asset_handles@, i as int, path@);
                }
                match &self.asset_handles[i] {
                    Some(handle) => handle.strong_count(),
                    None => None,
                }
            },
            None => None,
        }
    }

    /// The paths whose payload arrived since this was last called, oldest first.
    pub fn get_loaded_once(&mut self) -> (list: Vec<String>)
        requires
            old(self).wf(),
        ensures
            final(self).wf(),
            final(self).wiring() == old(self).wiring(),
            paths_of(list@) == old(self)@.loaded_once,
            final(self)@ == old(self)@.log_taken(),
    {
        let mut list: Vec<String> = Vec::new();
        if !self.loaded_once.is_empty() {
            std::mem::swap(&mut list, &mut self.loaded_once);
        }
        proof {
            assert(paths_of(list@) =~= old(self)@.loaded_once);
            assert(self@.loaded_once =~= Seq::empty());
        }
        list
    }

    /// [`install`](Manager::install) for the path in the taken slot `i`.
    fn install_at(&mut self, i: usize, path: String, decoded: Result<A::Structure, DecodeError>)
        requires
            old(self).wf(),
            holds(old(self).asset_handles@, i as int, path@),
        ensures
            final(self).wf(),
            final(self).wiring() == old(self).wiring(),
            final(self)@ == old(self)@.installed(path@, decoded),
    {
        let ghost before = *self;
        proof {
            lemma_slot(self.asset_handles@, i as int, path@);
        }
        match decoded {
            Ok(value) => {
                match &mut self.asset_handles[i] {
                    Some(handle) => {
                        handle.set(value);
                    },
                    None => {},
                }
                self.loaded_once.push(path);
                proof {
                    let ghost mid = Manager::<A, S> { loaded_once: before.loaded_once, ..*self };
                    before.lemma_changed(&mid, i as int);
                    assert(self@.loaded_once =~= before@.loaded_once.push(path@));
                    assert(self@ =~= before@.installed(path@, decoded));
                }
            },
            Err(_) => {},
        }
    }

    /// Takes in what decoding a completion for `path` gave. On success a known path is
    /// `Loaded` with the decoded value, whatever its status was, and is appended to the
    /// log of [`get_loaded_once`](Manager::get_loaded_once). A failure changes nothing:
    /// an entry that was `Loading` stays so. Neither does an unknown path.
    pub fn install(&mut self, path: String, decoded: Result<A::Structure, DecodeError>)
        requires
            old(self).wf(),
        ensures
            final(self).wf(),
            final(self).wiring() == old(self).wiring(),
            final(self)@ == old(self)@.installed(path@, decoded),
    {
        match self.find(path.as_str()) {
            Some(i) => self.install_at(i, path, decoded),
            None => {},
        }
    }

    /// Takes in one completion: the `bytes` that the loader fetched for `path`. For a
    /// known path they are decoded, with the entry's and the manager's side data, and
    /// the outcome is [installed](Manager::install). For an unknown path nothing happens.
    ///
    /// A completion finds its entry by path alone. One that was asked for by an entry
    /// since dropped is taken in by a later entry under the same path.
    pub fn complete(&mut self, path: String, bytes: Vec<u8>)
        requires
            old(self).wf(),
        ensures
            final(self).wf(),
            final(self).wiring() == old(self).wiring(),
            old(self)@.completes_to(path@, bytes, final(self)@),
            old(self)@.advances_to(final(self)@),
    {
        proof {
            self.lemma_view_wf();
            lemma_advances_reflexive(self@);
        }
        match self.find(path.as_str()) {
            Some(i) => {
                proof {
                    lemma_slot(self.asset_handles@, i as int, path@);
                }
                let handle = self.asset_handles[i].as_ref().unwrap();
                let decoded = A::decode(bytes, handle.data(), &self.data);
                assert(decodes_to::<A>(bytes, self@.entries[path@].data, self@.data, decoded));
                proof {
                    lemma_install_advances(self@, path@, decoded);
                }
                self.install_at(i, path, decoded);
            },
            None => {},
        }
    }

    /// The unload policy: every `Loaded` entry whose payload nobody outside the manager
    /// holds becomes `NotLoaded`. Who holds a payload is for the pointers to say, so the
    /// set of paths found without an outside owner is only known to exist.
    pub fn unload_unshared(&mut self)
        requires
            old(self).wf(),
        ensures
            final(self).wf(),
            final(self).wiring() == old(self).wiring(),
            exists|unshared: Set<Seq<char>>| final(self)@ == #[trigger] old(self)@.swept(unshared),
    {
        let ghost mut unshared: Set<Seq<char>> = Set::empty();
        proof {
            assert(self@ =~= self@.swept(unshared));
        }
        let mut i: usize = 0;
        while i < self.asset_handles.len()
            invariant
                self.wf(),
                self.wiring() == old(self).wiring(),
                self@ == old(self)@.swept(unshared),
            decreases self.asset_handles.len() - i,
        {
            let ghost before = *self;
            let mut released = false;
            match &mut self.asset_handles[i] {
                Some(handle) => {
                    match handle.strong_count() {
                        Some(n) => {
                            released = handle.unload_unshared(n);
                        },
                        None => {},
                    }
                },
                None => {},
            }
            proof {
                if before.asset_handles@[i as int] is Some {
                    let path = before.asset_handles@[i as int].unwrap().id();
                    before.lemma_changed(self, i as int);
                    if released {
                        unshared = unshared.insert(path);
                    }
                    assert(self@ =~= old(self)@.swept(unshared));
                } else {
                    assert(self.asset_handles@ =~= before.asset_handles@);
                }
            }
            i = i + 1;
        }
    }

    /// The dropout policy: every entry that is not `Loading` is removed, and its key
    /// may be given out again.
    pub fn drop_unrequested(&mut self)
        requires
            old(self).wf(),
        ensures
            final(self).wf(),
            final(self).wiring() == old(self).wiring(),
            final(self)@ == old(self)@.dropped_out(),
    {
        let ghost mut gone: Set<Seq<char>> = Set::empty();
        let mut i: usize = 0;
        proof {
            assert(self@.entries =~= old(self)@.entries.remove_keys(gone));
            assert(self@.keys =~= old(self)@.keys.remove_keys(gone));
        }
        while i < self.asset_handles.len()
            invariant
                self.wf(),
                self.wiring() == old(self).wiring(),
                i <= self.asset_handles.len(),
                self.rest_same(old(self)),
                self@.entries == old(self)@.entries.remove_keys(gone),
                self@.keys == old(self)@.keys.remove_keys(gone),
                forall|p: Seq<char>|
                    gone.contains(p) ==> old(self)@.contains(p) && old(self)@.entries[p].status
                        != LoadStatus::Loading,
                forall|j: int|
                    0 <= j < i && (#[trigger] self.asset_handles@[j]) is Some
                        ==> self.asset_handles@[j].unwrap()@.status == LoadStatus::Loading,
            decreases self.asset_handles.len() - i,
        {
            let keep = match &self.asset_handles[i] {
                Some(handle) => handle.status() == LoadStatus::Loading,
                None => true,
            };
            if !keep {
                proof {
                    let path = self.asset_handles@[i as int].unwrap().id();
                    assert(holds(self.asset_handles@, i as int, path));
                    lemma_slot(self.asset_handles@, i as int, path);
                    lemma_clear(self.asset_handles@, i as int, path);
                    let more = gone.insert(path);
                    assert(old(self)@.entries.remove_keys(gone).remove(path) =~= old(self)@.entries.remove_keys(
                        more,
                    ));
                    assert(old(self)@.keys.remove_keys(gone).remove(path) =~= old(self)@.keys.remove_keys(more));
                    gone = gone.insert(path);
                }
                self.asset_handles[i] = None;
            }
            i = i + 1;
        }
        proof {
            let slots = self.asset_handles@;
            let kept = old(self)@.dropped_out();
            assert forall|p: Seq<char>| #[trigger] self@.entries.dom().contains(p) implies {
                &&& kept.entries.dom().contains(p)
                &&& self@.entries[p] == kept.entries[p]
            } by {
                let j = index_of(slots, p);
                assert(holds(slots, j, p));
                lemma_slot(slots, j, p);
                assert(old(self)@.entries.remove_keys(gone).dom().contains(p));
            }
            assert forall|p: Seq<char>| #[trigger] kept.entries.dom().contains(p) implies self@.contains(p) by {
                assert(!gone.contains(p));
                assert(old(self)@.entries.remove_keys(gone).dom().contains(p));
            }
            assert(self@.entries =~= kept.entries);
            assert forall|p: Seq<char>| #[trigger] self@.keys.dom().contains(p) implies {
                &&& kept.keys.dom().contains(p)
                &&& self@.keys[p] == kept.keys[p]
            } by {
                assert(self@.entries.dom().contains(p));
                assert(old(self)@.keys.remove_keys(gone).dom().contains(p));
            }
            assert forall|p: Seq<char>| #[trigger] kept.keys.dom().contains(p) implies self@.contains(p) by {
                assert(kept.entries.dom().contains(p));
            }
            assert(self@.keys =~= kept.keys);
            assert(self@ =~= kept);
        }
    }

    /// Takes in the completions that are waiting, one by one and in the order they
    /// arrived (see [`complete`](Manager::complete)), until none is left. Which
    /// completions are waiting is for the loader to say; the count is capped at
    /// `usize::MAX` so that the call ends.
    pub fn take_completions(&mut self)
        requires
            old(self).wf(),
        ensures
            final(self).wf(),
            final(self).wiring() == old(self).wiring(),
            exists|batch: Seq<(Seq<char>, Vec<u8>)>| #[trigger] old(self)@.takes_in(batch, final(self)@),
            old(self)@.advances_to(final(self)@),
    {
        let ghost mut batch: Seq<(Seq<char>, Vec<u8>)> = Seq::empty();
        proof {
            self.lemma_view_wf();
            lemma_advances_reflexive(self@);
        }
        let mut budget: usize = usize::MAX;
        while budget > 0
            invariant
                self.wf(),
                self.wiring() == old(self).wiring(),
                old(self)@.takes_in(batch, self@),
                old(self)@.advances_to(self@),
            decreases budget,
        {
            match poll_completion(&self.load_recv) {
                Polled::Item(completion) => {
                    let ghost before = self@;
                    let ghost path = completion.0@;
                    let ghost bytes = completion.1;
                    self.complete(completion.0, completion.1);
                    proof {
                        lemma_batch_grows(old(self)@, batch, before, path, bytes, self@);
                        lemma_advances_compose(old(self)@, before, self@);
                        batch = batch.push((path, bytes));
                    }
                },
                _ => {
                    break ;
                },
            }
            budget = budget - 1;
        }
    }

    /// The call that a host makes regularly. It applies the unload policy, if it is on
    /// (see [`unload_unshared`](Manager::unload_unshared)), then the dropout policy, if
    /// it is on (see [`drop_unrequested`](Manager::drop_unrequested)), so that with
    /// both a payload that nobody holds loses its whole entry; then it takes in the
    /// completions that are waiting (see [`take_completions`](Manager::take_completions)).
    pub fn maintain(&mut self)
        requires
            old(self).wf(),
        ensures
            final(self).wf(),
            final(self).wiring() == old(self).wiring(),
            exists|unshared: Set<Seq<char>>, batch: Seq<(Seq<char>, Vec<u8>)>|
                #[trigger] old(self)@.evicted(unshared).takes_in(batch, final(self)@),
            exists|unshared: Set<Seq<char>>|
                #[trigger] old(self)@.evicted(unshared).advances_to(final(self)@),
    {
        let ghost mut unshared: Set<Seq<char>> = Set::empty();
        if self.unload {
            self.unload_unshared();
            proof {
                unshared = choose|unshared: Set<Seq<char>>| self@ == #[trigger] old(self)@.swept(unshared);
            }
        }
        if self.drop {
            self.drop_unrequested();
        }
        let ghost evicted = self@;
        assert(evicted == old(self)@.evicted(unshared));
        self.take_completions();
        proof {
            let batch = choose|batch: Seq<(Seq<char>, Vec<u8>)>| evicted.takes_in(batch, self@);
            assert(old(self)@.evicted(unshared).takes_in(batch, self@));
            assert(old(self)@.evicted(unshared).advances_to(self@));
        }
    }

    /// One step of [`get_blocking`](Manager::get_blocking) for `path`, given what
    /// waiting on the completion channel gave. With the channel closed (`None`) nothing
    /// changes and the wait ends without a payload. Else the completion is
    /// [taken in](Manager::complete), whichever path it is for; if it is for `path`
    /// and `path` holds a payload now, the wait ends with that payload, and in every
    /// other case it goes on (`None`).
    pub fn take_for(&mut self, path: &str, found: Option<(String, Vec<u8>)>) -> (answer: Option<
        Option<Arc<A::Structure>>,
    >)
        requires
            old(self).wf(),
        ensures
            final(self).wf(),
            final(self).wiring() == old(self).wiring(),
            match found {
                None => answer == Some(None::<Arc<A::Structure>>) && final(self)@ == old(self)@,
                Some(completion) => {
                    &&& old(self)@.completes_to(completion.0@, completion.1, final(self)@)
                    &&& match answer {
                        Some(payload) => {
                            &&& completion.0@ == path@
                            &&& payload is Some
                            &&& pointee(payload) == final(self)@.payload_of(path@)
                        },
                        None => completion.0@ != path@ || final(self)@.payload_of(path@) is None,
                    }
                },
            },
    {
        match found {
            None => Some(None),
            Some(completion) => {
                let wanted = path.to_owned();
                let hit = completion.0 == wanted;
                self.complete(completion.0, completion.1);
                if hit {
                    match self.get(path) {
                        Some(a) => Some(Some(a)),
                        None => None,
                    }
                } else {
                    None
                }
            },
        }
    }

    /// The payload of `path`, waited for if need be. A `Loaded` entry hands out its
    /// payload at once; a path that is `NotLoaded` or unknown gives nothing. For a
    /// `Loading` entry the call takes in completions as they arrive, those for other
    /// paths too, each under its own path (see [`take_for`](Manager::take_for)), until
    /// one for `path` decodes, and hands out that payload; with the loader gone it
    /// gives nothing and the entry is still `Loading`. The call waits as long as the
    /// loader lives and stays silent.
    pub fn get_blocking(&mut self, path: &str) -> (payload: Option<Arc<A::Structure>>)
        requires
            old(self).wf(),
        ensures
            final(self).wf(),
            final(self).wiring() == old(self).wiring(),
            exists|batch: Seq<(Seq<char>, Vec<u8>)>| #[trigger] old(self)@.takes_in(batch, final(self)@),
            old(self)@.advances_to(final(self)@),
            old(self)@.status_of(path@) != Some(LoadStatus::Loading) ==> final(self)@ == old(self)@,
            pointee(payload) == final(self)@.payload_of(path@),
            payload is None ==> final(self)@.status_of(path@) == old(self)@.status_of(path@),
    {
        let ghost mut batch: Seq<(Seq<char>, Vec<u8>)> = Seq::empty();
        proof {
            self.lemma_view_wf();
            lemma_advances_reflexive(self@);
        }
        match self.status(path) {
            Some(LoadStatus::Loading) => {},
            _ => {
                assert(old(self)@.takes_in(batch, self@));
                return self.get(path);
            },
        }
        let mut budget: usize = usize::MAX;
        while budget > 0
            invariant
                self.wf(),
                self.wiring() == old(self).wiring(),
                old(self)@.takes_in(batch, self@),
                old(self)@.advances_to(self@),
                self@.status_of(path@) == Some(LoadStatus::Loading),
                old(self)@.status_of(path@) == Some(LoadStatus::Loading),
            decreases budget,
        {
            let found = await_completion(&self.load_recv);
            let ghost before = self@;
            let ghost arrived = found;
            proof {
                self.lemma_view_wf();
            }
            let answer = self.take_for(path, found);
            proof {
                self.lemma_view_wf();
                match arrived {
                    Some(completion) => {
                        lemma_completion_advances(before, completion.0@, completion.1, self@);
                        lemma_batch_grows(old(self)@, batch, before, completion.0@, completion.1, self@);
                        lemma_advances_compose(old(self)@, before, self@);
                        batch = batch.push((completion.0@, completion.1));
                    },
                    None => {},
                }
            }
            match answer {
                Some(payload) => {
                    return payload;
                },
                None => {},
            }
            budget = budget - 1;
        }
        None
    }

    /// The payload of the entry with the smallest key, if that entry holds one; nothing
    /// at all for a manager without entries.
    pub fn next(&self) -> (first: Option<Option<Arc<A::Structure>>>)
        requires
            self.wf(),
        ensures
            match first {
                Some(payload) => exists|path: Seq<char>|
                    #[trigger] self@.is_first(path) && pointee(payload) == self@.payload_of(path),
                None => forall|path: Seq<char>| !self@.contains(path),
            },
    {
        let k = self.first_taken();
        if k < self.asset_handles.len() {
            match &self.asset_handles[k] {
                Some(handle) => {
                    proof {
                        let slots = self.asset_handles@;
                        let path = handle.id();
                        assert(holds(slots, k as int, path));
                        lemma_slot(slots, k as int, path);
                        assert forall|other: Seq<char>| self@.contains(other) implies self@.keys[path]
                            <= #[trigger] self@.keys[other] by {
                            assert(holds(slots, index_of(slots, other), other));
                        }
                        assert(self@.is_first(path));
                    }
                    match handle.get() {
                        Some(a) => Some(Some(share(a))),
                        None => Some(None),
                    }
                },
                None => None,
            }
        } else {
            proof {
                let slots = self.asset_handles@;
                assert forall|path: Seq<char>| !self@.contains(path) by {
                    if self@.contains(path) {
                        assert(holds(slots, index_of(slots, path), path));
                    }
                }
            }
            None
        }
    }

    /// The first taken slot, or the number of slots if none is taken.
    fn first_taken(&self) -> (k: usize)
        ensures
            k <= self.asset_handles@.len(),
            forall|j: int| 0 <= j < k ==> (#[trigger] self.asset_handles@[j]) is None,
            k < self.asset_handles@.len() ==> self.asset_handles@[k as int] is Some,
    {
        let mut k: usize = 0;
        while k < self.asset_handles.len()
            invariant
                k <= self.asset_handles.len(),
                forall|j: int| 0 <= j < k ==> (#[trigger] self.asset_handles@[j]) is None,
            decreases self.asset_handles.len() - k,
        {
            if self.asset_handles[k].is_some() {
                return k;
            }
            k = k + 1;
        }
        k
    }
}

} // verus!
