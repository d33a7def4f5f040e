use crate::channel::owners;
use crate::model::EntryModel;
use crate::status::{DecodeError, LoadStatus};
use std::sync::Arc;
use vstd::prelude::*;

verus! {

/// The decode contract of one asset type: how raw bytes become the structure callers want.
///
/// `decode` must be a pure function of its three arguments. An implementation that is
/// itself verified may say in its own `ensures` what it returns; the cache passes that on
/// (see [`decodes_to`]).
pub trait Asset: Sized {
    /// Side data shared by every entry of one manager.
    type DataManager;

    /// Side data of one entry.
    type DataAsset;

    /// The decoded value.
    type Structure;

    /// Decodes `bytes`, with the entry's and the manager's side data at hand.
    fn decode(bytes: Vec<u8>, data_ass: &Self::DataAsset, data_mgr: &Self::DataManager) -> (decoded:
        Result<Self::Structure, DecodeError>)
    ;
}

/// `decoded` is a value that `A::decode` may return for these arguments.
pub open spec fn decodes_to<A: Asset>(
    bytes: Vec<u8>,
    data_ass: A::DataAsset,
    data_mgr: A::DataManager,
    decoded: Result<A::Structure, DecodeError>,
) -> bool {
    A::decode.ensures((bytes, &data_ass, &data_mgr), decoded)
}

/// `A::decode` can only succeed with `value` for these arguments: what an implementation
/// says in its `ensures` leaves no other outcome.
pub open spec fn decodes_only_to<A: Asset>(
    bytes: Vec<u8>,
    data_ass: A::DataAsset,
    data_mgr: A::DataManager,
    value: A::Structure,
) -> bool {
    forall|decoded: Result<A::Structure, DecodeError>| #[trigger]
        decodes_to::<A>(bytes, data_ass, data_mgr, decoded) ==> decoded == Ok::<
            A::Structure,
            DecodeError,
        >(value)
}

/// The value behind a shared payload, if there is one.
pub open spec fn pointee<T>(payload: Option<Arc<T>>) -> Option<T> {
    match payload {
        Some(a) => Some(*a),
        None => None,
    }
}

/// One slot of a cache: a path, its status, and the shared payload once it is loaded.
pub struct AssetHandle<A: Asset> {
    path: String,
    asset: Option<Arc<A::Structure>>,
    status: LoadStatus,
    data: A::DataAsset,
}

impl<A: Asset> View for AssetHandle<A> {
    type V = EntryModel<A>;

    closed spec fn view(&self) -> EntryModel<A> {
        EntryModel {
            status: self.status,
            payload: pointee(self.asset),
            data: self.data,
        }
    }
}

impl<A: Asset> AssetHandle<A> {
    /// The path this handle stands for.
    pub closed spec fn id(&self) -> Seq<char> {
        self.path@
    }

    /// A handle for `path` that holds nothing yet.
    pub fn new(path: String, data: A::DataAsset) -> (handle: Self)
        ensures
            handle.id() == path@,
            handle@ == EntryModel::<A>::fresh(data),
    {
        Self { path, asset: None, status: LoadStatus::NotLoaded, data }
    }

    /// The path this handle stands for.
    pub fn path(&self) -> (path: &String)
        ensures
            path@ == self.id(),
    {
        &self.path
    }

    /// Where the handle stands in its load cycle.
    pub fn status(&self) -> (status: LoadStatus)
        ensures
            status == self@.status,
    {
        self.status
    }

    /// The side data given when the handle was made.
    pub fn data(&self) -> (data: &A::DataAsset)
        ensures
            *data == self@.data,
    {
        &self.data
    }

    /// Lets go of the payload, whatever the status was.
    pub fn unload(&mut self)
        ensures
            final(self).id() == old(self).id(),
            final(self)@ == old(self)@.unloaded(),
    {
        self.asset = None;
        self.status = LoadStatus::NotLoaded;
    }

    /// Takes `a` as the payload, behind a fresh shared pointer.
    pub fn set(&mut self, a: A::Structure)
        ensures
            final(self).id() == old(self).id(),
            final(self)@ == old(self)@.loaded(a),
    {
        self.asset = Some(Arc::new(a));
        self.status = LoadStatus::Loaded;
    }

    /// Notes that a request for the payload is under way. A payload still held is let go
    /// of, so that a handle never shows one while it is not `Loaded`.
    pub fn start_loading(&mut self)
        ensures
            final(self).id() == old(self).id(),
            final(self)@ == old(self)@.loading(),
    {
        self.asset = None;
        self.status = LoadStatus::Loading;
    }

    /// The shared payload, if the handle holds one; for a well-formed handle that is
    /// exactly while it is `Loaded`.
    pub fn get(&self) -> (payload: Option<&Arc<A::Structure>>)
        ensures
            match payload {
                Some(a) => self@.payload == Some(**a),
                None => self@.payload is None,
            },
            self@.wf() ==> (payload is Some <==> self@.status == LoadStatus::Loaded),
    {
        self.asset.as_ref()
    }

    /// How many pointers to the payload are alive, this handle's own among them; nothing
    /// where no payload is held.
    pub fn strong_count(&self) -> (count: Option<usize>)
        ensures
            count is Some <==> self@.payload is Some,
            count matches Some(n) ==> n >= 1,
    {
        match &self.asset {
            Some(a) => Some(owners(a)),
            None => None,
        }
    }

    /// Applies the unload policy for a payload that `owners` pointers share: when the
    /// handle is `Loaded` and its own pointer is the only one, the payload goes. Says
    /// whether it did.
    pub fn unload_unshared(&mut self, owners: usize) -> (released: bool)
        ensures
            released == (old(self)@.status == LoadStatus::Loaded && owners == 1),
            final(self).id() == old(self).id(),
            final(self)@ == old(self)@.released(owners as int),
    {
        if self.status == LoadStatus::Loaded && owners == 1 {
            self.unload();
            true
        } else {
            false
        }
    }
}

} // verus!
