//! The mathematical model of a cache: what a manager holds, as maps, and what each
//! operation does to it.

use crate::asset::{decodes_to, Asset};
use crate::status::{DecodeError, LoadError, LoadStatus};
use vstd::prelude::*;

verus! {

/// What one entry holds.
pub struct EntryModel<A: Asset> {
    /// Where the entry stands in its load cycle.
    pub status: LoadStatus,
    /// The decoded value, while the entry holds one.
    pub payload: Option<A::Structure>,
    /// The entry's side data, fixed when the entry is made.
    pub data: A::DataAsset,
}

impl<A: Asset> EntryModel<A> {
    /// An entry holds a payload exactly while it is `Loaded`.
    pub open spec fn wf(self) -> bool {
        self.payload is Some <==> self.status == LoadStatus::Loaded
    }

    /// The entry a first insert makes.
    pub open spec fn fresh(data: A::DataAsset) -> Self {
        EntryModel { status: LoadStatus::NotLoaded, payload: None, data }
    }

    /// The entry without its payload.
    pub open spec fn unloaded(self) -> Self {
        EntryModel { status: LoadStatus::NotLoaded, payload: None, data: self.data }
    }

    /// The entry once a request for it is under way.
    pub open spec fn loading(self) -> Self {
        EntryModel { status: LoadStatus::Loading, payload: None, data: self.data }
    }

    /// The entry holding `value`.
    pub open spec fn loaded(self, value: A::Structure) -> Self {
        EntryModel { status: LoadStatus::Loaded, payload: Some(value), data: self.data }
    }

    /// The entry after a completion whose decoding gave `decoded`: a failure changes
    /// nothing.
    pub open spec fn installed(self, decoded: Result<A::Structure, DecodeError>) -> Self {
        match decoded {
            Ok(value) => self.loaded(value),
            Err(_) => self,
        }
    }

    /// The entry after the unload policy looked at it and counted `owners` pointers to
    /// its payload: with the entry's own pointer as the only one, the payload goes.
    pub open spec fn released(self, owners: int) -> Self {
        if self.status == LoadStatus::Loaded && owners == 1 {
            self.unloaded()
        } else {
            self
        }
    }
}


/// What a manager holds: its entries by path, the key each entry was given, the eviction
/// flags, and the log of paths whose payload arrived since the log was last taken.
#[verifier::ext_equal]
pub struct CacheModel<A: Asset> {
    /// The entries, by path.
    pub entries: Map<Seq<char>, EntryModel<A>>,
    /// The key of each entry: the number callers get back from an insert.
    pub keys: Map<Seq<char>, nat>,
    /// Whether [`evicted`](Self::evicted) lets go of payloads nobody else holds.
    pub auto_unload: bool,
    /// Whether [`evicted`](Self::evicted) removes entries that are not being loaded.
    pub auto_dropout: bool,
    /// The number under which the loader knows this manager.
    pub loader_id: nat,
    /// The paths whose payload arrived, oldest first.
    pub loaded_once: Seq<Seq<char>>,
    /// The side data shared by all entries.
    pub data: A::DataManager,
}

impl<A: Asset> CacheModel<A> {
    /// A manager without entries, with both eviction flags off.
    pub open spec fn empty(loader_id: nat, data: A::DataManager) -> Self {
        CacheModel {
            entries: Map::empty(),
            keys: Map::empty(),
            auto_unload: false,
            auto_dropout: false,
            loader_id,
            loaded_once: Seq::empty(),
            data,
        }
    }

    /// Whether `path` has an entry.
    pub open spec fn contains(self, path: Seq<char>) -> bool {
        self.entries.dom().contains(path)
    }

    /// The status of `path`'s entry, if there is one.
    pub open spec fn status_of(self, path: Seq<char>) -> Option<LoadStatus> {
        if self.contains(path) {
            Some(self.entries[path].status)
        } else {
            None
        }
    }

    /// The payload of `path`'s entry, if there is an entry and it holds one.
    pub open spec fn payload_of(self, path: Seq<char>) -> Option<A::Structure> {
        if self.contains(path) {
            self.entries[path].payload
        } else {
            None
        }
    }

    /// Every key is below `bound`.
    pub open spec fn keys_below(self, bound: nat) -> bool {
        forall|p: Seq<char>| self.contains(p) ==> #[trigger] self.keys[p] < bound
    }

    /// No entry has the key `key`.
    pub open spec fn vacant(self, key: nat) -> bool {
        forall|p: Seq<char>| self.contains(p) ==> #[trigger] self.keys[p] != key
    }

    /// `key` is the least key that no entry has.
    pub open spec fn is_first_vacant(self, key: nat) -> bool {
        &&& self.vacant(key)
        &&& forall|smaller: nat| smaller < key ==> !#[trigger] self.vacant(smaller)
    }

    /// The least key that no entry has: the key the next new entry gets.
    pub open spec fn first_vacant(self) -> nat {
        choose|key: nat| self.is_first_vacant(key)
    }

    /// The key under which `path` is or would be stored.
    pub open spec fn key_for(self, path: Seq<char>) -> nat {
        if self.contains(path) {
            self.keys[path]
        } else {
            self.first_vacant()
        }
    }

    /// `path` has an entry, and no entry has a smaller key.
    pub open spec fn is_first(self, path: Seq<char>) -> bool {
        &&& self.contains(path)
        &&& forall|other: Seq<char>| self.contains(other) ==> self.keys[path] <= #[trigger] self.keys[other]
    }

    /// What every manager keeps true: each entry has exactly one key and no two entries
    /// share one, the keys stay below some bound, and an entry holds a payload exactly
    /// while it is `Loaded`.
    pub open spec fn wf(self) -> bool {
        &&& self.keys.dom() =~= self.entries.dom()
        &&& forall|p: Seq<char>| self.contains(p) ==> (#[trigger] self.entries[p]).wf()
        &&& forall|p: Seq<char>, q: Seq<char>|
            self.contains(p) && self.contains(q) && #[trigger] self.keys[p] == #[trigger] self.keys[q]
                ==> p == q
        &&& exists|bound: nat| self.keys_below(bound)
    }

    /// The manager with `entry` stored under `path`, the key being what it was or else
    /// the first vacant one.
    pub open spec fn with_entry(self, path: Seq<char>, entry: EntryModel<A>) -> Self {
        CacheModel {
            entries: self.entries.insert(path, entry),
            keys: self.keys.insert(path, self.key_for(path)),
            ..self
        }
    }

    /// After `insert`: a known path changes nothing, a new one gets a fresh entry under
    /// the first vacant key.
    pub open spec fn inserted(self, path: Seq<char>, data: A::DataAsset) -> Self {
        if self.contains(path) {
            self
        } else {
            self.with_entry(path, EntryModel::fresh(data))
        }
    }

    /// After `insert_raw`: `path` has a `Loaded` entry holding `asset`, in place of
    /// whatever it had.
    pub open spec fn inserted_raw(self, path: Seq<char>, asset: A::Structure, data: A::DataAsset) -> Self {
        self.with_entry(path, EntryModel::fresh(data).loaded(asset))
    }

    /// After a request for `path` went out: a known path is `Loading`.
    pub open spec fn marked_loading(self, path: Seq<char>) -> Self {
        if self.contains(path) {
            self.with_entry(path, self.entries[path].loading())
        } else {
            self
        }
    }

    /// What `load` answers for `path`, given whether the source resolves it and whether
    /// the request could be queued.
    pub open spec fn load_outcome(self, path: Seq<char>, resolves: bool, queued: bool) -> Result<
        (),
        LoadError,
    > {
        if !self.contains(path) {
            Err(LoadError::NotFound)
        } else if !resolves {
            Err(LoadError::SourceUnavailable)
        } else if !queued {
            Err(LoadError::ChannelClosed)
        } else {
            Ok(())
        }
    }

    /// After `load` for `path`, given whether the source resolves it: only a known path
    /// that resolves becomes `Loading`.
    pub open spec fn load_begun(self, path: Seq<char>, resolves: bool) -> Self {
        if resolves {
            self.marked_loading(path)
        } else {
            self
        }
    }

    /// After `unload`: a known path is `NotLoaded` and holds nothing.
    pub open spec fn unloaded(self, path: Seq<char>) -> Self {
        if self.contains(path) {
            self.with_entry(path, self.entries[path].unloaded())
        } else {
            self
        }
    }

    /// After `drop`: `path` has no entry and no key.
    pub open spec fn dropped(self, path: Seq<char>) -> Self {
        CacheModel { entries: self.entries.remove(path), keys: self.keys.remove(path), ..self }
    }

    /// After a completion for `path` whose decoding gave `decoded`: on success a known
    /// path is `Loaded` with the decoded value and is appended to the log; a failure or
    /// an unknown path changes nothing.
    pub open spec fn installed(self, path: Seq<char>, decoded: Result<A::Structure, DecodeError>) -> Self {
        if self.contains(path) && decoded is Ok {
            CacheModel {
                loaded_once: self.loaded_once.push(path),
                ..self.with_entry(path, self.entries[path].installed(decoded))
            }
        } else {
            self
        }
    }

    /// `next` can be what this manager becomes by taking in one completion, the `bytes`
    /// fetched for `path`: for a known path, what decoding the bytes with the entry's and
    /// the manager's side data gave is installed; for an unknown path nothing changes.
    pub open spec fn completes_to(self, path: Seq<char>, bytes: Vec<u8>, next: Self) -> bool {
        if self.contains(path) {
            exists|decoded: Result<A::Structure, DecodeError>|
                {
                    &&& #[trigger] decodes_to::<A>(bytes, self.entries[path].data, self.data, decoded)
                    &&& next == self.installed(path, decoded)
                }
        } else {
            next == self
        }
    }

    /// `next` can be what this manager becomes by taking in the completions of `batch`,
    /// each a path and the bytes fetched for it, from the first to the last.
    pub open spec fn takes_in(self, batch: Seq<(Seq<char>, Vec<u8>)>, next: Self) -> bool
        decreases batch.len(),
    {
        if batch.len() == 0 {
            next == self
        } else {
            exists|before_last: Self|
                {
                    &&& self.takes_in(batch.drop_last(), before_last)
                    &&& #[trigger] before_last.completes_to(batch.last().0, batch.last().1, next)
                }
        }
    }

    /// After the log was taken: it is empty.
    pub open spec fn log_taken(self) -> Self {
        CacheModel { loaded_once: Seq::empty(), ..self }
    }

    /// After the unload policy ran and found the payloads of exactly the paths in
    /// `unshared` without an outside owner: those among them that are `Loaded` are
    /// `NotLoaded` now.
    pub open spec fn swept(self, unshared: Set<Seq<char>>) -> Self {
        CacheModel {
            entries: Map::new(
                |p: Seq<char>| self.contains(p),
                |p: Seq<char>|
                    if unshared.contains(p) {
                        self.entries[p].released(1)
                    } else {
                        self.entries[p]
                    },
            ),
            ..self
        }
    }

    /// After the dropout policy ran: only the entries that are `Loading` are left.
    pub open spec fn dropped_out(self) -> Self {
        CacheModel {
            entries: Map::new(
                |p: Seq<char>| self.contains(p) && self.entries[p].status == LoadStatus::Loading,
                |p: Seq<char>| self.entries[p],
            ),
            keys: Map::new(
                |p: Seq<char>| self.contains(p) && self.entries[p].status == LoadStatus::Loading,
                |p: Seq<char>| self.keys[p],
            ),
            ..self
        }
    }

    /// After the eviction step of `maintain`: first the unload policy, if it is on, then
    /// the dropout policy, if it is on.
    pub open spec fn evicted(self, unshared: Set<Seq<char>>) -> Self {
        let swept = if self.auto_unload {
            self.swept(unshared)
        } else {
            self
        };
        if self.auto_dropout {
            swept.dropped_out()
        } else {
            swept
        }
    }

    /// `next` can be what this manager becomes by taking in completions, however many
    /// and whatever they hold: the same paths under the same keys with the same side
    /// data, each entry either as it was or `Loaded`, and a log that only grew, by paths
    /// that are `Loaded` now.
    pub open spec fn advances_to(self, next: Self) -> bool {
        &&& next.entries.dom() =~= self.entries.dom()
        &&& next.keys =~= self.keys
        &&& next.auto_unload == self.auto_unload
        &&& next.auto_dropout == self.auto_dropout
        &&& next.loader_id == self.loader_id
        &&& next.data == self.data
        &&& forall|p: Seq<char>|
            self.contains(p) ==> {
                ||| #[trigger] next.entries[p] == self.entries[p]
                ||| (next.entries[p].status == LoadStatus::Loaded && next.entries[p].payload is Some
                    && next.entries[p].data == self.entries[p].data)
            }
        &&& self.loaded_once.len() <= next.loaded_once.len()
        &&& forall|i: int|
            0 <= i < next.loaded_once.len() ==> {
                if i < self.loaded_once.len() {
                    #[trigger] next.loaded_once[i] == self.loaded_once[i]
                } else {
                    next.status_of(next.loaded_once[i]) == Some(LoadStatus::Loaded)
                }
            }
    }
}

} // verus!
