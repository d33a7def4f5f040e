//! What holds of every cache, proved over the model of [`crate::model`].

use crate::asset::{decodes_only_to, decodes_to, Asset};
use crate::model::{CacheModel, EntryModel};
use crate::status::{DecodeError, LoadError, LoadStatus};
use vstd::prelude::*;

verus! {

/// Below any vacant key lies a first vacant one.
proof fn lemma_least_vacant<A: Asset>(m: CacheModel<A>, key: nat)
    requires
        m.vacant(key),
    ensures
        exists|least: nat| least <= key && m.is_first_vacant(least),
    decreases key,
{
    if forall|smaller: nat| smaller < key ==> !#[trigger] m.vacant(smaller) {
        assert(m.is_first_vacant(key));
    } else {
        let smaller = choose|smaller: nat| smaller < key && m.vacant(smaller);
        lemma_least_vacant(m, smaller);
    }
}

/// A manager always has a first vacant key, and no entry has it.
pub proof fn lemma_first_vacant<A: Asset>(m: CacheModel<A>)
    requires
        m.wf(),
    ensures
        m.is_first_vacant(m.first_vacant()),
        m.vacant(m.first_vacant()),
{
    let bound = choose|bound: nat| m.keys_below(bound);
    assert(m.vacant(bound));
    lemma_least_vacant(m, bound);
}

/// Only one key is the first vacant one.
pub proof fn lemma_first_vacant_unique<A: Asset>(m: CacheModel<A>, key: nat)
    requires
        m.is_first_vacant(key),
    ensures
        m.first_vacant() == key,
{
    let chosen = m.first_vacant();
    assert(m.is_first_vacant(chosen));
    if chosen < key {
        assert(!m.vacant(chosen));
    } else if key < chosen {
        assert(!m.vacant(key));
    }
}

/// Storing a well-formed entry under a path keeps the manager well-formed.
pub proof fn lemma_with_entry_wf<A: Asset>(m: CacheModel<A>, path: Seq<char>, entry: EntryModel<A>)
    requires
        m.wf(),
        entry.wf(),
    ensures
        m.with_entry(path, entry).wf(),
        m.with_entry(path, entry).contains(path),
        m.with_entry(path, entry).keys[path] == m.key_for(path),
{
    let next = m.with_entry(path, entry);
    lemma_first_vacant(m);
    let bound = choose|bound: nat| m.keys_below(bound);
    let key = m.key_for(path);
    let wider = if bound <= key {
        key + 1
    } else {
        bound
    } as nat;
    assert forall|p: Seq<char>| next.contains(p) implies #[trigger] next.keys[p] < wider by {
        if p != path {
            assert(m.contains(p));
            assert(m.keys[p] < bound);
        }
    }
    assert(next.keys_below(wider));
    assert forall|p: Seq<char>, q: Seq<char>|
        next.contains(p) && next.contains(q) && #[trigger] next.keys[p] == #[trigger] next.keys[q] implies p
        == q by {
        if p != q {
            if p == path {
                assert(m.contains(q));
                assert(m.keys[q] != m.first_vacant());
            } else if q == path {
                assert(m.contains(p));
                assert(m.keys[p] != m.first_vacant());
            } else {
                assert(m.contains(p) && m.contains(q));
            }
        }
    }
    assert forall|p: Seq<char>| next.contains(p) implies (#[trigger] next.entries[p]).wf() by {
        if p != path {
            assert(m.contains(p));
        }
    }
}

/// Every operation on single paths keeps a manager well-formed.
pub proof fn law_steps_keep_wf<A: Asset>(
    m: CacheModel<A>,
    path: Seq<char>,
    data: A::DataAsset,
    asset: A::Structure,
    decoded: Result<A::Structure, DecodeError>,
    resolves: bool,
)
    requires
        m.wf(),
    ensures
        m.inserted(path, data).wf(),
        m.inserted_raw(path, asset, data).wf(),
        m.marked_loading(path).wf(),
        m.load_begun(path, resolves).wf(),
        m.unloaded(path).wf(),
        m.dropped(path).wf(),
        m.installed(path, decoded).wf(),
        m.log_taken().wf(),
{
    lemma_with_entry_wf(m, path, EntryModel::<A>::fresh(data));
    lemma_with_entry_wf(m, path, EntryModel::<A>::fresh(data).loaded(asset));
    if m.contains(path) {
        lemma_with_entry_wf(m, path, m.entries[path].loading());
        lemma_with_entry_wf(m, path, m.entries[path].unloaded());
        lemma_with_entry_wf(m, path, m.entries[path].installed(decoded));
        if decoded is Ok {
            let inner = m.with_entry(path, m.entries[path].installed(decoded));
            let bound = choose|bound: nat| inner.keys_below(bound);
            assert(m.installed(path, decoded).keys_below(bound));
        }
    }
    let bound = choose|bound: nat| m.keys_below(bound);
    let dropped = m.dropped(path);
    assert forall|p: Seq<char>| dropped.contains(p) implies #[trigger] dropped.keys[p] < bound by {
        assert(m.contains(p));
    }
    assert(dropped.keys_below(bound));
    assert(m.log_taken().keys_below(bound));
}

/// Both eviction policies keep a manager well-formed.
pub proof fn law_eviction_keeps_wf<A: Asset>(m: CacheModel<A>, unshared: Set<Seq<char>>)
    requires
        m.wf(),
    ensures
        m.swept(unshared).wf(),
        m.dropped_out().wf(),
        m.evicted(unshared).wf(),
{
    let bound = choose|bound: nat| m.keys_below(bound);
    let swept = m.swept(unshared);
    assert(swept.keys_below(bound));
    assert(swept.wf());
    let out = m.dropped_out();
    assert forall|p: Seq<char>| out.contains(p) implies #[trigger] out.keys[p] < bound by {
        assert(m.contains(p));
    }
    assert(out.keys_below(bound));
    assert forall|p: Seq<char>, q: Seq<char>|
        out.contains(p) && out.contains(q) && #[trigger] out.keys[p] == #[trigger] out.keys[q] implies p
        == q by {
        assert(m.contains(p) && m.contains(q));
        assert(m.keys[p] == m.keys[q]);
    }
    assert(out.wf());
    let both = swept.dropped_out();
    assert forall|p: Seq<char>| both.contains(p) implies #[trigger] both.keys[p] < bound by {
        assert(swept.contains(p));
    }
    assert(both.keys_below(bound));
    assert forall|p: Seq<char>, q: Seq<char>|
        both.contains(p) && both.contains(q) && #[trigger] both.keys[p] == #[trigger] both.keys[q] implies p
        == q by {
        assert(swept.contains(p) && swept.contains(q));
        assert(swept.keys[p] == swept.keys[q]);
    }
    assert(both.wf());
}

/// Taking in completions keeps a manager well-formed.
pub proof fn law_advance_keeps_wf<A: Asset>(m: CacheModel<A>, next: CacheModel<A>)
    requires
        m.wf(),
        m.advances_to(next),
    ensures
        next.wf(),
{
    let bound = choose|bound: nat| m.keys_below(bound);
    assert(next.keys_below(bound));
    assert forall|p: Seq<char>| next.contains(p) implies (#[trigger] next.entries[p]).wf() by {
        assert(m.contains(p));
        assert(m.entries[p].wf());
    }
}

/// Taking in nothing is an advance.
pub proof fn lemma_advances_reflexive<A: Asset>(m: CacheModel<A>)
    ensures
        m.advances_to(m),
{
}

/// An advance after an advance is an advance.
pub proof fn lemma_advances_compose<A: Asset>(a: CacheModel<A>, b: CacheModel<A>, c: CacheModel<A>)
    requires
        a.advances_to(b),
        b.advances_to(c),
    ensures
        a.advances_to(c),
{
    assert forall|p: Seq<char>| a.contains(p) implies {
        ||| #[trigger] c.entries[p] == a.entries[p]
        ||| (c.entries[p].status == LoadStatus::Loaded && c.entries[p].payload is Some
            && c.entries[p].data == a.entries[p].data)
    } by {
        assert(b.contains(p));
        assert(b.entries[p] == a.entries[p] || b.entries[p].status == LoadStatus::Loaded);
        assert(c.entries[p] == b.entries[p] || c.entries[p].status == LoadStatus::Loaded);
    }
    assert forall|i: int| 0 <= i < c.loaded_once.len() implies {
        if i < a.loaded_once.len() {
            #[trigger] c.loaded_once[i] == a.loaded_once[i]
        } else {
            c.status_of(c.loaded_once[i]) == Some(LoadStatus::Loaded)
        }
    } by {
        if i < b.loaded_once.len() {
            assert(c.loaded_once[i] == b.loaded_once[i]);
            if i >= a.loaded_once.len() {
                let p = b.loaded_once[i];
                assert(b.status_of(p) == Some(LoadStatus::Loaded));
                assert(b.contains(p));
                assert(c.entries[p] == b.entries[p] || c.entries[p].status == LoadStatus::Loaded);
            }
        }
    }
}

/// One completion is an advance.
pub proof fn lemma_install_advances<A: Asset>(
    m: CacheModel<A>,
    path: Seq<char>,
    decoded: Result<A::Structure, DecodeError>,
)
    requires
        m.wf(),
    ensures
        m.advances_to(m.installed(path, decoded)),
{
    let next = m.installed(path, decoded);
    if m.contains(path) && decoded is Ok {
        assert(next.entries.dom() =~= m.entries.dom());
        assert(next.keys =~= m.keys);
        assert forall|i: int| 0 <= i < next.loaded_once.len() implies {
            if i < m.loaded_once.len() {
                #[trigger] next.loaded_once[i] == m.loaded_once[i]
            } else {
                next.status_of(next.loaded_once[i]) == Some(LoadStatus::Loaded)
            }
        } by {}
    }
}

/// One completion is an advance, and keeps a manager well-formed.
pub proof fn lemma_completion_advances<A: Asset>(
    m: CacheModel<A>,
    path: Seq<char>,
    bytes: Vec<u8>,
    next: CacheModel<A>,
)
    requires
        m.wf(),
        m.completes_to(path, bytes, next),
    ensures
        m.advances_to(next),
        next.wf(),
{
    if m.contains(path) {
        let decoded = choose|decoded: Result<A::Structure, DecodeError>|
            {
                &&& #[trigger] decodes_to::<A>(bytes, m.entries[path].data, m.data, decoded)
                &&& next == m.installed(path, decoded)
            };
        lemma_install_advances(m, path, decoded);
    } else {
        lemma_advances_reflexive(m);
    }
    law_advance_keeps_wf(m, next);
}

/// Taking in a batch of completions is an advance, and keeps a manager well-formed:
/// no path comes or goes, no key changes, and an entry is as it was or `Loaded`.
pub proof fn law_batch_advances<A: Asset>(
    m: CacheModel<A>,
    batch: Seq<(Seq<char>, Vec<u8>)>,
    next: CacheModel<A>,
)
    requires
        m.wf(),
        m.takes_in(batch, next),
    ensures
        m.advances_to(next),
        next.wf(),
    decreases batch.len(),
{
    if batch.len() == 0 {
        lemma_advances_reflexive(m);
    } else {
        let before_last = choose|before_last: CacheModel<A>|
            {
                &&& m.takes_in(batch.drop_last(), before_last)
                &&& #[trigger] before_last.completes_to(batch.last().0, batch.last().1, next)
            };
        law_batch_advances(m, batch.drop_last(), before_last);
        lemma_completion_advances(before_last, batch.last().0, batch.last().1, next);
        lemma_advances_compose(m, before_last, next);
    }
}

/// A batch with one more completion at its end is taken in by taking in the batch and
/// then that completion.
pub proof fn lemma_batch_grows<A: Asset>(
    m: CacheModel<A>,
    batch: Seq<(Seq<char>, Vec<u8>)>,
    before_last: CacheModel<A>,
    path: Seq<char>,
    bytes: Vec<u8>,
    next: CacheModel<A>,
)
    requires
        m.takes_in(batch, before_last),
        before_last.completes_to(path, bytes, next),
    ensures
        m.takes_in(batch.push((path, bytes)), next),
{
    let longer = batch.push((path, bytes));
    assert(longer.drop_last() =~= batch);
    assert(before_last.completes_to(longer.last().0, longer.last().1, next));
}

/// A completion for one path leaves every other path as it was.
pub proof fn lemma_completion_spares<A: Asset>(
    m: CacheModel<A>,
    path: Seq<char>,
    bytes: Vec<u8>,
    next: CacheModel<A>,
    other: Seq<char>,
)
    requires
        m.completes_to(path, bytes, next),
        other != path,
    ensures
        next.contains(other) == m.contains(other),
        next.entries[other] == m.entries[other],
        next.keys[other] == m.keys[other],
{
}

/// A completion for a known path whose bytes can only decode to `value` leaves that
/// path `Loaded` with `value`.
pub proof fn lemma_completion_loads<A: Asset>(
    m: CacheModel<A>,
    path: Seq<char>,
    bytes: Vec<u8>,
    value: A::Structure,
    next: CacheModel<A>,
)
    requires
        m.contains(path),
        m.completes_to(path, bytes, next),
        decodes_only_to::<A>(bytes, m.entries[path].data, m.data, value),
    ensures
        next.contains(path),
        next.entries[path] == m.entries[path].loaded(value),
        next.keys[path] == m.keys[path],
        next.data == m.data,
{
}

/// A batch that holds no completion for a path leaves that path as it was.
pub proof fn law_batch_spares<A: Asset>(
    m: CacheModel<A>,
    batch: Seq<(Seq<char>, Vec<u8>)>,
    next: CacheModel<A>,
    path: Seq<char>,
)
    requires
        m.takes_in(batch, next),
        forall|i: int| 0 <= i < batch.len() ==> (#[trigger] batch[i]).0 != path,
    ensures
        next.contains(path) == m.contains(path),
        next.entries[path] == m.entries[path],
        next.keys[path] == m.keys[path],
    decreases batch.len(),
{
    if batch.len() > 0 {
        let before_last = choose|before_last: CacheModel<A>|
            {
                &&& m.takes_in(batch.drop_last(), before_last)
                &&& #[trigger] before_last.completes_to(batch.last().0, batch.last().1, next)
            };
        let front = batch.drop_last();
        assert forall|i: int| 0 <= i < front.len() implies (#[trigger] front[i]).0 != path by {
            assert(front[i] == batch[i]);
        }
        law_batch_spares(m, front, before_last, path);
        assert(batch[batch.len() - 1].0 != path);
        lemma_completion_spares(before_last, batch.last().0, batch.last().1, next, path);
    }
}

/// The round trip through `maintain`: a path that is `Loading` outlives the eviction
/// step, whatever the policies; when its completion is the one taken in, and the bytes
/// can only decode to `value`, the path is `Loaded` with `value` under its old key.
pub proof fn law_maintain_round_trip<A: Asset>(
    m: CacheModel<A>,
    unshared: Set<Seq<char>>,
    path: Seq<char>,
    bytes: Vec<u8>,
    value: A::Structure,
    next: CacheModel<A>,
)
    requires
        m.wf(),
        m.status_of(path) == Some(LoadStatus::Loading),
        decodes_only_to::<A>(bytes, m.entries[path].data, m.data, value),
        m.evicted(unshared).takes_in(seq![(path, bytes)], next),
    ensures
        next.status_of(path) == Some(LoadStatus::Loaded),
        next.payload_of(path) == Some(value),
        next.keys[path] == m.keys[path],
{
    let evicted = m.evicted(unshared);
    let batch = seq![(path, bytes)];
    assert(evicted.contains(path) && evicted.entries[path] == m.entries[path]);
    let before_last = choose|before_last: CacheModel<A>|
        {
            &&& evicted.takes_in(batch.drop_last(), before_last)
            &&& #[trigger] before_last.completes_to(batch.last().0, batch.last().1, next)
        };
    assert(batch.drop_last().len() == 0);
    assert(before_last == evicted);
    lemma_completion_loads(evicted, path, bytes, value, next);
}

/// Two paths that are `Loading`, whose completions are taken in by one `maintain` in
/// the order `other` then `one`, whichever was asked for first: each ends `Loaded` with
/// what its own bytes decode to.
pub proof fn law_maintain_two_paths<A: Asset>(
    m: CacheModel<A>,
    unshared: Set<Seq<char>>,
    one: Seq<char>,
    bytes_one: Vec<u8>,
    value_one: A::Structure,
    other: Seq<char>,
    bytes_other: Vec<u8>,
    value_other: A::Structure,
    next: CacheModel<A>,
)
    requires
        m.wf(),
        one != other,
        m.status_of(one) == Some(LoadStatus::Loading),
        m.status_of(other) == Some(LoadStatus::Loading),
        decodes_only_to::<A>(bytes_one, m.entries[one].data, m.data, value_one),
        decodes_only_to::<A>(bytes_other, m.entries[other].data, m.data, value_other),
        m.evicted(unshared).takes_in(seq![(other, bytes_other), (one, bytes_one)], next),
    ensures
        next.status_of(one) == Some(LoadStatus::Loaded),
        next.payload_of(one) == Some(value_one),
        next.status_of(other) == Some(LoadStatus::Loaded),
        next.payload_of(other) == Some(value_other),
{
    let evicted = m.evicted(unshared);
    let batch = seq![(other, bytes_other), (one, bytes_one)];
    assert(evicted.contains(one) && evicted.entries[one] == m.entries[one]);
    assert(evicted.contains(other) && evicted.entries[other] == m.entries[other]);
    let second = choose|second: CacheModel<A>|
        {
            &&& evicted.takes_in(batch.drop_last(), second)
            &&& #[trigger] second.completes_to(batch.last().0, batch.last().1, next)
        };
    let front = batch.drop_last();
    assert(front =~= seq![(other, bytes_other)]);
    let first = choose|first: CacheModel<A>|
        {
            &&& evicted.takes_in(front.drop_last(), first)
            &&& #[trigger] first.completes_to(front.last().0, front.last().1, second)
        };
    assert(front.drop_last().len() == 0);
    assert(first == evicted);
    lemma_completion_loads(evicted, other, bytes_other, value_other, second);
    lemma_completion_spares(evicted, other, bytes_other, second, one);
    lemma_completion_loads(second, one, bytes_one, value_one, next);
    lemma_completion_spares(second, one, bytes_one, next, other);
}

/// The unload policy alone through `maintain`: a `Loaded` path that no one else holds,
/// with no completion for it among those taken in, is `NotLoaded` afterwards, still
/// there under its old key.
pub proof fn law_maintain_unloads<A: Asset>(
    m: CacheModel<A>,
    unshared: Set<Seq<char>>,
    batch: Seq<(Seq<char>, Vec<u8>)>,
    path: Seq<char>,
    next: CacheModel<A>,
)
    requires
        m.wf(),
        m.auto_unload,
        !m.auto_dropout,
        m.status_of(path) == Some(LoadStatus::Loaded),
        unshared.contains(path),
        forall|i: int| 0 <= i < batch.len() ==> (#[trigger] batch[i]).0 != path,
        m.evicted(unshared).takes_in(batch, next),
    ensures
        next.status_of(path) == Some(LoadStatus::NotLoaded),
        next.payload_of(path) is None,
        next.keys[path] == m.keys[path],
{
    law_unload_policy_keeps_entry(m, path, unshared);
    law_batch_spares(m.evicted(unshared), batch, next, path);
}

/// Inserting a path a second time returns the key of the first time and changes
/// nothing: no second entry, and the side data of the first insert stays.
pub proof fn law_insert_idempotent<A: Asset>(
    m: CacheModel<A>,
    path: Seq<char>,
    first: A::DataAsset,
    second: A::DataAsset,
)
    ensures
        m.inserted(path, first).inserted(path, second) == m.inserted(path, first),
        m.inserted(path, first).key_for(path) == m.inserted(path, first).keys[path],
        m.inserted(path, first).entries.dom() == m.entries.dom().insert(path),
        !m.contains(path) ==> m.inserted(path, first).entries[path].data == first,
{
    assert(m.inserted(path, first).contains(path));
    assert(m.inserted(path, first).entries.dom() =~= m.entries.dom().insert(path));
}

/// Inserting two different paths, one after the other, gives two different keys.
pub proof fn law_insert_distinct<A: Asset>(
    m: CacheModel<A>,
    one: Seq<char>,
    other: Seq<char>,
    data_one: A::DataAsset,
    data_other: A::DataAsset,
)
    requires
        m.wf(),
        one != other,
    ensures
        ({
            let after_one = m.inserted(one, data_one);
            let after_both = after_one.inserted(other, data_other);
            &&& after_one.keys[one] == after_both.keys[one]
            &&& after_both.keys[one] != after_both.keys[other]
        }),
{
    let after_one = m.inserted(one, data_one);
    let after_both = after_one.inserted(other, data_other);
    lemma_with_entry_wf(m, one, EntryModel::<A>::fresh(data_one));
    lemma_with_entry_wf(after_one, other, EntryModel::<A>::fresh(data_other));
    assert(after_one.contains(one));
    assert(after_both.contains(one));
    assert(after_both.contains(other));
}

/// Two different paths that have entries at the same time have different keys.
pub proof fn law_keys_distinct<A: Asset>(m: CacheModel<A>, one: Seq<char>, other: Seq<char>)
    requires
        m.wf(),
        m.contains(one),
        m.contains(other),
        one != other,
    ensures
        m.keys[one] != m.keys[other],
{
}

/// An entry is `Loaded` exactly when it has a payload to hand out.
pub proof fn law_loaded_iff_payload<A: Asset>(m: CacheModel<A>, path: Seq<char>)
    requires
        m.wf(),
    ensures
        m.status_of(path) == Some(LoadStatus::Loaded) <==> m.payload_of(path) is Some,
{
    if m.contains(path) {
        assert(m.entries[path].wf());
    }
}

/// Unloading leaves a known path `NotLoaded` with nothing to hand out, whatever its
/// status was, and leaves every other path alone.
pub proof fn law_unload_resets<A: Asset>(m: CacheModel<A>, path: Seq<char>, other: Seq<char>)
    requires
        m.wf(),
    ensures
        m.contains(path) ==> m.unloaded(path).status_of(path) == Some(LoadStatus::NotLoaded),
        m.unloaded(path).payload_of(path) is None,
        m.unloaded(path).contains(other) == m.contains(other),
        other != path ==> m.unloaded(path).status_of(other) == m.status_of(other),
        other != path ==> m.unloaded(path).payload_of(other) == m.payload_of(other),
{
}

/// A known path that resolves is `Loading` once the request is out, and `Loaded` with
/// exactly the decoded value once the completion is in, under the key it always had.
pub proof fn law_round_trip<A: Asset>(m: CacheModel<A>, path: Seq<char>, value: A::Structure)
    requires
        m.wf(),
        m.contains(path),
    ensures
        m.load_outcome(path, true, true) is Ok,
        m.load_begun(path, true).status_of(path) == Some(LoadStatus::Loading),
        ({
            let done = m.load_begun(path, true).installed(path, Ok(value));
            &&& done.status_of(path) == Some(LoadStatus::Loaded)
            &&& done.payload_of(path) == Some(value)
            &&& done.keys[path] == m.keys[path]
            &&& done.loaded_once == m.loaded_once.push(path)
        }),
{
    let begun = m.load_begun(path, true);
    assert(begun.contains(path));
}

/// With the unload policy alone, eviction takes the payload of a `Loaded` path that no
/// one else holds and keeps the entry: the path is `NotLoaded` under its old key and can
/// be loaded again.
pub proof fn law_unload_policy_keeps_entry<A: Asset>(
    m: CacheModel<A>,
    path: Seq<char>,
    unshared: Set<Seq<char>>,
)
    requires
        m.wf(),
        m.auto_unload,
        !m.auto_dropout,
        m.status_of(path) == Some(LoadStatus::Loaded),
        unshared.contains(path),
    ensures
        ({
            let after = m.evicted(unshared);
            &&& after.status_of(path) == Some(LoadStatus::NotLoaded)
            &&& after.payload_of(path) is None
            &&& after.keys[path] == m.keys[path]
            &&& after.load_outcome(path, true, true) is Ok
            &&& after.load_begun(path, true).status_of(path) == Some(LoadStatus::Loading)
            &&& after.load_begun(path, true).keys[path] == m.keys[path]
        }),
{
    let after = m.evicted(unshared);
    assert(after.contains(path));
}

/// With both policies, eviction removes a `Loaded` path that no one else holds, and
/// taking in completions does not bring it back: loading it fails with `NotFound` until
/// it is inserted again, as a new entry.
pub proof fn law_dropout_policy_removes_entry<A: Asset>(
    m: CacheModel<A>,
    path: Seq<char>,
    unshared: Set<Seq<char>>,
    later: CacheModel<A>,
    data: A::DataAsset,
    resolves: bool,
    queued: bool,
)
    requires
        m.wf(),
        m.auto_unload,
        m.auto_dropout,
        m.status_of(path) == Some(LoadStatus::Loaded),
        unshared.contains(path),
        m.evicted(unshared).advances_to(later),
    ensures
        !m.evicted(unshared).contains(path),
        !later.contains(path),
        later.load_outcome(path, resolves, queued) == Err::<(), LoadError>(LoadError::NotFound),
        later.inserted(path, data).status_of(path) == Some(LoadStatus::NotLoaded),
        later.inserted(path, data).entries[path].data == data,
{
    let swept = m.swept(unshared);
    assert(swept.contains(path));
    assert(swept.entries[path].status == LoadStatus::NotLoaded);
    assert(later.inserted(path, data).contains(path));
}

/// A path that was dropped and is inserted again has a fresh entry: `NotLoaded`, with
/// the side data of the new insert.
pub proof fn law_drop_then_insert<A: Asset>(m: CacheModel<A>, path: Seq<char>, data: A::DataAsset)
    ensures
        !m.dropped(path).contains(path),
        m.dropped(path).inserted(path, data).entries[path] == EntryModel::<A>::fresh(data),
        m.dropped(path).inserted(path, data).status_of(path) == Some(LoadStatus::NotLoaded),
{
    assert(m.dropped(path).inserted(path, data).contains(path));
}

/// The dropout policy keeps exactly the entries that are `Loading`, untouched.
pub proof fn law_dropout_keeps_loading<A: Asset>(m: CacheModel<A>, path: Seq<char>)
    ensures
        m.dropped_out().contains(path) <==> m.status_of(path) == Some(LoadStatus::Loading),
        m.dropped_out().contains(path) ==> m.dropped_out().entries[path] == m.entries[path],
{
}

} // verus!
