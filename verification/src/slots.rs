//! Slot storage from the `slab` crate, for sleep entries and I/O wakers.
//!
//! What a store holds is named by spec functions without a body; the wrappers
//! below state, over those names, what the `slab` source does.

use vstd::prelude::*;
use slab::Slab;
use std::task::Waker;
use crate::sleep::{Entry, EntryView};

verus! {

/// `slab::Slab`: values stored under small integer keys that are handed out
/// on insertion and reused after removal.
#[verifier::external_type_specification]
#[verifier::external_body]
#[verifier::reject_recursive_types(T)]
pub struct ExSlab<T>(slab::Slab<T>);

/// What a store of sleep entries holds: each occupied key with the plain view
/// of its entry (deadline and whether it has fired).
pub uninterp spec fn sleep_entries(store: Slab<Entry>) -> Map<usize, EntryView>;

/// The occupied keys of a store of wakers.
pub uninterp spec fn waker_keys(store: Slab<Waker>) -> Set<usize>;

/// `Slab::new` for sleep entries: an empty store.
#[verifier::external_body]
pub(crate) fn new_entry_slab() -> (fresh: Slab<Entry>)
    ensures
        sleep_entries(fresh) =~= Map::empty(),
{
    slab::Slab::new()
}

/// `Slab::insert` for sleep entries. The key handed back is one that was
/// vacant (the store's `next` slot), and the value is now stored under it.
/// The store grows its vector when no vacant slot is left; the allocation
/// failure that this may raise on exhausted memory is not stated.
#[verifier::external_body]
pub(crate) fn insert_entry(store: &mut Slab<Entry>, entry: Entry) -> (key: usize)
    ensures
        !sleep_entries(*old(store)).contains_key(key),
        sleep_entries(*final(store)) == sleep_entries(*old(store)).insert(key, entry@),
{
    store.insert(entry)
}

/// `Slab::get` for sleep entries: the entry stored under `key`, if any.
#[verifier::external_body]
pub(crate) fn get_entry(store: &Slab<Entry>, key: usize) -> (entry: Option<&Entry>)
    ensures
        entry is Some <==> sleep_entries(*store).contains_key(key),
        entry is Some ==> entry->0@ == sleep_entries(*store)[key],
{
    store.get(key)
}

/// `Slab::get_mut` for sleep entries: mutable access to the entry stored
/// under `key`, if any. Whatever is written through it is what the store then
/// holds under `key`; nothing else changes.
#[verifier::external_body]
pub(crate) fn get_entry_mut(store: &mut Slab<Entry>, key: usize) -> (entry: Option<&mut Entry>)
    ensures
        entry is Some <==> sleep_entries(*old(store)).contains_key(key),
        entry is None ==> sleep_entries(*final(store)) == sleep_entries(*old(store)),
        entry is Some ==> (*entry.unwrap())@ == sleep_entries(*old(store))[key]
            && sleep_entries(*final(store)) == sleep_entries(*old(store)).insert(
                key,
                (*final(entry.unwrap()))@,
            ),
{
    store.get_mut(key)
}

/// `Slab::remove` for sleep entries: takes the entry out from under `key`,
/// which becomes vacant. The store panics on a vacant key, so the key must be
/// occupied.
#[verifier::external_body]
pub(crate) fn remove_entry(store: &mut Slab<Entry>, key: usize) -> (entry: Entry)
    requires
        sleep_entries(*old(store)).contains_key(key),
    ensures
        entry@ == sleep_entries(*old(store))[key],
        sleep_entries(*final(store)) == sleep_entries(*old(store)).remove(key),
{
    store.remove(key)
}

/// `Slab::new` for wakers: an empty store.
#[verifier::external_body]
pub(crate) fn new_waker_slab() -> (fresh: Slab<Waker>)
    ensures
        waker_keys(fresh) =~= Set::empty(),
{
    slab::Slab::new()
}

/// `Slab::get` for wakers: the waker stored under `key`, if any.
#[verifier::external_body]
pub(crate) fn get_waker(store: &Slab<Waker>, key: usize) -> (waker: Option<
    &Waker,
>)
    ensures
        waker is Some <==> waker_keys(*store).contains(key),
{
    store.get(key)
}

} // verus!
