//! The loaded bundle, and the handle through which it is shared.

use std::sync::Arc;

use arc_swap::{ArcSwap, Guard};
use tokio::sync::Notify;
use vstd::prelude::*;

pub use crate::loaded::{Loaded, LoadedView};

verus! {

/// The slot that holds the bundle in use: an `arc_swap::ArcSwap`. It is read and written
/// through shared references by any number of threads.
#[verifier::external_body]
#[verifier::reject_recursive_types(T)]
struct Slot<T> {
    inner: ArcSwap<Loaded<T>>,
}

impl<T> Slot<T> {
    /// Whether a load of the slot can give the bundle: the bundle is among the outcomes of
    /// [`Slot::load`] on this slot. Which of them a load gives depends on when it comes and on
    /// the threads that share the slot.
    spec fn can_give(self, loaded: LoadedView<T>) -> bool {
        exists|given: Arc<Loaded<T>>| #[trigger]
            call_ensures(Slot::<T>::load, (&self,), given) && given@ == loaded
    }

    /// Calls `ArcSwap::from_pointee`: a load of the new slot can give the bundle it was made
    /// with. That it does give it until the first store is left unsaid, since a store may come
    /// from another thread at any time.
    #[verifier::external_body]
    fn from_pointee(loaded: Loaded<T>) -> (slot: Slot<T>)
        ensures
            slot.can_give(loaded@),
    {
        Slot { inner: ArcSwap::from_pointee(loaded) }
    }

    /// Calls `ArcSwap::load`, and turns the guard it gives into a pointer with
    /// `Guard::into_inner`: the bundle that the slot holds at that moment, which another thread
    /// may have stored. Nothing more is promised of it.
    #[verifier::external_body]
    fn load(&self) -> (loaded: Arc<Loaded<T>>) {
        Guard::into_inner(self.inner.load())
    }

    /// Calls `ArcSwap::store`: from then on a load of the slot can give the bundle. Hands back
    /// the pointer that the slot now shares. That every load gives this bundle until the next
    /// store is left unsaid, since that may come from another thread at any time.
    ///
    /// A store uses the bundle up: it takes a [`Loaded`] by value, of which there is no copy, and
    /// what a load gives cannot be stored again. So whoever is given one bundle to put into use
    /// can make one store with it and no other.
    #[verifier::external_body]
    fn store(&self, loaded: Loaded<T>) -> (stored: Arc<Loaded<T>>)
        ensures
            *stored == loaded,
            self.can_give(stored@),
    {
        let stored = Arc::new(loaded);
        self.inner.store(Arc::clone(&stored));
        stored
    }
}

/// `tokio::sync::Notify`, through which the watcher of a bundle is woken.
#[verifier::external_type_specification]
#[verifier::external_body]
pub struct ExNotify(tokio::sync::Notify);

/// `tokio::sync::Notify::new` gives a `Notify` on which no wake-up is pending.
pub assume_specification[ tokio::sync::Notify::new ]() -> (notify: Notify)
;

/// `tokio::sync::Notify::notify_one` wakes one waiting task, or else leaves one wake-up
/// pending; at most one is ever pending. What waits, and when, depends on the tasks that
/// share the `Notify`, and is left unsaid.
pub assume_specification[ tokio::sync::Notify::notify_one ](notify: &Notify)
;

/// A bundle that is reloaded while it is in use. `T` is the parsed bundle.
///
/// Clones share the bundle and the wake-up of its watcher.
#[verifier::reject_recursive_types(T)]
pub struct BundleReload<T> {
    slot: Arc<Slot<T>>,
    notify: Arc<Notify>,
}

/// Wakes the watcher of a bundle; independent of the type of the bundle.
pub struct PokeHandle {
    notify: Arc<Notify>,
}

impl<T> BundleReload<T> {
    /// Whether two handles share one bundle: what is stored through one is read through the
    /// other, and both wake the same watcher.
    pub closed spec fn shares_with(self, other: BundleReload<T>) -> bool {
        self.slot == other.slot && self.notify == other.notify
    }

    /// Whether a read through the handle can give the bundle. Every bundle that was there from
    /// the start, or that was put into use through this handle or one that shares with it, is
    /// one that a read can give; that there are no others is not stated. Which of them a read
    /// gives depends on when it comes.
    pub closed spec fn can_give(self, loaded: LoadedView<T>) -> bool {
        self.slot.can_give(loaded)
    }

    /// What the watcher of the bundle waits for.
    pub closed spec fn wake_up(self) -> Notify {
        *self.notify
    }

    /// A handle to a new slot that holds the given bundle.
    pub fn from_loaded(loaded: Loaded<T>) -> (bundle: BundleReload<T>)
        ensures
            bundle.can_give(loaded@),
    {
        BundleReload { slot: Arc::new(Slot::from_pointee(loaded)), notify: Arc::new(Notify::new()) }
    }

    /// The bundle in use with its fingerprint, taken at one moment.
    pub fn snapshot(&self) -> (loaded: Arc<Loaded<T>>)
        ensures
            self.can_give(loaded@),
    {
        let load = Slot::<T>::load;
        load(&self.slot)
    }

    /// The bundle in use.
    pub fn load(&self) -> (parsed: Arc<T>)
        ensures
            exists|loaded: LoadedView<T>| #[trigger]
                self.can_give(loaded) && loaded.parsed == *parsed,
    {
        self.snapshot().load()
    }

    /// The fingerprint of the files that the bundle in use was parsed from.
    pub fn fingerprint(&self) -> (fingerprint: String)
        ensures
            exists|loaded: LoadedView<T>| #[trigger]
                self.can_give(loaded) && loaded.fingerprint == fingerprint@,
    {
        self.snapshot().fingerprint()
    }

    /// Puts a loaded bundle into use: it is used up in the one store that is made.
    pub fn publish(&self, loaded: Loaded<T>)
        ensures
            self.can_give(loaded@),
    {
        let _ = self.slot.store(loaded);
    }

    /// Puts the given bundle into use, stamped with the given fingerprint.
    pub fn replace(&self, parsed: T, fingerprint: String)
        ensures
            self.can_give(LoadedView { parsed, fingerprint: fingerprint@ }),
    {
        self.publish(Loaded::new(parsed, fingerprint))
    }

    /// Wakes the watcher, so that it polls at once. Wake-ups that come before the watcher
    /// wakes count as one.
    pub fn poke(&self)
        ensures
            call_ensures(Notify::notify_one, (&self.wake_up(),), ()),
    {
        let wake = Notify::notify_one;
        wake(&self.notify)
    }

    /// A handle that wakes the same watcher.
    pub fn poke_handle(&self) -> (handle: PokeHandle)
        ensures
            handle.wake_up() == self.wake_up(),
    {
        PokeHandle { notify: Arc::clone(&self.notify) }
    }

    /// What the watcher waits for.
    pub fn notify(&self) -> (notify: Arc<Notify>)
        ensures
            *notify == self.wake_up(),
    {
        Arc::clone(&self.notify)
    }
}

impl<T> Clone for BundleReload<T> {
    fn clone(&self) -> (copy: Self)
        ensures
            copy.shares_with(*self),
            copy.wake_up() == self.wake_up(),
    {
        BundleReload { slot: Arc::clone(&self.slot), notify: Arc::clone(&self.notify) }
    }
}

impl PokeHandle {
    /// What the watcher that the handle wakes waits for.
    pub closed spec fn wake_up(self) -> Notify {
        *self.notify
    }

    /// Wakes the watcher, as [`BundleReload::poke`] does.
    pub fn poke(&self)
        ensures
            call_ensures(Notify::notify_one, (&self.wake_up(),), ()),
    {
        let wake = Notify::notify_one;
        wake(&self.notify)
    }
}

impl Clone for PokeHandle {
    fn clone(&self) -> (copy: Self)
        ensures
            copy.wake_up() == self.wake_up(),
    {
        PokeHandle { notify: Arc::clone(&self.notify) }
    }
}

/// A bundle without a watcher, for callers that reload it themselves.
pub fn static_only<T>(parsed: T, fingerprint: String) -> (bundle: BundleReload<T>)
    ensures
        bundle.can_give(LoadedView { parsed, fingerprint: fingerprint@ }),
{
    BundleReload::from_loaded(Loaded::new(parsed, fingerprint))
}

/// What a handle can give is what loads of its slot give, and handles that share have one slot
/// and one wake-up.
proof fn law_handles_stand_for_their_slot<T>(
    one: BundleReload<T>,
    other: BundleReload<T>,
    loaded: LoadedView<T>,
)
    ensures
        one.can_give(loaded) <==> exists|given: Arc<Loaded<T>>| #[trigger]
            call_ensures(Slot::<T>::load, (&*one.slot,), given) && given@ == loaded,
        one.shares_with(other) <==> one.slot == other.slot && one.notify == other.notify,
        one.wake_up() == *one.notify,
{
}

/// What one handle can give, any handle that shares with it can give; and both wake the same
/// watcher.
pub proof fn law_shared_handles_give_the_same<T>(
    one: BundleReload<T>,
    other: BundleReload<T>,
    loaded: LoadedView<T>,
)
    requires
        one.shares_with(other),
    ensures
        one.can_give(loaded) <==> other.can_give(loaded),
        one.wake_up() == other.wake_up(),
{
}

} // verus!
