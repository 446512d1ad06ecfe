//! A parsed bundle with its fingerprint.
//!
//! A [`Loaded`] is made from a parsed bundle that is handed over, and there is no way to make
//! another one from it or from a pointer to it. What takes one by value uses it up.

use std::sync::Arc;

use vstd::prelude::*;

verus! {

/// A parsed bundle together with the fingerprint of the files that it was parsed from.
#[derive(Debug)]
pub struct Loaded<T> {
    parsed: Arc<T>,
    fingerprint: String,
}

/// A [`Loaded`] by its values.
pub struct LoadedView<T> {
    pub parsed: T,
    pub fingerprint: Seq<char>,
}

impl<T> View for Loaded<T> {
    type V = LoadedView<T>;

    closed spec fn view(&self) -> LoadedView<T> {
        LoadedView { parsed: *self.parsed, fingerprint: self.fingerprint@ }
    }
}

impl<T> Loaded<T> {
    /// The given bundle with the given fingerprint.
    pub fn new(parsed: T, fingerprint: String) -> (loaded: Self)
        ensures
            loaded@ == (LoadedView { parsed, fingerprint: fingerprint@ }),
    {
        Loaded { parsed: Arc::new(parsed), fingerprint }
    }

    /// The bundle.
    pub fn load(&self) -> (parsed: Arc<T>)
        ensures
            *parsed == self@.parsed,
    {
        Arc::clone(&self.parsed)
    }

    /// The fingerprint.
    pub fn fingerprint(&self) -> (fingerprint: String)
        ensures
            fingerprint@ == self@.fingerprint,
    {
        self.fingerprint.clone()
    }
}

} // verus!
