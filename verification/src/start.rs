//! The first load of a bundle.
//!
//! A bundle starts with the fingerprint of its source, then a parse. The fingerprint is taken
//! before the parser runs, so that a file that changes meanwhile is not taken for one that was
//! loaded: the first poll finds the change. A source that cannot be parsed or fingerprinted
//! gives no bundle at all: the error goes to the caller, that of the parser before that of the
//! fingerprint.

use std::time::Duration;

use vstd::prelude::*;

use crate::bundle::{BundleReload, Loaded, LoadedView};
use crate::error::{outcome, ErrorView, ReloadError};
use crate::options::BundleReloadOptions;
use crate::source::BundleSource;
use crate::watch::{
    fingerprint_view, goes_ahead, law_poll_swaps_what_is_new_and_parses, poll, PollInput, Watcher,
    WatcherView,
};

verus! {

/// A bundle that is loaded and not shared yet.
pub struct Started<T, H> {
    pub loaded: Loaded<T>,
    pub options: BundleReloadOptions<H>,
}

/// A [`Started`] by its values.
pub struct StartedView<T, H> {
    pub loaded: LoadedView<T>,
    pub options: BundleReloadOptions<H>,
}

impl<T, H> View for Started<T, H> {
    type V = StartedView<T, H>;

    open spec fn view(&self) -> StartedView<T, H> {
        StartedView { loaded: self.loaded@, options: self.options }
    }
}

/// What a source is first loaded as: the parsed source, stamped with the fingerprint that was
/// taken before it was parsed, with the options to watch it with. An error of the parser comes
/// before one of the fingerprint.
pub open spec fn first_load<T, H>(
    fingerprint: Result<Seq<char>, ErrorView>,
    parsed: Result<T, ErrorView>,
    options: BundleReloadOptions<H>,
) -> Result<StartedView<T, H>, ErrorView> {
    match (parsed, fingerprint) {
        (Err(error), _) => Err(error),
        (Ok(_), Err(error)) => Err(error),
        (Ok(value), Ok(text)) => Ok(
            StartedView { loaded: LoadedView { parsed: value, fingerprint: text }, options },
        ),
    }
}

/// The view of a bundle that was started, or of the error that was met instead.
pub open spec fn started_view<T, H>(started: Result<Started<T, H>, ReloadError>) -> Result<
    StartedView<T, H>,
    ErrorView,
> {
    match started {
        Ok(started) => Ok(started@),
        Err(error) => Err(error@),
    }
}

/// Starts a bundle with the fingerprint of its source, taken before the parser ran, and with
/// what the parser then gave.
pub fn start_async_with_options<T, H>(
    fingerprint: Result<String, ReloadError>,
    parsed: Result<T, ReloadError>,
    options: BundleReloadOptions<H>,
) -> (started: Result<Started<T, H>, ReloadError>)
    ensures
        started_view(started) == first_load(
            fingerprint_view(fingerprint),
            outcome(parsed),
            options,
        ),
        started is Ok <==> parsed is Ok && fingerprint is Ok,
        started matches Ok(s) ==> s.loaded@.parsed == parsed->Ok_0 && s.loaded@.fingerprint
            == fingerprint->Ok_0@ && s.options == options,
        parsed matches Err(error) ==> started matches Err(e) && e@ == error@,
        parsed is Ok ==> (fingerprint matches Err(error) ==> started matches Err(e) && e@
            == error@),
{
    match parsed {
        Err(error) => Err(error),
        Ok(value) => match fingerprint {
            Err(error) => Err(error),
            Ok(text) => Ok(Started { loaded: Loaded::new(value, text), options }),
        },
    }
}

/// Starts a bundle like [`start_async_with_options`], with the given interval and no hook.
pub fn start_async<T, H>(
    fingerprint: Result<String, ReloadError>,
    parsed: Result<T, ReloadError>,
    interval: Duration,
) -> (started: Result<Started<T, H>, ReloadError>)
    ensures
        started_view(started) == first_load(
            fingerprint_view(fingerprint),
            outcome(parsed),
            (BundleReloadOptions::<H> { interval, pre_tick: None }),
        ),
        started is Ok <==> parsed is Ok && fingerprint is Ok,
        started matches Ok(s) ==> s.loaded@.parsed == parsed->Ok_0 && s.loaded@.fingerprint
            == fingerprint->Ok_0@ && s.options.interval == interval && s.options.pre_tick is None,
        parsed matches Err(error) ==> started matches Err(e) && e@ == error@,
        parsed is Ok ==> (fingerprint matches Err(error) ==> started matches Err(e) && e@
            == error@),
{
    start_async_with_options(fingerprint, parsed, BundleReloadOptions::new(interval))
}

/// Starts a bundle with the fingerprint of its source: parses the source.
pub fn start_with_options<T, H, F: Fn(&BundleSource) -> Result<T, ReloadError>>(
    source: &BundleSource,
    fingerprint: Result<String, ReloadError>,
    parser: &F,
    options: BundleReloadOptions<H>,
) -> (started: Result<Started<T, H>, ReloadError>)
    requires
        call_requires(*parser, (source,)),
    ensures
        exists|parsed: Result<T, ReloadError>| #[trigger]
            call_ensures(*parser, (source,), parsed) && started_view(started) == first_load(
                fingerprint_view(fingerprint),
                outcome(parsed),
                options,
            ) && (started is Ok <==> parsed is Ok && fingerprint is Ok) && (started is Ok
                ==> started->Ok_0.loaded@.parsed == parsed->Ok_0) && (parsed matches Err(error)
                ==> started matches Err(e) && e@ == error@) && (parsed is Ok ==> (fingerprint
                matches Err(error) ==> started matches Err(e) && e@ == error@)),
        started matches Ok(s) ==> s.loaded@.fingerprint == fingerprint->Ok_0@ && s.options == options,
{
    let parsed = parser(source);
    start_async_with_options(fingerprint, parsed, options)
}

/// Starts a bundle like [`start_with_options`], with the given interval and no hook.
pub fn start<T, H, F: Fn(&BundleSource) -> Result<T, ReloadError>>(
    source: &BundleSource,
    fingerprint: Result<String, ReloadError>,
    parser: &F,
    interval: Duration,
) -> (started: Result<Started<T, H>, ReloadError>)
    requires
        call_requires(*parser, (source,)),
    ensures
        exists|parsed: Result<T, ReloadError>| #[trigger]
            call_ensures(*parser, (source,), parsed) && started_view(started) == first_load(
                fingerprint_view(fingerprint),
                outcome(parsed),
                (BundleReloadOptions::<H> { interval, pre_tick: None }),
            ) && (started is Ok <==> parsed is Ok && fingerprint is Ok) && (started is Ok
                ==> started->Ok_0.loaded@.parsed == parsed->Ok_0) && (parsed matches Err(error)
                ==> started matches Err(e) && e@ == error@) && (parsed is Ok ==> (fingerprint
                matches Err(error) ==> started matches Err(e) && e@ == error@)),
        started matches Ok(s) ==> s.loaded@.fingerprint == fingerprint->Ok_0@ && s.options.interval
            == interval && s.options.pre_tick is None,
{
    start_with_options(source, fingerprint, parser, BundleReloadOptions::new(interval))
}

impl<T, H> Started<T, H> {
    /// The watcher that the bundle starts with: it knows the fingerprint of the first load, and
    /// its polls need a permit where there is a hook.
    pub open spec fn first_watcher(self) -> WatcherView {
        WatcherView {
            last_fp: self.loaded@.fingerprint,
            gated: self.options.pre_tick is Some,
        }
    }

    /// Makes the watcher that the bundle starts with.
    pub fn watcher(&self) -> (watcher: Watcher)
        ensures
            watcher@ == self.first_watcher(),
            watcher@.last_fp == self.loaded@.fingerprint,
            watcher@.gated <==> self.options.pre_tick is Some,
    {
        Watcher::new(self.loaded.fingerprint(), self.options.pre_tick.is_some())
    }

    /// Puts the bundle into use: gives the handle to it, and the options to watch it with.
    pub fn open(self) -> (opened: (BundleReload<T>, BundleReloadOptions<H>))
        ensures
            opened.0.can_give(self.loaded@),
            opened.1 == self.options,
    {
        (BundleReload::from_loaded(self.loaded), self.options)
    }
}

/// A bundle is started only where the source was both parsed and fingerprinted: it is then the
/// parsed source with the fingerprint's own text and the given options. Any error of the parser
/// is reported, and any error of the fingerprint where the parser met none.
pub proof fn law_start_needs_a_parse_and_a_fingerprint<T, H>(
    value: T,
    text: Seq<char>,
    parse_error: ErrorView,
    read_error: ErrorView,
    options: BundleReloadOptions<H>,
)
    ensures
        first_load(Ok(text), Ok::<T, ErrorView>(value), options) == Ok::<_, ErrorView>(
            StartedView {
                loaded: LoadedView { parsed: value, fingerprint: text },
                options,
            },
        ),
        first_load(Err(read_error), Ok::<T, ErrorView>(value), options) == Err::<
            StartedView<T, H>,
            _,
        >(read_error),
        first_load(Ok(text), Err::<T, ErrorView>(parse_error), options) == Err::<
            StartedView<T, H>,
            _,
        >(parse_error),
        first_load(Err(read_error), Err::<T, ErrorView>(parse_error), options) == Err::<
            StartedView<T, H>,
            _,
        >(parse_error),
{
}

/// What contracts say of a bundle that was started, they say of the bundle and its options, or of
/// the error that was met instead.
pub proof fn law_started_views_show_the_bundle<T, H>(started: Started<T, H>, error: ReloadError)
    ensures
        started_view(Ok::<Started<T, H>, ReloadError>(started)) == Ok::<_, ErrorView>(
            StartedView { loaded: started.loaded@, options: started.options },
        ),
        started_view(Err::<Started<T, H>, ReloadError>(error)) == Err::<
            StartedView<T, H>,
            _,
        >(error@),
        started.first_watcher() == (WatcherView {
            last_fp: started.loaded@.fingerprint,
            gated: started.options.pre_tick is Some,
        }),
{
}

/// A source that changes after its first fingerprint was taken, be it before, while or after the
/// parser runs, is loaded again by the first poll that goes ahead.
pub proof fn law_change_since_the_start_is_found<T, H, P>(
    started: Started<T, H>,
    input: PollInput<T, P>,
    now: Seq<char>,
    parsed: T,
)
    requires
        goes_ahead(started.first_watcher(), input),
        now != started.loaded@.fingerprint,
        input.fingerprint == Ok::<Seq<char>, ErrorView>(now),
        input.parsed == Ok::<T, ErrorView>(parsed),
    ensures
        poll(started.first_watcher(), input).swapped == Some(
            LoadedView { parsed, fingerprint: now },
        ),
{
    law_poll_swaps_what_is_new_and_parses(started.first_watcher(), input);
}

} // verus!
