//! When a bundle is polled, and when a freshly parsed one replaces the one in use.
//!
//! A poll is a sequence of steps. At each step the watcher says what has to be done (ask the
//! hook for a permit, fingerprint the source, parse it, put the parsed bundle into use) and
//! goes on with what came of it, until it is idle again.

use vstd::prelude::*;

use crate::bundle::{BundleReload, Loaded, LoadedView};
use crate::error::{outcome, ErrorView, ReloadError};
use crate::source::BundleSource;

verus! {

/// What woke a watcher.
#[derive(Debug, Clone, Copy)]
pub enum WakeCause {
    /// The interval between two polls is over.
    Tick,
    /// Someone asked for a poll.
    Poke,
}

/// A watcher that is idle: the fingerprint of the files it loaded last, and whether polls
/// need a permit.
#[derive(Debug)]
pub struct Watcher {
    last_fp: String,
    gated: bool,
}

/// A poll that needs a permit.
#[derive(Debug)]
pub struct Gate {
    watcher: Watcher,
}

/// A poll that waits for the fingerprint of the source.
#[derive(Debug)]
pub struct Poll<P> {
    watcher: Watcher,
    permit: Option<P>,
}

/// A poll that found a new fingerprint and waits for the parsed source.
#[derive(Debug)]
pub struct Reload<P> {
    watcher: Watcher,
    permit: Option<P>,
    new_fp: String,
}

/// A poll with a new bundle to be put into use.
#[derive(Debug)]
pub struct Swap<T, P> {
    watcher: Watcher,
    permit: Option<P>,
    loaded: Loaded<T>,
}

/// How a poll ended.
#[derive(Debug)]
pub enum PollEnd {
    /// No permit was given.
    Declined,
    /// The source could not be fingerprinted.
    FingerprintFailed(ReloadError),
    /// The source has the fingerprint it had.
    Unchanged,
    /// The source changed and could not be parsed.
    ParseFailed { old_fp: String, new_fp: String, error: ReloadError },
    /// The source changed, and the bundle in use was replaced.
    Swapped { old_fp: String, new_fp: String },
}

/// A step of a poll. `T` is the parsed bundle and `P` the permit.
#[derive(Debug)]
pub enum WatchStep<T, P> {
    /// The hook has to be asked for a permit.
    Consult(Gate),
    /// The source has to be fingerprinted.
    Fingerprint(Poll<P>),
    /// The source has to be parsed.
    Parse(Reload<P>),
    /// The bundle in use has to be replaced.
    Swap(Swap<T, P>),
    /// The poll is over. A permit that was given has been dropped.
    Idle(Watcher, PollEnd),
}

/// A [`Watcher`] by its values.
pub struct WatcherView {
    pub last_fp: Seq<char>,
    pub gated: bool,
}

/// A [`PollEnd`] by its views.
pub enum EndView {
    Declined,
    FingerprintFailed(ErrorView),
    Unchanged,
    ParseFailed { old_fp: Seq<char>, new_fp: Seq<char>, error: ErrorView },
    Swapped { old_fp: Seq<char>, new_fp: Seq<char> },
}

/// A [`Poll`] by its values.
pub struct PollView<P> {
    pub watcher: WatcherView,
    pub permit: Option<P>,
}

/// A [`Reload`] by its values.
pub struct ReloadView<P> {
    pub watcher: WatcherView,
    pub permit: Option<P>,
    pub new_fp: Seq<char>,
}

/// A [`Swap`] by its values.
pub struct SwapView<T, P> {
    pub watcher: WatcherView,
    pub permit: Option<P>,
    pub loaded: LoadedView<T>,
}

/// A [`WatchStep`] by its views.
pub enum StepView<T, P> {
    Consult(WatcherView),
    Fingerprint(PollView<P>),
    Parse(ReloadView<P>),
    Swap(SwapView<T, P>),
    Idle(WatcherView, EndView),
}

impl View for Watcher {
    type V = WatcherView;

    closed spec fn view(&self) -> WatcherView {
        WatcherView { last_fp: self.last_fp@, gated: self.gated }
    }
}

impl View for Gate {
    type V = WatcherView;

    closed spec fn view(&self) -> WatcherView {
        self.watcher@
    }
}

impl<P> View for Poll<P> {
    type V = PollView<P>;

    closed spec fn view(&self) -> PollView<P> {
        PollView { watcher: self.watcher@, permit: self.permit }
    }
}

impl<P> View for Reload<P> {
    type V = ReloadView<P>;

    closed spec fn view(&self) -> ReloadView<P> {
        ReloadView { watcher: self.watcher@, permit: self.permit, new_fp: self.new_fp@ }
    }
}

impl<T, P> View for Swap<T, P> {
    type V = SwapView<T, P>;

    closed spec fn view(&self) -> SwapView<T, P> {
        SwapView { watcher: self.watcher@, permit: self.permit, loaded: self.loaded@ }
    }
}

impl View for PollEnd {
    type V = EndView;

    open spec fn view(&self) -> EndView {
        match self {
            PollEnd::Declined => EndView::Declined,
            PollEnd::FingerprintFailed(error) => EndView::FingerprintFailed(error@),
            PollEnd::Unchanged => EndView::Unchanged,
            PollEnd::ParseFailed { old_fp, new_fp, error } => EndView::ParseFailed {
                old_fp: old_fp@,
                new_fp: new_fp@,
                error: error@,
            },
            PollEnd::Swapped { old_fp, new_fp } => EndView::Swapped {
                old_fp: old_fp@,
                new_fp: new_fp@,
            },
        }
    }
}

impl<T, P> View for WatchStep<T, P> {
    type V = StepView<T, P>;

    open spec fn view(&self) -> StepView<T, P> {
        match self {
            WatchStep::Consult(gate) => StepView::Consult(gate@),
            WatchStep::Fingerprint(poll) => StepView::Fingerprint(poll@),
            WatchStep::Parse(reload) => StepView::Parse(reload@),
            WatchStep::Swap(swap) => StepView::Swap(swap@),
            WatchStep::Idle(watcher, end) => StepView::Idle(watcher@, end@),
        }
    }
}

/// The view of a fingerprint, or of the error that was met instead.
pub open spec fn fingerprint_view(result: Result<String, ReloadError>) -> Result<
    Seq<char>,
    ErrorView,
> {
    match result {
        Ok(text) => Ok(text@),
        Err(error) => Err(error@),
    }
}

impl WatcherView {
    /// How a poll begins: with the question for a permit where polls need one. What woke the
    /// watcher makes no difference.
    pub open spec fn woken<T, P>(self, cause: WakeCause) -> StepView<T, P> {
        if self.gated {
            StepView::Consult(self)
        } else {
            StepView::Fingerprint(PollView { watcher: self, permit: None })
        }
    }

    /// How a poll goes on with the answer to the question for a permit.
    pub open spec fn answered<T, P>(self, permit: Option<P>) -> StepView<T, P> {
        match permit {
            None => StepView::Idle(self, EndView::Declined),
            Some(_) => StepView::Fingerprint(PollView { watcher: self, permit }),
        }
    }
}

impl<P> PollView<P> {
    /// How a poll goes on with the fingerprint of the source: only a new one is followed up.
    pub open spec fn fingerprinted<T>(self, result: Result<Seq<char>, ErrorView>) -> StepView<
        T,
        P,
    > {
        match result {
            Err(error) => StepView::Idle(self.watcher, EndView::FingerprintFailed(error)),
            Ok(new_fp) => if new_fp == self.watcher.last_fp {
                StepView::Idle(self.watcher, EndView::Unchanged)
            } else {
                StepView::Parse(
                    ReloadView { watcher: self.watcher, permit: self.permit, new_fp },
                )
            },
        }
    }
}

impl<P> ReloadView<P> {
    /// How a poll goes on with the parsed source.
    pub open spec fn parsed<T>(self, result: Result<T, ErrorView>) -> StepView<T, P> {
        match result {
            Err(error) => StepView::Idle(
                self.watcher,
                EndView::ParseFailed { old_fp: self.watcher.last_fp, new_fp: self.new_fp, error },
            ),
            Ok(parsed) => StepView::Swap(
                SwapView {
                    watcher: self.watcher,
                    permit: self.permit,
                    loaded: LoadedView { parsed, fingerprint: self.new_fp },
                },
            ),
        }
    }
}

impl<T, P> SwapView<T, P> {
    /// How a poll ends once its bundle is in use: the new fingerprint is the last one.
    pub open spec fn published(self) -> StepView<T, P> {
        StepView::Idle(
            WatcherView { last_fp: self.loaded.fingerprint, gated: self.watcher.gated },
            EndView::Swapped { old_fp: self.watcher.last_fp, new_fp: self.loaded.fingerprint },
        )
    }
}

impl Watcher {
    /// A watcher of a bundle whose files had the given fingerprint. With `gated`, polls need
    /// a permit.
    pub fn new(last_fp: String, gated: bool) -> (watcher: Watcher)
        ensures
            watcher@ == (WatcherView { last_fp: last_fp@, gated }),
    {
        Watcher { last_fp, gated }
    }

    /// The fingerprint of the files that the watcher loaded last.
    pub fn last_fp(&self) -> (last_fp: &String)
        ensures
            last_fp@ == self@.last_fp,
    {
        &self.last_fp
    }

    /// Begins a poll.
    pub fn wake<T, P>(self, cause: WakeCause) -> (step: WatchStep<T, P>)
        ensures
            step@ == self@.woken::<T, P>(cause),
    {
        if self.gated {
            WatchStep::Consult(Gate { watcher: self })
        } else {
            WatchStep::Fingerprint(Poll { watcher: self, permit: None })
        }
    }
}

impl Gate {
    /// Goes on with the hook's answer.
    pub fn answer<T, P>(self, permit: Option<P>) -> (step: WatchStep<T, P>)
        ensures
            step@ == self@.answered::<T, P>(permit),
    {
        match permit {
            None => WatchStep::Idle(self.watcher, PollEnd::Declined),
            Some(permit) => WatchStep::Fingerprint(
                Poll { watcher: self.watcher, permit: Some(permit) },
            ),
        }
    }
}

impl<P> Poll<P> {
    /// Goes on with the fingerprint of the source.
    pub fn fingerprinted<T>(self, result: Result<String, ReloadError>) -> (step: WatchStep<T, P>)
        ensures
            step@ == self@.fingerprinted::<T>(fingerprint_view(result)),
    {
        match result {
            Err(error) => WatchStep::Idle(self.watcher, PollEnd::FingerprintFailed(error)),
            Ok(new_fp) => if new_fp == self.watcher.last_fp {
                WatchStep::Idle(self.watcher, PollEnd::Unchanged)
            } else {
                WatchStep::Parse(Reload { watcher: self.watcher, permit: self.permit, new_fp })
            },
        }
    }
}

impl<P> Reload<P> {
    /// Goes on with the parsed source.
    pub fn parsed<T>(self, result: Result<T, ReloadError>) -> (step: WatchStep<T, P>)
        ensures
            step@ == self@.parsed::<T>(outcome(result)),
    {
        match result {
            Err(error) => {
                let old_fp = self.watcher.last_fp.clone();
                WatchStep::Idle(
                    self.watcher,
                    PollEnd::ParseFailed { old_fp, new_fp: self.new_fp, error },
                )
            },
            Ok(parsed) => WatchStep::Swap(
                Swap {
                    watcher: self.watcher,
                    permit: self.permit,
                    loaded: Loaded::new(parsed, self.new_fp),
                },
            ),
        }
    }
}

impl<T, P> Swap<T, P> {
    /// Puts the new bundle into use and ends the poll. The permit is held until the bundle is
    /// in use.
    pub fn publish(self, bundle: &BundleReload<T>) -> (step: WatchStep<T, P>)
        ensures
            step@ == self@.published(),
            bundle.can_give(self@.loaded),
    {
        let new_fp = self.loaded.fingerprint();
        let last_fp = new_fp.clone();
        bundle.publish(self.loaded);
        WatchStep::Idle(
            Watcher { last_fp, gated: self.watcher.gated },
            PollEnd::Swapped { old_fp: self.watcher.last_fp, new_fp },
        )
    }
}

/// The view of what is to be put into use.
pub open spec fn reloaded_view<T>(result: Result<Option<Loaded<T>>, ReloadError>) -> Result<
    Option<LoadedView<T>>,
    ErrorView,
> {
    match result {
        Ok(Some(loaded)) => Ok(Some(loaded@)),
        Ok(None) => Ok(None),
        Err(error) => Err(error@),
    }
}

/// The view of the fingerprint of what was put into use.
pub open spec fn polled_view(result: Result<Option<String>, ReloadError>) -> Result<
    Option<Seq<char>>,
    ErrorView,
> {
    match result {
        Ok(Some(text)) => Ok(Some(text@)),
        Ok(None) => Ok(None),
        Err(error) => Err(error@),
    }
}

/// Whether a fingerprint calls for parsing the source: it was computed and is not the last
/// one.
pub open spec fn is_new(last_fp: Seq<char>, fingerprint: Result<Seq<char>, ErrorView>) -> bool {
    fingerprint is Ok && fingerprint->Ok_0 != last_fp
}

/// What a source with the given fingerprint is reloaded as: nothing where the fingerprint is
/// the last one, and otherwise what parsing the source gave.
pub open spec fn reloaded<T>(
    last_fp: Seq<char>,
    fingerprint: Result<Seq<char>, ErrorView>,
    parsed: Result<T, ErrorView>,
) -> Result<Option<LoadedView<T>>, ErrorView> {
    match fingerprint {
        Err(error) => Err(error),
        Ok(new_fp) => if new_fp == last_fp {
            Ok(None)
        } else {
            match parsed {
                Err(error) => Err(error),
                Ok(value) => Ok(Some(LoadedView { parsed: value, fingerprint: new_fp })),
            }
        },
    }
}

/// Parses the source if its fingerprint is new; the parser is called only then. Gives what is
/// to be put into use: nothing where the fingerprint is the last one.
pub fn reload_once<T, F: Fn(&BundleSource) -> Result<T, ReloadError>>(
    source: &BundleSource,
    parser: &F,
    last_fp: &String,
    fingerprint: Result<String, ReloadError>,
) -> (result: Result<Option<Loaded<T>>, ReloadError>)
    requires
        is_new(last_fp@, fingerprint_view(fingerprint)) ==> call_requires(*parser, (source,)),
    ensures
        match fingerprint_view(fingerprint) {
            Err(error) => reloaded_view(result) == Err::<Option<LoadedView<T>>, _>(error),
            Ok(new_fp) => if new_fp == last_fp@ {
                reloaded_view(result) == Ok::<_, ErrorView>(None::<LoadedView<T>>)
            } else {
                exists|parsed: Result<T, ReloadError>| #[trigger]
                    call_ensures(*parser, (source,), parsed) && reloaded_view(result) == reloaded(
                        last_fp@,
                        fingerprint_view(fingerprint),
                        outcome(parsed),
                    ) && match parsed {
                        Ok(value) => result matches Ok(Some(loaded)) && loaded@ == (LoadedView {
                            parsed: value,
                            fingerprint: new_fp,
                        }),
                        Err(error) => result matches Err(e) && e@ == error@,
                    }
            },
        },
{
    match fingerprint {
        Err(error) => Err(error),
        Ok(new_fp) => if new_fp == *last_fp {
            Ok(None)
        } else {
            match parser(source) {
                Err(error) => Err(error),
                Ok(value) => Ok(Some(Loaded::new(value, new_fp))),
            }
        },
    }
}

/// Polls a source whose fingerprint is given: where that is new, the source is parsed and the
/// parsed bundle put into use. Gives the new fingerprint, or nothing where it is the last one.
pub fn poll_once<T, F: Fn(&BundleSource) -> Result<T, ReloadError>>(
    source: &BundleSource,
    parser: &F,
    bundle: &BundleReload<T>,
    last_fp: &String,
    fingerprint: Result<String, ReloadError>,
) -> (result: Result<Option<String>, ReloadError>)
    requires
        is_new(last_fp@, fingerprint_view(fingerprint)) ==> call_requires(*parser, (source,)),
    ensures
        match fingerprint_view(fingerprint) {
            Err(error) => polled_view(result) == Err::<Option<Seq<char>>, _>(error),
            Ok(new_fp) => if new_fp == last_fp@ {
                polled_view(result) == Ok::<_, ErrorView>(None::<Seq<char>>)
            } else {
                exists|parsed: Result<T, ReloadError>| #[trigger]
                    call_ensures(*parser, (source,), parsed) && match parsed {
                        Ok(value) => {
                            &&& polled_view(result) == Ok::<_, ErrorView>(Some(new_fp))
                            &&& bundle.can_give(LoadedView { parsed: value, fingerprint: new_fp })
                        },
                        Err(error) => polled_view(result) == Err::<Option<Seq<char>>, _>(error@),
                    }
            },
        },
{
    match reload_once(source, parser, last_fp, fingerprint) {
        Err(error) => Err(error),
        Ok(None) => Ok(None),
        Ok(Some(loaded)) => {
            let new_fp = loaded.fingerprint();
            bundle.publish(loaded);
            Ok(Some(new_fp))
        },
    }
}

/// A poll outside the watcher's rhythm that waits for the fingerprint of the source.
#[verifier::reject_recursive_types(T)]
pub struct ForcedPoll<'a, T> {
    bundle: &'a BundleReload<T>,
    last_fp: String,
}

/// A [`ForcedPoll`] by its values.
#[verifier::reject_recursive_types(T)]
pub struct ForcedPollView<T> {
    pub bundle: BundleReload<T>,
    pub last_fp: Seq<char>,
}

impl<'a, T> View for ForcedPoll<'a, T> {
    type V = ForcedPollView<T>;

    closed spec fn view(&self) -> ForcedPollView<T> {
        ForcedPollView { bundle: *self.bundle, last_fp: self.last_fp@ }
    }
}

/// Begins a poll outside the watcher's rhythm: the source will be compared with the bundle in
/// use at this moment.
pub fn force_poll<'a, T>(bundle: &'a BundleReload<T>) -> (step: ForcedPoll<'a, T>)
    ensures
        step@.bundle == *bundle,
        exists|loaded: LoadedView<T>| #[trigger]
            bundle.can_give(loaded) && loaded.fingerprint == step@.last_fp,
{
    ForcedPoll { bundle, last_fp: bundle.fingerprint() }
}

impl<'a, T> ForcedPoll<'a, T> {
    /// The fingerprint that the source is compared with.
    pub fn last_fp(&self) -> (last_fp: &String)
        ensures
            last_fp@ == self@.last_fp,
    {
        &self.last_fp
    }

    /// Goes on with the fingerprint of the source. Says whether the bundle in use was replaced.
    pub fn fingerprinted<F: Fn(&BundleSource) -> Result<T, ReloadError>>(
        self,
        source: &BundleSource,
        parser: &F,
        fingerprint: Result<String, ReloadError>,
    ) -> (result: Result<bool, ReloadError>)
        requires
            is_new(self@.last_fp, fingerprint_view(fingerprint)) ==> call_requires(
                *parser,
                (source,),
            ),
        ensures
            match fingerprint_view(fingerprint) {
                Err(error) => outcome(result) == Err::<bool, _>(error),
                Ok(new_fp) => if new_fp == self@.last_fp {
                    outcome(result) == Ok::<_, ErrorView>(false)
                } else {
                    exists|parsed: Result<T, ReloadError>| #[trigger]
                        call_ensures(*parser, (source,), parsed) && match parsed {
                            Ok(value) => {
                                &&& outcome(result) == Ok::<_, ErrorView>(true)
                                &&& self@.bundle.can_give(
                                    LoadedView { parsed: value, fingerprint: new_fp },
                                )
                            },
                            Err(error) => outcome(result) == Err::<bool, _>(error@),
                        }
                },
            },
    {
        match poll_once(source, parser, self.bundle, &self.last_fp, fingerprint) {
            Ok(new_fp) => Ok(new_fp.is_some()),
            Err(error) => Err(error),
        }
    }
}

/// What a poll is given, should it ask: the hook's answer, the fingerprint of the source and
/// the parsed source.
pub struct PollInput<T, P> {
    pub cause: WakeCause,
    pub permit: Option<P>,
    pub fingerprint: Result<Seq<char>, ErrorView>,
    pub parsed: Result<T, ErrorView>,
}

/// What came of a poll: the watcher afterwards, the bundle that was put into use, if any,
/// and how the poll ended.
pub struct PollOutcome<T> {
    pub watcher: WatcherView,
    pub swapped: Option<LoadedView<T>>,
    pub end: EndView,
}

/// How many steps a poll has before it at most.
pub open spec fn steps_left<T, P>(step: StepView<T, P>) -> nat {
    match step {
        StepView::Consult(_) => 4,
        StepView::Fingerprint(_) => 3,
        StepView::Parse(_) => 2,
        StepView::Swap(_) => 1,
        StepView::Idle(_, _) => 0,
    }
}

/// What comes of a poll that has got to a step. The bundle of a swap is put into use.
pub open spec fn finished<T, P>(step: StepView<T, P>, input: PollInput<T, P>) -> PollOutcome<T>
    decreases steps_left(step),
{
    match step {
        StepView::Consult(watcher) => finished(watcher.answered(input.permit), input),
        StepView::Fingerprint(poll) => finished(poll.fingerprinted(input.fingerprint), input),
        StepView::Parse(reload) => finished(reload.parsed(input.parsed), input),
        StepView::Swap(swap) => PollOutcome {
            watcher: swap.published()->Idle_0,
            swapped: Some(swap.loaded),
            end: swap.published()->Idle_1,
        },
        StepView::Idle(watcher, end) => PollOutcome { watcher, swapped: None, end },
    }
}

/// What comes of a poll.
pub open spec fn poll<T, P>(watcher: WatcherView, input: PollInput<T, P>) -> PollOutcome<T> {
    finished(watcher.woken(input.cause), input)
}

/// Whether a poll goes ahead: it needs no permit, or it has one.
pub open spec fn goes_ahead<T, P>(watcher: WatcherView, input: PollInput<T, P>) -> bool {
    !watcher.gated || input.permit is Some
}

/// A poll ends with a swap exactly where it goes ahead, the fingerprint is new and the source
/// parses. The bundle that is put into use is the parsed source with the new fingerprint,
/// which the watcher remembers.
pub proof fn law_poll_swaps_what_is_new_and_parses<T, P>(
    watcher: WatcherView,
    input: PollInput<T, P>,
)
    ensures
        poll(watcher, input).swapped is Some <==> goes_ahead(watcher, input) && is_new(
            watcher.last_fp,
            input.fingerprint,
        ) && input.parsed is Ok,
        poll(watcher, input).swapped is Some ==> {
            let new_fp = input.fingerprint->Ok_0;
            &&& poll(watcher, input).swapped == Some(
                LoadedView { parsed: input.parsed->Ok_0, fingerprint: new_fp },
            )
            &&& poll(watcher, input).watcher == (WatcherView {
                last_fp: new_fp,
                gated: watcher.gated,
            })
            &&& poll(watcher, input).end == (EndView::Swapped {
                old_fp: watcher.last_fp,
                new_fp,
            })
        },
{
    reveal_with_fuel(finished, 5);
}

/// The watcher reloads as [`reload_once`] does: a poll that goes ahead puts into use what that
/// gives, and ends with the error that that gives.
pub proof fn law_watcher_reloads_like_reload_once<T, P>(
    watcher: WatcherView,
    input: PollInput<T, P>,
)
    requires
        goes_ahead(watcher, input),
    ensures
        reloaded(watcher.last_fp, input.fingerprint, input.parsed) == match poll(
            watcher,
            input,
        ).end {
            EndView::FingerprintFailed(error) => Err(error),
            EndView::ParseFailed { error, .. } => Err(error),
            _ => Ok(poll(watcher, input).swapped),
        },
{
    reveal_with_fuel(finished, 5);
}

/// What comes of a poll, by what it is given. Without a permit that it needs it is declined. With
/// an error in place of a fingerprint it fails with that error; with the last fingerprint nothing
/// has changed; with any other, a source that does not parse fails with the parser's error, and
/// one that does replaces the bundle in use, under the new fingerprint, which becomes the last
/// one. In all but the last case the watcher stays as it is and nothing is put into use.
pub proof fn law_poll_by_what_it_is_given<T, P>(watcher: WatcherView, input: PollInput<T, P>)
    ensures
        watcher.gated && input.permit is None ==> poll(watcher, input) == (PollOutcome::<T> {
            watcher,
            swapped: None,
            end: EndView::Declined,
        }),
        !watcher.gated || input.permit is Some ==> match input.fingerprint {
            Err(error) => poll(watcher, input) == (PollOutcome::<T> {
                watcher,
                swapped: None,
                end: EndView::FingerprintFailed(error),
            }),
            Ok(new_fp) => {
                &&& new_fp == watcher.last_fp ==> poll(watcher, input) == (PollOutcome::<T> {
                    watcher,
                    swapped: None,
                    end: EndView::Unchanged,
                })
                &&& new_fp != watcher.last_fp ==> match input.parsed {
                    Err(error) => poll(watcher, input) == (PollOutcome::<T> {
                        watcher,
                        swapped: None,
                        end: EndView::ParseFailed { old_fp: watcher.last_fp, new_fp, error },
                    }),
                    Ok(parsed) => poll(watcher, input) == (PollOutcome::<T> {
                        watcher: WatcherView { last_fp: new_fp, gated: watcher.gated },
                        swapped: Some(LoadedView { parsed, fingerprint: new_fp }),
                        end: EndView::Swapped { old_fp: watcher.last_fp, new_fp },
                    }),
                }
            },
        },
{
    reveal_with_fuel(finished, 5);
}

/// Each step of a poll goes on from what it was given and keeps what it was told before: the
/// watcher, the permit and the new fingerprint.
pub proof fn law_each_step_keeps_what_it_knows<T, P>(
    watcher: WatcherView,
    cause: WakeCause,
    permit: Option<P>,
    new_fp: Seq<char>,
    value: T,
    error: ErrorView,
)
    ensures
        watcher.gated ==> watcher.woken::<T, P>(cause) == StepView::<T, P>::Consult(watcher),
        !watcher.gated ==> watcher.woken::<T, P>(cause) == StepView::<T, P>::Fingerprint(
            PollView { watcher, permit: None },
        ),
        permit is None ==> watcher.answered::<T, P>(permit) == StepView::<T, P>::Idle(
            watcher,
            EndView::Declined,
        ),
        permit is Some ==> watcher.answered::<T, P>(permit) == StepView::<T, P>::Fingerprint(
            PollView { watcher, permit },
        ),
        (PollView { watcher, permit }).fingerprinted::<T>(Err(error)) == StepView::<T, P>::Idle(
            watcher,
            EndView::FingerprintFailed(error),
        ),
        new_fp == watcher.last_fp ==> (PollView { watcher, permit }).fingerprinted::<T>(Ok(new_fp))
            == StepView::<T, P>::Idle(watcher, EndView::Unchanged),
        new_fp != watcher.last_fp ==> (PollView { watcher, permit }).fingerprinted::<T>(Ok(new_fp))
            == StepView::<T, P>::Parse(ReloadView { watcher, permit, new_fp }),
        (ReloadView { watcher, permit, new_fp }).parsed::<T>(Err(error)) == StepView::<T, P>::Idle(
            watcher,
            EndView::ParseFailed { old_fp: watcher.last_fp, new_fp, error },
        ),
        (ReloadView { watcher, permit, new_fp }).parsed::<T>(Ok(value)) == StepView::<T, P>::Swap(
            SwapView {
                watcher,
                permit,
                loaded: LoadedView { parsed: value, fingerprint: new_fp },
            },
        ),
        (SwapView {
            watcher,
            permit,
            loaded: (LoadedView { parsed: value, fingerprint: new_fp }),
        }).published() == StepView::<T, P>::Idle(
            WatcherView { last_fp: new_fp, gated: watcher.gated },
            EndView::Swapped { old_fp: watcher.last_fp, new_fp },
        ),
{
}

/// What contracts say of a fingerprint, of what is to be put into use, and of how a poll ended,
/// they say of the texts and values, or of the error that was met instead.
pub proof fn law_poll_views_show_the_values<T>(
    text: String,
    new_fp: String,
    error: ReloadError,
    loaded: Loaded<T>,
)
    ensures
        fingerprint_view(Ok(text)) == Ok::<_, ErrorView>(text@),
        fingerprint_view(Err(error)) == Err::<Seq<char>, _>(error@),
        polled_view(Ok(Some(text))) == Ok::<_, ErrorView>(Some(text@)),
        polled_view(Ok(None)) == Ok::<_, ErrorView>(None::<Seq<char>>),
        polled_view(Err(error)) == Err::<Option<Seq<char>>, _>(error@),
        reloaded_view(Ok(Some(loaded))) == Ok::<_, ErrorView>(Some(loaded@)),
        reloaded_view(Ok::<Option<Loaded<T>>, ReloadError>(None)) == Ok::<_, ErrorView>(
            None::<LoadedView<T>>,
        ),
        reloaded_view(Err::<Option<Loaded<T>>, ReloadError>(error)) == Err::<
            Option<LoadedView<T>>,
            _,
        >(error@),
        PollEnd::Declined@ == EndView::Declined,
        PollEnd::FingerprintFailed(error)@ == EndView::FingerprintFailed(error@),
        PollEnd::Unchanged@ == EndView::Unchanged,
        (PollEnd::ParseFailed { old_fp: text, new_fp, error })@ == (EndView::ParseFailed {
            old_fp: text@,
            new_fp: new_fp@,
            error: error@,
        }),
        (PollEnd::Swapped { old_fp: text, new_fp })@ == (EndView::Swapped {
            old_fp: text@,
            new_fp: new_fp@,
        }),
        is_new(text@, Ok(new_fp@)) <==> new_fp@ != text@,
        !is_new(text@, Err(error@)),
{
}

/// What contracts say of a step of a poll, they say of what it is a step to.
pub proof fn law_step_views_show_the_step<T, P>(
    gate: Gate,
    poll: Poll<P>,
    reload: Reload<P>,
    swap: Swap<T, P>,
    watcher: Watcher,
    end: PollEnd,
)
    ensures
        WatchStep::<T, P>::Consult(gate)@ == StepView::<T, P>::Consult(gate@),
        WatchStep::<T, P>::Fingerprint(poll)@ == StepView::<T, P>::Fingerprint(poll@),
        WatchStep::<T, P>::Parse(reload)@ == StepView::<T, P>::Parse(reload@),
        WatchStep::<T, P>::Swap(swap)@ == StepView::<T, P>::Swap(swap@),
        WatchStep::<T, P>::Idle(watcher, end)@ == StepView::<T, P>::Idle(watcher@, end@),
{
}

/// A poll that does not swap leaves the watcher as it was.
pub proof fn law_poll_without_a_swap_changes_nothing<T, P>(
    watcher: WatcherView,
    input: PollInput<T, P>,
)
    ensures
        poll(watcher, input).swapped is None ==> poll(watcher, input).watcher == watcher,
{
    reveal_with_fuel(finished, 5);
}

/// A poll to which the hook gives no permit is over at once: nothing is fingerprinted, parsed
/// or put into use, whatever woke the watcher.
pub proof fn law_declined_poll_does_no_work<T, P>(watcher: WatcherView, cause: WakeCause)
    requires
        watcher.gated,
    ensures
        watcher.woken::<T, P>(cause) == StepView::<T, P>::Consult(watcher),
        watcher.answered::<T, P>(None) == StepView::<T, P>::Idle(watcher, EndView::Declined),
{
}

/// A source that cannot be fingerprinted, or that changed and cannot be parsed, leaves the
/// bundle in use and the watcher as they were; the error is reported.
pub proof fn law_failed_poll_keeps_the_bundle<T, P>(watcher: WatcherView, input: PollInput<T, P>)
    requires
        goes_ahead(watcher, input),
    ensures
        input.fingerprint matches Err(error) ==> poll(watcher, input) == (PollOutcome::<T> {
            watcher,
            swapped: None,
            end: EndView::FingerprintFailed(error),
        }),
        is_new(watcher.last_fp, input.fingerprint) ==> (input.parsed matches Err(error) ==> poll(
            watcher,
            input,
        ) == (PollOutcome::<T> {
            watcher,
            swapped: None,
            end: EndView::ParseFailed {
                old_fp: watcher.last_fp,
                new_fp: input.fingerprint->Ok_0,
                error,
            },
        })),
{
    reveal_with_fuel(finished, 5);
}

/// A source with the fingerprint it had is not parsed again: the poll ends before that.
pub proof fn law_unchanged_source_is_not_parsed<T, P>(state: PollView<P>)
    ensures
        state.fingerprinted::<T>(Ok(state.watcher.last_fp)) == StepView::<T, P>::Idle(
            state.watcher,
            EndView::Unchanged,
        ),
{
}

/// A poll right after a swap, with the source as it is, does nothing: swapping settles.
pub proof fn law_poll_after_a_swap_is_idle<T, P>(
    watcher: WatcherView,
    input: PollInput<T, P>,
    next: PollInput<T, P>,
)
    requires
        poll(watcher, input).swapped is Some,
        goes_ahead(watcher, next),
        next.fingerprint == input.fingerprint,
    ensures
        poll(poll(watcher, input).watcher, next) == (PollOutcome::<T> {
            watcher: poll(watcher, input).watcher,
            swapped: None,
            end: EndView::Unchanged,
        }),
{
    reveal_with_fuel(finished, 5);
}

/// A poll that someone asked for runs like one at the end of the interval: only the time
/// differs.
pub proof fn law_poke_polls_like_a_tick<T, P>(watcher: WatcherView)
    ensures
        watcher.woken::<T, P>(WakeCause::Poke) == watcher.woken::<T, P>(WakeCause::Tick),
{
}

/// The permit of a poll is held at every step from the answer of the hook until the poll is
/// over: while the source is fingerprinted and parsed, and while the bundle in use is
/// replaced.
pub proof fn law_permit_is_held_until_idle<T, P>(
    watcher: WatcherView,
    permit: P,
    poll: PollView<P>,
    fingerprint: Result<Seq<char>, ErrorView>,
    reload: ReloadView<P>,
    parsed: Result<T, ErrorView>,
    swap: SwapView<T, P>,
)
    ensures
        watcher.answered::<T, P>(Some(permit)) == StepView::<T, P>::Fingerprint(
            PollView { watcher, permit: Some(permit) },
        ),
        match poll.fingerprinted::<T>(fingerprint) {
            StepView::Parse(next) => next.permit == poll.permit,
            step => step is Idle,
        },
        match reload.parsed::<T>(parsed) {
            StepView::Swap(next) => next.permit == reload.permit,
            step => step is Idle,
        },
        swap.published() is Idle,
{
}

/// The steps of a poll that has got to a step, from that one to the end.
pub open spec fn steps<T, P>(step: StepView<T, P>, input: PollInput<T, P>) -> Seq<StepView<T, P>>
    decreases steps_left(step),
{
    match step {
        StepView::Consult(watcher) => seq![step] + steps(watcher.answered(input.permit), input),
        StepView::Fingerprint(poll) => seq![step] + steps(
            poll.fingerprinted(input.fingerprint),
            input,
        ),
        StepView::Parse(reload) => seq![step] + steps(reload.parsed(input.parsed), input),
        StepView::Swap(swap) => seq![step] + steps(swap.published(), input),
        StepView::Idle(_, _) => seq![step],
    }
}

/// The permit that is held at a step.
pub open spec fn held<T, P>(step: StepView<T, P>) -> Option<P> {
    match step {
        StepView::Fingerprint(poll) => poll.permit,
        StepView::Parse(reload) => reload.permit,
        StepView::Swap(swap) => swap.permit,
        _ => None,
    }
}

proof fn lemma_steps<T, P>(step: StepView<T, P>, input: PollInput<T, P>)
    ensures
        1 <= steps(step, input).len() <= steps_left(step) + 1,
        steps(step, input)[0] == step,
        steps(step, input).last() == StepView::<T, P>::Idle(
            finished(step, input).watcher,
            finished(step, input).end,
        ),
        forall|i: int|
            0 <= i < steps(step, input).len() - 1 ==> !(#[trigger] steps(step, input)[i] is Idle),
        forall|i: int|
            0 < i < steps(step, input).len() ==> !(#[trigger] steps(step, input)[i] is Consult),
        !(step is Consult) ==> forall|i: int|
            0 <= i < steps(step, input).len() - 1 ==> held(#[trigger] steps(step, input)[i])
                == held(step),
    decreases steps_left(step),
{
    let next: StepView<T, P> = match step {
        StepView::Consult(watcher) => watcher.answered(input.permit),
        StepView::Fingerprint(poll) => poll.fingerprinted(input.fingerprint),
        StepView::Parse(reload) => reload.parsed(input.parsed),
        StepView::Swap(swap) => swap.published(),
        StepView::Idle(_, _) => step,
    };
    if !(step is Idle) {
        lemma_steps(next, input);
        let all = steps(step, input);
        let rest = steps(next, input);
        assert(all == seq![step] + rest);
        assert forall|i: int| 0 < i < all.len() implies all[i] == #[trigger] rest[i - 1] by {}
        assert(all.last() == rest.last());
        if step is Swap {
            reveal_with_fuel(finished, 2);
        }
        assert forall|i: int| 0 <= i < all.len() - 1 implies !(#[trigger] all[i] is Idle) by {
            if i > 0 {
                assert(all[i] == rest[i - 1]);
            }
        }
        assert forall|i: int| 0 < i < all.len() implies !(#[trigger] all[i] is Consult) by {
            assert(all[i] == rest[i - 1]);
        }
        if !(step is Consult) {
            assert forall|i: int| 0 <= i < all.len() - 1 implies held(#[trigger] all[i]) == held(
                step,
            ) by {
                if i > 0 {
                    assert(all[i] == rest[i - 1]);
                }
            }
        }
    }
}

/// The hook is asked once at each poll that needs a permit, and before anything else; a poll that
/// needs none does not ask. From the answer on, every step but the last holds exactly the permit
/// that was given; the last step, at which the watcher is idle, holds none.
pub proof fn law_hook_is_asked_once_and_first<T, P>(watcher: WatcherView, input: PollInput<T, P>)
    ensures
        ({
            let all = steps(watcher.woken(input.cause), input);
            let last = all.len() - 1;
            &&& 0 <= last
            &&& forall|i: int|
                0 <= i <= last ==> (#[trigger] all[i] is Consult <==> i == 0 && watcher.gated)
            &&& forall|i: int| 0 <= i <= last ==> (#[trigger] all[i] is Idle <==> i == last)
            &&& forall|i: int|
                0 <= i < last ==> all[i] is Consult || held(#[trigger] all[i])
                    == if watcher.gated {
                    input.permit
                } else {
                    None
                }
            &&& all[last] == StepView::<T, P>::Idle(
                poll(watcher, input).watcher,
                poll(watcher, input).end,
            )
            &&& held(all[last]) is None
        }),
{
    let start = watcher.woken::<T, P>(input.cause);
    lemma_steps(start, input);
    if watcher.gated {
        let next = watcher.answered::<T, P>(input.permit);
        lemma_steps(next, input);
        let all = steps(start, input);
        let rest = steps(next, input);
        assert(all == seq![start] + rest);
        assert forall|i: int| 0 < i < all.len() - 1 implies held(#[trigger] all[i])
            == input.permit by {
            assert(all[i] == rest[i - 1]);
        }
    }
}

/// A source is fingerprinted only at a poll that goes ahead, and parsed only where its
/// fingerprint is new.
pub proof fn law_no_work_without_need<T, P>(watcher: WatcherView, input: PollInput<T, P>, i: int)
    requires
        0 <= i < steps(watcher.woken(input.cause), input).len(),
    ensures
        steps(watcher.woken(input.cause), input)[i] is Fingerprint ==> goes_ahead(watcher, input),
        steps(watcher.woken(input.cause), input)[i] is Parse ==> goes_ahead(watcher, input)
            && is_new(watcher.last_fp, input.fingerprint),
{
    reveal_with_fuel(steps, 6);
}

/// Something that happens to a watched bundle.
pub enum Event<T, P> {
    /// The source is polled.
    Poll(PollInput<T, P>),
    /// A bundle is put into use from elsewhere.
    Replace(LoadedView<T>),
}

/// The watcher and the bundle in use after a number of events, one after the other.
pub open spec fn after_events<T, P>(
    watcher: WatcherView,
    in_use: LoadedView<T>,
    events: Seq<Event<T, P>>,
) -> (WatcherView, LoadedView<T>)
    decreases events.len(),
{
    if events.len() == 0 {
        (watcher, in_use)
    } else {
        let (before, loaded) = after_events(watcher, in_use, events.drop_last());
        match events.last() {
            Event::Replace(next) => (before, next),
            Event::Poll(input) => {
                let came = poll(before, input);
                match came.swapped {
                    Some(next) => (came.watcher, next),
                    None => (came.watcher, loaded),
                }
            },
        }
    }
}

/// What was put into use last is in use: a bundle that is put there from elsewhere, or the one of
/// a poll that swaps. An event that puts nothing into use leaves what is in use where it is, and
/// only a poll that swaps changes what the watcher knows.
pub proof fn law_last_bundle_put_into_use_is_in_use<T, P>(
    watcher: WatcherView,
    in_use: LoadedView<T>,
    events: Seq<Event<T, P>>,
    next: LoadedView<T>,
    input: PollInput<T, P>,
)
    ensures
        ({
            let (before, loaded) = after_events(watcher, in_use, events);
            let (replaced, now) = after_events(watcher, in_use, events.push(Event::Replace(next)));
            let (polled, then) = after_events(watcher, in_use, events.push(Event::Poll(input)));
            &&& replaced == before
            &&& now == next
            &&& polled == poll(before, input).watcher
            &&& poll(before, input).swapped matches Some(new) ==> then == new
            &&& poll(before, input).swapped is None ==> then == loaded && polled == before
        }),
{
    let (before, loaded) = after_events(watcher, in_use, events);
    let replacing = events.push(Event::Replace(next));
    let polling = events.push(Event::Poll(input));
    assert(replacing.drop_last() =~= events);
    assert(polling.drop_last() =~= events);
    law_poll_without_a_swap_changes_nothing(before, input);
}

/// Whether an event put a bundle into use: it was put there from elsewhere, or the parser
/// accepted it at a poll that went ahead, and it is stamped with the fingerprint of that poll.
pub open spec fn put_into_use<T, P>(
    watcher: WatcherView,
    event: Event<T, P>,
    loaded: LoadedView<T>,
) -> bool {
    match event {
        Event::Replace(next) => next == loaded,
        Event::Poll(input) => goes_ahead(watcher, input) && input.parsed == Ok::<_, ErrorView>(
            loaded.parsed,
        ) && input.fingerprint == Ok::<_, ErrorView>(loaded.fingerprint),
    }
}

/// Whatever happened, the bundle in use is the first one or one that an event put into use: a
/// broken edit never takes the bundle away. While nothing is put into use from elsewhere, the
/// watcher knows the fingerprint of the bundle in use.
pub proof fn law_bundle_in_use_was_parsed<T, P>(
    watcher: WatcherView,
    in_use: LoadedView<T>,
    events: Seq<Event<T, P>>,
)
    ensures
        ({
            let (after, loaded) = after_events(watcher, in_use, events);
            &&& after.gated == watcher.gated
            &&& loaded == in_use || exists|i: int|
                0 <= i < events.len() && put_into_use(watcher, #[trigger] events[i], loaded)
            &&& watcher.last_fp == in_use.fingerprint && (forall|i: int|
                0 <= i < events.len() ==> #[trigger] events[i] is Poll) ==> after.last_fp
                == loaded.fingerprint
        }),
    decreases events.len(),
{
    if events.len() > 0 {
        let short = events.drop_last();
        law_bundle_in_use_was_parsed(watcher, in_use, short);
        let (before, loaded) = after_events(watcher, in_use, short);
        let (after, now) = after_events(watcher, in_use, events);
        let last = events.len() - 1;
        assert(events.last() == events[last]);
        if forall|i: int| 0 <= i < events.len() ==> #[trigger] events[i] is Poll {
            assert forall|i: int| 0 <= i < short.len() implies #[trigger] short[i] is Poll by {
                assert(short[i] == events[i]);
            }
        }
        if let Event::Poll(input) = events.last() {
            law_poll_swaps_what_is_new_and_parses(before, input);
            law_poll_without_a_swap_changes_nothing(before, input);
        }
        if !put_into_use(watcher, events[last], now) {
            assert(now == loaded);
            if loaded != in_use {
                let i = choose|i: int|
                    0 <= i < short.len() && put_into_use(watcher, #[trigger] short[i], loaded);
                assert(events[i] == short[i]);
            }
        }
    }
}

/// Whether an event is a poll that finds the source as the watcher loaded it last.
pub open spec fn finds_no_change<T, P>(watcher: WatcherView, event: Event<T, P>) -> bool {
    event matches Event::Poll(input) && input.fingerprint == Ok::<_, ErrorView>(watcher.last_fp)
}

/// While the source stays as it is, polls change nothing, however many there are and whatever
/// wakes the watcher: the bundle in use stays in use.
pub proof fn law_unchanged_source_keeps_the_bundle<T, P>(
    watcher: WatcherView,
    in_use: LoadedView<T>,
    events: Seq<Event<T, P>>,
)
    requires
        forall|i: int| 0 <= i < events.len() ==> finds_no_change(watcher, #[trigger] events[i]),
    ensures
        after_events(watcher, in_use, events) == (watcher, in_use),
    decreases events.len(),
{
    if events.len() > 0 {
        let short = events.drop_last();
        assert forall|i: int| 0 <= i < short.len() implies finds_no_change(
            watcher,
            #[trigger] short[i],
        ) by {
            assert(short[i] == events[i]);
        }
        law_unchanged_source_keeps_the_bundle(watcher, in_use, short);
        assert(finds_no_change(watcher, events[events.len() - 1]));
        reveal_with_fuel(finished, 5);
    }
}

/// A bundle that is put into use from elsewhere stays in use while the source stays as it is: the
/// watcher compares the source with what the source was, not with the bundle in use.
pub proof fn law_replaced_bundle_stays_in_use<T, P>(
    watcher: WatcherView,
    in_use: LoadedView<T>,
    replaced: LoadedView<T>,
    events: Seq<Event<T, P>>,
)
    requires
        events.len() > 0,
        events[0] == Event::<T, P>::Replace(replaced),
        forall|i: int| 1 <= i < events.len() ==> finds_no_change(watcher, #[trigger] events[i]),
    ensures
        after_events(watcher, in_use, events) == (watcher, replaced),
    decreases events.len(),
{
    let short = events.drop_last();
    if short.len() == 0 {
        assert(after_events(watcher, in_use, short) == (watcher, in_use));
    } else {
        assert forall|i: int| 1 <= i < short.len() implies finds_no_change(
            watcher,
            #[trigger] short[i],
        ) by {
            assert(short[i] == events[i]);
        }
        law_replaced_bundle_stays_in_use(watcher, in_use, replaced, short);
        assert(finds_no_change(watcher, events[events.len() - 1]));
        reveal_with_fuel(finished, 5);
    }
}

} // verus!
