//! Kairos: the opt-in, proactive layer of the agent.
//!
//! - [`kairos_enabled`]: the single switch. Off by default, so every
//!   Kairos behaviour is dormant unless the operator opts in.
//! - [`startup_dream_action`]: the dream-on-start decision, folded with the
//!   switch.
//! - [`IdleBriefPolicy`]: the idle-loop decision core. Given a monotonically
//!   increasing virtual tick, it decides when exactly one proactive brief
//!   should be emitted, and re-arms on user activity.
//! - [`KairosIdleRuntime`] and [`idle_watch_round`]: they drive the policy from
//!   the machine's clock. The caller shares the runtime between the threads
//!   that use it, sleeps between two rounds, and shows the notice.

use crate::calendar::JournalDate;
use crate::clock::{moment_now, moment_read, passed_since, ticks_since};
use crate::dream::{dream_is_due, dream_on_start_decision, DreamOnStartDecision};
use crate::numeral::{as_u64, parse_u64, unsigned};
use crate::slug::{small, small_of};
use crate::text::{
    all_white, chars_of, law_trim_removes_white_ends, law_white_trims_to_nothing,
    lemma_trim_between_white, same, trim, trim_of, white_space,
};
use std::time::Instant;
use vstd::prelude::*;

verus! {

/// Environment variable that opts the agent into the Kairos autonomous layer.
pub const KAIROS_ENV: &'static str = "CLAW_KAIROS";

/// Environment variable overriding the idle threshold (in whole seconds) after
/// which the autonomous loop emits one proactive brief. Unset or invalid: the default.
pub const KAIROS_IDLE_SECS_ENV: &'static str = "CLAW_KAIROS_IDLE_SECS";

/// Default idle threshold: five minutes.
pub const DEFAULT_IDLE_SECS: u64 = 300;

/// The proactive brief that the idle loop surfaces.
pub const IDLE_BRIEF_NOTICE: &'static str =
    "[kairos] proactive check-in: you've been idle — reply to keep going.";

/// `value` says yes: it is `1`, `true`, `yes` or `on`, in capital or small
/// letters, with or without white space around it.
pub open spec fn truthy(value: Seq<char>) -> bool {
    let word = trim(value).map_values(|c: char| small(c));
    word == "1"@ || word == "true"@ || word == "yes"@ || word == "on"@
}

/// Tells whether `value` says yes.
pub fn env_is_truthy(value: &str) -> (r: bool)
    ensures
        r == truthy(value@),
{
    let chars = chars_of(value);
    let trimmed = trim_of(chars.as_slice());
    let mut word: Vec<char> = Vec::new();
    let mut i: usize = 0;
    let ghost all = trimmed@.map_values(|c: char| small(c));
    while i < trimmed.len()
        invariant
            i <= trimmed@.len(),
            all == trimmed@.map_values(|c: char| small(c)),
            word@ == all.take(i as int),
        decreases trimmed@.len() - i,
    {
        word.push(small_of(trimmed[i]));
        i = i + 1;
        assert(all.take(i as int) =~= all.take(i - 1).push(all[i - 1]));
    }
    assert(all.take(i as int) =~= all);
    let one = chars_of("1");
    let yes_in_logic = chars_of("true");
    let yes = chars_of("yes");
    let on = chars_of("on");
    same(word.as_slice(), one.as_slice()) || same(word.as_slice(), yes_in_logic.as_slice())
        || same(word.as_slice(), yes.as_slice()) || same(word.as_slice(), on.as_slice())
}

/// Whether the Kairos autonomous layer is enabled, from the value of
/// [`KAIROS_ENV`], if it is set. Off by default; enabled by a truthy value (`1`, `true`,
/// `yes` or `on`, case-folded).
#[must_use]
pub fn kairos_enabled(value: Option<&str>) -> (r: bool)
    ensures
        r == match value {
            Some(value) => truthy(value@),
            None => false,
        },
{
    match value {
        Some(value) => env_is_truthy(value),
        None => false,
    }
}

/// The idle threshold that the value of a variable gives, if it is set.
pub open spec fn idle_secs(value: Option<Seq<char>>) -> u64 {
    match value {
        Some(text) => match as_u64(trim(text)) {
            Some(secs) => if secs > 0 {
                secs
            } else {
                DEFAULT_IDLE_SECS
            },
            None => DEFAULT_IDLE_SECS,
        },
        None => DEFAULT_IDLE_SECS,
    }
}

/// The idle threshold (whole seconds), from the value of
/// [`KAIROS_IDLE_SECS_ENV`], if it is set. [`DEFAULT_IDLE_SECS`] when it is unset,
/// unparseable, or zero.
#[must_use]
pub fn idle_threshold_secs(value: Option<&str>) -> (secs: u64)
    ensures
        secs == idle_secs(
            match value {
                Some(text) => Some(text@),
                None => None,
            },
        ),
        secs > 0,
{
    match value {
        Some(text) => {
            let chars = chars_of(text);
            match parse_u64(trim_of(chars.as_slice())) {
                Some(secs) => if secs > 0 {
                    secs
                } else {
                    DEFAULT_IDLE_SECS
                },
                None => DEFAULT_IDLE_SECS,
            }
        },
        None => DEFAULT_IDLE_SECS,
    }
}

/// What the startup hook should do for the dream-on-start scheduler.
#[derive(Debug, Clone, Copy, PartialEq, Eq, Structural)]
pub enum StartupAction {
    /// Do nothing: the layer is off, or a dream already covered today.
    Noop,
    /// Kick off one best-effort background dream for `today`.
    SpawnDream,
}

/// Folds the switch with [`dream_on_start_decision`]:
/// [`StartupAction::Noop`] whenever the layer is off.
#[must_use]
pub fn startup_dream_action(
    enabled: bool,
    last_dream: Option<JournalDate>,
    today: JournalDate,
) -> (action: StartupAction)
    ensures
        action == if enabled && dream_is_due(last_dream, today) {
            StartupAction::SpawnDream
        } else {
            StartupAction::Noop
        },
{
    if !enabled {
        return StartupAction::Noop;
    }
    match dream_on_start_decision(last_dream, today) {
        DreamOnStartDecision::Run => StartupAction::SpawnDream,
        DreamOnStartDecision::SkipUpToDate => StartupAction::Noop,
    }
}

/// A signal the autonomous loop wants surfaced to the user.
#[derive(Debug, Clone, Copy, PartialEq, Eq, Structural)]
pub enum AutonomousSignal {
    /// Emit one proactive brief (vs a normal, user-solicited one).
    ProactiveBrief,
}

/// The autonomous idle-loop core, driven by a virtual monotonic tick. It fires
/// exactly one proactive brief once the idle stretch since the last user
/// activity reaches `idle_threshold`, and re-arms only when fresh user activity
/// arrives. Ticks observed while already fired (and before any new activity) do
/// not re-emit.
#[derive(Debug)]
pub struct IdleBriefPolicy {
    idle_threshold: u64,
    last_activity_tick: u64,
    fired_since_activity: bool,
}

/// What an [`IdleBriefPolicy`] holds.
pub struct IdleState {
    pub threshold: nat,
    pub last_activity: nat,
    pub fired: bool,
}

impl View for IdleBriefPolicy {
    type V = IdleState;

    closed spec fn view(&self) -> IdleState {
        IdleState {
            threshold: self.idle_threshold as nat,
            last_activity: self.last_activity_tick as nat,
            fired: self.fired_since_activity,
        }
    }
}

impl IdleState {
    /// The state to begin with. A threshold of zero counts as one.
    pub open spec fn fresh(threshold: nat) -> IdleState {
        IdleState {
            threshold: if threshold == 0 {
                1
            } else {
                threshold
            },
            last_activity: 0,
            fired: false,
        }
    }

    /// The threshold is at least one tick.
    pub open spec fn well_formed(self) -> bool {
        self.threshold >= 1
    }

    /// The state after user activity at `now`.
    pub open spec fn active(self, now: nat) -> IdleState {
        IdleState { last_activity: now, fired: false, ..self }
    }

    /// At `now`, the idle stretch has reached the threshold.
    pub open spec fn idle_at(self, now: nat) -> bool {
        now >= self.last_activity + self.threshold
    }

    /// A tick at `now` emits a brief.
    pub open spec fn fires_at(self, now: nat) -> bool {
        !self.fired && self.idle_at(now)
    }

    /// The state after a tick at `now`.
    pub open spec fn ticked(self, now: nat) -> IdleState {
        IdleState { fired: self.fired || self.idle_at(now), ..self }
    }
}

/// The signal of a brief that is emitted or not.
pub open spec fn brief_if(fires: bool) -> Option<AutonomousSignal> {
    if fires {
        Some(AutonomousSignal::ProactiveBrief)
    } else {
        None
    }
}

impl Clone for IdleBriefPolicy {
    fn clone(&self) -> (copy: Self)
        ensures
            copy@ == self@,
    {
        proof {
            use_type_invariant(self);
        }
        IdleBriefPolicy {
            idle_threshold: self.idle_threshold,
            last_activity_tick: self.last_activity_tick,
            fired_since_activity: self.fired_since_activity,
        }
    }
}

impl IdleBriefPolicy {
    #[verifier::type_invariant]
    spec fn threshold_is_positive(self) -> bool {
        self@.well_formed()
    }

    /// Creates a policy that emits one proactive brief after `idle_threshold`
    /// idle ticks. A threshold of `0` is clamped to `1` so that a brand-new
    /// policy cannot emit before any tick has elapsed.
    #[must_use]
    pub fn new(idle_threshold: u64) -> (policy: Self)
        ensures
            policy@ == IdleState::fresh(idle_threshold as nat),
            policy@.well_formed(),
    {
        IdleBriefPolicy {
            idle_threshold: if idle_threshold == 0 {
                1
            } else {
                idle_threshold
            },
            last_activity_tick: 0,
            fired_since_activity: false,
        }
    }

    /// Records user activity at virtual tick `now`. This resets the idle
    /// stretch and re-arms the policy so that a future idle period can emit
    /// again.
    pub fn on_user_activity(&mut self, now: u64)
        ensures
            final(self)@ == old(self)@.active(now as nat),
    {
        proof {
            use_type_invariant(&*self);
        }
        self.last_activity_tick = now;
        self.fired_since_activity = false;
    }

    /// Advances the virtual clock to `now`. Gives an [`AutonomousSignal`]
    /// exactly once per idle stretch, when the gap since the last activity
    /// first reaches the threshold, and `None` otherwise.
    pub fn on_tick(&mut self, now: u64) -> (signal: Option<AutonomousSignal>)
        ensures
            signal == brief_if(old(self)@.fires_at(now as nat)),
            final(self)@ == old(self)@.ticked(now as nat),
    {
        proof {
            use_type_invariant(&*self);
        }
        if self.fired_since_activity {
            return None;
        }
        let idle_for = now.saturating_sub(self.last_activity_tick);
        if idle_for >= self.idle_threshold {
            self.fired_since_activity = true;
            return Some(AutonomousSignal::ProactiveBrief);
        }
        None
    }
}

/// Drives an [`IdleBriefPolicy`] from the machine's clock, by the milliseconds
/// that have passed since it was built. Once a stop was requested, it never
/// gives a signal again.
#[derive(Debug)]
pub struct KairosIdleRuntime {
    policy: IdleBriefPolicy,
    stop: bool,
    start: Instant,
    latest: u64,
}

/// What a [`KairosIdleRuntime`] holds, besides the moment at which it was built
/// and the latest that it has read.
pub struct WatchState {
    pub idle: IdleState,
    pub stopped: bool,
}

impl View for KairosIdleRuntime {
    type V = WatchState;

    closed spec fn view(&self) -> WatchState {
        WatchState { idle: self.policy@, stopped: self.stop }
    }
}

impl WatchState {
    /// The state after a user submit at `now`.
    pub open spec fn active(self, now: nat) -> WatchState {
        WatchState { idle: self.idle.active(now), ..self }
    }

    /// A poll at `now` gives a signal.
    pub open spec fn fires_at(self, now: nat) -> bool {
        !self.stopped && self.idle.fires_at(now)
    }

    /// The state after a poll at `now`.
    pub open spec fn polled(self, now: nat) -> WatchState {
        if self.stopped {
            self
        } else {
            WatchState { idle: self.idle.ticked(now), ..self }
        }
    }
}

impl KairosIdleRuntime {
    /// The moment at which the runtime was built, from which its milliseconds
    /// count.
    pub closed spec fn built_at(&self) -> Instant {
        self.start
    }

    /// The latest moment that the runtime has read from the clock, in milliseconds.
    pub closed spec fn latest_read(&self) -> u64 {
        self.latest
    }

    /// `now` is read from the clock: it is the number of milliseconds that have
    /// passed since the runtime was built. The tick is monotonic: were the clock to
    /// go back, it would be the latest moment that was read before.
    pub open spec fn reads(&self, now: u64) -> bool {
        exists|tick: u64| #[trigger]
            passed_since(self.built_at(), tick) && now == if tick < self.latest_read() {
                self.latest_read()
            } else {
                tick
            }
    }

    /// Builds from a millisecond idle threshold (clamped to at least 1 ms).
    #[must_use]
    pub fn new(idle_threshold_ms: u64) -> (runtime: Self)
        ensures
            runtime@ == (WatchState {
                idle: IdleState::fresh(idle_threshold_ms as nat),
                stopped: false,
            }),
            moment_read(runtime.built_at()),
            runtime.latest_read() == 0,
    {
        KairosIdleRuntime {
            policy: IdleBriefPolicy::new(idle_threshold_ms),
            stop: false,
            start: moment_now(),
            latest: 0,
        }
    }

    /// Builds from a whole-second idle threshold. A threshold that is too large in
    /// milliseconds becomes the largest there is.
    #[must_use]
    pub fn from_idle_secs(idle_secs: u64) -> (runtime: Self)
        ensures
            runtime@ == (WatchState {
                idle: IdleState::fresh(
                    if idle_secs * 1000 <= u64::MAX {
                        (idle_secs * 1000) as nat
                    } else {
                        u64::MAX as nat
                    },
                ),
                stopped: false,
            }),
            moment_read(runtime.built_at()),
            runtime.latest_read() == 0,
    {
        let millis: u64 = if idle_secs <= u64::MAX / 1000 {
            idle_secs * 1000
        } else {
            u64::MAX
        };
        Self::new(millis)
    }

    /// The milliseconds that have passed since the runtime was built. Which
    /// number comes back is up to the machine's clock.
    fn now_ms(&self) -> (now: u64)
        ensures
            self.reads(now),
    {
        let tick = ticks_since(&self.start);
        assert(passed_since(self.built_at(), tick));
        if tick < self.latest {
            self.latest
        } else {
            tick
        }
    }

    /// Records a user submit at `now`: resets the idle stretch and re-arms
    /// emission.
    pub fn record_activity_at(&mut self, now: u64)
        ensures
            final(self)@ == old(self)@.active(now as nat),
            final(self).built_at() == old(self).built_at(),
            final(self).latest_read() == old(self).latest_read(),
    {
        self.policy.on_user_activity(now);
    }

    /// Records a user submit now: resets the idle stretch and re-arms emission.
    /// The moment that is recorded is what the machine's clock shows.
    pub fn record_activity(&mut self)
        ensures
            old(self).reads(final(self).latest_read()),
            final(self)@ == old(self)@.active(final(self).latest_read() as nat),
            final(self).built_at() == old(self).built_at(),
    {
        let now = self.now_ms();
        self.record_activity_at(now);
        self.latest = now;
    }

    /// Evaluates the idle state at `now`. Gives a signal at most once per idle
    /// stretch, and none once a stop was requested.
    pub fn poll_at(&mut self, now: u64) -> (signal: Option<AutonomousSignal>)
        ensures
            signal == brief_if(old(self)@.fires_at(now as nat)),
            final(self)@ == old(self)@.polled(now as nat),
            final(self).built_at() == old(self).built_at(),
            final(self).latest_read() == old(self).latest_read(),
    {
        if self.stop {
            return None;
        }
        self.policy.on_tick(now)
    }

    /// Evaluates the idle state now. The moment that counts is what the machine's
    /// clock shows.
    pub fn poll(&mut self) -> (signal: Option<AutonomousSignal>)
        ensures
            old(self).reads(final(self).latest_read()),
            signal == brief_if(old(self)@.fires_at(final(self).latest_read() as nat)),
            final(self)@ == old(self)@.polled(final(self).latest_read() as nat),
            final(self).built_at() == old(self).built_at(),
    {
        let now = self.now_ms();
        self.latest = now;
        self.poll_at(now)
    }

    /// Requests that no signal is given any more.
    pub fn request_stop(&mut self)
        ensures
            final(self)@ == (WatchState { stopped: true, ..old(self)@ }),
            final(self).built_at() == old(self).built_at(),
            final(self).latest_read() == old(self).latest_read(),
    {
        self.stop = true;
    }

    /// Whether a stop has been requested.
    #[must_use]
    pub fn is_stopped(&self) -> (r: bool)
        ensures
            r == self@.stopped,
    {
        self.stop
    }
}

/// The notice that a signal puts up.
pub fn notice_of(signal: Option<AutonomousSignal>) -> (notice: Option<&'static str>)
    ensures
        match signal {
            Some(_) => notice == Some(IDLE_BRIEF_NOTICE),
            None => notice is None,
        },
{
    match signal {
        Some(_) => Some(IDLE_BRIEF_NOTICE),
        None => None,
    }
}

/// One round of the idle watch, after its sleep: polls, and gives the notice
/// that is to be shown, if there is one. A watch goes round until its runtime
/// is stopped.
pub fn idle_watch_round(runtime: &mut KairosIdleRuntime) -> (notice: Option<&'static str>)
    ensures
        old(runtime).reads(final(runtime).latest_read()),
        notice == if old(runtime)@.fires_at(final(runtime).latest_read() as nat) {
            Some(IDLE_BRIEF_NOTICE)
        } else {
            None
        },
        final(runtime)@ == old(runtime)@.polled(final(runtime).latest_read() as nat),
        final(runtime).built_at() == old(runtime).built_at(),
{
    let signal = runtime.poll();
    notice_of(signal)
}

/// What can happen to an idle policy.
pub enum IdleEvent {
    /// The user was active at this tick.
    Activity(nat),
    /// The clock reached this tick.
    Tick(nat),
}

impl IdleState {
    /// The state after `event`.
    pub open spec fn after_event(self, event: IdleEvent) -> IdleState {
        match event {
            IdleEvent::Activity(now) => self.active(now),
            IdleEvent::Tick(now) => self.ticked(now),
        }
    }

    /// The state after the `events`, in order.
    pub open spec fn after_events(self, events: Seq<IdleEvent>) -> IdleState
        decreases events.len(),
    {
        if events.len() == 0 {
            self
        } else {
            self.after_events(events.drop_last()).after_event(events.last())
        }
    }

    /// Of the `events`, that at `i` is a tick that emits a brief.
    pub open spec fn emits(self, events: Seq<IdleEvent>, i: int) -> bool {
        events[i] matches IdleEvent::Tick(now) && self.after_events(events.take(i)).fires_at(now)
    }
}

/// Over ticks alone, a policy keeps its threshold and the time of the last
/// activity. It has fired if and only if it had, or one of the ticks reached the threshold.
proof fn lemma_over_ticks(state: IdleState, events: Seq<IdleEvent>, from: int, to: int)
    requires
        0 <= from <= to <= events.len(),
        forall|k: int| from <= k < to ==> #[trigger] events[k] is Tick,
    ensures
        ({
            let before = state.after_events(events.take(from));
            let after = state.after_events(events.take(to));
            &&& after.threshold == before.threshold
            &&& after.last_activity == before.last_activity
            &&& after.fired <==> before.fired || exists|k: int|
                from <= k < to && before.idle_at((#[trigger] events[k])->Tick_0)
        }),
    decreases to - from,
{
    if from < to {
        lemma_over_ticks(state, events, from, to - 1);
        assert(events.take(to).drop_last() =~= events.take(to - 1));
        assert(events.take(to).last() == events[to - 1]);
        assert(events[to - 1] is Tick);
    }
}

/// Between two briefs there is user activity: no idle stretch emits twice.
pub proof fn law_one_brief_per_idle_stretch(
    state: IdleState,
    events: Seq<IdleEvent>,
    first: int,
    second: int,
)
    requires
        0 <= first < second < events.len(),
        state.emits(events, first),
        state.emits(events, second),
    ensures
        exists|k: int| first < k < second && #[trigger] events[k] is Activity,
{
    if forall|k: int| first < k < second ==> !(#[trigger] events[k] is Activity) {
        lemma_over_ticks(state, events, first, second);
        assert(state.after_events(events.take(first)).idle_at(events[first]->Tick_0));
    }
}

/// Within an idle stretch, it is the first tick to reach the threshold that
/// emits the brief, and no other. The stretch begins behind user activity.
pub proof fn law_first_tick_past_the_threshold_emits(
    state: IdleState,
    events: Seq<IdleEvent>,
    from: int,
    i: int,
)
    requires
        0 < from <= i < events.len(),
        events[from - 1] is Activity,
        forall|k: int| from <= k <= i ==> #[trigger] events[k] is Tick,
    ensures
        ({
            let due = events[from - 1]->Activity_0 + state.threshold;
            state.emits(events, i) <==> events[i]->Tick_0 >= due && forall|k: int|
                from <= k < i ==> (#[trigger] events[k])->Tick_0 < due
        }),
{
    lemma_over_ticks(state, events, from, i);
    lemma_threshold_stays(state, events.take(from));
    let before = state.after_events(events.take(from));
    assert(events.take(from).last() == events[from - 1]);
    assert(before.last_activity == events[from - 1]->Activity_0);
    assert(!before.fired);
    assert(events[i] is Tick);
    let due = before.last_activity + before.threshold;
    assert forall|k: int| from <= k < i implies before.idle_at((#[trigger] events[k])->Tick_0) == (
    events[k]->Tick_0 >= due) by {}
}

/// Before any user activity, it is the first tick to reach the threshold that
/// emits the brief, and no other.
pub proof fn law_fresh_policy_emits_at_the_threshold(
    threshold: nat,
    events: Seq<IdleEvent>,
    i: int,
)
    requires
        0 <= i < events.len(),
        forall|k: int| 0 <= k <= i ==> #[trigger] events[k] is Tick,
    ensures
        ({
            let due = if threshold == 0 {
                1
            } else {
                threshold
            };
            IdleState::fresh(threshold).emits(events, i) <==> events[i]->Tick_0 >= due && forall|k: int|
                0 <= k < i ==> (#[trigger] events[k])->Tick_0 < due
        }),
{
    let state = IdleState::fresh(threshold);
    lemma_over_ticks(state, events, 0, i);
    assert(events.take(0) =~= Seq::empty());
    assert(events[i] is Tick);
    assert forall|k: int| 0 <= k < i implies state.idle_at((#[trigger] events[k])->Tick_0) == (
    events[k]->Tick_0 >= state.threshold) by {}
}

/// No event changes the threshold.
proof fn lemma_threshold_stays(state: IdleState, events: Seq<IdleEvent>)
    ensures
        state.after_events(events).threshold == state.threshold,
    decreases events.len(),
{
    if events.len() > 0 {
        lemma_threshold_stays(state, events.drop_last());
    }
}

/// A brief never comes on the tick of the last activity or before it.
pub proof fn law_activity_suppresses_the_brief(
    state: IdleState,
    events: Seq<IdleEvent>,
    i: int,
)
    requires
        state.well_formed(),
        0 <= i < events.len(),
        state.emits(events, i),
    ensures
        events[i]->Tick_0 > state.after_events(events.take(i)).last_activity,
{
    lemma_threshold_stays(state, events.take(i));
}

/// What can happen to a runtime.
pub enum WatchEvent {
    /// The user submitted something at this moment.
    Activity(nat),
    /// It was polled at this moment.
    Poll(nat),
    /// A stop was requested.
    Stop,
}

impl WatchState {
    /// The state after `event`.
    pub open spec fn after_event(self, event: WatchEvent) -> WatchState {
        match event {
            WatchEvent::Activity(now) => self.active(now),
            WatchEvent::Poll(now) => self.polled(now),
            WatchEvent::Stop => WatchState { stopped: true, ..self },
        }
    }

    /// The state after the `events`, in order.
    pub open spec fn after_events(self, events: Seq<WatchEvent>) -> WatchState
        decreases events.len(),
    {
        if events.len() == 0 {
            self
        } else {
            self.after_events(events.drop_last()).after_event(events.last())
        }
    }

    /// Of the `events`, that at `i` is a poll that gives a signal.
    pub open spec fn emits(self, events: Seq<WatchEvent>, i: int) -> bool {
        events[i] matches WatchEvent::Poll(now) && self.after_events(events.take(i)).fires_at(now)
    }
}

/// A stopped runtime stays stopped.
proof fn lemma_stopped_stays(state: WatchState, events: Seq<WatchEvent>, from: int, to: int)
    requires
        0 <= from <= to <= events.len(),
        state.after_events(events.take(from)).stopped,
    ensures
        state.after_events(events.take(to)).stopped,
    decreases to - from,
{
    if from < to {
        lemma_stopped_stays(state, events, from, to - 1);
        assert(events.take(to).drop_last() =~= events.take(to - 1));
    }
}

/// Once a stop was requested, no poll gives a signal any more.
pub proof fn law_no_signal_after_stop(
    state: WatchState,
    events: Seq<WatchEvent>,
    stop: int,
    i: int,
)
    requires
        0 <= stop < i < events.len(),
        events[stop] is Stop,
    ensures
        !state.emits(events, i),
        state.after_events(events.take(i)).stopped,
{
    assert(events.take(stop + 1).last() == events[stop]);
    lemma_stopped_stays(state, events, stop + 1, i);
}

/// A runtime whose policy has fired gives no signal before the next activity.
proof fn lemma_fired_stays(state: WatchState, events: Seq<WatchEvent>, from: int, to: int)
    requires
        0 <= from <= to <= events.len(),
        state.after_events(events.take(from)).idle.fired,
        forall|k: int| from <= k < to ==> !(#[trigger] events[k] is Activity),
    ensures
        state.after_events(events.take(to)).idle.fired,
    decreases to - from,
{
    if from < to {
        lemma_fired_stays(state, events, from, to - 1);
        assert(events.take(to).drop_last() =~= events.take(to - 1));
        assert(events.take(to).last() == events[to - 1]);
        assert(!(events[to - 1] is Activity));
    }
}

/// However often a runtime is polled, there is user activity between two of its
/// signals: a watch shows its notice once per idle stretch.
pub proof fn law_one_signal_per_idle_stretch(
    state: WatchState,
    events: Seq<WatchEvent>,
    first: int,
    second: int,
)
    requires
        0 <= first < second < events.len(),
        state.emits(events, first),
        state.emits(events, second),
    ensures
        exists|k: int| first < k < second && #[trigger] events[k] is Activity,
{
    if forall|k: int| first < k < second ==> !(#[trigger] events[k] is Activity) {
        assert(events.take(first + 1).drop_last() =~= events.take(first));
        assert(events.take(first + 1).last() == events[first]);
        lemma_fired_stays(state, events, first + 1, second);
    }
}

/// Over polls alone, a runtime keeps its threshold, the moment of the last
/// activity and whether it is stopped. Unless it is stopped, it has fired if and only if
/// it had, or one of the polls reached the threshold.
proof fn lemma_over_polls(state: WatchState, events: Seq<WatchEvent>, from: int, to: int)
    requires
        0 <= from <= to <= events.len(),
        forall|k: int| from <= k < to ==> #[trigger] events[k] is Poll,
    ensures
        ({
            let before = state.after_events(events.take(from));
            let after = state.after_events(events.take(to));
            &&& after.stopped == before.stopped
            &&& after.idle.threshold == before.idle.threshold
            &&& after.idle.last_activity == before.idle.last_activity
            &&& !before.stopped ==> (after.idle.fired <==> before.idle.fired || exists|k: int|
                from <= k < to && (#[trigger] events[k])->Poll_0 >= before.idle.last_activity
                    + before.idle.threshold)
        }),
    decreases to - from,
{
    if from < to {
        lemma_over_polls(state, events, from, to - 1);
        assert(events.take(to).drop_last() =~= events.take(to - 1));
        assert(events.take(to).last() == events[to - 1]);
        assert(events[to - 1] is Poll);
    }
}

/// No event changes the threshold of a runtime.
proof fn lemma_watch_keeps_threshold(state: WatchState, events: Seq<WatchEvent>)
    ensures
        state.after_events(events).idle.threshold == state.idle.threshold,
    decreases events.len(),
{
    if events.len() > 0 {
        lemma_watch_keeps_threshold(state, events.drop_last());
    }
}

/// A runtime is stopped by a stop, and by nothing else.
proof fn lemma_only_stop_stops(state: WatchState, events: Seq<WatchEvent>)
    requires
        !state.stopped,
        forall|k: int| 0 <= k < events.len() ==> !(#[trigger] events[k] is Stop),
    ensures
        !state.after_events(events).stopped,
    decreases events.len(),
{
    if events.len() > 0 {
        lemma_only_stop_stops(state, events.drop_last());
        assert(!(events[events.len() - 1] is Stop));
    }
}

/// A user submit resets the idle stretch: of the polls behind it, it is the
/// first that comes a whole threshold after the submit that gives the signal, and
/// no other, as long as no stop was requested.
pub proof fn law_submit_resets_the_idle_stretch(
    state: WatchState,
    events: Seq<WatchEvent>,
    from: int,
    i: int,
)
    requires
        !state.stopped,
        0 < from <= i < events.len(),
        forall|k: int| 0 <= k < from ==> !(#[trigger] events[k] is Stop),
        events[from - 1] is Activity,
        forall|k: int| from <= k <= i ==> #[trigger] events[k] is Poll,
    ensures
        ({
            let due = events[from - 1]->Activity_0 + state.idle.threshold;
            state.emits(events, i) <==> events[i]->Poll_0 >= due && forall|k: int|
                from <= k < i ==> (#[trigger] events[k])->Poll_0 < due
        }),
{
    let before = state.after_events(events.take(from));
    lemma_over_polls(state, events, from, i);
    lemma_watch_keeps_threshold(state, events.take(from));
    lemma_only_stop_stops(state, events.take(from));
    assert(events.take(from).last() == events[from - 1]);
    assert(before.idle.last_activity == events[from - 1]->Activity_0);
    assert(!before.idle.fired);
    assert(events[i] is Poll);
}

/// A runtime that saw no submit yet gives its signal at the first poll that
/// comes a whole threshold, and at least one millisecond, after it was built, and
/// at no other, as long as no stop was requested.
pub proof fn law_fresh_runtime_signals_at_the_threshold(
    threshold: nat,
    events: Seq<WatchEvent>,
    i: int,
)
    requires
        0 <= i < events.len(),
        forall|k: int| 0 <= k <= i ==> #[trigger] events[k] is Poll,
    ensures
        ({
            let due = if threshold == 0 {
                1
            } else {
                threshold
            };
            let state = WatchState { idle: IdleState::fresh(threshold), stopped: false };
            state.emits(events, i) <==> events[i]->Poll_0 >= due && forall|k: int|
                0 <= k < i ==> (#[trigger] events[k])->Poll_0 < due
        }),
{
    let state = WatchState { idle: IdleState::fresh(threshold), stopped: false };
    lemma_over_polls(state, events, 0, i);
    assert(events.take(0) =~= Seq::empty());
    assert(events[i] is Poll);
}

/// A value says yes if and only if it is, but for white space around it and for
/// capital letters, one of the four words.
pub proof fn law_truthy_words(front: Seq<char>, word: Seq<char>, back: Seq<char>)
    requires
        all_white(front),
        all_white(back),
        word.len() > 0,
        !white_space(word[0]),
        !white_space(word.last()),
    ensures
        truthy(front + word + back) <==> folds_to(word, "1"@) || folds_to(word, "true"@)
            || folds_to(word, "yes"@) || folds_to(word, "on"@),
        !truthy(front + back),
{
    law_trim_removes_white_ends(front, word, back);
    let small_word = word.map_values(|c: char| small(c));
    assert forall|w: Seq<char>| small_word == w <==> #[trigger] folds_to(word, w) by {
        if folds_to(word, w) {
            assert(small_word =~= w);
        }
    }
    assert(truthy(front + word + back) <==> folds_to(word, "1"@) || folds_to(word, "true"@)
        || folds_to(word, "yes"@) || folds_to(word, "on"@));
    law_white_trims_to_nothing(front + back);
    reveal_strlit("1");
    reveal_strlit("true");
    reveal_strlit("yes");
    reveal_strlit("on");
    let nothing = trim(front + back).map_values(|c: char| small(c));
    assert(nothing.len() == 0);
    assert("1"@.len() == 1 && "true"@.len() == 4 && "yes"@.len() == 3 && "on"@.len() == 2);
}

/// `word` is `small_word`, but for ASCII capital letters.
pub open spec fn folds_to(word: Seq<char>, small_word: Seq<char>) -> bool {
    &&& word.len() == small_word.len()
    &&& forall|i: int|
        0 <= i < word.len() ==> small_word[i] as int == #[trigger] word[i] as int + if 'A'
            <= word[i] <= 'Z' {
            32int
        } else {
            0
        }
}

/// The idle threshold is the number that the variable writes, with white space
/// around it or not, if it is from one to the largest `u64`. It is 300 seconds for
/// every other value, and where the variable is not set.
pub proof fn law_idle_threshold_is_read(front: Seq<char>, text: Seq<char>, back: Seq<char>)
    requires
        all_white(front),
        all_white(back),
        text.len() > 0 ==> !white_space(text[0]) && !white_space(text.last()),
    ensures
        idle_secs(None) == 300,
        unsigned(text, 0xffff_ffff_ffff_ffff) matches Some(n) ==> n > 0 ==> idle_secs(
            Some(front + text + back),
        ) == n,
        unsigned(text, 0xffff_ffff_ffff_ffff) == Some(0nat) ==> idle_secs(
            Some(front + text + back),
        ) == 300,
        unsigned(text, 0xffff_ffff_ffff_ffff) is None ==> idle_secs(
            Some(front + text + back),
        ) == 300,
{
    lemma_trim_between_white(front, text, back);
}

/// The moments that a runtime reads never go back, and a moment that it reads is
/// what the clock shows, unless it has read a later one.
pub proof fn law_moments_never_go_back(runtime: KairosIdleRuntime, now: u64)
    requires
        runtime.reads(now),
    ensures
        now >= runtime.latest_read(),
        now > runtime.latest_read() ==> passed_since(runtime.built_at(), now),
{
}

} // verus!
