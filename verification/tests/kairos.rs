use std::time::{Duration, Instant};

use runtime::journal::JournalDate;
use runtime::kairos::{
    env_is_truthy, idle_threshold_secs, idle_watch_round, kairos_enabled, notice_of,
    startup_dream_action, AutonomousSignal, IdleBriefPolicy, KairosIdleRuntime, StartupAction,
    DEFAULT_IDLE_SECS, IDLE_BRIEF_NOTICE, KAIROS_ENV, KAIROS_IDLE_SECS_ENV,
};

fn date(year: i32, month: u32, day: u32) -> JournalDate {
    JournalDate { year, month, day }
}

#[test]
fn startup_action_is_noop_when_gate_off_regardless_of_marker() {
    // Even with a clearly-due marker, the disabled path must produce no spawn
    // intent.
    let today = date(2026, 6, 1);
    assert_eq!(
        startup_dream_action(false, None, today),
        StartupAction::Noop
    );
    assert_eq!(
        startup_dream_action(false, Some(date(2026, 5, 31)), today),
        StartupAction::Noop
    );
}

#[test]
fn startup_action_spawns_when_enabled_and_marker_is_yesterday_or_absent() {
    let today = date(2026, 6, 1);
    assert_eq!(
        startup_dream_action(true, None, today),
        StartupAction::SpawnDream
    );
    assert_eq!(
        startup_dream_action(true, Some(date(2026, 5, 31)), today),
        StartupAction::SpawnDream
    );
}

#[test]
fn startup_action_is_noop_when_enabled_but_already_dreamed_today() {
    // Same-day restart idempotence: marker == today => no second dream.
    let today = date(2026, 6, 1);
    assert_eq!(
        startup_dream_action(true, Some(today), today),
        StartupAction::Noop
    );
}

#[test]
fn startup_action_is_noop_for_future_marker() {
    // Clock skew / hand-edited marker dated ahead of today: treat as
    // up-to-date rather than re-dreaming the future.
    let today = date(2026, 6, 1);
    assert_eq!(
        startup_dream_action(true, Some(date(2026, 6, 2)), today),
        StartupAction::Noop
    );
}

#[test]
fn idle_policy_emits_exactly_one_brief_after_threshold() {
    let mut policy = IdleBriefPolicy::new(3);
    // Below threshold: no signal.
    assert_eq!(policy.on_tick(1), None);
    assert_eq!(policy.on_tick(2), None);
    // Threshold reached: exactly one proactive brief.
    assert_eq!(policy.on_tick(3), Some(AutonomousSignal::ProactiveBrief));
    // Further idle ticks do not re-emit.
    assert_eq!(policy.on_tick(4), None);
    assert_eq!(policy.on_tick(10), None);
}

#[test]
fn idle_policy_recent_activity_suppresses_the_brief() {
    let mut policy = IdleBriefPolicy::new(3);
    assert_eq!(policy.on_tick(1), None);
    assert_eq!(policy.on_tick(2), None);
    // User interacts just before the threshold: the idle stretch resets, so
    // the tick that would have fired now does not.
    policy.on_user_activity(2);
    assert_eq!(policy.on_tick(3), None);
    assert_eq!(policy.on_tick(4), None);
    // It only fires once a fresh full idle stretch elapses (2 -> 5).
    assert_eq!(policy.on_tick(5), Some(AutonomousSignal::ProactiveBrief));
}

#[test]
fn idle_policy_rearms_after_activity_following_an_emission() {
    let mut policy = IdleBriefPolicy::new(2);
    assert_eq!(policy.on_tick(2), Some(AutonomousSignal::ProactiveBrief));
    assert_eq!(policy.on_tick(3), None);
    // Fresh activity re-arms; a new idle stretch can emit again.
    policy.on_user_activity(3);
    assert_eq!(policy.on_tick(4), None);
    assert_eq!(policy.on_tick(5), Some(AutonomousSignal::ProactiveBrief));
}

#[test]
fn idle_policy_clamps_zero_threshold_so_it_never_emits_pre_tick() {
    let mut policy = IdleBriefPolicy::new(0);
    // Clamped to 1: tick 0 is not idle yet, tick 1 is.
    assert_eq!(policy.on_tick(0), None);
    assert_eq!(policy.on_tick(1), Some(AutonomousSignal::ProactiveBrief));
}

#[test]
fn idle_policy_does_not_emit_one_tick_before_threshold() {
    let mut policy = IdleBriefPolicy::new(5);
    assert_eq!(policy.on_tick(4), None);
    assert_eq!(policy.on_tick(5), Some(AutonomousSignal::ProactiveBrief));
}

#[test]
fn idle_policy_same_tick_activity_then_tick_does_not_emit() {
    // Coarse clock: activity and a tick can land on the same tick value.
    // idle_for == 0 must not fire.
    let mut policy = IdleBriefPolicy::new(3);
    policy.on_user_activity(10);
    assert_eq!(policy.on_tick(10), None);
    assert_eq!(policy.on_tick(12), None);
    assert_eq!(policy.on_tick(13), Some(AutonomousSignal::ProactiveBrief));
}

#[test]
fn idle_policy_activity_exactly_at_threshold_tick_resets() {
    let mut policy = IdleBriefPolicy::new(3);
    // Activity arrives on the very tick the brief would have fired: reset
    // wins, no emit, and the next stretch is measured from here.
    policy.on_user_activity(3);
    assert_eq!(policy.on_tick(3), None);
    assert_eq!(policy.on_tick(6), Some(AutonomousSignal::ProactiveBrief));
}

#[test]
fn idle_policy_survives_a_clock_that_goes_back() {
    let mut policy = IdleBriefPolicy::new(3);
    policy.on_user_activity(u64::MAX);
    assert_eq!(policy.on_tick(0), None);
    assert_eq!(policy.on_tick(u64::MAX), None);
    let mut policy = IdleBriefPolicy::new(u64::MAX);
    assert_eq!(policy.on_tick(u64::MAX - 1), None);
    assert_eq!(policy.on_tick(u64::MAX), Some(AutonomousSignal::ProactiveBrief));
}

#[test]
fn idle_policy_copies_go_their_own_way() {
    let mut policy = IdleBriefPolicy::new(2);
    let mut copy = policy.clone();
    assert_eq!(policy.on_tick(2), Some(AutonomousSignal::ProactiveBrief));
    assert_eq!(copy.on_tick(2), Some(AutonomousSignal::ProactiveBrief));
    let mut fired = copy.clone();
    assert_eq!(fired.on_tick(9), None);
}

#[test]
fn idle_policy_emits_once_between_two_activities() {
    let mut policy = IdleBriefPolicy::new(4);
    let mut emitted_since_activity = 0;
    let mut last_activity = 0;
    for now in 1..1_000u64 {
        if now % 37 == 0 || now % 53 == 0 {
            policy.on_user_activity(now);
            emitted_since_activity = 0;
            last_activity = now;
        }
        if policy.on_tick(now).is_some() {
            emitted_since_activity += 1;
            assert_eq!(now, last_activity + 4);
        }
        assert_eq!(emitted_since_activity, i32::from(now >= last_activity + 4));
    }
}

#[test]
fn idle_runtime_poll_is_suppressed_after_stop() {
    // Even with a 1ms threshold (so it would otherwise be idle almost
    // immediately), a requested stop makes poll never emit.
    let mut runtime = KairosIdleRuntime::new(1);
    runtime.request_stop();
    assert!(runtime.is_stopped());
    assert_eq!(runtime.poll(), None);
}

#[test]
fn idle_runtime_not_idle_with_large_threshold() {
    // Freshly constructed with a 1-hour threshold: not idle yet, no emit,
    // and recording activity is safe.
    let mut runtime = KairosIdleRuntime::from_idle_secs(3600);
    assert_eq!(runtime.poll(), None);
    runtime.record_activity();
    assert_eq!(runtime.poll(), None);
}

#[test]
fn idle_runtime_follows_the_moments_it_is_given() {
    let mut runtime = KairosIdleRuntime::from_idle_secs(2);
    assert_eq!(runtime.poll_at(1_999), None);
    assert_eq!(runtime.poll_at(2_000), Some(AutonomousSignal::ProactiveBrief));
    assert_eq!(runtime.poll_at(9_000), None);
    runtime.record_activity_at(9_000);
    assert_eq!(runtime.poll_at(10_999), None);
    assert_eq!(runtime.poll_at(11_000), Some(AutonomousSignal::ProactiveBrief));
    runtime.record_activity_at(12_000);
    assert!(!runtime.is_stopped());
    runtime.request_stop();
    assert_eq!(runtime.poll_at(99_000), None);
    assert!(runtime.is_stopped());
}

#[test]
fn idle_runtime_clamps_its_threshold_at_both_ends() {
    let mut runtime = KairosIdleRuntime::new(0);
    assert_eq!(runtime.poll_at(0), None);
    assert_eq!(runtime.poll_at(1), Some(AutonomousSignal::ProactiveBrief));
    let mut runtime = KairosIdleRuntime::from_idle_secs(u64::MAX);
    assert_eq!(runtime.poll_at(u64::MAX - 1), None);
    assert_eq!(runtime.poll_at(u64::MAX), Some(AutonomousSignal::ProactiveBrief));
}

#[test]
fn idle_threshold_secs_defaults_and_parses() {
    assert_eq!(DEFAULT_IDLE_SECS, 300);
    assert_eq!(idle_threshold_secs(None), 300);
    assert_eq!(idle_threshold_secs(Some("")), 300);
    assert_eq!(idle_threshold_secs(Some("soon")), 300);
    assert_eq!(idle_threshold_secs(Some("-4")), 300);
    assert_eq!(idle_threshold_secs(Some("0")), 300);
    assert_eq!(idle_threshold_secs(Some("18446744073709551616")), 300);
    assert_eq!(idle_threshold_secs(Some(" 45\n")), 45);
    assert_eq!(idle_threshold_secs(Some("+7")), 7);
}

#[test]
fn the_gate_opens_for_truthy_values_only() {
    for value in ["1", "true", "yes", "on", "TRUE", "Yes", "oN", " on\t"] {
        assert!(env_is_truthy(value), "{value:?}");
        assert!(kairos_enabled(Some(value)), "{value:?}");
    }
    for value in ["", "0", "false", "no", "off", "y", "t", "11", "true!", "o n", "ｏｎ"] {
        assert!(!env_is_truthy(value), "{value:?}");
        assert!(!kairos_enabled(Some(value)), "{value:?}");
    }
    assert!(!kairos_enabled(None));
}

#[test]
fn names_and_notice_are_those_that_operators_know() {
    assert_eq!(KAIROS_ENV, "CLAW_KAIROS");
    assert_eq!(KAIROS_IDLE_SECS_ENV, "CLAW_KAIROS_IDLE_SECS");
    assert_eq!(
        IDLE_BRIEF_NOTICE,
        "[kairos] proactive check-in: you've been idle — reply to keep going."
    );
    assert_eq!(notice_of(None), None);
    assert_eq!(notice_of(Some(AutonomousSignal::ProactiveBrief)), Some(IDLE_BRIEF_NOTICE));
}

#[test]
fn run_idle_watch_emits_exactly_once_then_stops_on_request() {
    // 60ms idle threshold; a 300ms idle window crosses it once.
    let mut runtime = KairosIdleRuntime::new(60);
    let mut emitted: Vec<String> = Vec::new();
    let started = Instant::now();
    while !runtime.is_stopped() {
        if let Some(message) = idle_watch_round(&mut runtime) {
            assert!(started.elapsed() >= Duration::from_millis(59));
            emitted.push(message.to_string());
        }
        if started.elapsed() >= Duration::from_millis(300) {
            runtime.request_stop();
        }
    }
    assert_eq!(
        emitted.len(),
        1,
        "exactly one proactive Brief should fire per idle stretch, got {emitted:?}"
    );
    assert_eq!(emitted[0], IDLE_BRIEF_NOTICE);
}

#[test]
fn run_idle_watch_emits_nothing_when_stopped_before_threshold() {
    // 10s threshold but stopped almost immediately: no emission.
    let mut runtime = KairosIdleRuntime::from_idle_secs(10);
    let mut emitted: Vec<String> = Vec::new();
    let started = Instant::now();
    while !runtime.is_stopped() {
        if let Some(message) = idle_watch_round(&mut runtime) {
            emitted.push(message.to_string());
        }
        if started.elapsed() >= Duration::from_millis(40) {
            runtime.request_stop();
        }
    }
    assert!(emitted.is_empty());
}
