use logitray::model::{BatteryState, Transport};
use logitray::notify::{cooldown_minutes_to_secs, low_battery_title, Notifier};

fn make_state(percent: u8, charging: bool) -> BatteryState {
    BatteryState {
        device_key: "test".to_string(),
        display_name: "MX Master 3".to_string(),
        pid: 0xC52B,
        device_index: 1,
        battery_percent: percent,
        is_charging: charging,
        transport: Transport::Receiver,
    }
}

#[test]
fn low_battery_ignored_while_charging() {
    let mut notifier = Notifier::new(true, 15, 120);
    assert!(!notifier.maybe_notify_low_battery(&make_state(10, true), 0, |_| true));
}

#[test]
fn above_threshold_ignored() {
    let mut notifier = Notifier::new(true, 15, 120);
    assert!(!notifier.maybe_notify_low_battery(&make_state(50, false), 0, |_| true));
}

#[test]
fn disabled_suppresses_notifications() {
    let notifier = Notifier::new(false, 15, 120);
    assert!(!notifier.should_notify(&make_state(10, false), 0));
}

#[test]
fn cooldown_suppresses_repeat() {
    let mut notifier = Notifier::new(true, 15, 120);
    let state = make_state(10, false);
    let now: u64 = 5_000_000;
    assert!(notifier.should_notify(&state, now));
    notifier.record_sent(state.device_key.clone(), now);
    assert!(!notifier.should_notify(&state, now + 30_000));
    assert!(notifier.should_notify(&state, now + notifier.cooldown_secs() * 1000 + 1000));
}

#[test]
fn title_format() {
    assert_eq!(low_battery_title(&make_state(12, false)), "MX Master 3: 12%");
}

#[test]
fn delivered_notification_starts_the_cooldown() {
    let mut notifier = Notifier::new(true, 15, 1);
    let state = make_state(15, false);
    assert!(notifier.maybe_notify_low_battery(&state, 1_000, |_| true));
    assert!(!notifier.maybe_notify_low_battery(&state, 60_999, |_| true));
    assert!(notifier.maybe_notify_low_battery(&state, 61_000, |_| true));
}

#[test]
fn failed_delivery_does_not_start_the_cooldown() {
    let mut notifier = Notifier::new(true, 15, 120);
    let state = make_state(5, false);
    assert!(!notifier.maybe_notify_low_battery(&state, 1_000, |_| false));
    assert!(notifier.should_notify(&state, 1_001));
}

#[test]
fn settings_change_the_decision() {
    let mut notifier = Notifier::new(true, 15, 120);
    let state = make_state(20, false);
    assert!(!notifier.should_notify(&state, 0));
    notifier.set_threshold(20);
    assert!(notifier.should_notify(&state, 0));
    notifier.set_enabled(false);
    assert!(!notifier.should_notify(&state, 0));
    notifier.set_enabled(true);
    notifier.set_cooldown(0);
    assert_eq!(notifier.cooldown_secs(), 0);
    notifier.record_sent(state.device_key.clone(), 10);
    assert!(notifier.should_notify(&state, 10));
}

#[test]
fn cooldown_saturates() {
    assert_eq!(cooldown_minutes_to_secs(120), 7200);
    assert_eq!(cooldown_minutes_to_secs(u64::MAX), u64::MAX);
    let notifier = Notifier::new(true, 15, u64::MAX);
    assert_eq!(notifier.cooldown_secs(), u64::MAX);
}

#[test]
fn clock_reading_before_the_last_notification_counts_as_no_time() {
    let mut notifier = Notifier::new(true, 15, 1);
    let state = make_state(5, false);
    notifier.record_sent(state.device_key.clone(), 100_000);
    assert!(!notifier.should_notify(&state, 50_000));
}

#[test]
fn no_toast_attempted_when_not_due() {
    let mut notifier = Notifier::new(true, 15, 120);
    let never = |_: &BatteryState| -> bool { panic!("no toast is due") };
    assert!(!notifier.maybe_notify_low_battery(&make_state(10, true), 0, never));
    assert!(!notifier.maybe_notify_low_battery(&make_state(50, false), 0, never));
    let state = make_state(10, false);
    notifier.record_sent(state.device_key.clone(), 1_000);
    assert!(!notifier.maybe_notify_low_battery(&state, 2_000, never));
}

#[test]
fn low_battery_action_gives_title_only_when_due() {
    let mut notifier = Notifier::new(true, 15, 120);
    let state = make_state(10, false);
    assert_eq!(
        notifier.low_battery_action(&state, 0),
        Some("MX Master 3: 10%".to_string())
    );
    assert_eq!(notifier.low_battery_action(&make_state(10, true), 0), None);
    assert_eq!(notifier.low_battery_action(&make_state(50, false), 0), None);
    notifier.record_sent(state.device_key.clone(), 0);
    assert_eq!(notifier.low_battery_action(&state, 1_000), None);
    assert!(notifier.low_battery_action(&state, 120 * 60 * 1000).is_some());
}
