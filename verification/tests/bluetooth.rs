use logitray::bluetooth::{
    bluetooth_device_key, bluetooth_reading, is_keyboard_or_mouse_appearance,
    looks_like_logitech_keyboard_or_mouse, poll_for_worker, poll_once, publish_snapshot,
    record_reading, KnownKeys,
};
use logitray::model::{BatteryState, DeviceEvent, PollResult, Transport};

fn state(key: &str) -> BatteryState {
    BatteryState {
        device_key: key.to_string(),
        display_name: "MX Keys".to_string(),
        pid: 0,
        device_index: 0,
        battery_percent: 75,
        is_charging: false,
        transport: Transport::Bluetooth,
    }
}

#[test]
fn missing_bluetooth_device_is_published_as_gone() {
    let mut known = KnownKeys::from_keys(vec!["BT:old".to_string()]);
    let events = publish_snapshot(
        PollResult {
            devices: vec![state("BT:new")],
            errors: Vec::new(),
        },
        true,
        &mut known,
    );
    assert!(matches!(&events[0], DeviceEvent::Gone(key) if key == "BT:old"));
    assert!(matches!(&events[1], DeviceEvent::Update(state) if state.device_key == "BT:new"));
}

#[test]
fn total_scan_failure_preserves_last_known_reading() {
    let mut known = KnownKeys::from_keys(vec!["BT:old".to_string()]);
    let events = publish_snapshot(
        PollResult {
            devices: Vec::new(),
            errors: vec!["radio unavailable".to_string()],
        },
        false,
        &mut known,
    );
    assert!(events.is_empty());
    assert!(known.contains("BT:old"));
}

#[test]
fn partial_read_failure_does_not_mark_an_unread_device_gone() {
    let mut known = KnownKeys::from_keys(vec!["BT:old".to_string()]);
    let events = publish_snapshot(
        PollResult {
            devices: vec![state("BT:new")],
            errors: vec!["BT:old: temporary read failure".to_string()],
        },
        true,
        &mut known,
    );
    assert_eq!(events.len(), 1);
    assert!(matches!(&events[0], DeviceEvent::Update(state) if state.device_key == "BT:new"));
    assert!(known.contains("BT:old"));
    assert!(known.contains("BT:new"));
}

#[test]
fn bluetooth_filter_accepts_keyboards_and_mice_but_not_unrelated_devices() {
    assert!(is_keyboard_or_mouse_appearance(0x0F, 0x01));
    assert!(is_keyboard_or_mouse_appearance(0x0F, 0x02));
    assert!(!is_keyboard_or_mouse_appearance(0x0F, 0x03));
    assert!(looks_like_logitech_keyboard_or_mouse("MX Master 3S"));
    assert!(looks_like_logitech_keyboard_or_mouse("Logitech K380"));
    assert!(!looks_like_logitech_keyboard_or_mouse("Xiaozhu"));
}

#[test]
fn successful_empty_scan_marks_every_known_device_gone_in_key_order() {
    let mut known = KnownKeys::from_keys(vec!["BT:b".to_string(), "BT:a".to_string(), "BT:b".to_string()]);
    assert_eq!(known.keys(), vec!["BT:a".to_string(), "BT:b".to_string()]);
    let events = publish_snapshot(PollResult::default(), true, &mut known);
    assert_eq!(events.len(), 2);
    assert!(matches!(&events[0], DeviceEvent::Gone(key) if key == "BT:a"));
    assert!(matches!(&events[1], DeviceEvent::Gone(key) if key == "BT:b"));
    assert!(known.keys().is_empty());
}

#[test]
fn clean_scan_replaces_known_keys() {
    let mut known = KnownKeys::from_keys(vec!["BT:x".to_string(), "BT:y".to_string()]);
    let events = publish_snapshot(
        PollResult {
            devices: vec![state("BT:y"), state("BT:z")],
            errors: Vec::new(),
        },
        true,
        &mut known,
    );
    assert_eq!(events.len(), 3);
    assert!(matches!(&events[0], DeviceEvent::Gone(key) if key == "BT:x"));
    assert!(matches!(&events[1], DeviceEvent::Update(s) if s.device_key == "BT:y"));
    assert!(matches!(&events[2], DeviceEvent::Update(s) if s.device_key == "BT:z"));
    assert_eq!(known.keys(), vec!["BT:y".to_string(), "BT:z".to_string()]);
}

#[test]
fn marker_match_is_case_insensitive_substring() {
    assert!(looks_like_logitech_keyboard_or_mouse("my POP Mouse"));
    assert!(looks_like_logitech_keyboard_or_mouse("Signature M650"));
    assert!(looks_like_logitech_keyboard_or_mouse("logi pebble"));
    assert!(!looks_like_logitech_keyboard_or_mouse("logitec"));
    assert!(!looks_like_logitech_keyboard_or_mouse(""));
    assert!(!is_keyboard_or_mouse_appearance(0x0E, 0x01));
}

#[test]
fn readings_above_one_hundred_are_errors() {
    let r = bluetooth_reading("BT:1".to_string(), 101, Some("MX Keys".to_string()), None, None);
    match r {
        Err(e) => assert_eq!(e, "Battery Level returned invalid value 101"),
        other => panic!("unexpected {:?}", other),
    }
}

#[test]
fn reading_name_falls_back_and_filters() {
    let r = bluetooth_reading("BT:1".to_string(), 40, Some("  ".to_string()), Some("MX Keys Mini".to_string()), None)
        .unwrap()
        .unwrap();
    assert_eq!(r.display_name, "MX Keys Mini");
    assert_eq!(r.battery_percent, 40);
    assert_eq!(r.transport, Transport::Bluetooth);
    assert_eq!(r.device_key, "BT:1");
    assert!(!r.is_charging);
    let r = bluetooth_reading("BT:2".to_string(), 40, None, None, Some((0x0F, 0x02))).unwrap().unwrap();
    assert_eq!(r.display_name, "Bluetooth device");
    let r = bluetooth_reading("BT:3".to_string(), 40, Some("Headset".to_string()), None, Some((0x0F, 0x03))).unwrap();
    assert!(r.is_none());
}

#[test]
fn recorded_errors_carry_the_service_key() {
    let mut result = PollResult::default();
    let key = bluetooth_device_key("svc1");
    assert_eq!(key, "BT:svc1");
    record_reading(&mut result, &key, Err("Battery Level returned an empty value".to_string()));
    record_reading(&mut result, &key, Ok(Some(state("BT:svc1"))));
    record_reading(&mut result, &key, Ok(None));
    assert_eq!(result.errors, vec!["BT:svc1: Battery Level returned an empty value".to_string()]);
    assert_eq!(result.devices.len(), 1);
}

#[test]
fn failed_scan_is_incomplete_and_successful_scan_is_sorted() {
    let (r, complete) = poll_for_worker(Err("no radio".to_string()));
    assert!(!complete);
    assert!(r.devices.is_empty());
    assert_eq!(r.errors, vec!["no radio".to_string()]);
    let mut b = state("b");
    b.display_name = "B".to_string();
    let mut a = state("a");
    a.display_name = "A".to_string();
    let (r, complete) = poll_for_worker(Ok(PollResult {
        devices: vec![b, a],
        errors: Vec::new(),
    }));
    assert!(complete);
    assert_eq!(r.devices[0].display_name, "A");
    assert!(poll_once(Ok(PollResult::default())).devices.is_empty());
}
