use logitray::dedup::Ranked;
use logitray::model::{deduplicate_devices, normalized_device_name, BatteryState, PollResult, Transport};

fn state(key: &str, name: &str, transport: Transport, percent: u8) -> BatteryState {
    BatteryState {
        device_key: key.to_string(),
        display_name: name.to_string(),
        pid: 0,
        device_index: 0,
        battery_percent: percent,
        is_charging: false,
        transport,
    }
}

#[test]
fn normalizes_case_whitespace_and_bluetooth_suffix() {
    assert_eq!(
        normalized_device_name("  MX   Master 3S (Bluetooth) "),
        "mx master 3s"
    );
    assert_eq!(
        normalized_device_name("MX Keys Wireless Keyboard"),
        "mx keys"
    );
}

#[test]
fn receiver_wins_a_same_name_online_tie() {
    let devices = deduplicate_devices(vec![
        state("BT:1", "MX Master 3S Bluetooth", Transport::Bluetooth, 79),
        state("C548:1", "MX Master 3S", Transport::Receiver, 80),
    ]);
    assert_eq!(devices.len(), 1);
    assert_eq!(devices[0].transport, Transport::Receiver);
}

#[test]
fn distinct_devices_are_preserved() {
    let devices = deduplicate_devices(vec![
        state("BT:1", "MX Keys", Transport::Bluetooth, 50),
        state("BT:2", "MX Master 3S", Transport::Bluetooth, 90),
    ]);
    assert_eq!(devices.len(), 2);
}

#[test]
fn normalization_strips_only_one_suffix_in_order() {
    assert_eq!(normalized_device_name("Mouse Wireless Mouse Bluetooth"), "mouse wireless mouse");
    assert_eq!(normalized_device_name("MX Anywhere (bluetooth)"), "mx anywhere");
    assert_eq!(normalized_device_name("Pebble Wireless Mouse"), "pebble");
    assert_eq!(normalized_device_name("\tK380\n"), "k380");
    assert_eq!(normalized_device_name(""), "");
    assert_eq!(normalized_device_name("   "), "");
    assert_eq!(normalized_device_name("Bluetooth"), "bluetooth");
}

#[test]
fn normalization_lowercases_beyond_ascii() {
    assert_eq!(normalized_device_name("ÄRGO  Maus"), "ärgo maus");
}

#[test]
fn receiver_wins_regardless_of_input_order() {
    let devices = deduplicate_devices(vec![
        state("C548:1", "MX Master 3S", Transport::Receiver, 80),
        state("BT:1", "MX Master 3S Bluetooth", Transport::Bluetooth, 79),
    ]);
    assert_eq!(devices.len(), 1);
    assert_eq!(devices[0].device_key, "C548:1");
}

#[test]
fn first_reading_wins_between_equal_transports() {
    let devices = deduplicate_devices(vec![
        state("BT:1", "MX Keys", Transport::Bluetooth, 10),
        state("BT:2", "mx keys (bluetooth)", Transport::Bluetooth, 20),
    ]);
    assert_eq!(devices.len(), 1);
    assert_eq!(devices[0].device_key, "BT:1");
}

#[test]
fn deduplicated_devices_are_ordered_by_display_name() {
    let devices = deduplicate_devices(vec![
        state("3", "Zeta", Transport::Receiver, 10),
        state("1", "Alpha", Transport::Receiver, 20),
        state("2", "Mid", Transport::Bluetooth, 30),
        state("4", "alpha", Transport::Bluetooth, 40),
    ]);
    let names: Vec<&str> = devices.iter().map(|d| d.display_name.as_str()).collect();
    assert_eq!(names, vec!["Alpha", "Mid", "Zeta"]);
}

#[test]
fn deduplicating_nothing_gives_nothing() {
    assert!(deduplicate_devices(Vec::new()).is_empty());
}

#[test]
fn sort_devices_orders_by_name_pid_key_and_is_stable() {
    let mut a = state("b", "Mouse", Transport::Receiver, 1);
    a.pid = 2;
    let mut b = state("a", "Mouse", Transport::Receiver, 2);
    b.pid = 2;
    let mut c = state("z", "Mouse", Transport::Receiver, 3);
    c.pid = 1;
    let d = state("k", "Keyboard", Transport::Receiver, 4);
    let mut e = state("a", "Mouse", Transport::Bluetooth, 5);
    e.pid = 2;
    let mut result = PollResult {
        devices: vec![a, b, c, d, e],
        errors: vec!["x".to_string()],
    };
    result.sort_devices();
    let order: Vec<u8> = result.devices.iter().map(|d| d.battery_percent).collect();
    assert_eq!(order, vec![4, 3, 2, 5, 1]);
    assert_eq!(result.errors, vec!["x".to_string()]);
}

#[test]
fn transport_labels_and_ranks() {
    assert_eq!(Transport::Receiver.label(), "Receiver");
    assert_eq!(Transport::Bluetooth.label(), "Bluetooth");
    assert!(Transport::Receiver.rank() < Transport::Bluetooth.rank());
    assert!(Transport::Receiver < Transport::Bluetooth);
    let s = state("k", "Name", Transport::Bluetooth, 1);
    assert_eq!(s.rank(), 1);
    assert_eq!(s.duplicate(), s);
}

#[test]
fn deduplicating_twice_changes_nothing() {
    let devices = vec![
        state("bt", "MX Keys Bluetooth", Transport::Bluetooth, 70),
        state("rx", "MX Keys", Transport::Receiver, 72),
        state("m", "MX Master 3", Transport::Receiver, 40),
        state("m2", "mx master 3 (bluetooth)", Transport::Bluetooth, 41),
    ];
    let once = deduplicate_devices(devices);
    let twice = deduplicate_devices(once.clone());
    assert_eq!(once, twice);
    assert_eq!(once.len(), 2);
}

#[test]
fn normalisation_ignores_case_spacing_and_transport_word() {
    let n = normalized_device_name("MX Master 3");
    assert_eq!(n, "mx master 3");
    assert_eq!(normalized_device_name("  MX   MASTER 3 "), n);
    assert_eq!(normalized_device_name("MX Master 3 (Bluetooth)"), n);
    assert_eq!(normalized_device_name("MX Master 3  BLUETOOTH"), n);
    assert_eq!(normalized_device_name("mx\tmaster\n3"), n);
}
