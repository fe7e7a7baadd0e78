use logitray::model::{BatteryState, DeviceEvent, Transport};
use logitray::bluetooth::WorkerCommand;
use logitray::config::{AppConfig, PRODUCT_NAME};
use logitray::notify::Notifier;
use logitray::tray::{
    cooldown_presets, device_menu_labels, device_step, menu_step, poll_presets, summary_tooltip_text,
    threshold_presets,
    apply_device_event, deduplicate_device_trays, device_menu_label, device_tooltip,
    parse_menu_id, preset_checked, preset_id, project_device_trays, sort_device_trays, status_text,
    summarize_devices, summary_icon, DeviceTrayProjection, MenuCommand, TrayDevices,
    TrayIconChoice,
};
use std::collections::BTreeMap;

fn mk(id: &str) -> BatteryState {
    BatteryState {
        device_key: id.to_string(),
        display_name: "Mouse".to_string(),
        pid: 0xC52B,
        device_index: 1,
        battery_percent: 80,
        is_charging: false,
        transport: Transport::Receiver,
    }
}

#[test]
fn two_devices_are_merged_into_one_lowest_battery_summary() {
    let mut keyboard = mk("keyboard");
    keyboard.display_name = "MX Keys Wireless Keyboard".to_string();
    keyboard.battery_percent = 50;
    let mut mouse = mk("mouse");
    mouse.display_name = "MX Master 3S".to_string();
    mouse.battery_percent = 95;
    let devices = BTreeMap::from([
        ("keyboard".to_string(), keyboard),
        ("mouse".to_string(), mouse),
    ]);

    let projected = project_device_trays(&devices.values().cloned().collect());
    let summary = summarize_devices(&projected).unwrap();

    assert_eq!(projected.len(), 2);
    assert_eq!(summary.battery_percent, 50);
    assert!(summary.online);
    assert!(summary.tooltip.contains("MX Keys Wireless Keyboard：50%"));
    assert!(summary.tooltip.contains("MX Master 3S：95%"));
    assert_eq!(summary.tooltip.lines().count(), 2);
}

#[test]
fn updating_one_device_does_not_replace_the_other() {
    let mut devices = BTreeMap::from([
        ("keyboard".to_string(), mk("keyboard")),
        ("mouse".to_string(), mk("mouse")),
    ]);
    devices.get_mut("mouse").unwrap().battery_percent = 95;

    let projected = project_device_trays(&devices.values().cloned().collect());

    assert!(projected.contains(&DeviceTrayProjection {
        device_key: "keyboard".to_string(),
        display_name: "Mouse".to_string(),
        battery_percent: 80,
        is_charging: false,
        online: true,
        transport: Transport::Receiver,
    }));
    assert!(projected.contains(&DeviceTrayProjection {
        device_key: "mouse".to_string(),
        display_name: "Mouse".to_string(),
        battery_percent: 95,
        is_charging: false,
        online: true,
        transport: Transport::Receiver,
    }));
}

#[test]
fn disconnected_device_marks_only_its_own_state_offline() {
    let mut devices = TrayDevices::new();
    devices.insert(DeviceTrayProjection::online(&mk("keyboard")));
    devices.insert(DeviceTrayProjection::online(&mk("mouse")));

    apply_device_event(&mut devices, DeviceEvent::Gone("keyboard".to_string()));
    let projected: Vec<_> = devices.values();

    assert_eq!(projected.len(), 2);
    assert!(
        !projected
            .iter()
            .find(|d| d.device_key == "keyboard")
            .unwrap()
            .online
    );
    assert!(
        projected
            .iter()
            .find(|d| d.device_key == "mouse")
            .unwrap()
            .online
    );
}

#[test]
fn sleeping_device_tooltip_marks_the_battery_as_a_last_reading() {
    let mut device = DeviceTrayProjection::online(&mk("keyboard"));
    device.display_name = "MX Keys Wireless Keyboard".to_string();
    device.battery_percent = 50;
    device.online = false;

    let tooltip = device_tooltip(&device);

    assert_eq!(
        tooltip,
        "MX Keys Wireless Keyboard：50%（休眠/未连接，最后读数）"
    );
    assert!(!device.online);
}

#[test]
fn online_bluetooth_wins_over_offline_receiver_for_same_device() {
    let mut receiver = DeviceTrayProjection::online(&mk("receiver"));
    receiver.display_name = "MX Master 3S".to_string();
    receiver.online = false;
    let mut bluetooth = DeviceTrayProjection::online(&mk("bluetooth"));
    bluetooth.display_name = "MX Master 3S Bluetooth".to_string();
    bluetooth.transport = Transport::Bluetooth;

    let devices = deduplicate_device_trays(vec![receiver, bluetooth]);

    assert_eq!(devices.len(), 1);
    assert_eq!(devices[0].transport, Transport::Bluetooth);
    assert!(devices[0].online);
}

#[test]
fn online_receiver_wins_over_online_bluetooth_for_same_device() {
    let mut receiver = DeviceTrayProjection::online(&mk("receiver"));
    receiver.display_name = "MX Keys".to_string();
    let mut bluetooth = DeviceTrayProjection::online(&mk("bluetooth"));
    bluetooth.display_name = "MX Keys (Bluetooth)".to_string();
    bluetooth.transport = Transport::Bluetooth;

    let devices = deduplicate_device_trays(vec![bluetooth, receiver]);

    assert_eq!(devices.len(), 1);
    assert_eq!(devices[0].transport, Transport::Receiver);
}

#[test]
fn update_event_replaces_and_gone_keeps_the_last_reading() {
    let mut devices = TrayDevices::new();
    let mut charging = mk("mouse");
    charging.is_charging = true;
    charging.battery_percent = 42;
    apply_device_event(&mut devices, DeviceEvent::Update(charging));
    apply_device_event(&mut devices, DeviceEvent::Gone("mouse".to_string()));
    apply_device_event(&mut devices, DeviceEvent::Gone("nobody".to_string()));
    let values = devices.values();
    assert_eq!(values.len(), 1);
    assert_eq!(values[0].battery_percent, 42);
    assert!(!values[0].online);
    assert!(!values[0].is_charging);
    apply_device_event(&mut devices, DeviceEvent::Update(mk("mouse")));
    let values = devices.values();
    assert!(values[0].online);
    assert_eq!(values[0].battery_percent, 80);
    assert!(devices.get("mouse").is_some());
    assert!(devices.get("nobody").is_none());
}

#[test]
fn values_come_in_key_order() {
    let mut devices = TrayDevices::new();
    for key in ["c", "a", "b"] {
        devices.insert(DeviceTrayProjection::online(&mk(key)));
    }
    let keys: Vec<String> = devices.values().into_iter().map(|d| d.device_key).collect();
    assert_eq!(keys, vec!["a", "b", "c"]);
}

#[test]
fn summary_takes_the_first_lowest_and_its_staleness() {
    let mut a = DeviceTrayProjection::online(&mk("a"));
    a.battery_percent = 30;
    let mut b = DeviceTrayProjection::online(&mk("b"));
    b.battery_percent = 20;
    b.online = false;
    b.is_charging = false;
    let mut c = DeviceTrayProjection::online(&mk("c"));
    c.battery_percent = 20;
    c.is_charging = true;
    let summary = summarize_devices(&vec![a, b, c]).unwrap();
    assert_eq!(summary.battery_percent, 20);
    assert!(!summary.online);
    assert!(!summary.is_charging);
    assert_eq!(
        summary.tooltip,
        "Mouse：30%\nMouse：20%（休眠/未连接，最后读数）\nMouse：20%（充电中）"
    );
    assert!(summarize_devices(&Vec::new()).is_none());
}

#[test]
fn icon_follows_view_mode_and_freshness() {
    assert_eq!(summary_icon(&None, true), TrayIconChoice::Neutral);
    let mut d = DeviceTrayProjection::online(&mk("a"));
    d.battery_percent = 33;
    let s = summarize_devices(&vec![d.clone()]);
    assert_eq!(summary_icon(&s, true), TrayIconChoice::Text { percent: 33, charging: false });
    assert_eq!(summary_icon(&s, false), TrayIconChoice::Battery { percent: 33, charging: false });
    d.online = false;
    let s = summarize_devices(&vec![d]);
    assert_eq!(summary_icon(&s, true), TrayIconChoice::InactiveText { percent: 33 });
    assert_eq!(summary_icon(&s, false), TrayIconChoice::InactiveBattery { percent: 33 });
}

#[test]
fn menu_texts() {
    let mut d = DeviceTrayProjection::online(&mk("a"));
    d.display_name = "MX Keys".to_string();
    d.battery_percent = 7;
    d.is_charging = true;
    assert_eq!(device_menu_label(&d), "MX Keys — 7%（充电中）");
    let mut e = d.clone();
    e.online = false;
    e.is_charging = false;
    assert_eq!(status_text(&vec![d, e]), "Logitech 设备：1/2 在线");
    assert_eq!(status_text(&Vec::new()), "Logitech 设备：0/0 在线");
    assert_eq!(preset_id("poll", 60), "poll:60");
}

#[test]
fn menu_ids_parse_to_commands() {
    assert_eq!(parse_menu_id("refresh"), MenuCommand::Refresh);
    assert_eq!(parse_menu_id("exit"), MenuCommand::Exit);
    assert_eq!(parse_menu_id("autostart"), MenuCommand::ToggleAutostart);
    assert_eq!(parse_menu_id("viewmode"), MenuCommand::ToggleViewMode);
    assert_eq!(parse_menu_id("notify"), MenuCommand::ToggleNotifications);
    assert_eq!(parse_menu_id("openconfig"), MenuCommand::OpenConfig);
    assert_eq!(parse_menu_id("poll:900"), MenuCommand::SetPollInterval(900));
    assert_eq!(parse_menu_id("poll:+15"), MenuCommand::SetPollInterval(15));
    assert_eq!(parse_menu_id("threshold:25"), MenuCommand::SetThreshold(25));
    assert_eq!(parse_menu_id("threshold:256"), MenuCommand::Ignored);
    assert_eq!(parse_menu_id("cooldown:480"), MenuCommand::SetCooldown(480));
    assert_eq!(parse_menu_id("cooldown:"), MenuCommand::Ignored);
    assert_eq!(parse_menu_id("poll:18446744073709551616"), MenuCommand::Ignored);
    assert_eq!(parse_menu_id("poll:18446744073709551615"), MenuCommand::SetPollInterval(u64::MAX));
    assert_eq!(parse_menu_id("poll: 5"), MenuCommand::Ignored);
    assert_eq!(parse_menu_id("Refresh"), MenuCommand::Ignored);
}

#[test]
fn tray_sort_orders_by_name_then_key() {
    let mut b = DeviceTrayProjection::online(&mk("b"));
    b.display_name = "Keys".to_string();
    let a = DeviceTrayProjection::online(&mk("a"));
    let mut c = DeviceTrayProjection::online(&mk("c"));
    c.display_name = "Keys".to_string();
    let mut v = vec![c, a, b];
    sort_device_trays(&mut v);
    let keys: Vec<&str> = v.iter().map(|d| d.device_key.as_str()).collect();
    assert_eq!(keys, vec!["b", "c", "a"]);
}

#[test]
fn stale_receiver_entry_wins_when_all_entries_are_stale() {
    let mut receiver = DeviceTrayProjection::online(&mk("receiver"));
    receiver.display_name = "MX Keys".to_string();
    receiver.online = false;
    let mut bluetooth = DeviceTrayProjection::online(&mk("bluetooth"));
    bluetooth.display_name = "MX Keys Bluetooth".to_string();
    bluetooth.transport = Transport::Bluetooth;
    bluetooth.online = false;
    let devices = deduplicate_device_trays(vec![bluetooth, receiver]);
    assert_eq!(devices.len(), 1);
    assert_eq!(devices[0].device_key, "receiver");
}

#[test]
fn only_the_matching_preset_is_checked() {
    assert!(preset_checked("threshold:15", "threshold", 15));
    assert!(!preset_checked("threshold:15", "threshold", 150));
    assert!(!preset_checked("poll:15", "threshold", 15));
}

#[test]
fn empty_device_list_texts() {
    let none: Vec<DeviceTrayProjection> = Vec::new();
    assert_eq!(summary_tooltip_text(&none), format!("{PRODUCT_NAME} — 未发现设备"));
    assert_eq!(summary_tooltip_text(&none), "LogiBatteryTray — 未发现设备");
    assert_eq!(device_menu_labels(&none), vec!["未发现设备".to_string()]);
}

#[test]
fn device_list_texts_in_order() {
    let mut a = DeviceTrayProjection::online(&mk("a"));
    a.display_name = "MX Keys".to_string();
    a.battery_percent = 40;
    a.is_charging = true;
    let mut b = DeviceTrayProjection::online(&mk("b"));
    b.display_name = "MX Master 3".to_string();
    b.battery_percent = 12;
    b.online = false;
    let devices = vec![a, b];
    assert_eq!(
        device_menu_labels(&devices),
        vec![
            "MX Keys — 40%（充电中）".to_string(),
            "MX Master 3 — 12%（休眠/未连接，最后读数）".to_string(),
        ]
    );
    assert_eq!(
        summary_tooltip_text(&devices),
        "MX Keys：40%（充电中）\nMX Master 3：12%（休眠/未连接，最后读数）"
    );
}

#[test]
fn preset_tables() {
    let poll: Vec<u64> = poll_presets().into_iter().map(|(_, v)| v).collect();
    assert_eq!(poll, vec![15, 30, 60, 120, 180, 300, 900]);
    assert_eq!(poll_presets()[2].0, "1 分钟");
    let threshold: Vec<(String, u64)> = threshold_presets();
    assert_eq!(threshold.len(), 6);
    assert_eq!(threshold[0], ("5%".to_string(), 5));
    assert_eq!(threshold[5], ("30%".to_string(), 30));
    let cooldown: Vec<u64> = cooldown_presets().into_iter().map(|(_, v)| v).collect();
    assert_eq!(cooldown, vec![30, 60, 120, 240, 480]);
    assert_eq!(cooldown_presets()[4].0, "8 小时");
}

#[test]
fn menu_step_updates_settings_notifier_and_scanner() {
    let mut cfg = AppConfig::default();
    let mut notifier = Notifier::new(true, 15, 120);
    assert_eq!(
        menu_step(&mut cfg, &mut notifier, parse_menu_id("poll:300"), false),
        (true, Some(WorkerCommand::SetSafetyInterval(300)))
    );
    assert_eq!(cfg.poll_interval_seconds, 300);
    assert_eq!(
        menu_step(&mut cfg, &mut notifier, parse_menu_id("threshold:25"), false),
        (true, None)
    );
    assert_eq!(cfg.low_battery_threshold, 25);
    let state = logitray::model::BatteryState { battery_percent: 20, ..mk("x") };
    assert!(notifier.should_notify(&state, 0));
    assert_eq!(menu_step(&mut cfg, &mut notifier, parse_menu_id("notify"), false), (true, None));
    assert!(!cfg.notifications_enabled);
    assert!(!notifier.should_notify(&state, 0));
    assert_eq!(menu_step(&mut cfg, &mut notifier, parse_menu_id("cooldown:30"), false), (true, None));
    assert_eq!(notifier.cooldown_secs(), 1800);
    assert_eq!(
        menu_step(&mut cfg, &mut notifier, parse_menu_id("refresh"), false),
        (false, Some(WorkerCommand::Refresh))
    );
    assert_eq!(
        menu_step(&mut cfg, &mut notifier, parse_menu_id("exit"), false),
        (false, Some(WorkerCommand::Exit))
    );
    assert_eq!(menu_step(&mut cfg, &mut notifier, parse_menu_id("bogus"), true), (false, None));
}

#[test]
fn device_step_rebuilds_everything_from_one_event() {
    let mut devices = TrayDevices::new();
    let notifier = Notifier::new(true, 15, 120);
    let mut low = mk("mouse");
    low.display_name = "MX Master 3S".to_string();
    low.battery_percent = 10;
    let step = device_step(&mut devices, &notifier, DeviceEvent::Update(low), 0, true);
    assert_eq!(step.toast, Some("MX Master 3S: 10%".to_string()));
    assert_eq!(step.devices.len(), 1);
    assert_eq!(step.status, "Logitech 设备：1/1 在线");
    assert_eq!(step.tooltip, "MX Master 3S：10%");
    assert_eq!(step.menu_labels, vec!["MX Master 3S — 10%".to_string()]);
    assert_eq!(step.icon, TrayIconChoice::Text { percent: 10, charging: false });

    let step = device_step(&mut devices, &notifier, DeviceEvent::Gone("mouse".to_string()), 1, false);
    assert_eq!(step.toast, None);
    assert_eq!(step.status, "Logitech 设备：0/1 在线");
    assert_eq!(step.icon, TrayIconChoice::InactiveBattery { percent: 10 });
    assert_eq!(step.tooltip, "MX Master 3S：10%（休眠/未连接，最后读数）");

    let mut empty = TrayDevices::new();
    let step = device_step(&mut empty, &notifier, DeviceEvent::Gone("none".to_string()), 0, true);
    assert_eq!(step.icon, TrayIconChoice::Neutral);
    assert_eq!(step.tooltip, "LogiBatteryTray — 未发现设备");
    assert_eq!(step.menu_labels, vec!["未发现设备".to_string()]);
    assert!(step.summary.is_none());
}
