use logitray::config::{
    config_path, default_notifications_enabled, default_view_mode, device_profiles_path, join_path,
    log_path, AppConfig, DeviceProfile, DeviceProfiles, APP_ID,
};

fn profile(id: u16, index: u8, name: &str) -> DeviceProfile {
    DeviceProfile {
        battery_feature_id: id,
        battery_feature_index: index,
        name: name.to_string(),
    }
}

#[test]
fn default_autostart_is_opt_in() {
    assert!(!AppConfig::default().autostart);
}

#[test]
fn default_config_values() {
    let cfg = AppConfig::default();
    assert_eq!(cfg.poll_interval_seconds, 180);
    assert_eq!(cfg.low_battery_threshold, 15);
    assert_eq!(cfg.low_battery_cooldown_minutes, 120);
    assert_eq!(cfg.selected_device_id, "");
    assert_eq!(cfg.log_level, "info");
    assert_eq!(cfg.view_mode, "text");
    assert!(cfg.notifications_enabled);
    assert!(cfg.text_mode());
    assert_eq!(default_view_mode(), "text");
    assert!(default_notifications_enabled());
}

#[test]
fn text_mode_ignores_ascii_case_only() {
    let mut cfg = AppConfig::default();
    cfg.view_mode = "TeXt".to_string();
    assert!(cfg.text_mode());
    cfg.view_mode = "icon".to_string();
    assert!(!cfg.text_mode());
    cfg.view_mode = "text ".to_string();
    assert!(!cfg.text_mode());
}

#[test]
fn profile_keys_are_four_lowercase_hex_digits() {
    assert_eq!(DeviceProfiles::key(0x4099), "4099");
    assert_eq!(DeviceProfiles::key(0xC52B), "c52b");
    assert_eq!(DeviceProfiles::key(0x7), "0007");
    assert_eq!(DeviceProfiles::key(0xffff), "ffff");
}

#[test]
fn upsert_reports_changes_and_reads_back() {
    let mut profiles = DeviceProfiles::default();
    assert!(profiles.upsert(0x4099, profile(0x1001, 6, "G Pro")));
    assert!(!profiles.upsert(0x4099, profile(0x1001, 6, "G Pro")));
    assert!(profiles.upsert(0x4099, profile(0x1004, 6, "G Pro")));
    assert!(profiles.upsert(0x4099, profile(0x1004, 7, "G Pro")));
    assert!(profiles.upsert(0x4099, profile(0x1004, 7, "G Pro X")));
    let p = profiles.get(0x4099).expect("profile present");
    assert_eq!(p.battery_feature_id, 0x1004);
    assert_eq!(p.battery_feature_index, 7);
    assert_eq!(p.name, "G Pro X");
    assert!(profiles.get(0x1234).is_none());
    assert!(profiles.upsert(0x1234, profile(0x1000, 3, "MX")));
    assert_eq!(profiles.entries().len(), 2);
    assert_eq!(profiles.get_by_key("1234").unwrap().name, "MX");
}

#[test]
fn paths_live_in_the_data_directory() {
    let sep = std::path::MAIN_SEPARATOR;
    assert_eq!(config_path("/data", sep), format!("/data{sep}config.toml"));
    assert_eq!(device_profiles_path("/data/", sep), "/data/devices.toml");
    assert_eq!(log_path("d", sep), format!("d{sep}{APP_ID}.log"));
    assert_eq!(config_path("C:\\data", '\\'), "C:\\data\\config.toml");
    assert_eq!(config_path("C:", '\\'), "C:config.toml");
    assert_eq!(config_path("C:", '/'), "C:/config.toml");
    assert_eq!(log_path("/var/d", '/'), "/var/d/logitray.log");
    assert_eq!(device_profiles_path("C:\\data\\", '\\'), "C:\\data\\devices.toml");
    assert_eq!(join_path("", "x"), "x");
    assert_eq!(APP_ID, "logitray");
}

fn profiles_to_toml(profiles: &DeviceProfiles) -> Result<String, toml::ser::Error> {
    let mut devices = toml::Table::new();
    for (key, p) in profiles.entries() {
        let mut entry = toml::Table::new();
        entry.insert("battery_feature_id".to_string(), toml::Value::Integer(i64::from(p.battery_feature_id)));
        entry.insert("battery_feature_index".to_string(), toml::Value::Integer(i64::from(p.battery_feature_index)));
        entry.insert("name".to_string(), toml::Value::String(p.name));
        devices.insert(key, toml::Value::Table(entry));
    }
    let mut root = toml::Table::new();
    root.insert("devices".to_string(), toml::Value::Table(devices));
    toml::to_string_pretty(&root)
}

fn profiles_from_toml(raw: &str) -> Result<DeviceProfiles, toml::de::Error> {
    let root: toml::Table = toml::from_str(raw)?;
    let mut profiles = DeviceProfiles::new();
    if let Some(toml::Value::Table(devices)) = root.get("devices") {
        for (key, value) in devices {
            let entry = value.as_table().expect("profile table");
            profiles.insert_by_key(
                key.clone(),
                DeviceProfile {
                    battery_feature_id: entry["battery_feature_id"].as_integer().expect("id") as u16,
                    battery_feature_index: entry["battery_feature_index"].as_integer().expect("index") as u8,
                    name: entry["name"].as_str().expect("name").to_string(),
                },
            );
        }
    }
    Ok(profiles)
}

fn config_to_toml(cfg: &AppConfig) -> Result<String, toml::ser::Error> {
    let mut root = toml::Table::new();
    root.insert("poll_interval_seconds".to_string(), toml::Value::Integer(cfg.poll_interval_seconds as i64));
    root.insert("low_battery_threshold".to_string(), toml::Value::Integer(i64::from(cfg.low_battery_threshold)));
    root.insert("low_battery_cooldown_minutes".to_string(), toml::Value::Integer(cfg.low_battery_cooldown_minutes as i64));
    root.insert("selected_device_id".to_string(), toml::Value::String(cfg.selected_device_id.clone()));
    root.insert("autostart".to_string(), toml::Value::Boolean(cfg.autostart));
    root.insert("log_level".to_string(), toml::Value::String(cfg.log_level.clone()));
    root.insert("view_mode".to_string(), toml::Value::String(cfg.view_mode.clone()));
    root.insert("notifications_enabled".to_string(), toml::Value::Boolean(cfg.notifications_enabled));
    toml::to_string_pretty(&root)
}

fn config_from_toml(raw: &str) -> Result<AppConfig, toml::de::Error> {
    let root: toml::Table = toml::from_str(raw)?;
    Ok(AppConfig {
        poll_interval_seconds: root["poll_interval_seconds"].as_integer().expect("poll") as u64,
        low_battery_threshold: root["low_battery_threshold"].as_integer().expect("threshold") as u8,
        low_battery_cooldown_minutes: root["low_battery_cooldown_minutes"].as_integer().expect("cooldown") as u64,
        selected_device_id: root["selected_device_id"].as_str().expect("id").to_string(),
        autostart: root["autostart"].as_bool().expect("autostart"),
        log_level: root["log_level"].as_str().expect("level").to_string(),
        view_mode: root
            .get("view_mode")
            .and_then(|v| v.as_str())
            .map(|s| s.to_string())
            .unwrap_or_else(default_view_mode),
        notifications_enabled: root
            .get("notifications_enabled")
            .and_then(|v| v.as_bool())
            .unwrap_or_else(default_notifications_enabled),
    })
}

#[test]
fn device_profiles_roundtrip_and_upsert() {
    let mut profiles = DeviceProfiles::default();
    assert!(profiles.upsert(
        0x4099,
        DeviceProfile {
            battery_feature_id: 0x1001,
            battery_feature_index: 6,
            name: "G Pro".to_string(),
        },
    ));
    // Re-inserting the identical profile reports "no change".
    assert!(!profiles.upsert(
        0x4099,
        DeviceProfile {
            battery_feature_id: 0x1001,
            battery_feature_index: 6,
            name: "G Pro".to_string(),
        },
    ));

    let raw = profiles_to_toml(&profiles).expect("serialize profiles");
    let parsed: DeviceProfiles = profiles_from_toml(&raw).expect("parse profiles");
    let p = parsed.get(0x4099).expect("profile present after roundtrip");
    assert_eq!(p.battery_feature_id, 0x1001);
    assert_eq!(p.battery_feature_index, 6);
    assert_eq!(p.name, "G Pro");
    assert!(parsed.get(0x1234).is_none());
}

#[test]
fn config_toml_roundtrip() {
    let cfg = AppConfig::default();
    let raw = config_to_toml(&cfg).expect("serialize config");
    let parsed: AppConfig = config_from_toml(&raw).expect("parse config");
    assert_eq!(parsed.poll_interval_seconds, cfg.poll_interval_seconds);
    assert_eq!(parsed.low_battery_threshold, cfg.low_battery_threshold);
    assert_eq!(parsed.autostart, cfg.autostart);
    assert_eq!(parsed.view_mode, cfg.view_mode);
    assert_eq!(parsed.notifications_enabled, cfg.notifications_enabled);
}

#[test]
fn join_path_matches_std_path_join() {
    for dir in ["C:", "C:\\", "data", "data/", "", "1:"] {
        let expected = std::path::Path::new(dir).join("config.toml");
        assert_eq!(join_path(dir, "config.toml"), expected.to_str().unwrap());
    }
}
