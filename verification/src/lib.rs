//! Battery readings of Logitech keyboards and mice for a tray icon: name
//! normalisation and deduplication across transports, Bluetooth scan
//! decisions, low-battery notification rules, the tray summary, and the
//! settings and device-profile cache.
pub mod bluetooth;
pub mod config;
pub mod console;
pub mod dedup;
pub mod model;
pub mod notify;
pub mod sort;
pub mod strmap;
pub mod text;
pub mod tray;
