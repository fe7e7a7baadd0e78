//! Settings, the cache of per-device battery-feature profiles, and where
//! the program keeps its files.
use vstd::prelude::*;

use crate::strmap::StrMap;
use crate::text::{
    chars_of, eq_ignore_ascii_case, hex_digit, eq_ignore_ascii_case_spec, format_hex4, hex4, push_char,
    push_str, str_eq, string_from,
};

verus! {

/// The directory name and log-file stem of the program.
pub const APP_ID: &'static str = "logitray";

/// The program's display name: the sender of its notifications and the
/// head of its tray tooltip.
pub const PRODUCT_NAME: &'static str = "LogiBatteryTray";

/// The program's settings.
#[derive(Clone, Debug)]
pub struct AppConfig {
    pub poll_interval_seconds: u64,
    pub low_battery_threshold: u8,
    pub low_battery_cooldown_minutes: u64,
    pub selected_device_id: String,
    pub autostart: bool,
    pub log_level: String,
    /// Tray display style: "icon" (battery glyph) or "text" (percentage number).
    pub view_mode: String,
    /// Whether low-battery toast notifications are shown at all.
    pub notifications_enabled: bool,
}

/// The view mode used when the settings file names none.
pub fn default_view_mode() -> (r: String)
    ensures
        r@ == "text"@,
{
    string_from("text")
}

/// Notifications are on when the settings file does not say otherwise.
pub fn default_notifications_enabled() -> (r: bool)
    ensures
        r,
{
    true
}

impl AppConfig {
    /// True when the tray should render the percentage as text instead of
    /// the battery icon: the view mode is "text" in any ASCII case.
    pub fn text_mode(&self) -> (r: bool)
        ensures
            r == eq_ignore_ascii_case_spec(self.view_mode@, "text"@),
    {
        eq_ignore_ascii_case(self.view_mode.as_str(), "text")
    }
}

impl Default for AppConfig {
    /// A three-minute backstop re-read (battery changes are pushed, so the
    /// poll only catches missed events), a 15 % threshold repeated every two
    /// hours, no autostart, text view, notifications on.
    fn default() -> (r: Self)
        ensures
            r.poll_interval_seconds == 180,
            r.low_battery_threshold == 15,
            r.low_battery_cooldown_minutes == 120,
            r.selected_device_id@ == Seq::<char>::empty(),
            !r.autostart,
            r.log_level@ == "info"@,
            r.view_mode@ == "text"@,
            r.notifications_enabled,
    {
        AppConfig {
            poll_interval_seconds: 180,
            low_battery_threshold: 15,
            low_battery_cooldown_minutes: 120,
            selected_device_id: String::new(),
            autostart: false,
            log_level: string_from("info"),
            view_mode: default_view_mode(),
            notifications_enabled: default_notifications_enabled(),
        }
    }
}

// ---------------------------------------------------------------------------
// File locations
// ---------------------------------------------------------------------------

/// `std::path::MAIN_SEPARATOR`: the platform's primary path separator,
/// `/` on Unix and `\` on Windows.
#[verifier::external_body]
fn main_separator() -> (c: char)
    ensures
        c == '/' || c == '\\',
{
    std::path::MAIN_SEPARATOR
}

/// A bare drive prefix such as `C:`: an ASCII letter and a colon.
pub open spec fn is_drive_prefix(dir: Seq<char>) -> bool {
    &&& dir.len() == 2
    &&& dir[1] == ':'
    &&& ('a' <= dir[0] <= 'z' || 'A' <= dir[0] <= 'Z')
}

/// `dir` joined with the relative file name `name` using separator `sep`:
/// no separator is added after an empty directory, one that already ends
/// with `/` or `sep`, or, where `sep` is `\` (Windows), a bare drive prefix,
/// which names the drive's current directory.
pub open spec fn join_with(dir: Seq<char>, name: Seq<char>, sep: char) -> Seq<char> {
    if dir.len() == 0 || dir.last() == '/' || dir.last() == sep || (sep == '\\'
        && is_drive_prefix(dir)) {
        dir + name
    } else {
        dir.push(sep) + name
    }
}

/// `dir` joined with the relative file name `name`, with separator `sep`
/// between them where one is needed.
pub fn join_path_with(dir: &str, name: &str, sep: char) -> (r: String)
    ensures
        r@ == join_with(dir@, name@, sep),
{
    let d = chars_of(dir);
    let mut r = string_from(dir);
    let drive = d.len() == 2 && d[1] == ':' && (('a' <= d[0] && d[0] <= 'z') || ('A' <= d[0]
        && d[0] <= 'Z'));
    if !(d.len() == 0 || d[d.len() - 1] == '/' || d[d.len() - 1] == sep || (sep == '\\'
        && drive)) {
        push_char(&mut r, sep);
    }
    push_str(&mut r, name);
    r
}

/// `dir` joined with the relative file name `name`, the platform separator
/// (either `/` or `\`) between them where one is needed.
pub fn join_path(dir: &str, name: &str) -> (r: String)
    ensures
        exists|sep: char| (sep == '/' || sep == '\\') && r@ == join_with(dir@, name@, sep),
{
    join_path_with(dir, name, main_separator())
}

/// The settings file in the data directory, joined with separator `sep`.
pub fn config_path(data_dir: &str, sep: char) -> (r: String)
    ensures
        r@ == join_with(data_dir@, "config.toml"@, sep),
{
    join_path_with(data_dir, "config.toml", sep)
}

/// The log file in the data directory, named after the program, joined
/// with separator `sep`.
pub fn log_path(data_dir: &str, sep: char) -> (r: String)
    ensures
        r@ == join_with(data_dir@, APP_ID@ + ".log"@, sep),
{
    let mut name = string_from(APP_ID);
    push_str(&mut name, ".log");
    join_path_with(data_dir, name.as_str(), sep)
}

/// The device-profile cache in the data directory, joined with separator
/// `sep`.
pub fn device_profiles_path(data_dir: &str, sep: char) -> (r: String)
    ensures
        r@ == join_with(data_dir@, "devices.toml"@, sep),
{
    join_path_with(data_dir, "devices.toml", sep)
}

// ---------------------------------------------------------------------------
// Device profiles
// ---------------------------------------------------------------------------

/// What was learned about a device the first time it was enumerated: which
/// HID++ 2.0 battery feature to use and its table index, and its name. It is
/// kept by wireless product id so that a later cold start can read the
/// battery directly instead of enumerating a half-asleep device.
#[derive(Clone, Debug, PartialEq, Eq)]
pub struct DeviceProfile {
    pub battery_feature_id: u16,
    pub battery_feature_index: u8,
    pub name: String,
}

impl DeviceProfile {
    /// A field-by-field copy.
    pub fn duplicate(&self) -> (r: Self)
        ensures
            r == *self,
    {
        DeviceProfile {
            battery_feature_id: self.battery_feature_id,
            battery_feature_index: self.battery_feature_index,
            name: self.name.clone(),
        }
    }
}

impl View for DeviceProfile {
    type V = (u16, u8, Seq<char>);

    open spec fn view(&self) -> (u16, u8, Seq<char>) {
        (self.battery_feature_id, self.battery_feature_index, self.name@)
    }
}

/// The persisted profiles, by wireless product id written as four
/// lower-case hexadecimal digits (e.g. `"4099"`).
#[derive(Debug)]
pub struct DeviceProfiles {
    profiles: StrMap<DeviceProfile>,
}

impl View for DeviceProfiles {
    type V = Map<Seq<char>, (u16, u8, Seq<char>)>;

    closed spec fn view(&self) -> Map<Seq<char>, (u16, u8, Seq<char>)> {
        self.profiles@
    }
}

impl DeviceProfiles {
    /// No profiles.
    pub fn new() -> (r: Self)
        ensures
            r@ == Map::<Seq<char>, (u16, u8, Seq<char>)>::empty(),
    {
        DeviceProfiles { profiles: StrMap::new() }
    }

    /// The map key of a wireless product id: four lower-case hexadecimal
    /// digits, zero-padded.
    pub fn key(wpid: u16) -> (r: String)
        ensures
            r@ == hex4(wpid),
    {
        format_hex4(wpid)
    }

    /// The profile stored under `key`.
    pub fn get_by_key(&self, key: &str) -> (r: Option<&DeviceProfile>)
        ensures
            match r {
                Some(p) => self@.contains_key(key@) && self@[key@] == p@,
                None => !self@.contains_key(key@),
            },
    {
        self.profiles.get(key)
    }

    /// The profile of a wireless product id.
    pub fn get(&self, wpid: u16) -> (r: Option<&DeviceProfile>)
        ensures
            match r {
                Some(p) => self@.contains_key(hex4(wpid)) && self@[hex4(wpid)] == p@,
                None => !self@.contains_key(hex4(wpid)),
            },
    {
        let k = Self::key(wpid);
        self.get_by_key(k.as_str())
    }

    /// Stores `profile` under `key`, replacing what was there.
    pub fn insert_by_key(&mut self, key: String, profile: DeviceProfile)
        ensures
            final(self)@ == old(self)@.insert(key@, profile@),
    {
        self.profiles.insert(key, profile);
    }

    /// Inserts or replaces the profile of a wireless product id; true when
    /// something changed (so the caller can skip a redundant disk write),
    /// false when the identical profile was already stored.
    pub fn upsert(&mut self, wpid: u16, profile: DeviceProfile) -> (changed: bool)
        ensures
            changed == !(old(self)@.contains_key(hex4(wpid)) && old(self)@[hex4(wpid)]
                == profile@),
            final(self)@ == old(self)@.insert(hex4(wpid), profile@),
    {
        let k = Self::key(wpid);
        match self.get_by_key(k.as_str()) {
            Some(existing) => {
                if existing.battery_feature_id == profile.battery_feature_id
                    && existing.battery_feature_index == profile.battery_feature_index && str_eq(
                    existing.name.as_str(),
                    profile.name.as_str(),
                ) {
                    assert(self@.insert(hex4(wpid), profile@) =~= self@);
                    return false;
                }
            },
            None => {},
        }
        self.insert_by_key(k, profile);
        true
    }

    /// Every stored (key, profile) pair, each key once.
    pub fn entries(&self) -> (r: Vec<(String, DeviceProfile)>)
        ensures
            r@.map_values(|e: (String, DeviceProfile)| e.0@).no_duplicates(),
            forall|k: Seq<char>| #[trigger] self@.contains_key(k) <==> r@.map_values(
                |e: (String, DeviceProfile)| e.0@,
            ).contains(k),
            forall|i: int| 0 <= i < r@.len() ==> self@[#[trigger] r@[i].0@] == r@[i].1@,
    {
        let keys = self.profiles.keys();
        assert forall|j: int| 0 <= j < keys@.len() implies self@.contains_key(
            #[trigger] keys@[j]@,
        ) by {
            assert(keys@.map_values(|s: String| s@)[j] == keys@[j]@);
        }
        let mut r: Vec<(String, DeviceProfile)> = Vec::new();
        let mut i: usize = 0;
        while i < keys.len()
            invariant
                i <= keys@.len(),
                r@.len() == i,
                forall|j: int| 0 <= j < keys@.len() ==> self@.contains_key(#[trigger] keys@[j]@),
                forall|j: int| 0 <= j < i ==> #[trigger] r@[j].0 == keys@[j],
                forall|j: int| 0 <= j < i ==> self@[r@[j].0@] == #[trigger] r@[j].1@,
            decreases keys.len() - i,
        {
            proof {
                assert(keys@.map_values(|s: String| s@)[i as int] == keys@[i as int]@);
            }
            match self.get_by_key(keys[i].as_str()) {
                Some(p) => {
                    r.push((keys[i].clone(), p.duplicate()));
                },
                None => {
                    assert(false);
                },
            }
            i = i + 1;
        }
        assert(r@.map_values(|e: (String, DeviceProfile)| e.0@) =~= keys@.map_values(
            |s: String| s@,
        ));
        r
    }
}

impl Default for DeviceProfiles {
    fn default() -> (r: Self)
        ensures
            r@ == Map::<Seq<char>, (u16, u8, Seq<char>)>::empty(),
    {
        DeviceProfiles::new()
    }
}

/// Distinct wireless product ids are stored under distinct keys.
pub proof fn lemma_key_injective(a: u16, b: u16)
    requires
        hex4(a) == hex4(b),
    ensures
        a == b,
{
    lemma_hex_digit_injective((a as int / 4096) % 16, (b as int / 4096) % 16);
    lemma_hex_digit_injective((a as int / 256) % 16, (b as int / 256) % 16);
    lemma_hex_digit_injective((a as int / 16) % 16, (b as int / 16) % 16);
    lemma_hex_digit_injective(a as int % 16, b as int % 16);
    assert(hex4(a)[0] == hex4(b)[0]);
    assert(hex4(a)[1] == hex4(b)[1]);
    assert(hex4(a)[2] == hex4(b)[2]);
    assert(hex4(a)[3] == hex4(b)[3]);
    assert(a == b) by (bit_vector)
        requires
            (a / 4096) % 16 == (b / 4096) % 16,
            (a / 256) % 16 == (b / 256) % 16,
            (a / 16) % 16 == (b / 16) % 16,
            a % 16 == b % 16,
    ;
}

proof fn lemma_hex_digit_injective(x: int, y: int)
    requires
        0 <= x < 16,
        0 <= y < 16,
        hex_digit(x) == hex_digit(y),
    ensures
        x == y,
{
}

/// A profile read back after `upsert` is the one written, and upserting the
/// same profile again reports no change.
pub proof fn lemma_upsert_read_back(
    before: Map<Seq<char>, (u16, u8, Seq<char>)>,
    wpid: u16,
    profile: (u16, u8, Seq<char>),
)
    ensures
        before.insert(hex4(wpid), profile).contains_key(hex4(wpid)),
        before.insert(hex4(wpid), profile)[hex4(wpid)] == profile,
        before.insert(hex4(wpid), profile).insert(hex4(wpid), profile) == before.insert(
            hex4(wpid),
            profile,
        ),
{
    assert(before.insert(hex4(wpid), profile).insert(hex4(wpid), profile) =~= before.insert(
        hex4(wpid),
        profile,
    ));
}

} // verus!
