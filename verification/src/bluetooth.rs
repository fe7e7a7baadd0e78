//! Decisions of the Bluetooth battery scanner: which GATT readings are kept,
//! how a scan outcome becomes a poll result, and which device events a
//! snapshot publishes against the set of keys already known.
use vstd::prelude::*;

use crate::model::{BatteryState, DeviceEvent, PollResult, Transport};
use crate::sort::is_stable_sort_of;
use crate::text::{
    chars_of, compare_str, contains, has_substring, lemma_seq_lt_total, lemma_seq_lt_transitive,
    lower_text, push_decimal, strictly_sorted, push_str, seq_lt, str_eq, string_from, string_of, to_lowercase,
    trim, trim_ws, decimal, Order,
};

verus! {

// ---------------------------------------------------------------------------
// Known device keys
// ---------------------------------------------------------------------------

/// The set of device keys a scanner has published, kept in ascending order.
pub struct KnownKeys {
    keys: Vec<String>,
}

impl View for KnownKeys {
    type V = Seq<Seq<char>>;

    closed spec fn view(&self) -> Seq<Seq<char>> {
        self.keys@.map_values(|k: String| k@)
    }
}

impl KnownKeys {
    #[verifier::type_invariant]
    closed spec fn keys_ascending(self) -> bool {
        strictly_sorted(self.keys@.map_values(|k: String| k@))
    }

    /// No keys.
    pub fn new() -> (r: Self)
        ensures
            r@ == Seq::<Seq<char>>::empty(),
    {
        let r = KnownKeys { keys: Vec::new() };
        assert(r@ =~= Seq::<Seq<char>>::empty());
        r
    }

    /// The keys in ascending order, without repetition.
    pub fn keys(&self) -> (r: Vec<String>)
        ensures
            r@.map_values(|k: String| k@) == self@,
            strictly_sorted(self@),
    {
        proof {
            use_type_invariant(self);
        }
        self.keys.clone()
    }

    /// Whether `key` is known.
    pub fn contains(&self, key: &str) -> (r: bool)
        ensures
            r == self@.contains(key@),
    {
        let mut i: usize = 0;
        while i < self.keys.len()
            invariant
                i <= self.keys@.len(),
                forall|j: int| 0 <= j < i ==> self.keys@[j]@ != key@,
            decreases self.keys.len() - i,
        {
            if str_eq(self.keys[i].as_str(), key) {
                assert(self@[i as int] == key@);
                return true;
            }
            i = i + 1;
        }
        proof {
            if self@.contains(key@) {
                let j = choose|j: int| 0 <= j < self@.len() && self@[j] == key@;
                assert(self.keys@[j]@ == key@);
            }
        }
        false
    }

    /// Adds `key`; nothing changes when it is already known.
    pub fn insert(&mut self, key: String)
        ensures
            final(self)@.to_set() == old(self)@.to_set().insert(key@),
    {
        proof {
            use_type_invariant(&*self);
        }
        let ghost old_view = self@;
        let mut p: usize = 0;
        loop
            invariant
                p <= self.keys.len(),
                self@ == old_view,
                strictly_sorted(old_view),
                forall|y: int| 0 <= y < p ==> seq_lt(old_view[y], key@),
            ensures
                p <= self.keys.len(),
                forall|y: int| 0 <= y < p ==> seq_lt(old_view[y], key@),
                p < self.keys.len() ==> !seq_lt(old_view[p as int], key@),
            decreases self.keys.len() - p,
        {
            if p == self.keys.len() {
                break;
            }
            assert(self.keys@[p as int]@ == old_view[p as int]);
            if compare_str(self.keys[p].as_str(), key.as_str()) != Order::Less {
                break;
            }
            p = p + 1;
        }
        if p < self.keys.len() && str_eq(self.keys[p].as_str(), key.as_str()) {
            proof {
                assert(old_view[p as int] == key@);
                assert(old_view.to_set().insert(key@) =~= old_view.to_set());
            }
            return;
        }
        proof {
            if p < old_view.len() {
                assert(self.keys@[p as int]@ == old_view[p as int]);
                lemma_seq_lt_total(old_view[p as int], key@);
            }
        }
        let ghost k = key@;
        let mut keys = Vec::new();
        std::mem::swap(&mut keys, &mut self.keys);
        keys.insert(p, key);
        proof {
            let nv = keys@.map_values(|s: String| s@);
            old_view.insert_ensures(p as int, k);
            assert(nv =~= old_view.insert(p as int, k)) by {
                assert forall|y: int| 0 <= y < nv.len() implies nv[y] == old_view.insert(
                    p as int,
                    k,
                )[y] by {
                    if y > p {
                        assert(old_view.insert(p as int, k)[(y - 1) + 1] == old_view[y - 1]);
                    }
                }
            }
            assert forall|y: int, z: int| 0 <= y < z < nv.len() implies seq_lt(nv[y], nv[z]) by {
                if y > p {
                    assert(old_view.insert(p as int, k)[(y - 1) + 1] == old_view[y - 1]);
                }
                if z > p {
                    assert(old_view.insert(p as int, k)[(z - 1) + 1] == old_view[z - 1]);
                }
                if z > p && z - 1 > p {
                    lemma_seq_lt_transitive(k, old_view[p as int], old_view[z - 1]);
                }
                if y < p && z > p {
                    lemma_seq_lt_transitive(old_view[y], k, old_view[z - 1]);
                }
            }
            assert(nv.to_set() =~= old_view.to_set().insert(k)) by {
                assert forall|e: Seq<char>| nv.to_set().contains(e) <==> old_view.to_set().insert(
                    k,
                ).contains(e) by {
                    if nv.contains(e) {
                        let y = choose|y: int| 0 <= y < nv.len() && nv[y] == e;
                        if y > p {
                            assert(old_view.insert(p as int, k)[(y - 1) + 1] == old_view[y - 1]);
                        }
                    }
                    if old_view.contains(e) {
                        let y = choose|y: int| 0 <= y < old_view.len() && old_view[y] == e;
                        if y >= p {
                            assert(old_view.insert(p as int, k)[y + 1] == old_view[y]);
                            assert(nv[y + 1] == e);
                        } else {
                            assert(nv[y] == e);
                        }
                    }
                    if e == k {
                        assert(nv[p as int] == e);
                    }
                }
            }
        }
        self.keys = keys;
    }

    /// The keys of `keys`, without repetition, in ascending order.
    pub fn from_keys(keys: Vec<String>) -> (r: Self)
        ensures
            r@.to_set() == keys@.map_values(|k: String| k@).to_set(),
    {
        let mut r = KnownKeys::new();
        let mut i: usize = 0;
        while i < keys.len()
            invariant
                i <= keys.len(),
                r@.to_set() == keys@.take(i as int).map_values(|k: String| k@).to_set(),
            decreases keys.len() - i,
        {
            r.insert(keys[i].clone());
            assert(keys@.take(i + 1).map_values(|k: String| k@) =~= keys@.take(i as int).map_values(
                |k: String| k@,
            ).push(keys@[i as int]@));
            proof {
                keys@.take(i as int).map_values(|k: String| k@).lemma_push_to_set_commute(
                    keys@[i as int]@,
                );
            }
            i = i + 1;
        }
        assert(keys@.take(keys.len() as int) =~= keys@);
        r
    }
}

/// The device keys of a scan's readings, as a set.
pub open spec fn reading_keys(devices: Seq<BatteryState>) -> Set<Seq<char>> {
    devices.map_values(|d: BatteryState| d.device_key@).to_set()
}

/// The known keys that a complete, error-free scan no longer reports, in
/// ascending order.
pub open spec fn gone_keys(known: Seq<Seq<char>>, current: Set<Seq<char>>) -> Seq<Seq<char>> {
    known.filter(|k: Seq<char>| !current.contains(k))
}

/// `events` publishes `gone` (as `Gone`, in order) followed by `updates`
/// (as `Update`, in order).
pub open spec fn publishes(
    events: Seq<DeviceEvent>,
    gone: Seq<Seq<char>>,
    updates: Seq<BatteryState>,
) -> bool {
    &&& events.len() == gone.len() + updates.len()
    &&& forall|i: int|
        0 <= i < gone.len() ==> (#[trigger] events[i] matches DeviceEvent::Gone(k) && k@ == gone[i])
    &&& forall|j: int|
        0 <= j < updates.len() ==> #[trigger] events[gone.len() + j] == DeviceEvent::Update(
            updates[j],
        )
}

/// The events one snapshot publishes, and the known keys afterwards.
///
/// A failed scan (`complete == false`) publishes nothing and forgets
/// nothing: a radio or service failure is no evidence that a device went
/// away. A complete scan publishes an update for every reading; only when it
/// reported no error does it also publish every known key it no longer
/// contains as gone, and the known keys become exactly its keys. With errors,
/// its keys are added to the known ones.
pub fn publish_snapshot(result: PollResult, complete: bool, known: &mut KnownKeys) -> (events:
    Vec<DeviceEvent>)
    ensures
        !complete ==> events@.len() == 0 && final(known)@ == old(known)@,
        complete && result.errors@.len() == 0 ==> {
            &&& publishes(
                events@,
                gone_keys(old(known)@, reading_keys(result.devices@)),
                result.devices@,
            )
            &&& final(known)@.to_set() == reading_keys(result.devices@)
        },
        complete && result.errors@.len() > 0 ==> {
            &&& publishes(events@, Seq::empty(), result.devices@)
            &&& final(known)@.to_set() == old(known)@.to_set().union(
                reading_keys(result.devices@),
            )
        },
{
    let mut events: Vec<DeviceEvent> = Vec::new();
    if !complete {
        return events;
    }
    let had_errors = result.errors.len() > 0;
    let devices = result.devices;
    let ghost ds = devices@;
    let mut current: Vec<String> = Vec::new();
    let mut i: usize = 0;
    while i < devices.len()
        invariant
            i <= devices.len(),
            current@.map_values(|k: String| k@) == devices@.take(i as int).map_values(
                |d: BatteryState| d.device_key@,
            ),
        decreases devices.len() - i,
    {
        current.push(devices[i].device_key.clone());
        assert(devices@.take(i + 1).map_values(|d: BatteryState| d.device_key@) =~= devices@.take(
            i as int,
        ).map_values(|d: BatteryState| d.device_key@).push(devices@[i as int].device_key@));
        assert(current@.map_values(|k: String| k@) =~= current@.drop_last().map_values(
            |k: String| k@,
        ).push(current@.last()@));
        i = i + 1;
    }
    assert(devices@.take(devices.len() as int) =~= devices@);
    let ghost cur_set = reading_keys(ds);
    assert(current@.map_values(|k: String| k@).to_set() == cur_set);
    if !had_errors {
        let old_keys = known.keys();
        let ghost kv = old_keys@.map_values(|k: String| k@);
        let ghost pred = |k: Seq<char>| !cur_set.contains(k);
        let mut j: usize = 0;
        while j < old_keys.len()
            invariant
                j <= old_keys.len(),
                kv == old_keys@.map_values(|k: String| k@),
                cur_set == current@.map_values(|k: String| k@).to_set(),
                pred == (|k: Seq<char>| !cur_set.contains(k)),
                events@.len() == kv.take(j as int).filter(pred).len(),
                forall|e: int|
                    0 <= e < events@.len() ==> (#[trigger] events@[e] matches DeviceEvent::Gone(k)
                        && k@ == kv.take(j as int).filter(pred)[e]),
            decreases old_keys.len() - j,
        {
            let key = &old_keys[j];
            let mut present = false;
            let mut c: usize = 0;
            while c < current.len()
                invariant
                    c <= current.len(),
                    present == exists|x: int| 0 <= x < c && current@[x]@ == key@,
                decreases current.len() - c,
            {
                if str_eq(current[c].as_str(), key.as_str()) {
                    present = true;
                }
                c = c + 1;
            }
            proof {
                let cv = current@.map_values(|k: String| k@);
                if present {
                    let x = choose|x: int| 0 <= x < c && current@[x]@ == key@;
                    assert(cv[x] == key@);
                    assert(cv.to_set().contains(key@));
                } else {
                    if cv.contains(key@) {
                        let x = choose|x: int| 0 <= x < cv.len() && cv[x] == key@;
                        assert(current@[x]@ == key@);
                    }
                }
                assert(kv.take(j + 1) =~= kv.take(j as int).push(kv[j as int]));
                kv.take(j as int).lemma_filter_push(kv[j as int], pred);
            }
            if !present {
                events.push(DeviceEvent::Gone(key.clone()));
            }
            j = j + 1;
        }
        assert(kv.take(old_keys.len() as int) =~= kv);
    }
    let ghost gone_len = events@.len();
    let ghost prefix = events@;
    let mut rest = devices;
    let mut u: usize = 0;
    let n = rest.len();
    while u < n
        invariant
            n == ds.len(),
            u <= n,
            rest@ == ds.subrange(u as int, n as int),
            events@.len() == gone_len + u,
            events@.subrange(0, gone_len as int) == prefix,
            forall|t: int|
                0 <= t < u ==> #[trigger] events@[gone_len + t] == DeviceEvent::Update(ds[t]),
        decreases n - u,
    {
        let d = rest.remove(0);
        assert(d == ds[u as int]);
        events.push(DeviceEvent::Update(d));
        assert(events@.subrange(0, gone_len as int) =~= prefix);
        u = u + 1;
    }
    proof {
        assert forall|e: int| 0 <= e < gone_len implies #[trigger] events@[e] == prefix[e] by {
            assert(events@.subrange(0, gone_len as int)[e] == events@[e]);
        }
    }
    if had_errors {
        let mut c: usize = 0;
        let ghost start = known@.to_set();
        while c < current.len()
            invariant
                c <= current.len(),
                known@.to_set() == start.union(
                    current@.take(c as int).map_values(|k: String| k@).to_set(),
                ),
            decreases current.len() - c,
        {
            known.insert(current[c].clone());
            assert(current@.take(c + 1).map_values(|k: String| k@) =~= current@.take(
                c as int,
            ).map_values(|k: String| k@).push(current@[c as int]@));
            proof {
                current@.take(c as int).map_values(|k: String| k@).lemma_push_to_set_commute(
                    current@[c as int]@,
                );
            }
            assert(start.union(current@.take(c + 1).map_values(|k: String| k@).to_set())
                =~= start.union(current@.take(c as int).map_values(|k: String| k@).to_set()).insert(
                current@[c as int]@,
            ));
            c = c + 1;
        }
        assert(current@.take(current.len() as int) =~= current@);
    } else {
        *known = KnownKeys::from_keys(current);
    }
    events
}

// ---------------------------------------------------------------------------
// The scanner's schedule
// ---------------------------------------------------------------------------

/// The shortest time between two Bluetooth scans, in seconds.
pub const MIN_POLL_SECS: u64 = 60;

/// A command from the tray to a battery source.
#[derive(Clone, Copy, Debug, PartialEq, Eq, Structural)]
pub enum WorkerCommand {
    /// Scan now.
    Refresh,
    /// Change the backstop re-read interval, in seconds.
    SetSafetyInterval(u64),
    /// Stop.
    Exit,
}

/// What ended the scanner's wait after a scan.
#[derive(Clone, Copy, Debug, PartialEq, Eq, Structural)]
pub enum WorkerWake {
    /// A command arrived.
    Command(WorkerCommand),
    /// The interval elapsed.
    Timeout,
    /// Nobody can send commands any more.
    Disconnected,
}

/// The scan interval for a requested one: never below `MIN_POLL_SECS`.
pub fn worker_poll_secs(requested: u64) -> (r: u64)
    ensures
        r == if requested < MIN_POLL_SECS { MIN_POLL_SECS } else { requested },
{
    if requested < MIN_POLL_SECS {
        MIN_POLL_SECS
    } else {
        requested
    }
}

/// The scanner's next interval after a wake-up, or `None` when it stops:
/// it stops on `Exit` or when commands can no longer arrive, adopts a new
/// interval (never below the minimum), and otherwise scans again with the
/// same one.
pub fn worker_step(poll_secs: u64, wake: WorkerWake) -> (r: Option<u64>)
    ensures
        r == match wake {
            WorkerWake::Command(WorkerCommand::Exit) | WorkerWake::Disconnected => None,
            WorkerWake::Command(WorkerCommand::SetSafetyInterval(secs)) => Some(
                if secs < MIN_POLL_SECS { MIN_POLL_SECS } else { secs },
            ),
            _ => Some(poll_secs),
        },
{
    match wake {
        WorkerWake::Command(WorkerCommand::Exit) => None,
        WorkerWake::Disconnected => None,
        WorkerWake::Command(WorkerCommand::SetSafetyInterval(secs)) => Some(worker_poll_secs(secs)),
        _ => Some(poll_secs),
    }
}

// ---------------------------------------------------------------------------
// Which GATT battery services count as keyboards or mice
// ---------------------------------------------------------------------------

/// The name fragments of Logitech keyboards and mice.
pub open spec fn name_markers() -> Seq<Seq<char>> {
    seq![
        "logitech"@,
        "logi "@,
        "mx keys"@,
        "mx master"@,
        "mx anywhere"@,
        "ergo k"@,
        "ergo m"@,
        "pebble keys"@,
        "pebble mouse"@,
        "pop keys"@,
        "pop mouse"@,
        "signature k"@,
        "signature m"@,
    ]
}

/// The lower-cased name contains one of the markers.
pub open spec fn looks_like_keyboard_or_mouse_name(name: Seq<char>) -> bool {
    exists|m: int| 0 <= m < name_markers().len() && has_substring(lower_text(name), name_markers()[m])
}

/// Whether an already lower-cased name contains one of the markers.
pub fn has_name_marker(lowered: &str) -> (r: bool)
    ensures
        r == exists|m: int| 0 <= m < name_markers().len() && has_substring(lowered@, name_markers()[m]),
{
    let l = chars_of(lowered);
    let markers: [&str; 13] = [
        "logitech",
        "logi ",
        "mx keys",
        "mx master",
        "mx anywhere",
        "ergo k",
        "ergo m",
        "pebble keys",
        "pebble mouse",
        "pop keys",
        "pop mouse",
        "signature k",
        "signature m",
    ];
    assert(markers@.map_values(|m: &str| m@) =~= name_markers());
    let mut m: usize = 0;
    while m < 13
        invariant
            m <= 13,
            l@ == lowered@,
            markers@.map_values(|m: &str| m@) == name_markers(),
            forall|x: int| 0 <= x < m ==> !has_substring(l@, name_markers()[x]),
        decreases 13 - m,
    {
        let marker = chars_of(markers[m]);
        assert(marker@ == name_markers()[m as int]);
        if contains(&l, &marker) {
            return true;
        }
        m = m + 1;
    }
    false
}

/// Whether a device name looks like a Logitech keyboard or mouse: its
/// lower-cased form contains one of the markers.
pub fn looks_like_logitech_keyboard_or_mouse(name: &str) -> (r: bool)
    ensures
        r == looks_like_keyboard_or_mouse_name(name@),
{
    let lowered = to_lowercase(name);
    has_name_marker(lowered.as_str())
}

/// The Bluetooth appearance is a keyboard or a mouse: Human Interface
/// Device category `0x0F`, subcategory `0x01` (keyboard) or `0x02` (mouse).
pub fn is_keyboard_or_mouse_appearance(category: u16, subcategory: u16) -> (r: bool)
    ensures
        r == (category == 0x0F && (subcategory == 0x01 || subcategory == 0x02)),
{
    category == 0x0F && (subcategory == 0x01 || subcategory == 0x02)
}

// ---------------------------------------------------------------------------
// From GATT readings to a poll result
// ---------------------------------------------------------------------------

/// The key under which a GATT battery service is tracked.
pub fn bluetooth_device_key(service_id: &str) -> (r: String)
    ensures
        r@ == "BT:"@ + service_id@,
{
    let mut r = string_from("BT:");
    push_str(&mut r, service_id);
    r
}

/// The name is not empty after trimming.
pub open spec fn is_blank(s: Seq<char>) -> bool {
    trim_ws(s).len() == 0
}

/// The display name of a Bluetooth reading: the device's own name, else the
/// service's, each only when not blank, else `"Bluetooth device"`.
pub open spec fn bluetooth_display_name(
    device_name: Option<Seq<char>>,
    service_name: Option<Seq<char>>,
) -> Seq<char> {
    if device_name is Some && !is_blank(device_name->0) {
        device_name->0
    } else if service_name is Some && !is_blank(service_name->0) {
        service_name->0
    } else {
        "Bluetooth device"@
    }
}

fn not_blank(s: &String) -> (r: bool)
    ensures
        r == !is_blank(s@),
{
    trim(&chars_of(s.as_str())).len() > 0
}

/// Why a battery level above 100 is rejected.
pub open spec fn invalid_level_message(percent: u8) -> Seq<char> {
    "Battery Level returned invalid value "@ + decimal(percent as nat)
}

/// What one GATT battery reading becomes: an error for a level above 100;
/// nothing when neither the appearance nor the name says keyboard or
/// mouse; otherwise a Bluetooth reading under `key`.
pub fn bluetooth_reading(
    key: String,
    percent: u8,
    device_name: Option<String>,
    service_name: Option<String>,
    appearance: Option<(u16, u16)>,
) -> (r: Result<Option<BatteryState>, String>)
    ensures
        percent > 100 ==> (r matches Err(e) && e@ == invalid_level_message(percent)),
        percent <= 100 ==> {
            let name = bluetooth_display_name(
                match device_name {
                    Some(n) => Some(n@),
                    None => None,
                },
                match service_name {
                    Some(n) => Some(n@),
                    None => None,
                },
            );
            let accepted = (appearance matches Some((c, s)) && c == 0x0F && (s == 0x01 || s
                == 0x02)) || looks_like_keyboard_or_mouse_name(name);
            &&& accepted ==> (r matches Ok(Some(st)) && st.device_key == key && st.display_name@
                == name && st.pid == 0 && st.device_index == 0 && st.battery_percent == percent
                && !st.is_charging && st.transport == Transport::Bluetooth)
            &&& !accepted ==> r matches Ok(None)
        },
{
    if percent > 100 {
        let mut v = chars_of("Battery Level returned invalid value ");
        push_decimal(&mut v, percent as u64);
        return Err(string_of(&v));
    }
    let display_name = match device_name {
        Some(n) if not_blank(&n) => n,
        _ => match service_name {
            Some(n) if not_blank(&n) => n,
            _ => string_from("Bluetooth device"),
        },
    };
    let appearance_matches = match appearance {
        Some((c, s)) => is_keyboard_or_mouse_appearance(c, s),
        None => false,
    };
    if !appearance_matches && !looks_like_logitech_keyboard_or_mouse(display_name.as_str()) {
        return Ok(None);
    }
    Ok(
        Some(
            BatteryState {
                device_key: key,
                display_name,
                pid: 0,
                device_index: 0,
                battery_percent: percent,
                is_charging: false,
                transport: Transport::Bluetooth,
            },
        ),
    )
}

/// Adds the outcome of reading the service `key` to a scan: a kept reading
/// to its devices, an error (prefixed with the key) to its errors.
pub fn record_reading(result: &mut PollResult, key: &str, reading: Result<Option<BatteryState>, String>)
    ensures
        match reading {
            Ok(Some(st)) => final(result).devices@ == old(result).devices@.push(st)
                && final(result).errors@ == old(result).errors@,
            Ok(None) => *final(result) == *old(result),
            Err(e) => final(result).devices@ == old(result).devices@ && final(result).errors@.len()
                == old(result).errors@.len() + 1 && final(result).errors@.drop_last()
                == old(result).errors@ && final(result).errors@.last()@ == key@ + ": "@ + e@,
        },
{
    match reading {
        Ok(Some(st)) => result.devices.push(st),
        Ok(None) => {},
        Err(e) => {
            let mut msg = string_from(key);
            push_str(&mut msg, ": ");
            push_str(&mut msg, e.as_str());
            result.errors.push(msg);
            assert(result.errors@.drop_last() =~= old(result).errors@);
        },
    }
}

/// What a scan yields for the worker: a successful scan, sorted, counts as
/// complete; a failed one becomes an empty, incomplete result carrying its
/// error.
pub fn poll_for_worker(scan: Result<PollResult, String>) -> (r: (PollResult, bool))
    ensures
        match scan {
            Ok(p) => r.1 && is_stable_sort_of(p.devices@, r.0.devices@) && r.0.errors == p.errors,
            Err(e) => !r.1 && r.0.devices@.len() == 0 && r.0.errors@ == seq![e],
        },
{
    match scan {
        Ok(mut result) => {
            result.sort_devices();
            (result, true)
        },
        Err(e) => {
            let mut errors = Vec::new();
            errors.push(e);
            (PollResult { devices: Vec::new(), errors }, false)
        },
    }
}

/// The poll result of one scan, as `poll_for_worker` gives it.
pub fn poll_once(scan: Result<PollResult, String>) -> (r: PollResult)
    ensures
        match scan {
            Ok(p) => is_stable_sort_of(p.devices@, r.devices@) && r.errors == p.errors,
            Err(e) => r.devices@.len() == 0 && r.errors@ == seq![e],
        },
{
    poll_for_worker(scan).0
}

/// A Bluetooth reading is named after the device when the device has a name
/// that is not blank, whatever the service is called; the service's name
/// stands in only when the device's is missing or blank, and a reading with
/// neither is called "Bluetooth device".
pub proof fn lemma_reading_named_after_device(
    device: Seq<char>,
    service: Option<Seq<char>>,
    other: Seq<char>,
)
    requires
        !is_blank(device),
    ensures
        bluetooth_display_name(Some(device), service) == device,
        !is_blank(other) ==> bluetooth_display_name(None, Some(other)) == other,
        is_blank(other) ==> bluetooth_display_name(Some(other), Some(device)) == device,
        is_blank(other) ==> bluetooth_display_name(Some(other), None) == "Bluetooth device"@,
        bluetooth_display_name(None, None) == "Bluetooth device"@,
{
}

/// Every Logitech keyboard and mouse family is recognised by name: a name
/// whose lower-cased form contains "logitech", "logi ", "mx keys",
/// "mx master", "mx anywhere", "ergo k", "ergo m", "pebble keys",
/// "pebble mouse", "pop keys", "pop mouse", "signature k" or "signature m"
/// counts as a keyboard or mouse.
pub proof fn lemma_marker_names_recognised(name: Seq<char>)
    ensures
        has_substring(lower_text(name), "logitech"@) ==> looks_like_keyboard_or_mouse_name(name),
        has_substring(lower_text(name), "logi "@) ==> looks_like_keyboard_or_mouse_name(name),
        has_substring(lower_text(name), "mx keys"@) ==> looks_like_keyboard_or_mouse_name(name),
        has_substring(lower_text(name), "mx master"@) ==> looks_like_keyboard_or_mouse_name(name),
        has_substring(lower_text(name), "mx anywhere"@) ==> looks_like_keyboard_or_mouse_name(name),
        has_substring(lower_text(name), "ergo k"@) ==> looks_like_keyboard_or_mouse_name(name),
        has_substring(lower_text(name), "ergo m"@) ==> looks_like_keyboard_or_mouse_name(name),
        has_substring(lower_text(name), "pebble keys"@) ==> looks_like_keyboard_or_mouse_name(name),
        has_substring(lower_text(name), "pebble mouse"@) ==> looks_like_keyboard_or_mouse_name(name),
        has_substring(lower_text(name), "pop keys"@) ==> looks_like_keyboard_or_mouse_name(name),
        has_substring(lower_text(name), "pop mouse"@) ==> looks_like_keyboard_or_mouse_name(name),
        has_substring(lower_text(name), "signature k"@) ==> looks_like_keyboard_or_mouse_name(name),
        has_substring(lower_text(name), "signature m"@) ==> looks_like_keyboard_or_mouse_name(name),
{
    assert(name_markers()[0] == "logitech"@);
    assert(name_markers()[1] == "logi "@);
    assert(name_markers()[2] == "mx keys"@);
    assert(name_markers()[3] == "mx master"@);
    assert(name_markers()[4] == "mx anywhere"@);
    assert(name_markers()[5] == "ergo k"@);
    assert(name_markers()[6] == "ergo m"@);
    assert(name_markers()[7] == "pebble keys"@);
    assert(name_markers()[8] == "pebble mouse"@);
    assert(name_markers()[9] == "pop keys"@);
    assert(name_markers()[10] == "pop mouse"@);
    assert(name_markers()[11] == "signature k"@);
    assert(name_markers()[12] == "signature m"@);
}

} // verus!
