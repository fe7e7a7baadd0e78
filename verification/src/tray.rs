//! What the single summary tray icon shows: the per-device projections kept
//! across sleep and disconnection, their deduplication across transports,
//! the lowest-battery summary, tooltip and menu texts, and the menu commands.
use vstd::prelude::*;

use crate::bluetooth::WorkerCommand;
use crate::config::{AppConfig, PRODUCT_NAME};
use crate::notify::{low_battery_title_spec, Notifier};
use crate::dedup::{
    deduplicate_by_name, group_of, is_dedup_of, lemma_dedup_survivor_preferred, Ranked,
};
use crate::model::{transport_rank, BatteryState, DeviceEvent, Transport};
use crate::sort::{is_stable_sort_of, stable_sort, KeyOrder};
use crate::strmap::StrMap;
use crate::text::{
    compare_str, decimal, lemma_seq_lt_irreflexive, lemma_seq_lt_total, lemma_seq_lt_transitive,
    parse_decimal, parse_unsigned, push_decimal, push_str, seq_le, seq_lt, str_eq, string_from,
    string_of, strip_prefix, strip_prefix_spec, Order, ascii_lower, eq_ignore_ascii_case_spec,
};

verus! {

/// What the tray knows of one device: its last reading and whether it is
/// currently reachable.
#[derive(Clone, Debug, PartialEq, Eq)]
pub struct DeviceTrayProjection {
    pub device_key: String,
    pub display_name: String,
    pub battery_percent: u8,
    pub is_charging: bool,
    pub online: bool,
    pub transport: Transport,
}

impl View for DeviceTrayProjection {
    type V = DeviceTrayProjection;

    open spec fn view(&self) -> DeviceTrayProjection {
        *self
    }
}

/// The projection of a fresh reading: online, with the reading's values.
pub open spec fn projection_of(state: BatteryState) -> DeviceTrayProjection {
    DeviceTrayProjection {
        device_key: state.device_key,
        display_name: state.display_name,
        battery_percent: state.battery_percent,
        is_charging: state.is_charging,
        online: true,
        transport: state.transport,
    }
}

impl DeviceTrayProjection {
    /// The projection of a fresh reading.
    pub fn online(state: &BatteryState) -> (r: Self)
        ensures
            r == projection_of(*state),
    {
        DeviceTrayProjection {
            device_key: state.device_key.clone(),
            display_name: state.display_name.clone(),
            battery_percent: state.battery_percent,
            is_charging: state.is_charging,
            online: true,
            transport: state.transport,
        }
    }

    /// A field-by-field copy.
    pub fn duplicate(&self) -> (r: Self)
        ensures
            r == *self,
    {
        DeviceTrayProjection {
            device_key: self.device_key.clone(),
            display_name: self.display_name.clone(),
            battery_percent: self.battery_percent,
            is_charging: self.is_charging,
            online: self.online,
            transport: self.transport,
        }
    }
}

/// Preference among projections of one device: an online reading over a
/// stale one; between equally fresh ones, the receiver over Bluetooth.
pub open spec fn tray_rank(d: DeviceTrayProjection) -> int {
    (if d.online { 0int } else { 2int }) + transport_rank(d.transport)
}

impl Ranked for DeviceTrayProjection {
    open spec fn name_view(&self) -> Seq<char> {
        self.display_name@
    }

    open spec fn rank_view(&self) -> int {
        tray_rank(*self)
    }

    fn display_name_str(&self) -> (r: &str) {
        self.display_name.as_str()
    }

    fn rank(&self) -> (r: u8) {
        (if self.online { 0u8 } else { 2u8 }) + self.transport.rank()
    }
}

/// The order of tray entries: display name, then device key.
pub open spec fn tray_order_le(a: DeviceTrayProjection, b: DeviceTrayProjection) -> bool {
    ||| seq_lt(a.display_name@, b.display_name@)
    ||| a.display_name@ == b.display_name@ && seq_le(a.device_key@, b.device_key@)
}

impl KeyOrder for DeviceTrayProjection {
    open spec fn key_le(self, other: Self) -> bool {
        tray_order_le(self, other)
    }

    proof fn lemma_key_le_reflexive(a: Self) {
    }

    proof fn lemma_key_le_transitive(a: Self, b: Self, c: Self) {
        lemma_seq_lt_total(a.display_name@, b.display_name@);
        lemma_seq_lt_total(b.display_name@, c.display_name@);
        if seq_lt(a.display_name@, b.display_name@) && seq_lt(b.display_name@, c.display_name@) {
            lemma_seq_lt_transitive(a.display_name@, b.display_name@, c.display_name@);
        }
        if seq_lt(a.device_key@, b.device_key@) && seq_lt(b.device_key@, c.device_key@) {
            lemma_seq_lt_transitive(a.device_key@, b.device_key@, c.device_key@);
        }
    }

    proof fn lemma_key_le_total(a: Self, b: Self) {
        lemma_seq_lt_total(a.display_name@, b.display_name@);
        lemma_seq_lt_total(a.device_key@, b.device_key@);
    }

    fn key_le_exec(&self, other: &Self) -> (r: bool) {
        match compare_str(self.display_name.as_str(), other.display_name.as_str()) {
            Order::Less => true,
            Order::Greater => {
                proof {
                    lemma_seq_lt_total(self.display_name@, other.display_name@);
                }
                false
            },
            Order::Equal => {
                proof {
                    lemma_seq_lt_irreflexive(self.display_name@);
                }
                compare_str(self.device_key.as_str(), other.device_key.as_str()) != Order::Greater
            },
        }
    }
}

/// The projections of a set of readings, ordered by display name and then
/// device key.
pub fn project_device_trays(devices: &Vec<BatteryState>) -> (r: Vec<DeviceTrayProjection>)
    ensures
        is_stable_sort_of(devices@.map_values(|d: BatteryState| projection_of(d)), r@),
{
    let mut projected: Vec<DeviceTrayProjection> = Vec::new();
    let mut i: usize = 0;
    while i < devices.len()
        invariant
            i <= devices@.len(),
            projected@ == devices@.take(i as int).map_values(|d: BatteryState| projection_of(d)),
        decreases devices.len() - i,
    {
        projected.push(DeviceTrayProjection::online(&devices[i]));
        assert(devices@.take(i + 1).map_values(|d: BatteryState| projection_of(d))
            =~= devices@.take(i as int).map_values(|d: BatteryState| projection_of(d)).push(
            projection_of(devices@[i as int]),
        ));
        i = i + 1;
    }
    assert(devices@.take(devices.len() as int) =~= devices@);
    stable_sort(projected)
}

/// Orders tray entries by display name and then device key, keeping the
/// order of entries equal in both.
pub fn sort_device_trays(devices: &mut Vec<DeviceTrayProjection>)
    ensures
        is_stable_sort_of(old(devices)@, final(devices)@),
{
    let mut items: Vec<DeviceTrayProjection> = Vec::new();
    std::mem::swap(&mut items, devices);
    *devices = stable_sort(items);
}

/// Keeps one entry per physical device (one normalised name): an online
/// entry over a stale one, then the receiver over Bluetooth, then the
/// earlier; the survivors come ordered by display name.
pub fn deduplicate_device_trays(devices: Vec<DeviceTrayProjection>) -> (r: Vec<
    DeviceTrayProjection,
>)
    ensures
        is_dedup_of(devices@, r@),
{
    deduplicate_by_name(devices)
}

// ---------------------------------------------------------------------------
// The device map
// ---------------------------------------------------------------------------

/// The last known projection of every device seen, by device key.
pub struct TrayDevices {
    map: StrMap<DeviceTrayProjection>,
}

impl View for TrayDevices {
    type V = Map<Seq<char>, DeviceTrayProjection>;

    closed spec fn view(&self) -> Map<Seq<char>, DeviceTrayProjection> {
        self.map@
    }
}

/// Every entry is stored under its own device key.
pub open spec fn keyed_by_device(m: Map<Seq<char>, DeviceTrayProjection>) -> bool {
    forall|k: Seq<char>| #[trigger] m.contains_key(k) ==> m[k].device_key@ == k
}

/// The projection after the device stopped reporting: stale, not charging,
/// its last battery reading kept.
pub open spec fn gone_projection(d: DeviceTrayProjection) -> DeviceTrayProjection {
    DeviceTrayProjection { online: false, is_charging: false, ..d }
}

/// `v` lists the entries of `m` in strictly ascending order of device key.
pub open spec fn listed_by_key(
    m: Map<Seq<char>, DeviceTrayProjection>,
    v: Seq<DeviceTrayProjection>,
) -> bool {
    &&& forall|i: int, j: int| 0 <= i < j < v.len() ==> seq_lt(v[i].device_key@, v[j].device_key@)
    &&& forall|i: int|
        0 <= i < v.len() ==> m.contains_key(#[trigger] v[i].device_key@) && m[v[i].device_key@]
            == v[i]
    &&& forall|k: Seq<char>|
        m.contains_key(k) ==> exists|i: int| 0 <= i < v.len() && #[trigger] v[i].device_key@ == k
}

/// A map has one listing in ascending key order: any two are equal.
pub proof fn lemma_listed_by_key_unique(
    m: Map<Seq<char>, DeviceTrayProjection>,
    a: Seq<DeviceTrayProjection>,
    b: Seq<DeviceTrayProjection>,
)
    requires
        listed_by_key(m, a),
        listed_by_key(m, b),
    ensures
        a == b,
    decreases a.len(),
{
    if a.len() == 0 {
        if b.len() > 0 {
            assert(m.contains_key(b[0].device_key@));
        }
        assert(a =~= b);
    } else if b.len() == 0 {
        assert(m.contains_key(a[0].device_key@));
    } else {
        let ka = a[0].device_key@;
        let kb = b[0].device_key@;
        assert(m.contains_key(ka));
        assert(m.contains_key(kb));
        let p = choose|p: int| 0 <= p < b.len() && #[trigger] b[p].device_key@ == ka;
        let q = choose|q: int| 0 <= q < a.len() && #[trigger] a[q].device_key@ == kb;
        if p > 0 {
            assert(seq_lt(kb, ka));
            if q > 0 {
                assert(seq_lt(ka, kb));
                lemma_seq_lt_transitive(kb, ka, kb);
            }
            lemma_seq_lt_irreflexive(kb);
        }
        assert(a[0] == b[0]);
        let m1 = m.remove(ka);
        let a1 = a.drop_first();
        let b1 = b.drop_first();
        assert forall|i: int, j: int| 0 <= i < j < a1.len() implies seq_lt(
            a1[i].device_key@,
            a1[j].device_key@,
        ) by {
            assert(a1[i] == a[i + 1] && a1[j] == a[j + 1]);
        }
        assert forall|i: int| 0 <= i < a1.len() implies m1.contains_key(
            #[trigger] a1[i].device_key@,
        ) && m1[a1[i].device_key@] == a1[i] by {
            assert(a1[i] == a[i + 1]);
            assert(seq_lt(ka, a[i + 1].device_key@));
            if a[i + 1].device_key@ == ka {
                lemma_seq_lt_irreflexive(ka);
            }
        }
        assert forall|k: Seq<char>| m1.contains_key(k) implies exists|i: int|
            0 <= i < a1.len() && #[trigger] a1[i].device_key@ == k by {
            let i = choose|i: int| 0 <= i < a.len() && #[trigger] a[i].device_key@ == k;
            assert(i != 0);
            assert(a1[i - 1].device_key@ == k);
        }
        assert forall|i: int, j: int| 0 <= i < j < b1.len() implies seq_lt(
            b1[i].device_key@,
            b1[j].device_key@,
        ) by {
            assert(b1[i] == b[i + 1] && b1[j] == b[j + 1]);
        }
        assert forall|i: int| 0 <= i < b1.len() implies m1.contains_key(
            #[trigger] b1[i].device_key@,
        ) && m1[b1[i].device_key@] == b1[i] by {
            assert(b1[i] == b[i + 1]);
            assert(seq_lt(kb, b[i + 1].device_key@));
            if b[i + 1].device_key@ == ka {
                lemma_seq_lt_irreflexive(ka);
            }
        }
        assert forall|k: Seq<char>| m1.contains_key(k) implies exists|i: int|
            0 <= i < b1.len() && #[trigger] b1[i].device_key@ == k by {
            let i = choose|i: int| 0 <= i < b.len() && #[trigger] b[i].device_key@ == k;
            assert(i != 0);
            assert(b1[i - 1].device_key@ == k);
        }
        lemma_listed_by_key_unique(m1, a1, b1);
        assert forall|i: int| 0 <= i < a.len() implies a[i] == b[i] by {
            if i > 0 {
                assert(a1[i - 1] == b1[i - 1]);
            }
        }
        assert(a =~= b);
    }
}

impl TrayDevices {
    #[verifier::type_invariant]
    closed spec fn entries_keyed(self) -> bool {
        keyed_by_device(self.map@)
    }

    /// No devices.
    pub fn new() -> (r: Self)
        ensures
            r@ == Map::<Seq<char>, DeviceTrayProjection>::empty(),
    {
        TrayDevices { map: StrMap::new() }
    }

    /// Stores `projection` under its device key.
    pub fn insert(&mut self, projection: DeviceTrayProjection)
        ensures
            final(self)@ == old(self)@.insert(projection.device_key@, projection),
    {
        proof {
            use_type_invariant(&*self);
        }
        let key = projection.device_key.clone();
        let mut map = StrMap::new();
        std::mem::swap(&mut map, &mut self.map);
        map.insert(key, projection);
        self.map = map;
    }

    /// The projection stored under `key`.
    pub fn get(&self, key: &str) -> (r: Option<&DeviceTrayProjection>)
        ensures
            match r {
                Some(p) => self@.contains_key(key@) && self@[key@] == *p && p.device_key@ == key@,
                None => !self@.contains_key(key@),
            },
    {
        proof {
            use_type_invariant(self);
        }
        self.map.get(key)
    }

    /// The stored projections in ascending order of device key.
    pub fn values(&self) -> (r: Vec<DeviceTrayProjection>)
        ensures
            listed_by_key(self@, r@),
    {
        proof {
            use_type_invariant(self);
        }
        let keys = self.map.keys();
        let ghost kv = keys@.map_values(|s: String| s@);
        let mut r: Vec<DeviceTrayProjection> = Vec::new();
        let mut i: usize = 0;
        while i < keys.len()
            invariant
                i <= keys@.len(),
                kv == keys@.map_values(|s: String| s@),
                forall|k: Seq<char>| #[trigger] self@.contains_key(k) <==> kv.contains(k),
                keyed_by_device(self@),
                r@.len() == i,
                forall|j: int| 0 <= j < i ==> #[trigger] r@[j].device_key@ == kv[j],
                forall|j: int| 0 <= j < i ==> self@[kv[j]] == #[trigger] r@[j],
            decreases keys.len() - i,
        {
            assert(kv[i as int] == keys@[i as int]@);
            assert(self@.contains_key(kv[i as int]));
            match self.get(keys[i].as_str()) {
                Some(p) => {
                    r.push(p.duplicate());
                },
                None => {
                    assert(false);
                },
            }
            i = i + 1;
        }
        proof {
            assert forall|k: Seq<char>| self@.contains_key(k) implies exists|i: int|
                0 <= i < r@.len() && #[trigger] r@[i].device_key@ == k by {
                let j = choose|j: int| 0 <= j < kv.len() && kv[j] == k;
                assert(r@[j].device_key@ == k);
            }
            assert forall|i: int| 0 <= i < r@.len() implies self@.contains_key(
                #[trigger] r@[i].device_key@,
            ) && self@[r@[i].device_key@] == r@[i] by {
                assert(kv.contains(kv[i]));
            }
        }
        r
    }
}

/// Applies one device event: an update stores the fresh projection; a
/// departure marks the device's entry stale and not charging, keeping its
/// last reading, and leaves every other entry as it was.
pub fn apply_device_event(devices: &mut TrayDevices, event: DeviceEvent)
    ensures
        match event {
            DeviceEvent::Update(state) => final(devices)@ == old(devices)@.insert(
                state.device_key@,
                projection_of(state),
            ),
            DeviceEvent::Gone(key) => if old(devices)@.contains_key(key@) {
                final(devices)@ == old(devices)@.insert(
                    key@,
                    gone_projection(old(devices)@[key@]),
                )
            } else {
                final(devices)@ == old(devices)@
            },
        },
{
    match event {
        DeviceEvent::Update(state) => {
            devices.insert(DeviceTrayProjection::online(&state));
        },
        DeviceEvent::Gone(key) => {
            let updated = match devices.get(key.as_str()) {
                Some(device) => {
                    let mut d = device.duplicate();
                    d.online = false;
                    d.is_charging = false;
                    Some(d)
                },
                None => None,
            };
            match updated {
                Some(d) => devices.insert(d),
                None => {},
            }
        },
    }
}

// ---------------------------------------------------------------------------
// Texts
// ---------------------------------------------------------------------------

/// The charging and staleness markers that follow a percentage.
pub open spec fn status_markers(d: DeviceTrayProjection) -> Seq<char> {
    (if d.is_charging { "（充电中）"@ } else { Seq::empty() }) + (if d.online {
        Seq::empty()
    } else {
        "（休眠/未连接，最后读数）"@
    })
}

/// One tooltip line: `"{name}：{percent}%"` followed by the markers.
pub open spec fn tooltip_line(d: DeviceTrayProjection) -> Seq<char> {
    d.display_name@ + "："@ + decimal(d.battery_percent as nat) + "%"@ + status_markers(d)
}

/// One menu label: `"{name} — {percent}%"` followed by the markers.
pub open spec fn menu_label_line(d: DeviceTrayProjection) -> Seq<char> {
    d.display_name@ + " — "@ + decimal(d.battery_percent as nat) + "%"@ + status_markers(d)
}

fn push_markers(r: &mut String, d: &DeviceTrayProjection)
    ensures
        final(r)@ == old(r)@ + status_markers(*d),
{
    let ghost start = r@;
    if d.is_charging {
        push_str(r, "（充电中）");
    }
    let ghost mid = r@;
    if !d.online {
        push_str(r, "（休眠/未连接，最后读数）");
    }
    assert(r@ =~= start + status_markers(*d));
}

fn push_percent(r: &mut String, percent: u8)
    ensures
        final(r)@ == old(r)@ + decimal(percent as nat) + "%"@,
{
    let mut digits: Vec<char> = Vec::new();
    push_decimal(&mut digits, percent as u64);
    assert(digits@ =~= decimal(percent as nat));
    push_str(r, string_of(&digits).as_str());
    push_str(r, "%");
}

/// The tooltip line of one device.
pub fn device_tooltip(device: &DeviceTrayProjection) -> (r: String)
    ensures
        r@ == tooltip_line(*device),
{
    let mut r = string_from(device.display_name.as_str());
    push_str(&mut r, "：");
    push_percent(&mut r, device.battery_percent);
    push_markers(&mut r, device);
    r
}

/// The menu label of one device.
pub fn device_menu_label(device: &DeviceTrayProjection) -> (r: String)
    ensures
        r@ == menu_label_line(*device),
{
    let mut r = string_from(device.display_name.as_str());
    push_str(&mut r, " — ");
    push_percent(&mut r, device.battery_percent);
    push_markers(&mut r, device);
    r
}

/// Lines joined by line breaks.
pub open spec fn join_lines(lines: Seq<Seq<char>>) -> Seq<char>
    decreases lines.len(),
{
    if lines.len() == 0 {
        Seq::empty()
    } else if lines.len() == 1 {
        lines[0]
    } else {
        join_lines(lines.drop_last()) + "\n"@ + lines.last()
    }
}

/// The tooltip of the summary icon: one line per device, in order.
pub open spec fn summary_tooltip(devices: Seq<DeviceTrayProjection>) -> Seq<char> {
    join_lines(devices.map_values(|d: DeviceTrayProjection| tooltip_line(d)))
}

/// What the summary icon shows.
#[derive(Clone, Debug, PartialEq, Eq)]
pub struct TraySummary {
    pub battery_percent: u8,
    pub is_charging: bool,
    pub online: bool,
    pub tooltip: String,
}

/// Entry `m` is the first of those with the lowest battery percentage.
pub open spec fn is_first_lowest(devices: Seq<DeviceTrayProjection>, m: int) -> bool {
    &&& 0 <= m < devices.len()
    &&& forall|j: int|
        0 <= j < devices.len() ==> devices[m].battery_percent <= #[trigger] devices[j].battery_percent
    &&& forall|j: int| 0 <= j < m ==> devices[m].battery_percent < #[trigger] devices[j].battery_percent
}

/// The summary of the tray entries: none without entries; otherwise the
/// level, charging state and freshness of the first entry with the lowest
/// level (so the icon turns stale when that reading is), and a tooltip with
/// every entry.
pub fn summarize_devices(devices: &Vec<DeviceTrayProjection>) -> (r: Option<TraySummary>)
    ensures
        devices@.len() == 0 <==> r is None,
        r matches Some(s) ==> {
            &&& exists|m: int|
                is_first_lowest(devices@, m) && s.battery_percent == devices@[m].battery_percent
                    && s.is_charging == devices@[m].is_charging && s.online == devices@[m].online
            &&& s.tooltip@ == summary_tooltip(devices@)
        },
{
    if devices.len() == 0 {
        return None;
    }
    let mut m: usize = 0;
    let mut i: usize = 1;
    while i < devices.len()
        invariant
            1 <= i <= devices@.len(),
            m < i,
            forall|j: int|
                0 <= j < i ==> devices@[m as int].battery_percent
                    <= #[trigger] devices@[j].battery_percent,
            forall|j: int|
                0 <= j < m ==> devices@[m as int].battery_percent
                    < #[trigger] devices@[j].battery_percent,
        decreases devices.len() - i,
    {
        if devices[i].battery_percent < devices[m].battery_percent {
            m = i;
        }
        i = i + 1;
    }
    assert(is_first_lowest(devices@, m as int));
    let ghost lines = devices@.map_values(|d: DeviceTrayProjection| tooltip_line(d));
    let mut tooltip = String::new();
    let mut k: usize = 0;
    while k < devices.len()
        invariant
            k <= devices@.len(),
            lines == devices@.map_values(|d: DeviceTrayProjection| tooltip_line(d)),
            tooltip@ == join_lines(lines.take(k as int)),
        decreases devices.len() - k,
    {
        let line = device_tooltip(&devices[k]);
        let ghost before = lines.take(k as int);
        assert(lines.take(k + 1).drop_last() =~= before);
        if k > 0 {
            push_str(&mut tooltip, "\n");
        } else {
            assert(before =~= Seq::<Seq<char>>::empty());
        }
        push_str(&mut tooltip, line.as_str());
        assert(tooltip@ =~= join_lines(lines.take(k + 1)));
        k = k + 1;
    }
    assert(lines.take(devices.len() as int) =~= lines);
    Some(
        TraySummary {
            battery_percent: devices[m].battery_percent,
            is_charging: devices[m].is_charging,
            online: devices[m].online,
            tooltip,
        },
    )
}

/// The tooltip of the summary icon: the product name and "未发现设备" while no
/// device is known, otherwise one line per device.
pub open spec fn tooltip_text_for(devices: Seq<DeviceTrayProjection>) -> Seq<char> {
    if devices.len() == 0 {
        PRODUCT_NAME@ + " — 未发现设备"@
    } else {
        summary_tooltip(devices)
    }
}

/// The items of the device submenu: "未发现设备" alone while no device is
/// known, otherwise one label per device, in order.
pub open spec fn menu_label_texts(devices: Seq<DeviceTrayProjection>) -> Seq<Seq<char>> {
    if devices.len() == 0 {
        seq!["未发现设备"@]
    } else {
        devices.map_values(|d: DeviceTrayProjection| menu_label_line(d))
    }
}

/// The tooltip of the summary icon: the product name and "未发现设备" while no
/// device is known, otherwise one line per device.
pub fn summary_tooltip_text(devices: &Vec<DeviceTrayProjection>) -> (r: String)
    ensures
        devices@.len() == 0 ==> r@ == PRODUCT_NAME@ + " — 未发现设备"@,
        devices@.len() > 0 ==> r@ == summary_tooltip(devices@),
{
    match summarize_devices(devices) {
        Some(summary) => summary.tooltip,
        None => {
            let mut r = string_from(PRODUCT_NAME);
            push_str(&mut r, " — 未发现设备");
            r
        },
    }
}

/// The items of the device submenu, in order: the single item "未发现设备"
/// while no device is known, otherwise one label per device.
pub fn device_menu_labels(devices: &Vec<DeviceTrayProjection>) -> (r: Vec<String>)
    ensures
        devices@.len() == 0 ==> r@.len() == 1 && r@[0]@ == "未发现设备"@,
        devices@.len() > 0 ==> r@.len() == devices@.len() && forall|i: int|
            0 <= i < r@.len() ==> #[trigger] r@[i]@ == menu_label_line(devices@[i]),
{
    let mut r: Vec<String> = Vec::new();
    if devices.len() == 0 {
        r.push(string_from("未发现设备"));
        return r;
    }
    let mut i: usize = 0;
    while i < devices.len()
        invariant
            i <= devices@.len(),
            r@.len() == i,
            forall|j: int| 0 <= j < i ==> #[trigger] r@[j]@ == menu_label_line(devices@[j]),
        decreases devices.len() - i,
    {
        r.push(device_menu_label(&devices[i]));
        i = i + 1;
    }
    r
}

/// How many entries are online.
pub open spec fn online_count(devices: Seq<DeviceTrayProjection>) -> nat {
    devices.filter(|d: DeviceTrayProjection| d.online).len()
}

/// The status line of the menu: `"Logitech 设备：{online}/{total} 在线"`.
pub open spec fn status_line(devices: Seq<DeviceTrayProjection>) -> Seq<char> {
    "Logitech 设备："@ + decimal(online_count(devices)) + "/"@ + decimal(devices.len() as nat)
        + " 在线"@
}

/// The status line of the menu: `"Logitech 设备：{online}/{total} 在线"`.
pub fn status_text(devices: &Vec<DeviceTrayProjection>) -> (r: String)
    ensures
        r@ == status_line(devices@),
{
    let ghost pred = |d: DeviceTrayProjection| d.online;
    let mut online: u64 = 0;
    let mut i: usize = 0;
    while i < devices.len()
        invariant
            i <= devices@.len(),
            pred == (|d: DeviceTrayProjection| d.online),
            online as nat == devices@.take(i as int).filter(pred).len(),
            online <= i,
        decreases devices.len() - i,
    {
        assert(devices@.take(i + 1) =~= devices@.take(i as int).push(devices@[i as int]));
        proof {
            devices@.take(i as int).lemma_filter_push(devices@[i as int], pred);
        }
        if devices[i].online {
            online = online + 1;
        }
        i = i + 1;
    }
    assert(devices@.take(devices.len() as int) =~= devices@);
    let mut digits: Vec<char> = Vec::new();
    push_decimal(&mut digits, online);
    let mut total: Vec<char> = Vec::new();
    push_decimal(&mut total, devices.len() as u64);
    assert(digits@ =~= decimal(online_count(devices@)));
    assert(total@ =~= decimal(devices@.len() as nat));
    let mut r = string_from("Logitech 设备：");
    push_str(&mut r, string_of(&digits).as_str());
    push_str(&mut r, "/");
    push_str(&mut r, string_of(&total).as_str());
    push_str(&mut r, " 在线");
    r
}

// ---------------------------------------------------------------------------
// The summary icon
// ---------------------------------------------------------------------------

/// The icon the summary tray shows.
#[derive(Clone, Copy, Debug, PartialEq, Eq, Structural)]
pub enum TrayIconChoice {
    /// No device known.
    Neutral,
    /// The percentage as text, live.
    Text { percent: u8, charging: bool },
    /// The percentage as text, greyed: the lowest reading is stale.
    InactiveText { percent: u8 },
    /// A battery glyph, live.
    Battery { percent: u8, charging: bool },
    /// A battery glyph, greyed: the lowest reading is stale.
    InactiveBattery { percent: u8 },
}

/// The icon for a summary in the chosen view mode: neutral without devices;
/// otherwise the percentage as text or a battery glyph, greyed when the
/// lowest reading is stale.
pub open spec fn icon_for(summary: Option<TraySummary>, text_mode: bool) -> TrayIconChoice {
    match summary {
        None => TrayIconChoice::Neutral,
        Some(s) => if text_mode {
            if s.online {
                TrayIconChoice::Text { percent: s.battery_percent, charging: s.is_charging }
            } else {
                TrayIconChoice::InactiveText { percent: s.battery_percent }
            }
        } else if s.online {
            TrayIconChoice::Battery { percent: s.battery_percent, charging: s.is_charging }
        } else {
            TrayIconChoice::InactiveBattery { percent: s.battery_percent }
        },
    }
}

/// The icon for a summary in the chosen view mode.
pub fn summary_icon(summary: &Option<TraySummary>, text_mode: bool) -> (r: TrayIconChoice)
    ensures
        r == icon_for(*summary, text_mode),
{
    match summary {
        None => TrayIconChoice::Neutral,
        Some(s) => {
            if text_mode {
                if s.online {
                    TrayIconChoice::Text { percent: s.battery_percent, charging: s.is_charging }
                } else {
                    TrayIconChoice::InactiveText { percent: s.battery_percent }
                }
            } else if s.online {
                TrayIconChoice::Battery { percent: s.battery_percent, charging: s.is_charging }
            } else {
                TrayIconChoice::InactiveBattery { percent: s.battery_percent }
            }
        },
    }
}

// ---------------------------------------------------------------------------
// Menu
// ---------------------------------------------------------------------------

/// The identifier of a preset menu item: `"{prefix}:{value}"`.
pub fn preset_id(prefix: &str, value: u64) -> (r: String)
    ensures
        r@ == prefix@ + ":"@ + decimal(value as nat),
{
    let mut r = string_from(prefix);
    push_str(&mut r, ":");
    let mut digits: Vec<char> = Vec::new();
    push_decimal(&mut digits, value);
    assert(digits@ =~= decimal(value as nat));
    push_str(&mut r, string_of(&digits).as_str());
    r
}

/// Whether the preset item `item_id` of the submenu `prefix` is the one to
/// show checked for `value`: exactly one item of a submenu is checked.
pub fn preset_checked(item_id: &str, prefix: &str, value: u64) -> (r: bool)
    ensures
        r == (item_id@ == prefix@ + ":"@ + decimal(value as nat)),
{
    let target = preset_id(prefix, value);
    str_eq(item_id, target.as_str())
}

/// A preset choice as it is shown and stored: its label and its value.
pub open spec fn preset_view(p: (String, u64)) -> (Seq<char>, u64) {
    (p.0@, p.1)
}

fn push_preset(presets: &mut Vec<(String, u64)>, label: &str, value: u64)
    ensures
        final(presets)@.map_values(|p: (String, u64)| preset_view(p)) == old(presets)@.map_values(
            |p: (String, u64)| preset_view(p),
        ).push((label@, value)),
{
    let ghost before = presets@;
    presets.push((string_from(label), value));
    assert(presets@.map_values(|p: (String, u64)| preset_view(p)) =~= before.map_values(
        |p: (String, u64)| preset_view(p),
    ).push((label@, value)));
}

/// The choices of the backstop re-read interval, in seconds.
pub fn poll_presets() -> (r: Vec<(String, u64)>)
    ensures
        r@.map_values(|p: (String, u64)| preset_view(p)) == seq![
            ("15 秒"@, 15u64),
            ("30 秒"@, 30u64),
            ("1 分钟"@, 60u64),
            ("2 分钟"@, 120u64),
            ("3 分钟"@, 180u64),
            ("5 分钟"@, 300u64),
            ("15 分钟"@, 900u64),
        ],
{
    let mut r: Vec<(String, u64)> = Vec::new();
    assert(r@.map_values(|p: (String, u64)| preset_view(p)) =~= Seq::empty());
    push_preset(&mut r, "15 秒", 15);
    push_preset(&mut r, "30 秒", 30);
    push_preset(&mut r, "1 分钟", 60);
    push_preset(&mut r, "2 分钟", 120);
    push_preset(&mut r, "3 分钟", 180);
    push_preset(&mut r, "5 分钟", 300);
    push_preset(&mut r, "15 分钟", 900);
    assert(r@.map_values(|p: (String, u64)| preset_view(p)) =~= seq![
        ("15 秒"@, 15u64),
        ("30 秒"@, 30u64),
        ("1 分钟"@, 60u64),
        ("2 分钟"@, 120u64),
        ("3 分钟"@, 180u64),
        ("5 分钟"@, 300u64),
        ("15 分钟"@, 900u64),
    ]);
    r
}

/// The choices of the low-battery threshold, in percent.
pub fn threshold_presets() -> (r: Vec<(String, u64)>)
    ensures
        r@.map_values(|p: (String, u64)| preset_view(p)) == seq![
            ("5%"@, 5u64),
            ("10%"@, 10u64),
            ("15%"@, 15u64),
            ("20%"@, 20u64),
            ("25%"@, 25u64),
            ("30%"@, 30u64),
        ],
{
    let mut r: Vec<(String, u64)> = Vec::new();
    assert(r@.map_values(|p: (String, u64)| preset_view(p)) =~= Seq::empty());
    push_preset(&mut r, "5%", 5);
    push_preset(&mut r, "10%", 10);
    push_preset(&mut r, "15%", 15);
    push_preset(&mut r, "20%", 20);
    push_preset(&mut r, "25%", 25);
    push_preset(&mut r, "30%", 30);
    assert(r@.map_values(|p: (String, u64)| preset_view(p)) =~= seq![
        ("5%"@, 5u64),
        ("10%"@, 10u64),
        ("15%"@, 15u64),
        ("20%"@, 20u64),
        ("25%"@, 25u64),
        ("30%"@, 30u64),
    ]);
    r
}

/// The choices of the time between repeated notifications, in minutes.
pub fn cooldown_presets() -> (r: Vec<(String, u64)>)
    ensures
        r@.map_values(|p: (String, u64)| preset_view(p)) == seq![
            ("30 分钟"@, 30u64),
            ("1 小时"@, 60u64),
            ("2 小时"@, 120u64),
            ("4 小时"@, 240u64),
            ("8 小时"@, 480u64),
        ],
{
    let mut r: Vec<(String, u64)> = Vec::new();
    assert(r@.map_values(|p: (String, u64)| preset_view(p)) =~= Seq::empty());
    push_preset(&mut r, "30 分钟", 30);
    push_preset(&mut r, "1 小时", 60);
    push_preset(&mut r, "2 小时", 120);
    push_preset(&mut r, "4 小时", 240);
    push_preset(&mut r, "8 小时", 480);
    assert(r@.map_values(|p: (String, u64)| preset_view(p)) =~= seq![
        ("30 分钟"@, 30u64),
        ("1 小时"@, 60u64),
        ("2 小时"@, 120u64),
        ("4 小时"@, 240u64),
        ("8 小时"@, 480u64),
    ]);
    r
}

/// What a menu click asks for.
#[derive(Clone, Copy, Debug, PartialEq, Eq, Structural)]
pub enum MenuCommand {
    Refresh,
    Exit,
    ToggleAutostart,
    ToggleViewMode,
    ToggleNotifications,
    OpenConfig,
    SetPollInterval(u64),
    SetThreshold(u8),
    SetCooldown(u64),
    /// An identifier that names nothing, or a preset whose value does not
    /// parse: the click is ignored.
    Ignored,
}

/// The command of a menu item identifier: the fixed items by name, the
/// presets as `"poll:{seconds}"`, `"threshold:{percent}"` and
/// `"cooldown:{minutes}"`.
pub open spec fn menu_command_of(id: Seq<char>) -> MenuCommand {
    if id == "refresh"@ {
        MenuCommand::Refresh
    } else if id == "exit"@ {
        MenuCommand::Exit
    } else if id == "autostart"@ {
        MenuCommand::ToggleAutostart
    } else if id == "viewmode"@ {
        MenuCommand::ToggleViewMode
    } else if id == "notify"@ {
        MenuCommand::ToggleNotifications
    } else if id == "openconfig"@ {
        MenuCommand::OpenConfig
    } else if strip_prefix_spec(id, "poll:"@) is Some {
        match parse_unsigned(strip_prefix_spec(id, "poll:"@)->0, u64::MAX as nat) {
            Some(v) => MenuCommand::SetPollInterval(v as u64),
            None => MenuCommand::Ignored,
        }
    } else if strip_prefix_spec(id, "threshold:"@) is Some {
        match parse_unsigned(strip_prefix_spec(id, "threshold:"@)->0, u8::MAX as nat) {
            Some(v) => MenuCommand::SetThreshold(v as u8),
            None => MenuCommand::Ignored,
        }
    } else if strip_prefix_spec(id, "cooldown:"@) is Some {
        match parse_unsigned(strip_prefix_spec(id, "cooldown:"@)->0, u64::MAX as nat) {
            Some(v) => MenuCommand::SetCooldown(v as u64),
            None => MenuCommand::Ignored,
        }
    } else {
        MenuCommand::Ignored
    }
}

/// The command of a menu item identifier.
pub fn parse_menu_id(id: &str) -> (r: MenuCommand)
    ensures
        r == menu_command_of(id@),
{
    if str_eq(id, "refresh") {
        return MenuCommand::Refresh;
    }
    if str_eq(id, "exit") {
        return MenuCommand::Exit;
    }
    if str_eq(id, "autostart") {
        return MenuCommand::ToggleAutostart;
    }
    if str_eq(id, "viewmode") {
        return MenuCommand::ToggleViewMode;
    }
    if str_eq(id, "notify") {
        return MenuCommand::ToggleNotifications;
    }
    if str_eq(id, "openconfig") {
        return MenuCommand::OpenConfig;
    }
    match strip_prefix(id, "poll:") {
        Some(v) => {
            return match parse_decimal(v.as_str(), u64::MAX) {
                Some(secs) => MenuCommand::SetPollInterval(secs),
                None => MenuCommand::Ignored,
            };
        },
        None => {},
    }
    match strip_prefix(id, "threshold:") {
        Some(v) => {
            return match parse_decimal(v.as_str(), 255) {
                Some(t) => MenuCommand::SetThreshold(t as u8),
                None => MenuCommand::Ignored,
            };
        },
        None => {},
    }
    match strip_prefix(id, "cooldown:") {
        Some(v) => {
            return match parse_decimal(v.as_str(), u64::MAX) {
                Some(minutes) => MenuCommand::SetCooldown(minutes),
                None => MenuCommand::Ignored,
            };
        },
        None => {},
    }
    MenuCommand::Ignored
}

/// Whether a menu command changes the stored settings, and so asks for
/// them to be saved: every toggle and every preset, no other command.
pub open spec fn saves_settings(command: MenuCommand) -> bool {
    match command {
        MenuCommand::ToggleAutostart | MenuCommand::ToggleViewMode
        | MenuCommand::ToggleNotifications | MenuCommand::SetPollInterval(_)
        | MenuCommand::SetThreshold(_) | MenuCommand::SetCooldown(_) => true,
        _ => false,
    }
}

/// `after` is `before` with the setting of `command` applied; `checked` is
/// the new check state of a toggled item.
pub open spec fn settings_follow(
    before: AppConfig,
    after: AppConfig,
    command: MenuCommand,
    checked: bool,
) -> bool {
    &&& after.autostart == if command == MenuCommand::ToggleAutostart {
        checked
    } else {
        before.autostart
    }
    &&& after.view_mode@ == if command == MenuCommand::ToggleViewMode {
        if checked {
            "text"@
        } else {
            "icon"@
        }
    } else {
        before.view_mode@
    }
    &&& after.notifications_enabled == if command == MenuCommand::ToggleNotifications {
        checked
    } else {
        before.notifications_enabled
    }
    &&& after.poll_interval_seconds == match command {
        MenuCommand::SetPollInterval(secs) => secs,
        _ => before.poll_interval_seconds,
    }
    &&& after.low_battery_threshold == match command {
        MenuCommand::SetThreshold(t) => t,
        _ => before.low_battery_threshold,
    }
    &&& after.low_battery_cooldown_minutes == match command {
        MenuCommand::SetCooldown(minutes) => minutes,
        _ => before.low_battery_cooldown_minutes,
    }
    &&& after.selected_device_id == before.selected_device_id
    &&& after.log_level == before.log_level
}

/// The settings after a menu command; `checked` is the new check state of
/// a toggled item. True when the settings are to be saved: after every
/// toggle and every preset, never for the other commands.
pub fn apply_menu_setting(cfg: &mut AppConfig, command: MenuCommand, checked: bool) -> (save: bool)
    ensures
        save == saves_settings(command),
        settings_follow(*old(cfg), *final(cfg), command, checked),
{
    match command {
        MenuCommand::ToggleAutostart => {
            cfg.autostart = checked;
            true
        },
        MenuCommand::ToggleViewMode => {
            cfg.view_mode = if checked {
                string_from("text")
            } else {
                string_from("icon")
            };
            true
        },
        MenuCommand::ToggleNotifications => {
            cfg.notifications_enabled = checked;
            true
        },
        MenuCommand::SetPollInterval(secs) => {
            cfg.poll_interval_seconds = secs;
            true
        },
        MenuCommand::SetThreshold(t) => {
            cfg.low_battery_threshold = t;
            true
        },
        MenuCommand::SetCooldown(minutes) => {
            cfg.low_battery_cooldown_minutes = minutes;
            true
        },
        _ => false,
    }
}

/// The command for the scanner that a menu command asks for: a scan now,
/// a new backstop interval, or a stop.
pub open spec fn worker_command_of(command: MenuCommand) -> Option<WorkerCommand> {
    match command {
        MenuCommand::Refresh => Some(WorkerCommand::Refresh),
        MenuCommand::SetPollInterval(secs) => Some(WorkerCommand::SetSafetyInterval(secs)),
        MenuCommand::Exit => Some(WorkerCommand::Exit),
        _ => None,
    }
}

/// What a menu command does to the program's state: the settings change as
/// `apply_menu_setting` says and the first result tells whether to save
/// them; the notifier follows the notification switch, the threshold and
/// the cooldown presets; the second result is the command for the scanner.
pub fn menu_step(
    cfg: &mut AppConfig,
    notifier: &mut Notifier,
    command: MenuCommand,
    checked: bool,
) -> (r: (bool, Option<WorkerCommand>))
    ensures
        r.0 == saves_settings(command),
        settings_follow(*old(cfg), *final(cfg), command, checked),
        final(notifier).is_enabled() == if command == MenuCommand::ToggleNotifications {
            checked
        } else {
            old(notifier).is_enabled()
        },
        final(notifier).threshold_spec() == match command {
            MenuCommand::SetThreshold(t) => t,
            _ => old(notifier).threshold_spec(),
        },
        final(notifier).cooldown_spec() as int == match command {
            MenuCommand::SetCooldown(minutes) => if minutes * 60 <= u64::MAX {
                minutes * 60
            } else {
                u64::MAX as int
            },
            _ => old(notifier).cooldown_spec() as int,
        },
        final(notifier).sent_at() == old(notifier).sent_at(),
        r.1 == worker_command_of(command),
{
    let save = apply_menu_setting(cfg, command, checked);
    match command {
        MenuCommand::ToggleNotifications => notifier.set_enabled(checked),
        MenuCommand::SetThreshold(t) => notifier.set_threshold(t),
        MenuCommand::SetCooldown(minutes) => notifier.set_cooldown(minutes),
        _ => {},
    }
    let worker = match command {
        MenuCommand::Refresh => Some(WorkerCommand::Refresh),
        MenuCommand::SetPollInterval(secs) => Some(WorkerCommand::SetSafetyInterval(secs)),
        MenuCommand::Exit => Some(WorkerCommand::Exit),
        _ => None,
    };
    (save, worker)
}

/// Everything the tray shows after one device event.
pub struct DeviceStep {
    /// The deduplicated entries, ordered by display name.
    pub devices: Vec<DeviceTrayProjection>,
    /// The status line of the menu.
    pub status: String,
    /// The lowest-battery summary, if any device is known.
    pub summary: Option<TraySummary>,
    /// The icon of the summary tray.
    pub icon: TrayIconChoice,
    /// The tooltip of the summary tray.
    pub tooltip: String,
    /// The items of the device submenu.
    pub menu_labels: Vec<String>,
    /// The title of the low-battery notification to show, if one is due.
    pub toast: Option<String>,
}

/// One device event as the tray handles it: an update is first checked for
/// a due low-battery notification; then the event is applied to the device
/// map, the entries are deduplicated, and the status line, summary, icon,
/// tooltip and device menu are rebuilt from them. Showing the notification
/// and calling `record_sent` after its delivery is the caller's part.
pub fn device_step(
    devices: &mut TrayDevices,
    notifier: &Notifier,
    event: DeviceEvent,
    now_ms: u64,
    text_mode: bool,
) -> (r: DeviceStep)
    ensures
        match event {
            DeviceEvent::Update(state) => {
                &&& final(devices)@ == old(devices)@.insert(state.device_key@, projection_of(state))
                &&& (r.toast is Some <==> notifier.due(state, now_ms))
                &&& r.toast matches Some(t) ==> t@ == low_battery_title_spec(state)
            },
            DeviceEvent::Gone(key) => {
                &&& final(devices)@ == if old(devices)@.contains_key(key@) {
                    old(devices)@.insert(key@, gone_projection(old(devices)@[key@]))
                } else {
                    old(devices)@
                }
                &&& r.toast is None
            },
        },
        exists|v: Seq<DeviceTrayProjection>|
            listed_by_key(final(devices)@, v) && is_dedup_of(v, r.devices@),
        r.status@ == status_line(r.devices@),
        r.devices@.len() == 0 <==> r.summary is None,
        r.summary matches Some(s) ==> {
            &&& exists|m: int|
                is_first_lowest(r.devices@, m) && s.battery_percent == r.devices@[m].battery_percent
                    && s.is_charging == r.devices@[m].is_charging && s.online
                    == r.devices@[m].online
            &&& s.tooltip@ == summary_tooltip(r.devices@)
        },
        r.icon == icon_for(r.summary, text_mode),
        r.tooltip@ == tooltip_text_for(r.devices@),
        r.menu_labels@.map_values(|l: String| l@) == menu_label_texts(r.devices@),
{
    let toast = match &event {
        DeviceEvent::Update(state) => notifier.low_battery_action(state, now_ms),
        DeviceEvent::Gone(_) => None,
    };
    apply_device_event(devices, event);
    let values = devices.values();
    let list = deduplicate_device_trays(values);
    let status = status_text(&list);
    let summary = summarize_devices(&list);
    let icon = summary_icon(&summary, text_mode);
    let tooltip = summary_tooltip_text(&list);
    let menu_labels = device_menu_labels(&list);
    assert(menu_labels@.map_values(|l: String| l@) =~= menu_label_texts(list@));
    DeviceStep { devices: list, status, summary, icon, tooltip, menu_labels, toast }
}

/// An online reading of a device beats any stale one: when one entry of a
/// device is online, its surviving entry is online.
pub proof fn lemma_online_wins_over_stale(
    devices: Seq<DeviceTrayProjection>,
    r: Seq<DeviceTrayProjection>,
    i: int,
    j: int,
)
    requires
        is_dedup_of(devices, r),
        0 <= i < r.len(),
        0 <= j < devices.len(),
        group_of(r[i]) == group_of(devices[j]),
        devices[j].online,
    ensures
        r[i].online,
{
    lemma_dedup_survivor_preferred(devices, r, i, j);
}

/// Between equally fresh entries the receiver wins: when a device has an
/// online receiver entry, its surviving entry is an online receiver entry.
pub proof fn lemma_receiver_wins_among_online(
    devices: Seq<DeviceTrayProjection>,
    r: Seq<DeviceTrayProjection>,
    i: int,
    j: int,
)
    requires
        is_dedup_of(devices, r),
        0 <= i < r.len(),
        0 <= j < devices.len(),
        group_of(r[i]) == group_of(devices[j]),
        devices[j].online,
        devices[j].transport == Transport::Receiver,
    ensures
        r[i].online,
        r[i].transport == Transport::Receiver,
{
    lemma_dedup_survivor_preferred(devices, r, i, j);
}

/// The summary shows the lowest battery level of all entries, and there is
/// only one entry it can be taken from.
pub proof fn lemma_summary_is_lowest(devices: Seq<DeviceTrayProjection>, m1: int, m2: int)
    requires
        is_first_lowest(devices, m1),
        is_first_lowest(devices, m2),
    ensures
        m1 == m2,
        forall|j: int|
            0 <= j < devices.len() ==> devices[m1].battery_percent <= #[trigger] devices[j].battery_percent,
{
    if m1 < m2 {
        assert(devices[m2].battery_percent < devices[m1].battery_percent);
        assert(devices[m1].battery_percent <= devices[m2].battery_percent);
    } else if m2 < m1 {
        assert(devices[m1].battery_percent < devices[m2].battery_percent);
        assert(devices[m2].battery_percent <= devices[m1].battery_percent);
    }
}

/// Ticking "show the percentage" selects the text view and unticking it the
/// icon view: after the view-mode toggle the settings are in text mode
/// (`AppConfig::text_mode`) exactly when the item is checked.
pub proof fn lemma_view_toggle_sets_text_mode(before: AppConfig, after: AppConfig, checked: bool)
    requires
        settings_follow(before, after, MenuCommand::ToggleViewMode, checked),
    ensures
        eq_ignore_ascii_case_spec(after.view_mode@, "text"@) == checked,
{
    reveal_strlit("text");
    reveal_strlit("icon");
    if !checked {
        assert(after.view_mode@[0] == 'i');
        assert("text"@[0] == 't');
        assert(ascii_lower('i') != ascii_lower('t'));
    }
}

/// An update shows the reading as it came: the stored entry for its key is
/// online and has the reading's name, level, charging flag and transport.
pub proof fn lemma_update_shows_reading(
    before: Map<Seq<char>, DeviceTrayProjection>,
    after: Map<Seq<char>, DeviceTrayProjection>,
    state: BatteryState,
)
    requires
        after == before.insert(state.device_key@, projection_of(state)),
    ensures
        after.contains_key(state.device_key@),
        after[state.device_key@].device_key == state.device_key,
        after[state.device_key@].display_name == state.display_name,
        after[state.device_key@].battery_percent == state.battery_percent,
        after[state.device_key@].is_charging == state.is_charging,
        after[state.device_key@].transport == state.transport,
        after[state.device_key@].online,
{
}

/// The level an icon shows.
pub open spec fn icon_percent(icon: TrayIconChoice) -> Option<u8> {
    match icon {
        TrayIconChoice::Neutral => None,
        TrayIconChoice::Text { percent, .. } => Some(percent),
        TrayIconChoice::InactiveText { percent } => Some(percent),
        TrayIconChoice::Battery { percent, .. } => Some(percent),
        TrayIconChoice::InactiveBattery { percent } => Some(percent),
    }
}

/// Whether an icon shows the charging mark.
pub open spec fn icon_charging(icon: TrayIconChoice) -> bool {
    match icon {
        TrayIconChoice::Text { charging, .. } => charging,
        TrayIconChoice::Battery { charging, .. } => charging,
        _ => false,
    }
}

/// Whether an icon draws the level as a number.
pub open spec fn icon_is_text(icon: TrayIconChoice) -> bool {
    icon is Text || icon is InactiveText
}

/// Whether an icon is greyed.
pub open spec fn icon_is_greyed(icon: TrayIconChoice) -> bool {
    icon is InactiveText || icon is InactiveBattery
}

/// The summary icon shows the summary: neutral without devices; otherwise
/// the summary's level, as a number exactly in text mode, greyed exactly
/// when the lowest reading is stale, and, when it is live, with the charging
/// mark exactly when that device charges, in text mode as in battery mode.
pub proof fn lemma_icon_shows_summary(summary: Option<TraySummary>, text_mode: bool)
    ensures
        (icon_for(summary, text_mode) == TrayIconChoice::Neutral) <==> summary is None,
        summary matches Some(s) ==> {
            let icon = icon_for(summary, text_mode);
            &&& icon_percent(icon) == Some(s.battery_percent)
            &&& icon_is_text(icon) == text_mode
            &&& icon_is_greyed(icon) == !s.online
            &&& s.online ==> icon_charging(icon) == s.is_charging
        },
{
}

} // verus!
