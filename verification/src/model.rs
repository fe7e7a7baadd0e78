//! Battery readings, transports, and the device-name normalisation that
//! identifies one physical device seen through several transports.
use vstd::prelude::*;

use crate::dedup::{
    deduplicate_by_name, group_of, is_dedup_of, lemma_dedup_survivor_preferred, Ranked,
};
use crate::sort::{is_stable_sort_of, stable_sort, KeyOrder};
use crate::text::{
    chars_of, collapse_whitespace, collapse_ws, compare_str, lemma_seq_lt_irreflexive,
    lemma_seq_lt_total, lemma_seq_lt_transitive, lower_text, seq_le, seq_lt, string_of,
    ends_with, strip_suffix, strip_suffix_spec, to_lowercase, trim, trim_ws, Order, ascii_lower,
    ascii_lowercase, eq_ignore_ascii_case_spec, is_ascii_text, is_ws, lemma_collapse_chars,
    lemma_collapse_map, lemma_join_with_space_push, lemma_words_append_ws, lemma_words_concat,
    lemma_words_single, words, lemma_collapse_trimmed, trim_start_ws, trim_end_ws,
};

verus! {

/// How a battery reading reached the host.
#[derive(Clone, Copy, Debug, PartialEq, Eq, Structural, PartialOrd, Ord, Hash)]
pub enum Transport {
    Receiver,
    Bluetooth,
}

/// Position of a transport in the preference order: the receiver (event
/// driven HID++) comes before Bluetooth (periodically polled).
pub open spec fn transport_rank(t: Transport) -> int {
    match t {
        Transport::Receiver => 0,
        Transport::Bluetooth => 1,
    }
}

impl Transport {
    /// The transport's display label.
    pub fn label(self) -> (r: &'static str)
        ensures
            r@ == match self {
                Transport::Receiver => "Receiver"@,
                Transport::Bluetooth => "Bluetooth"@,
            },
    {
        match self {
            Transport::Receiver => "Receiver",
            Transport::Bluetooth => "Bluetooth",
        }
    }

    /// The transport's preference rank (lower is preferred).
    pub fn rank(self) -> (r: u8)
        ensures
            r as int == transport_rank(self),
    {
        match self {
            Transport::Receiver => 0,
            Transport::Bluetooth => 1,
        }
    }
}

/// One battery reading of one device.
#[derive(Clone, Debug, PartialEq, Eq)]
pub struct BatteryState {
    pub device_key: String,
    pub display_name: String,
    pub pid: u16,
    pub device_index: u8,
    pub battery_percent: u8,
    pub is_charging: bool,
    pub transport: Transport,
}

impl BatteryState {
    /// A field-by-field copy.
    pub fn duplicate(&self) -> (r: Self)
        ensures
            r == *self,
    {
        BatteryState {
            device_key: self.device_key.clone(),
            display_name: self.display_name.clone(),
            pid: self.pid,
            device_index: self.device_index,
            battery_percent: self.battery_percent,
            is_charging: self.is_charging,
            transport: self.transport,
        }
    }
}

/// The transport suffixes removed from a normalised name, in the order in
/// which they are tried; at most one is removed.
pub open spec fn strip_transport_suffix_spec(s: Seq<char>) -> Seq<char> {
    if strip_suffix_spec(s, " (bluetooth)"@) is Some {
        strip_suffix_spec(s, " (bluetooth)"@)->0
    } else if strip_suffix_spec(s, " bluetooth"@) is Some {
        strip_suffix_spec(s, " bluetooth"@)->0
    } else if strip_suffix_spec(s, " wireless keyboard"@) is Some {
        strip_suffix_spec(s, " wireless keyboard"@)->0
    } else if strip_suffix_spec(s, " wireless mouse"@) is Some {
        strip_suffix_spec(s, " wireless mouse"@)->0
    } else {
        s
    }
}

/// The name under which one physical device is recognised across
/// transports: whitespace collapsed, lower-cased, one transport suffix
/// removed, trimmed.
pub open spec fn normalized_name(name: Seq<char>) -> Seq<char> {
    trim_ws(strip_transport_suffix_spec(lower_text(collapse_ws(name))))
}

/// Removes the first of the known transport suffixes that `lowered` ends
/// with (if any) and trims the result.
pub fn strip_transport_suffix(lowered: &str) -> (r: String)
    ensures
        r@ == trim_ws(strip_transport_suffix_spec(lowered@)),
{
    let s = chars_of(lowered);
    let mut stripped = match strip_suffix(&s, &chars_of(" (bluetooth)")) {
        Some(v) => Some(v),
        None => None,
    };
    if stripped.is_none() {
        stripped = strip_suffix(&s, &chars_of(" bluetooth"));
    }
    if stripped.is_none() {
        stripped = strip_suffix(&s, &chars_of(" wireless keyboard"));
    }
    if stripped.is_none() {
        stripped = strip_suffix(&s, &chars_of(" wireless mouse"));
    }
    let body = match stripped {
        Some(v) => v,
        None => s,
    };
    let t = trim(&body);
    string_of(&t)
}

/// The normalised form of a device's display name.
pub fn normalized_device_name(name: &str) -> (r: String)
    ensures
        r@ == normalized_name(name@),
{
    let collapsed = string_of(&collapse_whitespace(&chars_of(name)));
    let lowered = to_lowercase(collapsed.as_str());
    strip_transport_suffix(lowered.as_str())
}

impl Ranked for BatteryState {
    open spec fn name_view(&self) -> Seq<char> {
        self.display_name@
    }

    open spec fn rank_view(&self) -> int {
        transport_rank(self.transport)
    }

    fn display_name_str(&self) -> (r: &str) {
        self.display_name.as_str()
    }

    fn rank(&self) -> (r: u8) {
        self.transport.rank()
    }
}

/// Collapses the same physical device reported by several transports: one
/// reading per normalised display name survives (the receiver's when both
/// transports report it, otherwise the first), ordered by display name.
pub fn deduplicate_devices(devices: Vec<BatteryState>) -> (r: Vec<BatteryState>)
    ensures
        is_dedup_of(devices@, r@),
{
    deduplicate_by_name(devices)
}

/// The order of `PollResult::sort_devices`: display name, then product id,
/// then device key.
pub open spec fn poll_order_le(a: BatteryState, b: BatteryState) -> bool {
    ||| seq_lt(a.display_name@, b.display_name@)
    ||| a.display_name@ == b.display_name@ && a.pid < b.pid
    ||| a.display_name@ == b.display_name@ && a.pid == b.pid && seq_le(
        a.device_key@,
        b.device_key@,
    )
}

impl KeyOrder for BatteryState {
    open spec fn key_le(self, other: Self) -> bool {
        poll_order_le(self, other)
    }

    proof fn lemma_key_le_reflexive(a: Self) {
    }

    proof fn lemma_key_le_transitive(a: Self, b: Self, c: Self) {
        lemma_seq_lt_total(a.display_name@, b.display_name@);
        lemma_seq_lt_total(b.display_name@, c.display_name@);
        if seq_lt(a.display_name@, b.display_name@) && seq_lt(b.display_name@, c.display_name@) {
            lemma_seq_lt_transitive(a.display_name@, b.display_name@, c.display_name@);
        }
        if seq_lt(a.device_key@, b.device_key@) && seq_lt(b.device_key@, c.device_key@) {
            lemma_seq_lt_transitive(a.device_key@, b.device_key@, c.device_key@);
        }
    }

    proof fn lemma_key_le_total(a: Self, b: Self) {
        lemma_seq_lt_total(a.display_name@, b.display_name@);
        lemma_seq_lt_total(a.device_key@, b.device_key@);
    }

    fn key_le_exec(&self, other: &Self) -> (r: bool) {
        match compare_str(self.display_name.as_str(), other.display_name.as_str()) {
            Order::Less => true,
            Order::Greater => {
                proof {
                    lemma_seq_lt_total(self.display_name@, other.display_name@);
                }
                false
            },
            Order::Equal => {
                if self.pid != other.pid {
                    self.pid < other.pid
                } else {
                    proof {
                        lemma_seq_lt_irreflexive(self.display_name@);
                    }
                    compare_str(self.device_key.as_str(), other.device_key.as_str())
                        != Order::Greater
                }
            },
        }
    }
}

/// An incremental change reported by a battery source.
#[derive(Clone, Debug)]
pub enum DeviceEvent {
    /// A fresh reading of a device.
    Update(BatteryState),
    /// The device with this key is no longer reported.
    Gone(String),
}

/// The readings and errors of one scan.
#[derive(Clone, Debug)]
pub struct PollResult {
    pub devices: Vec<BatteryState>,
    pub errors: Vec<String>,
}

impl Default for PollResult {
    fn default() -> (r: Self)
        ensures
            r.devices@.len() == 0,
            r.errors@.len() == 0,
    {
        PollResult { devices: Vec::new(), errors: Vec::new() }
    }
}

impl PollResult {
    /// Orders the readings by display name, then product id, then device
    /// key, keeping the scan order of readings equal in all three.
    pub fn sort_devices(&mut self)
        ensures
            is_stable_sort_of(old(self).devices@, final(self).devices@),
            final(self).errors == old(self).errors,
    {
        let mut devices: Vec<BatteryState> = Vec::new();
        std::mem::swap(&mut devices, &mut self.devices);
        self.devices = stable_sort(devices);
    }
}

/// When one physical device is reported through its receiver, the reading
/// that survives deduplication for it is a receiver reading.
pub proof fn lemma_receiver_wins_tie(
    devices: Seq<BatteryState>,
    r: Seq<BatteryState>,
    i: int,
    j: int,
)
    requires
        is_dedup_of(devices, r),
        0 <= i < r.len(),
        0 <= j < devices.len(),
        group_of(r[i]) == group_of(devices[j]),
        devices[j].transport == Transport::Receiver,
    ensures
        r[i].transport == Transport::Receiver,
{
    lemma_dedup_survivor_preferred(devices, r, i, j);
}


/// Normalisation looks only at a name's words: names that differ only in
/// their whitespace normalise alike.
pub proof fn lemma_normalize_ignores_spacing(a: Seq<char>, b: Seq<char>)
    requires
        words(a) == words(b),
    ensures
        normalized_name(a) == normalized_name(b),
{
}

/// Whitespace before and after a name does not change its normalised form.
pub proof fn lemma_normalize_ignores_padding(p: Seq<char>, a: Seq<char>, q: Seq<char>)
    requires
        forall|i: int| 0 <= i < p.len() ==> is_ws(#[trigger] p[i]),
        forall|i: int| 0 <= i < q.len() ==> is_ws(#[trigger] q[i]),
    ensures
        normalized_name(p + a + q) == normalized_name(a),
{
    lemma_words_append_ws(p + a, q);
    if p.len() == 0 {
        assert(p + a =~= a);
    } else {
        assert(p.last() == p[p.len() - 1]);
        lemma_words_concat(p, a);
        lemma_words_append_ws(Seq::<char>::empty(), p);
        assert(Seq::<char>::empty() + p =~= p);
        assert(words(p) =~= Seq::<Seq<char>>::empty());
        assert(words(p) + words(a) =~= words(a));
    }
    lemma_normalize_ignores_spacing(p + a + q, a);
}

/// A run of whitespace inside a name counts as a single space.
pub proof fn lemma_normalize_ignores_run_length(a: Seq<char>, r: Seq<char>, b: Seq<char>)
    requires
        r.len() > 0,
        forall|i: int| 0 <= i < r.len() ==> is_ws(#[trigger] r[i]),
    ensures
        normalized_name(a + r + b) == normalized_name(a + seq![' '] + b),
{
    let sp = seq![' '];
    lemma_words_append_ws(a, r);
    lemma_words_append_ws(a, sp);
    assert((a + r).last() == r[r.len() - 1]);
    assert((a + sp).last() == ' ');
    lemma_words_concat(a + r, b);
    lemma_words_concat(a + sp, b);
    lemma_normalize_ignores_spacing(a + r + b, a + sp + b);
}

proof fn lemma_ascii_lower_keeps_ws()
    ensures
        forall|c: char| #[trigger] is_ws(ascii_lower(c)) == is_ws(c),
        ascii_lower(' ') == ' ',
{
    assert forall|c: char| #[trigger] is_ws(ascii_lower(c)) == is_ws(c) by {
        if 'A' <= c && c <= 'Z' {
            let u = ((c as u32) + 32) as u32;
            assert(97 <= u <= 122);
            assert((u as char) as u32 == u);
        }
    }
}

proof fn lemma_collapse_ascii(a: Seq<char>)
    requires
        is_ascii_text(a),
    ensures
        is_ascii_text(collapse_ws(a)),
        lower_text(collapse_ws(a)) == ascii_lowercase(collapse_ws(a)),
{
    let p = |c: char| (c as u32) < 128;
    assert forall|i: int| 0 <= i < a.len() implies p(#[trigger] a[i]) by {}
    lemma_collapse_chars(a, p);
    let c = collapse_ws(a);
    assert forall|i: int| 0 <= i < c.len() implies (#[trigger] c[i] as u32) < 128 by {
        assert(p(c[i]));
    }
}

/// For ASCII names, normalisation ignores letter case.
pub proof fn lemma_normalize_ignores_ascii_case(a: Seq<char>, b: Seq<char>)
    requires
        is_ascii_text(a),
        is_ascii_text(b),
        eq_ignore_ascii_case_spec(a, b),
    ensures
        normalized_name(a) == normalized_name(b),
{
    let f = |c: char| ascii_lower(c);
    lemma_ascii_lower_keeps_ws();
    assert(a.map_values(f) =~= b.map_values(f));
    lemma_collapse_map(a, f);
    lemma_collapse_map(b, f);
    lemma_collapse_ascii(a);
    lemma_collapse_ascii(b);
    assert(ascii_lowercase(collapse_ws(a)) =~= collapse_ws(a).map_values(f));
    assert(ascii_lowercase(collapse_ws(b)) =~= collapse_ws(b).map_values(f));
}

/// After a name with at least one word and whitespace, a word adds one
/// space and the word to the collapsed name.
proof fn lemma_collapse_with_word(a: Seq<char>, sep: Seq<char>, w: Seq<char>)
    requires
        words(a).len() > 0,
        sep.len() > 0,
        forall|i: int| 0 <= i < sep.len() ==> is_ws(#[trigger] sep[i]),
        w.len() > 0,
        forall|i: int| 0 <= i < w.len() ==> !is_ws(#[trigger] w[i]),
    ensures
        collapse_ws(a + sep + w) == collapse_ws(a) + seq![' '] + w,
{
    lemma_words_append_ws(a, sep);
    assert((a + sep).last() == sep[sep.len() - 1]);
    lemma_words_concat(a + sep, w);
    lemma_words_single(w);
    assert(words(a) + seq![w] =~= words(a).push(w));
    lemma_join_with_space_push(words(a), w);
}

/// A transport word written after a name, in any ASCII case and after any
/// whitespace, does not change the normalised form of an ASCII name whose
/// lower-cased form carries no transport suffix of its own: "(Bluetooth)"
/// and "Bluetooth" are both dropped.
pub proof fn lemma_normalize_ignores_bluetooth_suffix(a: Seq<char>, sep: Seq<char>, w: Seq<char>)
    requires
        is_ascii_text(a),
        words(a).len() > 0,
        sep.len() > 0,
        forall|i: int| 0 <= i < sep.len() ==> is_ws(#[trigger] sep[i]),
        is_ascii_text(w),
        ascii_lowercase(w) == "(bluetooth)"@ || ascii_lowercase(w) == "bluetooth"@,
        strip_transport_suffix_spec(ascii_lowercase(collapse_ws(a))) == ascii_lowercase(
            collapse_ws(a),
        ),
    ensures
        normalized_name(a + sep + w) == normalized_name(a),
{
    reveal_strlit("(bluetooth)");
    reveal_strlit("bluetooth");
    reveal_strlit(" (bluetooth)");
    reveal_strlit(" bluetooth");
    lemma_ascii_lower_keeps_ws();
    let lw = ascii_lowercase(w);
    assert(w.len() == lw.len());
    assert forall|i: int| 0 <= i < w.len() implies !is_ws(#[trigger] w[i]) by {
        assert(lw[i] == ascii_lower(w[i]));
        assert(is_ws(ascii_lower(w[i])) == is_ws(w[i]));
    }
    lemma_collapse_with_word(a, sep, w);
    lemma_collapse_ascii(a);
    let c = collapse_ws(a);
    let l = ascii_lowercase(c);
    let x = c + seq![' '] + w;
    assert(is_ascii_text(x)) by {
        assert forall|i: int| 0 <= i < x.len() implies (#[trigger] x[i] as u32) < 128 by {
            if i < c.len() {
                assert(x[i] == c[i]);
            } else if i > c.len() {
                assert(x[i] == w[i - c.len() - 1]);
            }
        }
    }
    let suf = seq![' '] + lw;
    assert(ascii_lowercase(x) =~= l + suf);
    let y = l + suf;
    let n = y.len();
    if lw == "(bluetooth)"@ {
        assert(suf =~= " (bluetooth)"@);
        assert(y.subrange(n - suf.len(), n as int) =~= suf);
        assert(y.subrange(0, n - suf.len()) =~= l);
    } else {
        assert(suf =~= " bluetooth"@);
        if ends_with(y, " (bluetooth)"@) {
            assert(y.subrange(n - 12, n as int)[11] == y[n - 1]);
            assert(y[n - 1] == 'h');
            assert(false);
        }
        assert(y.subrange(n - suf.len(), n as int) =~= suf);
        assert(y.subrange(0, n - suf.len()) =~= l);
    }
}

/// The normalised form of an ASCII name with at least one word whose
/// lower-cased form carries no transport suffix is that name with its
/// whitespace collapsed to single spaces and lower-cased. The same name in
/// any ASCII letter case with any whitespace around it, and the name
/// followed by whitespace and "(Bluetooth)" or "Bluetooth" in any ASCII
/// case, normalise to the same text.
pub proof fn lemma_normalized_ascii_name(
    x: Seq<char>,
    y: Seq<char>,
    p: Seq<char>,
    q: Seq<char>,
    sep: Seq<char>,
    w: Seq<char>,
)
    requires
        is_ascii_text(x),
        words(x).len() > 0,
        strip_transport_suffix_spec(ascii_lowercase(collapse_ws(x))) == ascii_lowercase(
            collapse_ws(x),
        ),
    ensures
        normalized_name(x) == ascii_lowercase(collapse_ws(x)),
        is_ascii_text(y) && eq_ignore_ascii_case_spec(x, y) && (forall|i: int|
            0 <= i < p.len() ==> is_ws(#[trigger] p[i])) && (forall|i: int|
            0 <= i < q.len() ==> is_ws(#[trigger] q[i])) ==> normalized_name(p + y + q)
            == ascii_lowercase(collapse_ws(x)),
        sep.len() > 0 && (forall|i: int| 0 <= i < sep.len() ==> is_ws(#[trigger] sep[i]))
            && is_ascii_text(w) && (ascii_lowercase(w) == "(bluetooth)"@ || ascii_lowercase(w)
            == "bluetooth"@) ==> normalized_name(x + sep + w) == ascii_lowercase(collapse_ws(x)),
{
    let c = collapse_ws(x);
    let l = ascii_lowercase(c);
    lemma_collapse_ascii(x);
    lemma_collapse_trimmed(x);
    lemma_ascii_lower_keeps_ws();
    assert(l.len() == c.len());
    assert(l[0] == ascii_lower(c[0]));
    assert(l.last() == ascii_lower(c.last()));
    assert(trim_start_ws(l) == l);
    assert(trim_end_ws(l) == l);
    if is_ascii_text(y) && eq_ignore_ascii_case_spec(x, y) && (forall|i: int|
        0 <= i < p.len() ==> is_ws(#[trigger] p[i])) && (forall|i: int|
        0 <= i < q.len() ==> is_ws(#[trigger] q[i])) {
        lemma_normalize_ignores_padding(p, y, q);
        lemma_normalize_ignores_ascii_case(x, y);
    }
    if sep.len() > 0 && (forall|i: int| 0 <= i < sep.len() ==> is_ws(#[trigger] sep[i]))
        && is_ascii_text(w) && (ascii_lowercase(w) == "(bluetooth)"@ || ascii_lowercase(w)
        == "bluetooth"@) {
        lemma_normalize_ignores_bluetooth_suffix(x, sep, w);
    }
}

} // verus!
