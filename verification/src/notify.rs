//! When to raise a low-battery notification, and its title.
//!
//! Time is a count of milliseconds on one monotonic clock chosen by the
//! caller; only differences between two readings of it matter.
use vstd::prelude::*;

use crate::model::BatteryState;
use crate::strmap::StrMap;
use crate::text::{decimal, push_decimal, push_str, string_from, string_of};

verus! {

/// Milliseconds elapsed from `earlier` to `now`; zero when `earlier` is
/// later (the clock does not run backwards, so such a reading is stale).
pub open spec fn elapsed_ms(now: u64, earlier: u64) -> int {
    if now >= earlier {
        now - earlier
    } else {
        0
    }
}

/// A cooldown of `minutes` in seconds, saturating at `u64::MAX`.
pub fn cooldown_minutes_to_secs(minutes: u64) -> (r: u64)
    ensures
        r as int == if minutes * 60 <= u64::MAX {
            minutes * 60
        } else {
            u64::MAX as int
        },
{
    match minutes.checked_mul(60) {
        Some(v) => v,
        None => u64::MAX,
    }
}

/// Decides and remembers low-battery notifications.
pub struct Notifier {
    enabled: bool,
    threshold: u8,
    cooldown_secs: u64,
    last_sent: StrMap<u64>,
}

impl Notifier {
    /// Whether notifications are on.
    pub closed spec fn is_enabled(&self) -> bool {
        self.enabled
    }

    /// The highest battery percentage that counts as low.
    pub closed spec fn threshold_spec(&self) -> u8 {
        self.threshold
    }

    /// The minimum time between two notifications for one device, in
    /// seconds.
    pub closed spec fn cooldown_spec(&self) -> u64 {
        self.cooldown_secs
    }

    /// When each device was last notified about.
    pub closed spec fn sent_at(&self) -> Map<Seq<char>, u64> {
        self.last_sent@
    }

    /// A notification about `state` is due at `now`: notifications are on,
    /// the device is not charging, its level is at or below the threshold,
    /// and it has not been notified about within the cooldown.
    pub open spec fn due(&self, state: BatteryState, now: u64) -> bool {
        &&& self.is_enabled()
        &&& !state.is_charging
        &&& state.battery_percent <= self.threshold_spec()
        &&& self.sent_at().contains_key(state.device_key@) ==> elapsed_ms(
            now,
            self.sent_at()[state.device_key@],
        ) >= self.cooldown_spec() * 1000
    }

    /// A notifier with nothing sent yet; the cooldown is given in minutes
    /// (saturating at the largest number of seconds).
    pub fn new(enabled: bool, threshold: u8, cooldown_minutes: u64) -> (r: Self)
        ensures
            r.is_enabled() == enabled,
            r.threshold_spec() == threshold,
            r.cooldown_spec() as int == if cooldown_minutes * 60 <= u64::MAX {
                cooldown_minutes * 60
            } else {
                u64::MAX as int
            },
            r.sent_at() == Map::<Seq<char>, u64>::empty(),
    {
        Notifier {
            enabled,
            threshold,
            cooldown_secs: cooldown_minutes_to_secs(cooldown_minutes),
            last_sent: StrMap::new(),
        }
    }

    /// Turns notifications on or off.
    pub fn set_enabled(&mut self, enabled: bool)
        ensures
            final(self).is_enabled() == enabled,
            final(self).threshold_spec() == old(self).threshold_spec(),
            final(self).cooldown_spec() == old(self).cooldown_spec(),
            final(self).sent_at() == old(self).sent_at(),
    {
        self.enabled = enabled;
    }

    /// Changes the low-battery threshold.
    pub fn set_threshold(&mut self, threshold: u8)
        ensures
            final(self).is_enabled() == old(self).is_enabled(),
            final(self).threshold_spec() == threshold,
            final(self).cooldown_spec() == old(self).cooldown_spec(),
            final(self).sent_at() == old(self).sent_at(),
    {
        self.threshold = threshold;
    }

    /// Changes the cooldown, given in minutes (saturating).
    pub fn set_cooldown(&mut self, cooldown_minutes: u64)
        ensures
            final(self).is_enabled() == old(self).is_enabled(),
            final(self).threshold_spec() == old(self).threshold_spec(),
            final(self).cooldown_spec() as int == if cooldown_minutes * 60 <= u64::MAX {
                cooldown_minutes * 60
            } else {
                u64::MAX as int
            },
            final(self).sent_at() == old(self).sent_at(),
    {
        self.cooldown_secs = cooldown_minutes_to_secs(cooldown_minutes);
    }

    /// The cooldown in seconds.
    pub fn cooldown_secs(&self) -> (r: u64)
        ensures
            r == self.cooldown_spec(),
    {
        self.cooldown_secs
    }

    /// Whether a notification about `state` is due at `now`.
    pub fn should_notify(&self, state: &BatteryState, now_ms: u64) -> (r: bool)
        ensures
            r == self.due(*state, now_ms),
    {
        if !self.enabled || state.is_charging || state.battery_percent > self.threshold {
            return false;
        }
        match self.last_sent.get(state.device_key.as_str()) {
            Some(last) => {
                let elapsed: u64 = if now_ms >= *last {
                    now_ms - *last
                } else {
                    0
                };
                (elapsed as u128) >= (self.cooldown_secs as u128) * 1000
            },
            None => true,
        }
    }

    /// Remembers that `key` was notified about at `now`.
    pub fn record_sent(&mut self, key: String, now_ms: u64)
        ensures
            final(self).is_enabled() == old(self).is_enabled(),
            final(self).threshold_spec() == old(self).threshold_spec(),
            final(self).cooldown_spec() == old(self).cooldown_spec(),
            final(self).sent_at() == old(self).sent_at().insert(key@, now_ms),
    {
        self.last_sent.insert(key, now_ms);
    }

    /// The notification to show about `state` at `now`: its title when one
    /// is due, nothing otherwise. The caller shows it and, once it was
    /// delivered, calls `record_sent`.
    pub fn low_battery_action(&self, state: &BatteryState, now_ms: u64) -> (a: Option<String>)
        ensures
            a is Some <==> self.due(*state, now_ms),
            a matches Some(t) ==> t@ == low_battery_title_spec(*state),
    {
        if self.should_notify(state, now_ms) {
            Some(low_battery_title(state))
        } else {
            None
        }
    }

    /// When a notification about `state` is due at `now`, hands it to
    /// `send_toast`; when that reports delivery, remembers the time and
    /// returns true. Otherwise nothing changes and the result is false.
    ///
    /// `send_toast` is called only when a notification is due: its
    /// precondition need hold only then, so a callback that must not run
    /// for a charging device, a level above the threshold or a device still
    /// within its cooldown may be passed. When one is due it is called, and
    /// the result is what it reported.
    pub fn maybe_notify_low_battery<F: FnOnce(&BatteryState) -> bool>(
        &mut self,
        state: &BatteryState,
        now_ms: u64,
        send_toast: F,
    ) -> (sent: bool)
        requires
            old(self).due(*state, now_ms) ==> call_requires(send_toast, (state,)),
        ensures
            !old(self).due(*state, now_ms) ==> !sent,
            old(self).due(*state, now_ms) ==> call_ensures(send_toast, (state,), sent),
            final(self).is_enabled() == old(self).is_enabled(),
            final(self).threshold_spec() == old(self).threshold_spec(),
            final(self).cooldown_spec() == old(self).cooldown_spec(),
            final(self).sent_at() == if sent {
                old(self).sent_at().insert(state.device_key@, now_ms)
            } else {
                old(self).sent_at()
            },
    {
        if !self.should_notify(state, now_ms) {
            return false;
        }
        if send_toast(state) {
            self.record_sent(state.device_key.clone(), now_ms);
            return true;
        }
        false
    }
}

/// The title of a low-battery notification: `"{name}: {percent}%"`.
pub open spec fn low_battery_title_spec(state: BatteryState) -> Seq<char> {
    state.display_name@ + ": "@ + decimal(state.battery_percent as nat) + "%"@
}

/// The title of a low-battery notification for `state`.
pub fn low_battery_title(state: &BatteryState) -> (r: String)
    ensures
        r@ == low_battery_title_spec(*state),
{
    let mut r = string_from(state.display_name.as_str());
    push_str(&mut r, ": ");
    let mut digits: Vec<char> = Vec::new();
    push_decimal(&mut digits, state.battery_percent as u64);
    push_str(&mut r, string_of(&digits).as_str());
    push_str(&mut r, "%");
    assert(digits@ =~= decimal(state.battery_percent as nat));
    r
}

/// No notification is ever due while notifications are off, while the
/// device charges, or while its level is above the threshold.
pub proof fn lemma_quiet_unless_low(n: Notifier, state: BatteryState, now: u64)
    requires
        !n.is_enabled() || state.is_charging || state.battery_percent > n.threshold_spec(),
    ensures
        !n.due(state, now),
{
}

/// After a notification about a device at `sent` was recorded, none about
/// it is due again before the cooldown has passed.
pub proof fn lemma_cooldown_suppresses_repeat(
    before: Notifier,
    after: Notifier,
    state: BatteryState,
    sent: u64,
    later: u64,
)
    requires
        after.sent_at() == before.sent_at().insert(state.device_key@, sent),
        after.cooldown_spec() == before.cooldown_spec(),
        sent <= later,
        later - sent < after.cooldown_spec() * 1000,
    ensures
        !after.due(state, later),
{
}

/// Once the cooldown has passed, a device that is still low, not charging,
/// and with notifications on, is due again.
pub proof fn lemma_due_again_after_cooldown(
    after: Notifier,
    state: BatteryState,
    sent: u64,
    later: u64,
)
    requires
        after.sent_at().contains_key(state.device_key@),
        after.sent_at()[state.device_key@] == sent,
        after.is_enabled(),
        !state.is_charging,
        state.battery_percent <= after.threshold_spec(),
        later >= sent + after.cooldown_spec() * 1000,
    ensures
        after.due(state, later),
{
}

} // verus!
