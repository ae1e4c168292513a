//! Whether packets are still being forwarded, for the liveness probe.
//!
//! Times are milliseconds since the process started; 0 stands for never.
use vstd::prelude::*;

use crate::text::{chars_of, parse_number, trim_range};

verus! {

/// Silence, in milliseconds, after which forwarding counts as stalled.
pub const DEFAULT_FORWARDING_SILENCE_THRESHOLD: u64 = 45_000;

/// Names the variable that overrides [`DEFAULT_FORWARDING_SILENCE_THRESHOLD`].
pub const FORWARDING_SILENCE_THRESHOLD_ENV: &'static str = "SFU_FORWARDING_SILENCE_MS";

/// How long, in milliseconds, a dropped inbound message counts as recent.
pub const DEFAULT_INBOUND_SATURATION_THRESHOLD: u64 = 15_000;

/// Names the variable that overrides [`DEFAULT_INBOUND_SATURATION_THRESHOLD`].
pub const INBOUND_SATURATION_THRESHOLD_ENV: &'static str = "SFU_INBOUND_SATURATION_MS";

/// Stands for a time at which nothing happened.
pub const NEVER: u64 = 0;

/// The number that the environment gives, or `default` if it gives none.
pub open spec fn number_or(raw: Option<String>, default: u64) -> u64 {
    match raw {
        Some(s) => {
            let t = crate::text::trimmed(s@);
            if crate::text::spells_number(t, u64::MAX as nat) {
                crate::text::digits_value(crate::text::unsigned_part(t)) as u64
            } else {
                default
            }
        },
        None => default,
    }
}

/// The number that `raw` spells between white space, or `default`.
fn parse_or(raw: Option<String>, default: u64) -> (r: u64)
    ensures
        r == number_or(raw, default),
{
    match raw {
        Some(s) => {
            let chars = chars_of(s.as_str());
            let token = trim_range(&chars, 0, chars.len());
            proof {
                assert(chars@.subrange(0, chars@.len() as int) =~= chars@);
            }
            match parse_number(&token, u64::MAX) {
                Some(v) => v,
                None => default,
            }
        },
        None => default,
    }
}

/// The silence threshold in milliseconds, for the value of
/// [`FORWARDING_SILENCE_THRESHOLD_ENV`].
pub fn forwarding_silence_threshold(raw: Option<String>) -> (r: u64)
    ensures
        r == number_or(raw, DEFAULT_FORWARDING_SILENCE_THRESHOLD),
{
    parse_or(raw, DEFAULT_FORWARDING_SILENCE_THRESHOLD)
}

/// The saturation threshold in milliseconds, for the value of
/// [`INBOUND_SATURATION_THRESHOLD_ENV`].
pub fn inbound_saturation_threshold(raw: Option<String>) -> (r: u64)
    ensures
        r == number_or(raw, DEFAULT_INBOUND_SATURATION_THRESHOLD),
{
    parse_or(raw, DEFAULT_INBOUND_SATURATION_THRESHOLD)
}

/// When forwarding last happened, was last expected, and last lost a message on
/// its way in.
#[derive(Debug, Clone, Copy, PartialEq, Eq, Structural)]
pub struct ForwardingHealthSnapshot {
    pub last_forward_ms: u64,
    pub last_should_forward_ms: u64,
    pub last_inbound_drop_ms: u64,
}

/// The record that the forwarding path writes and the liveness probe reads.
#[derive(Debug, Clone, Copy, PartialEq, Eq, Structural)]
pub struct ForwardingHealth {
    last_forward_ms: u64,
    last_should_forward_ms: u64,
    last_inbound_drop_ms: u64,
}

/// The time that is recorded for `now_ms`: a first event at time 0 must not read
/// as one that never was.
pub open spec fn stamp_of(now_ms: u64) -> u64 {
    if now_ms == NEVER {
        1
    } else {
        now_ms
    }
}

fn stamp(now_ms: u64) -> (r: u64)
    ensures
        r == stamp_of(now_ms),
{
    if now_ms == NEVER {
        1
    } else {
        now_ms
    }
}

impl View for ForwardingHealth {
    type V = ForwardingHealthSnapshot;

    closed spec fn view(&self) -> ForwardingHealthSnapshot {
        ForwardingHealthSnapshot {
            last_forward_ms: self.last_forward_ms,
            last_should_forward_ms: self.last_should_forward_ms,
            last_inbound_drop_ms: self.last_inbound_drop_ms,
        }
    }
}

impl ForwardingHealth {
    /// A record of nothing.
    pub fn new() -> (r: Self)
        ensures
            r@ == (ForwardingHealthSnapshot {
                last_forward_ms: NEVER,
                last_should_forward_ms: NEVER,
                last_inbound_drop_ms: NEVER,
            }),
    {
        ForwardingHealth {
            last_forward_ms: NEVER,
            last_should_forward_ms: NEVER,
            last_inbound_drop_ms: NEVER,
        }
    }

    /// Records that a packet was forwarded.
    pub fn note_forward(&mut self, now_ms: u64)
        ensures
            final(self)@ == (ForwardingHealthSnapshot {
                last_forward_ms: stamp_of(now_ms),
                ..old(self)@
            }),
    {
        self.last_forward_ms = stamp(now_ms);
    }

    /// Records that a room was seen that should be forwarding.
    pub fn note_should_forward(&mut self, now_ms: u64)
        ensures
            final(self)@ == (ForwardingHealthSnapshot {
                last_should_forward_ms: stamp_of(now_ms),
                ..old(self)@
            }),
    {
        self.last_should_forward_ms = stamp(now_ms);
    }

    /// Records that an inbound message was dropped.
    pub fn note_inbound_drop(&mut self, now_ms: u64)
        ensures
            final(self)@ == (ForwardingHealthSnapshot {
                last_inbound_drop_ms: stamp_of(now_ms),
                ..old(self)@
            }),
    {
        self.last_inbound_drop_ms = stamp(now_ms);
    }

    /// What is recorded.
    pub fn snapshot(&self) -> (r: ForwardingHealthSnapshot)
        ensures
            r == self@,
    {
        ForwardingHealthSnapshot {
            last_forward_ms: self.last_forward_ms,
            last_should_forward_ms: self.last_should_forward_ms,
            last_inbound_drop_ms: self.last_inbound_drop_ms,
        }
    }
}

impl Default for ForwardingHealth {
    fn default() -> (r: Self)
        ensures
            r@ == (ForwardingHealthSnapshot {
                last_forward_ms: NEVER,
                last_should_forward_ms: NEVER,
                last_inbound_drop_ms: NEVER,
            }),
    {
        ForwardingHealth::new()
    }
}

/// What the liveness probe answers.
#[derive(Debug, Clone, Copy, PartialEq, Eq, Structural)]
pub enum HealthStatus {
    /// All is well.
    Healthy,
    /// Packets should be forwarded and are not, or not all of them.
    ForwardingStalled,
}

impl HealthStatus {
    /// Whether all is well.
    pub fn is_healthy(self) -> (r: bool)
        ensures
            r == (self is Healthy),
    {
        matches!(self, HealthStatus::Healthy)
    }
}

/// Something happened at `then_ms`, and no longer than `window_ms` before `now_ms`.
pub open spec fn recent(now_ms: u64, then_ms: u64, window_ms: u64) -> bool {
    then_ms != NEVER && now_ms - then_ms <= window_ms
}

fn is_recent(now_ms: u64, then_ms: u64, window_ms: u64) -> (r: bool)
    ensures
        r == recent(now_ms, then_ms, window_ms),
{
    then_ms != NEVER && now_ms.saturating_sub(then_ms) <= window_ms
}

/// Forwarding was expected of late, and did not happen. A window of 0 switches
/// the question off.
pub open spec fn is_silent(
    now_ms: u64,
    last_forward_ms: u64,
    last_should_forward_ms: u64,
    window_ms: u64,
) -> bool {
    &&& window_ms != 0
    &&& recent(now_ms, last_should_forward_ms, window_ms)
    &&& !recent(now_ms, last_forward_ms, window_ms)
}

/// Forwarding was expected of late, and inbound messages were dropped of late. A
/// window of 0 switches the question off.
pub open spec fn is_saturated(
    now_ms: u64,
    last_should_forward_ms: u64,
    last_inbound_drop_ms: u64,
    window_ms: u64,
) -> bool {
    &&& window_ms != 0
    &&& recent(now_ms, last_should_forward_ms, window_ms)
    &&& recent(now_ms, last_inbound_drop_ms, window_ms)
}

/// Whether forwarding has fallen silent although it is expected.
pub fn forwarding_health_decision(
    now_ms: u64,
    last_forward_ms: u64,
    last_should_forward_ms: u64,
    threshold_ms: u64,
) -> (r: HealthStatus)
    ensures
        r is ForwardingStalled == is_silent(
            now_ms,
            last_forward_ms,
            last_should_forward_ms,
            threshold_ms,
        ),
{
    if threshold_ms == 0 {
        return HealthStatus::Healthy;
    }
    if !is_recent(now_ms, last_should_forward_ms, threshold_ms) {
        return HealthStatus::Healthy;
    }
    if is_recent(now_ms, last_forward_ms, threshold_ms) {
        HealthStatus::Healthy
    } else {
        HealthStatus::ForwardingStalled
    }
}

/// Whether inbound messages are being dropped although they are expected.
pub fn saturation_health_decision(
    now_ms: u64,
    last_should_forward_ms: u64,
    last_inbound_drop_ms: u64,
    threshold_ms: u64,
) -> (r: HealthStatus)
    ensures
        r is ForwardingStalled == is_saturated(
            now_ms,
            last_should_forward_ms,
            last_inbound_drop_ms,
            threshold_ms,
        ),
{
    if threshold_ms == 0 {
        return HealthStatus::Healthy;
    }
    if !is_recent(now_ms, last_should_forward_ms, threshold_ms) {
        return HealthStatus::Healthy;
    }
    if is_recent(now_ms, last_inbound_drop_ms, threshold_ms) {
        HealthStatus::ForwardingStalled
    } else {
        HealthStatus::Healthy
    }
}

/// What the probe answers for a record: stalled if forwarding is silent or saturated.
pub open spec fn is_stalled(
    now_ms: u64,
    snap: ForwardingHealthSnapshot,
    silence_ms: u64,
    saturation_ms: u64,
) -> bool {
    ||| is_silent(now_ms, snap.last_forward_ms, snap.last_should_forward_ms, silence_ms)
    ||| is_saturated(now_ms, snap.last_should_forward_ms, snap.last_inbound_drop_ms, saturation_ms)
}

/// What the liveness probe answers.
pub fn combined_health_decision(
    now_ms: u64,
    snap: ForwardingHealthSnapshot,
    silence_threshold_ms: u64,
    saturation_threshold_ms: u64,
) -> (r: HealthStatus)
    ensures
        r is ForwardingStalled == is_stalled(
            now_ms,
            snap,
            silence_threshold_ms,
            saturation_threshold_ms,
        ),
{
    let silence = forwarding_health_decision(
        now_ms,
        snap.last_forward_ms,
        snap.last_should_forward_ms,
        silence_threshold_ms,
    );
    if !silence.is_healthy() {
        return silence;
    }
    saturation_health_decision(
        now_ms,
        snap.last_should_forward_ms,
        snap.last_inbound_drop_ms,
        saturation_threshold_ms,
    )
}

/// A process of which no forwarding was expected within either window is healthy,
/// whatever else is recorded.
pub proof fn law_idle_is_healthy(
    now_ms: u64,
    snap: ForwardingHealthSnapshot,
    silence_ms: u64,
    saturation_ms: u64,
)
    requires
        !recent(now_ms, snap.last_should_forward_ms, silence_ms),
        !recent(now_ms, snap.last_should_forward_ms, saturation_ms),
    ensures
        !is_stalled(now_ms, snap, silence_ms, saturation_ms),
{
}

/// With both thresholds at 0 the probe never fails.
pub proof fn law_zero_thresholds_switch_off(now_ms: u64, snap: ForwardingHealthSnapshot)
    ensures
        !is_stalled(now_ms, snap, 0, 0),
{
}

/// A drop is forgotten once its window has passed: from then on the answer is the
/// one that a record without the drop would give, at every later time.
pub proof fn law_old_drop_is_forgotten(
    now_ms: u64,
    later_ms: u64,
    snap: ForwardingHealthSnapshot,
    silence_ms: u64,
    saturation_ms: u64,
)
    requires
        now_ms <= later_ms,
        !recent(now_ms, snap.last_inbound_drop_ms, saturation_ms),
    ensures
        is_stalled(later_ms, snap, silence_ms, saturation_ms) == is_stalled(
            later_ms,
            (ForwardingHealthSnapshot { last_inbound_drop_ms: NEVER, ..snap }),
            silence_ms,
            saturation_ms,
        ),
{
}

/// A forward ends a silence at once: with the saturation check off, a process that
/// has just forwarded is healthy.
pub proof fn law_forward_ends_silence(
    now_ms: u64,
    snap: ForwardingHealthSnapshot,
    silence_ms: u64,
)
    ensures
        !is_stalled(
            now_ms,
            (ForwardingHealthSnapshot { last_forward_ms: stamp_of(now_ms), ..snap }),
            silence_ms,
            0,
        ),
{
}

/// An event is recent right after it was recorded, also at time 0.
pub proof fn law_recorded_event_is_recent(now_ms: u64, window_ms: u64)
    ensures
        recent(now_ms, stamp_of(now_ms), window_ms),
{
}

/// The probe fails exactly in these cases. Forwarding was expected within the silence
/// window, and none happened within it; or forwarding was expected within the
/// saturation window, and an inbound message was dropped within it. What never
/// happened is not within a window, and a window of 0 holds nothing.
pub proof fn law_when_the_probe_fails(
    now_ms: u64,
    snap: ForwardingHealthSnapshot,
    silence_ms: u64,
    saturation_ms: u64,
)
    ensures
        ({
            let silent = silence_ms > 0 && snap.last_should_forward_ms > 0
                && snap.last_should_forward_ms + silence_ms >= now_ms && (snap.last_forward_ms == 0
                || snap.last_forward_ms + silence_ms < now_ms);
            let saturated = saturation_ms > 0 && snap.last_should_forward_ms > 0
                && snap.last_should_forward_ms + saturation_ms >= now_ms
                && snap.last_inbound_drop_ms > 0 && snap.last_inbound_drop_ms + saturation_ms
                >= now_ms;
            &&& is_stalled(now_ms, snap, silence_ms, saturation_ms) <==> silent || saturated
            &&& is_silent(
                now_ms,
                snap.last_forward_ms,
                snap.last_should_forward_ms,
                silence_ms,
            ) <==> silent
            &&& is_saturated(
                now_ms,
                snap.last_should_forward_ms,
                snap.last_inbound_drop_ms,
                saturation_ms,
            ) <==> saturated
        }),
{
}

/// The time recorded for an event is its own, but for an event at time 0, which is
/// recorded at 1.
pub proof fn law_recorded_time(now_ms: u64)
    ensures
        now_ms > 0 ==> stamp_of(now_ms) == now_ms,
        stamp_of(0) == 1,
{
}

/// A threshold that the environment spells, between any white space, is taken; if it
/// gives none, or what it gives is no number, the default stands.
pub proof fn law_threshold_is_read(raw: Option<String>, default: u64, n: u64)
    ensures
        raw is None ==> number_or(raw, default) == default,
        (raw matches Some(s) && crate::text::trimmed(s@) == crate::text::decimal(n as nat))
            ==> number_or(raw, default) == n,
        (raw matches Some(s) && crate::text::trimmed(s@).len() == 0) ==> number_or(raw, default)
            == default,
        (raw matches Some(s) && exists|i: int|
            1 <= i < crate::text::trimmed(s@).len() && !('0' <= #[trigger] crate::text::trimmed(
                s@,
            )[i] <= '9')) ==> number_or(raw, default) == default,
{
    crate::text::law_number_reads_back(n as nat, u64::MAX as nat);
    if let Some(s) = raw {
        let t = crate::text::trimmed(s@);
        crate::text::law_only_digits_spell_a_number(t, u64::MAX as nat, 0);
        if exists|i: int| 1 <= i < t.len() && !('0' <= #[trigger] t[i] <= '9') {
            let i = choose|i: int| 1 <= i < t.len() && !('0' <= #[trigger] t[i] <= '9');
            crate::text::law_only_digits_spell_a_number(t, u64::MAX as nat, i);
        }
    }
}

} // verus!
