//! Which rooms and sessions are traced, and which of their packets.
use vstd::prelude::*;

use crate::text::{chars_of, parse_number, same_text};

verus! {

/// One forwarding decision in this many is traced unless the environment says
/// otherwise.
pub const DEFAULT_FORWARD_SAMPLE: u64 = 200;

/// What is traced.
#[derive(Debug)]
pub struct TraceConfig {
    /// The room that is traced; none switches tracing off.
    pub room: Option<String>,
    /// The session that is traced; none stands for all of them.
    pub session: Option<String>,
}

impl Default for TraceConfig {
    fn default() -> (r: Self)
        ensures
            r.room is None,
            r.session is None,
    {
        TraceConfig { room: None, session: None }
    }
}

/// The tracing gate: what is traced, and how densely.
#[derive(Debug)]
pub struct TraceGate {
    pub config: TraceConfig,
    /// One decision in this many is traced.
    pub sample_n: u64,
    /// Counts the decisions; starts again at 0 after its largest value.
    pub counter: u64,
}

/// The text that a name was given, if it was given one that is not empty.
pub open spec fn given(raw: Option<String>) -> Option<Seq<char>> {
    match raw {
        Some(s) => if s@.len() > 0 {
            Some(s@)
        } else {
            None
        },
        None => None,
    }
}

/// What an optional text says.
pub open spec fn text_of(s: Option<String>) -> Option<Seq<char>> {
    match s {
        Some(s) => Some(s@),
        None => None,
    }
}

/// The sampling density that the environment asks for; `current` unless it spells
/// a number other than 0.
pub open spec fn sample_of(raw: Option<String>, current: u64) -> u64 {
    match raw {
        Some(s) => if crate::text::spells_number(s@, u64::MAX as nat)
            && crate::text::digits_value(crate::text::unsigned_part(s@)) > 0 {
            crate::text::digits_value(crate::text::unsigned_part(s@)) as u64
        } else {
            current
        },
        None => current,
    }
}

fn given_text(raw: Option<String>) -> (r: Option<String>)
    ensures
        text_of(r) == given(raw),
{
    match raw {
        Some(s) => {
            let n: usize = chars_of(s.as_str()).len();
            if n > 0 {
                Some(s)
            } else {
                None
            }
        },
        None => None,
    }
}

impl TraceGate {
    /// A gate that traces nothing.
    pub fn new() -> (r: Self)
        ensures
            r.config.room is None,
            r.config.session is None,
            r.sample_n == DEFAULT_FORWARD_SAMPLE,
            r.counter == 0,
    {
        TraceGate {
            config: TraceConfig { room: None, session: None },
            sample_n: DEFAULT_FORWARD_SAMPLE,
            counter: 0,
        }
    }

    /// Sets what is traced by the values of `SFU_TRACE_ROOM`, `SFU_TRACE_SESSION` and
    /// `SFU_TRACE_FORWARD_SAMPLE`.
    pub fn init(&mut self, room: Option<String>, session: Option<String>, sample: Option<String>)
        ensures
            text_of(final(self).config.room) == given(room),
            text_of(final(self).config.session) == given(session),
            final(self).sample_n == sample_of(sample, old(self).sample_n),
            final(self).counter == old(self).counter,
    {
        match sample {
            Some(s) => match parse_number(&chars_of(s.as_str()), u64::MAX) {
                Some(n) => {
                    if n > 0 {
                        self.sample_n = n;
                    }
                },
                None => {},
            },
            None => {},
        }
        self.config = TraceConfig { room: given_text(room), session: given_text(session) };
    }
}

impl Default for TraceGate {
    fn default() -> (r: Self)
        ensures
            r.config.room is None,
            r.config.session is None,
            r.sample_n == DEFAULT_FORWARD_SAMPLE,
            r.counter == 0,
    {
        TraceGate::new()
    }
}

/// Whether anything is traced at all.
pub fn tracing_enabled(gate: &TraceGate) -> (r: bool)
    ensures
        r == (gate.config.room is Some),
{
    gate.config.room.is_some()
}

/// Whether `room` is traced.
pub fn traced_room(gate: &TraceGate, room: &str) -> (r: bool)
    ensures
        r == (text_of(gate.config.room) == Some(room@)),
{
    match &gate.config.room {
        Some(traced) => same_text(traced.as_str(), room),
        None => false,
    }
}

/// Whether `session` is traced, within a room that is.
pub fn traced_session(gate: &TraceGate, session: &str) -> (r: bool)
    ensures
        r == (gate.config.session is None || text_of(gate.config.session) == Some(session@)),
{
    match &gate.config.session {
        Some(traced) => same_text(traced.as_str(), session),
        None => true,
    }
}

/// The density by which decisions are sampled: one in 0 reads as each one.
pub open spec fn divisor(sample_n: u64) -> u64 {
    if sample_n == 0 {
        1
    } else {
        sample_n
    }
}

/// The decision with this count is traced.
pub open spec fn is_sampled(count: nat, sample_n: u64) -> bool {
    count % divisor(sample_n) as nat == 0
}

/// Whether this decision is traced: of each `sample_n` in a row the first one is.
/// Counts the decision.
pub fn should_sample_forward(gate: &mut TraceGate) -> (r: bool)
    ensures
        r == (old(gate).counter % divisor(old(gate).sample_n) == 0),
        r == is_sampled(old(gate).counter as nat, old(gate).sample_n),
        final(gate).counter == (if old(gate).counter == u64::MAX {
            0
        } else {
            (old(gate).counter + 1) as u64
        }),
        final(gate).sample_n == old(gate).sample_n,
        final(gate).config == old(gate).config,
{
    let n: u64 = if gate.sample_n == 0 {
        1
    } else {
        gate.sample_n
    };
    let c: u64 = gate.counter;
    gate.counter = c.wrapping_add(1);
    c % n == 0
}

/// How many of the counts from `from` up to `to` are sampled.
pub open spec fn samples_between(from: nat, to: nat, sample_n: u64) -> nat
    decreases to - from,
{
    if to <= from {
        0
    } else {
        samples_between(from, (to - 1) as nat, sample_n) + if is_sampled(
            (to - 1) as nat,
            sample_n,
        ) {
            1nat
        } else {
            0nat
        }
    }
}

/// No count strictly between two multiples is one.
proof fn lemma_samples_within(from: nat, k: nat, n: u64)
    requires
        n > 0,
        k <= n,
    ensures
        samples_between(from, from + k, n) == (if k > (n - from % n as nat) % n as int {
            1nat
        } else {
            0nat
        }),
    decreases k,
{
    if k > 0 {
        lemma_samples_within(from, (k - 1) as nat, n);
        let r = (from % n as nat) as int;
        let first = (n - r) % n as int;
        let m = n as int;
        assert(0 <= r < m);
        assert(first == if r == 0 {
            0
        } else {
            m - r
        }) by {
            if r == 0 {
                vstd::arithmetic::div_mod::lemma_mod_self_0(m);
            } else {
                vstd::arithmetic::div_mod::lemma_small_mod((m - r) as nat, m as nat);
            }
        }
        let last = from + k - 1;
        vstd::arithmetic::div_mod::lemma_fundamental_div_mod(from as int, m);
        let q = from as int / m;
        assert((last % m == 0) == (k - 1 == first)) by {
            let d = r + k - 1;
            assert(last == m * q + d);
            vstd::arithmetic::div_mod::lemma_mod_multiples_vanish(q, d, m);
            if d < m {
                vstd::arithmetic::div_mod::lemma_small_mod(d as nat, m as nat);
            } else {
                vstd::arithmetic::div_mod::lemma_mod_multiples_vanish(-1, d, m);
                assert(m * -1 + d == d - m);
                vstd::arithmetic::div_mod::lemma_small_mod((d - m) as nat, m as nat);
            }
        }
    }
}

/// Of any `sample_n` decisions in a row exactly one is traced, wherever they start,
/// as long as the count does not start again among them.
pub proof fn law_one_in_n_is_sampled(from: nat, sample_n: u64)
    requires
        sample_n > 0,
        from + sample_n <= u64::MAX + 1,
    ensures
        samples_between(from, from + sample_n as nat, sample_n) == 1,
{
    lemma_samples_within(from, sample_n as nat, sample_n);
}

/// The first decision is traced, whatever the density, and with a density of 0 or 1
/// every decision is.
pub proof fn law_first_decision_is_sampled(count: nat, sample_n: u64)
    ensures
        is_sampled(0, sample_n),
        sample_n <= 1 ==> is_sampled(count, sample_n),
        0 < count < sample_n ==> !is_sampled(count, sample_n),
{
    vstd::arithmetic::div_mod::lemma_small_mod(0, divisor(sample_n) as nat);
    if 0 < count < sample_n {
        vstd::arithmetic::div_mod::lemma_small_mod(count, sample_n as nat);
    }
}

/// A name that is given and not empty is taken as it is; otherwise there is none.
pub proof fn law_empty_name_is_none(raw: Option<String>)
    ensures
        given(raw) is Some <==> raw is Some && raw->0@.len() > 0,
        given(raw) matches Some(t) ==> raw is Some && t == raw->0@,
{
}

/// The density is the number that the environment spells, unless that is 0 or it
/// spells none: then it stays.
pub proof fn law_density_is_read(raw: Option<String>, current: u64, n: u64, i: int)
    ensures
        raw is None ==> sample_of(raw, current) == current,
        (raw matches Some(s) && s@ == crate::text::decimal(n as nat)) && n > 0 ==> sample_of(
            raw,
            current,
        ) == n,
        (raw matches Some(s) && s@ == crate::text::decimal(0)) ==> sample_of(raw, current)
            == current,
        (raw matches Some(s) && 1 <= i < s@.len() && !('0' <= s@[i] <= '9')) ==> sample_of(
            raw,
            current,
        ) == current,
        divisor(0) == 1,
        n > 0 ==> divisor(n) == n,
{
    crate::text::law_number_reads_back(n as nat, u64::MAX as nat);
    crate::text::law_number_reads_back(0, u64::MAX as nat);
    if let Some(s) = raw {
        crate::text::law_only_digits_spell_a_number(s@, u64::MAX as nat, i);
    }
}

} // verus!
