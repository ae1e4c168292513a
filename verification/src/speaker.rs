//! Speaker scores and the set of active speakers.
//!
//! Audio levels feed a moving average per sender. A periodic tick admits senders
//! whose average stays above a floor and drops those that stay below it, so that
//! the set does not flicker.
use std::collections::HashMap;

use crate::float32::{Float32, NAN_BITS};
use crate::ids::{contains_id, insert_sorted, sorted_keys, SessionId};
use crate::room_state::age;

use vstd::arithmetic::power2::pow2;
use vstd::prelude::*;

verus! {

broadcast use vstd::std_specs::hash::group_hash_axioms;

/// Weight of a new observation in the moving average: 0.3.
pub const ALPHA: u32 = 0x3E99_999A;

/// Weight of the past in the moving average: 1.0 - 0.3.
pub const ONE_MINUS_ALPHA: u32 = 0x3F33_3333;

/// Average up to which a sender does not count as speaking: 0.05.
pub const SPEAKING_FLOOR: u32 = 0x3D4C_CCCD;

/// How long a voice hint counts: 400 ms.
pub const VAD_RECENCY: u64 = 400_000_000;

/// Maximum number of active speakers.
pub const MAX_SPEAKERS: usize = 4;

/// Number of best scores that a tick looks at.
pub const OBSERVED_SPEAKERS: usize = 16;

/// Time between ticks: 200 ms.
pub const TICK_INTERVAL: u64 = 200_000_000;

/// How long a sender must be above the floor to become active: 200 ms.
pub const ENTRY_WINDOW: u64 = 200_000_000;

/// How long an active sender must be below the floor to be dropped: 800 ms.
pub const EXIT_WINDOW: u64 = 800_000_000;

/// What is known of one sender's voice.
#[derive(Debug, Clone, Copy, PartialEq, Eq, Structural)]
pub struct ScoreState {
    /// Moving average of the audio level.
    pub ewma: Float32,
    /// When the last observation came.
    pub last_update: u64,
    /// The last observation's voice hint.
    pub last_is_speaking_hint: bool,
    /// When the last positive voice hint came.
    pub last_speaking_hint_at: Option<u64>,
}

impl ScoreState {
    /// The average lies between 0.0 and 1.0, or is the canonical not-a-number.
    pub open spec fn wf(self) -> bool {
        self.ewma.bits <= crate::float32::ONE_BITS || self.ewma.bits == NAN_BITS
    }
}

/// The moving average after one more level, in single precision: 0.3 times the
/// level, brought into the range from 0.0 to 1.0, plus 0.7 times the average so
/// far. Not a number if either is not.
pub open spec fn next_average(prev: Float32, level: Float32) -> Float32 {
    let c = level.clamped();
    if c.is_nan() || prev.is_nan() {
        Float32 { bits: NAN_BITS }
    } else {
        crate::float32::single_of(average_units(prev, c))
    }
}

/// The moving average in units of 2^-149, for numbers. A negative zero counts as zero.
pub open spec fn average_units(prev: Float32, c: Float32) -> nat {
    let level = if c.is_plain() {
        c.units()
    } else {
        0
    };
    let new = crate::rounding::rounded(
        Float32 { bits: ALPHA }.units() * level,
        pow2(149),
        24,
    );
    let past = crate::rounding::rounded(
        Float32 { bits: ONE_MINUS_ALPHA }.units() * prev.units(),
        pow2(149),
        24,
    );
    crate::rounding::rounded(new + past, 1, 24)
}

/// The two weights make up exactly 1.0.
proof fn lemma_weights()
    ensures
        (Float32 { bits: ALPHA }).units() + (Float32 { bits: ONE_MINUS_ALPHA }).units() == pow2(149),
{
    let a = Float32 { bits: ALPHA };
    let b = Float32 { bits: ONE_MINUS_ALPHA };
    vstd::arithmetic::power2::lemma2_to64();
    vstd::arithmetic::power2::lemma_pow2_unfold(125);
    vstd::arithmetic::power2::lemma_pow2_adds(25, 124);
    assert(a.bits as nat / 0x80_0000 == 125);
    assert(a.bits as nat % 0x80_0000 == 0x19_999A);
    assert(b.bits as nat / 0x80_0000 == 126);
    assert(b.bits as nat % 0x80_0000 == 0x33_3333);
    assert(a.units() == 0x99_999A * pow2(124));
    assert(b.units() == 0xB3_3333 * pow2(125));
}

/// The moving average of numbers up to 1.0 is a number up to 1.0.
proof fn lemma_average_bounded(prev: Float32, level: nat)
    requires
        prev.bits <= crate::float32::ONE_BITS,
        level <= pow2(149),
    ensures
        ({
            let a = Float32 { bits: ALPHA };
            let b = Float32 { bits: ONE_MINUS_ALPHA };
            let new = crate::rounding::rounded(a.units() * level, pow2(149), 24);
            let past = crate::rounding::rounded(b.units() * prev.units(), pow2(149), 24);
            &&& new <= a.units()
            &&& past <= b.units()
            &&& new + past <= pow2(149)
            &&& crate::rounding::rounded(new + past, 1, 24) <= pow2(149)
        }),
{
    let a = Float32 { bits: ALPHA };
    let b = Float32 { bits: ONE_MINUS_ALPHA };
    crate::float32::lemma_at_most_one(prev);
    crate::float32::lemma_shrink(a, level);
    crate::float32::lemma_shrink(b, prev.units());
    lemma_weights();
    let new = crate::rounding::rounded(a.units() * level, pow2(149), 24);
    let past = crate::rounding::rounded(b.units() * prev.units(), pow2(149), 24);
    vstd::arithmetic::power2::lemma2_to64();
    assert(new + past <= (1 * pow2(149)) * 1);
    crate::rounding::lemma_rounded_at_most(new + past, 1, 1, 149, 24);
}

/// The moving average after one more level.
fn average(prev: Float32, level: Float32) -> (r: Float32)
    requires
        prev.bits <= crate::float32::ONE_BITS || prev.bits == NAN_BITS,
    ensures
        r == next_average(prev, level),
        r.bits <= crate::float32::ONE_BITS || r.bits == NAN_BITS,
{
    let c = level.clamped();
    if c.is_nan() || prev.is_nan() {
        return Float32 { bits: NAN_BITS };
    }
    let zero = Float32 { bits: 0 };
    let heard = if c.bits < crate::float32::INFINITY_BITS {
        c
    } else {
        zero
    };
    let alpha = Float32 { bits: ALPHA };
    let beta = Float32 { bits: ONE_MINUS_ALPHA };
    proof {
        crate::float32::lemma_at_most_one(heard);
        lemma_average_bounded(prev, heard.units());
        vstd::arithmetic::power2::lemma_pow2_strictly_increases(149, 277);
        crate::float32::lemma_at_most_one(alpha);
        crate::float32::lemma_at_most_one(beta);
        assert(zero.units() == 0);
    }
    let new = alpha.product(heard);
    let past = beta.product(prev);
    let r = new.sum(past);
    proof {
        crate::float32::lemma_single_of(r);
        crate::float32::lemma_at_most_one(r);
    }
    r
}

/// Scores the senders of a room by their audio levels.
#[derive(Debug)]
pub struct SpeakerScorer {
    pub scores: HashMap<SessionId, ScoreState>,
}

impl View for SpeakerScorer {
    type V = Map<SessionId, ScoreState>;

    open spec fn view(&self) -> Map<SessionId, ScoreState> {
        self.scores@
    }
}

/// A sender that has not been heard yet.
pub open spec fn unheard(now: u64) -> ScoreState {
    ScoreState {
        ewma: Float32 { bits: 0 },
        last_update: now,
        last_is_speaking_hint: false,
        last_speaking_hint_at: None,
    }
}

/// What is known of a sender after one more observation.
pub open spec fn after_observation(
    state: ScoreState,
    audio_level: Float32,
    is_speaking_hint: bool,
    now: u64,
) -> ScoreState {
    ScoreState {
        ewma: next_average(state.ewma, audio_level),
        last_update: now,
        last_is_speaking_hint: is_speaking_hint,
        last_speaking_hint_at: if is_speaking_hint {
            Some(now)
        } else {
            state.last_speaking_hint_at
        },
    }
}

/// The scores after one more observation of `sender`.
pub open spec fn observed(
    scores: Map<SessionId, ScoreState>,
    sender: SessionId,
    audio_level: Float32,
    is_speaking_hint: bool,
    now: u64,
) -> Map<SessionId, ScoreState> {
    let state = if scores.contains_key(sender) {
        scores[sender]
    } else {
        unheard(now)
    };
    scores.insert(sender, after_observation(state, audio_level, is_speaking_hint, now))
}

/// The average of `sender`, zero if it is unknown.
pub open spec fn score_of(scores: Map<SessionId, ScoreState>, sender: SessionId) -> Float32 {
    if scores.contains_key(sender) {
        scores[sender].ewma
    } else {
        Float32 { bits: 0 }
    }
}

/// Whether `sender` speaks: its average is not at or below the floor, and a
/// positive voice hint is recent.
pub open spec fn speaks(scores: Map<SessionId, ScoreState>, sender: SessionId, now: u64) -> bool {
    &&& scores.contains_key(sender)
    &&& scores[sender].ewma.exceeds(SPEAKING_FLOOR) || scores[sender].ewma.is_nan()
    &&& scores[sender].last_speaking_hint_at matches Some(t) && age(now, t) <= VAD_RECENCY
}

/// A sender ranks before another one if its score is higher, or the scores are
/// equal and its id is smaller.
pub open spec fn ranks_before(a: (SessionId, Float32), b: (SessionId, Float32)) -> bool {
    a.1.rank() > b.1.rank() || (a.1.rank() == b.1.rank() && a.0 < b.0)
}

/// `s` lists the senders of `scores` with their averages, best first.
pub open spec fn lists_ranking(
    s: Seq<(SessionId, Float32)>,
    scores: Map<SessionId, ScoreState>,
    ids: Set<SessionId>,
) -> bool {
    &&& forall|i: int, j: int| 0 <= i < j < s.len() ==> ranks_before(s[i], s[j])
    &&& forall|i: int|
        0 <= i < s.len() ==> ids.contains((#[trigger] s[i]).0) && scores.contains_key(s[i].0)
            && s[i].1 == scores[s[i].0].ewma
    &&& forall|id: SessionId| #[trigger]
        ids.contains(id) ==> exists|i: int| 0 <= i < s.len() && (#[trigger] s[i]).0 == id
}

/// The senders of `scores` with their averages, best first.
pub open spec fn ranking(scores: Map<SessionId, ScoreState>) -> Seq<(SessionId, Float32)> {
    choose|s: Seq<(SessionId, Float32)>| lists_ranking(s, scores, scores.dom())
}

/// The first `n` elements of `s`, or all of them.
pub open spec fn first_n<T>(s: Seq<T>, n: nat) -> Seq<T> {
    if s.len() <= n {
        s
    } else {
        s.take(n as int)
    }
}

/// Two rankings of the same senders are the same.
proof fn lemma_ranking_unique(
    a: Seq<(SessionId, Float32)>,
    b: Seq<(SessionId, Float32)>,
    scores: Map<SessionId, ScoreState>,
    ids: Set<SessionId>,
)
    requires
        lists_ranking(a, scores, ids),
        lists_ranking(b, scores, ids),
    ensures
        a == b,
    decreases a.len(),
{
    if a.len() == 0 {
        if b.len() > 0 {
            assert(ids.contains(b[0].0));
        }
        assert(a =~= b);
    } else {
        let x = a.last();
        assert(ids.contains(a[a.len() - 1].0));
        let k = choose|k: int| 0 <= k < b.len() && (#[trigger] b[k]).0 == x.0;
        assert(b[k] == x);
        let y = b.last();
        assert(ids.contains(b[b.len() - 1].0));
        let l = choose|l: int| 0 <= l < a.len() && (#[trigger] a[l]).0 == y.0;
        assert(a[l] == y);
        if l < a.len() - 1 {
            assert(ranks_before(a[l], a[a.len() - 1]));
        }
        if k < b.len() - 1 {
            assert(ranks_before(b[k], b[b.len() - 1]));
        }
        assert(x == y);
        let rest = ids.remove(x.0);
        lemma_ranking_drop_last(a, scores, ids);
        lemma_ranking_drop_last(b, scores, ids);
        lemma_ranking_unique(a.drop_last(), b.drop_last(), scores, rest);
        assert(a =~= a.drop_last().push(x));
        assert(b =~= b.drop_last().push(x));
    }
}

/// A ranking without its last entry ranks the other senders.
proof fn lemma_ranking_drop_last(
    a: Seq<(SessionId, Float32)>,
    scores: Map<SessionId, ScoreState>,
    ids: Set<SessionId>,
)
    requires
        lists_ranking(a, scores, ids),
        a.len() > 0,
    ensures
        lists_ranking(a.drop_last(), scores, ids.remove(a.last().0)),
{
    let front = a.drop_last();
    let rest = ids.remove(a.last().0);
    assert forall|i: int| 0 <= i < front.len() implies rest.contains((#[trigger] front[i]).0)
        && scores.contains_key(front[i].0) && front[i].1 == scores[front[i].0].ewma by {
        assert(front[i] == a[i]);
        assert(ids.contains(a[i].0));
        assert(ranks_before(a[i], a[a.len() - 1]));
        assert(a[a.len() - 1].1 == scores[a[a.len() - 1].0].ewma);
    }
    assert forall|id: SessionId| #[trigger] rest.contains(id) implies exists|i: int|
        0 <= i < front.len() && (#[trigger] front[i]).0 == id by {
        assert(ids.contains(id));
        let i = choose|i: int| 0 <= i < a.len() && (#[trigger] a[i]).0 == id;
        assert(front[i].0 == id);
    }
}

/// Puts a sender at its place in a ranking.
fn insert_ranked(
    v: &mut Vec<(SessionId, Float32)>,
    id: SessionId,
    score: Float32,
    Ghost(scores): Ghost<Map<SessionId, ScoreState>>,
    Ghost(ids): Ghost<Set<SessionId>>,
)
    requires
        lists_ranking(old(v)@, scores, ids),
        !ids.contains(id),
        scores.contains_key(id),
        scores[id].ewma == score,
    ensures
        lists_ranking(final(v)@, scores, ids.insert(id)),
{
    let ghost before = v@;
    let rank: u32 = score.rank();
    let mut i: usize = v.len();
    while i > 0 && (v[i - 1].1.rank() < rank || (v[i - 1].1.rank() == rank && v[i - 1].0 > id))
        invariant
            i <= v@.len(),
            v@ == before,
            rank == score.rank(),
            lists_ranking(before, scores, ids),
            !ids.contains(id),
            forall|k: int| i <= k < v@.len() ==> ranks_before((id, score), v@[k]),
        decreases i,
    {
        i = i - 1;
    }
    proof {
        assert forall|k: int| 0 <= k < i implies ranks_before(before[k], (id, score)) by {
            assert(ids.contains(before[i - 1].0));
            if k < i - 1 {
                assert(ranks_before(before[k], before[i - 1]));
            }
        }
    }
    v.insert(i, (id, score));
    proof {
        let after = v@;
        assert(after == before.insert(i as int, (id, score)));
        assert forall|a: int, b: int| 0 <= a < b < after.len() implies ranks_before(
            after[a],
            after[b],
        ) by {
            let x = if a < i {
                a
            } else {
                a - 1
            };
            let y = if b < i {
                b
            } else {
                b - 1
            };
            if a == i {
                assert(after[b] == before[y]);
            } else if b == i {
                assert(after[a] == before[x]);
            } else {
                assert(after[a] == before[x]);
                assert(after[b] == before[y]);
                assert(ranks_before(before[x], before[y]));
            }
        }
        assert forall|a: int| 0 <= a < after.len() implies ids.insert(id).contains(
            (#[trigger] after[a]).0,
        ) && scores.contains_key(after[a].0) && after[a].1 == scores[after[a].0].ewma by {
            if a != i {
                let x = if a < i {
                    a
                } else {
                    a - 1
                };
                assert(after[a] == before[x]);
                assert(ids.contains(before[x].0));
            }
        }
        assert forall|s: SessionId| #[trigger] ids.insert(id).contains(s) implies exists|a: int|
            0 <= a < after.len() && (#[trigger] after[a]).0 == s by {
            if s == id {
                assert(after[i as int].0 == s);
            } else {
                assert(ids.contains(s));
                let k = choose|k: int| 0 <= k < before.len() && (#[trigger] before[k]).0 == s;
                let a = if k < i {
                    k
                } else {
                    k + 1
                };
                assert(after[a] == before[k]);
            }
        }
    }
}

impl SpeakerScorer {
    /// Every average is a number from 0.0 to 1.0, or the canonical not-a-number.
    pub open spec fn wf(&self) -> bool {
        forall|s: SessionId| #[trigger] self@.contains_key(s) ==> self@[s].wf()
    }

    /// A scorer that has heard nobody.
    pub fn new() -> (r: Self)
        ensures
            r.wf(),
            r@ == Map::<SessionId, ScoreState>::empty(),
    {
        SpeakerScorer { scores: HashMap::new() }
    }

    /// Feeds one audio level, with its voice hint, to `sender`'s moving average.
    pub fn observe(
        &mut self,
        sender: SessionId,
        audio_level: Float32,
        is_speaking_hint: bool,
        now: u64,
    )
        requires
            old(self).wf(),
        ensures
            final(self).wf(),
            final(self)@ == old(self)@.insert(
                sender,
                after_observation(
                    if old(self)@.contains_key(sender) {
                        old(self)@[sender]
                    } else {
                        unheard(now)
                    },
                    audio_level,
                    is_speaking_hint,
                    now,
                ),
            ),
            final(self)@ == observed(old(self)@, sender, audio_level, is_speaking_hint, now),
    {
        let state: ScoreState = match self.scores.get(&sender) {
            Some(s) => *s,
            None => ScoreState {
                ewma: Float32 { bits: 0 },
                last_update: now,
                last_is_speaking_hint: false,
                last_speaking_hint_at: None,
            },
        };
        let next = ScoreState {
            ewma: average(state.ewma, audio_level),
            last_update: now,
            last_is_speaking_hint: is_speaking_hint,
            last_speaking_hint_at: if is_speaking_hint {
                Some(now)
            } else {
                state.last_speaking_hint_at
            },
        };
        self.scores.insert(sender, next);
    }

    /// The moving average of `sender`, zero if it is unknown.
    pub fn score(&self, sender: SessionId) -> (r: Float32)
        ensures
            r == score_of(self@, sender),
    {
        match self.scores.get(&sender) {
            Some(s) => s.ewma,
            None => Float32 { bits: 0 },
        }
    }

    /// Whether `sender` speaks: its average is not at or below the floor and a
    /// positive voice hint came within [`VAD_RECENCY`].
    pub fn is_speaking(&self, sender: SessionId, now: u64) -> (r: bool)
        ensures
            r == speaks(self@, sender, now),
    {
        match self.scores.get(&sender) {
            None => false,
            Some(s) => {
                if !s.ewma.exceeds(SPEAKING_FLOOR) && !s.ewma.is_nan() {
                    return false;
                }
                match s.last_speaking_hint_at {
                    Some(t) => now.saturating_sub(t) <= VAD_RECENCY,
                    None => false,
                }
            },
        }
    }

    /// The `n` senders with the highest averages, best first.
    pub fn top_n(&self, n: usize) -> (r: Vec<(SessionId, Float32)>)
        ensures
            r@ == first_n(ranking(self@), n as nat),
            lists_ranking(ranking(self@), self@, self@.dom()),
    {
        let keys = sorted_keys(&self.scores);
        let mut all: Vec<(SessionId, Float32)> = Vec::new();
        let mut i: usize = 0;
        while i < keys.len()
            invariant
                i <= keys@.len(),
                crate::ids::lists_ascending(keys@, self@.dom()),
                lists_ranking(all@, self@, keys@.take(i as int).to_set()),
            decreases keys@.len() - i,
        {
            let id: SessionId = keys[i];
            proof {
                assert(keys@.to_set().contains(id));
                crate::ids::lemma_prefix_set(keys@, i as int);
                assert(!keys@.take(i as int).to_set().contains(id)) by {
                    if keys@.take(i as int).contains(id) {
                        let k = choose|k: int| 0 <= k < i && keys@.take(i as int)[k] == id;
                        assert(keys@[k] < keys@[i as int]);
                    }
                }
            }
            match self.scores.get(&id) {
                Some(s) => {
                    insert_ranked(
                        &mut all,
                        id,
                        s.ewma,
                        Ghost(self@),
                        Ghost(keys@.take(i as int).to_set()),
                    );
                },
                None => {
                    assert(false);
                },
            }
            i = i + 1;
        }
        proof {
            assert(keys@.take(keys@.len() as int) =~= keys@);
            lemma_ranking_unique(all@, ranking(self@), self@, self@.dom());
        }
        all.truncate(n);
        proof {
            assert(all@ =~= first_n(ranking(self@), n as nat));
        }
        all
    }

    /// Forgets `sender`.
    pub fn forget(&mut self, sender: SessionId)
        ensures
            old(self).wf() ==> final(self).wf(),
            final(self)@ == old(self)@.remove(sender),
    {
        self.scores.remove(&sender);
    }
}

impl Default for SpeakerScorer {
    fn default() -> (r: Self)
        ensures
            r.wf(),
            r@ == Map::<SessionId, ScoreState>::empty(),
    {
        SpeakerScorer::new()
    }
}

/// The active speakers of a room, best score first.
#[derive(Debug)]
pub struct ActiveSpeakerSet {
    pub top: Vec<SessionId>,
    /// Counts the changes of `top`, modulo 2^64.
    pub generation: u64,
    /// When `top` last changed.
    pub last_change: u64,
}

/// Mathematical view of an [`ActiveSpeakerSet`].
#[verifier::ext_equal]
pub struct SpeakersView {
    pub top: Seq<SessionId>,
    pub generation: u64,
    pub last_change: u64,
}

impl View for ActiveSpeakerSet {
    type V = SpeakersView;

    open spec fn view(&self) -> SpeakersView {
        SpeakersView {
            top: self.top@,
            generation: self.generation,
            last_change: self.last_change,
        }
    }
}

impl ActiveSpeakerSet {
    /// Nobody speaks yet.
    pub fn empty(now: u64) -> (r: Self)
        ensures
            r@ == (SpeakersView { top: Seq::empty(), generation: 0, last_change: now }),
    {
        ActiveSpeakerSet { top: Vec::new(), generation: 0, last_change: now }
    }
}

impl Clone for ActiveSpeakerSet {
    fn clone(&self) -> (r: Self)
        ensures
            r@ == self@,
    {
        ActiveSpeakerSet {
            top: self.top.clone(),
            generation: self.generation,
            last_change: self.last_change,
        }
    }
}

/// Since when a sender has been above or below the floor.
#[derive(Debug, Clone, Copy, PartialEq, Eq, Structural)]
pub struct CandidateState {
    pub above_since: Option<u64>,
    pub below_since: Option<u64>,
}

/// A sender that no tick has seen yet.
pub open spec fn unseen() -> CandidateState {
    CandidateState { above_since: None, below_since: None }
}

/// One speaker as it is announced.
#[derive(Debug, Clone, Copy, PartialEq, Eq, Structural)]
pub struct SpeakerEntry {
    pub session_id: SessionId,
    pub score: Float32,
    pub is_speaking: bool,
}

/// The announcement of a new speaker set.
#[derive(Debug)]
pub struct SpeakerUpdate {
    pub top_speakers: Vec<SpeakerEntry>,
    pub generation: u64,
}

/// An announcement with the subject that it is published on.
#[derive(Debug)]
pub struct SpeakerAnnouncement {
    pub subject: String,
    pub update: SpeakerUpdate,
}

/// The entries that announce `top`.
pub open spec fn speaker_entries(
    top: Seq<SessionId>,
    scores: Map<SessionId, ScoreState>,
    now: u64,
) -> Seq<SpeakerEntry> {
    top.map_values(
        |s: SessionId|
            SpeakerEntry {
                session_id: s,
                score: score_of(scores, s),
                is_speaking: speaks(scores, s, now),
            },
    )
}

/// Maintains the active speakers of one room.
#[derive(Debug)]
pub struct SpeakerTick {
    pub candidates: HashMap<SessionId, CandidateState>,
    pub current: ActiveSpeakerSet,
    /// Time between ticks.
    pub interval: u64,
    /// Room id as it stands in subjects.
    pub room_id: String,
    /// Whether changes are announced.
    pub announces: bool,
}

/// Mathematical view of a [`SpeakerTick`].
#[verifier::ext_equal]
pub struct TickView {
    pub candidates: Map<SessionId, CandidateState>,
    pub current: SpeakersView,
    pub interval: u64,
    pub room_id: Seq<char>,
    pub announces: bool,
}

impl View for SpeakerTick {
    type V = TickView;

    open spec fn view(&self) -> TickView {
        TickView {
            candidates: self.candidates@,
            current: self.current@,
            interval: self.interval,
            room_id: self.room_id@,
            announces: self.announces,
        }
    }
}

/// What a tick sees: the best scores.
pub open spec fn seen_by_tick(scores: Map<SessionId, ScoreState>) -> Seq<(SessionId, Float32)> {
    first_n(ranking(scores), OBSERVED_SPEAKERS as nat)
}

/// The senders of a list of scores.
pub open spec fn ids_of(s: Seq<(SessionId, Float32)>) -> Seq<SessionId> {
    s.map_values(|p: (SessionId, Float32)| p.0)
}

/// `sid` is among the best scores and above the floor.
pub open spec fn above_floor(seen: Seq<(SessionId, Float32)>, sid: SessionId) -> bool {
    exists|i: int|
        0 <= i < seen.len() && (#[trigger] seen[i]).0 == sid && seen[i].1.exceeds(SPEAKING_FLOOR)
}

/// The streaks of a sender after one more tick.
pub open spec fn next_candidate(c: CandidateState, above: bool, now: u64) -> CandidateState {
    if above {
        CandidateState {
            above_since: if c.above_since is Some {
                c.above_since
            } else {
                Some(now)
            },
            below_since: None,
        }
    } else {
        CandidateState {
            above_since: None,
            below_since: if c.below_since is Some {
                c.below_since
            } else {
                Some(now)
            },
        }
    }
}

/// Above the floor for long enough to become active.
pub open spec fn risen(c: CandidateState, now: u64) -> bool {
    c.above_since matches Some(t) && age(now, t) >= ENTRY_WINDOW
}

/// Below the floor for long enough to be dropped.
pub open spec fn fallen(c: CandidateState, now: u64) -> bool {
    c.below_since matches Some(t) && age(now, t) >= EXIT_WINDOW
}

impl TickView {
    /// The active speakers are few and distinct.
    pub open spec fn wf(self) -> bool {
        self.current.top.no_duplicates() && self.current.top.len() <= MAX_SPEAKERS
    }

    /// The streaks of `sid` so far.
    pub open spec fn candidate(self, sid: SessionId) -> CandidateState {
        if self.candidates.contains_key(sid) {
            self.candidates[sid]
        } else {
            unseen()
        }
    }

    /// Everyone that a tick has to do with.
    pub open spec fn known(self, seen: Seq<(SessionId, Float32)>) -> Set<SessionId> {
        ids_of(seen).to_set().union(self.candidates.dom()).union(self.current.top.to_set())
    }

    /// The streaks after a tick.
    pub open spec fn streaks(
        self,
        seen: Seq<(SessionId, Float32)>,
        now: u64,
    ) -> Map<SessionId, CandidateState> {
        Map::new(
            |s: SessionId| self.known(seen).contains(s),
            |s: SessionId| next_candidate(self.candidate(s), above_floor(seen, s), now),
        )
    }

    /// Says of a sender among the best scores whether it is to be active: it has
    /// risen, or it is active and has not fallen.
    pub open spec fn active_if_seen(
        self,
        seen: Seq<(SessionId, Float32)>,
        now: u64,
    ) -> spec_fn(SessionId) -> bool {
        |s: SessionId|
            risen(self.streaks(seen, now)[s], now) || (self.current.top.contains(s) && !fallen(
                self.streaks(seen, now)[s],
                now,
            ))
    }

    /// Says of an active sender whether it stays active though it is not among the
    /// best scores: it has not fallen.
    pub open spec fn active_if_unseen(
        self,
        seen: Seq<(SessionId, Float32)>,
        now: u64,
    ) -> spec_fn(SessionId) -> bool {
        |s: SessionId| !ids_of(seen).contains(s) && !fallen(self.streaks(seen, now)[s], now)
    }

    /// The active speakers after a tick, best score first; those without a score
    /// among the best come last.
    pub open spec fn next_top(
        self,
        seen: Seq<(SessionId, Float32)>,
        now: u64,
    ) -> Seq<SessionId> {
        first_n(
            ids_of(seen).filter(self.active_if_seen(seen, now)) + self.current.top.filter(
                self.active_if_unseen(seen, now),
            ),
            MAX_SPEAKERS as nat,
        )
    }

    /// The speaker set after a tick.
    pub open spec fn next_speakers(
        self,
        seen: Seq<(SessionId, Float32)>,
        now: u64,
    ) -> SpeakersView {
        let top = self.next_top(seen, now);
        if top == self.current.top {
            self.current
        } else {
            SpeakersView {
                top,
                generation: self.current.generation.wrapping_add(1),
                last_change: now,
            }
        }
    }

    /// Whether a sender's streaks are kept after a tick: it is active or among the
    /// best scores, or it has been below the floor for a while, but not long enough.
    pub open spec fn keeps_streak(
        self,
        seen: Seq<(SessionId, Float32)>,
        now: u64,
        s: SessionId,
    ) -> bool {
        ||| self.next_speakers(seen, now).top.contains(s)
        ||| ids_of(seen).contains(s)
        ||| self.streaks(seen, now)[s].below_since is Some && !fallen(
            self.streaks(seen, now)[s],
            now,
        )
    }

    /// Whether a tick has something to announce.
    pub open spec fn announces_tick(self, scores: Map<SessionId, ScoreState>, now: u64) -> bool {
        &&& self.announces
        &&& self.room_id.len() > 0
        &&& self.after_tick(scores, now).current.generation != self.current.generation
    }

    /// The state after a tick.
    pub open spec fn after_tick(self, scores: Map<SessionId, ScoreState>, now: u64) -> TickView {
        let seen = seen_by_tick(scores);
        TickView {
            candidates: Map::new(
                |s: SessionId| self.known(seen).contains(s) && self.keeps_streak(seen, now, s),
                |s: SessionId| self.streaks(seen, now)[s],
            ),
            current: self.next_speakers(seen, now),
            ..self
        }
    }
}

/// The senders of a list of scores.
fn score_ids(seen: &Vec<(SessionId, Float32)>) -> (r: Vec<SessionId>)
    ensures
        r@ == ids_of(seen@),
{
    let mut r: Vec<SessionId> = Vec::new();
    let mut i: usize = 0;
    while i < seen.len()
        invariant
            i <= seen@.len(),
            r@ == ids_of(seen@.take(i as int)),
        decreases seen@.len() - i,
    {
        r.push(seen[i].0);
        proof {
            assert(r@ =~= ids_of(seen@.take(i + 1)));
        }
        i = i + 1;
    }
    proof {
        assert(seen@.take(seen@.len() as int) =~= seen@);
    }
    r
}

/// Whether `sid` is among the best scores and above the floor.
fn is_above_floor(seen: &Vec<(SessionId, Float32)>, sid: SessionId) -> (r: bool)
    ensures
        r == above_floor(seen@, sid),
{
    let mut i: usize = 0;
    while i < seen.len()
        invariant
            i <= seen@.len(),
            forall|k: int|
                0 <= k < i ==> !((#[trigger] seen@[k]).0 == sid && seen@[k].1.exceeds(
                    SPEAKING_FLOOR,
                )),
        decreases seen@.len() - i,
    {
        if seen[i].0 == sid && seen[i].1.exceeds(SPEAKING_FLOOR) {
            proof {
                assert(seen@[i as int].0 == sid);
            }
            return true;
        }
        i = i + 1;
    }
    false
}

/// Whether two lists of senders are equal.
fn same_ids(a: &Vec<SessionId>, b: &Vec<SessionId>) -> (r: bool)
    ensures
        r == (a@ == b@),
{
    if a.len() != b.len() {
        return false;
    }
    let mut i: usize = 0;
    while i < a.len()
        invariant
            i <= a@.len(),
            a@.len() == b@.len(),
            forall|k: int| 0 <= k < i ==> a@[k] == b@[k],
        decreases a@.len() - i,
    {
        if a[i] != b[i] {
            return false;
        }
        i = i + 1;
    }
    proof {
        assert(a@ =~= b@);
    }
    true
}

/// Adds `ids` to an ascending listing.
fn insert_all_sorted(v: &mut Vec<SessionId>, ids: &Vec<SessionId>)
    requires
        crate::ids::lists_ascending(old(v)@, old(v)@.to_set()),
    ensures
        crate::ids::lists_ascending(final(v)@, old(v)@.to_set().union(ids@.to_set())),
{
    let ghost before = v@.to_set();
    proof {
        assert(before.union(ids@.take(0).to_set()) =~= before);
    }
    let mut i: usize = 0;
    while i < ids.len()
        invariant
            i <= ids@.len(),
            crate::ids::lists_ascending(v@, before.union(ids@.take(i as int).to_set())),
        decreases ids@.len() - i,
    {
        insert_sorted(v, ids[i]);
        proof {
            crate::ids::lemma_prefix_set(ids@, i as int);
            assert(before.union(ids@.take(i + 1).to_set()) =~= before.union(
                ids@.take(i as int).to_set(),
            ).insert(ids@[i as int]));
        }
        i = i + 1;
    }
    proof {
        assert(ids@.take(ids@.len() as int) =~= ids@);
    }
}

impl SpeakerTick {
    /// A tick for `room_id` with the default interval that announces changes.
    pub fn new(room_id: String, now: u64) -> (r: Self)
        ensures
            r@.wf(),
            r@ == (TickView {
                candidates: Map::empty(),
                current: (SpeakersView { top: Seq::empty(), generation: 0, last_change: now }),
                interval: TICK_INTERVAL,
                room_id: room_id@,
                announces: true,
            }),
    {
        SpeakerTick::with_interval(TICK_INTERVAL, room_id, true, now)
    }

    /// A tick for `room_id` with its own interval, announcing changes or not.
    pub fn with_interval(interval: u64, room_id: String, announces: bool, now: u64) -> (r: Self)
        ensures
            r@.wf(),
            r@ == (TickView {
                candidates: Map::empty(),
                current: (SpeakersView { top: Seq::empty(), generation: 0, last_change: now }),
                interval,
                room_id: room_id@,
                announces,
            }),
    {
        SpeakerTick {
            candidates: HashMap::new(),
            current: ActiveSpeakerSet::empty(now),
            interval,
            room_id,
            announces,
        }
    }

    /// The present speaker set.
    pub fn current(&self) -> (r: ActiveSpeakerSet)
        ensures
            r@ == self@.current,
    {
        self.current.clone()
    }

    /// Brings everyone's streaks up to `now`.
    fn refresh_streaks(&mut self, seen: &Vec<(SessionId, Float32)>, now: u64)
        ensures
            final(self)@ == (TickView {
                candidates: old(self)@.streaks(seen@, now),
                ..old(self)@
            }),
    {
        let ghost before = self@;
        let mut known: Vec<SessionId> = sorted_keys(&self.candidates);
        insert_all_sorted(&mut known, &score_ids(seen));
        insert_all_sorted(&mut known, &self.current.top);
        proof {
            assert(known@.to_set() =~= before.known(seen@));
            assert(self@.candidates =~= Map::new(
                |s: SessionId| before.candidates.contains_key(s) || known@.take(0).contains(s),
                |s: SessionId|
                    if known@.take(0).contains(s) {
                        next_candidate(before.candidate(s), above_floor(seen@, s), now)
                    } else {
                        before.candidates[s]
                    },
            ));
        }
        let mut i: usize = 0;
        while i < known.len()
            invariant
                i <= known@.len(),
                crate::ids::lists_ascending(known@, known@.to_set()),
                self@ == (TickView { candidates: self@.candidates, ..before }),
                self@.candidates == Map::new(
                    |s: SessionId|
                        before.candidates.contains_key(s) || known@.take(i as int).contains(s),
                    |s: SessionId|
                        if known@.take(i as int).contains(s) {
                            next_candidate(before.candidate(s), above_floor(seen@, s), now)
                        } else {
                            before.candidates[s]
                        },
                ),
            decreases known@.len() - i,
        {
            let sid: SessionId = known[i];
            proof {
                assert(!known@.take(i as int).contains(sid)) by {
                    if known@.take(i as int).contains(sid) {
                        let k = choose|k: int| 0 <= k < i && known@.take(i as int)[k] == sid;
                        assert(known@[k] < known@[i as int]);
                    }
                }
                assert forall|s: SessionId| known@.take(i + 1).contains(s) <==> (known@.take(
                    i as int,
                ).contains(s) || s == sid) by {
                    crate::ids::lemma_prefix_set(known@, i as int);
                    assert(known@.take(i + 1).to_set().contains(s) <==> known@.take(
                        i + 1,
                    ).contains(s));
                    assert(known@.take(i as int).to_set().contains(s) <==> known@.take(
                        i as int,
                    ).contains(s));
                }
            }
            let c: CandidateState = match self.candidates.get(&sid) {
                Some(c) => *c,
                None => CandidateState { above_since: None, below_since: None },
            };
            proof {
                assert(c == before.candidate(sid));
            }
            let next = if is_above_floor(seen, sid) {
                CandidateState {
                    above_since: match c.above_since {
                        Some(t) => Some(t),
                        None => Some(now),
                    },
                    below_since: None,
                }
            } else {
                CandidateState {
                    above_since: None,
                    below_since: match c.below_since {
                        Some(t) => Some(t),
                        None => Some(now),
                    },
                }
            };
            self.candidates.insert(sid, next);
            proof {
                assert(next == next_candidate(
                    before.candidate(sid),
                    above_floor(seen@, sid),
                    now,
                ));
                assert(self@.candidates =~= Map::new(
                    |s: SessionId|
                        before.candidates.contains_key(s) || known@.take(i + 1).contains(s),
                    |s: SessionId|
                        if known@.take(i + 1).contains(s) {
                            next_candidate(before.candidate(s), above_floor(seen@, s), now)
                        } else {
                            before.candidates[s]
                        },
                ));
            }
            i = i + 1;
        }
        proof {
            assert(known@.take(known@.len() as int) =~= known@);
            assert forall|s: SessionId| known@.contains(s) <==> before.known(seen@).contains(
                s,
            ) by {
                assert(known@.to_set().contains(s) <==> known@.contains(s));
            }
            assert(self@.candidates =~= before.streaks(seen@, now));
        }
    }

    /// The active speakers after this tick. The streaks are those of `before` after it.
    fn select_top(
        &self,
        seen: &Vec<(SessionId, Float32)>,
        now: u64,
        Ghost(before): Ghost<TickView>,
    ) -> (top: Vec<SessionId>)
        requires
            self@ == (TickView { candidates: before.streaks(seen@, now), ..before }),
        ensures
            top@ == before.next_top(seen@, now),
    {
        let ids = score_ids(seen);
        let ghost stay = before.active_if_seen(seen@, now);
        let ghost held = before.active_if_unseen(seen@, now);
        let mut top: Vec<SessionId> = Vec::new();
        let mut i: usize = 0;
        proof {
            reveal(Seq::filter);
            assert(top@ =~= ids@.take(0).filter(stay));
        }
        while i < ids.len()
            invariant
                i <= ids@.len(),
                ids@ == ids_of(seen@),
                self@ == (TickView { candidates: before.streaks(seen@, now), ..before }),
                stay == before.active_if_seen(seen@, now),
                top@ == ids@.take(i as int).filter(stay),
            decreases ids@.len() - i,
        {
            let sid: SessionId = ids[i];
            proof {
                assert(ids@.to_set().contains(sid));
                assert(before.known(seen@).contains(sid));
            }
            let (up, down) = self.streak_ends(sid, now);
            if up || (contains_id(&self.current.top, sid) && !down) {
                top.push(sid);
            }
            proof {
                reveal(Seq::filter);
                assert(ids@.take(i + 1).drop_last() =~= ids@.take(i as int));
                assert(top@ =~= ids@.take(i + 1).filter(stay));
            }
            i = i + 1;
        }
        let ghost listed = top@;
        proof {
            assert(ids@.take(ids@.len() as int) =~= ids@);
            assert(listed + before.current.top.take(0).filter(held) =~= listed);
        }
        let mut j: usize = 0;
        while j < self.current.top.len()
            invariant
                j <= before.current.top.len(),
                ids@ == ids_of(seen@),
                self@ == (TickView { candidates: before.streaks(seen@, now), ..before }),
                held == before.active_if_unseen(seen@, now),
                top@ == listed + before.current.top.take(j as int).filter(held),
            decreases before.current.top.len() - j,
        {
            let sid: SessionId = self.current.top[j];
            proof {
                assert(before.current.top.to_set().contains(sid));
                assert(before.known(seen@).contains(sid));
            }
            let (_up, down) = self.streak_ends(sid, now);
            if !contains_id(&ids, sid) && !down {
                top.push(sid);
            }
            proof {
                reveal(Seq::filter);
                let members = before.current.top;
                assert(members.take(j + 1).drop_last() =~= members.take(j as int));
                assert(top@ =~= listed + members.take(j + 1).filter(held));
            }
            j = j + 1;
        }
        proof {
            assert(before.current.top.take(before.current.top.len() as int)
                =~= before.current.top);
        }
        top.truncate(MAX_SPEAKERS);
        proof {
            assert(top@ =~= before.next_top(seen@, now));
        }
        top
    }

    /// Whether `sid` has risen and whether it has fallen.
    fn streak_ends(&self, sid: SessionId, now: u64) -> (r: (bool, bool))
        requires
            self@.candidates.contains_key(sid),
        ensures
            r.0 == risen(self@.candidates[sid], now),
            r.1 == fallen(self@.candidates[sid], now),
    {
        match self.candidates.get(&sid) {
            Some(c) => {
                let up = match c.above_since {
                    Some(t) => now.saturating_sub(t) >= ENTRY_WINDOW,
                    None => false,
                };
                let down = match c.below_since {
                    Some(t) => now.saturating_sub(t) >= EXIT_WINDOW,
                    None => false,
                };
                (up, down)
            },
            None => (false, false),
        }
    }

    /// Drops the streaks that are no longer of interest.
    fn drop_streaks(
        &mut self,
        seen: &Vec<(SessionId, Float32)>,
        now: u64,
        Ghost(before): Ghost<TickView>,
    )
        requires
            old(self)@ == (TickView {
                candidates: before.streaks(seen@, now),
                current: before.next_speakers(seen@, now),
                ..before
            }),
        ensures
            final(self)@ == (TickView {
                candidates: Map::new(
                    |s: SessionId|
                        before.known(seen@).contains(s) && before.keeps_streak(seen@, now, s),
                    |s: SessionId| before.streaks(seen@, now)[s],
                ),
                ..old(self)@
            }),
    {
        let ghost start = self@;
        let ghost all = before.streaks(seen@, now);
        let ids = score_ids(seen);
        let keys = sorted_keys(&self.candidates);
        proof {
            assert(self@.candidates =~= Map::new(
                |s: SessionId|
                    all.contains_key(s) && !(keys@.take(0).contains(s) && !before.keeps_streak(
                        seen@,
                        now,
                        s,
                    )),
                |s: SessionId| all[s],
            ));
        }
        let mut i: usize = 0;
        while i < keys.len()
            invariant
                i <= keys@.len(),
                ids@ == ids_of(seen@),
                all == before.streaks(seen@, now),
                crate::ids::lists_ascending(keys@, all.dom()),
                start.current == before.next_speakers(seen@, now),
                self@ == (TickView { candidates: self@.candidates, ..start }),
                self@.candidates == Map::new(
                    |s: SessionId|
                        all.contains_key(s) && !(keys@.take(i as int).contains(s)
                            && !before.keeps_streak(seen@, now, s)),
                    |s: SessionId| all[s],
                ),
            decreases keys@.len() - i,
        {
            let sid: SessionId = keys[i];
            proof {
                assert(keys@.to_set().contains(sid));
                assert(!keys@.take(i as int).contains(sid)) by {
                    if keys@.take(i as int).contains(sid) {
                        let k = choose|k: int| 0 <= k < i && keys@.take(i as int)[k] == sid;
                        assert(keys@[k] < keys@[i as int]);
                    }
                }
                assert forall|s: SessionId| keys@.take(i + 1).contains(s) <==> (keys@.take(
                    i as int,
                ).contains(s) || s == sid) by {
                    crate::ids::lemma_prefix_set(keys@, i as int);
                    assert(keys@.take(i + 1).to_set().contains(s) <==> keys@.take(i + 1).contains(
                        s,
                    ));
                    assert(keys@.take(i as int).to_set().contains(s) <==> keys@.take(
                        i as int,
                    ).contains(s));
                }
                assert(self@.candidates.contains_key(sid));
            }
            let falling: bool = match self.candidates.get(&sid) {
                Some(c) => match c.below_since {
                    Some(t) => now.saturating_sub(t) < EXIT_WINDOW,
                    None => false,
                },
                None => false,
            };
            let keep: bool = contains_id(&self.current.top, sid) || contains_id(&ids, sid)
                || falling;
            proof {
                assert(keep == before.keeps_streak(seen@, now, sid));
            }
            if !keep {
                self.candidates.remove(&sid);
            }
            proof {
                assert(self@.candidates =~= Map::new(
                    |s: SessionId|
                        all.contains_key(s) && !(keys@.take(i + 1).contains(s)
                            && !before.keeps_streak(seen@, now, s)),
                    |s: SessionId| all[s],
                ));
            }
            i = i + 1;
        }
        proof {
            assert(keys@.take(keys@.len() as int) =~= keys@);
            assert forall|s: SessionId| all.contains_key(s) <==> keys@.contains(s) by {
                assert(keys@.to_set().contains(s) <==> keys@.contains(s));
            }
            assert(self@.candidates =~= Map::new(
                |s: SessionId|
                    before.known(seen@).contains(s) && before.keeps_streak(seen@, now, s),
                |s: SessionId| before.streaks(seen@, now)[s],
            ));
        }
    }

    /// One pass over the scores. Returns what is to be announced: the new speaker
    /// set, if it changed, changes are announced and the room has a name.
    pub fn tick_once(&mut self, scorer: &SpeakerScorer, now: u64) -> (r: Option<
        SpeakerAnnouncement,
    >)
        requires
            old(self)@.wf(),
            scorer.wf(),
        ensures
            final(self)@.wf(),
            final(self)@ == old(self)@.after_tick(scorer@, now),
            r is Some <==> old(self)@.announces && old(self)@.room_id.len() > 0
                && final(self)@.current.generation != old(self)@.current.generation,
            r is Some <==> old(self)@.announces_tick(scorer@, now),
            r matches Some(a) ==> {
                &&& a.subject@ == "room."@ + old(self)@.room_id + ".system"@
                &&& a.update.generation == final(self)@.current.generation
                &&& a.update.top_speakers@ == speaker_entries(
                    final(self)@.current.top,
                    scorer@,
                    now,
                )
            },
    {
        let ghost before = self@;
        let seen = scorer.top_n(OBSERVED_SPEAKERS);
        proof {
            assert(seen@ == seen_by_tick(scorer@));
        }
        self.refresh_streaks(&seen, now);
        let top = self.select_top(&seen, now, Ghost(before));
        proof {
            lemma_next_top(before, scorer@, now);
        }
        let changed = !same_ids(&top, &self.current.top);
        if changed {
            self.current = ActiveSpeakerSet {
                top,
                generation: self.current.generation.wrapping_add(1),
                last_change: now,
            };
        }
        proof {
            assert(self@.current == before.next_speakers(seen@, now));
        }
        self.drop_streaks(&seen, now, Ghost(before));
        proof {
            assert(self@.candidates =~= before.after_tick(scorer@, now).candidates);
        }
        if changed && self.announces && !self.room_id.as_str().is_empty() {
            let update = SpeakerTick::build_speaker_update(scorer, &self.current, now);
            let mut subject = String::from_str("room.");
            subject.append(self.room_id.as_str());
            subject.append(".system");
            Some(SpeakerAnnouncement { subject, update })
        } else {
            None
        }
    }

    /// The announcement of `snap`, with the scores of this moment.
    pub fn build_speaker_update(
        scorer: &SpeakerScorer,
        snap: &ActiveSpeakerSet,
        now: u64,
    ) -> (r: SpeakerUpdate)
        ensures
            r.generation == snap@.generation,
            r.top_speakers@ == speaker_entries(snap@.top, scorer@, now),
    {
        let mut top_speakers: Vec<SpeakerEntry> = Vec::new();
        let mut i: usize = 0;
        while i < snap.top.len()
            invariant
                i <= snap.top@.len(),
                top_speakers@ == speaker_entries(snap.top@.take(i as int), scorer@, now),
            decreases snap.top@.len() - i,
        {
            let sid: SessionId = snap.top[i];
            top_speakers.push(
                SpeakerEntry {
                    session_id: sid,
                    score: scorer.score(sid),
                    is_speaking: scorer.is_speaking(sid, now),
                },
            );
            proof {
                assert(top_speakers@ =~= speaker_entries(snap.top@.take(i + 1), scorer@, now));
            }
            i = i + 1;
        }
        proof {
            assert(snap.top@.take(snap.top@.len() as int) =~= snap.top@);
        }
        SpeakerUpdate { top_speakers, generation: snap.generation }
    }
}

/// The next speakers are few and distinct.
proof fn lemma_next_top(tick: TickView, scores: Map<SessionId, ScoreState>, now: u64)
    requires
        tick.wf(),
        lists_ranking(ranking(scores), scores, scores.dom()),
    ensures
        tick.next_top(seen_by_tick(scores), now).no_duplicates(),
        tick.next_top(seen_by_tick(scores), now).len() <= MAX_SPEAKERS,
{
    let seen = seen_by_tick(scores);
    let ids = ids_of(seen);
    let stay = tick.active_if_seen(seen, now);
    let held = tick.active_if_unseen(seen, now);
    let a = ids.filter(stay);
    let b = tick.current.top.filter(held);
    assert forall|i: int, j: int| 0 <= i < ids.len() && 0 <= j < ids.len() && i != j implies ids[i]
        != ids[j] by {
        let r = ranking(scores);
        if i < j {
            assert(ranks_before(r[i], r[j]));
        } else {
            assert(ranks_before(r[j], r[i]));
        }
        assert(r[i].1 == scores[r[i].0].ewma);
        assert(r[j].1 == scores[r[j].0].ewma);
    }
    lemma_filter_distinct(ids, stay);
    lemma_filter_distinct(tick.current.top, held);
    let all = a + b;
    assert forall|i: int, j: int| 0 <= i < all.len() && 0 <= j < all.len() && i != j implies all[i]
        != all[j] by {
        if i < a.len() && j >= a.len() {
            assert(a.contains(a[i]));
            ids.lemma_filter_contains_rev(stay, a[i]);
            tick.current.top.lemma_filter_pred(held, j - a.len());
        } else if j < a.len() && i >= a.len() {
            assert(a.contains(a[j]));
            ids.lemma_filter_contains_rev(stay, a[j]);
            tick.current.top.lemma_filter_pred(held, i - a.len());
        }
    }
}

/// Filtering keeps elements distinct.
proof fn lemma_filter_distinct(s: Seq<SessionId>, p: spec_fn(SessionId) -> bool)
    requires
        s.no_duplicates(),
    ensures
        s.filter(p).no_duplicates(),
    decreases s.len(),
{
    reveal(Seq::filter);
    if s.len() > 0 {
        let front = s.drop_last();
        lemma_filter_distinct(front, p);
        let f = front.filter(p);
        assert(!f.contains(s.last())) by {
            if f.contains(s.last()) {
                front.lemma_filter_contains_rev(p, s.last());
                let k = choose|k: int| 0 <= k < front.len() && front[k] == s.last();
                assert(s[k] != s[s.len() - 1]);
            }
        }
    }
}

/// The scores of a finite room can be ranked.
proof fn lemma_ranking_exists(scores: Map<SessionId, ScoreState>, ids: Set<SessionId>)
    requires
        ids.finite(),
        ids.subset_of(scores.dom()),
    ensures
        exists|s: Seq<(SessionId, Float32)>| lists_ranking(s, scores, ids),
    decreases ids.len(),
{
    if ids.is_empty() {
        let s = Seq::<(SessionId, Float32)>::empty();
        assert(lists_ranking(s, scores, ids));
    } else {
        let id = ids.choose();
        let rest = ids.remove(id);
        lemma_ranking_exists(scores, rest);
        let s = choose|s: Seq<(SessionId, Float32)>| lists_ranking(s, scores, rest);
        let r = place(s, (id, scores[id].ewma));
        lemma_place(s, (id, scores[id].ewma), scores, rest);
        assert(rest.insert(id) =~= ids);
        assert(lists_ranking(r, scores, ids));
    }
}

/// `s` with `x` put at its rank.
spec fn place(s: Seq<(SessionId, Float32)>, x: (SessionId, Float32)) -> Seq<(SessionId, Float32)>
    decreases s.len(),
{
    if s.len() == 0 || ranks_before(s.last(), x) {
        s.push(x)
    } else {
        place(s.drop_last(), x).push(s.last())
    }
}

proof fn lemma_place(
    s: Seq<(SessionId, Float32)>,
    x: (SessionId, Float32),
    scores: Map<SessionId, ScoreState>,
    ids: Set<SessionId>,
)
    requires
        lists_ranking(s, scores, ids),
        !ids.contains(x.0),
        scores.contains_key(x.0),
        scores[x.0].ewma == x.1,
    ensures
        lists_ranking(place(s, x), scores, ids.insert(x.0)),
    decreases s.len(),
{
    let r = place(s, x);
    let all = ids.insert(x.0);
    if s.len() == 0 || ranks_before(s.last(), x) {
        assert forall|i: int, j: int| 0 <= i < j < r.len() implies ranks_before(r[i], r[j]) by {
            if j == s.len() {
                if i < s.len() - 1 {
                    assert(ranks_before(s[i], s[s.len() - 1]));
                }
            } else {
                assert(ranks_before(s[i], s[j]));
            }
        }
        assert forall|i: int| 0 <= i < r.len() implies all.contains((#[trigger] r[i]).0)
            && scores.contains_key(r[i].0) && r[i].1 == scores[r[i].0].ewma by {
            if i < s.len() {
                assert(r[i] == s[i]);
                assert(ids.contains(s[i].0));
            }
        }
        assert forall|id: SessionId| #[trigger] all.contains(id) implies exists|i: int|
            0 <= i < r.len() && (#[trigger] r[i]).0 == id by {
            if id == x.0 {
                assert(r[s.len() as int].0 == id);
            } else {
                assert(ids.contains(id));
                let i = choose|i: int| 0 <= i < s.len() && (#[trigger] s[i]).0 == id;
                assert(r[i].0 == id);
            }
        }
    } else {
        let front = s.drop_last();
        let last = s.last();
        lemma_ranking_drop_last(s, scores, ids);
        assert(ids.contains(s[s.len() - 1].0));
        let rest = ids.remove(last.0);
        lemma_place(front, x, scores, rest);
        let f = place(front, x);
        assert forall|i: int| 0 <= i < f.len() implies ranks_before(#[trigger] f[i], last) by {
            assert(rest.insert(x.0).contains(f[i].0));
            if f[i].0 == x.0 {
                assert(f[i] == x);
                assert(!ranks_before(last, x));
            } else {
                assert(rest.contains(f[i].0));
                let k = choose|k: int|
                    0 <= k < front.len() && (#[trigger] front[k]).0 == f[i].0;
                assert(front[k].1 == scores[front[k].0].ewma);
                assert(ranks_before(s[k], s[s.len() - 1]));
            }
        }
        assert forall|i: int| 0 <= i < r.len() implies all.contains((#[trigger] r[i]).0)
            && scores.contains_key(r[i].0) && r[i].1 == scores[r[i].0].ewma by {
            if i < f.len() {
                assert(r[i] == f[i]);
                assert(rest.insert(x.0).contains(f[i].0));
            } else {
                assert(s[s.len() - 1].1 == scores[s[s.len() - 1].0].ewma);
            }
        }
        assert forall|id: SessionId| #[trigger] all.contains(id) implies exists|i: int|
            0 <= i < r.len() && (#[trigger] r[i]).0 == id by {
            if id == last.0 {
                assert(r[f.len() as int].0 == id);
            } else {
                assert(rest.insert(x.0).contains(id));
                let i = choose|i: int| 0 <= i < f.len() && (#[trigger] f[i]).0 == id;
                assert(r[i].0 == id);
            }
        }
    }
}

/// There are never more than [`MAX_SPEAKERS`] active speakers, and none twice.
pub proof fn law_speakers_are_few_and_distinct(
    tick: TickView,
    scores: Map<SessionId, ScoreState>,
    now: u64,
)
    requires
        tick.wf(),
        scores.dom().finite(),
    ensures
        tick.after_tick(scores, now).wf(),
{
    lemma_ranking_exists(scores, scores.dom());
    lemma_next_top(tick, scores, now);
}

/// The generation moves exactly when the speakers, or their order, change, and
/// the time of change with it.
pub proof fn law_generation_moves_with_speakers(
    tick: TickView,
    scores: Map<SessionId, ScoreState>,
    now: u64,
)
    ensures
        ({
            let after = tick.after_tick(scores, now).current;
            &&& after.generation == tick.current.generation <==> after.top == tick.current.top
            &&& after.top == tick.current.top ==> after.last_change == tick.current.last_change
            &&& after.top != tick.current.top ==> after.last_change == now && after.generation
                == tick.current.generation.wrapping_add(1)
        }),
{
}

/// Entry takes time: whoever becomes active was above the floor at every tick for
/// at least [`ENTRY_WINDOW`], so nobody does at the tick that first sees it.
pub proof fn law_entry_takes_time(
    tick: TickView,
    scores: Map<SessionId, ScoreState>,
    now: u64,
    sid: SessionId,
)
    requires
        tick.after_tick(scores, now).current.top.contains(sid),
        !tick.current.top.contains(sid),
    ensures
        tick.candidate(sid).above_since matches Some(t) && age(now, t) >= ENTRY_WINDOW,
        above_floor(seen_by_tick(scores), sid),
{
    let seen = seen_by_tick(scores);
    let ids = ids_of(seen);
    let stay = tick.active_if_seen(seen, now);
    let held = tick.active_if_unseen(seen, now);
    let a = ids.filter(stay);
    let b = tick.current.top.filter(held);
    let top = tick.next_top(seen, now);
    assert(top.contains(sid));
    let k = choose|k: int| 0 <= k < top.len() && top[k] == sid;
    assert((a + b)[k] == sid);
    if k < a.len() {
        ids.lemma_filter_pred(stay, k);
        assert(a.contains(a[k]));
        ids.lemma_filter_contains_rev(stay, sid);
        assert(ids.to_set().contains(sid));
    } else {
        assert(b[k - a.len()] == sid);
        assert(b.contains(sid));
        tick.current.top.lemma_filter_contains_rev(held, sid);
    }
}

/// Exit takes time: an active speaker that is dropped was below the floor at every
/// tick for at least [`EXIT_WINDOW`], unless four others took all the places.
pub proof fn law_exit_takes_time(
    tick: TickView,
    scores: Map<SessionId, ScoreState>,
    now: u64,
    sid: SessionId,
)
    requires
        tick.current.top.contains(sid),
        !tick.after_tick(scores, now).current.top.contains(sid),
    ensures
        fallen(tick.streaks(seen_by_tick(scores), now)[sid], now) || tick.after_tick(
            scores,
            now,
        ).current.top.len() == MAX_SPEAKERS,
{
    let seen = seen_by_tick(scores);
    let ids = ids_of(seen);
    let stay = tick.active_if_seen(seen, now);
    let held = tick.active_if_unseen(seen, now);
    let a = ids.filter(stay);
    let b = tick.current.top.filter(held);
    let top = tick.next_top(seen, now);
    if !fallen(tick.streaks(seen, now)[sid], now) && top.len() < MAX_SPEAKERS {
        assert(top == a + b);
        if ids.contains(sid) {
            let k = choose|k: int| 0 <= k < ids.len() && ids[k] == sid;
            ids.lemma_filter_contains(stay, k);
            let j = choose|j: int| 0 <= j < a.len() && a[j] == sid;
            assert(top[j] == sid);
        } else {
            let k = choose|k: int|
                0 <= k < tick.current.top.len() && tick.current.top[k] == sid;
            tick.current.top.lemma_filter_contains(held, k);
            let j = choose|j: int| 0 <= j < b.len() && b[j] == sid;
            assert(top[a.len() + j] == sid);
        }
        assert(top.contains(sid));
    }
}

/// Two ticks suffice: a sender that is above the floor at two ticks at least
/// [`ENTRY_WINDOW`] apart, and one of the four best at the second, is active then.
pub proof fn law_two_ticks_admit(
    tick: TickView,
    first: Map<SessionId, ScoreState>,
    second: Map<SessionId, ScoreState>,
    t1: u64,
    t2: u64,
    place: int,
)
    requires
        0 <= place < MAX_SPEAKERS,
        place < seen_by_tick(second).len(),
        above_floor(seen_by_tick(first), seen_by_tick(second)[place].0),
        above_floor(seen_by_tick(second), seen_by_tick(second)[place].0),
        tick.candidate(seen_by_tick(second)[place].0).above_since matches Some(t) ==> t <= t1,
        t2 >= t1,
        t2 - t1 >= ENTRY_WINDOW,
    ensures
        tick.after_tick(first, t1).after_tick(second, t2).current.top.contains(
            seen_by_tick(second)[place].0,
        ),
{
    let seen1 = seen_by_tick(first);
    let seen2 = seen_by_tick(second);
    let sid = seen2[place].0;
    let mid = tick.after_tick(first, t1);
    let ids1 = ids_of(seen1);
    let i = choose|i: int|
        0 <= i < seen1.len() && (#[trigger] seen1[i]).0 == sid && seen1[i].1.exceeds(
            SPEAKING_FLOOR,
        );
    assert(ids1[i] == sid);
    assert(ids1.contains(sid));
    assert(ids1.to_set().contains(sid));
    assert(mid.candidates.contains_key(sid));
    let ids2 = ids_of(seen2);
    assert(ids2[place] == sid);
    assert(ids2.to_set().contains(sid));
    let stay = mid.active_if_seen(seen2, t2);
    assert(stay(sid));
    lemma_filter_position(ids2, stay, place);
    let a = ids2.filter(stay);
    let j = choose|j: int| 0 <= j <= place && j < a.len() && a[j] == sid;
    let top = mid.next_top(seen2, t2);
    assert(top[j] == sid);
}

/// Filtering moves an element that stays towards the front.
proof fn lemma_filter_position(s: Seq<SessionId>, p: spec_fn(SessionId) -> bool, k: int)
    requires
        0 <= k < s.len(),
        p(s[k]),
    ensures
        exists|j: int| 0 <= j <= k && j < s.filter(p).len() && s.filter(p)[j] == s[k],
    decreases s.len(),
{
    reveal(Seq::filter);
    let front = s.drop_last();
    if k < front.len() {
        lemma_filter_position(front, p, k);
        let j = choose|j: int| 0 <= j <= k && j < front.filter(p).len() && front.filter(p)[j] == front[k];
        assert(s.filter(p)[j] == s[k]);
    } else {
        front.lemma_filter_len(p);
        assert(s.filter(p)[front.filter(p).len() as int] == s[k]);
    }
}

/// Silence never raises a score.
pub proof fn law_silence_never_raises(prev: Float32)
    requires
        prev.bits <= crate::float32::ONE_BITS,
    ensures
        next_average(prev, Float32 { bits: 0 }).bits <= prev.bits,
{
    let zero = Float32 { bits: 0 };
    let beta = Float32 { bits: ONE_MINUS_ALPHA };
    let alpha = Float32 { bits: ALPHA };
    assert(zero.clamped() == zero);
    assert(zero.units() == 0);
    assert(alpha.units() * 0 == 0) by (nonlinear_arith);
    vstd::arithmetic::power2::lemma_pow2_pos(149);
    vstd::arithmetic::power2::lemma2_to64();
    crate::float32::lemma_at_most_one(beta);
    crate::float32::lemma_shrink(prev, beta.units());
    assert(prev.units() * beta.units() == beta.units() * prev.units()) by (nonlinear_arith);
    let new = crate::rounding::rounded(0, pow2(149), 24);
    let past = crate::rounding::rounded(beta.units() * prev.units(), pow2(149), 24);
    assert(new <= 0) by {
        assert(0 <= (0 * pow2(0)) * pow2(149)) by (nonlinear_arith);
        assert(0 * pow2(0) == 0) by (nonlinear_arith);
        crate::rounding::lemma_rounded_at_most(0, pow2(149), 0, 0, 24);
    }
    crate::float32::lemma_parts(prev);
    crate::rounding::lemma_rounded_at_most(
        new + past,
        1,
        crate::float32::significand(prev),
        crate::float32::exponent(prev),
        24,
    );
    lemma_average_is_single(prev, zero);
    let r = next_average(prev, zero);
    if r.bits > prev.bits {
        crate::float32::lemma_units_increase(prev, r);
    }
}

/// The moving average of numbers is a plain value of the units it was computed to.
proof fn lemma_average_is_single(prev: Float32, c: Float32)
    requires
        prev.bits <= crate::float32::ONE_BITS,
        c.bits <= crate::float32::ONE_BITS,
    ensures
        crate::float32::single_of(average_units(prev, c)).is_plain(),
        crate::float32::single_of(average_units(prev, c)).units() == average_units(prev, c),
{
    crate::float32::lemma_at_most_one(c);
    lemma_average_bounded(prev, c.units());
    let alpha = Float32 { bits: ALPHA };
    let beta = Float32 { bits: ONE_MINUS_ALPHA };
    let new = crate::rounding::rounded(alpha.units() * c.units(), pow2(149), 24);
    let past = crate::rounding::rounded(beta.units() * prev.units(), pow2(149), 24);
    vstd::arithmetic::power2::lemma_pow2_strictly_increases(149, 277);
    crate::float32::lemma_rounded_is_single(new + past, 1);
}

/// Every average is in order.
pub open spec fn scores_in_order(scores: Map<SessionId, ScoreState>) -> bool {
    &&& scores.dom().finite()
    &&& forall|s: SessionId| #[trigger] scores.contains_key(s) ==> scores[s].wf()
}

/// `a` scores higher than `b`, or as high and its id is smaller.
pub open spec fn scores_higher(
    scores: Map<SessionId, ScoreState>,
    a: SessionId,
    b: SessionId,
) -> bool {
    let x = scores[a].ewma.bits;
    let y = scores[b].ewma.bits;
    x > y || x == y && a < b
}

/// Everyone who scores higher than `s`.
pub open spec fn higher_scores(scores: Map<SessionId, ScoreState>, s: SessionId) -> Set<SessionId> {
    Set::new(|t: SessionId| scores.contains_key(t) && scores_higher(scores, t, s))
}

/// The ranking lists every sender once, the highest score first.
proof fn lemma_ranked(scores: Map<SessionId, ScoreState>)
    requires
        scores_in_order(scores),
    ensures
        ({
            let q = ids_of(ranking(scores));
            &&& lists_ranking(ranking(scores), scores, scores.dom())
            &&& forall|i: int, j: int|
                0 <= i < j < q.len() ==> scores_higher(scores, #[trigger] q[i], #[trigger] q[j])
            &&& forall|s: SessionId| #[trigger] q.contains(s) <==> scores.contains_key(s)
        }),
{
    lemma_ranking_exists(scores, scores.dom());
    let r = ranking(scores);
    let q = ids_of(r);
    assert forall|i: int, j: int| 0 <= i < j < q.len() implies scores_higher(
        scores,
        #[trigger] q[i],
        #[trigger] q[j],
    ) by {
        assert(ranks_before(r[i], r[j]));
        assert(scores.contains_key(r[i].0) && scores.contains_key(r[j].0));
        assert(scores[r[i].0].wf() && scores[r[j].0].wf());
    }
    assert forall|s: SessionId| #[trigger] q.contains(s) <==> scores.contains_key(s) by {
        if q.contains(s) {
            let k = choose|k: int| 0 <= k < q.len() && q[k] == s;
            assert(scores.contains_key(r[k].0));
        }
        if scores.contains_key(s) {
            assert(scores.dom().contains(s));
            let k = choose|k: int| 0 <= k < r.len() && (#[trigger] r[k]).0 == s;
            assert(q[k] == s);
        }
    }
}

/// The best `n` scores are those that fewer than `n` others are higher than. They are
/// listed with the highest first, each with its average.
pub proof fn law_best_scores_are_listed(
    scores: Map<SessionId, ScoreState>,
    n: nat,
    s: SessionId,
)
    requires
        scores_in_order(scores),
    ensures
        ({
            let listed = first_n(ranking(scores), n);
            &&& (exists|i: int| 0 <= i < listed.len() && (#[trigger] listed[i]).0 == s)
                <==> scores.contains_key(s) && higher_scores(scores, s).len() < n
            &&& forall|i: int|
                0 <= i < listed.len() ==> scores.contains_key((#[trigger] listed[i]).0)
                    && listed[i].1 == scores[listed[i].0].ewma
            &&& forall|i: int, j: int|
                0 <= i < j < listed.len() ==> scores_higher(
                    scores,
                    (#[trigger] listed[i]).0,
                    (#[trigger] listed[j]).0,
                )
            &&& listed.len() <= n
        }),
{
    lemma_ranked(scores);
    let r = ranking(scores);
    let q = ids_of(r);
    let listed = first_n(r, n);
    let before = |a: SessionId, b: SessionId| scores_higher(scores, a, b);
    assert forall|i: int, j: int| 0 <= i < j < listed.len() implies scores_higher(
        scores,
        (#[trigger] listed[i]).0,
        (#[trigger] listed[j]).0,
    ) by {
        assert(q[i] == listed[i].0 && q[j] == listed[j].0);
    }
    assert forall|i: int| 0 <= i < listed.len() implies scores.contains_key(
        (#[trigger] listed[i]).0,
    ) && listed[i].1 == scores[listed[i].0].ewma by {
        assert(r[i] == listed[i]);
    }
    if scores.contains_key(s) {
        assert forall|i: int, j: int| 0 <= i <= j < q.len() implies !before(
            #[trigger] q[j],
            #[trigger] q[i],
        ) by {
            if i < j {
                assert(scores_higher(scores, q[i], q[j]));
            }
        }
        assert forall|t: SessionId| #[trigger] higher_scores(scores, s).contains(t) <==> q.contains(
            t,
        ) && before(t, s) by {
            assert(q.contains(t) <==> scores.contains_key(t));
        }
        assert(q.contains(s));
        crate::ids::lemma_first_by_rank(q, before, n, s, higher_scores(scores, s));
        if higher_scores(scores, s).len() < n {
            let k = choose|k: int| 0 <= k < q.len() && k < n && #[trigger] q[k] == s;
            assert(listed[k].0 == s);
        }
        if exists|i: int| 0 <= i < listed.len() && (#[trigger] listed[i]).0 == s {
            let i = choose|i: int| 0 <= i < listed.len() && (#[trigger] listed[i]).0 == s;
            assert(q[i] == s);
        }
    }
}

/// A tick takes note of `s`: its score is among the sixteen best.
pub open spec fn noticed(scores: Map<SessionId, ScoreState>, s: SessionId) -> bool {
    scores.contains_key(s) && higher_scores(scores, s).len() < 16
}

/// A tick hears `s`: it takes note of it, and its average is above 0.05.
pub open spec fn heard(scores: Map<SessionId, ScoreState>, s: SessionId) -> bool {
    noticed(scores, s) && 0x3D4C_CCCD < scores[s].ewma.bits <= 0x3F80_0000
}

/// `s` has been silent for 800 ms, counting a tick at `now`.
pub open spec fn silent_for_long(
    tick: TickView,
    scores: Map<SessionId, ScoreState>,
    now: u64,
    s: SessionId,
) -> bool {
    &&& !heard(scores, s)
    &&& tick.candidates.contains_key(s)
    &&& tick.candidates[s].below_since matches Some(t) && t + 800_000_000 <= now
}

/// `s` has a claim to be active after a tick at `now`: it is heard and has been for
/// 200 ms, or it is active and has not been silent for 800 ms.
pub open spec fn has_claim(
    tick: TickView,
    scores: Map<SessionId, ScoreState>,
    now: u64,
    s: SessionId,
) -> bool {
    ||| heard(scores, s) && tick.candidates.contains_key(s) && (
    tick.candidates[s].above_since matches Some(t) && t + 200_000_000 <= now)
    ||| tick.current.top.contains(s) && !silent_for_long(tick, scores, now, s)
}

/// The claim of `a` goes before that of `b`: by score among those that the tick takes
/// note of, these before the others, and the others as they stood.
pub open spec fn claims_first(
    tick: TickView,
    scores: Map<SessionId, ScoreState>,
    a: SessionId,
    b: SessionId,
) -> bool {
    if noticed(scores, a) && noticed(scores, b) {
        scores_higher(scores, a, b)
    } else if noticed(scores, a) || noticed(scores, b) {
        noticed(scores, a)
    } else {
        tick.current.top.index_of(a) < tick.current.top.index_of(b)
    }
}

/// What a tick sees and hears.
proof fn lemma_noticed(scores: Map<SessionId, ScoreState>, s: SessionId)
    requires
        scores_in_order(scores),
    ensures
        ids_of(seen_by_tick(scores)).contains(s) <==> noticed(scores, s),
        above_floor(seen_by_tick(scores), s) <==> heard(scores, s),
{
    law_best_scores_are_listed(scores, 16, s);
    let seen = seen_by_tick(scores);
    let ids = ids_of(seen);
    if ids.contains(s) {
        let k = choose|k: int| 0 <= k < ids.len() && ids[k] == s;
        assert(seen[k].0 == s);
    }
    if noticed(scores, s) {
        let k = choose|k: int| 0 <= k < seen.len() && (#[trigger] seen[k]).0 == s;
        assert(ids[k] == s);
        assert(scores[s].wf());
        assert(seen[k].1 == scores[seen[k].0].ewma);
    }
    if above_floor(seen, s) {
        let k = choose|k: int|
            0 <= k < seen.len() && (#[trigger] seen[k]).0 == s && seen[k].1.exceeds(
                SPEAKING_FLOOR,
            );
        assert(seen[k].1 == scores[seen[k].0].ewma);
        assert(scores[s].wf());
    }
}

/// The senders from which a tick takes the active ones, in order of their claims.
spec fn claimants(tick: TickView, seen: Seq<(SessionId, Float32)>, now: u64) -> Seq<SessionId> {
    ids_of(seen).filter(tick.active_if_seen(seen, now)) + tick.current.top.filter(
        tick.active_if_unseen(seen, now),
    )
}

/// Who has a claim is a claimant.
proof fn lemma_claimant(
    tick: TickView,
    scores: Map<SessionId, ScoreState>,
    now: u64,
    s: SessionId,
)
    requires
        tick.wf(),
        scores_in_order(scores),
    ensures
        claimants(tick, seen_by_tick(scores), now).contains(s) <==> has_claim(
            tick,
            scores,
            now,
            s,
        ),
{
    let seen = seen_by_tick(scores);
    let ids = ids_of(seen);
    let top = tick.current.top;
    let stay = tick.active_if_seen(seen, now);
    let held = tick.active_if_unseen(seen, now);
    let a = ids.filter(stay);
    let b = top.filter(held);
    let all = claimants(tick, seen, now);
    lemma_noticed(scores, s);
    assert(ids.to_set().contains(s) <==> ids.contains(s));
    assert(top.to_set().contains(s) <==> top.contains(s));
    if all.contains(s) {
        let k = choose|k: int| 0 <= k < all.len() && all[k] == s;
        if k < a.len() {
            ids.lemma_filter_pred(stay, k);
            assert(a.contains(a[k]));
            ids.lemma_filter_contains_rev(stay, s);
            assert(tick.known(seen).contains(s));
        } else {
            top.lemma_filter_pred(held, k - a.len());
            assert(b.contains(b[k - a.len()]));
            top.lemma_filter_contains_rev(held, s);
            assert(tick.known(seen).contains(s));
        }
    }
    if has_claim(tick, scores, now, s) {
        if ids.contains(s) {
            assert(tick.known(seen).contains(s));
            assert(stay(s));
            let k = choose|k: int| 0 <= k < ids.len() && ids[k] == s;
            ids.lemma_filter_contains(stay, k);
            let j = choose|j: int| 0 <= j < a.len() && a[j] == s;
            assert(all[j] == s);
        } else {
            assert(top.contains(s));
            assert(tick.known(seen).contains(s));
            assert(held(s));
            let k = choose|k: int| 0 <= k < top.len() && top[k] == s;
            top.lemma_filter_contains(held, k);
            let j = choose|j: int| 0 <= j < b.len() && b[j] == s;
            assert(all[a.len() + j] == s);
        }
    }
}

/// Filtering keeps the order.
proof fn lemma_filter_order(s: Seq<SessionId>, p: spec_fn(SessionId) -> bool, i: int, j: int)
    requires
        0 <= i < j < s.filter(p).len(),
    ensures
        exists|x: int, y: int|
            0 <= x < y < s.len() && #[trigger] s[x] == s.filter(p)[i] && #[trigger] s[y]
                == s.filter(p)[j],
    decreases s.len(),
{
    reveal(Seq::filter);
    let front = s.drop_last();
    let f = front.filter(p);
    if j < f.len() {
        lemma_filter_order(front, p, i, j);
        let (x, y) = choose|x: int, y: int|
            0 <= x < y < front.len() && #[trigger] front[x] == f[i] && #[trigger] front[y] == f[j];
        assert(s[x] == s.filter(p)[i] && s[y] == s.filter(p)[j]);
    } else {
        assert(f.contains(f[i]));
        front.lemma_filter_contains_rev(p, f[i]);
        let x = choose|x: int| 0 <= x < front.len() && front[x] == f[i];
        let y = s.len() - 1;
        assert(s[x] == s.filter(p)[i] && s[y] == s.filter(p)[j]);
    }
}

/// The claimants stand in the order of their claims.
proof fn lemma_claimants_in_order(
    tick: TickView,
    scores: Map<SessionId, ScoreState>,
    now: u64,
    i: int,
    j: int,
)
    requires
        tick.wf(),
        scores_in_order(scores),
        0 <= i < j < claimants(tick, seen_by_tick(scores), now).len(),
    ensures
        ({
            let all = claimants(tick, seen_by_tick(scores), now);
            &&& claims_first(tick, scores, all[i], all[j])
            &&& !claims_first(tick, scores, all[j], all[i])
        }),
{
    let seen = seen_by_tick(scores);
    let ids = ids_of(seen);
    let top = tick.current.top;
    let stay = tick.active_if_seen(seen, now);
    let held = tick.active_if_unseen(seen, now);
    let a = ids.filter(stay);
    let b = top.filter(held);
    let all = claimants(tick, seen, now);
    law_best_scores_are_listed(scores, 16, all[i]);
    lemma_noticed(scores, all[i]);
    lemma_noticed(scores, all[j]);
    if i < a.len() {
        assert(a.contains(a[i]));
        ids.lemma_filter_contains_rev(stay, a[i]);
    } else {
        top.lemma_filter_pred(held, i - a.len());
    }
    if j < a.len() {
        assert(a.contains(a[j]));
        ids.lemma_filter_contains_rev(stay, a[j]);
        lemma_filter_order(ids, stay, i, j);
        let (x, y) = choose|x: int, y: int|
            0 <= x < y < ids.len() && #[trigger] ids[x] == a[i] && #[trigger] ids[y] == a[j];
        assert(scores_higher(scores, seen[x].0, seen[y].0));
    } else {
        top.lemma_filter_pred(held, j - a.len());
        if i >= a.len() {
            lemma_filter_order(top, held, i - a.len(), j - a.len());
            let (x, y) = choose|x: int, y: int|
                0 <= x < y < top.len() && #[trigger] top[x] == b[i - a.len()] && #[trigger] top[y]
                    == b[j - a.len()];
            assert(top.contains(top[x]) && top.contains(top[y]));
            assert(top.index_of(top[x]) == x);
            assert(top.index_of(top[y]) == y);
        }
    }
}

/// The active speakers after a tick are the four with the best claims: those who have
/// a claim, and fewer than four others with a better one.
pub proof fn law_four_best_claims_are_active(
    tick: TickView,
    scores: Map<SessionId, ScoreState>,
    now: u64,
    s: SessionId,
)
    requires
        tick.wf(),
        scores_in_order(scores),
    ensures
        tick.after_tick(scores, now).current.top.contains(s) <==> has_claim(tick, scores, now, s)
            && Set::new(
            |t: SessionId|
                has_claim(tick, scores, now, t) && claims_first(tick, scores, t, s),
        ).len() < 4,
{
    let seen = seen_by_tick(scores);
    let all = claimants(tick, seen, now);
    let top = tick.after_tick(scores, now).current.top;
    let ahead = Set::new(
        |t: SessionId| has_claim(tick, scores, now, t) && claims_first(tick, scores, t, s),
    );
    assert(top == first_n(all, 4));
    lemma_claimant(tick, scores, now, s);
    if has_claim(tick, scores, now, s) {
        let before = |a: SessionId, b: SessionId| claims_first(tick, scores, a, b);
        assert forall|i: int, j: int| 0 <= i < j < all.len() implies before(
            #[trigger] all[i],
            #[trigger] all[j],
        ) by {
            lemma_claimants_in_order(tick, scores, now, i, j);
        }
        assert forall|i: int, j: int| 0 <= i <= j < all.len() implies !before(
            #[trigger] all[j],
            #[trigger] all[i],
        ) by {
            if i < j {
                lemma_claimants_in_order(tick, scores, now, i, j);
            }
        }
        assert forall|t: SessionId| #[trigger] ahead.contains(t) <==> all.contains(t) && before(
            t,
            s,
        ) by {
            lemma_claimant(tick, scores, now, t);
        }
        crate::ids::lemma_first_by_rank(all, before, 4, s, ahead);
        if ahead.len() < 4 {
            let k = choose|k: int| 0 <= k < all.len() && k < 4 && #[trigger] all[k] == s;
            assert(top[k] == s);
        }
        if top.contains(s) {
            let k = choose|k: int| 0 <= k < top.len() && top[k] == s;
            assert(all[k] == s);
        }
    } else if top.contains(s) {
        let k = choose|k: int| 0 <= k < top.len() && top[k] == s;
        assert(all[k] == s);
    }
}

/// The active speakers are listed by their claims, the best first.
pub proof fn law_speakers_are_ordered_by_claim(
    tick: TickView,
    scores: Map<SessionId, ScoreState>,
    now: u64,
    i: int,
    j: int,
)
    requires
        tick.wf(),
        scores_in_order(scores),
        0 <= i < j < tick.after_tick(scores, now).current.top.len(),
    ensures
        ({
            let top = tick.after_tick(scores, now).current.top;
            claims_first(tick, scores, top[i], top[j])
        }),
{
    let seen = seen_by_tick(scores);
    let all = claimants(tick, seen, now);
    assert(tick.after_tick(scores, now).current.top == first_n(all, 4));
    lemma_claimants_in_order(tick, scores, now, i, j);
}

/// Silence ends activity: whoever is not heard and has not been for 800 ms, counting
/// this tick, is not active after it, whether or not its score is among the best.
pub proof fn law_silence_ends_activity(
    tick: TickView,
    scores: Map<SessionId, ScoreState>,
    now: u64,
    s: SessionId,
    since: u64,
)
    requires
        tick.wf(),
        scores_in_order(scores),
        !heard(scores, s),
        tick.candidates.contains_key(s),
        tick.candidates[s].below_since == Some(since),
        since + 800_000_000 <= now,
    ensures
        !tick.after_tick(scores, now).current.top.contains(s),
{
    law_four_best_claims_are_active(tick, scores, now, s);
}

/// Streaks follow what a tick hears. One that is heard has an upper streak that goes
/// on or starts now, and no lower one; one that is not heard, the reverse. They are
/// kept of the active and of those that the tick takes note of, and of the others
/// while their silence is shorter than 800 ms.
pub proof fn law_streaks_follow_what_is_heard(
    tick: TickView,
    scores: Map<SessionId, ScoreState>,
    now: u64,
    s: SessionId,
)
    requires
        tick.wf(),
        scores_in_order(scores),
    ensures
        ({
            let before = tick.candidates;
            let after = tick.after_tick(scores, now).candidates;
            let above = if before.contains_key(s) {
                before[s].above_since
            } else {
                None
            };
            let below = if before.contains_key(s) {
                before[s].below_since
            } else {
                None
            };
            &&& after.contains_key(s) && heard(scores, s) ==> {
                &&& after[s].below_since is None
                &&& above is Some ==> after[s].above_since == above
                &&& above is None ==> after[s].above_since == Some(now)
            }
            &&& after.contains_key(s) && !heard(scores, s) ==> {
                &&& after[s].above_since is None
                &&& below is Some ==> after[s].below_since == below
                &&& below is None ==> after[s].below_since == Some(now)
            }
            &&& after.contains_key(s) <==> {
                ||| noticed(scores, s)
                ||| tick.after_tick(scores, now).current.top.contains(s)
                ||| (before.contains_key(s) || tick.current.top.contains(s)) && !(
                below matches Some(t) && t + 800_000_000 <= now)
            }
        }),
{
    let seen = seen_by_tick(scores);
    let ids = ids_of(seen);
    let top = tick.current.top;
    lemma_noticed(scores, s);
    law_four_best_claims_are_active(tick, scores, now, s);
    assert(ids.to_set().contains(s) <==> ids.contains(s));
    assert(top.to_set().contains(s) <==> top.contains(s));
}

/// Someone speaks exactly if its average is above 0.05, or not a number, and a
/// positive voice hint came within the last 400 ms.
pub proof fn law_speaking_takes_level_and_hint(
    scores: Map<SessionId, ScoreState>,
    s: SessionId,
    now: u64,
)
    requires
        scores_in_order(scores),
    ensures
        speaks(scores, s, now) <==> {
            &&& scores.contains_key(s)
            &&& scores[s].ewma.bits > 0x3D4C_CCCD
            &&& scores[s].last_speaking_hint_at matches Some(t) && now <= t + 400_000_000
        },
        score_of(scores, s).bits == if scores.contains_key(s) {
            scores[s].ewma.bits
        } else {
            0
        },
{
    if scores.contains_key(s) {
        assert(scores[s].wf());
    }
}

/// An observation is remembered with its time; a positive voice hint sets the time of
/// the last one, a negative one leaves it.
pub proof fn law_observation_is_remembered(
    state: ScoreState,
    audio_level: Float32,
    is_speaking_hint: bool,
    now: u64,
)
    ensures
        ({
            let after = after_observation(state, audio_level, is_speaking_hint, now);
            &&& after.last_update == now
            &&& after.last_is_speaking_hint == is_speaking_hint
            &&& is_speaking_hint ==> after.last_speaking_hint_at == Some(now)
            &&& !is_speaking_hint ==> after.last_speaking_hint_at == state.last_speaking_hint_at
        }),
{
}

/// An announcement names every active speaker in order, with its score and whether
/// it speaks.
pub proof fn law_announcement_names_the_speakers(
    top: Seq<SessionId>,
    scores: Map<SessionId, ScoreState>,
    now: u64,
)
    ensures
        ({
            let entries = speaker_entries(top, scores, now);
            &&& entries.len() == top.len()
            &&& forall|i: int|
                0 <= i < top.len() ==> {
                    &&& (#[trigger] entries[i]).session_id == top[i]
                    &&& entries[i].score == score_of(scores, top[i])
                    &&& entries[i].is_speaking == speaks(scores, top[i], now)
                }
        }),
{
}

/// The moving average is three tenths of the level and seven tenths of the average so
/// far, taken to the nearest weights that single precision holds, up to a relative
/// error of `2^-22` and an absolute one of `2^-126`. All are in units of 2^-149.
pub proof fn law_average_is_weighted(prev: Float32, level: Float32)
    requires
        prev.bits <= 0x3F80_0000,
        level.bits <= 0x3F80_0000,
    ensures
        ({
            let r = next_average(prev, level).units();
            let x = 10_066_330 * level.units() + 23_488_102 * prev.units();
            &&& (r * 0x200_0000 - x) * 0x40_0000 <= x + 0x2_0000_0000_0000
            &&& (x - r * 0x200_0000) * 0x40_0000 <= x + 0x2_0000_0000_0000
        }),
{
    let a = Float32 { bits: ALPHA };
    let b = Float32 { bits: ONE_MINUS_ALPHA };
    vstd::arithmetic::power2::lemma2_to64();
    vstd::arithmetic::power2::lemma_pow2_unfold(125);
    vstd::arithmetic::power2::lemma_pow2_adds(25, 124);
    vstd::arithmetic::power2::lemma_pow2_pos(124);
    vstd::arithmetic::power2::lemma_pow2_pos(149);
    assert(a.bits as nat / 0x80_0000 == 125);
    assert(a.bits as nat % 0x80_0000 == 0x19_999A);
    assert(b.bits as nat / 0x80_0000 == 126);
    assert(b.bits as nat % 0x80_0000 == 0x33_3333);
    let v = pow2(124);
    let u = pow2(149);
    assert(a.units() == 0x99_999A * v);
    assert(b.units() == 0xB3_3333 * pow2(125));
    assert(b.units() == 23_488_102 * v);
    assert(u == 0x200_0000 * v);
    let l = level.units();
    let p = prev.units();
    let n1 = a.units() * l;
    let n2 = b.units() * p;
    let new = crate::rounding::rounded(n1, u, 24);
    let past = crate::rounding::rounded(n2, u, 24);
    let s = new + past;
    let r = crate::rounding::rounded(s, 1, 24);
    lemma_average_is_single(prev, level);
    assert(level.clamped() == level);
    assert(next_average(prev, level).units() == r);
    lemma_near(n1, u);
    lemma_near(n2, u);
    lemma_near(s, 1);
    let x = 10_066_330 * l + 23_488_102 * p;
    assert(n1 + n2 == x * v) by (nonlinear_arith)
        requires
            n1 == (10_066_330 * v) * l,
            n2 == (23_488_102 * v) * p,
            x == 10_066_330 * l + 23_488_102 * p,
    ;
    let k = 0x100_0000int;
    let y = n1 + n2;
    assert((s * u - y) * k <= y + 2 * u * k && (y - s * u) * k <= y + 2 * u * k) by (nonlinear_arith)
        requires
            (new * u - n1) * k <= n1 + u * k,
            (n1 - new * u) * k <= n1 + u * k,
            (past * u - n2) * k <= n2 + u * k,
            (n2 - past * u) * k <= n2 + u * k,
            s == new + past,
            y == n1 + n2,
    ;
    let e = r * u;
    let g = s * u;
    assert((e - g) * k <= g + u * k && (g - e) * k <= g + u * k) by (nonlinear_arith)
        requires
            (r * 1 - s) * k <= s + 1 * k,
            (s - r * 1) * k <= s + 1 * k,
            e == r * u,
            g == s * u,
            u > 0,
    ;
    assert(y >= 0);
    assert((e - y) * k <= 4 * y + 4 * u * k && (y - e) * k <= 4 * y + 4 * u * k);
    let m = 0x40_0000int;
    assert((e - y) * m <= y + u * k && (y - e) * m <= y + u * k);
    assert(e == (r * 0x200_0000) * v) by (nonlinear_arith)
        requires
            e == r * u,
            u == 0x200_0000 * v,
    ;
    let f = r * 0x200_0000;
    let c = 0x2_0000_0000_0000int;
    assert(u * k == c * v) by (nonlinear_arith)
        requires
            u == 0x200_0000 * v,
            k == 0x100_0000,
            c == 0x2_0000_0000_0000,
    ;
    assert((f - x) * m <= x + c && (x - f) * m <= x + c) by (nonlinear_arith)
        requires
            (e - y) * m <= y + c * v,
            (y - e) * m <= y + c * v,
            e == f * v,
            y == x * v,
            v > 0,
    ;
}

/// Rounding to 24 bits is near, in one formula for large and small values.
proof fn lemma_near(n: nat, d: nat)
    requires
        d > 0,
    ensures
        (crate::rounding::rounded(n, d, 24) * d - n) * 0x100_0000 <= n + d * 0x100_0000,
        (n - crate::rounding::rounded(n, d, 24) * d) * 0x100_0000 <= n + d * 0x100_0000,
{
    vstd::arithmetic::power2::lemma2_to64();
    crate::rounding::law_rounding_is_near(n, d, 24);
}

/// Levels beyond the range count as its ends; one that is not a number makes the
/// average none, and so it stays.
pub proof fn law_levels_are_cut_to_range(prev: Float32, level: Float32)
    ensures
        0x3F80_0000 < level.bits <= 0x7F80_0000 ==> next_average(prev, level) == next_average(
            prev,
            Float32 { bits: 0x3F80_0000 },
        ),
        0x8000_0000 <= level.bits <= 0xFF80_0000 ==> next_average(prev, level) == next_average(
            prev,
            Float32 { bits: 0 },
        ),
        0x7F80_0000 < level.bits < 0x8000_0000 || level.bits > 0xFF80_0000 ==> next_average(
            prev,
            level,
        ).bits == 0x7FC0_0000,
        prev.bits == 0x7FC0_0000 ==> next_average(prev, level).bits == 0x7FC0_0000,
{
    let zero = Float32 { bits: 0 };
    let minus = Float32 { bits: 0x8000_0000 };
    assert(zero.units() == 0);
    assert(zero.clamped() == zero);
    if level.bits == 0x8000_0000 {
        assert(level == minus);
        assert(!minus.is_plain());
        assert(average_units(prev, minus) == average_units(prev, zero));
    }
}

/// A sender that is first heard starts from an average of zero and without any hint.
pub proof fn law_first_observation_starts_from_zero(now: u64)
    ensures
        unheard(now).ewma.bits == 0,
        unheard(now).last_speaking_hint_at is None,
        !unheard(now).last_is_speaking_hint,
{
}

/// An observation touches its sender only. The sender's average moves by the level from
/// what it was, or from zero if the sender was unknown.
pub proof fn law_observation_touches_its_sender(
    scores: Map<SessionId, ScoreState>,
    sender: SessionId,
    audio_level: Float32,
    is_speaking_hint: bool,
    now: u64,
    other: SessionId,
)
    requires
        other != sender,
    ensures
        ({
            let after = observed(scores, sender, audio_level, is_speaking_hint, now);
            let known = scores.contains_key(sender);
            let prev = if known {
                scores[sender].ewma
            } else {
                Float32 { bits: 0 }
            };
            &&& after.contains_key(sender)
            &&& after[sender].ewma == next_average(prev, audio_level)
            &&& is_speaking_hint ==> after[sender].last_speaking_hint_at == Some(now)
            &&& !is_speaking_hint && known ==> after[sender].last_speaking_hint_at
                == scores[sender].last_speaking_hint_at
            &&& !is_speaking_hint && !known ==> after[sender].last_speaking_hint_at is None
            &&& after.contains_key(other) == scores.contains_key(other)
            &&& scores.contains_key(other) ==> after[other] == scores[other]
        }),
{
}

/// A tick is announced exactly if the speakers, or their order, changed, in a room that
/// has a name and announces changes.
pub proof fn law_changes_are_announced(
    tick: TickView,
    scores: Map<SessionId, ScoreState>,
    now: u64,
)
    ensures
        tick.announces_tick(scores, now) <==> tick.announces && tick.room_id.len() > 0
            && tick.after_tick(scores, now).current.top != tick.current.top,
        tick.after_tick(scores, now).room_id == tick.room_id,
        tick.after_tick(scores, now).announces == tick.announces,
        tick.after_tick(scores, now).interval == tick.interval,
{
    law_generation_moves_with_speakers(tick, scores, now);
}

/// After a tick no active speaker has been silent for 800 ms, and the streaks of each
/// are known.
pub proof fn law_no_active_speaker_is_long_silent(
    tick: TickView,
    scores: Map<SessionId, ScoreState>,
    now: u64,
    s: SessionId,
)
    requires
        tick.wf(),
        scores_in_order(scores),
        tick.after_tick(scores, now).current.top.contains(s),
    ensures
        ({
            let after = tick.after_tick(scores, now).candidates;
            &&& after.contains_key(s)
            &&& after[s].below_since matches Some(t) ==> now < t + 800_000_000
        }),
{
    law_four_best_claims_are_active(tick, scores, now, s);
    law_streaks_follow_what_is_heard(tick, scores, now, s);
}

} // verus!
