//! Choice of the video layers that fit a receiver's downlink.
//!
//! Every admitted sender first gets its base layer, in priority order, as far
//! as the budget goes; what is left raises the admitted senders layer by layer.
//! Per receiver, a choice shrinks at once but grows only after a sustained
//! surplus.
use std::collections::HashMap;

use crate::float32::Float32;
use crate::ids::{contains_id, sorted_keys, SessionId};
use crate::layer_map::{LayerMap, StreamKey};
use crate::subscription::{AllowSet, LayerPref};

use vstd::arithmetic::power2::{lemma_pow2_adds, lemma_pow2_pos, pow2};
use vstd::prelude::*;

verus! {

broadcast use vstd::std_specs::hash::group_hash_axioms;

/// Default cap on the video bitrate forwarded to one receiver, in kbps.
pub const DEFAULT_MAX_VIDEO_KBPS: u32 = 2000;

/// Default share of the measured downlink that is filled: 0.85.
pub const DEFAULT_BANDWIDTH_HEADROOM_PCT: u32 = 0x3F59_999A;

/// Bitrate of the base layer, in kbps.
pub const T0_KBPS: u32 = 128;

/// Bitrate that the first enhancement layer adds, in kbps.
pub const T1_KBPS: u32 = 256;

/// Bitrate that the second enhancement layer adds, in kbps.
pub const T2_KBPS: u32 = 512;

/// The only spatial layer.
pub const SPATIAL_LAYER_ID: u32 = 0;

/// Surplus over the current choice that an upgrade needs: 1.20.
pub const UPGRADE_HEADROOM_RATIO: u32 = 0x3F99_999A;

/// How long the surplus must last before an upgrade: 3 s.
pub const UPGRADE_STREAK_REQUIRED: u64 = 3_000_000_000;

/// How long after a downgrade no upgrade happens: 5 s.
pub const DOWNGRADE_COOLDOWN: u64 = 5_000_000_000;

/// Bitrate of a stream forwarded up to temporal layer `t`; nothing for layers
/// that the ladder does not have.
pub open spec fn ladder_kbps(t: u32) -> nat {
    if t == 0 {
        128
    } else if t == 1 {
        384
    } else if t == 2 {
        896
    } else {
        0
    }
}

/// Bitrate of a stream forwarded up to temporal layer `t`, if the ladder has it.
pub fn cumulative_kbps_for(t: u32) -> (r: Option<u32>)
    ensures
        r == if t <= 2 {
            Some(ladder_kbps(t) as u32)
        } else {
            None
        },
{
    if t == 0 {
        Some(T0_KBPS)
    } else if t == 1 {
        Some(T0_KBPS + T1_KBPS)
    } else if t == 2 {
        Some(T0_KBPS + T1_KBPS + T2_KBPS)
    } else {
        None
    }
}

/// Bitrate of a choice of layers.
pub open spec fn total(m: Map<StreamKey, u32>) -> nat
    decreases m.dom().len(),
{
    if m.dom().finite() && m.dom().len() > 0 {
        let k = m.dom().choose();
        ladder_kbps(m[k]) + total(m.remove(k))
    } else {
        0
    }
}

/// The streams of a choice may be counted in any order.
pub proof fn lemma_total_remove(m: Map<StreamKey, u32>, k: StreamKey)
    requires
        m.dom().finite(),
        m.contains_key(k),
    ensures
        total(m) == ladder_kbps(m[k]) + total(m.remove(k)),
    decreases m.dom().len(),
{
    let c = m.dom().choose();
    assert(m.dom().contains(c));
    if c != k {
        let a = m.remove(c);
        let b = m.remove(k);
        lemma_total_remove(a, k);
        lemma_total_remove(b, c);
        assert(a.remove(k) =~= b.remove(c));
    }
}

/// A stream that is not there yet adds its bitrate.
pub proof fn lemma_total_insert(m: Map<StreamKey, u32>, k: StreamKey, t: u32)
    requires
        m.dom().finite(),
        !m.contains_key(k),
    ensures
        total(m.insert(k, t)) == total(m) + ladder_kbps(t),
{
    lemma_total_remove(m.insert(k, t), k);
    assert(m.insert(k, t).remove(k) =~= m);
}

/// Which layers of which senders are forwarded to one receiver.
///
/// A sender that `forward` maps to `t` is forwarded up to temporal layer `t`.
#[derive(Debug, PartialEq, Eq)]
pub struct LayerSelection {
    pub forward: LayerMap,
}

impl View for LayerSelection {
    type V = Map<StreamKey, u32>;

    open spec fn view(&self) -> Map<StreamKey, u32> {
        self.forward@
    }
}

impl LayerSelection {
    /// The map is in order.
    pub open spec fn wf(&self) -> bool {
        self.forward.wf()
    }

    /// A choice that forwards nothing.
    pub fn new() -> (r: Self)
        ensures
            r.wf(),
            r@ == Map::<StreamKey, u32>::empty(),
    {
        LayerSelection { forward: LayerMap::new() }
    }

    /// Bitrate of the choice, in kbps.
    pub fn total_kbps(&self) -> (kbps: u32)
        requires
            self.wf(),
            total(self@) <= u32::MAX,
        ensures
            kbps == total(self@),
    {
        let mut kbps: u32 = 0;
        let mut i: usize = 0;
        let ghost list = self.forward.listing();
        proof {
            self.forward.lemma_listing();
            assert(crate::layer_map::map_of(list.take(0)).dom() =~= Set::empty());
        }
        while i < self.forward.len()
            invariant
                self.wf(),
                list == self.forward.listing(),
                i <= list.len(),
                list.len() == self.forward@.dom().len(),
                self@ == crate::layer_map::map_of(list),
                total(self@) <= u32::MAX,
                kbps == total(crate::layer_map::map_of(list.take(i as int))),
            decreases list.len() - i,
        {
            let (key, t) = self.forward.entry_at(i);
            proof {
                self.forward.lemma_listing();
                assert(list.take(i + 1).drop_last() =~= list.take(i as int));
                lemma_prefix_total(list, i as int);
                lemma_prefix_total_bound(list, i + 1);
            }
            match cumulative_kbps_for(t) {
                Some(k) => {
                    kbps = kbps + k;
                },
                None => {},
            }
            i = i + 1;
        }
        proof {
            assert(list.take(list.len() as int) =~= list);
        }
        kbps
    }
}

/// One more entry of a listing adds its bitrate.
proof fn lemma_prefix_total(list: Seq<(StreamKey, u32)>, i: int)
    requires
        crate::layer_map::keys_ascend(list),
        0 <= i < list.len(),
    ensures
        total(crate::layer_map::map_of(list.take(i + 1))) == total(
            crate::layer_map::map_of(list.take(i)),
        ) + ladder_kbps(list[i].1),
{
    let a = list.take(i);
    let b = list.take(i + 1);
    assert(b.drop_last() =~= a);
    assert(crate::layer_map::keys_ascend(a));
    crate::layer_map::lemma_map_of(a);
    let m = crate::layer_map::map_of(a);
    assert(!m.contains_key(list[i].0)) by {
        if m.contains_key(list[i].0) {
            let k = choose|k: int| 0 <= k < a.len() && (#[trigger] a[k]).0 == list[i].0;
            assert(crate::layer_map::key_less(list[k].0, list[i].0));
        }
    }
    lemma_total_insert(m, list[i].0, list[i].1);
}

/// A prefix of a listing costs no more than the whole.
proof fn lemma_prefix_total_bound(list: Seq<(StreamKey, u32)>, i: int)
    requires
        crate::layer_map::keys_ascend(list),
        0 <= i <= list.len(),
    ensures
        total(crate::layer_map::map_of(list.take(i))) <= total(crate::layer_map::map_of(list)),
    decreases list.len() - i,
{
    if i < list.len() {
        lemma_prefix_total(list, i);
        lemma_prefix_total_bound(list, i + 1);
    } else {
        assert(list.take(i) =~= list);
    }
}

impl Default for LayerSelection {
    fn default() -> (r: Self)
        ensures
            r.wf(),
            r@ == Map::<StreamKey, u32>::empty(),
    {
        LayerSelection::new()
    }
}

impl Clone for LayerSelection {
    fn clone(&self) -> (r: Self)
        ensures
            r@ == self@,
            r.wf() == self.wf(),
    {
        LayerSelection { forward: self.forward.clone() }
    }
}

/// An integer in single precision, in units of 2^-149.
pub open spec fn single_units(n: u32) -> nat {
    crate::rounding::rounded(n as nat * pow2(149), 1, 24)
}

/// The product of two single-precision values, in units of 2^-149.
pub open spec fn product_units(a: nat, b: nat) -> nat {
    crate::rounding::rounded(a * b, pow2(149), 24)
}

/// Whether `budget` is at least 1.20 times `kbps`, in single precision.
pub open spec fn enough_headroom(budget: u32, kbps: nat) -> bool {
    kbps == 0 || single_units(budget) >= product_units(
        single_units(kbps as u32),
        Float32 { bits: UPGRADE_HEADROOM_RATIO }.units(),
    )
}

/// Products of this size do not overflow.
proof fn lemma_product_is_plain(a: nat, b: nat)
    requires
        a <= pow2(181),
        b <= pow2(150),
    ensures
        product_units(a, b) < pow2(277),
{
    lemma_pow2_adds(181, 150);
    lemma_pow2_adds(182, 149);
    lemma_pow2_pos(149);
    assert(a * b <= pow2(331)) by (nonlinear_arith)
        requires
            0 <= a <= pow2(181),
            0 <= b <= pow2(150),
            pow2(331) == pow2(181) * pow2(150),
    ;
    vstd::arithmetic::div_mod::lemma_div_is_ordered(
        (a * b) as int,
        pow2(331) as int,
        pow2(149) as int,
    );
    vstd::arithmetic::div_mod::lemma_div_multiples_vanish(pow2(182) as int, pow2(149) as int);
    assert(pow2(149) * pow2(182) == pow2(331)) by (nonlinear_arith)
        requires
            pow2(331) == pow2(182) * pow2(149),
    ;
    crate::rounding::lemma_rounded_upper(a * b, pow2(149), 24);
    lemma_pow2_adds(182, 95);
    vstd::arithmetic::power2::lemma2_to64();
    crate::rounding::lemma_pow2_monotone(2, 95);
    lemma_pow2_pos(182);
    assert(2 * pow2(182) + 1 < pow2(277)) by (nonlinear_arith)
        requires
            pow2(277) == pow2(182) * pow2(95),
            pow2(95) >= 4,
            pow2(182) >= 1,
    ;
}

/// A plain value below 2.0 is below `2^150` units.
proof fn lemma_below_two(x: Float32)
    requires
        x.bits < 0x4000_0000,
    ensures
        x.units() <= pow2(150),
{
    let two = Float32 { bits: 0x4000_0000 };
    crate::float32::lemma_units_increase(x, two);
    vstd::arithmetic::power2::lemma2_to64();
    lemma_pow2_adds(23, 127);
    assert(two.bits as nat / 0x80_0000 == 128);
    assert(two.bits as nat % 0x80_0000 == 0);
    assert(two.units() == 0x80_0000 * pow2(127));
}

/// Whether the budget leaves a fifth of surplus over `selection`. A choice that
/// forwards nothing always has it.
pub fn has_upgrade_headroom(budget_kbps: u32, selection: &LayerSelection) -> (r: bool)
    requires
        selection.wf(),
        total(selection@) <= u32::MAX,
    ensures
        r == enough_headroom(budget_kbps, total(selection@)),
{
    let kbps: u32 = selection.total_kbps();
    if kbps == 0 {
        return true;
    }
    let ratio = Float32 { bits: UPGRADE_HEADROOM_RATIO };
    let budget = Float32::from_u32(budget_kbps);
    let chosen = Float32::from_u32(kbps);
    let needed = chosen.product(ratio);
    proof {
        lemma_below_two(ratio);
        lemma_product_is_plain(chosen.units(), ratio.units());
    }
    budget.at_least(needed)
}

/// Direction of the change from one choice of layers to another.
#[derive(Debug, Clone, Copy, PartialEq, Eq, Structural)]
pub enum SelectionDelta {
    Identical,
    Upgrade,
    Downgrade,
}

/// Some stream of `prev` is gone from `next` or has fewer layers there.
pub open spec fn loses(prev: Map<StreamKey, u32>, next: Map<StreamKey, u32>) -> bool {
    exists|k: StreamKey| #[trigger]
        prev.contains_key(k) && (!next.contains_key(k) || next[k] < prev[k])
}

/// Some stream of `next` is new or has more layers than in `prev`.
pub open spec fn gains(prev: Map<StreamKey, u32>, next: Map<StreamKey, u32>) -> bool {
    exists|k: StreamKey| #[trigger]
        next.contains_key(k) && (!prev.contains_key(k) || next[k] > prev[k])
}

/// Any loss makes a downgrade, whatever is gained beside it.
pub open spec fn delta_of(prev: Map<StreamKey, u32>, next: Map<StreamKey, u32>) -> SelectionDelta {
    if loses(prev, next) {
        SelectionDelta::Downgrade
    } else if gains(prev, next) {
        SelectionDelta::Upgrade
    } else {
        SelectionDelta::Identical
    }
}

/// Classifies the change from `prev` to `next`.
pub fn compare_selections(prev: &LayerSelection, next: &LayerSelection) -> (r: SelectionDelta)
    requires
        prev.wf(),
        next.wf(),
    ensures
        r == delta_of(prev@, next@),
{
    let lost: bool = any_stream_ahead(prev, next);
    let gained: bool = any_stream_ahead(next, prev);
    if lost {
        SelectionDelta::Downgrade
    } else if gained {
        SelectionDelta::Upgrade
    } else {
        SelectionDelta::Identical
    }
}

/// Whether some stream of `a` is missing from `b` or has fewer layers there.
fn any_stream_ahead(a: &LayerSelection, b: &LayerSelection) -> (r: bool)
    requires
        a.wf(),
        b.wf(),
    ensures
        r == loses(a@, b@),
{
    let ghost list = a.forward.listing();
    let mut i: usize = 0;
    proof {
        a.forward.lemma_listing();
    }
    while i < a.forward.len()
        invariant
            a.wf(),
            b.wf(),
            list == a.forward.listing(),
            i <= list.len(),
            list.len() == a.forward@.dom().len(),
            forall|j: int|
                0 <= j < i ==> b@.contains_key((#[trigger] list[j]).0) && b@[list[j].0]
                    >= list[j].1,
        decreases list.len() - i,
    {
        let (key, t) = a.forward.entry_at(i);
        proof {
            a.forward.lemma_listing();
            assert(a@.contains_key(list[i as int].0));
            assert(a@[list[i as int].0] == t);
        }
        match b.forward.get(&key) {
            None => {
                return true;
            },
            Some(other) => {
                if other < t {
                    return true;
                }
            },
        }
        i = i + 1;
    }
    proof {
        a.forward.lemma_listing();
        assert forall|k: StreamKey| #[trigger] a@.contains_key(k) implies b@.contains_key(k)
            && b@[k] >= a@[k] by {
            let j = choose|j: int| 0 <= j < list.len() && (#[trigger] list[j]).0 == k;
            assert(a@[list[j].0] == list[j].1);
        }
    }
    false
}

/// `s` without repetitions, each element at its first place.
pub open spec fn first_seen(s: Seq<SessionId>) -> Seq<SessionId>
    decreases s.len(),
{
    if s.len() == 0 {
        s
    } else {
        let front = first_seen(s.drop_last());
        if front.contains(s.last()) {
            front
        } else {
            front.push(s.last())
        }
    }
}

/// Says of a sender whether `receiver` may get its video.
pub open spec fn allowed_sender(
    receiver: SessionId,
    video: Map<SessionId, LayerPref>,
) -> spec_fn(SessionId) -> bool {
    |s: SessionId| s != receiver && video.contains_key(s)
}

/// The senders that `receiver` may get video from, most important first: the
/// allowed speakers in their order, then the other allowed senders, ascending.
pub open spec fn sender_order(
    receiver: SessionId,
    video: Map<SessionId, LayerPref>,
    speakers: Seq<SessionId>,
) -> Seq<SessionId> {
    crate::subscription::extend_tier(
        first_seen(speakers.filter(allowed_sender(receiver, video))),
        video.dom().remove(receiver),
    )
}

/// The senders that `receiver_sid` may get video from, most important first.
pub fn ordered_senders(
    receiver_sid: SessionId,
    allow_set: &AllowSet,
    speaker_set: &[SessionId],
) -> (ordered: Vec<SessionId>)
    ensures
        ordered@ == sender_order(receiver_sid, allow_set@.video, speaker_set@),
        ordered@.no_duplicates(),
        ordered@.to_set() == allow_set@.video.dom().remove(receiver_sid),
{
    let ghost video = allow_set@.video;
    let ghost allowed = allowed_sender(receiver_sid, video);
    let mut ordered: Vec<SessionId> = Vec::new();
    let mut i: usize = 0;
    proof {
        reveal(Seq::filter);
        assert(speaker_set@.take(0).filter(allowed) =~= Seq::empty());
    }
    while i < speaker_set.len()
        invariant
            i <= speaker_set@.len(),
            video == allow_set.video@,
            allowed == allowed_sender(receiver_sid, video),
            ordered@ == first_seen(speaker_set@.take(i as int).filter(allowed)),
            ordered@.no_duplicates(),
            forall|k: int| 0 <= k < ordered@.len() ==> allowed(#[trigger] ordered@[k]),
        decreases speaker_set@.len() - i,
    {
        let sid: SessionId = speaker_set[i];
        let ghost before = ordered@;
        proof {
            reveal(Seq::filter);
            assert(speaker_set@.take(i + 1).drop_last() =~= speaker_set@.take(i as int));
            let f = speaker_set@.take(i as int).filter(allowed);
            let g = speaker_set@.take(i + 1).filter(allowed);
            if allowed(sid) {
                assert(g == f.push(sid));
                assert(g.drop_last() =~= f);
            } else {
                assert(g == f);
            }
        }
        if sid != receiver_sid && allow_set.video.contains_key(&sid) && !contains_id(
            &ordered,
            sid,
        ) {
            ordered.push(sid);
        }
        proof {
            assert(ordered@ == first_seen(speaker_set@.take(i + 1).filter(allowed)));
        }
        i = i + 1;
    }
    let ghost spoken = ordered@;
    let keys = sorted_keys(&allow_set.video);
    let ghost rest = |s: SessionId| s != receiver_sid && !spoken.contains(s);
    proof {
        assert(speaker_set@.take(speaker_set@.len() as int) =~= speaker_set@);
        assert(spoken + keys@.take(0).filter(rest) =~= spoken);
    }
    let mut j: usize = 0;
    while j < keys.len()
        invariant
            j <= keys@.len(),
            video == allow_set.video@,
            crate::ids::lists_ascending(keys@, video.dom()),
            rest == (|s: SessionId| s != receiver_sid && !spoken.contains(s)),
            ordered@ == spoken + keys@.take(j as int).filter(rest),
        decreases keys@.len() - j,
    {
        let sid: SessionId = keys[j];
        proof {
            reveal(Seq::filter);
            assert(keys@.take(j + 1).drop_last() =~= keys@.take(j as int));
            let kept = keys@.take(j as int).filter(rest);
            assert(!kept.contains(sid)) by {
                if kept.contains(sid) {
                    keys@.take(j as int).lemma_filter_contains_rev(rest, sid);
                    let k = choose|k: int| 0 <= k < j && keys@.take(j as int)[k] == sid;
                    assert(keys@[k] < keys@[j as int]);
                }
            }
            assert(ordered@.contains(sid) == spoken.contains(sid)) by {
                if ordered@.contains(sid) {
                    let k = choose|k: int| 0 <= k < ordered@.len() && ordered@[k] == sid;
                    if k < spoken.len() {
                        assert(spoken[k] == sid);
                    } else {
                        assert(kept[k - spoken.len()] == sid);
                    }
                }
                if spoken.contains(sid) {
                    let k = choose|k: int| 0 <= k < spoken.len() && spoken[k] == sid;
                    assert(ordered@[k] == sid);
                }
            }
        }
        if sid != receiver_sid && !contains_id(&ordered, sid) {
            ordered.push(sid);
        }
        proof {
            assert(ordered@ =~= spoken + keys@.take(j + 1).filter(rest));
        }
        j = j + 1;
    }
    proof {
        assert(keys@.take(keys@.len() as int) =~= keys@);
        let tail = keys@.filter(rest);
        let set = video.dom().remove(receiver_sid).difference(spoken.to_set());
        crate::ids::lemma_filter_ascending(keys@, video.dom(), rest);
        assert(video.dom().filter(rest) =~= set);
        crate::ids::lemma_is_ascending(tail, set);
        assert(ordered@ == sender_order(receiver_sid, video, speaker_set@));
        assert forall|a: int, b: int|
            0 <= a < ordered@.len() && 0 <= b < ordered@.len() && a != b implies ordered@[a]
            != ordered@[b] by {
            if a >= spoken.len() && b >= spoken.len() {
                let x = a - spoken.len();
                let y = b - spoken.len();
                assert(tail[x] == ordered@[a]);
                assert(tail[y] == ordered@[b]);
                if x < y {
                    assert(tail[x] < tail[y]);
                } else {
                    assert(tail[y] < tail[x]);
                }
            } else if a >= spoken.len() {
                assert(tail[a - spoken.len()] == ordered@[a]);
                assert(tail.to_set().contains(ordered@[a]));
                assert(spoken.to_set().contains(spoken[b]));
            } else if b >= spoken.len() {
                assert(tail[b - spoken.len()] == ordered@[b]);
                assert(tail.to_set().contains(ordered@[b]));
                assert(spoken.to_set().contains(spoken[a]));
            }
        }
        let all = video.dom().remove(receiver_sid);
        assert forall|s: SessionId| ordered@.to_set().contains(s) <==> all.contains(s) by {
            if ordered@.to_set().contains(s) {
                let k = choose|k: int| 0 <= k < ordered@.len() && ordered@[k] == s;
                if k < spoken.len() {
                    assert(allowed(spoken[k]));
                } else {
                    assert(tail[k - spoken.len()] == s);
                    assert(tail.to_set().contains(s));
                }
            }
            if all.contains(s) {
                if spoken.contains(s) {
                    let k = choose|k: int| 0 <= k < spoken.len() && spoken[k] == s;
                    assert(ordered@[k] == s);
                } else {
                    assert(set.contains(s));
                    assert(tail.to_set().contains(s));
                    let k = choose|k: int| 0 <= k < tail.len() && tail[k] == s;
                    assert(ordered@[spoken.len() + k] == s);
                }
            }
        }
        assert(ordered@.to_set() =~= all);
    }
    ordered
}

/// The smaller of two numbers.
pub open spec fn least(a: nat, b: nat) -> nat {
    if a <= b {
        a
    } else {
        b
    }
}

/// How many of `n` senders get their base layer.
pub open spec fn base_count(n: nat, budget: nat) -> nat {
    least(n, budget / 128)
}

/// How many of them get the first enhancement layer, from what is left.
pub open spec fn first_count(n: nat, budget: nat) -> nat {
    let m = base_count(n, budget);
    least(m, ((budget - 128 * m) / 256) as nat)
}

/// How many of those get the second enhancement layer, from what is left then.
pub open spec fn second_count(n: nat, budget: nat) -> nat {
    let m = base_count(n, budget);
    let k = first_count(n, budget);
    least(k, ((budget - 128 * m - 256 * k) / 512) as nat)
}

/// Temporal layer of the `i`th sender, if `k1` senders get the first and `k2`
/// the second enhancement layer.
pub open spec fn level(i: int, k1: nat, k2: nat) -> u32 {
    if i < k2 {
        2
    } else if i < k1 {
        1
    } else {
        0
    }
}

/// The first `m` of `ordered`, each with its temporal layer.
pub open spec fn granted(ordered: Seq<SessionId>, m: nat, k1: nat, k2: nat) -> Map<StreamKey, u32>
    decreases m,
{
    if m == 0 {
        Map::empty()
    } else {
        granted(ordered, (m - 1) as nat, k1, k2).insert(
            (ordered[m - 1], SPATIAL_LAYER_ID),
            level(m - 1, k1, k2),
        )
    }
}

/// The layers that fit `budget`: as many senders as possible get the base layer,
/// in order of importance; what is left raises them, in the same order, first by
/// one layer each and then by a second.
pub open spec fn picked(ordered: Seq<SessionId>, budget: nat) -> Map<StreamKey, u32> {
    let n = ordered.len();
    granted(ordered, base_count(n, budget), first_count(n, budget), second_count(n, budget))
}

/// Streams and layers of [`granted`], one by one.
proof fn lemma_granted(ordered: Seq<SessionId>, m: nat, k1: nat, k2: nat)
    requires
        ordered.no_duplicates(),
        m <= ordered.len(),
    ensures
        granted(ordered, m, k1, k2).dom().finite(),
        forall|i: int|
            0 <= i < m ==> granted(ordered, m, k1, k2).contains_key(
                (#[trigger] ordered[i], SPATIAL_LAYER_ID),
            ) && granted(ordered, m, k1, k2)[(ordered[i], SPATIAL_LAYER_ID)] == level(i, k1, k2),
        forall|k: StreamKey| #[trigger]
            granted(ordered, m, k1, k2).contains_key(k) ==> k.1 == SPATIAL_LAYER_ID && exists|i: int|
                0 <= i < m && #[trigger] ordered[i] == k.0,
        total(granted(ordered, m, k1, k2)) == 128 * m + 256 * least(k1, m) + 512 * least(
            least(k1, k2),
            m,
        ) || k2 > k1,
    decreases m,
{
    if m == 0 {
        assert(granted(ordered, 0, k1, k2).dom() =~= Set::empty());
    } else {
        let p = (m - 1) as nat;
        lemma_granted(ordered, p, k1, k2);
        let before = granted(ordered, p, k1, k2);
        let key = (ordered[m - 1], SPATIAL_LAYER_ID);
        assert(!before.contains_key(key)) by {
            if before.contains_key(key) {
                let i = choose|i: int| 0 <= i < p && #[trigger] ordered[i] == key.0;
                assert(ordered[i] != ordered[m - 1]);
            }
        }
        lemma_total_insert(before, key, level(m - 1, k1, k2));
        let after = granted(ordered, m, k1, k2);
        assert forall|i: int| 0 <= i < m implies after.contains_key(
            (#[trigger] ordered[i], SPATIAL_LAYER_ID),
        ) && after[(ordered[i], SPATIAL_LAYER_ID)] == level(i, k1, k2) by {
            if i < p {
                assert(before.contains_key((ordered[i], SPATIAL_LAYER_ID)));
            }
        }
        assert forall|k: StreamKey| #[trigger] after.contains_key(k) implies k.1
            == SPATIAL_LAYER_ID && exists|i: int| 0 <= i < m && #[trigger] ordered[i] == k.0 by {
            if k == key {
                assert(ordered[m - 1] == k.0);
            } else {
                assert(before.contains_key(k));
                let i = choose|i: int| 0 <= i < p && #[trigger] ordered[i] == k.0;
                assert(ordered[i] == k.0);
            }
        }
    }
}

/// The cost of the three counts stays within the budget.
proof fn lemma_counts(n: nat, budget: nat)
    ensures
        base_count(n, budget) <= n,
        second_count(n, budget) <= first_count(n, budget) <= base_count(n, budget),
        128 * base_count(n, budget) + 256 * first_count(n, budget) + 512 * second_count(n, budget)
            <= budget,
{
}

/// The bandwidth that may be filled: the share `headroom` of it, computed in
/// single precision and rounded down, and at most `cap`.
pub open spec fn effective_budget(headroom: Float32, cap: u32, bandwidth_kbps: u32) -> nat {
    let h = headroom.clamped();
    let share = product_units(single_units(bandwidth_kbps), h.units()) / pow2(149);
    let filled = if h.is_plain() {
        least(share, u32::MAX as nat)
    } else {
        0
    };
    least(filled, cap as nat)
}

/// What is remembered of one receiver's choices.
#[derive(Debug)]
pub struct ReceiverHysteresis {
    /// The choice that was last emitted.
    pub last_selection: LayerSelection,
    /// Since when the budget has had a surplus over it, if it has.
    pub headroom_streak_start: Option<u64>,
    /// When a smaller choice was last emitted, if ever.
    pub last_downgrade_at: Option<u64>,
}

/// Mathematical view of a [`ReceiverHysteresis`].
#[verifier::ext_equal]
pub struct HysteresisView {
    pub last: Map<StreamKey, u32>,
    pub streak: Option<u64>,
    pub downgraded: Option<u64>,
}

impl View for ReceiverHysteresis {
    type V = HysteresisView;

    open spec fn view(&self) -> HysteresisView {
        HysteresisView {
            last: self.last_selection@,
            streak: self.headroom_streak_start,
            downgraded: self.last_downgrade_at,
        }
    }
}

impl ReceiverHysteresis {
    /// The remembered choice is in order and its bitrate is a number.
    pub open spec fn wf(&self) -> bool {
        self.last_selection.wf() && total(self.last_selection@) <= u32::MAX
    }
}

/// The streak after an observation: it goes on while there is a surplus.
pub open spec fn next_streak(streak: Option<u64>, surplus: bool, now: u64) -> Option<u64> {
    if !surplus {
        None
    } else if streak is Some {
        streak
    } else {
        Some(now)
    }
}

/// Whether a larger choice may be emitted: there is a surplus over the last one,
/// it has lasted, and the last downgrade is long past.
pub open spec fn may_upgrade(state: HysteresisView, budget: u32, now: u64) -> bool {
    &&& enough_headroom(budget, total(state.last))
    &&& state.streak matches Some(start) && crate::room_state::age(now, start)
        >= UPGRADE_STREAK_REQUIRED
    &&& state.downgraded matches Some(t) ==> crate::room_state::age(now, t) > DOWNGRADE_COOLDOWN
}

/// What is remembered after `candidate` was offered. Its `last` is what is emitted.
pub open spec fn hysteresis_step(
    state: Option<HysteresisView>,
    candidate: Map<StreamKey, u32>,
    budget: u32,
    now: u64,
) -> HysteresisView {
    match state {
        None => HysteresisView {
            last: candidate,
            streak: next_streak(None, enough_headroom(budget, total(candidate)), now),
            downgraded: None,
        },
        Some(s) => {
            let surplus = enough_headroom(budget, total(s.last));
            match delta_of(s.last, candidate) {
                SelectionDelta::Identical => HysteresisView {
                    streak: next_streak(s.streak, surplus, now),
                    ..s
                },
                SelectionDelta::Downgrade => HysteresisView {
                    last: candidate,
                    streak: None,
                    downgraded: Some(now),
                },
                SelectionDelta::Upgrade => if may_upgrade(s, budget, now) {
                    HysteresisView { last: candidate, streak: None, ..s }
                } else {
                    HysteresisView { streak: next_streak(s.streak, surplus, now), ..s }
                },
            }
        },
    }
}

/// A receiver's choice, with what it was made from.
#[derive(Debug)]
pub struct CachedSelection {
    pub selection: LayerSelection,
    /// Generation of the speaker set.
    pub generation: u64,
    pub bandwidth_kbps: u32,
}

/// Mathematical view of a [`CachedSelection`].
#[verifier::ext_equal]
pub struct CachedSelectionView {
    pub selection: Map<StreamKey, u32>,
    pub generation: u64,
    pub bandwidth_kbps: u32,
}

impl View for CachedSelection {
    type V = CachedSelectionView;

    open spec fn view(&self) -> CachedSelectionView {
        CachedSelectionView {
            selection: self.selection@,
            generation: self.generation,
            bandwidth_kbps: self.bandwidth_kbps,
        }
    }
}

/// Chooses layers for the receivers of one room.
#[derive(Debug)]
pub struct LayerSelector {
    /// Cap on the video bitrate forwarded to one receiver, in kbps.
    pub max_video_kbps: u32,
    /// Share of the measured downlink that is filled.
    pub bandwidth_headroom_pct: Float32,
    pub receiver_state: HashMap<SessionId, ReceiverHysteresis>,
    pub selections: HashMap<SessionId, CachedSelection>,
}

/// Mathematical view of a [`LayerSelector`].
#[verifier::ext_equal]
pub struct SelectorView {
    pub cap: u32,
    pub headroom: Float32,
    pub states: Map<SessionId, HysteresisView>,
    pub selections: Map<SessionId, CachedSelectionView>,
}

impl View for LayerSelector {
    type V = SelectorView;

    open spec fn view(&self) -> SelectorView {
        SelectorView {
            cap: self.max_video_kbps,
            headroom: self.bandwidth_headroom_pct,
            states: self.receiver_state@.map_values(|s: ReceiverHysteresis| s@),
            selections: self.selections@.map_values(|c: CachedSelection| c@),
        }
    }
}

impl SelectorView {
    /// What is remembered of `receiver`.
    pub open spec fn state(self, receiver: SessionId) -> Option<HysteresisView> {
        if self.states.contains_key(receiver) {
            Some(self.states[receiver])
        } else {
            None
        }
    }

    /// The budget of a receiver with this downlink.
    pub open spec fn budget(self, bandwidth_kbps: u32) -> nat {
        effective_budget(self.headroom, self.cap, bandwidth_kbps)
    }

    /// The layers that fit a receiver's downlink.
    pub open spec fn pick(
        self,
        receiver: SessionId,
        video: Map<SessionId, LayerPref>,
        speakers: Seq<SessionId>,
        bandwidth_kbps: u32,
    ) -> Map<StreamKey, u32> {
        picked(sender_order(receiver, video, speakers), self.budget(bandwidth_kbps))
    }

    /// What is remembered of `receiver` after one more choice.
    pub open spec fn next_state(
        self,
        receiver: SessionId,
        video: Map<SessionId, LayerPref>,
        speakers: Seq<SessionId>,
        bandwidth_kbps: u32,
        now: u64,
    ) -> HysteresisView {
        hysteresis_step(
            self.state(receiver),
            self.pick(receiver, video, speakers, bandwidth_kbps),
            self.budget(bandwidth_kbps) as u32,
            now,
        )
    }

    /// The selector after one more choice for `receiver`.
    pub open spec fn after_pick(
        self,
        receiver: SessionId,
        video: Map<SessionId, LayerPref>,
        speakers: Seq<SessionId>,
        bandwidth_kbps: u32,
        now: u64,
    ) -> SelectorView {
        SelectorView {
            states: self.states.insert(
                receiver,
                self.next_state(receiver, video, speakers, bandwidth_kbps, now),
            ),
            ..self
        }
    }

    /// The selector after one more choice for `receiver` was made and kept.
    pub open spec fn after_recompute(
        self,
        receiver: SessionId,
        video: Map<SessionId, LayerPref>,
        speakers: Seq<SessionId>,
        bandwidth_kbps: u32,
        generation: u64,
        now: u64,
    ) -> SelectorView {
        let state = self.next_state(receiver, video, speakers, bandwidth_kbps, now);
        SelectorView {
            states: self.states.insert(receiver, state),
            selections: self.selections.insert(
                receiver,
                CachedSelectionView { selection: state.last, generation, bandwidth_kbps },
            ),
            ..self
        }
    }

    /// The selector after `receiver` was forgotten.
    pub open spec fn after_prune(self, receiver: SessionId) -> SelectorView {
        SelectorView {
            states: self.states.remove(receiver),
            selections: self.selections.remove(receiver),
            ..self
        }
    }
}

impl LayerSelector {
    /// Everything remembered is in order.
    pub open spec fn wf(&self) -> bool {
        &&& forall|r: SessionId| #[trigger]
            self.receiver_state@.contains_key(r) ==> self.receiver_state@[r].wf()
        &&& forall|r: SessionId| #[trigger]
            self.selections@.contains_key(r) ==> self.selections@[r].selection.wf()
    }

    /// A selector with the default cap and headroom.
    pub fn new() -> (r: Self)
        ensures
            r.wf(),
            r@ == (SelectorView {
                cap: DEFAULT_MAX_VIDEO_KBPS,
                headroom: (Float32 { bits: DEFAULT_BANDWIDTH_HEADROOM_PCT }),
                states: Map::empty(),
                selections: Map::empty(),
            }),
    {
        let r = LayerSelector {
            max_video_kbps: DEFAULT_MAX_VIDEO_KBPS,
            bandwidth_headroom_pct: Float32 { bits: DEFAULT_BANDWIDTH_HEADROOM_PCT },
            receiver_state: HashMap::new(),
            selections: HashMap::new(),
        };
        proof {
            assert(r@.states =~= Map::empty());
            assert(r@.selections =~= Map::empty());
        }
        r
    }

    /// The bandwidth that may be filled for a receiver with this downlink.
    pub fn effective_budget_kbps(&self, bandwidth_kbps: u32) -> (budget: u32)
        ensures
            budget == self@.budget(bandwidth_kbps),
    {
        let h = self.bandwidth_headroom_pct.clamped();
        let filled: u32 = if h.bits < crate::float32::INFINITY_BITS {
            let measured = Float32::from_u32(bandwidth_kbps);
            let share = measured.product(h);
            proof {
                lemma_below_two(h);
                lemma_product_is_plain(measured.units(), h.units());
            }
            share.whole()
        } else {
            0
        };
        if filled <= self.max_video_kbps {
            filled
        } else {
            self.max_video_kbps
        }
    }

    /// The layers that fit a receiver's downlink. Remembers nothing.
    pub fn pick_layers(
        &self,
        receiver_sid: SessionId,
        allow_set: &AllowSet,
        speaker_set: &[SessionId],
        bandwidth_kbps: u32,
    ) -> (selection: LayerSelection)
        ensures
            selection.wf(),
            selection@ == self@.pick(
                receiver_sid,
                allow_set@.video,
                speaker_set@,
                bandwidth_kbps,
            ),
            total(selection@) <= self@.budget(bandwidth_kbps),
    {
        let budget: u32 = self.effective_budget_kbps(bandwidth_kbps);
        let ordered = ordered_senders(receiver_sid, allow_set, speaker_set);
        let n: u64 = ordered.len() as u64;
        let fit: u64 = (budget / T0_KBPS) as u64;
        let m: u64 = if n <= fit {
            n
        } else {
            fit
        };
        proof {
            assert(T0_KBPS as u64 * m == 128 * m) by (nonlinear_arith)
                requires
                    T0_KBPS == 128,
            ;
        }
        let left: u64 = budget as u64 - T0_KBPS as u64 * m;
        let fit1: u64 = left / T1_KBPS as u64;
        let k1: u64 = if m <= fit1 {
            m
        } else {
            fit1
        };
        proof {
            assert(T1_KBPS as u64 * k1 == 256 * k1) by (nonlinear_arith)
                requires
                    T1_KBPS == 256,
            ;
        }
        let left2: u64 = left - T1_KBPS as u64 * k1;
        let fit2: u64 = left2 / T2_KBPS as u64;
        let k2: u64 = if k1 <= fit2 {
            k1
        } else {
            fit2
        };
        proof {
            lemma_counts(ordered@.len(), budget as nat);
            assert(m == base_count(ordered@.len(), budget as nat));
            assert(k1 == first_count(ordered@.len(), budget as nat));
            assert(k2 == second_count(ordered@.len(), budget as nat));
        }
        let mut selection = LayerSelection::new();
        let mut i: usize = 0;
        while (i as u64) < m
            invariant
                i <= m <= ordered@.len(),
                selection.wf(),
                selection@ == granted(ordered@, i as nat, k1 as nat, k2 as nat),
            decreases m - i,
        {
            let t: u32 = if (i as u64) < k2 {
                2
            } else if (i as u64) < k1 {
                1
            } else {
                0
            };
            selection.forward.insert((ordered[i], SPATIAL_LAYER_ID), t);
            i = i + 1;
        }
        proof {
            lemma_granted(ordered@, m as nat, k1 as nat, k2 as nat);
        }
        selection
    }

    /// The layers that fit a receiver's downlink, held steady: a smaller choice is
    /// emitted at once, a larger one only after a surplus of a fifth has lasted
    /// three seconds and the last downgrade is more than five seconds past.
    pub fn pick_with_hysteresis(
        &mut self,
        receiver_sid: SessionId,
        allow_set: &AllowSet,
        speaker_set: &[SessionId],
        bandwidth_kbps: u32,
        now: u64,
    ) -> (selection: LayerSelection)
        requires
            old(self).wf(),
        ensures
            final(self).wf(),
            selection.wf(),
            total(selection@) <= u32::MAX,
            selection@ == old(self)@.next_state(
                receiver_sid,
                allow_set@.video,
                speaker_set@,
                bandwidth_kbps,
                now,
            ).last,
            final(self)@ == old(self)@.after_pick(
                receiver_sid,
                allow_set@.video,
                speaker_set@,
                bandwidth_kbps,
                now,
            ),
    {
        let ghost before = self@;
        let candidate = self.pick_layers(receiver_sid, allow_set, speaker_set, bandwidth_kbps);
        let budget: u32 = self.effective_budget_kbps(bandwidth_kbps);
        let next = match self.receiver_state.remove(&receiver_sid) {
            None => {
                let surplus = has_upgrade_headroom(budget, &candidate);
                ReceiverHysteresis {
                    last_selection: candidate,
                    headroom_streak_start: if surplus {
                        Some(now)
                    } else {
                        None
                    },
                    last_downgrade_at: None,
                }
            },
            Some(state) => {
                proof {
                    assert(before.state(receiver_sid) == Some(state@));
                }
                step_state(state, candidate, budget, now)
            },
        };
        let emitted = next.last_selection.clone();
        self.receiver_state.insert(receiver_sid, next);
        proof {
            assert(self@.states =~= before.after_pick(
                receiver_sid,
                allow_set@.video,
                speaker_set@,
                bandwidth_kbps,
                now,
            ).states);
        }
        emitted
    }

    /// Makes a choice for `receiver_sid` and keeps it, with what it was made from.
    pub fn recompute_for_receiver(
        &mut self,
        receiver_sid: SessionId,
        allow_set: &AllowSet,
        speaker_set: &[SessionId],
        bandwidth_kbps: u32,
        generation: u64,
        now: u64,
    )
        requires
            old(self).wf(),
        ensures
            final(self).wf(),
            final(self)@ == old(self)@.after_recompute(
                receiver_sid,
                allow_set@.video,
                speaker_set@,
                bandwidth_kbps,
                generation,
                now,
            ),
    {
        let ghost before = self@;
        let selection = self.pick_with_hysteresis(
            receiver_sid,
            allow_set,
            speaker_set,
            bandwidth_kbps,
            now,
        );
        self.selections.insert(
            receiver_sid,
            CachedSelection { selection, generation, bandwidth_kbps },
        );
        proof {
            let after = before.after_recompute(
                receiver_sid,
                allow_set@.video,
                speaker_set@,
                bandwidth_kbps,
                generation,
                now,
            );
            assert(self@.states =~= after.states);
            assert(self@.selections =~= after.selections);
        }
    }

    /// The choice that was last kept for `receiver_sid`.
    pub fn last_selection_for(&self, receiver_sid: SessionId) -> (r: Option<&CachedSelection>)
        ensures
            r matches Some(c) ==> self@.selections.contains_key(receiver_sid) && c@
                == self@.selections[receiver_sid] && (self.wf() ==> c.selection.wf()),
            r is None ==> !self@.selections.contains_key(receiver_sid),
    {
        self.selections.get(&receiver_sid)
    }

    /// Forgets `receiver_sid`.
    pub fn prune_stale(&mut self, receiver_sid: SessionId)
        ensures
            old(self).wf() ==> final(self).wf(),
            final(self)@ == old(self)@.after_prune(receiver_sid),
    {
        let ghost before = self@;
        self.receiver_state.remove(&receiver_sid);
        self.selections.remove(&receiver_sid);
        proof {
            assert(self@.states =~= before.after_prune(receiver_sid).states);
            assert(self@.selections =~= before.after_prune(receiver_sid).selections);
        }
    }
}

/// What is remembered after `candidate` was offered.
fn step_state(
    state: ReceiverHysteresis,
    candidate: LayerSelection,
    budget: u32,
    now: u64,
) -> (next: ReceiverHysteresis)
    requires
        state.wf(),
        candidate.wf(),
        total(candidate@) <= u32::MAX,
    ensures
        next.wf(),
        next@ == hysteresis_step(Some(state@), candidate@, budget, now),
{
    let surplus = has_upgrade_headroom(budget, &state.last_selection);
    let streak: Option<u64> = if surplus {
        match state.headroom_streak_start {
            Some(start) => Some(start),
            None => Some(now),
        }
    } else {
        None
    };
    match compare_selections(&state.last_selection, &candidate) {
        SelectionDelta::Identical => ReceiverHysteresis {
            last_selection: state.last_selection,
            headroom_streak_start: streak,
            last_downgrade_at: state.last_downgrade_at,
        },
        SelectionDelta::Downgrade => ReceiverHysteresis {
            last_selection: candidate,
            headroom_streak_start: None,
            last_downgrade_at: Some(now),
        },
        SelectionDelta::Upgrade => {
            let lasted = match state.headroom_streak_start {
                Some(start) => now.saturating_sub(start) >= UPGRADE_STREAK_REQUIRED,
                None => false,
            };
            let cooled = match state.last_downgrade_at {
                Some(t) => now.saturating_sub(t) > DOWNGRADE_COOLDOWN,
                None => true,
            };
            if surplus && lasted && cooled {
                ReceiverHysteresis {
                    last_selection: candidate,
                    headroom_streak_start: None,
                    last_downgrade_at: state.last_downgrade_at,
                }
            } else {
                ReceiverHysteresis {
                    last_selection: state.last_selection,
                    headroom_streak_start: streak,
                    last_downgrade_at: state.last_downgrade_at,
                }
            }
        },
    }
}

impl Default for LayerSelector {
    fn default() -> (r: Self)
        ensures
            r.wf(),
            r@ == (SelectorView {
                cap: DEFAULT_MAX_VIDEO_KBPS,
                headroom: (Float32 { bits: DEFAULT_BANDWIDTH_HEADROOM_PCT }),
                states: Map::empty(),
                selections: Map::empty(),
            }),
    {
        LayerSelector::new()
    }
}

/// A choice never costs more than the budget it was made for.
pub proof fn law_choice_fits_budget(ordered: Seq<SessionId>, budget: nat)
    requires
        ordered.no_duplicates(),
    ensures
        total(picked(ordered, budget)) <= budget,
{
    let n = ordered.len();
    lemma_counts(n, budget);
    lemma_granted(
        ordered,
        base_count(n, budget),
        first_count(n, budget),
        second_count(n, budget),
    );
}

/// No receiver is sent its own video, and no one's that it is not allowed.
pub proof fn law_choice_is_allowed(
    selector: SelectorView,
    receiver: SessionId,
    video: Map<SessionId, LayerPref>,
    speakers: Seq<SessionId>,
    bandwidth_kbps: u32,
)
    requires
        video.dom().finite(),
    ensures
        forall|k: StreamKey| #[trigger]
            selector.pick(receiver, video, speakers, bandwidth_kbps).contains_key(k) ==> k.0
                != receiver && video.contains_key(k.0) && k.1 == SPATIAL_LAYER_ID,
{
    let ordered = sender_order(receiver, video, speakers);
    lemma_sender_order(receiver, video, speakers);
    let n = ordered.len();
    let budget = selector.budget(bandwidth_kbps);
    lemma_counts(n, budget);
    lemma_granted(
        ordered,
        base_count(n, budget),
        first_count(n, budget),
        second_count(n, budget),
    );
    assert forall|k: StreamKey| #[trigger]
        selector.pick(receiver, video, speakers, bandwidth_kbps).contains_key(k) implies k.0
        != receiver && video.contains_key(k.0) && k.1 == SPATIAL_LAYER_ID by {
        let i = choose|i: int|
            0 <= i < base_count(n, budget) && #[trigger] ordered[i] == k.0;
        assert(ordered.to_set().contains(ordered[i]));
    }
}

/// The order lists each allowed sender once.
proof fn lemma_sender_order(
    receiver: SessionId,
    video: Map<SessionId, LayerPref>,
    speakers: Seq<SessionId>,
)
    requires
        video.dom().finite(),
    ensures
        sender_order(receiver, video, speakers).no_duplicates(),
        sender_order(receiver, video, speakers).to_set() == video.dom().remove(receiver),
{
    let allowed = allowed_sender(receiver, video);
    let heard = speakers.filter(allowed);
    let spoken = first_seen(heard);
    lemma_first_seen(heard);
    let all = video.dom().remove(receiver);
    let set = all.difference(spoken.to_set());
    crate::ids::lemma_ascending_exists(set);
    let tail = crate::ids::ascending(set);
    let ordered = sender_order(receiver, video, speakers);
    assert(ordered == spoken + tail);
    assert forall|k: int| 0 <= k < spoken.len() implies all.contains(#[trigger] spoken[k]) by {
        assert(spoken.contains(spoken[k]));
        assert(heard.contains(spoken[k]));
        let i = choose|i: int| 0 <= i < heard.len() && heard[i] == spoken[k];
        speakers.lemma_filter_pred(allowed, i);
    }
    assert forall|a: int, b: int|
        0 <= a < ordered.len() && 0 <= b < ordered.len() && a != b implies ordered[a]
        != ordered[b] by {
        if a >= spoken.len() && b >= spoken.len() {
            let x = a - spoken.len();
            let y = b - spoken.len();
            if x < y {
                assert(tail[x] < tail[y]);
            } else {
                assert(tail[y] < tail[x]);
            }
        } else if a >= spoken.len() {
            assert(tail.to_set().contains(tail[a - spoken.len()]));
            assert(spoken.to_set().contains(spoken[b]));
        } else if b >= spoken.len() {
            assert(tail.to_set().contains(tail[b - spoken.len()]));
            assert(spoken.to_set().contains(spoken[a]));
        }
    }
    assert forall|s: SessionId| ordered.to_set().contains(s) <==> all.contains(s) by {
        if ordered.to_set().contains(s) {
            let k = choose|k: int| 0 <= k < ordered.len() && ordered[k] == s;
            if k >= spoken.len() {
                assert(tail.to_set().contains(tail[k - spoken.len()]));
            } else {
                assert(spoken[k] == s);
            }
        }
        if all.contains(s) {
            if spoken.contains(s) {
                let k = choose|k: int| 0 <= k < spoken.len() && spoken[k] == s;
                assert(ordered[k] == s);
            } else {
                assert(set.contains(s));
                assert(tail.to_set().contains(s));
                let k = choose|k: int| 0 <= k < tail.len() && tail[k] == s;
                assert(ordered[spoken.len() + k] == s);
            }
        }
    }
    assert(ordered.to_set() =~= all);
}

/// Dropping repetitions drops no element and leaves none twice.
proof fn lemma_first_seen(s: Seq<SessionId>)
    ensures
        first_seen(s).no_duplicates(),
        forall|x: SessionId| #[trigger] first_seen(s).contains(x) <==> s.contains(x),
    decreases s.len(),
{
    if s.len() > 0 {
        let front = s.drop_last();
        lemma_first_seen(front);
        let f = first_seen(front);
        let r = first_seen(s);
        assert forall|x: SessionId| #[trigger] r.contains(x) <==> s.contains(x) by {
            if s.contains(x) {
                let k = choose|k: int| 0 <= k < s.len() && s[k] == x;
                if k < front.len() {
                    assert(front[k] == x);
                    assert(f.contains(x));
                    let j = choose|j: int| 0 <= j < f.len() && f[j] == x;
                    assert(r[j] == x);
                } else if !f.contains(x) {
                    assert(r[f.len() as int] == x);
                }
            }
            if r.contains(x) {
                let k = choose|k: int| 0 <= k < r.len() && r[k] == x;
                if k < f.len() {
                    assert(f[k] == x);
                    assert(f.contains(x));
                    assert(front.contains(x));
                    let j = choose|j: int| 0 <= j < front.len() && front[j] == x;
                    assert(s[j] == x);
                } else {
                    assert(s[s.len() - 1] == x);
                }
            }
        }
    }
}

/// Breadth before depth: nobody is raised while someone is left out, nobody gets
/// the second enhancement layer while someone admitted lacks the first, and a
/// more important sender never has fewer layers than a less important one.
pub proof fn law_breadth_before_depth(ordered: Seq<SessionId>, budget: nat, i: int, j: int)
    requires
        ordered.no_duplicates(),
        0 <= i < j < ordered.len(),
    ensures
        ({
            let p = picked(ordered, budget);
            let a = (ordered[i], SPATIAL_LAYER_ID);
            let b = (ordered[j], SPATIAL_LAYER_ID);
            &&& p.contains_key(b) ==> p.contains_key(a) && p[a] >= p[b] && p[a] <= p[b] + 1
            &&& p.contains_key(a) && !p.contains_key(b) ==> p[a] == 0
        }),
{
    let n = ordered.len();
    let m = base_count(n, budget);
    let k1 = first_count(n, budget);
    let k2 = second_count(n, budget);
    lemma_counts(n, budget);
    lemma_granted(ordered, m, k1, k2);
    let p = picked(ordered, budget);
    let a = (ordered[i], SPATIAL_LAYER_ID);
    let b = (ordered[j], SPATIAL_LAYER_ID);
    if p.contains_key(b) {
        let x = choose|x: int| 0 <= x < m && #[trigger] ordered[x] == b.0;
        assert(x == j);
        assert(p.contains_key((ordered[i], SPATIAL_LAYER_ID)));
        assert(p[(ordered[j], SPATIAL_LAYER_ID)] == level(j, k1, k2));
        assert(p[(ordered[i], SPATIAL_LAYER_ID)] == level(i, k1, k2));
    } else if p.contains_key(a) {
        let x = choose|x: int| 0 <= x < m && #[trigger] ordered[x] == a.0;
        assert(x == i);
        assert(j >= m) by {
            if j < m {
                assert(p.contains_key((ordered[j], SPATIAL_LAYER_ID)));
            }
        }
        assert(p[(ordered[i], SPATIAL_LAYER_ID)] == level(i, k1, k2));
    }
}

/// A budget exceeds neither the cap nor the downlink that it is a share of. Beyond
/// 2^24 kbit/s, where single precision skips integers, the cap has to be the smaller.
pub proof fn law_budget_within_downlink_and_cap(headroom: Float32, cap: u32, bandwidth_kbps: u32)
    requires
        bandwidth_kbps < 0x100_0000 || cap <= bandwidth_kbps,
    ensures
        effective_budget(headroom, cap, bandwidth_kbps) <= cap,
        effective_budget(headroom, cap, bandwidth_kbps) <= bandwidth_kbps,
{
    let h = headroom.clamped();
    if bandwidth_kbps < 0x100_0000 && h.is_plain() {
        vstd::arithmetic::power2::lemma2_to64();
        let b = bandwidth_kbps as nat;
        let u = pow2(149);
        lemma_pow2_pos(149);
        crate::float32::lemma_at_most_one(h);
        crate::rounding::lemma_rounded_exact(b, 149, 24);
        let a = single_units(bandwidth_kbps);
        assert(a * h.units() <= (b * u) * u) by (nonlinear_arith)
            requires
                a == b * u,
                h.units() <= u,
        ;
        crate::rounding::lemma_rounded_at_most(a * h.units(), u, b, 149, 24);
        let p = product_units(a, h.units());
        vstd::arithmetic::div_mod::lemma_div_is_ordered(p as int, (b * u) as int, u as int);
        vstd::arithmetic::div_mod::lemma_div_multiples_vanish(b as int, u as int);
        assert(u * b == b * u) by (nonlinear_arith);
    }
}

/// More bandwidth never takes a layer away from anyone.
pub proof fn law_more_budget_loses_nothing(ordered: Seq<SessionId>, small: nat, large: nat)
    requires
        ordered.no_duplicates(),
        small <= large,
    ensures
        !loses(picked(ordered, small), picked(ordered, large)),
{
    let n = ordered.len();
    lemma_counts(n, small);
    lemma_counts(n, large);
    lemma_granted(ordered, base_count(n, small), first_count(n, small), second_count(n, small));
    lemma_granted(ordered, base_count(n, large), first_count(n, large), second_count(n, large));
    let a = picked(ordered, small);
    let b = picked(ordered, large);
    assert forall|k: StreamKey| #[trigger] a.contains_key(k) implies b.contains_key(k) && b[k]
        >= a[k] by {
        let i = choose|i: int| 0 <= i < base_count(n, small) && #[trigger] ordered[i] == k.0;
        assert(k == (ordered[i], SPATIAL_LAYER_ID));
        assert(i < base_count(n, large));
        assert(b.contains_key((ordered[i], SPATIAL_LAYER_ID)));
    }
}

/// Two choices are called identical exactly if they are.
pub proof fn law_identical_means_equal(prev: Map<StreamKey, u32>, next: Map<StreamKey, u32>)
    ensures
        delta_of(prev, next) == SelectionDelta::Identical <==> prev == next,
{
    if delta_of(prev, next) == SelectionDelta::Identical {
        assert(!loses(prev, next));
        assert(!gains(prev, next));
        assert forall|k: StreamKey| prev.contains_key(k) <==> next.contains_key(k) by {
            if prev.contains_key(k) {
                assert(next.contains_key(k));
            }
            if next.contains_key(k) {
                assert(prev.contains_key(k));
            }
        }
        assert forall|k: StreamKey| prev.contains_key(k) implies prev[k] == next[k] by {
            assert(next.contains_key(k));
        }
        assert(prev =~= next);
    }
}

/// All layers of a choice are on the ladder.
pub open spec fn on_ladder(m: Map<StreamKey, u32>) -> bool {
    forall|k: StreamKey| #[trigger] m.contains_key(k) ==> m[k] <= 2
}

/// A choice that another one does not shrink costs no more than it.
pub proof fn lemma_total_monotone(a: Map<StreamKey, u32>, b: Map<StreamKey, u32>)
    requires
        a.dom().finite(),
        b.dom().finite(),
        on_ladder(b),
        !loses(a, b),
    ensures
        total(a) <= total(b),
    decreases a.dom().len(),
{
    if a.dom().len() > 0 {
        let k = a.dom().choose();
        assert(a.dom().contains(k));
        assert(a.contains_key(k));
        let x = a.remove(k);
        let y = b.remove(k);
        assert forall|j: StreamKey| #[trigger] x.contains_key(j) implies y.contains_key(j) && y[j]
            >= x[j] by {
            assert(a.contains_key(j));
        }
        assert forall|j: StreamKey| #[trigger] y.contains_key(j) implies y[j] <= 2 by {
            assert(b.contains_key(j));
        }
        lemma_total_monotone(x, y);
        lemma_total_remove(a, k);
        lemma_total_remove(b, k);
    }
}

/// What is emitted fits the present budget, also where an upgrade is held back.
pub proof fn law_emitted_fits_budget(
    state: Option<HysteresisView>,
    candidate: Map<StreamKey, u32>,
    budget: u32,
    now: u64,
)
    requires
        candidate.dom().finite(),
        on_ladder(candidate),
        total(candidate) <= budget,
        state matches Some(s) ==> s.last.dom().finite(),
    ensures
        total(hysteresis_step(state, candidate, budget, now).last) <= budget,
{
    if let Some(s) = state {
        if !loses(s.last, candidate) {
            lemma_total_monotone(s.last, candidate);
        }
    }
}

/// A smaller choice is emitted at once.
pub proof fn law_downgrade_is_immediate(
    state: HysteresisView,
    candidate: Map<StreamKey, u32>,
    budget: u32,
    now: u64,
)
    requires
        loses(state.last, candidate),
    ensures
        hysteresis_step(Some(state), candidate, budget, now).last == candidate,
        hysteresis_step(Some(state), candidate, budget, now).downgraded == Some(now),
        hysteresis_step(Some(state), candidate, budget, now).streak is None,
{
}

/// What is emitted is the candidate or what was emitted before.
pub proof fn law_emitted_is_old_or_new(
    state: HysteresisView,
    candidate: Map<StreamKey, u32>,
    budget: u32,
    now: u64,
)
    ensures
        ({
            let next = hysteresis_step(Some(state), candidate, budget, now);
            next.last == candidate || next.last == state.last
        }),
{
}

/// One offer to the hysteresis of a receiver.
pub struct Offer {
    pub candidate: Map<StreamKey, u32>,
    pub budget: u32,
    pub now: u64,
}

/// What is remembered after a series of offers.
pub open spec fn after_offers(state: HysteresisView, offers: Seq<Offer>) -> HysteresisView
    decreases offers.len(),
{
    if offers.len() == 0 {
        state
    } else {
        let o = offers.last();
        hysteresis_step(
            Some(after_offers(state, offers.drop_last())),
            o.candidate,
            o.budget,
            o.now,
        )
    }
}

/// For five seconds after a downgrade nothing grows: from the moment a smaller
/// choice is emitted at `start`, each choice emitted until then is the one before
/// it or a further downgrade, whatever is offered.
pub proof fn law_no_upgrade_during_cooldown(
    state: HysteresisView,
    offers: Seq<Offer>,
    start: u64,
)
    requires
        offers.len() > 0,
        state.downgraded == Some(start),
        forall|i: int|
            0 <= i < offers.len() ==> start <= (#[trigger] offers[i]).now && offers[i].now - start
                <= DOWNGRADE_COOLDOWN,
    ensures
        ({
            let before = after_offers(state, offers.drop_last());
            let after = after_offers(state, offers);
            after.last == before.last || loses(before.last, after.last)
        }),
{
    lemma_downgrade_remembered(state, offers.drop_last(), start);
    assert(start <= offers[offers.len() - 1].now);
}

/// A downgrade is remembered until a later one.
proof fn lemma_downgrade_remembered(state: HysteresisView, offers: Seq<Offer>, start: u64)
    requires
        state.downgraded matches Some(t) && t >= start,
        forall|i: int| 0 <= i < offers.len() ==> start <= (#[trigger] offers[i]).now,
    ensures
        after_offers(state, offers).downgraded matches Some(t) && t >= start,
    decreases offers.len(),
{
    if offers.len() > 0 {
        lemma_downgrade_remembered(state, offers.drop_last(), start);
        assert(start <= offers[offers.len() - 1].now);
    }
}

/// Growth is spaced: after an upgrade, or whenever no surplus is on record at
/// `start`, nothing grows for three seconds, whatever is offered.
pub proof fn law_upgrades_are_spaced(state: HysteresisView, offers: Seq<Offer>, start: u64)
    requires
        offers.len() > 0,
        state.streak is None,
        forall|i: int|
            0 <= i < offers.len() ==> start <= (#[trigger] offers[i]).now && offers[i].now - start
                < UPGRADE_STREAK_REQUIRED,
    ensures
        ({
            let before = after_offers(state, offers.drop_last());
            let after = after_offers(state, offers);
            after.last == before.last || loses(before.last, after.last)
        }),
{
    lemma_streak_is_recent(state, offers.drop_last(), start);
    assert(start <= offers[offers.len() - 1].now);
}

/// A streak that began after `start` does not predate it.
proof fn lemma_streak_is_recent(state: HysteresisView, offers: Seq<Offer>, start: u64)
    requires
        state.streak matches Some(t) ==> t >= start,
        forall|i: int| 0 <= i < offers.len() ==> start <= (#[trigger] offers[i]).now,
    ensures
        after_offers(state, offers).streak matches Some(t) ==> t >= start,
    decreases offers.len(),
{
    if offers.len() > 0 {
        lemma_streak_is_recent(state, offers.drop_last(), start);
        assert(start <= offers[offers.len() - 1].now);
    }
}

/// An upgrade leaves no streak on record.
pub proof fn law_upgrade_resets_streak(
    state: HysteresisView,
    candidate: Map<StreamKey, u32>,
    budget: u32,
    now: u64,
)
    requires
        hysteresis_step(Some(state), candidate, budget, now).last != state.last,
    ensures
        hysteresis_step(Some(state), candidate, budget, now).streak is None,
{
}

/// A forgotten receiver starts over: its next choice is emitted as it is.
pub proof fn law_pruned_receiver_starts_over(
    selector: SelectorView,
    receiver: SessionId,
    video: Map<SessionId, LayerPref>,
    speakers: Seq<SessionId>,
    bandwidth_kbps: u32,
    now: u64,
)
    ensures
        ({
            let pruned = selector.after_prune(receiver);
            &&& pruned.after_prune(receiver) == pruned
            &&& !pruned.selections.contains_key(receiver)
            &&& pruned.next_state(receiver, video, speakers, bandwidth_kbps, now).last
                == selector.pick(receiver, video, speakers, bandwidth_kbps)
        }),
{
    let pruned = selector.after_prune(receiver);
    assert(pruned.after_prune(receiver).states =~= pruned.states);
    assert(pruned.after_prune(receiver).selections =~= pruned.selections);
}

/// The bitrates of a choice: nothing costs nothing, and a stream that is added costs
/// 128 kbps up to its base layer, 384 up to the first enhancement layer, 896 up to
/// the second, and nothing beyond.
pub proof fn law_bitrates_add_up(m: Map<StreamKey, u32>, k: StreamKey, t: u32)
    requires
        m.dom().finite(),
        !m.contains_key(k),
    ensures
        total(Map::empty()) == 0,
        t == 0 ==> total(m.insert(k, t)) == total(m) + 128,
        t == 1 ==> total(m.insert(k, t)) == total(m) + 384,
        t == 2 ==> total(m.insert(k, t)) == total(m) + 896,
        t > 2 ==> total(m.insert(k, t)) == total(m),
{
    lemma_total_insert(m, k, t);
    assert(Map::<StreamKey, u32>::empty().dom().len() == 0);
}

/// A choice is maximal for its budget: a sender that is left out would not fit
/// beside it with its base layer, and no stream of it can be raised by its next
/// layer with what is left.
pub proof fn law_choice_is_maximal(
    selector: SelectorView,
    receiver: SessionId,
    video: Map<SessionId, LayerPref>,
    speakers: Seq<SessionId>,
    bandwidth_kbps: u32,
)
    requires
        video.dom().finite(),
    ensures
        ({
            let p = selector.pick(receiver, video, speakers, bandwidth_kbps);
            let budget = selector.budget(bandwidth_kbps);
            &&& total(p) <= budget
            &&& forall|s: SessionId| #[trigger]
                video.contains_key(s) && s != receiver && !p.contains_key((s, 0u32)) ==> total(p)
                    + 128 > budget
            &&& forall|k: StreamKey| #[trigger]
                p.contains_key(k) ==> {
                    &&& p[k] == 0 ==> total(p) + 256 > budget
                    &&& p[k] == 1 ==> total(p) + 512 > budget
                    &&& p[k] <= 2
                }
        }),
{
    let ordered = sender_order(receiver, video, speakers);
    lemma_sender_order(receiver, video, speakers);
    let n = ordered.len();
    let budget = selector.budget(bandwidth_kbps);
    let m = base_count(n, budget);
    let k1 = first_count(n, budget);
    let k2 = second_count(n, budget);
    lemma_counts(n, budget);
    lemma_granted(ordered, m, k1, k2);
    let p = selector.pick(receiver, video, speakers, bandwidth_kbps);
    assert forall|s: SessionId| #[trigger]
        video.contains_key(s) && s != receiver && !p.contains_key((s, 0u32)) implies total(p) + 128
        > budget by {
        assert(ordered.to_set().contains(s));
        let i = choose|i: int| 0 <= i < ordered.len() && ordered[i] == s;
        assert(i >= m) by {
            if i < m {
                assert(p.contains_key((ordered[i], SPATIAL_LAYER_ID)));
            }
        }
    }
    assert forall|k: StreamKey| #[trigger] p.contains_key(k) implies {
        &&& p[k] == 0 ==> total(p) + 256 > budget
        &&& p[k] == 1 ==> total(p) + 512 > budget
        &&& p[k] <= 2
    } by {
        let i = choose|i: int| 0 <= i < m && #[trigger] ordered[i] == k.0;
        assert(p[(ordered[i], SPATIAL_LAYER_ID)] == level(i, k1, k2));
    }
}

/// `a` comes before `b` for a receiver: it was heard before `b`, if `b` was heard at
/// all, or neither was heard and its id is smaller.
pub open spec fn matters_more(speakers: Seq<SessionId>, a: SessionId, b: SessionId) -> bool {
    ||| exists|i: int|
        0 <= i < speakers.len() && #[trigger] speakers[i] == a && forall|j: int|
            0 <= j <= i ==> speakers[j] != b
    ||| !speakers.contains(a) && !speakers.contains(b) && a < b
}

/// Whoever is heard first stays first when the others that are not allowed, and
/// repetitions, are left out.
proof fn lemma_heard_order(
    s: Seq<SessionId>,
    p: spec_fn(SessionId) -> bool,
    i: int,
    b: SessionId,
)
    requires
        0 <= i < s.len(),
        p(s[i]),
        forall|j: int| 0 <= j <= i ==> s[j] != b,
    ensures
        exists|x: int|
            0 <= x < first_seen(s.filter(p)).len() && #[trigger] first_seen(s.filter(p))[x] == s[i]
                && forall|y: int| 0 <= y <= x ==> first_seen(s.filter(p))[y] != b,
    decreases s.len(),
{
    reveal(Seq::filter);
    let front = s.drop_last();
    let f = first_seen(front.filter(p));
    let r = first_seen(s.filter(p));
    if p(s.last()) {
        assert(s.filter(p).drop_last() =~= front.filter(p));
        assert(s.filter(p).last() == s.last());
    }
    if i < front.len() {
        lemma_heard_order(front, p, i, b);
        let x = choose|x: int|
            0 <= x < f.len() && #[trigger] f[x] == front[i] && forall|y: int|
                0 <= y <= x ==> f[y] != b;
        assert(r[x] == s[i]);
        assert forall|y: int| 0 <= y <= x implies r[y] != b by {
            assert(r[y] == f[y]);
        }
    } else {
        let heard = s.filter(p);
        lemma_first_seen(heard);
        assert(heard[heard.len() - 1] == s[i]);
        assert(heard.contains(s[i]));
        assert(r.contains(s[i]));
        let x = choose|x: int| 0 <= x < r.len() && r[x] == s[i];
        assert forall|y: int| 0 <= y <= x implies r[y] != b by {
            assert(r.contains(r[y]));
            assert(heard.contains(r[y]));
            s.lemma_filter_contains_rev(p, r[y]);
        }
    }
}

/// The order of senders: each that a receiver may get video from is listed once, no one
/// else is, and one that matters more comes first.
pub proof fn law_order_follows_importance(
    receiver: SessionId,
    video: Map<SessionId, LayerPref>,
    speakers: Seq<SessionId>,
    a: SessionId,
    b: SessionId,
)
    requires
        video.dom().finite(),
    ensures
        ({
            let ordered = sender_order(receiver, video, speakers);
            &&& ordered.no_duplicates()
            &&& ordered.contains(a) <==> video.contains_key(a) && a != receiver
            &&& ordered.contains(a) && ordered.contains(b) && matters_more(speakers, a, b)
                ==> ordered.index_of(a) < ordered.index_of(b)
        }),
{
    let allowed = allowed_sender(receiver, video);
    let heard = speakers.filter(allowed);
    let spoken = first_seen(heard);
    let ordered = sender_order(receiver, video, speakers);
    lemma_first_seen(heard);
    lemma_sender_order(receiver, video, speakers);
    assert(ordered.to_set().contains(a) <==> ordered.contains(a));
    assert(ordered.to_set().contains(b) <==> ordered.contains(b));
    if ordered.contains(a) && ordered.contains(b) && matters_more(speakers, a, b) {
        let y = ordered.index_of(b);
        let all = video.dom().remove(receiver);
        let set = all.difference(spoken.to_set());
        crate::ids::lemma_ascending_exists(set);
        let tail = crate::ids::ascending(set);
        assert(ordered == spoken + tail);
        if !speakers.contains(a) && !speakers.contains(b) && a < b {
            let x = ordered.index_of(a);
            assert(x >= spoken.len()) by {
                if x < spoken.len() {
                    assert(spoken.contains(spoken[x]));
                    speakers.lemma_filter_contains_rev(allowed, a);
                }
            }
            assert(y >= spoken.len()) by {
                if y < spoken.len() {
                    assert(spoken.contains(spoken[y]));
                    speakers.lemma_filter_contains_rev(allowed, b);
                }
            }
            assert(tail[x - spoken.len()] == a);
            assert(tail[y - spoken.len()] == b);
            assert(x < y) by {
                if y < x {
                    assert(tail[y - spoken.len()] < tail[x - spoken.len()]);
                }
            }
        } else {
            let i = choose|i: int|
                0 <= i < speakers.len() && #[trigger] speakers[i] == a && forall|j: int|
                    0 <= j <= i ==> speakers[j] != b;
            lemma_heard_order(speakers, allowed, i, b);
            let x = choose|x: int|
                0 <= x < spoken.len() && #[trigger] spoken[x] == a && forall|z: int|
                    0 <= z <= x ==> spoken[z] != b;
            assert(ordered[x] == a);
            assert(x == ordered.index_of(a));
            assert(x < y) by {
                if y <= x {
                    assert(spoken[y] == b);
                }
            }
        }
    }
}

/// Of two senders that a receiver may get video from, the one that matters more is
/// never worse off: it is there if the other is, with as many layers or one more;
/// and while the other is left out, it has no more than its base layer.
pub proof fn law_importance_decides(
    selector: SelectorView,
    receiver: SessionId,
    video: Map<SessionId, LayerPref>,
    speakers: Seq<SessionId>,
    bandwidth_kbps: u32,
    a: SessionId,
    b: SessionId,
)
    requires
        video.dom().finite(),
        video.contains_key(a) && a != receiver,
        video.contains_key(b) && b != receiver,
        matters_more(speakers, a, b),
    ensures
        ({
            let p = selector.pick(receiver, video, speakers, bandwidth_kbps);
            &&& p.contains_key((b, 0u32)) ==> {
                &&& p.contains_key((a, 0u32))
                &&& p[(b, 0u32)] <= p[(a, 0u32)] <= p[(b, 0u32)] + 1
            }
            &&& p.contains_key((a, 0u32)) && !p.contains_key((b, 0u32)) ==> p[(a, 0u32)] == 0
        }),
{
    let ordered = sender_order(receiver, video, speakers);
    law_order_follows_importance(receiver, video, speakers, a, b);
    law_order_follows_importance(receiver, video, speakers, b, a);
    law_breadth_before_depth(
        ordered,
        selector.budget(bandwidth_kbps),
        ordered.index_of(a),
        ordered.index_of(b),
    );
}

/// A loss anywhere makes a downgrade, whatever is gained elsewhere; any other change
/// is an upgrade.
pub proof fn law_any_loss_is_a_downgrade(prev: Map<StreamKey, u32>, next: Map<StreamKey, u32>)
    ensures
        forall|k: StreamKey| #[trigger]
            prev.contains_key(k) && (!next.contains_key(k) || next[k] < prev[k]) ==> delta_of(
                prev,
                next,
            ) == SelectionDelta::Downgrade,
        (forall|k: StreamKey| #[trigger]
            prev.contains_key(k) ==> next.contains_key(k) && next[k] >= prev[k]) && prev != next
            ==> delta_of(prev, next) == SelectionDelta::Upgrade,
        delta_of(prev, prev) == SelectionDelta::Identical,
{
    law_identical_means_equal(prev, next);
    law_identical_means_equal(prev, prev);
}

/// The first choice for a receiver is emitted as it is; a surplus starts a streak.
pub proof fn law_first_choice_is_emitted(
    selector: SelectorView,
    receiver: SessionId,
    video: Map<SessionId, LayerPref>,
    speakers: Seq<SessionId>,
    bandwidth_kbps: u32,
    now: u64,
)
    requires
        !selector.states.contains_key(receiver),
    ensures
        ({
            let candidate = selector.pick(receiver, video, speakers, bandwidth_kbps);
            let budget = selector.budget(bandwidth_kbps) as u32;
            let after = selector.next_state(receiver, video, speakers, bandwidth_kbps, now);
            &&& after.last == candidate
            &&& after.downgraded is None
            &&& enough_headroom(budget, total(candidate)) ==> after.streak == Some(now)
            &&& !enough_headroom(budget, total(candidate)) ==> after.streak is None
        }),
{
}

/// An upgrade comes exactly when it is due. While nothing of the last choice would be
/// lost, the new choice is emitted if the budget has had a surplus over the last one
/// for three seconds, still has it, and the last downgrade, if any, is more than five
/// seconds past; and in no other case. A loss is emitted at once.
pub proof fn law_upgrade_comes_when_due(
    selector: SelectorView,
    receiver: SessionId,
    video: Map<SessionId, LayerPref>,
    speakers: Seq<SessionId>,
    bandwidth_kbps: u32,
    now: u64,
)
    requires
        selector.states.contains_key(receiver),
    ensures
        ({
            let before = selector.states[receiver];
            let candidate = selector.pick(receiver, video, speakers, bandwidth_kbps);
            let budget = selector.budget(bandwidth_kbps) as u32;
            let after = selector.next_state(receiver, video, speakers, bandwidth_kbps, now);
            let keeps = forall|k: StreamKey| #[trigger]
                before.last.contains_key(k) ==> candidate.contains_key(k) && candidate[k]
                    >= before.last[k];
            let lasted = before.streak matches Some(start) && start + 3_000_000_000 <= now;
            let calm = before.downgraded matches Some(t) ==> t + 5_000_000_000 < now;
            let surplus = enough_headroom(budget, total(before.last));
            &&& keeps && surplus && lasted && calm ==> after.last == candidate
            &&& keeps && surplus && lasted && calm && candidate != before.last
                ==> after.streak is None
            &&& keeps && !(surplus && lasted && calm) ==> after.last == before.last
            &&& keeps ==> after.downgraded == before.downgraded
            &&& !keeps ==> after.last == candidate && after.streak is None && after.downgraded
                == Some(now)
        }),
{
    let before = selector.states[receiver];
    let candidate = selector.pick(receiver, video, speakers, bandwidth_kbps);
    law_identical_means_equal(before.last, candidate);
}

/// While nothing is emitted anew, a surplus starts a streak or lets it go on, and
/// without a surplus there is none.
pub proof fn law_streak_follows_surplus(
    selector: SelectorView,
    receiver: SessionId,
    video: Map<SessionId, LayerPref>,
    speakers: Seq<SessionId>,
    bandwidth_kbps: u32,
    now: u64,
)
    requires
        selector.states.contains_key(receiver),
        ({
            let before = selector.states[receiver];
            selector.next_state(receiver, video, speakers, bandwidth_kbps, now).last == before.last
        }),
    ensures
        ({
            let before = selector.states[receiver];
            let budget = selector.budget(bandwidth_kbps) as u32;
            let after = selector.next_state(receiver, video, speakers, bandwidth_kbps, now);
            let surplus = enough_headroom(budget, total(before.last));
            &&& surplus && before.streak is Some ==> after.streak == before.streak
            &&& surplus && before.streak is None ==> after.streak == Some(now)
            &&& !surplus ==> after.streak is None
        }),
{
    let before = selector.states[receiver];
    let candidate = selector.pick(receiver, video, speakers, bandwidth_kbps);
    law_identical_means_equal(before.last, candidate);
}

/// A sustained surplus brings the upgrade: if every offer of a series leaves the last
/// choice untouched and has a surplus over it, nothing was emitted anew before the
/// last of them, and that comes three seconds or more after the first and more than
/// five after any downgrade, then it is emitted.
pub proof fn law_sustained_surplus_upgrades(state: HysteresisView, offers: Seq<Offer>)
    requires
        offers.len() >= 2,
        forall|i: int|
            0 <= i < offers.len() ==> enough_headroom(
                (#[trigger] offers[i]).budget,
                total(state.last),
            ),
        forall|i: int, k: StreamKey|
            0 <= i < offers.len() && #[trigger] state.last.contains_key(k) ==> (
            #[trigger] offers[i]).candidate.contains_key(k) && offers[i].candidate[k]
                >= state.last[k],
        forall|i: int|
            0 <= i < offers.len() ==> after_offers(state, #[trigger] offers.take(i)).last
                == state.last,
        state.streak matches Some(t) ==> t <= offers[0].now,
        offers.last().now >= offers[0].now + 3_000_000_000,
        state.downgraded matches Some(t) ==> t + 5_000_000_000 < offers.last().now,
    ensures
        after_offers(state, offers).last == offers.last().candidate,
{
    let n = (offers.len() - 1) as int;
    lemma_surplus_lasts(state, offers, n);
    assert(offers.drop_last() =~= offers.take(n));
    assert(offers.take(n).len() == n);
    let mid = after_offers(state, offers.take(n));
    law_identical_means_equal(mid.last, offers.last().candidate);
    assert(offers[n] == offers.last());
    assert(!loses(mid.last, offers[n].candidate));
    assert(enough_headroom(offers[n].budget, total(mid.last)));
}

/// The streak of a series of offers with a surplus began with the first, or before.
proof fn lemma_surplus_lasts(state: HysteresisView, offers: Seq<Offer>, n: int)
    requires
        1 <= n < offers.len(),
        forall|i: int|
            0 <= i < offers.len() ==> enough_headroom(
                (#[trigger] offers[i]).budget,
                total(state.last),
            ),
        forall|i: int, k: StreamKey|
            0 <= i < offers.len() && #[trigger] state.last.contains_key(k) ==> (
            #[trigger] offers[i]).candidate.contains_key(k) && offers[i].candidate[k]
                >= state.last[k],
        forall|i: int|
            0 <= i < offers.len() ==> after_offers(state, #[trigger] offers.take(i)).last
                == state.last,
        state.streak matches Some(t) ==> t <= offers[0].now,
    ensures
        ({
            let mid = after_offers(state, offers.take(n));
            &&& mid.streak matches Some(t) && t <= offers[0].now
            &&& mid.downgraded == state.downgraded
            &&& mid.last == state.last
        }),
    decreases n,
{
    let before = after_offers(state, offers.take(n - 1));
    assert(offers.take(n).drop_last() =~= offers.take(n - 1));
    assert(offers.take(n).last() == offers[n - 1]);
    assert(offers.take(n).len() == n);
    if n > 1 {
        lemma_surplus_lasts(state, offers, n - 1);
    } else {
        assert(offers.take(0).len() == 0);
        assert(before == state);
    }
    assert(before.last == state.last);
    let o = offers[n - 1];
    assert(!loses(before.last, o.candidate));
    law_identical_means_equal(before.last, o.candidate);
}

/// A surplus is a fifth more: for bitrates that single precision holds exactly, a
/// budget has one over `kbps` if it reaches 1.2 times `kbps`, taken to the nearest
/// single-precision ratio, and has none if it is short of that by one or more.
pub proof fn law_surplus_is_a_fifth(budget: u32, kbps: u32)
    requires
        0 < kbps < 0x100_0000,
        budget < 0xFF_FFFF,
    ensures
        budget * 8_388_608 >= kbps * 10_066_330 ==> enough_headroom(budget, kbps as nat),
        (budget + 1) * 8_388_608 <= kbps * 10_066_330 ==> !enough_headroom(budget, kbps as nat),
        enough_headroom(budget, 0),
{
    let ratio = Float32 { bits: UPGRADE_HEADROOM_RATIO };
    vstd::arithmetic::power2::lemma2_to64();
    lemma_pow2_adds(23, 126);
    lemma_pow2_pos(149);
    lemma_pow2_pos(126);
    let u = pow2(149);
    let v = pow2(126);
    assert(ratio.bits as nat / 0x80_0000 == 127);
    assert(ratio.bits as nat % 0x80_0000 == 0x19_999A);
    assert(ratio.units() == 10_066_330 * v);
    crate::rounding::lemma_rounded_exact(kbps as nat, 149, 24);
    crate::rounding::lemma_rounded_exact(budget as nat, 149, 24);
    let a = single_units(kbps);
    let need = product_units(a, ratio.units());
    let k = kbps as nat;
    let b = budget as nat;
    assert(u == 8_388_608 * v);
    assert(a * ratio.units() == (k * 10_066_330 * v) * u) by (nonlinear_arith)
        requires
            a == k * u,
            ratio.units() == 10_066_330 * v,
    ;
    if b * 8_388_608 >= k * 10_066_330 {
        assert(a * ratio.units() <= (b * u) * u) by (nonlinear_arith)
            requires
                a * ratio.units() == (k * 10_066_330 * v) * u,
                b * 8_388_608 >= k * 10_066_330,
                u == 8_388_608 * v,
                v > 0,
                u > 0,
        ;
        crate::rounding::lemma_rounded_at_most(a * ratio.units(), u, b, 149, 24);
    }
    if (b + 1) * 8_388_608 <= k * 10_066_330 {
        assert(a * ratio.units() >= ((b + 1) * u) * u) by (nonlinear_arith)
            requires
                a * ratio.units() == (k * 10_066_330 * v) * u,
                (b + 1) * 8_388_608 <= k * 10_066_330,
                u == 8_388_608 * v,
                v > 0,
                u > 0,
        ;
        crate::rounding::lemma_rounded_at_least(a * ratio.units(), u, b + 1, 149, 24);
        assert((b + 1) * u > b * u) by (nonlinear_arith)
            requires
                u > 0,
        ;
    }
}

/// A budget is the share `headroom` of the downlink, rounded down, within one kbps,
/// and at most the cap. The whole downlink is kept exactly, and a share above 1.0
/// counts as 1.0.
pub proof fn law_budget_is_the_share(headroom: Float32, cap: u32, bandwidth_kbps: u32)
    requires
        headroom.bits < 0x7F80_0000,
        bandwidth_kbps < 0xFF_FFFF,
    ensures
        ({
            let budget = effective_budget(headroom, cap, bandwidth_kbps);
            let exact = (bandwidth_kbps * headroom.units()) / pow2(149) as int;
            &&& headroom.bits <= 0x3F80_0000 ==> budget <= exact + 1
            &&& headroom.bits <= 0x3F80_0000 && exact <= cap ==> budget >= exact
            &&& headroom.bits <= 0x3F80_0000 && exact >= cap ==> budget == cap
            &&& headroom.bits >= 0x3F80_0000 && bandwidth_kbps <= cap ==> budget == bandwidth_kbps
            &&& headroom.bits >= 0x3F80_0000 && bandwidth_kbps >= cap ==> budget == cap
        }),
{
    let h = headroom.clamped();
    vstd::arithmetic::power2::lemma2_to64();
    let b = bandwidth_kbps as nat;
    let u = pow2(149);
    lemma_pow2_pos(149);
    crate::float32::lemma_at_most_one(h);
    crate::float32::lemma_one();
    crate::rounding::lemma_rounded_exact(b, 149, 24);
    let a = single_units(bandwidth_kbps);
    let w = h.units();
    let p = product_units(a, w);
    let q = (b * w) / u;
    assert(b * w >= 0) by (nonlinear_arith);
    vstd::arithmetic::div_mod::lemma_fundamental_div_mod((b * w) as int, u as int);
    assert(a * w == (b * w) * u) by (nonlinear_arith)
        requires
            a == b * u,
    ;
    assert(b * w <= b * u) by (nonlinear_arith)
        requires
            w <= u,
    ;
    vstd::arithmetic::div_mod::lemma_div_is_ordered((b * w) as int, (b * u) as int, u as int);
    vstd::arithmetic::div_mod::lemma_div_multiples_vanish(b as int, u as int);
    assert(u * b == b * u) by (nonlinear_arith);
    assert(q <= b);
    assert((b * w) * u >= (q * u) * u && (b * w) * u <= ((q + 1) * u) * u) by (nonlinear_arith)
        requires
            b * w == u * q + (b * w) % u,
            0 <= (b * w) % u < u,
            u > 0,
    ;
    crate::rounding::lemma_rounded_at_least(a * w, u, q, 149, 24);
    crate::rounding::lemma_rounded_at_most(a * w, u, q + 1, 149, 24);
    vstd::arithmetic::div_mod::lemma_div_is_ordered((q * u) as int, p as int, u as int);
    vstd::arithmetic::div_mod::lemma_div_is_ordered(p as int, ((q + 1) * u) as int, u as int);
    vstd::arithmetic::div_mod::lemma_div_multiples_vanish(q as int, u as int);
    vstd::arithmetic::div_mod::lemma_div_multiples_vanish((q + 1) as int, u as int);
    assert(u * q == q * u && u * (q + 1) == (q + 1) * u) by (nonlinear_arith);
    if headroom.bits >= 0x3F80_0000 {
        law_budget_within_downlink_and_cap(headroom, cap, bandwidth_kbps);
        assert(h.bits == 0x3F80_0000);
        assert(w == u);
        assert(q == b);
    }
}

/// A choice for one receiver is remembered for that one, with what it was made from,
/// and changes nothing for anyone else.
pub proof fn law_choices_are_kept_per_receiver(
    selector: SelectorView,
    receiver: SessionId,
    video: Map<SessionId, LayerPref>,
    speakers: Seq<SessionId>,
    bandwidth_kbps: u32,
    generation: u64,
    now: u64,
    other: SessionId,
)
    requires
        other != receiver,
    ensures
        ({
            let state = selector.next_state(receiver, video, speakers, bandwidth_kbps, now);
            let made = selector.after_pick(receiver, video, speakers, bandwidth_kbps, now);
            let kept = selector.after_recompute(
                receiver,
                video,
                speakers,
                bandwidth_kbps,
                generation,
                now,
            );
            let pruned = selector.after_prune(receiver);
            &&& made.state(receiver) == Some(state)
            &&& made.selections == selector.selections
            &&& kept.state(receiver) == Some(state)
            &&& kept.selections.contains_key(receiver)
            &&& kept.selections[receiver].selection == state.last
            &&& kept.selections[receiver].generation == generation
            &&& kept.selections[receiver].bandwidth_kbps == bandwidth_kbps
            &&& made.state(other) == selector.state(other)
            &&& kept.state(other) == selector.state(other)
            &&& pruned.state(other) == selector.state(other)
            &&& kept.selections.contains_key(other) == selector.selections.contains_key(other)
            &&& pruned.selections.contains_key(other) == selector.selections.contains_key(other)
            &&& selector.selections.contains_key(other) ==> kept.selections[other]
                == selector.selections[other] && pruned.selections[other]
                == selector.selections[other]
            &&& made.cap == selector.cap && kept.cap == selector.cap && pruned.cap == selector.cap
            &&& made.headroom == selector.headroom && kept.headroom == selector.headroom
                && pruned.headroom == selector.headroom
        }),
{
}

/// The product of an integer and a value, both in single precision, is near the exact
/// product.
proof fn lemma_product_near(n: u32, w: nat)
    requires
        n > 0,
        w >= 0x80_0000,
    ensures
        ({
            let p = product_units(single_units(n), w);
            &&& p * 0x40_0000 <= (n * w) * 0x40_0001
            &&& p * 0x40_0000 >= (n * w) * 0x3F_FFFF
        }),
{
    vstd::arithmetic::power2::lemma2_to64();
    lemma_pow2_pos(149);
    let u = pow2(149);
    let b = n as nat;
    let a = single_units(n);
    let p = product_units(a, w);
    crate::rounding::lemma_pow2_monotone(23, 149);
    assert(b * u >= 1 * pow2(23)) by (nonlinear_arith)
        requires
            b >= 1,
            u >= pow2(23),
    ;
    crate::rounding::law_rounding_is_near(b * u, 1, 24);
    assert(a >= u) by {
        assert(b * u >= (1 * u) * 1) by (nonlinear_arith)
            requires
                b >= 1,
        ;
        crate::rounding::lemma_rounded_at_least(b * u, 1, 1, 149, 24);
    }
    assert(a * w >= u * pow2(23)) by (nonlinear_arith)
        requires
            a >= u,
            w >= pow2(23),
    ;
    crate::rounding::law_rounding_is_near(a * w, u, 24);
    let k = 0x100_0000int;
    let x = b * w;
    assert(x > 0) by (nonlinear_arith)
        requires
            x == b * w,
            b > 0,
            w > 0,
    ;
    assert(k * (p * u) <= (k + 1) * (a * w)) by (nonlinear_arith)
        requires
            (p * u - a * w) * k <= a * w,
    ;
    assert(k * (p * u) >= (k - 1) * (a * w)) by (nonlinear_arith)
        requires
            (a * w - p * u) * k <= a * w,
    ;
    assert(k * (a * w) <= (k + 1) * (x * u)) by (nonlinear_arith)
        requires
            (a * 1 - b * u) * k <= b * u,
            x == b * w,
            w > 0,
    ;
    assert(k * (a * w) >= (k - 1) * (x * u)) by (nonlinear_arith)
        requires
            (b * u - a * 1) * k <= b * u,
            x == b * w,
            w > 0,
    ;
    let y = a * w;
    let z = p * u;
    let t = x * u;
    assert(k * (k * z) <= (k + 1) * ((k + 1) * t) && k * (k * z) >= (k - 1) * ((k - 1) * t))
        by (nonlinear_arith)
        requires
            k * z <= (k + 1) * y,
            k * z >= (k - 1) * y,
            k * y <= (k + 1) * t,
            k * y >= (k - 1) * t,
            k > 1,
    ;
    assert(t > 0) by (nonlinear_arith)
        requires
            t == x * u,
            x > 0,
            u > 0,
    ;
    let m = 0x40_0000int;
    assert(z * m <= t * (m + 1) && z * m >= t * (m - 1)) by {
        assert(k == 4 * m);
        assert(k * k * z <= (k + 1) * (k + 1) * t && k * k * z >= (k - 1) * (k - 1) * t)
            by (nonlinear_arith)
            requires
                k * (k * z) <= (k + 1) * ((k + 1) * t),
                k * (k * z) >= (k - 1) * ((k - 1) * t),
        ;
        assert(k * k == 281474976710656);
        assert((k + 1) * (k + 1) == 281475010265089);
        assert((k - 1) * (k - 1) == 281474943156225);
    }
    assert(p * m <= x * (m + 1) && p * m >= x * (m - 1)) by (nonlinear_arith)
        requires
            z * m <= t * (m + 1),
            z * m >= t * (m - 1),
            z == p * u,
            t == x * u,
            u > 0,
    ;
}

/// For any downlink, and any share from 1.0 down to the smallest that single precision
/// holds in full, the budget is the share of the downlink, rounded down and at most the
/// cap, up to a relative error of `2^-22`.
pub proof fn law_budget_is_near_the_share(headroom: Float32, cap: u32, bandwidth_kbps: u32)
    requires
        0x80_0000 <= headroom.bits <= 0x3F80_0000,
        bandwidth_kbps > 0,
    ensures
        ({
            let budget = effective_budget(headroom, cap, bandwidth_kbps);
            let exact = bandwidth_kbps * headroom.units();
            &&& (budget * pow2(149)) * 0x40_0000 <= exact * 0x40_0001
            &&& budget < cap && budget < u32::MAX ==> ((budget + 1) * pow2(149)) * 0x40_0000
                > exact * 0x3F_FFFF
            &&& budget <= cap
        }),
{
    vstd::arithmetic::power2::lemma2_to64();
    lemma_pow2_pos(149);
    let u = pow2(149);
    let w = headroom.units();
    let p = product_units(single_units(bandwidth_kbps), w);
    assert(w >= 0x80_0000) by {
        let e = headroom.bits as nat / 0x80_0000;
        let f = headroom.bits as nat % 0x80_0000;
        assert(e >= 1);
        lemma_pow2_pos((e - 1) as nat);
        assert((f + 0x80_0000) * pow2((e - 1) as nat) >= 0x80_0000) by (nonlinear_arith)
            requires
                pow2((e - 1) as nat) >= 1,
        ;
    }
    lemma_product_near(bandwidth_kbps, w);
    let share = p / u;
    vstd::arithmetic::div_mod::lemma_fundamental_div_mod(p as int, u as int);
    vstd::arithmetic::div_mod::lemma_mod_bound(p as int, u as int);
    assert(share * u <= p < (share + 1) * u) by (nonlinear_arith)
        requires
            p == u * share + p % u,
            0 <= p % u < u,
    ;
    let budget = effective_budget(headroom, cap, bandwidth_kbps);
    assert(headroom.clamped() == headroom);
    assert(budget <= share);
    assert(budget * u <= share * u) by (nonlinear_arith)
        requires
            budget <= share,
    ;
    if budget < cap && budget < u32::MAX {
        assert(budget == share);
    }
}

/// A surplus is a fifth more, for any bitrate, up to the error of single precision: a
/// budget that exceeds 1.2 times the bitrate by the part `2^-21` or so has one, and
/// one that falls short of it by as much has none.
pub proof fn law_surplus_for_any_bitrate(budget: u32, kbps: u32)
    requires
        budget > 0,
        kbps > 0,
    ensures
        (budget * 8_388_608) * 0x3F_FFFF >= (kbps * 10_066_330) * 0x40_0001 ==> enough_headroom(
            budget,
            kbps as nat,
        ),
        (budget * 8_388_608) * 0x40_0001 < (kbps * 10_066_330) * 0x3F_FFFF ==> !enough_headroom(
            budget,
            kbps as nat,
        ),
{
    let ratio = Float32 { bits: UPGRADE_HEADROOM_RATIO };
    vstd::arithmetic::power2::lemma2_to64();
    lemma_pow2_adds(23, 126);
    lemma_pow2_pos(126);
    lemma_pow2_pos(149);
    let u = pow2(149);
    let v = pow2(126);
    let w = ratio.units();
    assert(ratio.bits as nat / 0x80_0000 == 127);
    assert(ratio.bits as nat % 0x80_0000 == 0x19_999A);
    assert(w == 10_066_330 * v);
    assert(u == 8_388_608 * v);
    lemma_product_near(kbps, w);
    crate::rounding::lemma_pow2_monotone(23, 149);
    let b = budget as nat;
    assert(b * u >= 1 * pow2(23)) by (nonlinear_arith)
        requires
            b >= 1,
            u >= pow2(23),
    ;
    crate::rounding::law_rounding_is_near(b * u, 1, 24);
    let a = single_units(budget);
    let p = product_units(single_units(kbps), w);
    let m = 0x40_0000int;
    let x = b * u;
    assert(a * m <= x * (m + 1) && a * m >= x * (m - 1));
    let y = kbps * w;
    let c = budget * 8_388_608;
    let d = kbps * 10_066_330;
    assert(x == c * v && y == d * v) by (nonlinear_arith)
        requires
            x == b * u,
            y == kbps * w,
            u == 8_388_608 * v,
            w == 10_066_330 * v,
            c == b * 8_388_608,
            d == kbps * 10_066_330,
    ;
    if c * (m - 1) >= d * (m + 1) {
        assert(x * (m - 1) >= y * (m + 1)) by (nonlinear_arith)
            requires
                c * (m - 1) >= d * (m + 1),
                x == c * v,
                y == d * v,
                v > 0,
        ;
    }
    if c * (m + 1) < d * (m - 1) {
        assert(x * (m + 1) < y * (m - 1)) by (nonlinear_arith)
            requires
                c * (m + 1) < d * (m - 1),
                x == c * v,
                y == d * v,
                v > 0,
        ;
    }
}

/// A share that is zero, negative or not a number leaves no budget, and so does a
/// downlink of zero; an infinite share counts as 1.0.
pub proof fn law_no_share_leaves_no_budget(headroom: Float32, cap: u32, bandwidth_kbps: u32)
    ensures
        headroom.bits == 0 || headroom.bits > 0x7F80_0000 || bandwidth_kbps == 0
            ==> effective_budget(headroom, cap, bandwidth_kbps) == 0,
        headroom.bits == 0x7F80_0000 ==> effective_budget(headroom, cap, bandwidth_kbps)
            == effective_budget(Float32 { bits: 0x3F80_0000 }, cap, bandwidth_kbps),
{
    let h = headroom.clamped();
    let u = pow2(149);
    vstd::arithmetic::power2::lemma2_to64();
    lemma_pow2_pos(149);
    if (headroom.bits == 0 || headroom.bits > 0x7F80_0000 || bandwidth_kbps == 0) && h.is_plain() {
        let a = single_units(bandwidth_kbps);
        let w = h.units();
        if bandwidth_kbps == 0 {
            assert(0nat * u == 0) by (nonlinear_arith);
            crate::rounding::lemma_rounded_exact(0, 149, 24);
        } else {
            assert(w == 0);
        }
        assert(a * w == 0) by (nonlinear_arith)
            requires
                a == 0 || w == 0,
        ;
        assert((0 * pow2(0)) * u == 0) by (nonlinear_arith);
        assert(0 * pow2(0) == 0) by (nonlinear_arith);
        crate::rounding::lemma_rounded_at_most(a * w, u, 0, 0, 24);
        assert(product_units(a, w) == 0);
        vstd::arithmetic::div_mod::lemma_div_basics(u as int);
    }
}

} // verus!
