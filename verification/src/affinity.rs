//! Which pod of a replica set owns a room.
//!
//! A room's name is hashed and the hash is mapped to a pod by the jump
//! consistent hash of Lamping and Veach, so that growing the replica set moves
//! only the rooms that go to the new pod.
use vstd::arithmetic::power2::{lemma_pow2_adds, lemma_pow2_pos, pow2};
use vstd::prelude::*;

use crate::rounding::round_ratio;
use crate::text::{chars_of, copy_range, parse_number};

verus! {

/// Offset basis of the 64-bit FNV-1a hash.
pub const FNV_OFFSET_64: u64 = 0xcbf2_9ce4_8422_2325;

/// Prime of the 64-bit FNV-1a hash.
pub const FNV_PRIME_64: u64 = 0x0000_0100_0000_01b3;

/// Multiplier of the generator that drives the jumps.
pub const JUMP_MULTIPLIER: u64 = 2_862_933_555_777_941_757;

/// The 64-bit FNV-1a hash.
pub open spec fn fnv1a(bytes: Seq<u8>) -> u64
    decreases bytes.len(),
{
    if bytes.len() == 0 {
        FNV_OFFSET_64
    } else {
        (fnv1a(bytes.drop_last()) ^ (bytes.last() as u64)).wrapping_mul(FNV_PRIME_64)
    }
}

/// The 64-bit FNV-1a hash of `bytes`.
pub fn fnv1a_64(bytes: &[u8]) -> (r: u64)
    ensures
        r == fnv1a(bytes@),
{
    let mut hash: u64 = FNV_OFFSET_64;
    let mut i: usize = 0;
    while i < bytes.len()
        invariant
            i <= bytes@.len(),
            hash == fnv1a(bytes@.take(i as int)),
        decreases bytes@.len() - i,
    {
        hash = hash ^ (bytes[i] as u64);
        hash = hash.wrapping_mul(FNV_PRIME_64);
        proof {
            assert(bytes@.take(i + 1).drop_last() =~= bytes@.take(i as int));
        }
        i = i + 1;
    }
    proof {
        assert(bytes@.take(bytes@.len() as int) =~= bytes@);
    }
    hash
}

/// The generator's next key.
#[verifier::opaque]
pub open spec fn next_key(key: u64) -> u64 {
    key.wrapping_mul(JUMP_MULTIPLIER).wrapping_add(1)
}

/// Takes the generator one step on.
fn step_key(key: u64) -> (r: u64)
    ensures
        r == next_key(key),
{
    proof {
        reveal(next_key);
    }
    key.wrapping_mul(JUMP_MULTIPLIER).wrapping_add(1)
}

/// The upper 31 bits of a key, plus one.
pub open spec fn stride(key: u64) -> nat {
    (key / 0x2_0000_0000) as nat + 1
}

/// `2^31` divided by the stride, in double precision, in units of 2^-52.
pub open spec fn quotient_units(key: u64) -> nat {
    crate::rounding::rounded(pow2(83), stride(key), 53)
}

/// Where the jump from bucket `b` lands: `(b + 1)` times the quotient, in double
/// precision, rounded down.
#[verifier::opaque]
pub open spec fn landing(key: u64, b: nat) -> nat {
    crate::rounding::rounded((b + 1) * quotient_units(key), 1, 53) / pow2(52)
}

/// The quotient is at least one and at most `2^31`.
proof fn lemma_quotient(key: u64)
    ensures
        pow2(52) <= quotient_units(key) <= pow2(83),
        1 <= stride(key) <= pow2(31),
{
    vstd::arithmetic::power2::lemma2_to64();
    let s = stride(key);
    lemma_pow2_adds(52, 31);
    lemma_pow2_pos(52);
    assert((1 * pow2(52)) * s <= pow2(83)) by (nonlinear_arith)
        requires
            s <= pow2(31),
            pow2(83) == pow2(52) * pow2(31),
            pow2(52) > 0,
    ;
    vstd::arithmetic::power2::lemma2_to64_rest();
    crate::rounding::lemma_rounded_at_least(pow2(83), s, 1, 52, 53);
    lemma_pow2_pos(83);
    assert(pow2(83) <= (1 * pow2(83)) * s) by (nonlinear_arith)
        requires
            s >= 1,
            pow2(83) > 0,
    ;
    crate::rounding::lemma_rounded_at_most(pow2(83), s, 1, 83, 53);
}

/// A jump always leads on.
proof fn lemma_landing_ahead(key: u64, b: nat)
    requires
        b < 0x1_0000_0000,
    ensures
        landing(key, b) > b,
{
    reveal(landing);
    lemma_quotient(key);
    vstd::arithmetic::power2::lemma2_to64();
    vstd::arithmetic::power2::lemma2_to64_rest();
    let q = quotient_units(key);
    let p = (b + 1) * q;
    lemma_pow2_pos(52);
    assert(p >= ((b + 1) * pow2(52)) * 1) by (nonlinear_arith)
        requires
            p == (b + 1) * q,
            q >= pow2(52),
    ;
    assert(b + 1 < pow2(53));
    crate::rounding::lemma_rounded_at_least(p, 1, b + 1, 52, 53);
    let r = crate::rounding::rounded(p, 1, 53);
    vstd::arithmetic::div_mod::lemma_div_is_ordered(
        ((b + 1) * pow2(52)) as int,
        r as int,
        pow2(52) as int,
    );
    vstd::arithmetic::div_mod::lemma_div_multiples_vanish((b + 1) as int, pow2(52) as int);
    assert((b + 1) * pow2(52) == pow2(52) * (b + 1)) by (nonlinear_arith);
}

/// The last bucket below `n` on the chain of jumps that goes through bucket `b`.
pub open spec fn last_landing(key: u64, b: nat, n: nat) -> nat
    decreases n - b,
{
    let next = next_key(key);
    let j = landing(next, b);
    if b < j < n {
        last_landing(next, j, n)
    } else {
        b
    }
}

/// The bucket of a key among `n` buckets; 0 if there is none.
pub open spec fn bucket(key: u64, n: nat) -> nat {
    if n == 0 {
        0
    } else {
        last_landing(key, 0, n)
    }
}

/// The numbers of a jump fit the arithmetic.
proof fn lemma_bounds()
    ensures
        pow2(83) < 0x1000_0000_0000_0000_0000_0000_0000_0000,
        0xFFFF_FFFF * pow2(83) < 0x1000_0000_0000_0000_0000_0000_0000_0000,
{
    vstd::arithmetic::power2::lemma2_to64();
    lemma_pow2_adds(64, 19);
    assert(pow2(64) == 0x1_0000_0000_0000_0000);
    assert(pow2(83) == 0x1_0000_0000_0000_0000 * 0x8_0000);
}

/// Where the jump from bucket `b` lands.
fn jump_from(key: u64, b: u32) -> (j: u128)
    requires
        b < 0xFFFF_FFFF,
    ensures
        j == landing(key, b as nat),
        j > b,
{
    let limit: u128 = crate::rounding::power_of_two(83);
    let unit: u128 = crate::rounding::power_of_two(52);
    let s: u128 = (key / 0x2_0000_0000) as u128 + 1;
    proof {
        lemma_quotient(key);
        lemma_landing_ahead(key, b as nat);
        lemma_bounds();
        lemma_pow2_pos(52);
        reveal(landing);
    }
    let q: u128 = round_ratio(limit, s, 53);
    let m: u128 = b as u128 + 1;
    proof {
        assert(m * q <= 0xFFFF_FFFF * pow2(83)) by (nonlinear_arith)
            requires
                0 <= m <= 0xFFFF_FFFF,
                0 <= q <= pow2(83),
        ;
    }
    let p: u128 = m * q;
    round_ratio(p, 1, 53) / unit
}

/// The bucket of `key` among `num_buckets` buckets.
pub fn jump_consistent_hash(key: u64, num_buckets: u32) -> (r: u32)
    ensures
        r == bucket(key, num_buckets as nat),
        num_buckets > 0 ==> r < num_buckets,
{
    if num_buckets == 0 {
        return 0;
    }
    let mut k: u64 = key;
    let mut b: u32 = 0;
    loop
        invariant_except_break
            b < num_buckets,
            bucket(key, num_buckets as nat) == last_landing(k, b as nat, num_buckets as nat),
        ensures
            b < num_buckets,
            b == bucket(key, num_buckets as nat),
        decreases num_buckets - b,
    {
        k = step_key(k);
        let j: u128 = jump_from(k, b);
        if j >= num_buckets as u128 {
            break;
        }
        b = j as u32;
    }
    b
}

/// The owner of a room among `replicas` pods, by the room's name.
pub open spec fn owner(room: Seq<char>, replicas: u32) -> nat {
    bucket(fnv1a(vstd::utf8::encode_utf8(room)), replicas as nat)
}

/// The pod, from 0 up to `replicas`, that owns `room_id`. 0 if there are none.
pub fn jump_hash(room_id: &str, replicas: u32) -> (r: u32)
    ensures
        r == owner(room_id@, replicas),
        replicas > 0 ==> r < replicas,
{
    if replicas == 0 {
        return 0;
    }
    let key: u64 = fnv1a_64(room_id.as_bytes());
    jump_consistent_hash(key, replicas)
}

/// What follows the last hyphen of `s`, if there is one.
pub open spec fn after_last_hyphen(s: Seq<char>) -> Option<Seq<char>>
    decreases s.len(),
{
    if s.len() == 0 {
        None
    } else if s.last() == '-' {
        Some(Seq::empty())
    } else {
        match after_last_hyphen(s.drop_last()) {
            Some(tail) => Some(tail.push(s.last())),
            None => None,
        }
    }
}

/// The ordinal at the end of a pod's name.
pub open spec fn ordinal_of(pod_name: Seq<char>) -> Option<u32> {
    match after_last_hyphen(pod_name) {
        Some(tail) => if crate::text::spells_number(tail, u32::MAX as nat) {
            Some(crate::text::digits_value(crate::text::unsigned_part(tail)) as u32)
        } else {
            None
        },
        None => None,
    }
}

/// What follows the last hyphen, by its place.
proof fn lemma_after_last_hyphen(s: Seq<char>, k: int)
    requires
        -1 <= k < s.len(),
        k >= 0 ==> s[k] == '-',
        forall|i: int| k < i < s.len() ==> #[trigger] s[i] != '-',
    ensures
        after_last_hyphen(s) == if k >= 0 {
            Some(s.skip(k + 1))
        } else {
            None
        },
    decreases s.len(),
{
    if s.len() > 0 {
        if k == s.len() - 1 {
            assert(s.skip(k + 1) =~= Seq::empty());
        } else {
            let front = s.drop_last();
            assert(s[s.len() - 1] != '-');
            assert forall|i: int| k < i < front.len() implies #[trigger] front[i] != '-' by {
                assert(front[i] == s[i]);
            }
            lemma_after_last_hyphen(front, k);
            if k >= 0 {
                assert(front.skip(k + 1).push(s.last()) =~= s.skip(k + 1));
            }
        }
    }
}

/// The ordinal at the end of a pod's name, such as 2 in `relay-2`. None if the
/// name has no hyphen or what follows the last one is not a number.
pub fn parse_ordinal(pod_name: &str) -> (r: Option<u32>)
    ensures
        r == ordinal_of(pod_name@),
{
    let chars = chars_of(pod_name);
    let mut i: usize = chars.len();
    while i > 0 && chars[i - 1] != '-'
        invariant
            i <= chars@.len(),
            forall|k: int| i <= k < chars@.len() ==> #[trigger] chars@[k] != '-',
        decreases i,
    {
        i = i - 1;
    }
    proof {
        lemma_after_last_hyphen(chars@, i - 1);
    }
    if i == 0 {
        return None;
    }
    let tail = copy_range(&chars, i, chars.len());
    proof {
        assert(tail@ =~= chars@.skip(i as int));
    }
    match parse_number(&tail, u32::MAX as u64) {
        Some(n) => Some(n as u32),
        None => None,
    }
}

/// This pod's ordinal, from its name if it has one: a pod without a name is the
/// first.
pub open spec fn own_ordinal(pod_name: Option<String>) -> Option<u32> {
    match pod_name {
        Some(name) => ordinal_of(name@),
        None => Some(0u32),
    }
}

/// This pod's ordinal, from the value of `POD_NAME`. A pod without a name is the
/// first; one whose name has no ordinal has none.
pub fn self_ordinal_from_env(pod_name: Option<String>) -> (r: Option<u32>)
    ensures
        r == own_ordinal(pod_name),
{
    match pod_name {
        Some(name) => parse_ordinal(name.as_str()),
        None => Some(0),
    }
}

/// The size of the replica set; 1 unless `raw` spells a number.
pub open spec fn replica_count(raw: Option<String>) -> u32 {
    match raw {
        Some(s) => if crate::text::spells_number(s@, u32::MAX as nat) {
            crate::text::digits_value(crate::text::unsigned_part(s@)) as u32
        } else {
            1
        },
        None => 1,
    }
}

/// The size of the replica set, from the value of `STATEFULSET_REPLICAS`; 1 unless
/// it spells a number.
pub fn replicas_from_env(raw: Option<String>) -> (r: u32)
    ensures
        r == replica_count(raw),
{
    match raw {
        Some(s) => match parse_number(&chars_of(s.as_str()), u32::MAX as u64) {
            Some(n) => n as u32,
            None => 1,
        },
        None => 1,
    }
}

/// Whether the pod with ordinal `me` owns the room.
pub open spec fn owns(room: Seq<char>, me: Option<u32>, replicas: u32) -> bool {
    me matches Some(ordinal) && owner(room, replicas) == ordinal
}

/// Whether the pod with ordinal `me` owns `room`. A pod without an ordinal owns
/// nothing.
pub fn is_owner_for(room: &str, me: Option<u32>, replicas: u32) -> (r: bool)
    ensures
        r == owns(room@, me, replicas),
{
    match me {
        Some(ordinal) => jump_hash(room, replicas) == ordinal,
        None => false,
    }
}

/// Whether this pod owns the room, given the values of `POD_NAME` and
/// `STATEFULSET_REPLICAS`.
pub fn is_owner(room_id: &str, pod_name: Option<String>, replicas: Option<String>) -> (r: bool)
    ensures
        r == owns(room_id@, own_ordinal(pod_name), replica_count(replicas)),
{
    is_owner_for(room_id, self_ordinal_from_env(pod_name), replicas_from_env(replicas))
}

/// The bucket on the chain through `b` when one bucket is added.
proof fn lemma_growth(key: u64, b: nat, n: nat)
    requires
        b < n < 0x1_0000_0000,
    ensures
        last_landing(key, b, n) < n,
        last_landing(key, b, n + 1) == last_landing(key, b, n) || last_landing(key, b, n + 1) == n,
    decreases n - b,
{
    reveal_with_fuel(last_landing, 2);
    let next = next_key(key);
    let j = landing(next, b);
    lemma_landing_ahead(next, b);
    if j < n {
        lemma_growth(next, j, n);
    } else if j == n {
        lemma_landing_ahead(next_key(next), n);
    }
}

/// Every room has an owner among the pods of a replica set that is not empty, and
/// no room has two.
pub proof fn law_one_owner(room: Seq<char>, replicas: u32)
    requires
        replicas > 0,
    ensures
        exists|a: u32| a < replicas && owns(room, Some(a), replicas),
        forall|a: u32, b: u32|
            owns(room, Some(a), replicas) && owns(room, Some(b), replicas) ==> a == b,
{
    lemma_growth(fnv1a(vstd::utf8::encode_utf8(room)), 0, replicas as nat);
    assert(owns(room, Some(owner(room, replicas) as u32), replicas));
}

/// Adding a pod moves no room between the pods that were there: each room stays
/// where it was or goes to the new pod.
pub proof fn law_growth_moves_rooms_to_the_new_pod_only(room: Seq<char>, replicas: u32)
    requires
        0 < replicas < u32::MAX,
    ensures
        owner(room, (replicas + 1) as u32) == owner(room, replicas) || owner(
            room,
            (replicas + 1) as u32,
        ) == replicas,
{
    lemma_growth(fnv1a(vstd::utf8::encode_utf8(room)), 0, replicas as nat);
}

/// A pod that stands alone owns every room, and so does the first pod of a set
/// whose size is unknown.
pub proof fn law_single_pod_owns_everything(room: Seq<char>)
    ensures
        owner(room, 0) == 0,
        owner(room, 1) == 0,
{
    lemma_growth(fnv1a(vstd::utf8::encode_utf8(room)), 0, 1);
}

/// The hash of nothing is the offset basis, and one more byte is mixed in and the
/// result multiplied by the prime, modulo `2^64`.
pub proof fn law_hash_takes_one_byte_at_a_time(bytes: Seq<u8>, b: u8)
    ensures
        fnv1a(Seq::empty()) == 14_695_981_039_346_656_037,
        fnv1a(bytes.push(b)) == ((fnv1a(bytes) ^ (b as u64)) * 1_099_511_628_211)
            % 0x1_0000_0000_0000_0000,
{
    assert(bytes.push(b).drop_last() =~= bytes);
    assert(bytes.push(b).last() == b);
}

/// The generator multiplies and adds one, modulo `2^64`.
pub proof fn law_generator_step(key: u64)
    ensures
        next_key(key) == (key * 2_862_933_555_777_941_757 + 1) % 0x1_0000_0000_0000_0000,
{
    reveal(next_key);
    let m = 0x1_0000_0000_0000_0000int;
    let x = key * 2_862_933_555_777_941_757;
    assert(key.wrapping_mul(JUMP_MULTIPLIER) == x % m);
    vstd::arithmetic::div_mod::lemma_add_mod_noop(x, 1, m);
    vstd::arithmetic::div_mod::lemma_mod_twice(x, m);
    vstd::arithmetic::div_mod::lemma_small_mod(1, m as nat);
    let y = x % m;
    if y + 1 == m {
        vstd::arithmetic::div_mod::lemma_mod_self_0(m);
    } else {
        vstd::arithmetic::div_mod::lemma_small_mod((y + 1) as nat, m as nat);
    }
}

/// A jump from bucket `b` lands at `(b + 1) * 2^31` divided by the upper 31 bits of
/// the key plus one, rounded down. Division and product are rounded to double precision
/// before that, which moves the result by no more than the error of these two roundings.
pub proof fn law_jump_length(key: u64, b: nat)
    requires
        b < 0x1_0000_0000,
    ensures
        ({
            let j = landing(key, b);
            let s = key / 0x2_0000_0000 + 1;
            let exact = (b + 1) * 0x8000_0000;
            &&& (j * s) * 0x8_0000_0000_0000 <= exact * 0x8_0000_0000_0001
            &&& ((j + 1) * s) * 0x8_0000_0000_0000 > exact * 0x7_FFFF_FFFF_FFFF
            &&& {
                let quotient = crate::rounding::rounded(pow2(83), s as nat, 53);
                let product = crate::rounding::rounded((b + 1) * quotient, 1, 53);
                j * pow2(52) <= product < (j + 1) * pow2(52)
            }
        }),
{
    reveal(landing);
    vstd::arithmetic::power2::lemma2_to64();
    vstd::arithmetic::power2::lemma2_to64_rest();
    lemma_quotient(key);
    lemma_pow2_adds(52, 31);
    let s = stride(key);
    let q = quotient_units(key);
    let c = b + 1;
    let p = c * q;
    let r = crate::rounding::rounded(p, 1, 53);
    let j = landing(key, b);
    let t = pow2(52);
    let k = pow2(53);
    let n = pow2(83);
    assert(t == 0x10_0000_0000_0000);
    assert(k == 0x20_0000_0000_0000);
    assert(n == t * 0x8000_0000);
    assert(n >= s * t) by (nonlinear_arith)
        requires
            s <= 0x8000_0000,
            n == t * 0x8000_0000,
            t > 0,
    ;
    crate::rounding::law_rounding_is_near(n, s, 53);
    assert(p >= 1 * t) by (nonlinear_arith)
        requires
            p == c * q,
            c >= 1,
            q >= t,
    ;
    crate::rounding::law_rounding_is_near(p, 1, 53);
    vstd::arithmetic::div_mod::lemma_fundamental_div_mod(r as int, t as int);
    vstd::arithmetic::div_mod::lemma_mod_bound(r as int, t as int);
    assert(j * t <= r < (j + 1) * t) by (nonlinear_arith)
        requires
            r == t * j + r % t,
            0 <= r % t < t,
    ;
    lemma_two_roundings(s as int, q as int, c as int, r as int, j as int, t as int, n as int);
}

/// The error of two roundings, one after the other.
proof fn lemma_two_roundings(s: int, q: int, c: int, r: int, j: int, t: int, n: int)
    requires
        s > 0,
        q > 0,
        c > 0,
        t == 0x10_0000_0000_0000,
        n == t * 0x8000_0000,
        (q * s - n) * (2 * t) <= n,
        (n - q * s) * (2 * t) <= n,
        (r * 1 - c * q) * (2 * t) <= c * q,
        (c * q - r * 1) * (2 * t) <= c * q,
        j * t <= r < (j + 1) * t,
    ensures
        (j * s) * 0x8_0000_0000_0000 <= (c * 0x8000_0000) * 0x8_0000_0000_0001,
        ((j + 1) * s) * 0x8_0000_0000_0000 > (c * 0x8000_0000) * 0x7_FFFF_FFFF_FFFF,
{
    let k = 2 * t;
    let x = c * q;
    // x * s lies within n * c / k of n * c
    assert(k * (x * s) <= (k + 1) * (n * c)) by (nonlinear_arith)
        requires
            (q * s - n) * k <= n,
            c > 0,
            x == c * q,
    ;
    assert(k * (x * s) >= (k - 1) * (n * c)) by (nonlinear_arith)
        requires
            (n - q * s) * k <= n,
            c > 0,
            x == c * q,
    ;
    assert(k * r <= (k + 1) * x) by (nonlinear_arith)
        requires
            (r * 1 - x) * k <= x,
    ;
    assert(k * r >= (k - 1) * x) by (nonlinear_arith)
        requires
            (x - r * 1) * k <= x,
    ;
    let z = n * c;
    assert(k * (k * (r * s)) <= (k + 1) * ((k + 1) * z)) by (nonlinear_arith)
        requires
            k * r <= (k + 1) * x,
            k * (x * s) <= (k + 1) * z,
            s > 0,
            k > 0,
    ;
    assert(k * (k * (r * s)) >= (k - 1) * ((k - 1) * z)) by (nonlinear_arith)
        requires
            k * r >= (k - 1) * x,
            k * (x * s) >= (k - 1) * z,
            s > 0,
            k > 1,
    ;
    let y = c * 0x8000_0000;
    assert(z == t * y) by (nonlinear_arith)
        requires
            z == n * c,
            n == t * 0x8000_0000,
            y == c * 0x8000_0000,
    ;
    assert(j * s * t <= r * s && r * s < (j + 1) * s * t) by (nonlinear_arith)
        requires
            j * t <= r < (j + 1) * t,
            s > 0,
    ;
    let a = j * s;
    let b = (j + 1) * s;
    assert(y > 0);
    assert(z > 0) by (nonlinear_arith)
        requires
            z == t * y,
            t > 0,
            y > 0,
    ;
    // (k + 1)^2 <= k * (k + 4) and (k - 1)^2 >= k * (k - 4)
    assert(k * (k * (r * s)) <= k * ((k + 4) * z)) by (nonlinear_arith)
        requires
            k * (k * (r * s)) <= (k + 1) * ((k + 1) * z),
            z > 0,
            k > 1,
    ;
    assert(k * (k * (r * s)) >= k * ((k - 4) * z)) by (nonlinear_arith)
        requires
            k * (k * (r * s)) >= (k - 1) * ((k - 1) * z),
            z > 0,
            k > 1,
    ;
    assert(k * (r * s) <= (k + 4) * z) by (nonlinear_arith)
        requires
            k * (k * (r * s)) <= k * ((k + 4) * z),
            k > 0,
    ;
    assert(k * (r * s) >= (k - 4) * z) by (nonlinear_arith)
        requires
            k * (k * (r * s)) >= k * ((k - 4) * z),
            k > 0,
    ;
    assert(k * (a * t) <= (k + 4) * (t * y)) by (nonlinear_arith)
        requires
            k * (r * s) <= (k + 4) * z,
            a * t <= r * s,
            z == t * y,
            k > 0,
    ;
    assert(k * (b * t) > (k - 4) * (t * y)) by (nonlinear_arith)
        requires
            k * (r * s) >= (k - 4) * z,
            r * s < b * t,
            z == t * y,
            k > 0,
    ;
    assert(k * a <= (k + 4) * y) by (nonlinear_arith)
        requires
            k * (a * t) <= (k + 4) * (t * y),
            t > 0,
    ;
    assert(k * b > (k - 4) * y) by (nonlinear_arith)
        requires
            k * (b * t) > (k - 4) * (t * y),
            t > 0,
    ;
}

/// `chain` is a chain of jumps from bucket 0: each bucket is where the jump from the
/// one before lands, by one more step of the generator, and the chain leads on.
pub open spec fn is_chain(key: u64, chain: Seq<nat>) -> bool {
    &&& chain.len() > 0
    &&& chain[0] == 0
    &&& forall|i: int|
        0 < i < chain.len() ==> {
            &&& #[trigger] chain[i] == landing(key_after(key, i as nat), chain[i - 1])
            &&& chain[i - 1] < chain[i]
        }
}

/// The key after `n` steps of the generator.
pub open spec fn key_after(key: u64, n: nat) -> u64
    decreases n,
{
    if n == 0 {
        key
    } else {
        next_key(key_after(key, (n - 1) as nat))
    }
}

/// The bucket of a key among `n` is the last one below `n` on the key's chain of jumps:
/// the chain leads to it, and the jump from it lands at `n` or beyond.
pub proof fn law_bucket_ends_the_chain(key: u64, n: nat)
    requires
        0 < n <= 0x1_0000_0000,
    ensures
        exists|chain: Seq<nat>|
            #![trigger is_chain(key, chain)]
            {
                &&& is_chain(key, chain)
                &&& chain.last() == bucket(key, n)
                &&& bucket(key, n) < n
                &&& landing(key_after(key, chain.len()), chain.last()) >= n
            },
{
    lemma_chain(key, seq![0nat], n);
}

proof fn lemma_chain(key: u64, chain: Seq<nat>, n: nat)
    requires
        is_chain(key, chain),
        chain.last() < n <= 0x1_0000_0000,
    ensures
        exists|more: Seq<nat>|
            #![trigger is_chain(key, more)]
            {
                let last = last_landing(
                    key_after(key, (chain.len() - 1) as nat),
                    chain.last(),
                    n,
                );
                &&& is_chain(key, more)
                &&& more.last() == last
                &&& last < n
                &&& landing(key_after(key, more.len()), more.last()) >= n
            },
    decreases n - chain.last(),
{
    let m = chain.len();
    let b = chain.last();
    let k = key_after(key, (m - 1) as nat);
    assert(key_after(key, m) == next_key(k));
    let j = landing(next_key(k), b);
    lemma_landing_ahead(next_key(k), b);
    if j < n {
        let longer = chain.push(j);
        assert forall|i: int| 0 < i < longer.len() implies {
            &&& #[trigger] longer[i] == landing(key_after(key, i as nat), longer[i - 1])
            &&& longer[i - 1] < longer[i]
        } by {
            if i < m {
                assert(longer[i] == chain[i]);
                assert(longer[i - 1] == chain[i - 1]);
            }
        }
        assert(is_chain(key, longer));
        lemma_chain(key, longer, n);
    } else {
        assert(is_chain(key, chain));
    }
}

/// The ordinal is the number after the last hyphen of a pod's name; a name without a
/// hyphen, or without a number after the last one, has none.
pub proof fn law_ordinal_follows_the_last_hyphen(prefix: Seq<char>, tail: Seq<char>, n: u32)
    requires
        forall|i: int| 0 <= i < tail.len() ==> #[trigger] tail[i] != '-',
    ensures
        tail == crate::text::decimal(n as nat) ==> ordinal_of(prefix + seq!['-'] + tail) == Some(n),
        ordinal_of(tail) is None,
        tail.len() == 0 ==> ordinal_of(prefix + seq!['-'] + tail) is None,
        forall|i: int|
            1 <= i < tail.len() && !('0' <= #[trigger] tail[i] <= '9') ==> ordinal_of(
                prefix + seq!['-'] + tail,
            ) is None,
{
    let name = prefix + seq!['-'] + tail;
    let k = prefix.len() as int;
    assert(name[k] == '-');
    assert forall|i: int| k < i < name.len() implies #[trigger] name[i] != '-' by {
        assert(name[i] == tail[i - k - 1]);
    }
    lemma_after_last_hyphen(name, k);
    lemma_after_last_hyphen(tail, -1);
    assert(name.skip(k + 1) =~= tail);
    crate::text::law_number_reads_back(n as nat, u32::MAX as nat);
    crate::text::law_only_digits_spell_a_number(tail, u32::MAX as nat, 0);
    assert forall|i: int| 1 <= i < tail.len() && !('0' <= #[trigger] tail[i] <= '9') implies
        ordinal_of(name) is None by {
        crate::text::law_only_digits_spell_a_number(tail, u32::MAX as nat, i);
    }
}

/// The size of the replica set is the number that the environment spells, and 1 where
/// it spells none. A pod without a name is the first one.
pub proof fn law_replica_set_is_read(raw: Option<String>, n: u32, i: int)
    ensures
        own_ordinal(None) == Some(0u32),
        raw is None ==> replica_count(raw) == 1,
        (raw matches Some(s) && s@ == crate::text::decimal(n as nat)) ==> replica_count(raw) == n,
        (raw matches Some(s) && s@.len() == 0) ==> replica_count(raw) == 1,
        (raw matches Some(s) && 1 <= i < s@.len() && !('0' <= s@[i] <= '9')) ==> replica_count(raw)
            == 1,
{
    crate::text::law_number_reads_back(n as nat, u32::MAX as nat);
    if let Some(s) = raw {
        crate::text::law_only_digits_spell_a_number(s@, u32::MAX as nat, i);
    }
}

/// A pod owns the rooms whose bucket among the pods is its ordinal, and no others; a
/// pod without an ordinal owns none.
pub proof fn law_owner_is_the_bucket(room: Seq<char>, me: Option<u32>, replicas: u32)
    ensures
        ({
            let key = fnv1a(vstd::utf8::encode_utf8(room));
            &&& owns(room, me, replicas) <==> me is Some && bucket(key, replicas as nat) == me->0
            &&& bucket(key, 0) == 0
        }),
{
}

} // verus!
