//! What the owner of a room tells the other pods about it, and when.
use vstd::prelude::*;

use crate::float32::Float32;
use crate::room_state::RoomState;
use crate::text::chars_of;

verus! {

/// Time between two beacons of a room, in nanoseconds.
pub const BEACON_INTERVAL: u64 = 5_000_000_000;

/// The owner's report on a room.
#[derive(Debug)]
pub struct HealthBeaconPacket {
    pub room_id: String,
    pub participant_count: u32,
    /// Load of the owner's processors, from 0.0 to 1.0.
    pub cpu_load: Float32,
    /// When the report was made, in milliseconds since the Unix epoch.
    pub reported_at_ms: u64,
}

/// A room's id as it stands in subjects: with underscores in place of spaces.
pub open spec fn normalized(room_id: Seq<char>) -> Seq<char> {
    Seq::new(
        room_id.len(),
        |i: int|
            if room_id[i] == ' ' {
                '_'
            } else {
                room_id[i]
            },
    )
}

/// The subject on which the pods exchange news of a room.
pub open spec fn subject_of(room_id: Seq<char>) -> Seq<char> {
    "room."@ + normalized(room_id) + ".system"@
}

/// A room's id as it stands in subjects.
pub fn normalize_room_id(room_id: &str) -> (r: String)
    ensures
        r@ == normalized(room_id@),
{
    let chars = chars_of(room_id);
    let mut r = String::new();
    let mut i: usize = 0;
    while i < chars.len()
        invariant
            i <= chars@.len(),
            chars@ == room_id@,
            r@ == normalized(room_id@).take(i as int),
        decreases chars@.len() - i,
    {
        let c: char = if chars[i] == ' ' {
            '_'
        } else {
            chars[i]
        };
        r.push(c);
        proof {
            assert(r@ =~= normalized(room_id@).take(i + 1));
        }
        i = i + 1;
    }
    proof {
        assert(normalized(room_id@).take(i as int) =~= normalized(room_id@));
    }
    r
}

/// The subject on which the pods exchange news of a room.
pub fn system_subject(room_id: &str) -> (r: String)
    ensures
        r@ == subject_of(room_id@),
{
    let mut r = String::from_str("room.");
    r.append(normalize_room_id(room_id).as_str());
    r.append(".system");
    r
}

/// What a beacon says of a room, whatever holds its text.
pub open spec fn reports(
    beacon: HealthBeaconPacket,
    room_id: Seq<char>,
    participant_count: u32,
    cpu_load: Float32,
    reported_at: Option<u64>,
) -> bool {
    &&& beacon.room_id@ == room_id
    &&& beacon.participant_count == participant_count
    &&& beacon.cpu_load == cpu_load.clamped()
    &&& beacon.reported_at_ms == match reported_at {
        Some(ms) => ms,
        None => 0,
    }
}

/// The report on a room. The load is brought into the range from 0.0 to 1.0;
/// `reported_at` is in milliseconds since the Unix epoch, none where the clock
/// stands before it.
pub fn build_health_beacon_payload(
    room_id: &str,
    participant_count: u32,
    cpu_load: Float32,
    reported_at: Option<u64>,
) -> (r: HealthBeaconPacket)
    ensures
        reports(r, room_id@, participant_count, cpu_load, reported_at),
{
    let reported_at_ms: u64 = match reported_at {
        Some(ms) => ms,
        None => 0,
    };
    HealthBeaconPacket {
        room_id: String::from_str(room_id),
        participant_count,
        cpu_load: cpu_load.clamped(),
        reported_at_ms,
    }
}

/// What a pod publishes when a beacon of `room_id` is due: nothing unless it owns
/// the room, else the subject and the report on the room as it stands. The count of
/// members is cut to 32 bits.
pub fn beacon_tick(
    room_id: &str,
    room: &RoomState,
    is_owner: bool,
    cpu_load: Float32,
    reported_at: Option<u64>,
) -> (r: Option<(String, HealthBeaconPacket)>)
    ensures
        match r {
            Some((subject, beacon)) => {
                &&& is_owner
                &&& subject@ == subject_of(room_id@)
                &&& reports(
                    beacon,
                    room_id@,
                    room@.members.dom().len() as u32,
                    cpu_load,
                    reported_at,
                )
            },
            None => !is_owner,
        },
{
    if !is_owner {
        return None;
    }
    let count: usize = room.member_count();
    let participant_count: u32 = #[verifier::truncate] (count as u32);
    let beacon = build_health_beacon_payload(room_id, participant_count, cpu_load, reported_at);
    Some((system_subject(room_id), beacon))
}

/// The line that starts at `i`, if one does, starts with `word`.
pub open spec fn line_starts_with(s: Seq<char>, i: int, word: Seq<char>) -> bool {
    &&& i == 0 || s[i - 1] == '\n'
    &&& i + word.len() <= s.len()
    &&& s.subrange(i, i + word.len()) == word
}

/// How many lines of `s` that start before `end` start with `word`.
pub open spec fn lines_starting_with(s: Seq<char>, end: int, word: Seq<char>) -> nat
    decreases end,
{
    if end <= 0 {
        0
    } else {
        lines_starting_with(s, end - 1, word) + if line_starts_with(s, end - 1, word) {
            1nat
        } else {
            0nat
        }
    }
}

/// The number of processors that `cpuinfo` lists: one line that starts with
/// `processor` for each. 1 if it lists none, or is not there.
pub open spec fn processors(cpuinfo: Option<String>) -> nat {
    match cpuinfo {
        Some(s) => {
            let n = lines_starting_with(s@, s@.len() as int, "processor"@);
            if n == 0 {
                1
            } else {
                n
            }
        },
        None => 1,
    }
}

/// Whether the characters of `s` from `i` on start with `word`.
fn starts_at(s: &Vec<char>, i: usize, word: &Vec<char>) -> (r: bool)
    requires
        i <= s@.len(),
    ensures
        r == (i + word@.len() <= s@.len() && s@.subrange(i as int, i + word@.len()) == word@),
{
    let n: usize = s.len();
    if word.len() > n - i {
        return false;
    }
    let ghost part = s@.subrange(i as int, i + word@.len());
    let mut k: usize = 0;
    while k < word.len()
        invariant
            k <= word@.len(),
            n == s@.len(),
            i + word@.len() <= n,
            part == s@.subrange(i as int, i + word@.len()),
            forall|j: int| 0 <= j < k ==> part[j] == word@[j],
        decreases word@.len() - k,
    {
        if s[i + k] != word[k] {
            proof {
                assert(part[k as int] != word@[k as int]);
            }
            return false;
        }
        proof {
            assert(part[k as int] == s@[i + k]);
        }
        k = k + 1;
    }
    proof {
        assert(part =~= word@);
    }
    true
}

/// The number of processors that the text of `/proc/cpuinfo` lists; at least 1.
pub fn num_online_cpus(cpuinfo: Option<String>) -> (r: usize)
    ensures
        r == processors(cpuinfo),
{
    match cpuinfo {
        None => 1,
        Some(text) => {
            let s = chars_of(text.as_str());
            let word = chars_of("processor");
            let mut n: usize = 0;
            let mut i: usize = 0;
            while i < s.len()
                invariant
                    i <= s@.len(),
                    word@ == "processor"@,
                    n == lines_starting_with(s@, i as int, "processor"@),
                    n <= i,
                decreases s@.len() - i,
            {
                if (i == 0 || s[i - 1] == '\n') && starts_at(&s, i, &word) {
                    n = n + 1;
                }
                i = i + 1;
            }
            if n == 0 {
                1
            } else {
                n
            }
        },
    }
}

/// Rewriting an id for subjects a second time changes nothing.
pub proof fn law_normalizing_twice_changes_nothing(room_id: Seq<char>)
    ensures
        normalized(normalized(room_id)) == normalized(room_id),
{
    assert(normalized(normalized(room_id)) =~= normalized(room_id));
}

/// A subject holds no space.
pub proof fn law_subject_holds_no_space(room_id: Seq<char>)
    ensures
        !subject_of(room_id).contains(' '),
{
    reveal_strlit("room.");
    reveal_strlit(".system");
    let s = subject_of(room_id);
    let n = normalized(room_id);
    assert forall|i: int| 0 <= i < s.len() implies s[i] != ' ' by {
        if 5 <= i < 5 + n.len() {
            assert(s[i] == n[i - 5]);
        }
    }
}

/// An id as it stands in subjects is the id with an underscore in the place of each
/// space, and the same otherwise.
pub proof fn law_only_spaces_are_rewritten(room_id: Seq<char>, i: int)
    requires
        0 <= i < room_id.len(),
    ensures
        normalized(room_id).len() == room_id.len(),
        room_id[i] == ' ' ==> normalized(room_id)[i] == '_',
        room_id[i] != ' ' ==> normalized(room_id)[i] == room_id[i],
{
}

/// A beacon tells a load from 0.0 to 1.0, the one it was given if that is one, and
/// the nearer end if it is another number.
pub proof fn law_beacon_tells_a_share(
    beacon: HealthBeaconPacket,
    room_id: Seq<char>,
    participant_count: u32,
    cpu_load: Float32,
    reported_at: Option<u64>,
)
    requires
        reports(beacon, room_id, participant_count, cpu_load, reported_at),
    ensures
        beacon.room_id@ == room_id,
        beacon.participant_count == participant_count,
        cpu_load.bits <= 0x3F80_0000 ==> beacon.cpu_load == cpu_load,
        0x3F80_0000 < cpu_load.bits <= 0x7F80_0000 ==> beacon.cpu_load.bits == 0x3F80_0000,
        0x8000_0000 < cpu_load.bits <= 0xFF80_0000 ==> beacon.cpu_load.bits == 0,
        reported_at is None ==> beacon.reported_at_ms == 0,
        reported_at matches Some(ms) ==> beacon.reported_at_ms == ms,
{
}

/// The places in a text where a line starts with `processor`.
pub open spec fn processor_lines(s: Seq<char>) -> Set<int> {
    Set::new(
        |i: int|
            0 <= i && i + 9 <= s.len() && (i == 0 || s[i - 1] == '\n') && s.subrange(i, i + 9)
                == "processor"@,
    )
}

/// There are as many processors as lines that start with `processor`, and one where
/// there is no such line or no text.
pub proof fn law_processors_are_counted(cpuinfo: Option<String>)
    ensures
        cpuinfo is None ==> processors(cpuinfo) == 1,
        cpuinfo matches Some(s) ==> {
            &&& processor_lines(s@).finite()
            &&& processor_lines(s@).len() > 0 ==> processors(cpuinfo) == processor_lines(s@).len()
            &&& processor_lines(s@).len() == 0 ==> processors(cpuinfo) == 1
        },
{
    if let Some(s) = cpuinfo {
        reveal_strlit("processor");
        lemma_lines_counted(s@, s@.len() as int);
        assert(processor_lines(s@).filter(|i: int| i < s@.len()) =~= processor_lines(s@));
    }
}

proof fn lemma_lines_counted(s: Seq<char>, end: int)
    requires
        0 <= end <= s.len(),
    ensures
        processor_lines(s).filter(|i: int| i < end).finite(),
        processor_lines(s).filter(|i: int| i < end).len() == lines_starting_with(
            s,
            end,
            "processor"@,
        ),
    decreases end,
{
    reveal_strlit("processor");
    let all = processor_lines(s).filter(|i: int| i < end);
    if end == 0 {
        assert(all =~= Set::empty());
    } else {
        lemma_lines_counted(s, end - 1);
        let rest = processor_lines(s).filter(|i: int| i < end - 1);
        if line_starts_with(s, end - 1, "processor"@) {
            assert(all =~= rest.insert(end - 1));
        } else {
            assert(all =~= rest);
        }
    }
}

} // verus!
