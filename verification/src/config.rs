//! Run-time configuration, read once from the values of the environment.
use vstd::prelude::*;

use crate::ids::insert_sorted;
use crate::text::{chars_of, parse_number, trim_range};

verus! {

/// How packets are forwarded: to everyone, or selectively.
#[derive(Debug, Clone, Copy, PartialEq, Eq, Structural)]
pub enum SfuMode {
    Legacy,
    Sfu,
}

impl SfuMode {
    /// The mode's name, as it is written in the environment.
    pub open spec fn name(self) -> Seq<char> {
        match self {
            SfuMode::Legacy => "legacy"@,
            SfuMode::Sfu => "sfu"@,
        }
    }

    /// The mode's name, as it is written in the environment.
    pub fn label(&self) -> (r: &'static str)
        ensures
            r@ == self.name(),
    {
        match self {
            SfuMode::Legacy => "legacy",
            SfuMode::Sfu => "sfu",
        }
    }
}

/// An ASCII letter in lower case; any other character as it is.
pub open spec fn lower(c: char) -> char {
    if 'A' <= c <= 'Z' {
        (c as u32 + 32) as char
    } else {
        c
    }
}

/// `s` with its ASCII letters in lower case.
pub open spec fn lowercase(s: Seq<char>) -> Seq<char> {
    Seq::new(s.len(), |i: int| lower(s[i]))
}

/// The mode that a value of `SFU_MODE` asks for: only `sfu`, in any case and
/// between white space, leaves the legacy mode.
pub open spec fn mode_of(raw: Option<String>) -> SfuMode {
    match raw {
        Some(s) => if lowercase(crate::text::trimmed(s@)) == "sfu"@ {
            SfuMode::Sfu
        } else {
            SfuMode::Legacy
        },
        None => SfuMode::Legacy,
    }
}

/// The mode that a value of `SFU_MODE` asks for.
pub fn parse_mode(raw: Option<String>) -> (r: SfuMode)
    ensures
        r == mode_of(raw),
{
    proof {
        reveal_strlit("sfu");
    }
    match raw {
        None => SfuMode::Legacy,
        Some(s) => {
            let chars = chars_of(s.as_str());
            let token = trim_range(&chars, 0, chars.len());
            let ghost t = crate::text::trimmed(s@);
            proof {
                assert(chars@.subrange(0, chars@.len() as int) =~= chars@);
                assert(token@ == t);
            }
            if token.len() == 3 && (token[0] == 's' || token[0] == 'S') && (token[1] == 'f'
                || token[1] == 'F') && (token[2] == 'u' || token[2] == 'U') {
                proof {
                    assert(lowercase(t) =~= "sfu"@);
                }
                SfuMode::Sfu
            } else {
                proof {
                    if lowercase(t) == "sfu"@ {
                        assert(lowercase(t).len() == 3);
                        assert(lowercase(t)[0] == 's' && lowercase(t)[1] == 'f' && lowercase(
                            t,
                        )[2] == 'u');
                    }
                }
                SfuMode::Legacy
            }
        },
    }
}

/// The participant counts that are announced unless the environment says otherwise.
pub open spec fn default_milestones() -> Seq<u64> {
    seq![10u64, 50, 100, 250, 500, 1000, 2000, 4000, 8000]
}

/// The characters of `s` from `a` up to `b` lie between two commas or ends of `s`.
pub open spec fn is_piece(s: Seq<char>, a: int, b: int) -> bool {
    &&& 0 <= a <= b <= s.len()
    &&& a == 0 || s[a - 1] == ','
    &&& b == s.len() || s[b] == ','
    &&& forall|i: int| a <= i < b ==> #[trigger] s[i] != ','
}

/// `s`, without the white space around it, spells the number `v`.
pub open spec fn names(s: Seq<char>, v: u64) -> bool {
    let t = crate::text::trimmed(s);
    crate::text::spells_number(t, u64::MAX as nat) && crate::text::digits_value(
        crate::text::unsigned_part(t),
    ) == v
}

/// The piece of `s` from `a` up to `b` names `v`.
pub open spec fn piece_names(s: Seq<char>, a: int, b: int, v: u64) -> bool {
    is_piece(s, a, b) && names(s.subrange(a, b), v)
}

/// The numbers that stand between the commas of `s`.
pub open spec fn listed_numbers(s: Seq<char>) -> Set<u64> {
    Set::new(|v: u64| exists|a: int, b: int| piece_names(s, a, b, v))
}

/// The milestones that a value of `SFU_JOIN_MILESTONES` asks for: without a value
/// the default ones, else the numbers listed, in ascending order and each once.
pub open spec fn milestones_of(raw: Option<String>) -> Seq<u64> {
    match raw {
        Some(s) => crate::ids::ascending(listed_numbers(s@)),
        None => default_milestones(),
    }
}

/// The numbers of the pieces that end before `end`.
spec fn numbers_before(s: Seq<char>, end: int) -> Set<u64> {
    Set::new(|v: u64| exists|a: int, b: int| piece_names(s, a, b, v) && b < end)
}

/// The next piece adds its number, if it names one.
proof fn lemma_next_piece(s: Seq<char>, a: int, b: int)
    requires
        is_piece(s, a, b),
    ensures
        forall|v: u64|
            names(s.subrange(a, b), v) ==> numbers_before(s, b + 1) == #[trigger] numbers_before(
                s,
                a,
            ).insert(v),
        (forall|v: u64| !names(s.subrange(a, b), v)) ==> numbers_before(s, b + 1)
            == numbers_before(s, a),
{
    let before = numbers_before(s, a);
    let after = numbers_before(s, b + 1);
    assert forall|v: u64| #[trigger] after.contains(v) implies before.contains(v) || names(
        s.subrange(a, b),
        v,
    ) by {
        let (x, y) = choose|x: int, y: int| piece_names(s, x, y, v) && y < b + 1;
        if y >= a {
            assert(y == b) by {
                if y < b {
                    assert(s[y] != ',');
                }
            }
            assert(x == a) by {
                if x < a {
                    assert(s[a - 1] != ',');
                } else if x > a {
                    assert(s[x - 1] != ',');
                }
            }
        }
    }
    assert forall|v: u64| #[trigger] before.contains(v) implies after.contains(v) by {
        let (x, y) = choose|x: int, y: int| piece_names(s, x, y, v) && y < a;
        assert(piece_names(s, x, y, v) && y < b + 1);
    }
    assert forall|v: u64| names(s.subrange(a, b), v) implies after == #[trigger] before.insert(
        v,
    ) by {
        assert(piece_names(s, a, b, v));
        assert(after =~= before.insert(v));
    }
    if forall|v: u64| !names(s.subrange(a, b), v) {
        assert(after =~= before);
    }
}

/// The numbers listed in `s`, in ascending order and each once. A piece that is no
/// number is passed over.
fn parse_list(s: &Vec<char>) -> (r: Vec<u64>)
    ensures
        crate::ids::lists_ascending(r@, listed_numbers(s@)),
{
    let mut r: Vec<u64> = Vec::new();
    let mut a: usize = 0;
    proof {
        assert(r@.to_set() =~= numbers_before(s@, 0));
    }
    loop
        invariant_except_break
            a <= s@.len(),
            a == 0 || s@[a - 1] == ',',
            crate::ids::lists_ascending(r@, numbers_before(s@, a as int)),
        ensures
            crate::ids::lists_ascending(r@, listed_numbers(s@)),
        decreases s@.len() - a,
    {
        let mut b: usize = a;
        while b < s.len() && s[b] != ','
            invariant
                a <= b <= s@.len(),
                forall|i: int| a <= i < b ==> #[trigger] s@[i] != ',',
            decreases s@.len() - b,
        {
            b = b + 1;
        }
        let token = trim_range(s, a, b);
        proof {
            assert(is_piece(s@, a as int, b as int));
            lemma_next_piece(s@, a as int, b as int);
        }
        match parse_number(&token, u64::MAX) {
            Some(v) => {
                proof {
                    assert(names(s@.subrange(a as int, b as int), v));
                    assert(numbers_before(s@, b + 1) == numbers_before(s@, a as int).insert(v));
                }
                insert_sorted(&mut r, v);
            },
            None => {},
        }
        if b >= s.len() {
            proof {
                let all = numbers_before(s@, b + 1);
                assert forall|v: u64| #[trigger] listed_numbers(s@).contains(v) implies all.contains(
                    v,
                ) by {
                    let (x, y) = choose|x: int, y: int| piece_names(s@, x, y, v);
                    assert(piece_names(s@, x, y, v) && y < s@.len() + 1);
                }
                assert(all =~= listed_numbers(s@));
            }
            break;
        }
        a = b + 1;
    }
    r
}

/// A list that holds nothing but white space asks for no milestones: that is how
/// they are switched off.
pub proof fn law_blank_list_switches_off(raw: String)
    requires
        crate::text::trimmed(raw@).len() == 0,
    ensures
        milestones_of(Some(raw)).len() == 0,
{
    let s = raw@;
    assert forall|v: u64| !listed_numbers(s).contains(v) by {
        if listed_numbers(s).contains(v) {
            let (a, b) = choose|a: int, b: int| piece_names(s, a, b, v);
            if a > 0 {
                crate::text::lemma_trimmed_keeps(s, a - 1);
            }
            if b < s.len() {
                crate::text::lemma_trimmed_keeps(s, b);
            }
            assert(s.subrange(0, s.len() as int) =~= s);
        }
    }
    let none = Seq::<u64>::empty();
    assert(none.to_set() =~= listed_numbers(s));
    crate::ids::lemma_is_ascending(none, listed_numbers(s));
}

/// What the process was started with.
#[derive(Debug, Clone)]
pub struct SfuConfig {
    pub mode: SfuMode,
    /// Participant counts that are announced when a room first reaches them, in
    /// ascending order and each once. None are announced if the list is empty.
    pub milestones: Vec<u64>,
}

impl SfuConfig {
    /// The configuration for the values of `SFU_MODE` and `SFU_JOIN_MILESTONES`.
    pub fn from_env(mode: Option<String>, milestones: Option<String>) -> (r: Self)
        ensures
            r.mode == mode_of(mode),
            r.milestones@ == milestones_of(milestones),
    {
        SfuConfig { mode: parse_mode(mode), milestones: Self::parse_milestones(milestones) }
    }

    /// The milestones for a value of `SFU_JOIN_MILESTONES`.
    pub fn parse_milestones(raw: Option<String>) -> (r: Vec<u64>)
        ensures
            r@ == milestones_of(raw),
            forall|i: int, j: int| 0 <= i < j < r@.len() ==> r@[i] < r@[j],
            raw matches Some(s) ==> r@.to_set() == listed_numbers(s@),
    {
        match raw {
            None => {
                let r: Vec<u64> = vec![10, 50, 100, 250, 500, 1000, 2000, 4000, 8000];
                proof {
                    assert(r@ =~= default_milestones());
                }
                r
            },
            Some(s) => {
                let r = parse_list(&chars_of(s.as_str()));
                proof {
                    crate::ids::lemma_is_ascending(r@, listed_numbers(s@));
                }
                r
            },
        }
    }
}

/// The mode is taken from three letters, each in either case, between any white space.
pub proof fn law_three_letters_switch_on(raw: Option<String>)
    ensures
        mode_of(raw) == SfuMode::Sfu <==> raw is Some && {
            let t = crate::text::trimmed(raw->0@);
            &&& t.len() == 3
            &&& t[0] == 's' || t[0] == 'S'
            &&& t[1] == 'f' || t[1] == 'F'
            &&& t[2] == 'u' || t[2] == 'U'
        },
{
    reveal_strlit("sfu");
    if let Some(s) = raw {
        let t = crate::text::trimmed(s@);
        let l = lowercase(t);
        if t.len() == 3 && (t[0] == 's' || t[0] == 'S') && (t[1] == 'f' || t[1] == 'F') && (t[2]
            == 'u' || t[2] == 'U') {
            assert(l =~= "sfu"@);
        }
        if l == "sfu"@ {
            assert(l.len() == 3 && l[0] == 's' && l[1] == 'f' && l[2] == 'u');
        }
    }
}

/// A list is the sum of its parts: what two lists joined by a comma name is what the
/// one or the other names.
pub proof fn law_list_splits_at_commas(a: Seq<char>, b: Seq<char>)
    ensures
        listed_numbers(a + seq![','] + b) == listed_numbers(a).union(listed_numbers(b)),
{
    let s = a + seq![','] + b;
    let n = a.len() as int;
    let both = listed_numbers(a).union(listed_numbers(b));
    assert(s[n] == ',');
    assert forall|i: int| 0 <= i < n implies #[trigger] s[i] == a[i] by {}
    assert forall|i: int| n < i < s.len() implies #[trigger] s[i] == b[i - n - 1] by {}
    assert forall|v: u64| #[trigger] listed_numbers(s).contains(v) <==> both.contains(v) by {
        if listed_numbers(s).contains(v) {
            let (x, y) = choose|x: int, y: int| piece_names(s, x, y, v);
            if y <= n {
                assert(a.subrange(x, y) =~= s.subrange(x, y));
                assert forall|i: int| x <= i < y implies #[trigger] a[i] != ',' by {
                    assert(s[i] != ',');
                }
                assert(x > 0 ==> a[x - 1] == s[x - 1]);
                assert(y < n ==> a[y] == s[y]);
                assert(piece_names(a, x, y, v));
            } else {
                assert(x > n) by {
                    if x <= n {
                        assert(s[n] != ',');
                    }
                }
                let p = x - n - 1;
                let q = y - n - 1;
                assert(b.subrange(p, q) =~= s.subrange(x, y));
                assert forall|i: int| p <= i < q implies #[trigger] b[i] != ',' by {
                    assert(s[i + n + 1] != ',');
                }
                assert(p > 0 ==> b[p - 1] == s[x - 1]);
                assert(q < b.len() ==> b[q] == s[y]);
                assert(piece_names(b, p, q, v));
            }
        }
        if listed_numbers(a).contains(v) {
            let (x, y) = choose|x: int, y: int| piece_names(a, x, y, v);
            assert(a.subrange(x, y) =~= s.subrange(x, y));
            assert forall|i: int| x <= i < y implies #[trigger] s[i] != ',' by {
                assert(a[i] != ',');
            }
            assert(piece_names(s, x, y, v));
        }
        if listed_numbers(b).contains(v) {
            let (p, q) = choose|p: int, q: int| piece_names(b, p, q, v);
            let x = p + n + 1;
            let y = q + n + 1;
            assert(b.subrange(p, q) =~= s.subrange(x, y));
            assert forall|i: int| x <= i < y implies #[trigger] s[i] != ',' by {
                assert(b[i - n - 1] != ',');
            }
            assert(p == 0 ==> s[x - 1] == ',');
            assert(p > 0 ==> s[x - 1] == b[p - 1]);
            assert(q < b.len() ==> s[y] == b[q]);
            assert(piece_names(s, x, y, v));
        }
    }
    assert(listed_numbers(s) =~= both);
}

/// What stands between two commas names the number that it spells, between any white
/// space, and nothing if it spells none.
pub proof fn law_list_of_one(s: Seq<char>, n: u64)
    requires
        forall|i: int| 0 <= i < s.len() ==> #[trigger] s[i] != ',',
    ensures
        crate::text::trimmed(s) == crate::text::decimal(n as nat) ==> listed_numbers(s)
            == set![n],
        crate::text::trimmed(s).len() == 0 ==> listed_numbers(s) == Set::<u64>::empty(),
        (exists|i: int|
            1 <= i < crate::text::trimmed(s).len() && !('0' <= #[trigger] crate::text::trimmed(
                s,
            )[i] <= '9')) ==> listed_numbers(s) == Set::<u64>::empty(),
        forall|v: u64, w: u64|
            listed_numbers(s).contains(v) && listed_numbers(s).contains(w) ==> v == w,
{
    let t = crate::text::trimmed(s);
    let len = s.len() as int;
    assert(s.subrange(0, len) =~= s);
    assert forall|v: u64| #[trigger] listed_numbers(s).contains(v) <==> names(s, v) by {
        if listed_numbers(s).contains(v) {
            let (a, b) = choose|a: int, b: int| piece_names(s, a, b, v);
            assert(a == 0) by {
                if a > 0 {
                    assert(s[a - 1] != ',');
                }
            }
            assert(b == len) by {
                if b < len {
                    assert(s[b] != ',');
                }
            }
        }
        if names(s, v) {
            assert(is_piece(s, 0, len));
            assert(piece_names(s, 0, len, v));
        }
    }
    crate::text::law_number_reads_back(n as nat, u64::MAX as nat);
    crate::text::law_only_digits_spell_a_number(t, u64::MAX as nat, 0);
    if t == crate::text::decimal(n as nat) {
        assert(listed_numbers(s) =~= set![n]);
    }
    if t.len() == 0 {
        assert(listed_numbers(s) =~= Set::empty());
    }
    if exists|i: int| 1 <= i < t.len() && !('0' <= #[trigger] t[i] <= '9') {
        let i = choose|i: int| 1 <= i < t.len() && !('0' <= #[trigger] t[i] <= '9');
        crate::text::law_only_digits_spell_a_number(t, u64::MAX as nat, i);
        assert(listed_numbers(s) =~= Set::empty());
    }
}

/// Milestones ascend, each comes once, and they are the numbers that are listed.
pub proof fn law_milestones_ascend(raw: String)
    ensures
        ({
            let m = milestones_of(Some(raw));
            &&& forall|i: int, j: int| 0 <= i < j < m.len() ==> m[i] < m[j]
            &&& forall|v: u64| #[trigger] m.contains(v) <==> listed_numbers(raw@).contains(v)
        }),
{
    lemma_listed_finite(raw@);
    crate::ids::lemma_ascending_exists(listed_numbers(raw@));
    let m = milestones_of(Some(raw));
    assert forall|v: u64| #[trigger] m.contains(v) <==> listed_numbers(raw@).contains(v) by {
        assert(m.to_set().contains(v) <==> m.contains(v));
    }
}

/// A list names finitely many numbers.
proof fn lemma_listed_finite(s: Seq<char>)
    ensures
        listed_numbers(s).finite(),
    decreases s.len(),
{
    if s.contains(',') {
        let k = choose|k: int| 0 <= k < s.len() && s[k] == ',';
        let a = s.take(k);
        let b = s.skip(k + 1);
        assert(s =~= a + seq![','] + b);
        law_list_splits_at_commas(a, b);
        lemma_listed_finite(a);
        lemma_listed_finite(b);
    } else {
        assert forall|i: int| 0 <= i < s.len() implies #[trigger] s[i] != ',' by {
            assert(s.contains(s[i]));
        }
        law_list_of_one(s, 0);
        let set = listed_numbers(s);
        if set.is_empty() {
            assert(set =~= Set::empty());
        } else {
            let v = set.choose();
            assert(set =~= set![v]);
        }
    }
}

} // verus!
