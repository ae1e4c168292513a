//! Session identifiers and their ascending listings.
use std::collections::{HashMap, HashSet};

use vstd::prelude::*;

verus! {

broadcast use vstd::std_specs::hash::group_hash_axioms;

/// Identifier of one participant's connection to a room.
pub type SessionId = u64;

/// `s` lists every element of `set` exactly once, in ascending order.
pub open spec fn lists_ascending(s: Seq<u64>, set: Set<u64>) -> bool {
    &&& forall|i: int, j: int| 0 <= i < j < s.len() ==> s[i] < s[j]
    &&& s.to_set() == set
}

/// The elements of the finite set `set` in ascending order.
pub open spec fn ascending(set: Set<u64>) -> Seq<u64> {
    choose|s: Seq<u64>| lists_ascending(s, set)
}

/// Two ascending listings of one set are the same sequence.
pub proof fn lemma_ascending_unique(a: Seq<u64>, b: Seq<u64>, set: Set<u64>)
    requires
        lists_ascending(a, set),
        lists_ascending(b, set),
    ensures
        a == b,
    decreases a.len(),
{
    if a.len() == 0 {
        if b.len() > 0 {
            assert(b.to_set().contains(b[0]));
            assert(a.to_set().contains(b[0]));
        }
        assert(a =~= b);
    } else {
        assert(a.to_set().contains(a[0]));
        assert(b.to_set().contains(a[0]));
        let x = a.last();
        assert(a.to_set().contains(x));
        assert(b.to_set().contains(x));
        let k = choose|k: int| 0 <= k < b.len() && b[k] == x;
        let y = b.last();
        assert(b.to_set().contains(y));
        assert(a.to_set().contains(y));
        let l = choose|l: int| 0 <= l < a.len() && a[l] == y;
        assert(x == y);
        let rest = set.remove(x);
        assert(lists_ascending(a.drop_last(), rest)) by {
            assert forall|v: u64| a.drop_last().to_set().contains(v) <==> rest.contains(v) by {
                if rest.contains(v) {
                    assert(a.to_set().contains(v));
                    let i = choose|i: int| 0 <= i < a.len() && a[i] == v;
                    assert(a.drop_last()[i] == v);
                }
                if a.drop_last().to_set().contains(v) {
                    let i = choose|i: int| 0 <= i < a.drop_last().len() && a.drop_last()[i] == v;
                    assert(a[i] == v);
                    assert(a.to_set().contains(v));
                }
            }
            assert(a.drop_last().to_set() =~= rest);
        }
        assert(lists_ascending(b.drop_last(), rest)) by {
            assert forall|v: u64| b.drop_last().to_set().contains(v) <==> rest.contains(v) by {
                if rest.contains(v) {
                    assert(b.to_set().contains(v));
                    let i = choose|i: int| 0 <= i < b.len() && b[i] == v;
                    assert(b.drop_last()[i] == v);
                }
                if b.drop_last().to_set().contains(v) {
                    let i = choose|i: int| 0 <= i < b.drop_last().len() && b.drop_last()[i] == v;
                    assert(b[i] == v);
                    assert(b.to_set().contains(v));
                }
            }
            assert(b.drop_last().to_set() =~= rest);
        }
        lemma_ascending_unique(a.drop_last(), b.drop_last(), rest);
        assert(a =~= a.drop_last().push(x));
        assert(b =~= b.drop_last().push(x));
    }
}

/// A listing of `set` is the listing of `set`.
pub proof fn lemma_is_ascending(s: Seq<u64>, set: Set<u64>)
    requires
        lists_ascending(s, set),
    ensures
        s == ascending(set),
{
    lemma_ascending_unique(s, ascending(set), set);
}

/// One more element of a prefix adds that element to the prefix's set.
pub proof fn lemma_prefix_set(q: Seq<u64>, n: int)
    requires
        0 <= n < q.len(),
    ensures
        q.take(n + 1).to_set() == q.take(n).to_set().insert(q[n]),
{
    let a = q.take(n + 1);
    let b = q.take(n);
    assert forall|y: u64| a.to_set().contains(y) <==> b.to_set().insert(q[n]).contains(y) by {
        if b.to_set().contains(y) {
            let k = choose|k: int| 0 <= k < b.len() && b[k] == y;
            assert(a[k] == y);
        }
        if y == q[n] {
            assert(a[n] == y);
        }
        if a.to_set().contains(y) && y != q[n] {
            let k = choose|k: int| 0 <= k < a.len() && a[k] == y;
            assert(b[k] == y);
        }
    }
    assert(a.to_set() =~= b.to_set().insert(q[n]));
}

/// Filtering an ascending listing lists the filtered set.
pub proof fn lemma_filter_ascending(q: Seq<u64>, set: Set<u64>, p: spec_fn(u64) -> bool)
    requires
        lists_ascending(q, set),
    ensures
        lists_ascending(q.filter(p), set.filter(p)),
    decreases q.len(),
{
    reveal(Seq::filter);
    if q.len() == 0 {
        assert forall|y: u64| !set.contains(y) by {
            if set.contains(y) {
                assert(q.to_set().contains(y));
            }
        }
        assert(q.filter(p).to_set() =~= set.filter(p));
    } else {
        let front = q.drop_last();
        let x = q.last();
        assert(front =~= q.take(q.len() - 1));
        lemma_prefix_set(q, q.len() - 1);
        assert(q.take(q.len() as int) =~= q);
        assert(lists_ascending(front, front.to_set()));
        lemma_filter_ascending(front, front.to_set(), p);
        let f = front.filter(p);
        assert forall|i: int| 0 <= i < f.len() implies f[i] < x by {
            assert(f.to_set().contains(f[i]));
            assert(front.to_set().contains(f[i]));
            let k = choose|k: int| 0 <= k < front.len() && front[k] == f[i];
            assert(q[k] < q[q.len() - 1]);
        }
        if p(x) {
            assert(q.filter(p) =~= f.push(x));
            lemma_prefix_set(f.push(x), f.len() as int);
            assert(f.push(x).take(f.len() as int) =~= f);
            assert(f.push(x).take((f.len() + 1) as int) =~= f.push(x));
            assert(q.filter(p).to_set() =~= set.filter(p));
        } else {
            assert(q.filter(p) =~= f);
            assert(q.filter(p).to_set() =~= set.filter(p));
        }
    }
}

/// `q` with `x` put at its place.
spec fn with_inserted(q: Seq<u64>, x: u64) -> Seq<u64>
    decreases q.len(),
{
    if q.len() == 0 || q.last() < x {
        q.push(x)
    } else {
        with_inserted(q.drop_last(), x).push(q.last())
    }
}

proof fn lemma_with_inserted(q: Seq<u64>, x: u64)
    requires
        lists_ascending(q, q.to_set()),
        !q.to_set().contains(x),
    ensures
        lists_ascending(with_inserted(q, x), q.to_set().insert(x)),
    decreases q.len(),
{
    if q.len() == 0 || q.last() < x {
        let r = q.push(x);
        lemma_prefix_set(r, q.len() as int);
        assert(r.take(q.len() as int) =~= q);
        assert(r.take((q.len() + 1) as int) =~= r);
        assert(r.to_set() =~= q.to_set().insert(x));
    } else {
        let front = q.drop_last();
        assert(q.to_set().contains(q[q.len() - 1]));
        lemma_prefix_set(q, q.len() - 1);
        assert(q.take(q.len() - 1) =~= front);
        assert(q.take(q.len() as int) =~= q);
        lemma_with_inserted(front, x);
        let f = with_inserted(front, x);
        let r = f.push(q.last());
        assert forall|i: int| 0 <= i < f.len() implies f[i] < q.last() by {
            assert(f.to_set().contains(f[i]));
            if f[i] != x {
                assert(front.to_set().contains(f[i]));
                let k = choose|k: int| 0 <= k < front.len() && front[k] == f[i];
                assert(q[k] < q[q.len() - 1]);
            }
        }
        lemma_prefix_set(r, f.len() as int);
        assert(r.take(f.len() as int) =~= f);
        assert(r.take((f.len() + 1) as int) =~= r);
        assert(r.to_set() =~= q.to_set().insert(x));
    }
}

/// Every finite set has an ascending listing.
pub proof fn lemma_ascending_exists(set: Set<u64>)
    requires
        set.finite(),
    ensures
        lists_ascending(ascending(set), set),
    decreases set.len(),
{
    if set.is_empty() {
        let q = Seq::<u64>::empty();
        assert(q.to_set() =~= set);
        assert(lists_ascending(q, set));
    } else {
        let x = set.choose();
        let rest = set.remove(x);
        lemma_ascending_exists(rest);
        let q = ascending(rest);
        assert(!rest.contains(x));
        lemma_with_inserted(q, x);
        assert(rest.insert(x) =~= set);
        assert(lists_ascending(with_inserted(q, x), set));
    }
}

/// Inserts `x` into an ascending listing, unless it is there already.
pub fn insert_sorted(v: &mut Vec<SessionId>, x: SessionId)
    requires
        lists_ascending(old(v)@, old(v)@.to_set()),
    ensures
        lists_ascending(final(v)@, old(v)@.to_set().insert(x)),
{
    let mut i: usize = v.len();
    while i > 0 && v[i - 1] > x
        invariant
            i <= v@.len(),
            forall|k: int| i <= k < v@.len() ==> v@[k] > x,
        decreases i,
    {
        i = i - 1;
    }
    let ghost before = v@;
    if i > 0 && v[i - 1] == x {
        proof {
            assert(before[i - 1] == x);
            assert(before.to_set().contains(x));
            assert(before.to_set().insert(x) =~= before.to_set());
        }
    } else {
        v.insert(i, x);
        proof {
            assert(v@ == before.insert(i as int, x));
            assert forall|y: u64| v@.to_set().contains(y) <==> before.to_set().insert(x).contains(y) by {
                if before.to_set().contains(y) {
                    let k = choose|k: int| 0 <= k < before.len() && before[k] == y;
                    assert(v@[if k < i { k } else { k + 1 }] == y);
                }
                if y == x {
                    assert(v@[i as int] == x);
                }
                if v@.to_set().contains(y) && y != x {
                    let k = choose|k: int| 0 <= k < v@.len() && v@[k] == y;
                    assert(before[if k < i { k } else { k - 1 }] == y);
                }
            }
            assert(v@.to_set() =~= before.to_set().insert(x));
        }
    }
}

/// The elements of a hash set, ascending.
pub fn sorted_ids(set: &HashSet<SessionId>) -> (r: Vec<SessionId>)
    ensures
        r@ == ascending(set@),
        lists_ascending(r@, set@),
{
    let mut r: Vec<SessionId> = Vec::new();
    proof {
        assert forall|q: Seq<u64>| r@.to_set() == #[trigger] q.take(0).to_set() by {
            assert(r@ =~= q.take(0));
        }
    }
    for id in it: set.iter()
        invariant
            it.seq().unref().to_set() == set@,
            it.seq().unref().len() == it.seq().len(),
            lists_ascending(r@, it.seq().unref().take(it.index() as int).to_set()),
    {
        let ghost n = it.index() as int;
        let ghost q = it.seq().unref();
        insert_sorted(&mut r, *id);
        proof {
            assert(q[n] == *id);
            lemma_prefix_set(q, n);
        }
    }
    proof {
        assert forall|q: Seq<u64>, n: int| n == q.len() implies #[trigger] q.take(n) == q by {
            assert(q.take(n) =~= q);
        }
        lemma_is_ascending(r@, set@);
    }
    r
}

/// The keys of a hash map, ascending.
pub fn sorted_keys<V>(map: &HashMap<SessionId, V>) -> (r: Vec<SessionId>)
    ensures
        r@ == ascending(map@.dom()),
        lists_ascending(r@, map@.dom()),
{
    let mut r: Vec<SessionId> = Vec::new();
    proof {
        assert forall|q: Seq<u64>| r@.to_set() == #[trigger] q.take(0).to_set() by {
            assert(r@ =~= q.take(0));
        }
    }
    for id in it: map.keys()
        invariant
            it.seq().unref().to_set() == map@.dom(),
            it.seq().unref().len() == it.seq().len(),
            lists_ascending(r@, it.seq().unref().take(it.index() as int).to_set()),
    {
        let ghost n = it.index() as int;
        let ghost q = it.seq().unref();
        insert_sorted(&mut r, *id);
        proof {
            assert(q[n] == *id);
            lemma_prefix_set(q, n);
        }
    }
    proof {
        assert forall|q: Seq<u64>, n: int| n == q.len() implies #[trigger] q.take(n) == q by {
            assert(q.take(n) =~= q);
        }
        lemma_is_ascending(r@, map@.dom());
    }
    r
}

/// Whether `ids` holds `sid`.
pub fn contains_id(ids: &Vec<SessionId>, sid: SessionId) -> (r: bool)
    ensures
        r == ids@.contains(sid),
{
    let mut i: usize = 0;
    while i < ids.len()
        invariant
            i <= ids@.len(),
            forall|k: int| 0 <= k < i ==> ids@[k] != sid,
        decreases ids@.len() - i,
    {
        if ids[i] == sid {
            return true;
        }
        i = i + 1;
    }
    false
}

/// In a list that `before` sorts, the first `n` elements are those that fewer than `n`
/// others come before. `ahead` holds the elements that come before `s`.
pub proof fn lemma_first_by_rank(
    q: Seq<u64>,
    before: spec_fn(u64, u64) -> bool,
    n: nat,
    s: u64,
    ahead: Set<u64>,
)
    requires
        forall|i: int, j: int| 0 <= i < j < q.len() ==> before(#[trigger] q[i], #[trigger] q[j]),
        forall|i: int, j: int| 0 <= i <= j < q.len() ==> !before(#[trigger] q[j], #[trigger] q[i]),
        q.contains(s),
        forall|t: u64| #[trigger] ahead.contains(t) <==> q.contains(t) && before(t, s),
    ensures
        ahead.finite(),
        (exists|k: int| 0 <= k < q.len() && k < n && #[trigger] q[k] == s) <==> ahead.len() < n,
{
    let k = choose|k: int| 0 <= k < q.len() && q[k] == s;
    let head = q.take(k);
    assert forall|t: u64| ahead.contains(t) <==> head.to_set().contains(t) by {
        if ahead.contains(t) {
            let j = choose|j: int| 0 <= j < q.len() && q[j] == t;
            assert(j < k) by {
                if k <= j {
                    assert(!before(q[j], q[k]));
                }
            }
            assert(head[j] == t);
        }
        if head.to_set().contains(t) {
            let j = choose|j: int| 0 <= j < head.len() && head[j] == t;
            assert(q[j] == t);
            assert(before(q[j], q[k]));
        }
    }
    assert(ahead =~= head.to_set());
    vstd::seq_lib::seq_to_set_is_finite(head);
    assert forall|i: int, j: int| 0 <= i < j < head.len() implies head[i] != head[j] by {
        assert(before(q[i], q[j]));
        assert(!before(q[i], q[i]));
    }
    head.unique_seq_to_set();
    assert(ahead.len() == k);
    if exists|l: int| 0 <= l < q.len() && l < n && #[trigger] q[l] == s {
        let l = choose|l: int| 0 <= l < q.len() && l < n && #[trigger] q[l] == s;
        if l < k {
            assert(before(q[l], q[k]));
            assert(!before(q[k], q[k]));
        }
    }
}

} // verus!
