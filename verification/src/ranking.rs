use vstd::prelude::*;

verus! {

/// A value ranked by a 64-bit key, largest first.
pub trait RankKey {
    /// The key by which the value is ranked.
    spec fn spec_rank(&self) -> u64;

    /// The key by which the value is ranked.
    fn rank(&self) -> (r: u64)
        ensures
            r == self.spec_rank(),
    ;
}

/// Where a stable insertion puts `x` into a ranking: just after the last
/// element whose key is at least that of `x`.
pub open spec fn spec_rank_slot<A>(s: Seq<A>, x: A, key: spec_fn(A) -> u64) -> int
    decreases s.len(),
{
    if s.len() == 0 {
        0
    } else if key(s.last()) >= key(x) {
        s.len() as int
    } else {
        spec_rank_slot(s.drop_last(), x, key)
    }
}

/// The values stably sorted by key, largest first.
pub open spec fn spec_rank_desc<A>(s: Seq<A>, key: spec_fn(A) -> u64) -> Seq<A>
    decreases s.len(),
{
    if s.len() == 0 {
        s
    } else {
        let t = spec_rank_desc(s.drop_last(), key);
        t.insert(spec_rank_slot(t, s.last(), key), s.last())
    }
}

/// The slot of a stable insertion lies within the ranking; what precedes it
/// ranks at least as high as `x`, what follows it strictly lower.
proof fn lemma_rank_slot<A>(s: Seq<A>, x: A, key: spec_fn(A) -> u64)
    requires
        forall|i: int, j: int| 0 <= i < j < s.len() ==> key(s[i]) >= key(s[j]),
    ensures
        0 <= spec_rank_slot(s, x, key) <= s.len(),
        forall|i: int| 0 <= i < spec_rank_slot(s, x, key) ==> key(s[i]) >= key(x),
        forall|i: int| spec_rank_slot(s, x, key) <= i < s.len() ==> key(s[i]) < key(x),
    decreases s.len(),
{
    if s.len() > 0 {
        if key(s.last()) >= key(x) {
            assert forall|i: int| 0 <= i < s.len() implies key(s[i]) >= key(x) by {
                if i < s.len() - 1 {
                    assert(key(s[i]) >= key(s[s.len() - 1]));
                }
            }
        } else {
            let d = s.drop_last();
            assert forall|i: int, j: int| 0 <= i < j < d.len() implies key(d[i]) >= key(d[j]) by {
                assert(d[i] == s[i] && d[j] == s[j]);
            }
            lemma_rank_slot(d, x, key);
            let p = spec_rank_slot(d, x, key);
            assert forall|i: int| 0 <= i < p implies key(s[i]) >= key(x) by {
                assert(s[i] == d[i]);
            }
            assert forall|i: int| p <= i < s.len() implies key(s[i]) < key(x) by {
                if i < d.len() {
                    assert(s[i] == d[i]);
                }
            }
        }
    }
}

/// A ranking is ordered by key, largest first, and holds the same values as
/// its input, each as often.
pub proof fn lemma_rank_desc_sorted<A>(s: Seq<A>, key: spec_fn(A) -> u64)
    ensures
        forall|i: int, j: int| 0 <= i < j < spec_rank_desc(s, key).len()
            ==> key(spec_rank_desc(s, key)[i]) >= key(spec_rank_desc(s, key)[j]),
        spec_rank_desc(s, key).to_multiset() =~= s.to_multiset(),
    decreases s.len(),
{
    broadcast use vstd::seq_lib::group_to_multiset_ensures;
    if s.len() > 0 {
        let d = s.drop_last();
        let x = s.last();
        lemma_rank_desc_sorted(d, key);
        let t = spec_rank_desc(d, key);
        lemma_rank_slot(t, x, key);
        let p = spec_rank_slot(t, x, key);
        t.insert_ensures(p, x);
        let r = spec_rank_desc(s, key);
        assert(r == t.insert(p, x));
        assert forall|i: int, j: int| 0 <= i < j < r.len() implies key(r[i]) >= key(r[j]) by {
            if j < p {
                assert(r[i] == t[i] && r[j] == t[j]);
            } else if j == p {
                assert(r[i] == t[i]);
            } else if i < p {
                assert(r[i] == t[i] && r[j] == t[j - 1]);
            } else if i == p {
                assert(r[j] == t[j - 1]);
            } else {
                assert(r[i] == t[i - 1] && r[j] == t[j - 1]);
            }
        }
        let a = t.subrange(0, p);
        let b = t.subrange(p, t.len() as int);
        assert(t =~= a + b);
        assert(r =~= a.push(x) + b);
        vstd::seq_lib::lemma_multiset_commutative(a.push(x), b);
        vstd::seq_lib::lemma_multiset_commutative(a, b);
        assert(s =~= d.push(x));
    }
}

/// Ranking commutes with taking views that keep the keys.
pub proof fn lemma_rank_desc_map<A, B>(s: Seq<A>, key: spec_fn(A) -> u64, f: spec_fn(A) -> B, keyb: spec_fn(B) -> u64)
    requires
        forall|a: A| #[trigger] keyb(f(a)) == key(a),
    ensures
        spec_rank_desc(s, key).map_values(f) =~= spec_rank_desc(s.map_values(f), keyb),
    decreases s.len(),
{
    if s.len() > 0 {
        let d = s.drop_last();
        let x = s.last();
        lemma_rank_desc_map(d, key, f, keyb);
        assert(s.map_values(f).drop_last() =~= d.map_values(f));
        assert(s.map_values(f).last() == f(x));
        let t = spec_rank_desc(d, key);
        lemma_rank_slot_map(t, x, key, f, keyb);
        lemma_rank_slot_bounds(t, x, key);
        let p = spec_rank_slot(t, x, key);
        assert(t.insert(p, x).map_values(f) =~= t.map_values(f).insert(p, f(x)));
    }
}

/// The slot of a stable insertion lies within the ranking.
proof fn lemma_rank_slot_bounds<A>(s: Seq<A>, x: A, key: spec_fn(A) -> u64)
    ensures
        0 <= spec_rank_slot(s, x, key) <= s.len(),
    decreases s.len(),
{
    if s.len() > 0 && key(s.last()) < key(x) {
        lemma_rank_slot_bounds(s.drop_last(), x, key);
    }
}

/// The slot of a stable insertion is the same among views that keep the
/// keys.
proof fn lemma_rank_slot_map<A, B>(s: Seq<A>, x: A, key: spec_fn(A) -> u64, f: spec_fn(A) -> B, keyb: spec_fn(B) -> u64)
    requires
        forall|a: A| #[trigger] keyb(f(a)) == key(a),
    ensures
        spec_rank_slot(s, x, key) == spec_rank_slot(s.map_values(f), f(x), keyb),
    decreases s.len(),
{
    if s.len() > 0 {
        assert(s.map_values(f).drop_last() =~= s.drop_last().map_values(f));
        assert(s.map_values(f).last() == f(s.last()));
        assert(keyb(f(s.last())) == key(s.last()));
        assert(keyb(f(x)) == key(x));
        lemma_rank_slot_map(s.drop_last(), x, key, f, keyb);
    }
}

/// The values stably sorted by key, largest first (see `spec_rank_desc`).
pub fn rank_desc<T: RankKey>(v: Vec<T>) -> (r: Vec<T>)
    ensures
        r@ == spec_rank_desc(v@, |t: T| t.spec_rank()),
{
    let ghost key = |t: T| t.spec_rank();
    let ghost ov = v@;
    let n = v.len();
    let mut rest = v;
    let mut out: Vec<T> = Vec::new();
    let mut i: usize = 0;
    while i < n
        invariant
            i <= n,
            n == ov.len(),
            rest@ == ov.subrange(i as int, n as int),
            key == (|t: T| t.spec_rank()),
            out@ == spec_rank_desc(ov.take(i as int), key),
        decreases n - i,
    {
        let ghost os = out@;
        let x = rest.remove(0);
        assert(rest@ =~= ov.subrange(i + 1, n as int));
        let k = x.rank();
        let mut j = out.len();
        let mut moving = true;
        assert(os.take(j as int) =~= os);
        while moving && j > 0
            invariant
                j <= out.len(),
                os == out@,
                k == x.spec_rank(),
                key == (|t: T| t.spec_rank()),
                spec_rank_slot(os, x, key) == spec_rank_slot(os.take(j as int), x, key),
                !moving ==> j > 0 && key(os[j - 1]) >= key(x),
            decreases j + (if moving { 1int } else { 0int }),
        {
            let kj = out[j - 1].rank();
            if kj < k {
                assert(os.take(j as int).drop_last() =~= os.take(j - 1));
                j = j - 1;
            } else {
                moving = false;
            }
        }
        proof {
            if j > 0 {
                assert(os.take(j as int).last() == os[j - 1]);
            }
            assert(ov.take(i + 1).drop_last() =~= ov.take(i as int));
            assert(ov.take(i + 1).last() == ov[i as int]);
        }
        out.insert(j, x);
        i = i + 1;
    }
    assert(ov.take(n as int) =~= ov);
    out
}

} // verus!
