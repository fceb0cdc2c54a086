//! The order of keys: byte strings compared lexicographically.

use vstd::prelude::*;

verus! {

/// How one key stands to another.
#[derive(Debug, Clone, Copy)]
pub enum KeyOrder {
    Less,
    Equal,
    Greater,
}

/// `a` and `b` agree on their first `i` bytes, and at byte `i` either `a` has ended or its byte
/// is the smaller one.
pub open spec fn before_at(a: Seq<u8>, b: Seq<u8>, i: int) -> bool {
    &&& 0 <= i <= a.len()
    &&& i < b.len()
    &&& forall|j: int| 0 <= j < i ==> a[j] == b[j]
    &&& i == a.len() || a[i] < b[i]
}

/// `a` comes strictly before `b` in lexicographic order.
pub open spec fn key_lt(a: Seq<u8>, b: Seq<u8>) -> bool {
    exists|i: int| before_at(a, b, i)
}

/// `a` comes before `b` or is `b`.
pub open spec fn key_le(a: Seq<u8>, b: Seq<u8>) -> bool {
    a == b || key_lt(a, b)
}

/// Each key comes strictly before the next ones.
pub open spec fn strictly_sorted(keys: Seq<Seq<u8>>) -> bool {
    forall|i: int, j: int| 0 <= i < j < keys.len() ==> key_lt(#[trigger] keys[i], #[trigger] keys[j])
}

/// The keys of a finite set in lexicographic order.
pub open spec fn sorted_keys(keys: Set<Seq<u8>>) -> Seq<Seq<u8>> {
    choose|q: Seq<Seq<u8>>| strictly_sorted(q) && #[trigger] q.to_set() == keys
}

/// No key comes before itself.
pub proof fn lemma_lt_irreflexive(a: Seq<u8>)
    ensures
        !key_lt(a, a),
{
}

/// The order is that of the bytes: where two keys first differ the smaller byte decides, whatever
/// stands behind it, and a key comes before every longer one that starts with it.
pub proof fn lemma_lt_is_bytewise(p: Seq<u8>, x: u8, a: Seq<u8>, y: u8, b: Seq<u8>)
    ensures
        x < y ==> key_lt(p.push(x) + a, p.push(y) + b),
        key_lt(p, p.push(x) + a),
{
    let s = p.push(x) + a;
    let t = p.push(y) + b;
    let n = p.len() as int;
    if x < y {
        assert(s[n] == x && t[n] == y);
        assert forall|j: int| 0 <= j < n implies s[j] == t[j] by {
            assert(s[j] == p[j] && t[j] == p[j]);
        }
        assert(before_at(s, t, n));
    }
    assert forall|j: int| 0 <= j < n implies p[j] == s[j] by {
    }
    assert(before_at(p, s, n));
}

/// The order is transitive.
pub proof fn lemma_lt_transitive(a: Seq<u8>, b: Seq<u8>, c: Seq<u8>)
    requires
        key_lt(a, b),
        key_lt(b, c),
    ensures
        key_lt(a, c),
{
    let i = choose|i: int| before_at(a, b, i);
    let j = choose|j: int| before_at(b, c, j);
    if i <= j {
        assert(before_at(a, c, i));
    } else {
        assert(before_at(a, c, j));
    }
}

/// Of two different keys one comes before the other, and not the other way round.
pub proof fn lemma_lt_asymmetric(a: Seq<u8>, b: Seq<u8>)
    requires
        key_lt(a, b),
    ensures
        !key_lt(b, a),
        a != b,
{
    if key_lt(b, a) {
        lemma_lt_transitive(a, b, a);
        lemma_lt_irreflexive(a);
    }
    lemma_lt_irreflexive(a);
}

/// Two keys are equal, or one comes before the other.
pub proof fn lemma_lt_total(a: Seq<u8>, b: Seq<u8>)
    ensures
        a == b || key_lt(a, b) || key_lt(b, a),
{
    if a != b {
        lemma_first_difference(a, b, 0);
    }
}

proof fn lemma_first_difference(a: Seq<u8>, b: Seq<u8>, i: int)
    requires
        0 <= i <= a.len(),
        i <= b.len(),
        forall|j: int| 0 <= j < i ==> a[j] == b[j],
        a != b,
    ensures
        key_lt(a, b) || key_lt(b, a),
    decreases a.len() - i,
{
    if i == a.len() {
        if i == b.len() {
            assert(a =~= b);
        } else {
            assert(before_at(a, b, i));
        }
    } else if i == b.len() {
        assert(before_at(b, a, i));
    } else if a[i] < b[i] {
        assert(before_at(a, b, i));
    } else if b[i] < a[i] {
        assert(before_at(b, a, i));
    } else {
        lemma_first_difference(a, b, i + 1);
    }
}

/// A strictly sorted sequence of keys is determined by the set of its keys.
pub proof fn lemma_sorted_unique(p: Seq<Seq<u8>>, q: Seq<Seq<u8>>)
    requires
        strictly_sorted(p),
        strictly_sorted(q),
        p.to_set() == q.to_set(),
    ensures
        p == q,
    decreases p.len(),
{
    if p.len() == 0 {
        if q.len() > 0 {
            assert(q.to_set().contains(q[0]));
            assert(p.contains(q[0]));
        }
        assert(p =~= q);
    } else {
        assert(p.to_set().contains(p.last()));
        assert(q.contains(p.last()));
        let j = choose|j: int| 0 <= j < q.len() && q[j] == p.last();
        assert(q.to_set().contains(q.last()));
        assert(p.contains(q.last()));
        let i = choose|i: int| 0 <= i < p.len() && p[i] == q.last();
        if j < q.len() - 1 {
            assert(key_lt(q[j], q.last()));
            if i < p.len() - 1 {
                assert(key_lt(p[i], p.last()));
                lemma_lt_asymmetric(p.last(), q.last());
            } else {
                lemma_lt_irreflexive(p.last());
            }
        }
        assert(p.last() == q.last());
        let p1 = p.drop_last();
        let q1 = q.drop_last();
        assert(strictly_sorted(p1)) by {
            assert forall|i: int, j: int| 0 <= i < j < p1.len() implies key_lt(
                #[trigger] p1[i],
                #[trigger] p1[j],
            ) by {
                assert(key_lt(p[i], p[j]));
            }
        }
        assert(strictly_sorted(q1)) by {
            assert forall|i: int, j: int| 0 <= i < j < q1.len() implies key_lt(
                #[trigger] q1[i],
                #[trigger] q1[j],
            ) by {
                assert(key_lt(q[i], q[j]));
            }
        }
        lemma_drop_last_set(p);
        lemma_drop_last_set(q);
        lemma_sorted_unique(p1, q1);
        assert(p =~= p1.push(p.last()));
        assert(q =~= q1.push(q.last()));
    }
}

proof fn lemma_drop_last_set(p: Seq<Seq<u8>>)
    requires
        strictly_sorted(p),
        p.len() > 0,
    ensures
        p.drop_last().to_set() == p.to_set().remove(p.last()),
{
    let p1 = p.drop_last();
    assert forall|k: Seq<u8>| p1.to_set().contains(k) <==> p.to_set().remove(p.last()).contains(
        k,
    ) by {
        if p1.contains(k) {
            let i = choose|i: int| 0 <= i < p1.len() && p1[i] == k;
            assert(p[i] == k);
            assert(key_lt(p[i], p[p.len() - 1]));
            lemma_lt_irreflexive(p.last());
            assert(p.contains(k));
        }
        if p.contains(k) && k != p.last() {
            let i = choose|i: int| 0 <= i < p.len() && p[i] == k;
            assert(p1[i] == k);
            assert(p1.contains(k));
        }
    }
    assert(p1.to_set() =~= p.to_set().remove(p.last()));
}

/// A strictly sorted sequence is the sorted sequence of the set of its keys.
pub proof fn lemma_sorted_keys(q: Seq<Seq<u8>>, keys: Set<Seq<u8>>)
    requires
        strictly_sorted(q),
        q.to_set() == keys,
    ensures
        sorted_keys(keys) == q,
{
    let s = sorted_keys(keys);
    assert(strictly_sorted(s) && s.to_set() == keys);
    lemma_sorted_unique(s, q);
}

/// A key put where it belongs leaves the sequence sorted.
pub proof fn lemma_insert_sorted(ks: Seq<Seq<u8>>, at: int, k: Seq<u8>)
    requires
        strictly_sorted(ks),
        0 <= at <= ks.len(),
        !ks.contains(k),
        forall|i: int| 0 <= i < at ==> key_lt(#[trigger] ks[i], k),
        forall|i: int| at <= i < ks.len() ==> key_le(k, #[trigger] ks[i]),
    ensures
        strictly_sorted(ks.insert(at, k)),
{
    let ns = ks.insert(at, k);
    assert forall|i: int, j: int| 0 <= i < j < ns.len() implies key_lt(
        #[trigger] ns[i],
        #[trigger] ns[j],
    ) by {
        if i == at {
            assert(ns[j] == ks[j - 1]);
            assert(key_le(k, ks[j - 1]));
            assert(ks.contains(ks[j - 1]));
        } else if j == at {
            assert(ns[i] == ks[i]);
        } else {
            let i1 = if i < at { i } else { i - 1 };
            let j1 = if j < at { j } else { j - 1 };
            assert(key_lt(ks[i1], ks[j1]));
        }
    }
}

/// The place of a new key in a strictly sorted sequence.
proof fn lemma_place(ks: Seq<Seq<u8>>, k: Seq<u8>, from: int) -> (at: int)
    requires
        strictly_sorted(ks),
        0 <= from <= ks.len(),
        forall|i: int| 0 <= i < from ==> key_lt(#[trigger] ks[i], k),
    ensures
        0 <= at <= ks.len(),
        forall|i: int| 0 <= i < at ==> key_lt(#[trigger] ks[i], k),
        forall|i: int| at <= i < ks.len() ==> key_le(k, #[trigger] ks[i]),
    decreases ks.len() - from,
{
    if from == ks.len() {
        from
    } else if key_lt(ks[from], k) {
        lemma_place(ks, k, from + 1)
    } else {
        lemma_lt_total(ks[from], k);
        assert forall|i: int| from <= i < ks.len() implies key_le(k, #[trigger] ks[i]) by {
            if i > from {
                assert(key_lt(ks[from], ks[i]));
                if k != ks[from] {
                    lemma_lt_transitive(k, ks[from], ks[i]);
                }
            }
        }
        from
    }
}

/// Every finite set of keys can be put in order.
pub proof fn lemma_sorted_exists(keys: Set<Seq<u8>>)
    requires
        keys.finite(),
    ensures
        strictly_sorted(sorted_keys(keys)),
        sorted_keys(keys).to_set() == keys,
    decreases keys.len(),
{
    if keys.len() == 0 {
        let q = Seq::<Seq<u8>>::empty();
        assert(q.to_set() =~= keys);
        lemma_sorted_keys(q, keys);
    } else {
        let k = keys.choose();
        let rest = keys.remove(k);
        lemma_sorted_exists(rest);
        let q = sorted_keys(rest);
        let at = lemma_place(q, k, 0);
        assert(!q.contains(k)) by {
            assert(!q.to_set().contains(k));
        }
        lemma_insert_sorted(q, at, k);
        let p = q.insert(at, k);
        assert forall|x: Seq<u8>| p.to_set().contains(x) <==> keys.contains(x) by {
            if p.contains(x) {
                let i = choose|i: int| 0 <= i < p.len() && p[i] == x;
                if i < at {
                    assert(q[i] == x);
                    assert(q.to_set().contains(x));
                } else if i > at {
                    assert(q[i - 1] == x);
                    assert(q.to_set().contains(x));
                }
            }
            if x == k {
                assert(p[at] == x);
            } else if keys.contains(x) {
                assert(q.to_set().contains(x));
                let i = choose|i: int| 0 <= i < q.len() && q[i] == x;
                if i < at {
                    assert(p[i] == x);
                } else {
                    assert(p[i + 1] == x);
                }
            }
        }
        assert(p.to_set() =~= keys);
        lemma_sorted_keys(p, keys);
    }
}

/// A strictly sorted sequence holds no key twice.
pub proof fn lemma_sorted_distinct(ks: Seq<Seq<u8>>)
    requires
        strictly_sorted(ks),
    ensures
        ks.no_duplicates(),
{
    assert forall|i: int, j: int| 0 <= i < ks.len() && 0 <= j < ks.len() && i != j implies ks[i]
        != ks[j] by {
        if i < j {
            assert(key_lt(ks[i], ks[j]));
            lemma_lt_asymmetric(ks[i], ks[j]);
        } else {
            assert(key_lt(ks[j], ks[i]));
            lemma_lt_asymmetric(ks[j], ks[i]);
        }
    }
}

/// The smallest key that comes after every key with the prefix `p`, if there is one: without the
/// bytes `0xFF` at its end, and with the last of the others one higher.
pub open spec fn prefix_successor(p: Seq<u8>) -> Option<Seq<u8>>
    decreases p.len(),
{
    if p.len() == 0 {
        None
    } else if p.last() < 0xFF {
        Some(p.drop_last().push((p.last() + 1) as u8))
    } else {
        prefix_successor(p.drop_last())
    }
}

/// `k` comes before the bound, if there is one.
pub open spec fn below(k: Seq<u8>, bound: Option<Seq<u8>>) -> bool {
    match bound {
        Some(u) => key_lt(k, u),
        None => true,
    }
}

/// A key has the prefix `p` exactly where it does not come before `p` and comes before the
/// successor of the prefix.
pub proof fn lemma_prefix_is_range(p: Seq<u8>, k: Seq<u8>)
    ensures
        p.is_prefix_of(k) <==> key_le(p, k) && below(k, prefix_successor(p)),
    decreases p.len(),
{
    let u = prefix_successor(p);
    if p.is_prefix_of(k) {
        lemma_prefix_le(p, k);
    }
    if p.len() == 0 {
        assert(k.take(0) =~= p);
    } else if p.last() < 0xFF {
        let n = p.len() - 1;
        let s = p.drop_last().push((p.last() + 1) as u8);
        if p.is_prefix_of(k) {
            assert forall|j: int| 0 <= j < n implies k[j] == s[j] by {
                assert(p[j] == k.take(p.len() as int)[j]);
            }
            assert(p[n] == k.take(p.len() as int)[n]);
            assert(before_at(k, s, n));
        }
        if key_le(p, k) && key_lt(k, s) {
            let i = choose|i: int| before_at(k, s, i);
            if i < n {
                assert(before_at(k, p, i));
                lemma_not_after(k, p);
            } else {
                assert(i == n);
                if k.len() == n || k[n] < p[n] {
                    assert(before_at(k, p, n));
                    lemma_not_after(k, p);
                }
                assert(p =~= k.take(p.len() as int));
            }
        }
    } else {
        let q = p.drop_last();
        lemma_prefix_is_range(q, k);
        if p.is_prefix_of(k) {
            assert forall|j: int| 0 <= j < q.len() implies q[j] == k[j] by {
                assert(p[j] == k.take(p.len() as int)[j]);
            }
            assert(q =~= k.take(q.len() as int));
        }
        if key_le(p, k) && below(k, u) {
            assert(before_at(q, p, q.len() as int));
            if p != k {
                lemma_lt_transitive(q, p, k);
            }
            assert(q =~= k.take(q.len() as int));
            if p != k {
                let i = choose|i: int| before_at(p, k, i);
                assert forall|j: int| 0 <= j < q.len() implies p[j] == k[j] by {
                    assert(q[j] == k.take(q.len() as int)[j]);
                }
                assert(i == p.len());
                assert(p =~= k.take(p.len() as int));
            } else {
                assert(p =~= k.take(p.len() as int));
            }
        }
    }
}

proof fn lemma_prefix_le(p: Seq<u8>, k: Seq<u8>)
    requires
        p.is_prefix_of(k),
    ensures
        key_le(p, k),
{
    assert forall|j: int| 0 <= j < p.len() implies p[j] == k[j] by {
        assert(p[j] == k.take(p.len() as int)[j]);
    }
    if p.len() == k.len() {
        assert(p =~= k);
    } else {
        assert(before_at(p, k, p.len() as int));
    }
}

proof fn lemma_not_after(k: Seq<u8>, p: Seq<u8>)
    requires
        key_lt(k, p),
    ensures
        !key_le(p, k),
{
    lemma_lt_asymmetric(k, p);
}

/// The successor of a prefix is the smallest key behind all keys with that prefix.
pub proof fn lemma_prefix_successor_least(p: Seq<u8>, b: Seq<u8>)
    requires
        forall|k: Seq<u8>| #[trigger] p.is_prefix_of(k) ==> key_lt(k, b),
    ensures
        prefix_successor(p) is Some,
        key_le(prefix_successor(p)->Some_0, b),
{
    lemma_prefix_is_range(p, b);
    assert(p =~= p.take(p.len() as int));
    assert(p.is_prefix_of(p));
    assert(key_lt(p, b));
    if p.is_prefix_of(b) {
        assert(key_lt(b, b));
        lemma_lt_irreflexive(b);
    }
    assert(!below(b, prefix_successor(p)));
    lemma_lt_total(b, prefix_successor(p)->Some_0);
}

/// Smallest key strictly greater than every key with the given prefix, if one exists (`None` for an
/// empty or all-0xFF prefix).
pub fn prefix_upper_bound(prefix: &[u8]) -> (r: Option<Vec<u8>>)
    ensures
        match r {
            Some(u) => prefix_successor(prefix@) == Some(u@),
            None => prefix_successor(prefix@) is None,
        },
{
    let mut n: usize = prefix.len();
    assert(prefix@.take(n as int) =~= prefix@);
    while n > 0
        invariant
            n <= prefix@.len(),
            prefix_successor(prefix@) == prefix_successor(prefix@.take(n as int)),
        decreases n,
    {
        let last: u8 = prefix[n - 1];
        assert(prefix@.take(n as int).last() == last);
        assert(prefix@.take(n as int).drop_last() =~= prefix@.take(n - 1));
        if last < 0xFF {
            let mut upper = copy_bytes(vstd::slice::slice_subrange(prefix, 0, n - 1));
            upper.push(last + 1);
            assert(upper@ =~= prefix@.take(n - 1).push((last + 1) as u8));
            return Some(upper);
        }
        n -= 1;
    }
    None
}

/// Compares two keys.
pub fn compare(a: &[u8], b: &[u8]) -> (r: KeyOrder)
    ensures
        match r {
            KeyOrder::Less => key_lt(a@, b@),
            KeyOrder::Equal => a@ == b@,
            KeyOrder::Greater => key_lt(b@, a@),
        },
{
    let mut i: usize = 0;
    while i < a.len() && i < b.len()
        invariant
            i <= a.len(),
            i <= b.len(),
            forall|j: int| 0 <= j < i ==> a@[j] == b@[j],
        decreases a.len() - i,
    {
        if a[i] < b[i] {
            assert(before_at(a@, b@, i as int));
            return KeyOrder::Less;
        }
        if b[i] < a[i] {
            assert(before_at(b@, a@, i as int));
            return KeyOrder::Greater;
        }
        i += 1;
    }
    if a.len() < b.len() {
        assert(before_at(a@, b@, i as int));
        KeyOrder::Less
    } else if b.len() < a.len() {
        assert(before_at(b@, a@, i as int));
        KeyOrder::Greater
    } else {
        assert(a@ =~= b@);
        KeyOrder::Equal
    }
}

/// Whether two byte strings are equal.
pub fn same_bytes(a: &[u8], b: &[u8]) -> (r: bool)
    ensures
        r == (a@ == b@),
{
    match compare(a, b) {
        KeyOrder::Equal => true,
        KeyOrder::Less => {
            proof {
                lemma_lt_asymmetric(a@, b@);
            }
            false
        },
        KeyOrder::Greater => {
            proof {
                lemma_lt_asymmetric(b@, a@);
            }
            false
        },
    }
}

/// Copies a byte string.
pub fn copy_bytes(s: &[u8]) -> (r: Vec<u8>)
    ensures
        r@ == s@,
{
    let mut r: Vec<u8> = Vec::new();
    r.extend_from_slice(s);
    assert(r@ =~= s@);
    r
}

} // verus!
