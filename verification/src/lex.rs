//! Ranking `(key, id)` pairs by key, then by id: the order of sorting the
//! pairs themselves. The sorted order of a collection is unique, which makes
//! a ranking independent of the order in which the pairs were gathered.
use vstd::prelude::*;
use crate::rank::min_nat;

verus! {

broadcast use vstd::seq_lib::group_to_multiset_ensures;

/// A distance key and the id it belongs to.
pub type KeyId = (u64, u64);

/// `a` comes strictly before `b`: smaller key, or equal key and smaller id.
pub open spec fn lex_lt(a: KeyId, b: KeyId) -> bool {
    a.0 < b.0 || (a.0 == b.0 && a.1 < b.1)
}

/// Inserts `x` into `s` before the first element that it strictly precedes.
pub open spec fn insert_lex(s: Seq<KeyId>, x: KeyId) -> Seq<KeyId>
    decreases s.len(),
{
    if s.len() == 0 {
        seq![x]
    } else if lex_lt(x, s[0]) {
        seq![x] + s
    } else {
        seq![s[0]] + insert_lex(s.drop_first(), x)
    }
}

/// `s` sorted by `(key, id)`.
pub open spec fn sort_lex(s: Seq<KeyId>) -> Seq<KeyId>
    decreases s.len(),
{
    if s.len() == 0 {
        Seq::empty()
    } else {
        insert_lex(sort_lex(s.drop_last()), s.last())
    }
}

/// The first `k` pairs of `s` by `(key, id)`.
pub open spec fn top_lex(s: Seq<KeyId>, k: int) -> Seq<KeyId> {
    sort_lex(s).take(min_nat(k, s.len() as int))
}

/// `s` is ordered by `(key, id)`.
pub open spec fn lex_sorted(s: Seq<KeyId>) -> bool {
    forall|i: int, j: int| 0 <= i < j < s.len() ==> !lex_lt(#[trigger] s[j], #[trigger] s[i])
}

/// Where `insert_lex` puts `x`.
pub open spec fn insert_point(s: Seq<KeyId>, x: KeyId) -> int
    decreases s.len(),
{
    if s.len() == 0 {
        0
    } else if lex_lt(x, s[0]) {
        0
    } else {
        1 + insert_point(s.drop_first(), x)
    }
}

/// `insert_lex` puts `x` after every element it does not precede, before the first it does.
pub proof fn lemma_insert_point(s: Seq<KeyId>, x: KeyId)
    ensures
        0 <= insert_point(s, x) <= s.len(),
        insert_lex(s, x) == s.insert(insert_point(s, x), x),
        forall|q: int| 0 <= q < insert_point(s, x) ==> !lex_lt(x, #[trigger] s[q]),
        insert_point(s, x) < s.len() ==> lex_lt(x, s[insert_point(s, x)]),
    decreases s.len(),
{
    if s.len() == 0 {
        assert(s.insert(0, x) =~= seq![x]);
    } else if lex_lt(x, s[0]) {
        assert(s.insert(0, x) =~= seq![x] + s);
    } else {
        let t = s.drop_first();
        lemma_insert_point(t, x);
        let p = insert_point(t, x);
        assert(s.insert(p + 1, x) =~= seq![s[0]] + t.insert(p, x));
        assert forall|q: int| 0 <= q < p + 1 implies !lex_lt(x, #[trigger] s[q]) by {
            if q > 0 {
                assert(s[q] == t[q - 1]);
            }
        }
        if p + 1 < s.len() {
            assert(s[p + 1] == t[p]);
        }
    }
}

pub proof fn lemma_insert_lex_len(s: Seq<KeyId>, x: KeyId)
    ensures
        insert_lex(s, x).len() == s.len() + 1,
{
    lemma_insert_point(s, x);
}

/// Inserting into a sorted sequence keeps it sorted.
pub proof fn lemma_insert_lex_sorted(s: Seq<KeyId>, x: KeyId)
    requires
        lex_sorted(s),
    ensures
        lex_sorted(insert_lex(s, x)),
{
    lemma_insert_point(s, x);
    let p = insert_point(s, x);
    let r = insert_lex(s, x);
    assert forall|i: int, j: int| 0 <= i < j < r.len() implies !lex_lt(#[trigger] r[j], #[trigger] r[i]) by {
        if j < p {
            assert(r[i] == s[i] && r[j] == s[j]);
        } else if j == p {
            assert(r[j] == x && r[i] == s[i]);
        } else if i < p {
            assert(r[i] == s[i] && r[j] == s[j - 1]);
            assert(!lex_lt(x, s[i]));
            assert(!lex_lt(s[j - 1], s[p]));
        } else if i == p {
            assert(r[i] == x && r[j] == s[j - 1]);
            assert(!lex_lt(s[j - 1], s[p]));
        } else {
            assert(r[i] == s[i - 1] && r[j] == s[j - 1]);
        }
    }
}

/// `sort_lex` gives a sorted permutation.
pub proof fn lemma_sort_lex(s: Seq<KeyId>)
    ensures
        sort_lex(s).len() == s.len(),
        lex_sorted(sort_lex(s)),
        sort_lex(s).to_multiset() == s.to_multiset(),
    decreases s.len(),
{
    if s.len() > 0 {
        let t = sort_lex(s.drop_last());
        lemma_sort_lex(s.drop_last());
        lemma_insert_point(t, s.last());
        lemma_insert_lex_sorted(t, s.last());
        assert(s.drop_last().push(s.last()) =~= s);
    }
}

/// Two sorted sequences holding the same pairs are equal.
pub proof fn lemma_lex_sorted_unique(a: Seq<KeyId>, b: Seq<KeyId>)
    requires
        lex_sorted(a),
        lex_sorted(b),
        a.to_multiset() == b.to_multiset(),
    ensures
        a == b,
    decreases a.len(),
{
    broadcast use vstd::seq_lib::group_to_multiset_ensures;
    assert(a.len() == b.len()) by {
        a.to_multiset_ensures();
        b.to_multiset_ensures();
        assert(a.to_multiset().len() == b.to_multiset().len());
    }
    if a.len() > 0 {
        assert(a.contains(a[0]));
        assert(a.to_multiset().count(a[0]) > 0);
        assert(b.contains(a[0]));
        let j = choose|j: int| 0 <= j < b.len() && b[j] == a[0];
        assert(b.contains(b[0]));
        assert(b.to_multiset().count(b[0]) > 0);
        assert(a.contains(b[0]));
        let i = choose|i: int| 0 <= i < a.len() && a[i] == b[0];
        if j > 0 {
            assert(!lex_lt(b[j], b[0]));
        }
        if i > 0 {
            assert(!lex_lt(a[i], a[0]));
        }
        assert(a[0] == b[0]);
        let a1 = a.drop_first();
        let b1 = b.drop_first();
        assert(a =~= a1.insert(0, a[0]));
        assert(b =~= b1.insert(0, b[0]));
        assert(a1.to_multiset() =~= a.to_multiset().remove(a[0]));
        assert(b1.to_multiset() =~= b.to_multiset().remove(b[0]));
        assert(lex_sorted(a1)) by {
            assert forall|p: int, q: int| 0 <= p < q < a1.len() implies !lex_lt(#[trigger] a1[q], #[trigger] a1[p]) by {
                assert(a1[p] == a[p + 1] && a1[q] == a[q + 1]);
            }
        }
        assert(lex_sorted(b1)) by {
            assert forall|p: int, q: int| 0 <= p < q < b1.len() implies !lex_lt(#[trigger] b1[q], #[trigger] b1[p]) by {
                assert(b1[p] == b[p + 1] && b1[q] == b[q + 1]);
            }
        }
        lemma_lex_sorted_unique(a1, b1);
        assert(a =~= b);
    }
}

/// The sorted order of a collection does not depend on the order of its elements.
pub proof fn lemma_sort_lex_by_multiset(s: Seq<KeyId>, t: Seq<KeyId>)
    requires
        s.to_multiset() == t.to_multiset(),
    ensures
        sort_lex(s) == sort_lex(t),
{
    lemma_sort_lex(s);
    lemma_sort_lex(t);
    lemma_lex_sorted_unique(sort_lex(s), sort_lex(t));
}

/// Inserts the elements of `e`, in order, into `t`.
pub open spec fn insert_all(t: Seq<KeyId>, e: Seq<KeyId>) -> Seq<KeyId>
    decreases e.len(),
{
    if e.len() == 0 {
        t
    } else {
        insert_lex(insert_all(t, e.drop_last()), e.last())
    }
}

/// Sorting `a + e` is inserting the elements of `e` into the sorted `a`.
pub proof fn lemma_sort_append(a: Seq<KeyId>, e: Seq<KeyId>)
    ensures
        sort_lex(a + e) == insert_all(sort_lex(a), e),
    decreases e.len(),
{
    if e.len() == 0 {
        assert(a + e =~= a);
    } else {
        assert((a + e).drop_last() =~= a + e.drop_last());
        assert((a + e).last() == e.last());
        lemma_sort_append(a, e.drop_last());
    }
}

/// Inserting a pair whose key exceeds the `k`-th key leaves the first `k` alone.
pub proof fn lemma_insert_beyond(t: Seq<KeyId>, x: KeyId, k: int)
    requires
        lex_sorted(t),
        0 < k <= t.len(),
        x.0 > t[k - 1].0,
    ensures
        insert_lex(t, x).take(k) == t.take(k),
        lex_sorted(insert_lex(t, x)),
        insert_lex(t, x).len() == t.len() + 1,
{
    lemma_insert_point(t, x);
    lemma_insert_lex_sorted(t, x);
    let p = insert_point(t, x);
    if p < k {
        assert(!lex_lt(t[k - 1], t[p]));
        assert(lex_lt(x, t[p]));
        assert(false);
    }
    assert(insert_lex(t, x).take(k) =~= t.take(k));
}

/// Inserting pairs whose keys all exceed the `k`-th key leaves the first `k` alone.
pub proof fn lemma_insert_all_beyond(t: Seq<KeyId>, e: Seq<KeyId>, k: int)
    requires
        lex_sorted(t),
        0 < k <= t.len(),
        forall|i: int| 0 <= i < e.len() ==> (#[trigger] e[i]).0 > t[k - 1].0,
    ensures
        insert_all(t, e).take(k) == t.take(k),
        lex_sorted(insert_all(t, e)),
        insert_all(t, e).len() == t.len() + e.len(),
    decreases e.len(),
{
    if e.len() > 0 {
        assert forall|i: int| 0 <= i < e.drop_last().len() implies (#[trigger] e.drop_last()[i]).0 > t[k - 1].0 by {
            assert(e.drop_last()[i] == e[i]);
        }
        lemma_insert_all_beyond(t, e.drop_last(), k);
        let u = insert_all(t, e.drop_last());
        assert(u[k - 1] == t[k - 1]) by {
            assert(u.take(k)[k - 1] == t.take(k)[k - 1]);
        }
        assert(e.last() == e[e.len() - 1]);
        lemma_insert_beyond(u, e.last(), k);
        assert(insert_all(t, e).take(k) =~= u.take(k));
    }
}

/// Inserting never raises the `k`-th key.
pub proof fn lemma_insert_kth(t: Seq<KeyId>, x: KeyId, k: int)
    requires
        lex_sorted(t),
        0 < k <= t.len(),
    ensures
        insert_lex(t, x)[k - 1].0 <= t[k - 1].0,
        lex_sorted(insert_lex(t, x)),
        insert_lex(t, x).len() == t.len() + 1,
{
    lemma_insert_point(t, x);
    lemma_insert_lex_sorted(t, x);
    let p = insert_point(t, x);
    let r = insert_lex(t, x);
    if p < k - 1 {
        assert(r[k - 1] == t[k - 2]);
        assert(!lex_lt(t[k - 1], t[k - 2]));
    } else if p == k - 1 {
        assert(r[k - 1] == x);
    } else {
        assert(r[k - 1] == t[k - 1]);
    }
}

/// Inserting several pairs never raises the `k`-th key.
pub proof fn lemma_insert_all_kth(t: Seq<KeyId>, e: Seq<KeyId>, k: int)
    requires
        lex_sorted(t),
        0 < k <= t.len(),
    ensures
        insert_all(t, e)[k - 1].0 <= t[k - 1].0,
        lex_sorted(insert_all(t, e)),
        insert_all(t, e).len() == t.len() + e.len(),
    decreases e.len(),
{
    if e.len() > 0 {
        lemma_insert_all_kth(t, e.drop_last(), k);
        lemma_insert_kth(insert_all(t, e.drop_last()), e.last(), k);
    }
}

/// Taking a prefix before inserting does not change the kept prefix.
proof fn lemma_insert_lex_take(s: Seq<KeyId>, x: KeyId, m: int)
    requires
        0 <= m <= s.len(),
    ensures
        insert_lex(s, x).take(m) == insert_lex(s.take(m), x).take(m),
{
    lemma_insert_point(s, x);
    lemma_insert_point(s.take(m), x);
    let p = insert_point(s, x);
    let q = insert_point(s.take(m), x);
    // Both scans agree on the first `m` elements.
    if p < m {
        if q < p {
            assert(s.take(m)[q] == s[q]);
        } else if q > p {
            assert(s.take(m)[p] == s[p]);
        }
        assert(p == q);
    } else {
        if q < m {
            assert(s.take(m)[q] == s[q]);
        }
        assert(q == m);
    }
    assert(insert_lex(s, x).take(m) =~= insert_lex(s.take(m), x).take(m));
}

proof fn lemma_top_lex_step(s: Seq<KeyId>, k: int, i: int)
    requires
        0 <= i < s.len(),
        k >= 0,
    ensures
        top_lex(s.take(i + 1), k) == insert_lex(top_lex(s.take(i), k), s[i]).take(min_nat(k, i + 1)),
{
    let p = s.take(i + 1);
    assert(p.drop_last() =~= s.take(i));
    assert(p.last() == s[i]);
    let t = sort_lex(s.take(i));
    lemma_sort_lex(s.take(i));
    let m = min_nat(k, i);
    let m1 = min_nat(k, i + 1);
    lemma_insert_lex_len(t, s[i]);
    lemma_insert_lex_len(t.take(m), s[i]);
    if k <= i {
        lemma_insert_lex_take(t, s[i], m);
    } else {
        assert(t.take(m) =~= t);
        assert(insert_lex(t, s[i]).take(m1) =~= insert_lex(t, s[i]));
    }
}

/// The first `k` pairs of `items` by `(key, id)`.
pub fn lex_select(items: &Vec<KeyId>, k: usize) -> (r: Vec<KeyId>)
    ensures
        r@ == top_lex(items@, k as int),
{
    let mut buf: Vec<KeyId> = Vec::new();
    let n = items.len();
    let mut i: usize = 0;
    assert(items@.take(0) =~= Seq::<KeyId>::empty());
    while i < n
        invariant
            n == items.len(),
            i <= n,
            buf@ == top_lex(items@.take(i as int), k as int),
        decreases n - i,
    {
        proof {
            lemma_sort_lex(items@.take(i as int));
        }
        let x = items[i];
        let mut p: usize = 0;
        while p < buf.len() && !(x.0 < buf[p].0 || (x.0 == buf[p].0 && x.1 < buf[p].1))
            invariant
                p <= buf.len(),
                forall|q: int| 0 <= q < p ==> !lex_lt(x, #[trigger] buf@[q]),
            decreases buf.len() - p,
        {
            p = p + 1;
        }
        proof {
            lemma_insert_point(buf@, x);
            let ip = insert_point(buf@, x);
            if ip < p {
                assert(lex_lt(x, buf@[ip]));
            } else if p < ip {
                assert(!lex_lt(x, buf@[p as int]));
            }
            lemma_top_lex_step(items@, k as int, i as int);
            lemma_insert_lex_len(buf@, x);
        }
        let ghost before = buf@;
        if p < k {
            buf.insert(p, x);
            if buf.len() > k {
                buf.pop();
            }
            assert(buf@ =~= insert_lex(before, x).take(min_nat(k as int, i + 1)));
        } else {
            assert(buf@ =~= insert_lex(before, x).take(min_nat(k as int, i + 1)));
        }
        i = i + 1;
    }
    assert(items@.take(n as int) =~= items@);
    buf
}

} // verus!
