//! Stable top-k selection over `(id, key)` pairs.
use vstd::prelude::*;

verus! {

/// A scored item: an identifier and the order key of its score.
pub type Scored = (usize, u64);

/// `a` comes strictly before `b` in the ranking order.
pub open spec fn precedes(a: u64, b: u64, descending: bool) -> bool {
    if descending {
        a > b
    } else {
        a < b
    }
}

/// Inserts `x` into `s` right after every element that `x` does not strictly precede.
pub open spec fn insert_ranked(s: Seq<Scored>, x: Scored, descending: bool) -> Seq<Scored>
    decreases s.len(),
{
    if s.len() == 0 {
        seq![x]
    } else if precedes(x.1, s[0].1, descending) {
        seq![x] + s
    } else {
        seq![s[0]] + insert_ranked(s.drop_first(), x, descending)
    }
}

/// The stable sort of `s` by key (ascending, or descending when `descending`).
pub open spec fn sort_ranked(s: Seq<Scored>, descending: bool) -> Seq<Scored>
    decreases s.len(),
{
    if s.len() == 0 {
        Seq::empty()
    } else {
        insert_ranked(sort_ranked(s.drop_last(), descending), s.last(), descending)
    }
}

pub open spec fn min_nat(a: int, b: int) -> int {
    if a < b {
        a
    } else {
        b
    }
}

/// The first `k` items of the stable sort of `s`.
pub open spec fn top_k_spec(s: Seq<Scored>, k: int, descending: bool) -> Seq<Scored> {
    sort_ranked(s, descending).take(min_nat(k, s.len() as int))
}

/// `s` is ordered by key (non-decreasing, or non-increasing when `descending`).
pub open spec fn is_ranked(s: Seq<Scored>, descending: bool) -> bool {
    forall|i: int, j: int| 0 <= i < j < s.len() ==> !precedes(#[trigger] s[j].1, #[trigger] s[i].1, descending)
}

proof fn lemma_insert_ranked_len(s: Seq<Scored>, x: Scored, d: bool)
    ensures
        insert_ranked(s, x, d).len() == s.len() + 1,
    decreases s.len(),
{
    if s.len() > 0 && !precedes(x.1, s[0].1, d) {
        lemma_insert_ranked_len(s.drop_first(), x, d);
    }
}

pub proof fn lemma_sort_ranked_len(s: Seq<Scored>, d: bool)
    ensures
        sort_ranked(s, d).len() == s.len(),
    decreases s.len(),
{
    if s.len() > 0 {
        lemma_sort_ranked_len(s.drop_last(), d);
        lemma_insert_ranked_len(sort_ranked(s.drop_last(), d), s.last(), d);
    }
}

/// Inserting at the first position whose element `x` precedes is `insert_ranked`.
proof fn lemma_insert_at(s: Seq<Scored>, x: Scored, d: bool, p: int)
    requires
        0 <= p <= s.len(),
        forall|q: int| 0 <= q < p ==> !precedes(x.1, #[trigger] s[q].1, d),
        p < s.len() ==> precedes(x.1, s[p].1, d),
    ensures
        insert_ranked(s, x, d) == s.insert(p, x),
    decreases p,
{
    if s.len() == 0 {
        assert(s.insert(p, x) =~= seq![x]);
    } else if p == 0 {
        assert(s.insert(p, x) =~= seq![x] + s);
    } else {
        let t = s.drop_first();
        assert forall|q: int| 0 <= q < p - 1 implies !precedes(x.1, #[trigger] t[q].1, d) by {
            assert(t[q] == s[q + 1]);
        }
        lemma_insert_at(t, x, d, p - 1);
        assert(s.insert(p, x) =~= seq![s[0]] + t.insert(p - 1, x));
    }
}

/// Taking a prefix before inserting does not change the kept prefix.
proof fn lemma_insert_take(s: Seq<Scored>, x: Scored, d: bool, m: int)
    requires
        0 <= m <= s.len(),
    ensures
        insert_ranked(s, x, d).take(m) == insert_ranked(s.take(m), x, d).take(m),
    decreases m,
{
    lemma_insert_ranked_len(s, x, d);
    lemma_insert_ranked_len(s.take(m), x, d);
    if m == 0 {
        assert(insert_ranked(s, x, d).take(0) =~= Seq::<Scored>::empty());
        assert(insert_ranked(s.take(0), x, d).take(0) =~= Seq::<Scored>::empty());
    } else if precedes(x.1, s[0].1, d) {
        assert(s.take(m)[0] == s[0]);
        assert((seq![x] + s).take(m) =~= (seq![x] + s.take(m)).take(m));
    } else {
        assert(s.take(m)[0] == s[0]);
        assert(s.take(m).drop_first() =~= s.drop_first().take(m - 1));
        lemma_insert_take(s.drop_first(), x, d, m - 1);
        let a = insert_ranked(s.drop_first(), x, d);
        let b = insert_ranked(s.drop_first().take(m - 1), x, d);
        lemma_insert_ranked_len(s.drop_first(), x, d);
        lemma_insert_ranked_len(s.drop_first().take(m - 1), x, d);
        assert((seq![s[0]] + a).take(m) =~= seq![s[0]] + a.take(m - 1));
        assert((seq![s[0]] + b).take(m) =~= seq![s[0]] + b.take(m - 1));
    }
}

proof fn lemma_top_k_step(s: Seq<Scored>, k: int, d: bool, i: int)
    requires
        0 <= i < s.len(),
        k >= 0,
    ensures
        top_k_spec(s.take(i + 1), k, d) == insert_ranked(top_k_spec(s.take(i), k, d), s[i], d).take(
            min_nat(k, i + 1),
        ),
{
    let p = s.take(i + 1);
    assert(p.drop_last() =~= s.take(i));
    assert(p.last() == s[i]);
    let t = sort_ranked(s.take(i), d);
    lemma_sort_ranked_len(s.take(i), d);
    let m = min_nat(k, i);
    let m1 = min_nat(k, i + 1);
    lemma_insert_ranked_len(t, s[i], d);
    lemma_insert_ranked_len(t.take(m), s[i], d);
    if k <= i {
        // m == m1 == k
        lemma_insert_take(t, s[i], d, m);
    } else {
        assert(t.take(m) =~= t);
        assert(insert_ranked(t, s[i], d).take(m1) =~= insert_ranked(t, s[i], d));
    }
}

proof fn lemma_insert_ranked_ranked(s: Seq<Scored>, x: Scored, d: bool)
    requires
        is_ranked(s, d),
    ensures
        is_ranked(insert_ranked(s, x, d), d),
        forall|y: Scored| insert_ranked(s, x, d).contains(y) ==> y == x || s.contains(y),
    decreases s.len(),
{
    lemma_insert_ranked_len(s, x, d);
    let r = insert_ranked(s, x, d);
    if s.len() == 0 {
    } else if precedes(x.1, s[0].1, d) {
        assert forall|i: int, j: int| 0 <= i < j < r.len() implies !precedes(#[trigger] r[j].1, #[trigger] r[i].1, d) by {
            if i > 0 {
                assert(r[i] == s[i - 1] && r[j] == s[j - 1]);
            } else {
                assert(r[j] == s[j - 1]);
                assert(!precedes(s[j - 1].1, s[0].1, d));
            }
        }
        assert forall|y: Scored| r.contains(y) implies y == x || s.contains(y) by {
            let i = choose|i: int| 0 <= i < r.len() && r[i] == y;
            if i > 0 {
                assert(s[i - 1] == y);
            }
        }
    } else {
        let t = s.drop_first();
        assert(is_ranked(t, d)) by {
            assert forall|i: int, j: int| 0 <= i < j < t.len() implies !precedes(#[trigger] t[j].1, #[trigger] t[i].1, d) by {
                assert(t[i] == s[i + 1] && t[j] == s[j + 1]);
            }
        }
        lemma_insert_ranked_ranked(t, x, d);
        let u = insert_ranked(t, x, d);
        assert(r == seq![s[0]] + u);
        assert forall|j: int| 0 <= j < u.len() implies !precedes(#[trigger] u[j].1, s[0].1, d) by {
            assert(u.contains(u[j]));
            if u[j] != x {
                assert(t.contains(u[j]));
                let q = choose|q: int| 0 <= q < t.len() && t[q] == u[j];
                assert(s[q + 1] == u[j]);
            }
        }
        assert forall|i: int, j: int| 0 <= i < j < r.len() implies !precedes(#[trigger] r[j].1, #[trigger] r[i].1, d) by {
            assert(r[j] == u[j - 1]);
            if i > 0 {
                assert(r[i] == u[i - 1]);
            }
        }
        assert forall|y: Scored| r.contains(y) implies y == x || s.contains(y) by {
            let i = choose|i: int| 0 <= i < r.len() && r[i] == y;
            if i > 0 {
                assert(u[i - 1] == y);
                assert(u.contains(y));
                if y != x {
                    assert(t.contains(y));
                    let q = choose|q: int| 0 <= q < t.len() && t[q] == y;
                    assert(s[q + 1] == y);
                }
            }
        }
    }
}

proof fn lemma_insert_ranked_multiset(s: Seq<Scored>, x: Scored, d: bool)
    ensures
        insert_ranked(s, x, d).to_multiset() == s.to_multiset().insert(x),
    decreases s.len(),
{
    broadcast use vstd::seq_lib::group_to_multiset_ensures;
    if s.len() == 0 {
        assert(seq![x] =~= Seq::<Scored>::empty().push(x));
    } else if precedes(x.1, s[0].1, d) {
        assert(seq![x] + s =~= s.insert(0, x));
        s.to_multiset_ensures();
    } else {
        let t = s.drop_first();
        lemma_insert_ranked_multiset(t, x, d);
        let u = insert_ranked(t, x, d);
        vstd::seq_lib::lemma_multiset_commutative(seq![s[0]], u);
        vstd::seq_lib::lemma_multiset_commutative(seq![s[0]], t);
        assert(seq![s[0]] + t =~= s);
        assert(seq![s[0]] =~= Seq::<Scored>::empty().push(s[0]));
    }
}

pub proof fn lemma_sort_ranked_properties(s: Seq<Scored>, d: bool)
    ensures
        sort_ranked(s, d).len() == s.len(),
        is_ranked(sort_ranked(s, d), d),
        sort_ranked(s, d).to_multiset() == s.to_multiset(),
    decreases s.len(),
{
    broadcast use vstd::seq_lib::group_to_multiset_ensures;
    lemma_sort_ranked_len(s, d);
    if s.len() > 0 {
        lemma_sort_ranked_properties(s.drop_last(), d);
        lemma_insert_ranked_ranked(sort_ranked(s.drop_last(), d), s.last(), d);
        lemma_insert_ranked_multiset(sort_ranked(s.drop_last(), d), s.last(), d);
        assert(s.drop_last().push(s.last()) =~= s);
    }
}

/// What every top-k selection gives: at most `k` items, ranked, each taken
/// from the input no more often than it occurs there, and no item left out
/// comes strictly before the last one kept.
pub proof fn lemma_top_k_properties(s: Seq<Scored>, k: int, d: bool)
    requires
        k >= 0,
    ensures
        top_k_spec(s, k, d).len() == min_nat(k, s.len() as int),
        is_ranked(top_k_spec(s, k, d), d),
        top_k_spec(s, k, d).to_multiset().subset_of(s.to_multiset()),
        forall|y: Scored|
            #![trigger (s.to_multiset().sub(top_k_spec(s, k, d).to_multiset())).count(y)]
            (s.to_multiset().sub(top_k_spec(s, k, d).to_multiset())).count(y) > 0 && top_k_spec(s, k, d).len() > 0
                ==> !precedes(y.1, top_k_spec(s, k, d).last().1, d),
{
    broadcast use vstd::seq_lib::group_to_multiset_ensures;
    lemma_sort_ranked_properties(s, d);
    let t = sort_ranked(s, d);
    let m = min_nat(k, s.len() as int);
    let r = t.take(m);
    let rest = t.skip(m);
    assert(t =~= r + rest);
    vstd::seq_lib::lemma_multiset_commutative(r, rest);
    assert forall|y: Scored|
        #![trigger (s.to_multiset().sub(r.to_multiset())).count(y)]
        (s.to_multiset().sub(r.to_multiset())).count(y) > 0 && r.len() > 0 implies !precedes(y.1, r.last().1, d) by {
        assert(rest.to_multiset().count(y) > 0);
        assert(rest.contains(y));
        let q = choose|q: int| 0 <= q < rest.len() && rest[q] == y;
        assert(t[m + q] == y);
        assert(t[m - 1] == r.last());
    }
}

/// Every selected item occurs in the input.
pub proof fn lemma_top_k_from_input(s: Seq<Scored>, k: int, d: bool)
    requires
        k >= 0,
    ensures
        forall|j: int| 0 <= j < top_k_spec(s, k, d).len() ==> s.contains(#[trigger] top_k_spec(s, k, d)[j]),
{
    broadcast use vstd::seq_lib::group_to_multiset_ensures;
    lemma_top_k_properties(s, k, d);
    let r = top_k_spec(s, k, d);
    assert forall|j: int| 0 <= j < r.len() implies s.contains(#[trigger] r[j]) by {
        assert(r.to_multiset().count(r[j]) > 0);
        assert(s.to_multiset().count(r[j]) > 0);
    }
}

/// The keys of a scored sequence, in order.
pub open spec fn keys_of(s: Seq<Scored>) -> Seq<u64> {
    s.map_values(|e: Scored| e.1)
}

/// A sequence without repeats holds each of its values once.
pub proof fn lemma_count_distinct(s: Seq<usize>, x: usize)
    requires
        forall|i: int, j: int| 0 <= i < j < s.len() ==> s[i] != s[j],
    ensures
        s.to_multiset().count(x) == if s.contains(x) {
            1nat
        } else {
            0nat
        },
    decreases s.len(),
{
    broadcast use vstd::seq_lib::group_to_multiset_ensures;
    if s.len() > 0 {
        let s1 = s.drop_last();
        lemma_count_distinct(s1, x);
        assert(s =~= s1.push(s.last()));
        if s.last() == x {
            assert(!s1.contains(x));
        } else {
            if s.contains(x) {
                let i = choose|i: int| 0 <= i < s.len() && s[i] == x;
                assert(s1[i] == x);
            }
        }
    }
}

/// Equal collections stay equal under a map.
pub proof fn lemma_map_multiset<A, B>(a: Seq<A>, b: Seq<A>, f: spec_fn(A) -> B)
    requires
        a.to_multiset() == b.to_multiset(),
    ensures
        a.map_values(f).to_multiset() == b.map_values(f).to_multiset(),
    decreases a.len(),
{
    broadcast use vstd::seq_lib::group_to_multiset_ensures;
    assert(a.len() == b.len()) by {
        a.to_multiset_ensures();
        b.to_multiset_ensures();
    }
    if a.len() == 0 {
        assert(a.map_values(f) =~= Seq::<B>::empty());
        assert(b.map_values(f) =~= Seq::<B>::empty());
    } else {
        let x = a[0];
        assert(a.contains(x));
        assert(b.to_multiset().count(x) > 0);
        let j = choose|j: int| 0 <= j < b.len() && b[j] == x;
        let a1 = a.drop_first();
        let b1 = b.remove(j);
        assert(a =~= a1.insert(0, x));
        assert(a1.to_multiset() =~= a.to_multiset().remove(x));
        assert(b1.to_multiset() == b.to_multiset().remove(x));
        lemma_map_multiset(a1, b1, f);
        assert(a.map_values(f) =~= a1.map_values(f).insert(0, f(x)));
        assert(b.map_values(f) =~= b1.map_values(f).insert(j, f(x)));
    }
}

/// `s` is ordered by key (non-decreasing, or non-increasing when `descending`).
pub open spec fn keys_ranked(s: Seq<u64>, descending: bool) -> bool {
    forall|i: int, j: int| 0 <= i < j < s.len() ==> !precedes(#[trigger] s[j], #[trigger] s[i], descending)
}

/// Two ordered key sequences holding the same keys are equal.
pub proof fn lemma_keys_unique(a: Seq<u64>, b: Seq<u64>, d: bool)
    requires
        keys_ranked(a, d),
        keys_ranked(b, d),
        a.to_multiset() == b.to_multiset(),
    ensures
        a == b,
    decreases a.len(),
{
    broadcast use vstd::seq_lib::group_to_multiset_ensures;
    assert(a.len() == b.len()) by {
        a.to_multiset_ensures();
        b.to_multiset_ensures();
    }
    if a.len() > 0 {
        assert(a.contains(a[0]));
        assert(b.to_multiset().count(a[0]) > 0);
        let j = choose|j: int| 0 <= j < b.len() && b[j] == a[0];
        assert(b.contains(b[0]));
        assert(a.to_multiset().count(b[0]) > 0);
        let i = choose|i: int| 0 <= i < a.len() && a[i] == b[0];
        if j > 0 {
            assert(!precedes(b[j], b[0], d));
        }
        if i > 0 {
            assert(!precedes(a[i], a[0], d));
        }
        assert(a[0] == b[0]);
        let a1 = a.drop_first();
        let b1 = b.drop_first();
        assert(a =~= a1.insert(0, a[0]));
        assert(b =~= b1.insert(0, b[0]));
        assert(a1.to_multiset() =~= a.to_multiset().remove(a[0]));
        assert(b1.to_multiset() =~= b.to_multiset().remove(b[0]));
        assert(keys_ranked(a1, d)) by {
            assert forall|p: int, q: int| 0 <= p < q < a1.len() implies !precedes(#[trigger] a1[q], #[trigger] a1[p], d) by {
                assert(a1[p] == a[p + 1] && a1[q] == a[q + 1]);
            }
        }
        assert(keys_ranked(b1, d)) by {
            assert forall|p: int, q: int| 0 <= p < q < b1.len() implies !precedes(#[trigger] b1[q], #[trigger] b1[p], d) by {
                assert(b1[p] == b[p + 1] && b1[q] == b[q + 1]);
            }
        }
        lemma_keys_unique(a1, b1, d);
        assert(a =~= b);
    }
}

/// The keys a top-k selection returns depend only on the keys it is given,
/// not on their order nor on the ids they come with.
pub proof fn lemma_top_k_keys_by_multiset(s: Seq<Scored>, t: Seq<Scored>, k: int, d: bool)
    requires
        k >= 0,
        keys_of(s).to_multiset() == keys_of(t).to_multiset(),
    ensures
        keys_of(top_k_spec(s, k, d)) == keys_of(top_k_spec(t, k, d)),
{
    broadcast use vstd::seq_lib::group_to_multiset_ensures;
    lemma_sort_ranked_properties(s, d);
    lemma_sort_ranked_properties(t, d);
    let ss = sort_ranked(s, d);
    let st = sort_ranked(t, d);
    lemma_map_multiset(ss, s, |e: Scored| e.1);
    lemma_map_multiset(st, t, |e: Scored| e.1);
    assert(keys_ranked(keys_of(ss), d)) by {
        assert forall|i: int, j: int| 0 <= i < j < keys_of(ss).len() implies !precedes(#[trigger] keys_of(ss)[j], #[trigger] keys_of(ss)[i], d) by {
            assert(!precedes(ss[j].1, ss[i].1, d));
        }
    }
    assert(keys_ranked(keys_of(st), d)) by {
        assert forall|i: int, j: int| 0 <= i < j < keys_of(st).len() implies !precedes(#[trigger] keys_of(st)[j], #[trigger] keys_of(st)[i], d) by {
            assert(!precedes(st[j].1, st[i].1, d));
        }
    }
    lemma_keys_unique(keys_of(ss), keys_of(st), d);
    assert(s.len() == t.len()) by {
        keys_of(s).to_multiset_ensures();
        keys_of(t).to_multiset_ensures();
    }
    let m = min_nat(k, s.len() as int);
    assert(keys_of(top_k_spec(s, k, d)) =~= keys_of(ss).take(m));
    assert(keys_of(top_k_spec(t, k, d)) =~= keys_of(st).take(m));
}

/// The first position among `0..n` with the smallest key of `dist`, among
/// keys below `bound`; `0` when no key is below `bound`.
pub fn nearest_below<F: Fn(usize) -> u64>(dist: &F, n: usize, bound: u64) -> (r: usize)
    requires
        crate::oracle::is_oracle(*dist, n as int),
    ensures
        (forall|i: usize| i < n ==> crate::oracle::key_of(*dist, i) >= bound) ==> r == 0,
        (exists|i: usize| i < n && crate::oracle::key_of(*dist, i) < bound) ==> {
            &&& r < n
            &&& crate::oracle::key_of(*dist, r) < bound
            &&& forall|i: usize| i < n ==> crate::oracle::key_of(*dist, r) <= crate::oracle::key_of(*dist, i)
            &&& forall|i: usize| i < r ==> crate::oracle::key_of(*dist, i) > crate::oracle::key_of(*dist, r)
        },
{
    let mut best: u64 = bound;
    let mut idx: usize = 0;
    let mut i: usize = 0;
    while i < n
        invariant
            i <= n,
            crate::oracle::is_oracle(*dist, n as int),
            idx <= i,
            best <= bound,
            (forall|j: usize| j < i ==> crate::oracle::key_of(*dist, j) >= bound) ==> idx == 0 && best == bound,
            (exists|j: usize| j < i && crate::oracle::key_of(*dist, j) < bound) ==> {
                &&& idx < i
                &&& best == crate::oracle::key_of(*dist, idx)
                &&& best < bound
            },
            forall|j: usize| j < i ==> best <= crate::oracle::key_of(*dist, j),
            forall|j: usize| j < idx ==> crate::oracle::key_of(*dist, j) > best,
        decreases n - i,
    {
        let d = crate::oracle::ask(dist, i, Ghost(n as int));
        if d < best {
            best = d;
            idx = i;
        }
        i = i + 1;
    }
    idx
}

fn precedes_key(a: u64, b: u64, descending: bool) -> (r: bool)
    ensures
        r == precedes(a, b, descending),
{
    if descending {
        a > b
    } else {
        a < b
    }
}

/// The first `k` items of `items` in stable key order.
pub fn select_top_k(items: &Vec<Scored>, k: usize, descending: bool) -> (r: Vec<Scored>)
    ensures
        r@ == top_k_spec(items@, k as int, descending),
{
    let mut buf: Vec<Scored> = Vec::new();
    let n = items.len();
    let mut i: usize = 0;
    assert(items@.take(0) =~= Seq::<Scored>::empty());
    while i < n
        invariant
            n == items.len(),
            i <= n,
            buf@ == top_k_spec(items@.take(i as int), k as int, descending),
        decreases n - i,
    {
        proof {
            lemma_sort_ranked_len(items@.take(i as int), descending);
        }
        let x = items[i];
        let mut p: usize = 0;
        while p < buf.len() && !precedes_key(x.1, buf[p].1, descending)
            invariant
                p <= buf.len(),
                forall|q: int| 0 <= q < p ==> !precedes(x.1, #[trigger] buf@[q].1, descending),
            decreases buf.len() - p,
        {
            p = p + 1;
        }
        proof {
            lemma_insert_at(buf@, x, descending, p as int);
            lemma_top_k_step(items@, k as int, descending, i as int);
            lemma_insert_ranked_len(buf@, x, descending);
        }
        let ghost before = buf@;
        if p < k {
            buf.insert(p, x);
            if buf.len() > k {
                buf.pop();
            }
            assert(buf@ =~= insert_ranked(before, x, descending).take(min_nat(k as int, i + 1)));
        } else {
            assert(buf@ =~= insert_ranked(before, x, descending).take(min_nat(k as int, i + 1)));
        }
        i = i + 1;
    }
    assert(items@.take(n as int) =~= items@);
    buf
}

/// The first `k` items of `items` by ascending key; among equal keys the earlier item comes first.
pub fn top_k_ascending(items: &Vec<Scored>, k: usize) -> (r: Vec<Scored>)
    ensures
        r@ == top_k_spec(items@, k as int, false),
{
    select_top_k(items, k, false)
}

/// The first `k` items of `items` by descending key; among equal keys the earlier item comes first.
pub fn top_k_descending(items: &Vec<Scored>, k: usize) -> (r: Vec<Scored>)
    ensures
        r@ == top_k_spec(items@, k as int, true),
{
    select_top_k(items, k, true)
}


/// Two places of `s` with different items and the same key make that key
/// count at least twice among the keys of `s`.
proof fn lemma_key_count_two(s: Seq<Scored>, p: int, q: int)
    requires
        0 <= p < s.len(),
        0 <= q < s.len(),
        p != q,
        s[p].1 == s[q].1,
    ensures
        keys_of(s).to_multiset().count(s[p].1) >= 2,
{
    broadcast use vstd::seq_lib::group_to_multiset_ensures;
    let ks = keys_of(s);
    let r = ks.remove(q);
    let pp = if p < q { p } else { p - 1 };
    assert(r[pp] == ks[p]);
    assert(r.contains(ks[p]));
    assert(r.to_multiset() == ks.to_multiset().remove(ks[q]));
    assert(r.to_multiset().count(ks[p]) > 0);
}

/// Top-k selections of two inputs holding the same `(id, key)` items return
/// the same keys, and the same item at every place whose key no other input
/// item has.
pub proof fn lemma_top_k_same_items(s: Seq<Scored>, t: Seq<Scored>, k: int, d: bool)
    requires
        k >= 0,
        s.to_multiset() == t.to_multiset(),
    ensures
        keys_of(top_k_spec(s, k, d)) == keys_of(top_k_spec(t, k, d)),
        forall|i: int|
            0 <= i < top_k_spec(t, k, d).len() && keys_of(t).to_multiset().count(#[trigger] top_k_spec(t, k, d)[i].1) == 1
                ==> top_k_spec(s, k, d)[i] == top_k_spec(t, k, d)[i],
{
    broadcast use vstd::seq_lib::group_to_multiset_ensures;
    lemma_map_multiset(s, t, |e: Scored| e.1);
    lemma_top_k_keys_by_multiset(s, t, k, d);
    lemma_top_k_from_input(s, k, d);
    lemma_top_k_from_input(t, k, d);
    let a = top_k_spec(s, k, d);
    let b = top_k_spec(t, k, d);
    assert(s.len() == t.len()) by {
        s.to_multiset_ensures();
        t.to_multiset_ensures();
    }
    lemma_top_k_properties(s, k, d);
    lemma_top_k_properties(t, k, d);
    assert forall|i: int|
        0 <= i < b.len() && keys_of(t).to_multiset().count(#[trigger] b[i].1) == 1 implies a[i] == b[i] by {
        assert(keys_of(a)[i] == keys_of(b)[i]);
        assert(t.contains(a[i])) by {
            assert(s.contains(a[i]));
            assert(s.to_multiset().count(a[i]) > 0);
        }
        assert(t.contains(b[i]));
        if a[i] != b[i] {
            let p = choose|p: int| 0 <= p < t.len() && t[p] == a[i];
            let q = choose|q: int| 0 <= q < t.len() && t[q] == b[i];
            lemma_key_count_two(t, p, q);
        }
    }
}


/// Renames the id of an item, keeping its key.
pub open spec fn relabel_item(f: spec_fn(usize) -> usize) -> spec_fn(Scored) -> Scored {
    |e: Scored| (f(e.0), e.1)
}

proof fn lemma_insert_relabel(s: Seq<Scored>, x: Scored, d: bool, f: spec_fn(usize) -> usize)
    ensures
        insert_ranked(s.map_values(relabel_item(f)), relabel_item(f)(x), d) == insert_ranked(s, x, d).map_values(relabel_item(f)),
    decreases s.len(),
{
    let rl = relabel_item(f);
    if s.len() == 0 {
        assert(insert_ranked(s, x, d).map_values(rl) =~= seq![rl(x)]);
    } else if precedes(x.1, s[0].1, d) {
        assert((seq![x] + s).map_values(rl) =~= seq![rl(x)] + s.map_values(rl));
    } else {
        lemma_insert_relabel(s.drop_first(), x, d, f);
        assert(s.map_values(rl).drop_first() =~= s.drop_first().map_values(rl));
        assert((seq![s[0]] + insert_ranked(s.drop_first(), x, d)).map_values(rl)
            =~= seq![rl(s[0])] + insert_ranked(s.drop_first(), x, d).map_values(rl));
    }
}

/// Renaming ids commutes with the stable sort, which looks at keys only.
pub proof fn lemma_sort_relabel(s: Seq<Scored>, d: bool, f: spec_fn(usize) -> usize)
    ensures
        sort_ranked(s.map_values(relabel_item(f)), d) == sort_ranked(s, d).map_values(relabel_item(f)),
    decreases s.len(),
{
    let rl = relabel_item(f);
    if s.len() == 0 {
        assert(s.map_values(rl) =~= Seq::<Scored>::empty());
        assert(sort_ranked(s, d).map_values(rl) =~= Seq::<Scored>::empty());
    } else {
        lemma_sort_relabel(s.drop_last(), d, f);
        assert(s.map_values(rl).drop_last() =~= s.drop_last().map_values(rl));
        lemma_insert_relabel(sort_ranked(s.drop_last(), d), s.last(), d, f);
    }
}

/// Renaming ids commutes with top-k selection.
pub proof fn lemma_top_k_relabel(s: Seq<Scored>, k: int, d: bool, f: spec_fn(usize) -> usize)
    requires
        k >= 0,
    ensures
        top_k_spec(s.map_values(relabel_item(f)), k, d) == top_k_spec(s, k, d).map_values(relabel_item(f)),
{
    lemma_sort_relabel(s, d, f);
    lemma_sort_ranked_len(s, d);
    let m = min_nat(k, s.len() as int);
    assert(sort_ranked(s, d).map_values(relabel_item(f)).take(m) =~= sort_ranked(s, d).take(m).map_values(relabel_item(f)));
}

/// Two places of a sequence holding the same value make it count twice.
pub proof fn lemma_count_two(s: Seq<usize>, i: int, j: int)
    requires
        0 <= i < j < s.len(),
        s[i] == s[j],
    ensures
        s.to_multiset().count(s[i]) >= 2,
{
    broadcast use vstd::seq_lib::group_to_multiset_ensures;
    let r = s.remove(j);
    assert(r[i] == s[i]);
    assert(r.contains(s[i]));
    assert(r.to_multiset() == s.to_multiset().remove(s[j]));
    assert(r.to_multiset().count(s[i]) > 0);
}

/// Selecting the top `k` of items with distinct ids gives items with distinct ids.
pub proof fn lemma_top_k_ids_distinct(s: Seq<Scored>, k: int, d: bool)
    requires
        k >= 0,
        forall|a: int, b: int| 0 <= a < b < s.len() ==> s[a].0 != s[b].0,
    ensures
        forall|a: int, b: int| 0 <= a < b < top_k_spec(s, k, d).len() ==> top_k_spec(s, k, d)[a].0 != top_k_spec(s, k, d)[b].0,
{
    broadcast use vstd::seq_lib::group_to_multiset_ensures;
    lemma_sort_ranked_properties(s, d);
    let t = sort_ranked(s, d);
    let idf = |e: Scored| e.0;
    lemma_map_multiset(t, s, idf);
    let it = t.map_values(idf);
    let is = s.map_values(idf);
    assert forall|a: int, b: int| 0 <= a < b < is.len() implies is[a] != is[b] by {
        assert(is[a] == s[a].0 && is[b] == s[b].0);
    }
    let top = top_k_spec(s, k, d);
    assert forall|a: int, b: int| 0 <= a < b < top.len() implies top[a].0 != top[b].0 by {
        assert(top[a] == t[a] && top[b] == t[b]);
        if top[a].0 == top[b].0 {
            assert(it[a] == it[b]);
            lemma_count_two(it, a, b);
            lemma_count_distinct(is, it[a]);
        }
    }
}

} // verus!
