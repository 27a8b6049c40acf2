//! RaBitQ 1-bit codes: bit packing, Hamming distance, and the candidate
//! logic of the flat and IVF bit stores (scan, deduplicate, rescore).
use vstd::prelude::*;
use vstd::arithmetic::power2::{pow2, lemma_pow2_unfold, lemma_pow2_pos};
use crate::oracle::{is_oracle, key_of, score_positions, scored_positions};
use crate::rank::{Scored, keys_of, lemma_count_distinct, lemma_count_two, lemma_top_k_properties, lemma_top_k_relabel, lemma_top_k_same_items, relabel_item, lemma_map_multiset, lemma_sort_ranked_properties, lemma_top_k_from_input, lemma_top_k_keys_by_multiset, min_nat, sort_ranked, top_k_ascending, top_k_spec};

verus! {

/// Bit `j` of `w`.
pub open spec fn bit(w: u64, j: int) -> bool {
    (w >> (j as u64)) & 1 == 1
}

/// `words` packs `pos`: bit `i` (word `i / 64`, place `i % 64`) is set exactly
/// when `i` is a position of `pos` holding `true`.
pub open spec fn packs(words: Seq<u64>, pos: Seq<bool>) -> bool {
    &&& words.len() == (pos.len() + 63) / 64
    &&& forall|i: int| 0 <= i < words.len() * 64 ==> #[trigger] bit(words[i / 64], i % 64) == (i < pos.len() && pos[i])
}

proof fn lemma_set_bit(w: u64, t: u64, j: u64)
    by (bit_vector)
    requires
        t < 64,
        j < 64,
    ensures
        ((w | (1u64 << t)) >> j) & 1 == if j == t {
            1u64
        } else {
            (w >> j) & 1
        },
{
}

proof fn lemma_zero_bit(j: u64)
    by (bit_vector)
    requires
        j < 64,
    ensures
        (0u64 >> j) & 1 == 0,
{
}

/// Packs the sign decisions `pos` into 64-bit words.
pub fn pack_bits(pos: &Vec<bool>) -> (words: Vec<u64>)
    requires
        pos@.len() + 63 <= usize::MAX,
    ensures
        packs(words@, pos@),
{
    let n = pos.len();
    let n_words = (n + 63) / 64;
    let mut words: Vec<u64> = Vec::new();
    let mut w: usize = 0;
    while w < n_words
        invariant
            w <= n_words,
            words@ == Seq::new(w as nat, |q: int| 0u64),
        decreases n_words - w,
    {
        words.push(0);
        assert(words@ =~= Seq::new((w + 1) as nat, |q: int| 0u64));
        w = w + 1;
    }
    assert forall|i: int| 0 <= i < words@.len() * 64 implies #[trigger] bit(words@[i / 64], i % 64) == (i < 0 && pos@[i]) by {
        lemma_zero_bit((i % 64) as u64);
    }
    let mut i: usize = 0;
    while i < n
        invariant
            i <= n,
            n == pos@.len(),
            n_words == (n + 63) / 64,
            words@.len() == n_words,
            forall|q: int| 0 <= q < words@.len() * 64 ==> #[trigger] bit(words@[q / 64], q % 64) == (q < i && pos@[q]),
        decreases n - i,
    {
        if pos[i] {
            let wi = i / 64;
            let t = i % 64;
            let old_w = words[wi];
            let nw = old_w | (1u64 << (t as u64));
            let ghost before = words@;
            words.set(wi, nw);
            assert forall|q: int| 0 <= q < words@.len() * 64 implies #[trigger] bit(words@[q / 64], q % 64) == (q < i + 1 && pos@[q]) by {
                if q / 64 == wi {
                    lemma_set_bit(old_w, t as u64, (q % 64) as u64);
                    assert(words@[q / 64] == nw);
                    assert(bit(before[q / 64], q % 64) == (q < i && pos@[q]));
                } else {
                    assert(words@[q / 64] == before[q / 64]);
                    assert(q != i);
                }
            }
        } else {
            assert forall|q: int| 0 <= q < words@.len() * 64 implies #[trigger] bit(words@[q / 64], q % 64) == (q < i + 1 && pos@[q]) by {
                assert(bit(words@[q / 64], q % 64) == (q < i && pos@[q]));
            }
        }
        i = i + 1;
    }
    words
}

/// Number of set bits of `x`.
pub open spec fn ones(x: nat) -> nat
    decreases x,
{
    if x == 0 {
        0
    } else {
        (x % 2) + ones(x / 2)
    }
}

/// Number of set bits of `x`, counted bit by bit.
fn count_ones(x: u64) -> (r: u32)
    ensures
        r == ones(x as nat),
{
    let mut c: u32 = 0;
    let mut j: u64 = 0;
    while j < 64
        invariant
            j <= 64,
            c <= j,
            c == low_bits(x, j as nat),
        decreases 64 - j,
    {
        let b = (x >> j) & 1;
        assert(b == 0 || b == 1) by (bit_vector)
            requires
                b == (x >> j) & 1,
        ;
        assert(bit(x, j as int) == (b == 1));
        if b == 1 {
            c = c + 1;
        }
        j = j + 1;
    }
    proof {
        lemma_ones_low_bits(x);
    }
    c
}

proof fn lemma_ones_bound(x: nat, b: nat)
    requires
        x < pow2(b),
    ensures
        ones(x) <= b,
    decreases b,
{
    if x > 0 {
        if b == 0 {
            assert(pow2(0) == 1) by {
                vstd::arithmetic::power2::lemma2_to64();
            }
        } else {
            lemma_pow2_unfold(b);
            lemma_ones_bound(x / 2, (b - 1) as nat);
        }
    }
}

/// Sum of the set bits of `a[i] ^ b[i]` over the first `n` words.
pub open spec fn hamming_spec(a: Seq<u64>, b: Seq<u64>, n: int) -> nat
    decreases n,
{
    if n <= 0 {
        0
    } else {
        hamming_spec(a, b, n - 1) + ones((a[n - 1] ^ b[n - 1]) as nat)
    }
}

/// Hamming distance: the number of differing bits over the common words.
pub fn hamming(a: &Vec<u64>, b: &Vec<u64>) -> (r: u32)
    requires
        a@.len() < 0x400_0000,
    ensures
        r == hamming_spec(a@, b@, min_nat(a@.len() as int, b@.len() as int)),
{
    let n = if a.len() < b.len() { a.len() } else { b.len() };
    let mut s: u32 = 0;
    let mut i: usize = 0;
    while i < n
        invariant
            i <= n,
            n <= a@.len(),
            n <= b@.len(),
            a@.len() < 0x400_0000,
            s == hamming_spec(a@, b@, i as int),
            s <= 64 * i,
        decreases n - i,
    {
        let x = a[i] ^ b[i];
        let c = count_ones(x);
        proof {
            vstd::arithmetic::power2::lemma2_to64();
            assert(pow2(64) == 0x10000000000000000);
            lemma_ones_bound(x as nat, 64);
        }
        s = s + c;
        i = i + 1;
    }
    s
}

/// A code is at Hamming distance zero from itself.
pub proof fn lemma_hamming_self(a: Seq<u64>, n: int)
    ensures
        hamming_spec(a, a, n) == 0,
    decreases n,
{
    if n > 0 {
        lemma_hamming_self(a, n - 1);
        let x = a[n - 1];
        assert(x ^ x == 0) by (bit_vector);
    }
}

/// Hamming distance does not depend on the order of its arguments.
pub proof fn lemma_hamming_symmetric(a: Seq<u64>, b: Seq<u64>, n: int)
    ensures
        hamming_spec(a, b, n) == hamming_spec(b, a, n),
    decreases n,
{
    if n > 0 {
        lemma_hamming_symmetric(a, b, n - 1);
        let x = a[n - 1];
        let y = b[n - 1];
        assert(x ^ y == y ^ x) by (bit_vector);
    }
}

/// Number of set bits among the low `m` bits of `z`.
pub open spec fn low_bits(z: u64, m: nat) -> nat
    decreases m,
{
    if m == 0 {
        0
    } else {
        low_bits(z, (m - 1) as nat) + if bit(z, m - 1) {
            1nat
        } else {
            0nat
        }
    }
}

proof fn lemma_bit_shift(z: u64, m: u64)
    by (bit_vector)
    requires
        m < 63,
    ensures
        ((z >> 1u64) >> m) & 1 == (z >> (m + 1)) & 1,
{
}

proof fn lemma_half_facts(z: u64)
    by (bit_vector)
    ensures
        z / 2 == z >> 1u64,
        z % 2 == z & 1,
        ((z >> 1u64) >> 63u64) & 1 == 0,
        (z >> 0u64) & 1 == z & 1,
        ((z >> 0u64) & 1 == 1) == (z % 2 == 1),
        z % 2 == 0 || z % 2 == 1,
{
}

proof fn lemma_low_bits_half(z: u64, m: nat)
    requires
        m <= 63,
    ensures
        low_bits((z / 2) as u64, m) + (z % 2) == low_bits(z, m + 1),
    decreases m,
{
    lemma_half_facts(z);
    if m > 0 {
        lemma_low_bits_half(z, (m - 1) as nat);
        let k = (m - 1) as u64;
        lemma_bit_shift(z, k);
        assert(k + 1 == m);
        assert(bit((z / 2) as u64, m - 1) == bit(z, m as int));
        assert(low_bits(z, m + 1) == low_bits(z, m) + if bit(z, m as int) { 1nat } else { 0nat });
        assert(low_bits((z / 2) as u64, m) == low_bits((z / 2) as u64, (m - 1) as nat) + if bit((z / 2) as u64, m - 1) { 1nat } else { 0nat });
    } else {
        assert(bit(z, 0) == (z % 2 == 1));
        reveal_with_fuel(low_bits, 2);
    }
}

proof fn lemma_low_bits_zero(m: nat)
    requires
        m <= 64,
    ensures
        low_bits(0, m) == 0,
    decreases m,
{
    if m > 0 {
        lemma_low_bits_zero((m - 1) as nat);
        lemma_zero_bit((m - 1) as u64);
    }
}

/// The set-bit count of a word is the number of its set bits.
proof fn lemma_ones_low_bits(z: u64)
    ensures
        ones(z as nat) == low_bits(z, 64),
    decreases z,
{
    if z == 0 {
        lemma_low_bits_zero(64);
    } else {
        lemma_half_facts(z);
        let h = (z / 2) as u64;
        lemma_ones_low_bits(h);
        lemma_low_bits_half(z, 63);
        assert(!bit(h, 63));
    }
}

/// A word whose set bits are exactly those below `r` has `min(m, r)` of them below `m`.
proof fn lemma_low_bits_prefix(z: u64, r: int, m: nat)
    requires
        m <= 64,
        forall|j: int| 0 <= j < 64 ==> #[trigger] bit(z, j) == (j < r),
    ensures
        low_bits(z, m) == if (m as int) < r { m as int } else if r < 0 { 0 } else { r },
    decreases m,
{
    if m > 0 {
        lemma_low_bits_prefix(z, r, (m - 1) as nat);
        assert(bit(z, m - 1) == (m - 1 < r));
    }
}

proof fn lemma_xor_bit(x: u64, y: u64, j: u64)
    by (bit_vector)
    requires
        j < 64,
    ensures
        (((x ^ y) >> j) & 1 == 1) == (((x >> j) & 1 == 1) != ((y >> j) & 1 == 1)),
{
}

/// The codes of opposite sign patterns differ in every dimension: their
/// Hamming distance is the number of dimensions.
pub proof fn lemma_hamming_complement(a: Seq<u64>, b: Seq<u64>, pos: Seq<bool>)
    requires
        packs(a, pos),
        packs(b, Seq::new(pos.len(), |i: int| !pos[i])),
    ensures
        hamming_spec(a, b, a.len() as int) == pos.len(),
{
    let len = pos.len() as int;
    let neg = Seq::new(pos.len(), |i: int| !pos[i]);
    assert forall|w: int| 0 <= w < a.len() implies #[trigger] ones((a[w] ^ b[w]) as nat) == if 64 * w + 64 <= len {
        64
    } else {
        len - 64 * w
    } by {
        let z = a[w] ^ b[w];
        assert forall|j: int| 0 <= j < 64 implies #[trigger] bit(z, j) == (j < len - 64 * w) by {
            let i = 64 * w + j;
            vstd::arithmetic::div_mod::lemma_fundamental_div_mod_converse(i, 64, w, j);
            assert(0 <= i < a.len() * 64) by (nonlinear_arith)
                requires
                    0 <= w < a.len(),
                    0 <= j < 64,
                    i == 64 * w + j,
            ;
            assert(bit(a[i / 64], i % 64) == (i < len && pos[i]));
            assert(bit(b[i / 64], i % 64) == (i < len && neg[i]));
            lemma_xor_bit(a[w], b[w], j as u64);
        }
        lemma_ones_low_bits(z);
        lemma_low_bits_prefix(z, len - 64 * w, 64);
        assert(64 * (w + 1) <= a.len() * 64) by (nonlinear_arith)
            requires
                w + 1 <= a.len(),
        ;
        assert(a.len() * 64 <= len + 63) by (nonlinear_arith)
            requires
                a.len() == (len + 63) / 64,
                len >= 0,
        ;
    }
    lemma_hamming_sum(a, b, len, a.len() as int);
    assert(a.len() * 64 >= len) by (nonlinear_arith)
        requires
            a.len() == (len + 63) / 64,
            len >= 0,
    ;
    if a.len() > 0 {
        assert(64 * (a.len() - 1) < len) by (nonlinear_arith)
            requires
                a.len() == (len + 63) / 64,
                len >= 0,
                a.len() > 0,
        ;
    }
}

/// The first `t` words of complementary codes differ in `min(64 t, len)` bits.
proof fn lemma_hamming_sum(a: Seq<u64>, b: Seq<u64>, len: int, t: int)
    requires
        0 <= t <= a.len(),
        a.len() == b.len(),
        len >= 0,
        64 * (a.len() - 1) < len || a.len() == 0,
        forall|w: int| 0 <= w < a.len() ==> #[trigger] ones((a[w] ^ b[w]) as nat) == if 64 * w + 64 <= len {
            64
        } else {
            len - 64 * w
        },
    ensures
        hamming_spec(a, b, t) == if 64 * t <= len { 64 * t } else { len },
    decreases t,
{
    if t > 0 {
        lemma_hamming_sum(a, b, len, t - 1);
        assert(ones((a[t - 1] ^ b[t - 1]) as nat) == if 64 * (t - 1) + 64 <= len { 64 } else { len - 64 * (t - 1) });
        assert(64 * (t - 1) <= 64 * (a.len() - 1));
    }
}

/// Bytes held by one bit code of dimension `dim`: the words, a norm and a length.
pub open spec fn code_bytes(dim: nat) -> nat {
    ((dim + 63) / 64) * 8 + 4 + 8
}

/// Memory of a flat f32 store of `n` vectors.
pub open spec fn flat_bytes(n: nat, dim: nat) -> nat {
    n * dim * 4
}

/// Memory of a bit store of `n` codes, with the full-precision vectors when rescoring.
pub open spec fn bit_bytes(n: nat, dim: nat, rescore: bool) -> nat {
    n * code_bytes(dim) + if rescore {
        n * dim * 4
    } else {
        0
    }
}

/// Without rescoring, a bit store of dimension at least 6 holding something
/// takes less memory than the flat store of the same vectors.
pub proof fn lemma_bits_smaller(n: nat, dim: nat)
    requires
        n > 0,
        dim >= 6,
    ensures
        bit_bytes(n, dim, false) < flat_bytes(n, dim),
{
    let w = (dim + 63) / 64;
    assert(w * 64 <= dim + 63);
    assert(w * 8 + 12 < dim * 4) by (nonlinear_arith)
        requires
            w * 64 <= dim + 63,
            dim >= 6;
    assert(n * (w * 8 + 12) < n * (dim * 4)) by (nonlinear_arith)
        requires
            w * 8 + 12 < dim * 4,
            n > 0;
    assert(n * dim * 4 == n * (dim * 4)) by (nonlinear_arith);
}

fn relabel(s: &Vec<Scored>, ids: &Vec<usize>) -> (r: Vec<Scored>)
    requires
        forall|i: int| 0 <= i < s@.len() ==> (#[trigger] s@[i]).0 < ids@.len(),
    ensures
        r@ == s@.map_values(|e: Scored| (ids@[e.0 as int], e.1)),
{
    let mut r: Vec<Scored> = Vec::new();
    let mut i: usize = 0;
    while i < s.len()
        invariant
            i <= s@.len(),
            forall|q: int| 0 <= q < s@.len() ==> (#[trigger] s@[q]).0 < ids@.len(),
            r@ == s@.take(i as int).map_values(|e: Scored| (ids@[e.0 as int], e.1)),
        decreases s@.len() - i,
    {
        let e = s[i];
        r.push((ids[e.0], e.1));
        assert(r@ =~= s@.take(i + 1).map_values(|e: Scored| (ids@[e.0 as int], e.1)));
        i = i + 1;
    }
    assert(s@.take(s@.len() as int) =~= s@);
    r
}

/// Positions of a scored list paired with new keys from `exact`, labelled by `ids`.
pub open spec fn rescored(s: Seq<Scored>, ids: Seq<usize>, exact: spec_fn(usize) -> u64) -> Seq<Scored> {
    s.map_values(|e: Scored| (ids[e.0 as int], exact(e.0)))
}

fn rescore_exec<F: Fn(usize) -> u64>(s: &Vec<Scored>, ids: &Vec<usize>, exact: &F) -> (r: Vec<Scored>)
    requires
        forall|i: int| 0 <= i < s@.len() ==> (#[trigger] s@[i]).0 < ids@.len(),
        is_oracle(*exact, ids@.len() as int),
    ensures
        r@ == rescored(s@, ids@, |p: usize| key_of(*exact, p)),
{
    let mut r: Vec<Scored> = Vec::new();
    let mut i: usize = 0;
    while i < s.len()
        invariant
            i <= s@.len(),
            forall|q: int| 0 <= q < s@.len() ==> (#[trigger] s@[q]).0 < ids@.len(),
            is_oracle(*exact, ids@.len() as int),
            r@ == rescored(s@.take(i as int), ids@, |p: usize| key_of(*exact, p)),
        decreases s@.len() - i,
    {
        let pos = s[i].0;
        let d = crate::oracle::ask(exact, pos, Ghost(ids@.len() as int));
        r.push((ids[pos], d));
        assert(r@ =~= rescored(s@.take(i + 1), ids@, |p: usize| key_of(*exact, p)));
        i = i + 1;
    }
    assert(s@.take(s@.len() as int) =~= s@);
    r
}

/// Exact flat store: the ids of the stored vectors, in insertion order.
pub struct FlatStore {
    pub ids: Vec<usize>,
    pub dim: usize,
}

impl FlatStore {
    pub fn new(dim: usize) -> (r: Self)
        ensures
            r.ids@.len() == 0,
            r.dim == dim,
    {
        FlatStore { ids: Vec::new(), dim }
    }

    pub fn insert(&mut self, id: usize)
        ensures
            final(self).ids@ == old(self).ids@.push(id),
            final(self).dim == old(self).dim,
    {
        self.ids.push(id);
    }

    /// The `k` nearest stored vectors by the exact keys of `exact` (by position).
    pub fn search<F: Fn(usize) -> u64>(&self, exact: F, k: usize) -> (r: Vec<Scored>)
        requires
            is_oracle(exact, self.ids@.len() as int),
        ensures
            r@ == top_k_spec(scored_positions(exact, self.ids@.len()), k as int, false).map_values(
                |e: Scored| (self.ids@[e.0 as int], e.1),
            ),
    {
        let all = score_positions(&exact, self.ids.len());
        let best = top_k_ascending(&all, k);
        proof {
            lemma_top_k_from_input(all@, k as int, false);
            assert forall|i: int| 0 <= i < best@.len() implies (#[trigger] best@[i]).0 < self.ids@.len() by {
                assert(all@.contains(best@[i]));
            }
        }
        relabel(&best, &self.ids)
    }

    pub fn memory_bytes(&self) -> (r: usize)
        requires
            flat_bytes(self.ids@.len(), self.dim as nat) <= usize::MAX,
        ensures
            r == flat_bytes(self.ids@.len(), self.dim as nat),
    {
        let n = self.ids.len();
        assert(n * self.dim * 4 <= usize::MAX);
        assert(n * self.dim <= n * self.dim * 4) by (nonlinear_arith);
        n * self.dim * 4
    }
}

/// 1-bit store with optional exact rescoring of its best candidates.
pub struct BitFlatStore {
    pub ids: Vec<usize>,
    pub dim: usize,
    pub rescore: bool,
    pub rescore_k: usize,
}

/// What the bit store returns: the `max(rescore_k, k)` (or `k`) best by
/// estimated key, then either rescored exactly and cut to `k`, or cut to `k`.
pub open spec fn bit_search_spec(
    ids: Seq<usize>,
    rescore: bool,
    rescore_k: nat,
    est: spec_fn(usize) -> u64,
    exact: spec_fn(usize) -> u64,
    k: nat,
) -> Seq<Scored> {
    let candidate_k = if rescore {
        if rescore_k > k { rescore_k } else { k }
    } else {
        k
    };
    let phase1 = top_k_spec(Seq::new(ids.len(), |i: int| (i as usize, est(i as usize))), candidate_k as int, false);
    if rescore {
        top_k_spec(rescored(phase1, ids, exact), k as int, false)
    } else {
        phase1.take(min_nat(k as int, phase1.len() as int)).map_values(|e: Scored| (ids[e.0 as int], e.1))
    }
}

impl BitFlatStore {
    pub fn new(dim: usize, rescore: bool, rescore_k: usize) -> (r: Self)
        ensures
            r.ids@.len() == 0,
            r.dim == dim,
            r.rescore == rescore,
            r.rescore_k == rescore_k,
    {
        BitFlatStore { ids: Vec::new(), dim, rescore, rescore_k }
    }

    pub fn insert(&mut self, id: usize)
        ensures
            final(self).ids@ == old(self).ids@.push(id),
            final(self).dim == old(self).dim,
            final(self).rescore == old(self).rescore,
            final(self).rescore_k == old(self).rescore_k,
    {
        self.ids.push(id);
    }

    /// Two-phase search: `est` gives the estimated key of each stored code,
    /// `exact` the exact key of each stored vector (asked only when rescoring).
    pub fn search<F1: Fn(usize) -> u64, F2: Fn(usize) -> u64>(&self, est: F1, exact: F2, k: usize) -> (r: Vec<Scored>)
        requires
            is_oracle(est, self.ids@.len() as int),
            is_oracle(exact, self.ids@.len() as int),
        ensures
            r@ == bit_search_spec(
                self.ids@,
                self.rescore,
                self.rescore_k as nat,
                |p: usize| key_of(est, p),
                |p: usize| key_of(exact, p),
                k as nat,
            ),
    {
        let n = self.ids.len();
        let candidate_k = if self.rescore {
            if self.rescore_k > k { self.rescore_k } else { k }
        } else {
            k
        };
        let all = score_positions(&est, n);
        assert(all@ =~= Seq::new(n as nat, |i: int| (i as usize, key_of(est, i as usize))));
        let phase1 = top_k_ascending(&all, candidate_k);
        proof {
            lemma_top_k_from_input(all@, candidate_k as int, false);
            assert forall|i: int| 0 <= i < phase1@.len() implies (#[trigger] phase1@[i]).0 < n by {
                assert(all@.contains(phase1@[i]));
            }
        }
        let ghost est_fn = |p: usize| key_of(est, p);
        let ghost exact_fn = |p: usize| key_of(exact, p);
        assert(all@ =~= Seq::new(self.ids@.len(), |i: int| (i as usize, est_fn(i as usize))));
        if self.rescore {
            let re = rescore_exec(&phase1, &self.ids, &exact);
            assert(re@ == rescored(phase1@, self.ids@, exact_fn));
            top_k_ascending(&re, k)
        } else {
            let mut firsts: Vec<Scored> = Vec::new();
            let mut i: usize = 0;
            let m = if k < phase1.len() { k } else { phase1.len() };
            while i < m
                invariant
                    i <= m,
                    m <= phase1@.len(),
                    firsts@ == phase1@.take(i as int),
                decreases m - i,
            {
                firsts.push(phase1[i]);
                assert(firsts@ =~= phase1@.take(i + 1));
                i = i + 1;
            }
            let r = relabel(&firsts, &self.ids);
            assert(r@ == phase1@.take(min_nat(k as int, phase1@.len() as int)).map_values(|e: Scored| (self.ids@[e.0 as int], e.1)));
            r
        }
    }

    pub fn memory_bytes(&self) -> (r: usize)
        requires
            bit_bytes(self.ids@.len(), self.dim as nat, self.rescore) <= usize::MAX,
            self.dim + 63 <= usize::MAX,
        ensures
            r == bit_bytes(self.ids@.len(), self.dim as nat, self.rescore),
    {
        let n = self.ids.len();
        let n_words = (self.dim + 63) / 64;
        let per = n_words * 8 + 4 + 8;
        assert(n * per <= bit_bytes(n as nat, self.dim as nat, self.rescore));
        assert(per <= n * per || n == 0) by (nonlinear_arith);
        let bits_bytes = n * per;
        let orig_bytes = if self.rescore {
            assert(n * self.dim <= n * self.dim * 4) by (nonlinear_arith);
            n * self.dim * 4
        } else {
            0
        };
        bits_bytes + orig_bytes
    }
}

/// With rescoring and a candidate count covering the whole store, the bit
/// store returns the exact store's distances, in the same order, and the
/// same id at every place whose distance no other stored vector has.
pub proof fn lemma_full_rescore_is_exact<F: Fn(usize) -> u64>(
    ids: Seq<usize>,
    rescore_k: nat,
    est: spec_fn(usize) -> u64,
    exact: F,
    k: nat,
)
    requires
        rescore_k >= ids.len(),
        ids.len() <= usize::MAX,
    ensures
        keys_of(bit_search_spec(ids, true, rescore_k, est, |p: usize| key_of(exact, p), k)) == keys_of(
            top_k_spec(scored_positions(exact, ids.len()), k as int, false).map_values(|e: Scored| (ids[e.0 as int], e.1)),
        ),
        forall|i: int|
            0 <= i < top_k_spec(scored_positions(exact, ids.len()), k as int, false).len()
                && keys_of(scored_positions(exact, ids.len())).to_multiset().count(
                #[trigger] top_k_spec(scored_positions(exact, ids.len()), k as int, false)[i].1,
            ) == 1 ==> bit_search_spec(ids, true, rescore_k, est, |p: usize| key_of(exact, p), k)[i] == top_k_spec(
                scored_positions(exact, ids.len()),
                k as int,
                false,
            ).map_values(|e: Scored| (ids[e.0 as int], e.1))[i],
{
    let n = ids.len();
    let xf = |p: usize| key_of(exact, p);
    let candidate_k = if rescore_k > k { rescore_k } else { k };
    let all = Seq::new(n, |i: int| (i as usize, est(i as usize)));
    let phase1 = top_k_spec(all, candidate_k as int, false);
    lemma_sort_ranked_properties(all, false);
    assert(phase1 =~= sort_ranked(all, false));
    let g = |e: Scored| (ids[e.0 as int], xf(e.0));
    lemma_map_multiset(phase1, all, g);
    let target = Seq::new(n, |p: int| (ids[p], xf(p as usize)));
    assert(all.map_values(g) =~= target);
    assert(rescored(phase1, ids, xf) =~= phase1.map_values(g));
    lemma_map_multiset(phase1.map_values(g), target, |e: Scored| e.1);
    assert(keys_of(target) =~= keys_of(scored_positions(exact, n)));
    lemma_top_k_keys_by_multiset(phase1.map_values(g), scored_positions(exact, n), k as int, false);
    let best = top_k_spec(scored_positions(exact, n), k as int, false);
    assert(keys_of(best.map_values(|e: Scored| (ids[e.0 as int], e.1))) =~= keys_of(best));
    // The exact store's answer is the top-k of the relabelled positions.
    let f = |p: usize| ids[p as int];
    assert(relabel_item(f) =~= (|e: Scored| (ids[e.0 as int], e.1)));
    lemma_top_k_relabel(scored_positions(exact, n), k as int, false, f);
    assert(scored_positions(exact, n).map_values(relabel_item(f)) =~= target);
    lemma_top_k_same_items(phase1.map_values(g), target, k as int, false);
    lemma_top_k_properties(target, k as int, false);
    lemma_top_k_properties(scored_positions(exact, n), k as int, false);
    let e = best.map_values(|e: Scored| (ids[e.0 as int], e.1));
    assert(best.map_values(relabel_item(f)) =~= e);
    assert(top_k_spec(target, k as int, false) == e);
    let b = bit_search_spec(ids, true, rescore_k, est, xf, k);
    assert(b == top_k_spec(phase1.map_values(g), k as int, false));
    assert forall|i: int|
        0 <= i < best.len() && keys_of(scored_positions(exact, n)).to_multiset().count(#[trigger] best[i].1) == 1
            implies b[i] == e[i] by {
        assert(e[i].1 == best[i].1);
        assert(top_k_spec(target, k as int, false)[i] == e[i]);
    }
}

/// Removes all but the first of each run of entries with the same position.
pub open spec fn dedup_runs(s: Seq<Scored>) -> Seq<Scored>
    decreases s.len(),
{
    if s.len() == 0 {
        Seq::empty()
    } else if s.len() >= 2 && s[s.len() - 2].0 == s.last().0 {
        dedup_runs(s.drop_last())
    } else {
        dedup_runs(s.drop_last()).push(s.last())
    }
}

/// Positions grouped by cell: cell `c` lists, ascending, the positions assigned to it.
pub open spec fn cell_members(assign: Seq<usize>, c: usize) -> Seq<usize>
    decreases assign.len(),
{
    if assign.len() == 0 {
        Seq::empty()
    } else if assign.last() == c {
        cell_members(assign.drop_last(), c).push((assign.len() - 1) as usize)
    } else {
        cell_members(assign.drop_last(), c)
    }
}

/// The candidates of the probed cells, in probe order then cell order.
pub open spec fn probe_candidates(cells: Seq<Seq<usize>>, probes: Seq<usize>, est: spec_fn(usize) -> u64) -> Seq<Scored>
    decreases probes.len(),
{
    if probes.len() == 0 {
        Seq::empty()
    } else {
        probe_candidates(cells, probes.drop_last(), est) + cells[probes.last() as int].map_values(
            |p: usize| (p, est(p)),
        )
    }
}

/// Inverted-file bit store: the cells of stored positions and their ids.
pub struct IvfBitStore {
    pub cells: Vec<Vec<usize>>,
    pub all_ids: Vec<usize>,
    pub n_centroids: usize,
    pub dim: usize,
    pub nlist: usize,
    pub nprobe: usize,
    pub rescore_k: usize,
}

/// What the IVF store returns: probe the `min(nprobe, cells)` nearest cells,
/// rank their codes by estimated key, drop repeated positions, keep the
/// `max(rescore_k, k)` best, rescore exactly, and return the `k` best.
pub open spec fn ivf_search_spec(
    cells: Seq<Seq<usize>>,
    ids: Seq<usize>,
    nprobe: nat,
    rescore_k: nat,
    centroid: spec_fn(usize) -> u64,
    est: spec_fn(usize) -> u64,
    exact: spec_fn(usize) -> u64,
    k: nat,
) -> Seq<Scored> {
    let np = if nprobe < cells.len() { nprobe } else { cells.len() };
    let probes = top_k_spec(Seq::new(cells.len(), |i: int| (i as usize, centroid(i as usize))), np as int, false).map_values(
        |e: Scored| e.0,
    );
    let cands = probe_candidates(cells, probes, est);
    let ranked = dedup_runs(top_k_spec(cands, cands.len() as int, false));
    let candidate_k = if rescore_k > k { rescore_k } else { k };
    let kept = ranked.take(min_nat(candidate_k as int, ranked.len() as int));
    top_k_spec(rescored(kept, ids, exact), k as int, false)
}

impl IvfBitStore {
    pub fn new(dim: usize, nlist: usize, nprobe: usize, rescore_k: usize) -> (r: Self)
        ensures
            r.cells@.len() == 0,
            r.all_ids@.len() == 0,
            r.n_centroids == 0,
            r.dim == dim,
            r.nlist == nlist,
            r.nprobe == nprobe,
            r.rescore_k == rescore_k,
    {
        IvfBitStore { cells: Vec::new(), all_ids: Vec::new(), n_centroids: 0, dim, nlist, nprobe, rescore_k }
    }

    /// The number of cells of a corpus of `n` vectors: `min(nlist, n)`.
    pub fn effective_nlist(&self, n: usize) -> (r: usize)
        ensures
            r == min_nat(self.nlist as int, n as int),
    {
        if self.nlist < n { self.nlist } else { n }
    }

    /// Every cell lists stored positions.
    pub open spec fn wf(&self) -> bool {
        &&& self.n_centroids == self.cells@.len()
        &&& forall|c: int, j: int| 0 <= c < self.cells@.len() && 0 <= j < self.cells@[c]@.len()
            ==> (#[trigger] self.cells@[c]@[j]) < self.all_ids@.len()
    }

    pub open spec fn cell_view(&self) -> Seq<Seq<usize>> {
        self.cells@.map_values(|v: Vec<usize>| v@)
    }

    /// Appends the (non-empty) corpus ids and regroups every stored position
    /// into `min(nlist, corpus size)` cells by `assign` (position `p` belongs
    /// to cell `assign[p]`, the cell of its nearest centroid).
    pub fn build(&mut self, ids: Vec<usize>, assign: &Vec<usize>)
        requires
            ids@.len() > 0,
            old(self).nlist >= 1,
            assign@.len() == old(self).all_ids@.len() + ids@.len(),
            forall|p: int| 0 <= p < assign@.len() ==> (#[trigger] assign@[p]) < min_nat(old(self).nlist as int, ids@.len() as int),
        ensures
            final(self).wf(),
            final(self).all_ids@ == old(self).all_ids@ + ids@,
            final(self).n_centroids == min_nat(old(self).nlist as int, ids@.len() as int),
            final(self).cells@.len() == min_nat(old(self).nlist as int, ids@.len() as int),
            forall|c: int| 0 <= c < final(self).n_centroids ==> (#[trigger] final(self).cells@[c])@ == cell_members(assign@, c as usize),
            final(self).dim == old(self).dim,
            final(self).nlist == old(self).nlist,
            final(self).nprobe == old(self).nprobe,
            final(self).rescore_k == old(self).rescore_k,
    {
        let n_cells = self.effective_nlist(ids.len());
        let mut cells: Vec<Vec<usize>> = Vec::new();
        let mut c: usize = 0;
        while c < n_cells
            invariant
                c <= n_cells,
                cells@.len() == c,
                forall|q: int| 0 <= q < c ==> (#[trigger] cells@[q])@.len() == 0,
            decreases n_cells - c,
        {
            cells.push(Vec::new());
            c = c + 1;
        }
        assert forall|cc: int| 0 <= cc < n_cells implies (#[trigger] cells@[cc])@ == cell_members(assign@.take(0), cc as usize) by {
            assert(assign@.take(0) =~= Seq::<usize>::empty());
        }
        let mut p: usize = 0;
        while p < assign.len()
            invariant
                p <= assign@.len(),
                cells@.len() == n_cells,
                forall|q: int| 0 <= q < assign@.len() ==> (#[trigger] assign@[q]) < n_cells,
                forall|cc: int| 0 <= cc < n_cells ==> (#[trigger] cells@[cc])@ == cell_members(assign@.take(p as int), cc as usize),
                forall|cc: int, j: int| 0 <= cc < n_cells && 0 <= j < cells@[cc]@.len() ==> (#[trigger] cells@[cc]@[j]) < p,
            decreases assign@.len() - p,
        {
            let cell = assign[p];
            assert(assign@.take(p + 1).drop_last() =~= assign@.take(p as int));
            assert(assign@.take(p + 1).last() == cell);
            let ghost before = cells@;
            let mut row: Vec<usize> = Vec::new();
            let mut j: usize = 0;
            while j < cells[cell].len()
                invariant
                    cell < cells@.len(),
                    j <= cells@[cell as int]@.len(),
                    row@ == cells@[cell as int]@.take(j as int),
                decreases cells@[cell as int]@.len() - j,
            {
                row.push(cells[cell][j]);
                assert(row@ =~= cells@[cell as int]@.take(j + 1));
                j = j + 1;
            }
            assert(cells@[cell as int]@.take(cells@[cell as int]@.len() as int) =~= cells@[cell as int]@);
            row.push(p);
            cells.set(cell, row);
            assert forall|cc: int| 0 <= cc < n_cells implies (#[trigger] cells@[cc])@ == cell_members(assign@.take(p + 1), cc as usize) by {
                if cc != cell {
                    assert(cells@[cc] == before[cc]);
                }
            }
            assert forall|cc: int, jj: int| 0 <= cc < n_cells && 0 <= jj < cells@[cc]@.len() implies (#[trigger] cells@[cc]@[jj]) < p + 1 by {
                if cc != cell {
                    assert(cells@[cc] == before[cc]);
                } else if jj < before[cc]@.len() {
                    assert(cells@[cc]@[jj] == before[cc]@[jj]);
                }
            }
            p = p + 1;
        }
        assert(assign@.take(assign@.len() as int) =~= assign@);
        let mut i: usize = 0;
        let ghost ids0 = self.all_ids@;
        while i < ids.len()
            invariant
                i <= ids@.len(),
                self.all_ids@ == ids0 + ids@.take(i as int),
                ids0 == old(self).all_ids@,
                self.dim == old(self).dim,
                self.nlist == old(self).nlist,
                self.nprobe == old(self).nprobe,
                self.rescore_k == old(self).rescore_k,
            decreases ids@.len() - i,
        {
            self.all_ids.push(ids[i]);
            assert(self.all_ids@ =~= ids0 + ids@.take(i + 1));
            i = i + 1;
        }
        assert(ids@.take(ids@.len() as int) =~= ids@);
        self.cells = cells;
        self.n_centroids = n_cells;
    }

    /// Probes the `nprobe` cells whose centroids are nearest (by `centroid`),
    /// ranks their codes by `est`, drops repeated positions, keeps the
    /// `max(rescore_k, k)` best, rescores them by `exact`, returns the `k` best.
    pub fn search<F1: Fn(usize) -> u64, F2: Fn(usize) -> u64, F3: Fn(usize) -> u64>(
        &self,
        centroid: F1,
        est: F2,
        exact: F3,
        k: usize,
    ) -> (r: Vec<Scored>)
        requires
            self.wf(),
            is_oracle(centroid, self.cells@.len() as int),
            is_oracle(est, self.all_ids@.len() as int),
            is_oracle(exact, self.all_ids@.len() as int),
        ensures
            self.cells@.len() == 0 ==> r@.len() == 0,
            self.cells@.len() > 0 ==> r@ == ivf_search_spec(
                self.cell_view(),
                self.all_ids@,
                self.nprobe as nat,
                self.rescore_k as nat,
                |c: usize| key_of(centroid, c),
                |p: usize| key_of(est, p),
                |p: usize| key_of(exact, p),
                k as nat,
            ),
    {
        let nc = self.cells.len();
        if nc == 0 {
            return Vec::new();
        }
        let n = self.all_ids.len();
        let ghost cells = self.cell_view();
        let ghost efn = |p: usize| key_of(est, p);
        let np = if self.nprobe < nc { self.nprobe } else { nc };
        let cs = score_positions(&centroid, nc);
        assert(cs@ =~= Seq::new(cells.len(), |i: int| (i as usize, key_of(centroid, i as usize))));
        let best_cells = top_k_ascending(&cs, np);
        proof {
            lemma_top_k_from_input(cs@, np as int, false);
        }
        let mut probes: Vec<usize> = Vec::new();
        let mut u: usize = 0;
        while u < best_cells.len()
            invariant
                u <= best_cells@.len(),
                probes@ == best_cells@.take(u as int).map_values(|e: Scored| e.0),
                forall|q: int| 0 <= q < best_cells@.len() ==> cs@.contains(#[trigger] best_cells@[q]),
                cs@.len() == nc,
                forall|q: int| 0 <= q < cs@.len() ==> (#[trigger] cs@[q]).0 < nc,
                forall|q: int| 0 <= q < probes@.len() ==> (#[trigger] probes@[q]) < nc,
            decreases best_cells@.len() - u,
        {
            assert(cs@.contains(best_cells@[u as int]));
            probes.push(best_cells[u].0);
            assert(probes@ =~= best_cells@.take(u + 1).map_values(|e: Scored| e.0));
            u = u + 1;
        }
        assert(best_cells@.take(best_cells@.len() as int) =~= best_cells@);
        let mut cands: Vec<Scored> = Vec::new();
        let mut t: usize = 0;
        assert(probes@.take(0) =~= Seq::<usize>::empty());
        while t < probes.len()
            invariant
                t <= probes@.len(),
                self.wf(),
                nc == self.cells@.len(),
                n == self.all_ids@.len(),
                cells == self.cell_view(),
                is_oracle(est, n as int),
                efn == (|p: usize| key_of(est, p)),
                forall|q: int| 0 <= q < probes@.len() ==> (#[trigger] probes@[q]) < nc,
                cands@ == probe_candidates(cells, probes@.take(t as int), efn),
                forall|q: int| 0 <= q < cands@.len() ==> (#[trigger] cands@[q]).0 < n,
            decreases probes@.len() - t,
        {
            let cell = probes[t];
            assert(probes@.take(t + 1).drop_last() =~= probes@.take(t as int));
            let ghost before = cands@;
            let mut j: usize = 0;
            while j < self.cells[cell].len()
                invariant
                    self.wf(),
                    cell < self.cells@.len(),
                    n == self.all_ids@.len(),
                    j <= self.cells@[cell as int]@.len(),
                    is_oracle(est, n as int),
                    efn == (|p: usize| key_of(est, p)),
                    cands@ == before + self.cells@[cell as int]@.take(j as int).map_values(|p: usize| (p, efn(p))),
                    forall|q: int| 0 <= q < cands@.len() ==> (#[trigger] cands@[q]).0 < n,
                decreases self.cells@[cell as int]@.len() - j,
            {
                let p = self.cells[cell][j];
                assert(p < n);
                let d = crate::oracle::ask(&est, p, Ghost(n as int));
                cands.push((p, d));
                assert(cands@ =~= before + self.cells@[cell as int]@.take(j + 1).map_values(|p: usize| (p, efn(p))));
                j = j + 1;
            }
            assert(self.cells@[cell as int]@.take(self.cells@[cell as int]@.len() as int) =~= self.cells@[cell as int]@);
            assert(cells[cell as int] == self.cells@[cell as int]@);
            t = t + 1;
        }
        assert(probes@.take(probes@.len() as int) =~= probes@);
        let ranked = top_k_ascending(&cands, cands.len());
        proof {
            lemma_top_k_from_input(cands@, cands@.len() as int, false);
        }
        let candidate_k = if self.rescore_k > k { self.rescore_k } else { k };
        let mut kept: Vec<Scored> = Vec::new();
        let mut i: usize = 0;
        assert(ranked@.take(0) =~= Seq::<Scored>::empty());
        while i < ranked.len() && kept.len() < candidate_k
            invariant
                i <= ranked@.len(),
                kept@ == dedup_runs(ranked@.take(i as int)).take(kept@.len() as int),
                kept@.len() <= dedup_runs(ranked@.take(i as int)).len(),
                kept@.len() == min_nat(candidate_k as int, dedup_runs(ranked@.take(i as int)).len() as int),
                forall|q: int| 0 <= q < ranked@.len() ==> cands@.contains(#[trigger] ranked@[q]),
                forall|q: int| 0 <= q < cands@.len() ==> (#[trigger] cands@[q]).0 < n,
                forall|q: int| 0 <= q < kept@.len() ==> (#[trigger] kept@[q]).0 < n,
            decreases ranked@.len() - i,
        {
            let ghost pre = ranked@.take(i as int);
            let ghost pre1 = ranked@.take(i + 1);
            assert(pre1.drop_last() =~= pre);
            proof {
                lemma_dedup_prefix(ranked@, i as int);
            }
            assert(cands@.contains(ranked@[i as int]));
            if i == 0 || ranked[i - 1].0 != ranked[i].0 {
                kept.push(ranked[i]);
                assert(dedup_runs(pre1) == dedup_runs(pre).push(ranked@[i as int]));
                assert(kept@ =~= dedup_runs(pre1).take(kept@.len() as int));
            } else {
                assert(dedup_runs(pre1) == dedup_runs(pre));
            }
            i = i + 1;
        }
        proof {
            lemma_dedup_len(ranked@);
            if i < ranked@.len() {
                lemma_dedup_take_stable(ranked@, i as int, candidate_k as int);
            } else {
                assert(ranked@.take(i as int) =~= ranked@);
            }
        }
        let ghost cfn = |c: usize| key_of(centroid, c);
        let ghost xfn = |p: usize| key_of(exact, p);
        assert(cells.len() == nc);
        assert(cs@ =~= Seq::new(cells.len(), |i: int| (i as usize, cfn(i as usize))));
        assert(probes@ == top_k_spec(Seq::new(cells.len(), |i: int| (i as usize, cfn(i as usize))), np as int, false).map_values(
            |e: Scored| e.0,
        ));
        assert(cands@ == probe_candidates(cells, probes@, efn));
        assert(kept@ == dedup_runs(ranked@).take(min_nat(candidate_k as int, dedup_runs(ranked@).len() as int)));
        let re = rescore_exec(&kept, &self.all_ids, &exact);
        assert(re@ == rescored(kept@, self.all_ids@, xfn));
        top_k_ascending(&re, k)
    }
}

/// Number of codes held by the first `c` cells.
pub open spec fn members_count(cells: Seq<Seq<usize>>, c: int) -> nat
    decreases c,
{
    if c <= 0 {
        0
    } else {
        members_count(cells, c - 1) + cells[c - 1].len()
    }
}

/// Memory of an IVF bit store: its f32 centroids and one bit code per cell entry.
pub open spec fn ivf_bytes(n_centroids: nat, dim: nat, cells: Seq<Seq<usize>>) -> nat {
    n_centroids * dim * 4 + members_count(cells, cells.len() as int) * code_bytes(dim)
}

impl IvfBitStore {
    pub fn memory_bytes(&self) -> (r: usize)
        requires
            ivf_bytes(self.n_centroids as nat, self.dim as nat, self.cell_view()) <= usize::MAX,
            self.dim + 63 <= usize::MAX,
        ensures
            r == ivf_bytes(self.n_centroids as nat, self.dim as nat, self.cell_view()),
    {
        let ghost cells = self.cell_view();
        let ghost total = ivf_bytes(self.n_centroids as nat, self.dim as nat, cells);
        let per = (self.dim + 63) / 64 * 8 + 4 + 8;
        assert(per == code_bytes(self.dim as nat));
        let nc = self.n_centroids;
        assert(nc * self.dim <= nc * self.dim * 4) by (nonlinear_arith);
        let centroid_bytes = nc * self.dim * 4;
        let mut cell_bytes: usize = 0;
        let mut c: usize = 0;
        proof {
            lemma_members_count_mono(cells, 0, cells.len() as int);
        }
        while c < self.cells.len()
            invariant
                c <= self.cells@.len(),
                cells == self.cell_view(),
                cells.len() == self.cells@.len(),
                per == code_bytes(self.dim as nat),
                centroid_bytes + members_count(cells, cells.len() as int) * per == total,
                total <= usize::MAX,
                cell_bytes == members_count(cells, c as int) * per,
            decreases self.cells@.len() - c,
        {
            proof {
                lemma_members_count_mono(cells, c + 1, cells.len() as int);
                assert(members_count(cells, c + 1) * per <= members_count(cells, cells.len() as int) * per) by (nonlinear_arith)
                    requires
                        members_count(cells, c + 1) <= members_count(cells, cells.len() as int);
                assert(members_count(cells, c + 1) * per == members_count(cells, c as int) * per + cells[c as int].len() * per) by (nonlinear_arith)
                    requires
                        members_count(cells, c + 1) == members_count(cells, c as int) + cells[c as int].len();
                assert(cells[c as int].len() == self.cells@[c as int]@.len());
                assert(cells[c as int].len() * per <= cells[c as int].len() * per + members_count(cells, c as int) * per) by (nonlinear_arith);
            }
            let m = self.cells[c].len();
            cell_bytes = cell_bytes + m * per;
            c = c + 1;
        }
        centroid_bytes + cell_bytes
    }
}

proof fn lemma_members_count_mono(cells: Seq<Seq<usize>>, a: int, b: int)
    requires
        0 <= a <= b,
    ensures
        members_count(cells, a) <= members_count(cells, b),
    decreases b - a,
{
    if a < b {
        lemma_members_count_mono(cells, a, b - 1);
    }
}

/// Every stored position is listed in exactly one cell, once: the cell that
/// its assignment names.
pub proof fn lemma_cells_partition(assign: Seq<usize>, c: usize, p: usize)
    requires
        assign.len() <= usize::MAX,
    ensures
        cell_members(assign, c).to_multiset().count(p) == if p < assign.len() && assign[p as int] == c {
            1nat
        } else {
            0nat
        },
    decreases assign.len(),
{
    broadcast use vstd::seq_lib::group_to_multiset_ensures;
    if assign.len() == 0 {
        assert(cell_members(assign, c).to_multiset() =~= vstd::multiset::Multiset::<usize>::empty());
    } else {
        let a1 = assign.drop_last();
        lemma_cells_partition(a1, c, p);
        let last = (assign.len() - 1) as usize;
        assert(last as int == assign.len() - 1);
        if p < a1.len() {
            assert(assign[p as int] == a1[p as int]);
        }
        if assign.last() == c {
            assert(cell_members(assign, c) == cell_members(a1, c).push(last));
            assert(cell_members(assign, c).to_multiset() == cell_members(a1, c).to_multiset().insert(last));
        } else {
            assert(cell_members(assign, c) == cell_members(a1, c));
        }
    }
}

/// The positions of the probed cells, cell after cell.
pub open spec fn probe_positions(cells: Seq<Seq<usize>>, probes: Seq<usize>) -> Seq<usize>
    decreases probes.len(),
{
    if probes.len() == 0 {
        Seq::empty()
    } else {
        probe_positions(cells, probes.drop_last()) + cells[probes.last() as int]
    }
}

proof fn lemma_probe_positions(cells: Seq<Seq<usize>>, probes: Seq<usize>, est: spec_fn(usize) -> u64)
    ensures
        probe_candidates(cells, probes, est).map_values(|e: Scored| e.0) == probe_positions(cells, probes),
    decreases probes.len(),
{
    if probes.len() > 0 {
        lemma_probe_positions(cells, probes.drop_last(), est);
        let a = probe_candidates(cells, probes.drop_last(), est);
        let b = cells[probes.last() as int].map_values(|p: usize| (p, est(p)));
        assert((a + b).map_values(|e: Scored| e.0) =~= a.map_values(|e: Scored| e.0) + cells[probes.last() as int]);
    }
}

/// A position appears in the probed cells as often as its cell is probed.
proof fn lemma_probe_count(assign: Seq<usize>, n_cells: nat, probes: Seq<usize>, p: usize)
    requires
        assign.len() <= usize::MAX,
        forall|j: int| 0 <= j < probes.len() ==> (#[trigger] probes[j]) < n_cells,
    ensures
        probe_positions(Seq::new(n_cells, |c: int| cell_members(assign, c as usize)), probes).to_multiset().count(p)
            == if p < assign.len() {
            probes.to_multiset().count(assign[p as int])
        } else {
            0nat
        },
    decreases probes.len(),
{
    broadcast use vstd::seq_lib::group_to_multiset_ensures;
    let cells = Seq::new(n_cells, |c: int| cell_members(assign, c as usize));
    if probes.len() == 0 {
        assert(probe_positions(cells, probes) =~= Seq::<usize>::empty());
    } else {
        let pr1 = probes.drop_last();
        assert forall|j: int| 0 <= j < pr1.len() implies (#[trigger] pr1[j]) < n_cells by {
            assert(pr1[j] == probes[j]);
        }
        lemma_probe_count(assign, n_cells, pr1, p);
        let c = probes.last();
        lemma_cells_partition(assign, c, p);
        vstd::seq_lib::lemma_multiset_commutative(probe_positions(cells, pr1), cells[c as int]);
        assert(probes =~= pr1.push(c));
    }
}

/// Without repeated positions, dropping repeated runs changes nothing.
proof fn lemma_dedup_distinct(s: Seq<Scored>)
    requires
        forall|i: int, j: int| 0 <= i < j < s.len() ==> s[i].0 != s[j].0,
    ensures
        dedup_runs(s) == s,
    decreases s.len(),
{
    if s.len() > 0 {
        lemma_dedup_distinct(s.drop_last());
        assert(s.drop_last().push(s.last()) =~= s);
        if s.len() >= 2 {
            assert(s[s.len() - 2].0 != s[s.len() - 1].0);
        }
    }
}

/// With every cell probed and a candidate count covering the store, the IVF
/// store returns the exact store's distances, in the same order, and the
/// same id at every place whose distance no other stored vector has.
pub proof fn lemma_full_probe_is_exact<F: Fn(usize) -> u64>(
    assign: Seq<usize>,
    n_cells: nat,
    ids: Seq<usize>,
    nprobe: nat,
    rescore_k: nat,
    centroid: spec_fn(usize) -> u64,
    est: spec_fn(usize) -> u64,
    exact: F,
    k: nat,
)
    requires
        assign.len() == ids.len(),
        ids.len() <= usize::MAX,
        n_cells <= usize::MAX,
        forall|p: int| 0 <= p < assign.len() ==> (#[trigger] assign[p]) < n_cells,
        nprobe >= n_cells,
        rescore_k >= ids.len(),
    ensures
        keys_of(
            ivf_search_spec(
                Seq::new(n_cells, |c: int| cell_members(assign, c as usize)),
                ids,
                nprobe,
                rescore_k,
                centroid,
                est,
                |p: usize| key_of(exact, p),
                k,
            ),
        ) == keys_of(top_k_spec(scored_positions(exact, ids.len()), k as int, false).map_values(|e: Scored| (ids[e.0 as int], e.1))),
        forall|i: int|
            0 <= i < top_k_spec(scored_positions(exact, ids.len()), k as int, false).len()
                && keys_of(scored_positions(exact, ids.len())).to_multiset().count(
                #[trigger] top_k_spec(scored_positions(exact, ids.len()), k as int, false)[i].1,
            ) == 1 ==> ivf_search_spec(
                Seq::new(n_cells, |c: int| cell_members(assign, c as usize)),
                ids,
                nprobe,
                rescore_k,
                centroid,
                est,
                |p: usize| key_of(exact, p),
                k,
            )[i] == top_k_spec(scored_positions(exact, ids.len()), k as int, false).map_values(|e: Scored| (ids[e.0 as int], e.1))[i],
{
    broadcast use vstd::seq_lib::group_to_multiset_ensures;
    let n = ids.len();
    let cells = Seq::new(n_cells, |c: int| cell_members(assign, c as usize));
    let xf = |p: usize| key_of(exact, p);
    // Every cell is probed exactly once.
    let cs = Seq::new(cells.len(), |i: int| (i as usize, centroid(i as usize)));
    let np = if nprobe < cells.len() { nprobe } else { cells.len() };
    assert(np == n_cells);
    lemma_sort_ranked_properties(cs, false);
    let sorted_cells = top_k_spec(cs, np as int, false);
    assert(sorted_cells =~= sort_ranked(cs, false));
    let probes = sorted_cells.map_values(|e: Scored| e.0);
    let all_cells = Seq::new(n_cells, |c: int| c as usize);
    lemma_map_multiset(sorted_cells, cs, |e: Scored| e.0);
    assert(cs.map_values(|e: Scored| e.0) =~= all_cells);
    assert forall|j: int| 0 <= j < probes.len() implies (#[trigger] probes[j]) < n_cells by {
        assert(probes.to_multiset().count(probes[j]) > 0) by {
            assert(probes.contains(probes[j]));
        }
        assert(all_cells.contains(probes[j]));
    }
    // The candidates hold every stored position once.
    let cands = probe_candidates(cells, probes, est);
    lemma_probe_positions(cells, probes, est);
    let pos = cands.map_values(|e: Scored| e.0);
    let all_pos = Seq::new(n, |p: int| p as usize);
    assert forall|x: usize| #[trigger] pos.to_multiset().count(x) == all_pos.to_multiset().count(x) by {
        lemma_probe_count(assign, n_cells, probes, x);
        lemma_count_distinct(all_pos, x);
        if x < n {
            lemma_count_distinct(all_cells, assign[x as int]);
            assert(all_cells[assign[x as int] as int] == assign[x as int]);
            assert(all_pos[x as int] == x);
        } else {
            if all_pos.contains(x) {
                let i = choose|i: int| 0 <= i < all_pos.len() && all_pos[i] == x;
            }
        }
    }
    assert(pos.to_multiset() =~= all_pos.to_multiset());
    // Ranking, dropping repeats and keeping candidates change nothing of that.
    let sorted = top_k_spec(cands, cands.len() as int, false);
    lemma_sort_ranked_properties(cands, false);
    assert(sorted =~= sort_ranked(cands, false));
    lemma_map_multiset(sorted, cands, |e: Scored| e.0);
    let spos = sorted.map_values(|e: Scored| e.0);
    assert forall|i: int, j: int| 0 <= i < j < sorted.len() implies sorted[i].0 != sorted[j].0 by {
        if sorted[i].0 == sorted[j].0 {
            assert(spos[i] == spos[j]);
            lemma_count_two(spos, i, j);
            lemma_count_distinct(all_pos, spos[i]);
        }
    }
    lemma_dedup_distinct(sorted);
    let ranked = dedup_runs(sorted);
    assert(ranked.len() == n) by {
        spos.to_multiset_ensures();
        all_pos.to_multiset_ensures();
    }
    let candidate_k = if rescore_k > k { rescore_k } else { k };
    let kept = ranked.take(min_nat(candidate_k as int, ranked.len() as int));
    assert(kept =~= ranked);
    let re = rescored(kept, ids, xf);
    // Their keys are the exact keys of all positions.
    lemma_map_multiset(spos, all_pos, xf);
    assert(keys_of(re) =~= spos.map_values(xf));
    assert(all_pos.map_values(xf) =~= keys_of(scored_positions(exact, n)));
    lemma_top_k_keys_by_multiset(re, scored_positions(exact, n), k as int, false);
    let best = top_k_spec(scored_positions(exact, n), k as int, false);
    assert(keys_of(best.map_values(|e: Scored| (ids[e.0 as int], e.1))) =~= keys_of(best));
    // The same (id, distance) items as the exact store's, so the same ids
    // wherever a distance is unique.
    let h = |p: usize| (ids[p as int], xf(p));
    let target = Seq::new(n, |p: int| (ids[p], xf(p as usize)));
    lemma_map_multiset(spos, all_pos, h);
    assert(re =~= spos.map_values(h));
    assert(all_pos.map_values(h) =~= target);
    let f = |p: usize| ids[p as int];
    lemma_top_k_relabel(scored_positions(exact, n), k as int, false, f);
    assert(scored_positions(exact, n).map_values(relabel_item(f)) =~= target);
    lemma_top_k_same_items(re, target, k as int, false);
    lemma_top_k_properties(target, k as int, false);
    lemma_top_k_properties(scored_positions(exact, n), k as int, false);
    let e = best.map_values(|e: Scored| (ids[e.0 as int], e.1));
    assert(best.map_values(relabel_item(f)) =~= e);
    assert(top_k_spec(target, k as int, false) == e);
    assert(keys_of(target) =~= keys_of(scored_positions(exact, n)));
    let b = ivf_search_spec(cells, ids, nprobe, rescore_k, centroid, est, xf, k);
    assert(b == top_k_spec(re, k as int, false));
    assert forall|i: int|
        0 <= i < best.len() && keys_of(scored_positions(exact, n)).to_multiset().count(#[trigger] best[i].1) == 1
            implies b[i] == e[i] by {
        assert(e[i].1 == best[i].1);
        assert(top_k_spec(target, k as int, false)[i] == e[i]);
    }
}

proof fn lemma_dedup_prefix(s: Seq<Scored>, i: int)
    requires
        0 <= i < s.len(),
    ensures
        dedup_runs(s.take(i + 1)) == if i >= 1 && s[i - 1].0 == s[i].0 {
            dedup_runs(s.take(i))
        } else {
            dedup_runs(s.take(i)).push(s[i])
        },
{
    let p = s.take(i + 1);
    assert(p.drop_last() =~= s.take(i));
    assert(p.last() == s[i]);
    if i >= 1 {
        assert(p[p.len() - 2] == s[i - 1]);
    }
}

proof fn lemma_dedup_len(s: Seq<Scored>)
    ensures
        dedup_runs(s).len() <= s.len(),
    decreases s.len(),
{
    if s.len() > 0 {
        lemma_dedup_len(s.drop_last());
    }
}

/// Once `m` entries of a prefix survive deduplication, longer prefixes keep those `m` first.
proof fn lemma_dedup_take_stable(s: Seq<Scored>, i: int, m: int)
    requires
        0 <= i <= s.len(),
        0 <= m <= dedup_runs(s.take(i)).len(),
    ensures
        dedup_runs(s).take(m) == dedup_runs(s.take(i)).take(m),
        dedup_runs(s).len() >= m,
    decreases s.len() - i,
{
    if i == s.len() {
        assert(s.take(i) =~= s);
    } else {
        lemma_dedup_prefix(s, i);
        lemma_dedup_take_stable(s, i + 1, m);
        let a = dedup_runs(s.take(i));
        let b = dedup_runs(s.take(i + 1));
        assert(b.take(m) =~= a.take(m));
    }
}

} // verus!
