//! Bookkeeping of streaming product quantisation (CoDEQ): the code table,
//! consistency statistics, the queue of codes that may be stale, and the
//! reassignment of codes after centroids move.
use vstd::prelude::*;
use crate::nsw::{ids_exec, ids_of};
use crate::oracle::{is_oracle, score_positions, scored_positions};
use crate::rank::{Scored, top_k_ascending, top_k_spec};

verus! {

/// Subspaces per code.
pub const M: usize = 8;
/// Centroids per subspace.
pub const K: usize = 256;
/// Dimensions per subspace.
pub const SUB_DIM: usize = 16;

/// One byte (centroid index) per subspace.
pub type Code = [u8; M];

/// Consistency counters of a streaming index.
#[derive(Debug)]
pub struct ConsistencyStats {
    pub total_vectors: usize,
    /// Vectors whose code may be out of date.
    pub stale_count: usize,
    /// Cumulative code reassignments.
    pub reassignments: usize,
    /// Times the drift gate fired.
    pub drift_triggers: usize,
}

impl Default for ConsistencyStats {
    fn default() -> (r: Self)
        ensures
            r.total_vectors == 0,
            r.stale_count == 0,
            r.reassignments == 0,
            r.drift_triggers == 0,
    {
        ConsistencyStats { total_vectors: 0, stale_count: 0, reassignments: 0, drift_triggers: 0 }
    }
}

impl ConsistencyStats {
    /// Counters of a freshly trained index over `total_vectors` vectors.
    pub fn fresh(total_vectors: usize) -> (r: Self)
        ensures
            r.total_vectors == total_vectors,
            r.stale_count == 0,
            r.reassignments == 0,
            r.drift_triggers == 0,
    {
        ConsistencyStats { total_vectors, stale_count: 0, reassignments: 0, drift_triggers: 0 }
    }
}

/// The closure `f` gives the code of vector `i`.
pub open spec fn code_of<F: Fn(usize) -> Code>(f: F, i: usize) -> Code {
    choose|c: Code| call_ensures(f, (i,), c)
}

/// `f` can be asked about every index below `n` and always answers the same.
pub open spec fn is_code_oracle<F: Fn(usize) -> Code>(f: F, n: int) -> bool {
    &&& forall|i: usize| i < n ==> call_requires(f, (i,))
    &&& forall|i: usize, a: Code, b: Code| call_ensures(f, (i,), a) && call_ensures(f, (i,), b) ==> a == b
}

fn ask_code<F: Fn(usize) -> Code>(f: &F, i: usize, Ghost(n): Ghost<int>) -> (c: Code)
    requires
        is_code_oracle(*f, n),
        i < n,
    ensures
        c == code_of(*f, i),
{
    let c = f(i);
    assert(call_ensures(*f, (i,), c));
    c
}

/// The closure `f` gives the centroid of subspace `m` nearest to vector `i`.
pub open spec fn centroid_of<F: Fn(usize, usize) -> u8>(f: F, i: usize, m: usize) -> u8 {
    choose|c: u8| call_ensures(f, (i, m), c)
}

pub open spec fn is_centroid_oracle<F: Fn(usize, usize) -> u8>(f: F, n: int) -> bool {
    &&& forall|i: usize, m: usize| i < n && m < M ==> call_requires(f, (i, m))
    &&& forall|i: usize, m: usize, a: u8, b: u8| call_ensures(f, (i, m), a) && call_ensures(f, (i, m), b) ==> a == b
}

/// Ids (ascending) of the codes whose subspace `m` holds centroid `c`.
pub open spec fn ids_with_centroid(codes: Seq<Code>, m: int, c: u8) -> Seq<usize>
    decreases codes.len(),
{
    if codes.len() == 0 {
        Seq::empty()
    } else if codes.last()[m] == c {
        ids_with_centroid(codes.drop_last(), m, c).push((codes.len() - 1) as usize)
    } else {
        ids_with_centroid(codes.drop_last(), m, c)
    }
}

/// For each subspace in turn, the ids of the codes sharing the new code's centroid there.
pub open spec fn pending_marks(codes: Seq<Code>, new_code: Code, upto: int) -> Seq<usize>
    decreases upto,
{
    if upto <= 0 {
        Seq::empty()
    } else {
        pending_marks(codes, new_code, upto - 1) + ids_with_centroid(codes, upto - 1, new_code[upto - 1])
    }
}

/// The indices of `codes` whose subspace `m` holds centroid `c`, ascending.
pub fn members_with(codes: &Vec<Code>, m: usize, c: u8) -> (r: Vec<usize>)
    requires
        m < M,
    ensures
        r@ == ids_with_centroid(codes@, m as int, c),
{
    let mut r: Vec<usize> = Vec::new();
    let mut i: usize = 0;
    assert(codes@.take(0) =~= Seq::<Code>::empty());
    while i < codes.len()
        invariant
            i <= codes@.len(),
            m < M,
            r@ == ids_with_centroid(codes@.take(i as int), m as int, c),
        decreases codes@.len() - i,
    {
        assert(codes@.take(i + 1).drop_last() =~= codes@.take(i as int));
        assert(codes@.take(i + 1).last() == codes@[i as int]);
        if codes[i][m] == c {
            r.push(i);
        }
        i = i + 1;
    }
    assert(codes@.take(codes@.len() as int) =~= codes@);
    r
}

fn same_code(a: &Code, b: &Code) -> (r: bool)
    ensures
        r == (a@ == b@),
{
    let mut i: usize = 0;
    while i < M
        invariant
            i <= M,
            forall|j: int| 0 <= j < i ==> a@[j] == b@[j],
        decreases M - i,
    {
        if a[i] != b[i] {
            return false;
        }
        i = i + 1;
    }
    assert(a@ =~= b@);
    true
}

/// The code table of a streaming index with its statistics and the queue of
/// codes that may be stale.
pub struct CodeTable {
    pub codes: Vec<Code>,
    pub stats: ConsistencyStats,
    pub pending: Vec<usize>,
}

/// The effect of re-checking one queued index: a stale code is replaced by
/// the correct one and counted.
pub open spec fn recheck(codes: Seq<Code>, reassigned: nat, idx: usize, correct: Code) -> (Seq<Code>, nat) {
    if idx >= codes.len() || codes[idx as int]@ == correct@ {
        (codes, reassigned)
    } else {
        (codes.update(idx as int, correct), reassigned + 1)
    }
}

pub open spec fn recheck_all<F: Fn(usize) -> Code>(codes: Seq<Code>, reassigned: nat, queue: Seq<usize>, f: F) -> (Seq<Code>, nat)
    decreases queue.len(),
{
    if queue.len() == 0 {
        (codes, reassigned)
    } else {
        let (c, r) = recheck_all(codes, reassigned, queue.drop_last(), f);
        recheck(c, r, queue.last(), code_of(f, queue.last()))
    }
}

/// The codes as byte sequences.
pub open spec fn code_views(codes: Seq<Code>) -> Seq<Seq<u8>> {
    codes.map_values(|c: Code| c@)
}

/// The effect of moving centroid indices in subspace `m` for the listed members.
pub open spec fn reassign_all<F: Fn(usize, usize) -> u8>(codes: Seq<Seq<u8>>, reassigned: nat, members: Seq<usize>, m: usize, f: F) -> (Seq<Seq<u8>>, nat)
    decreases members.len(),
{
    if members.len() == 0 {
        (codes, reassigned)
    } else {
        let (c, r) = reassign_all(codes, reassigned, members.drop_last(), m, f);
        let idx = members.last();
        let nc = centroid_of(f, idx, m);
        if c[idx as int][m as int] == nc {
            (c, r)
        } else {
            (c.update(idx as int, c[idx as int].update(m as int, nc)), r + 1)
        }
    }
}

impl CodeTable {
    pub fn new(codes: Vec<Code>) -> (r: Self)
        ensures
            r.codes@ == codes@,
            r.stats.total_vectors == codes@.len(),
            r.stats.stale_count == 0,
            r.stats.reassignments == 0,
            r.stats.drift_triggers == 0,
            r.pending@.len() == 0,
    {
        let n = codes.len();
        CodeTable { codes, stats: ConsistencyStats::fresh(n), pending: Vec::new() }
    }

    /// Lazy insert: queue, for every subspace, the codes that share the new
    /// code's centroid there; append the code; the stale count becomes the
    /// queue length capped by the number of vectors.
    pub fn insert_lazy(&mut self, new_code: Code)
        requires
            old(self).stats.total_vectors < usize::MAX,
            old(self).pending@.len() + M * old(self).codes@.len() <= usize::MAX,
        ensures
            final(self).pending@ == old(self).pending@ + pending_marks(old(self).codes@, new_code, M as int),
            final(self).codes@ == old(self).codes@.push(new_code),
            final(self).stats.total_vectors == old(self).stats.total_vectors + 1,
            final(self).stats.stale_count == if final(self).pending@.len() < final(self).stats.total_vectors {
                final(self).pending@.len() as int
            } else {
                final(self).stats.total_vectors as int
            },
            final(self).stats.reassignments == old(self).stats.reassignments,
            final(self).stats.drift_triggers == old(self).stats.drift_triggers,
    {
        let ghost p0 = self.pending@;
        let mut m: usize = 0;
        while m < M
            invariant
                m <= M,
                self.codes@ == old(self).codes@,
                self.stats == old(self).stats,
                self.pending@ == p0 + pending_marks(old(self).codes@, new_code, m as int),
                p0 == old(self).pending@,
                p0.len() + M * old(self).codes@.len() <= usize::MAX,
                pending_marks(old(self).codes@, new_code, m as int).len() <= m * old(self).codes@.len(),
            decreases M - m,
        {
            let c = new_code[m];
            let ids = members_with(&self.codes, m, c);
            proof {
                lemma_ids_with_centroid_len(old(self).codes@, m as int, c);
                let len = old(self).codes@.len();
                assert((m + 1) * len == m * len + len) by (nonlinear_arith);
                assert((m + 1) * len <= M * len) by (nonlinear_arith)
                    requires
                        m < M;
            }
            let mut j: usize = 0;
            let ghost before = self.pending@;
            while j < ids.len()
                invariant
                    j <= ids@.len(),
                    self.pending@ == before + ids@.take(j as int),
                    before.len() + ids@.len() <= usize::MAX,
                    self.codes@ == old(self).codes@,
                    self.stats == old(self).stats,
                decreases ids@.len() - j,
            {
                self.pending.push(ids[j]);
                assert(self.pending@ =~= before + ids@.take(j + 1));
                j = j + 1;
            }
            assert(ids@.take(ids@.len() as int) =~= ids@);
            assert(self.pending@ =~= p0 + pending_marks(old(self).codes@, new_code, (m + 1) as int));
            m = m + 1;
        }
        self.codes.push(new_code);
        self.stats.total_vectors = self.stats.total_vectors + 1;
        let plen = self.pending.len();
        self.stats.stale_count = if plen < self.stats.total_vectors { plen } else { self.stats.total_vectors };
    }

    /// Eager insert: append the code and count the vector.
    pub fn append(&mut self, new_code: Code)
        requires
            old(self).stats.total_vectors < usize::MAX,
        ensures
            final(self).codes@ == old(self).codes@.push(new_code),
            final(self).stats.total_vectors == old(self).stats.total_vectors + 1,
            final(self).stats.stale_count == old(self).stats.stale_count,
            final(self).stats.reassignments == old(self).stats.reassignments,
            final(self).stats.drift_triggers == old(self).stats.drift_triggers,
            final(self).pending@ == old(self).pending@,
    {
        self.codes.push(new_code);
        self.stats.total_vectors = self.stats.total_vectors + 1;
    }

    /// Eager reassignment in subspace `m`: each listed member whose nearest
    /// centroid (given by `nearest`) differs from its code takes it, and is counted.
    pub fn reassign<F: Fn(usize, usize) -> u8>(&mut self, members: &Vec<usize>, m: usize, nearest: F)
        requires
            m < M,
            forall|i: int| 0 <= i < members@.len() ==> (#[trigger] members@[i]) < old(self).codes@.len(),
            is_centroid_oracle(nearest, old(self).codes@.len() as int),
            old(self).stats.reassignments + members@.len() <= usize::MAX,
        ensures
            (code_views(final(self).codes@), final(self).stats.reassignments as nat) == reassign_all(
                code_views(old(self).codes@),
                old(self).stats.reassignments as nat,
                members@,
                m,
                nearest,
            ),
            final(self).stats.total_vectors == old(self).stats.total_vectors,
            final(self).stats.stale_count == old(self).stats.stale_count,
            final(self).stats.drift_triggers == old(self).stats.drift_triggers,
            final(self).pending@ == old(self).pending@,
    {
        let n = self.codes.len();
        let mut j: usize = 0;
        assert(members@.take(0) =~= Seq::<usize>::empty());
        while j < members.len()
            invariant
                j <= members@.len(),
                m < M,
                n == self.codes@.len(),
                n == old(self).codes@.len(),
                forall|i: int| 0 <= i < members@.len() ==> (#[trigger] members@[i]) < n,
                is_centroid_oracle(nearest, n as int),
                self.stats.reassignments <= old(self).stats.reassignments + j,
                old(self).stats.reassignments + members@.len() <= usize::MAX,
                (code_views(self.codes@), self.stats.reassignments as nat) == reassign_all(
                    code_views(old(self).codes@),
                    old(self).stats.reassignments as nat,
                    members@.take(j as int),
                    m,
                    nearest,
                ),
                self.stats.total_vectors == old(self).stats.total_vectors,
                self.stats.stale_count == old(self).stats.stale_count,
                self.stats.drift_triggers == old(self).stats.drift_triggers,
                self.pending@ == old(self).pending@,
            decreases members@.len() - j,
        {
            let idx = members[j];
            assert(members@.take(j + 1).drop_last() =~= members@.take(j as int));
            let nc = nearest(idx, m);
            assert(call_ensures(nearest, (idx, m), nc));
            assert(nc == centroid_of(nearest, idx, m));
            let cur = self.codes[idx][m];
            let ghost before = code_views(self.codes@);
            if cur != nc {
                let mut code = self.codes[idx];
                code[m] = nc;
                self.codes.set(idx, code);
                self.stats.reassignments = self.stats.reassignments + 1;
                assert(code_views(self.codes@) =~= before.update(idx as int, before[idx as int].update(m as int, nc)));
            }
            j = j + 1;
        }
        assert(members@.take(members@.len() as int) =~= members@);
    }

    /// Removes entry `idx` by moving the last entry into its place; the
    /// counters drop by one, saturating at zero (the stale count too when
    /// `lower_stale`).
    pub fn delete(&mut self, idx: usize, lower_stale: bool)
        requires
            idx < old(self).codes@.len(),
        ensures
            final(self).codes@ == old(self).codes@.update(idx as int, old(self).codes@.last()).drop_last(),
            final(self).stats.total_vectors == if old(self).stats.total_vectors > 0 {
                old(self).stats.total_vectors - 1
            } else {
                0
            },
            final(self).stats.stale_count == if lower_stale && old(self).stats.stale_count > 0 {
                old(self).stats.stale_count - 1
            } else {
                old(self).stats.stale_count as int
            },
            final(self).stats.reassignments == old(self).stats.reassignments,
            final(self).stats.drift_triggers == old(self).stats.drift_triggers,
            final(self).pending@ == old(self).pending@,
    {
        self.codes.swap_remove(idx);
        self.stats.total_vectors = self.stats.total_vectors.saturating_sub(1);
        if lower_stale {
            self.stats.stale_count = self.stats.stale_count.saturating_sub(1);
        }
    }

    /// Lazy flush: every queued index still in range is re-encoded (`correct`
    /// gives the right code) and a differing code replaced and counted; the
    /// queue empties and the stale count drops to zero.  With `drift` the
    /// flush is counted as a drift trigger.
    pub fn flush<F: Fn(usize) -> Code>(&mut self, correct: F, drift: bool)
        requires
            is_code_oracle(correct, old(self).codes@.len() as int),
            old(self).stats.reassignments + old(self).pending@.len() <= usize::MAX,
            drift ==> old(self).stats.drift_triggers < usize::MAX,
        ensures
            (final(self).codes@, final(self).stats.reassignments as nat) == recheck_all(
                old(self).codes@,
                old(self).stats.reassignments as nat,
                old(self).pending@,
                correct,
            ),
            final(self).pending@.len() == 0,
            final(self).stats.stale_count == 0,
            final(self).stats.total_vectors == old(self).stats.total_vectors,
            final(self).stats.drift_triggers == old(self).stats.drift_triggers + if drift {
                1int
            } else {
                0int
            },
    {
        if drift {
            self.stats.drift_triggers = self.stats.drift_triggers + 1;
        }
        let mut queue: Vec<usize> = Vec::new();
        std::mem::swap(&mut queue, &mut self.pending);
        let n = self.codes.len();
        let mut j: usize = 0;
        assert(queue@.take(0) =~= Seq::<usize>::empty());
        while j < queue.len()
            invariant
                j <= queue@.len(),
                queue@ == old(self).pending@,
                n == self.codes@.len(),
                n == old(self).codes@.len(),
                is_code_oracle(correct, n as int),
                self.stats.reassignments <= old(self).stats.reassignments + j,
                old(self).stats.reassignments + old(self).pending@.len() <= usize::MAX,
                (self.codes@, self.stats.reassignments as nat) == recheck_all(
                    old(self).codes@,
                    old(self).stats.reassignments as nat,
                    queue@.take(j as int),
                    correct,
                ),
                self.stats.total_vectors == old(self).stats.total_vectors,
                self.stats.drift_triggers == old(self).stats.drift_triggers + if drift {
                    1int
                } else {
                    0int
                },
                self.pending@.len() == 0,
            decreases queue@.len() - j,
        {
            let idx = queue[j];
            assert(queue@.take(j + 1).drop_last() =~= queue@.take(j as int));
            if idx < n {
                let c = ask_code(&correct, idx, Ghost(n as int));
                if !same_code(&c, &self.codes[idx]) {
                    self.codes.set(idx, c);
                    self.stats.reassignments = self.stats.reassignments + 1;
                }
            }
            j = j + 1;
        }
        assert(queue@.take(queue@.len() as int) =~= queue@);
        self.stats.stale_count = 0;
    }
}

/// k-NN over codes: the `k` codes with the smallest asymmetric distance
/// keys (`dist` gives the key of the code at each position, summed from the
/// caller's lookup table), as `(position, key)`, nearest first.
pub fn knn_from_codes<F: Fn(usize) -> u64>(dist: F, n_codes: usize, k: usize) -> (r: Vec<Scored>)
    requires
        is_oracle(dist, n_codes as int),
    ensures
        r@ == top_k_spec(scored_positions(dist, n_codes as nat), k as int, false),
{
    let all = score_positions(&dist, n_codes);
    top_k_ascending(&all, k)
}

/// Exact k-NN: the positions of the `k` vectors with the smallest exact
/// distance keys, nearest first.
pub fn brute_force_knn<F: Fn(usize) -> u64>(dist: F, n: usize, k: usize) -> (r: Vec<usize>)
    requires
        is_oracle(dist, n as int),
    ensures
        r@ == ids_of(top_k_spec(scored_positions(dist, n as nat), k as int, false)),
{
    let all = score_positions(&dist, n);
    let best = top_k_ascending(&all, k);
    ids_exec(&best)
}

proof fn lemma_ids_with_centroid_len(codes: Seq<Code>, m: int, c: u8)
    ensures
        ids_with_centroid(codes, m, c).len() <= codes.len(),
    decreases codes.len(),
{
    if codes.len() > 0 {
        lemma_ids_with_centroid_len(codes.drop_last(), m, c);
    }
}

} // verus!
