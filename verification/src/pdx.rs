//! Row-major, columnar and tiled-columnar brute-force scans (the PDX layouts),
//! with the tile pruning of the tiled scan.
//!
//! The layouts differ in how the caller computes distances; what is decided
//! here is which entries are scored, in which order, and which are returned.
//! Distances come as order keys by position (smaller is nearer); results are
//! ordered by distance, then by id, as sorting `(distance, id)` pairs does.
use vstd::prelude::*;
use crate::lex::{KeyId, insert_all, lemma_insert_all_beyond, lemma_insert_all_kth, lemma_sort_append, lemma_sort_lex, lemma_sort_lex_by_multiset, lex_select, sort_lex, top_lex};
use crate::rank::min_nat;
use crate::oracle::{ask, is_oracle, key_of};

verus! {

/// Squared Euclidean distance (the caller's kernel).
pub struct L2Sq;

/// One minus the inner product (the caller's kernel).
pub struct NegDot;

/// The first `k` of the `(key, id)` pairs `vals` by key, then id, as `(id, key)`.
pub open spec fn ranked_pairs(vals: Seq<KeyId>, k: int) -> Seq<(u64, u64)> {
    top_lex(vals, k).map_values(|v: KeyId| (v.1, v.0))
}

/// Sorts `(key, id)` pairs by key, then id, and returns the first `k` as `(id, key)`.
pub fn nearest_pairs(vals: &Vec<KeyId>, k: usize) -> (r: Vec<(u64, u64)>)
    ensures
        r@ == ranked_pairs(vals@, k as int),
{
    let best = lex_select(vals, k);
    let mut r: Vec<(u64, u64)> = Vec::new();
    let mut i: usize = 0;
    while i < best.len()
        invariant
            i <= best@.len(),
            r@ == best@.take(i as int).map_values(|v: KeyId| (v.1, v.0)),
        decreases best@.len() - i,
    {
        let v = best[i];
        r.push((v.1, v.0));
        assert(r@ =~= best@.take(i + 1).map_values(|v: KeyId| (v.1, v.0)));
        i = i + 1;
    }
    assert(best@.take(best@.len() as int) =~= best@);
    r
}

/// Every stored position as `(dist key, id)`.
pub open spec fn all_pairs(ids: Seq<u64>, dist: spec_fn(usize) -> u64) -> Seq<KeyId> {
    Seq::new(ids.len(), |p: int| (dist(p as usize), ids[p]))
}

fn pair_all<F: Fn(usize) -> u64>(dist: &F, ids: &Vec<u64>) -> (r: Vec<KeyId>)
    requires
        is_oracle(*dist, ids@.len() as int),
    ensures
        r@ == all_pairs(ids@, |p: usize| key_of(*dist, p)),
{
    let ghost df = |p: usize| key_of(*dist, p);
    let n = ids.len();
    let mut r: Vec<KeyId> = Vec::new();
    let mut p: usize = 0;
    while p < n
        invariant
            p <= n,
            n == ids@.len(),
            is_oracle(*dist, n as int),
            df == (|p: usize| key_of(*dist, p)),
            r@ == all_pairs(ids@, df).take(p as int),
        decreases n - p,
    {
        let d = ask(dist, p, Ghost(n as int));
        r.push((d, ids[p]));
        assert(r@ =~= all_pairs(ids@, df).take(p + 1));
        p = p + 1;
    }
    assert(all_pairs(ids@, df).take(n as int) =~= all_pairs(ids@, df));
    r
}

/// Row-major brute-force index: the ids of the stored vectors.
pub struct RowMajorIndex {
    ids: Vec<u64>,
    n: usize,
    dim: usize,
}

impl RowMajorIndex {
    #[verifier::type_invariant]
    spec fn inv(&self) -> bool {
        self.n == self.ids@.len()
    }

    pub closed spec fn ids(&self) -> Seq<u64> {
        self.ids@
    }

    pub closed spec fn spec_dim(&self) -> usize {
        self.dim
    }

    pub fn new(dim: usize) -> (r: Self)
        ensures
            r.ids().len() == 0,
            r.spec_dim() == dim,
    {
        RowMajorIndex { ids: Vec::new(), n: 0, dim }
    }

    /// Records a vector of length `len` under `id`.
    pub fn insert(&mut self, id: u64, len: usize)
        requires
            len == old(self).spec_dim(),
        ensures
            final(self).ids() == old(self).ids().push(id),
            final(self).spec_dim() == old(self).spec_dim(),
    {
        let mut tmp = RowMajorIndex { ids: Vec::new(), n: 0, dim: 0 };
        std::mem::swap(&mut tmp, self);
        proof {
            use_type_invariant(&tmp);
        }
        let RowMajorIndex { mut ids, n, dim } = tmp;
        ids.push(id);
        let count = ids.len();
        *self = RowMajorIndex { ids, n: count, dim };
    }

    pub fn len(&self) -> (r: usize)
        ensures
            r == self.ids().len(),
    {
        proof {
            use_type_invariant(self);
        }
        self.n
    }

    pub fn is_empty(&self) -> (r: bool)
        ensures
            r == (self.ids().len() == 0),
    {
        proof {
            use_type_invariant(self);
        }
        self.n == 0
    }

    /// The `k` nearest stored vectors, `dist` giving the distance key of the
    /// vector at each position; as `(id, key)` ordered by `(key, id)`.
    pub fn search<F: Fn(usize) -> u64>(&self, k: usize, dist: F) -> (r: Vec<(u64, u64)>)
        requires
            is_oracle(dist, self.ids().len() as int),
        ensures
            r@ == ranked_pairs(all_pairs(self.ids(), |p: usize| key_of(dist, p)), k as int),
    {
        let all = pair_all(&dist, &self.ids);
        nearest_pairs(&all, k)
    }
}

/// Column-major brute-force index: the ids of the stored vectors.
pub struct ColumnarIndex {
    ids: Vec<u64>,
    n: usize,
    dim: usize,
}

impl ColumnarIndex {
    #[verifier::type_invariant]
    spec fn inv(&self) -> bool {
        self.n == self.ids@.len()
    }

    pub closed spec fn ids(&self) -> Seq<u64> {
        self.ids@
    }

    pub closed spec fn spec_dim(&self) -> usize {
        self.dim
    }

    pub fn new(dim: usize) -> (r: Self)
        ensures
            r.ids().len() == 0,
            r.spec_dim() == dim,
    {
        ColumnarIndex { ids: Vec::new(), n: 0, dim }
    }

    /// Records a vector of length `len` under `id`.
    pub fn insert(&mut self, id: u64, len: usize)
        requires
            len == old(self).spec_dim(),
        ensures
            final(self).ids() == old(self).ids().push(id),
            final(self).spec_dim() == old(self).spec_dim(),
    {
        let mut tmp = ColumnarIndex { ids: Vec::new(), n: 0, dim: 0 };
        std::mem::swap(&mut tmp, self);
        proof {
            use_type_invariant(&tmp);
        }
        let ColumnarIndex { mut ids, n, dim } = tmp;
        ids.push(id);
        let count = ids.len();
        *self = ColumnarIndex { ids, n: count, dim };
    }

    pub fn len(&self) -> (r: usize)
        ensures
            r == self.ids().len(),
    {
        proof {
            use_type_invariant(self);
        }
        self.n
    }

    pub fn is_empty(&self) -> (r: bool)
        ensures
            r == (self.ids().len() == 0),
    {
        proof {
            use_type_invariant(self);
        }
        self.n == 0
    }

    /// The `k` nearest stored vectors, `dist` giving the distance key of the
    /// vector at each position (computed column by column by the caller);
    /// as `(id, key)` ordered by `(key, id)`.
    pub fn search<F: Fn(usize) -> u64>(&self, k: usize, dist: F) -> (r: Vec<(u64, u64)>)
        requires
            is_oracle(dist, self.ids().len() as int),
        ensures
            r@ == ranked_pairs(all_pairs(self.ids(), |p: usize| key_of(dist, p)), k as int),
    {
        let all = pair_all(&dist, &self.ids);
        nearest_pairs(&all, k)
    }
}

/// The smallest of `ceiling` and the keys `partial` gives positions
/// `start..start + count`.
pub open spec fn partial_min(partial: spec_fn(usize) -> u64, start: int, count: int, ceiling: u64) -> u64
    decreases count,
{
    if count <= 0 {
        ceiling
    } else {
        let m = partial_min(partial, start, count - 1, ceiling);
        let x = partial((start + count - 1) as usize);
        if x < m {
            x
        } else {
            m
        }
    }
}

/// The positions of one tile as `(full key, id)`.
pub open spec fn tile_entries(start: int, count: int, full: spec_fn(usize) -> u64, ids: Seq<u64>) -> Seq<KeyId> {
    Seq::new(count as nat, |i: int| (full((start + i) as usize), ids[start + i]))
}

/// The state of a tiled scan: the scored entries so far and the current
/// k-th best key.
pub struct ChunkState {
    pub results: Seq<KeyId>,
    pub kth: u64,
}

/// A tile is skipped when pruning is on, `k` results are already held, and
/// even the smallest partial key of the tile (capped at `ceiling`) exceeds
/// the current k-th best.
pub open spec fn tile_pruned(st: ChunkState, tile: (usize, usize), k: int, prune_dims: int, partial: spec_fn(usize) -> u64, ceiling: u64) -> bool {
    prune_dims > 0 && k <= st.results.len() && partial_min(partial, tile.0 as int, tile.1 as int, ceiling) > st.kth
}

/// One tile of the scan: skipped, or scored in full, after which the k-th
/// best key is recomputed once `k` results are held.
pub open spec fn chunk_step(
    st: ChunkState,
    tile: (usize, usize),
    k: int,
    prune_dims: int,
    partial: spec_fn(usize) -> u64,
    full: spec_fn(usize) -> u64,
    ids: Seq<u64>,
    ceiling: u64,
) -> ChunkState {
    if tile_pruned(st, tile, k, prune_dims, partial, ceiling) {
        st
    } else {
        let res = st.results + tile_entries(tile.0 as int, tile.1 as int, full, ids);
        ChunkState {
            results: res,
            kth: if res.len() >= k {
                top_lex(res, k)[k - 1].0
            } else {
                st.kth
            },
        }
    }
}

/// The scan over the tiles `tiles` (each `(start, count)`), in order.
pub open spec fn chunk_run(
    tiles: Seq<(usize, usize)>,
    k: int,
    prune_dims: int,
    partial: spec_fn(usize) -> u64,
    full: spec_fn(usize) -> u64,
    ids: Seq<u64>,
    ceiling: u64,
) -> ChunkState
    decreases tiles.len(),
{
    if tiles.len() == 0 {
        ChunkState { results: Seq::empty(), kth: ceiling }
    } else {
        chunk_step(
            chunk_run(tiles.drop_last(), k, prune_dims, partial, full, ids, ceiling),
            tiles.last(),
            k,
            prune_dims,
            partial,
            full,
            ids,
            ceiling,
        )
    }
}

/// What the tiled scan returns: the `k` smallest of the scored entries by
/// `(key, id)`, as `(id, key)`.
pub open spec fn chunked_search_spec(
    tiles: Seq<(usize, usize)>,
    ids: Seq<u64>,
    k: int,
    prune_dims: int,
    partial: spec_fn(usize) -> u64,
    full: spec_fn(usize) -> u64,
    ceiling: u64,
) -> Seq<(u64, u64)> {
    ranked_pairs(chunk_run(tiles, k, prune_dims, partial, full, ids, ceiling).results, k)
}

/// Tiles `(start, count)` that cut `0..n` into consecutive non-empty runs.
pub open spec fn tiles_cover(tiles: Seq<(usize, usize)>, n: nat) -> bool {
    &&& tiles.len() == 0 ==> n == 0
    &&& tiles.len() > 0 ==> tiles[0].0 == 0 && tiles.last().0 + tiles.last().1 == n
    &&& forall|t: int| 0 <= t < tiles.len() ==> (#[trigger] tiles[t]).1 >= 1
    &&& forall|t: int| 0 < t < tiles.len() ==> (#[trigger] tiles[t]).0 == tiles[t - 1].0 + tiles[t - 1].1
}

proof fn lemma_tiles_within(tiles: Seq<(usize, usize)>, n: nat, t: int)
    requires
        tiles_cover(tiles, n),
        0 <= t < tiles.len(),
    ensures
        tiles[t].0 + tiles[t].1 <= n,
    decreases tiles.len() - t,
{
    if t < tiles.len() - 1 {
        lemma_tiles_within(tiles, n, t + 1);
        assert(tiles[t + 1].0 == tiles[(t + 1) - 1].0 + tiles[(t + 1) - 1].1);
    }
}

struct ColumnarTile {
    count: usize,
    start_idx: usize,
}

/// Tiled columnar index: vectors are grouped, in insertion order, into tiles
/// of `tile_size`; the caller holds each tile's columns.
pub struct ChunkedColumnarIndex {
    tiles: Vec<ColumnarTile>,
    ids: Vec<u64>,
    n: usize,
    pub dim: usize,
    pub tile_size: usize,
}

impl ChunkedColumnarIndex {
    /// The tiles as `(start, count)`.
    pub closed spec fn tiles(&self) -> Seq<(usize, usize)> {
        self.tiles@.map_values(|t: ColumnarTile| (t.start_idx, t.count))
    }

    pub closed spec fn ids(&self) -> Seq<u64> {
        self.ids@
    }

    pub closed spec fn spec_dim(&self) -> usize {
        self.dim
    }

    pub closed spec fn spec_tile_size(&self) -> usize {
        self.tile_size
    }

    /// The tiles cover the stored positions.
    pub closed spec fn wf(&self) -> bool {
        &&& self.n == self.ids@.len()
        &&& tiles_cover(self.tiles(), self.n as nat)
    }

    pub fn new(dim: usize, tile_size: usize) -> (r: Self)
        ensures
            r.wf(),
            r.ids().len() == 0,
            r.tiles().len() == 0,
            r.spec_dim() == dim,
            r.spec_tile_size() == tile_size,
    {
        let r = ChunkedColumnarIndex { tiles: Vec::new(), ids: Vec::new(), n: 0, dim, tile_size };
        assert(r.tiles() =~= Seq::<(usize, usize)>::empty());
        r
    }

    /// Records a vector of length `len` under `id`: it joins the last tile,
    /// or starts a new one when there is none or the last is full.
    pub fn insert(&mut self, id: u64, len: usize)
        requires
            old(self).wf(),
            len == old(self).spec_dim(),
            old(self).ids().len() < usize::MAX,
        ensures
            final(self).wf(),
            final(self).ids() == old(self).ids().push(id),
            final(self).spec_dim() == old(self).spec_dim(),
            final(self).spec_tile_size() == old(self).spec_tile_size(),
            final(self).tiles() == if old(self).tiles().len() == 0 || old(self).tiles().last().1 >= old(self).spec_tile_size() {
                old(self).tiles().push((old(self).ids().len() as usize, 1usize))
            } else {
                old(self).tiles().update(
                    old(self).tiles().len() - 1,
                    (old(self).tiles().last().0, (old(self).tiles().last().1 + 1) as usize),
                )
            },
    {
        let ghost t0 = self.tiles();
        let nt = self.tiles.len();
        let need_new = nt == 0 || self.tiles[nt - 1].count >= self.tile_size;
        if need_new {
            self.tiles.push(ColumnarTile { count: 1, start_idx: self.n });
            assert(self.tiles() =~= t0.push((self.n, 1usize)));
        } else {
            let last = ColumnarTile { count: self.tiles[nt - 1].count, start_idx: self.tiles[nt - 1].start_idx };
            assert(last.count + last.start_idx == self.n);
            self.tiles.set(nt - 1, ColumnarTile { count: last.count + 1, start_idx: last.start_idx });
            assert(self.tiles() =~= t0.update(nt - 1, (last.start_idx, (last.count + 1) as usize)));
        }
        self.ids.push(id);
        self.n = self.n + 1;
    }

    pub fn len(&self) -> (r: usize)
        requires
            self.wf(),
        ensures
            r == self.ids().len(),
    {
        self.n
    }

    pub fn is_empty(&self) -> (r: bool)
        requires
            self.wf(),
        ensures
            r == (self.ids().len() == 0),
    {
        self.n == 0
    }

    /// k-nearest search over the tiles, in order. `full` gives the distance
    /// key of the vector at each position; `partial` its key over the first
    /// `min(prune_dims, dim)` dimensions; `ceiling` is the key of the largest
    /// finite distance, the bound before `k` results are held. With
    /// `prune_dims > 0`, a tile whose smallest partial key exceeds the
    /// current k-th best is skipped.
    pub fn search<F1: Fn(usize) -> u64, F2: Fn(usize) -> u64>(
        &self,
        k: usize,
        prune_dims: usize,
        partial: F1,
        full: F2,
        ceiling: u64,
    ) -> (r: Vec<(u64, u64)>)
        requires
            self.wf(),
            k > 0 || self.ids().len() == 0,
            is_oracle(partial, self.ids().len() as int),
            is_oracle(full, self.ids().len() as int),
        ensures
            r@ == chunked_search_spec(
                self.tiles(),
                self.ids(),
                k as int,
                prune_dims as int,
                |p: usize| key_of(partial, p),
                |p: usize| key_of(full, p),
                ceiling,
            ),
    {
        let ghost pf = |p: usize| key_of(partial, p);
        let ghost ff = |p: usize| key_of(full, p);
        let ghost tv = self.tiles();
        let ghost iv = self.ids@;
        let n = self.n;
        let mut results: Vec<KeyId> = Vec::new();
        let mut kth: u64 = ceiling;
        let mut t: usize = 0;
        assert(tv.take(0) =~= Seq::<(usize, usize)>::empty());
        while t < self.tiles.len()
            invariant
                t <= self.tiles@.len(),
                self.wf(),
                n == self.n,
                tv == self.tiles(),
                iv == self.ids@,
                k > 0 || n == 0,
                is_oracle(partial, n as int),
                is_oracle(full, n as int),
                pf == (|p: usize| key_of(partial, p)),
                ff == (|p: usize| key_of(full, p)),
                chunk_run(tv.take(t as int), k as int, prune_dims as int, pf, ff, iv, ceiling) == (ChunkState {
                    results: results@,
                    kth,
                }),
            decreases self.tiles@.len() - t,
        {
            let ghost st = ChunkState { results: results@, kth };
            let start = self.tiles[t].start_idx;
            let count = self.tiles[t].count;
            proof {
                assert(tv[t as int] == (start, count));
                lemma_tiles_within(tv, n as nat, t as int);
                assert(tv.take(t + 1).drop_last() =~= tv.take(t as int));
                assert(tv.take(t + 1).last() == tv[t as int]);
            }
            let mut skip = false;
            if prune_dims > 0 && k <= results.len() {
                let mut m: u64 = ceiling;
                let mut i: usize = 0;
                while i < count
                    invariant
                        i <= count,
                        start + count <= n,
                        is_oracle(partial, n as int),
                        pf == (|p: usize| key_of(partial, p)),
                        m == partial_min(pf, start as int, i as int, ceiling),
                    decreases count - i,
                {
                    let x = ask(&partial, start + i, Ghost(n as int));
                    if x < m {
                        m = x;
                    }
                    i = i + 1;
                }
                skip = m > kth;
            }
            assert(skip == tile_pruned(st, (start, count), k as int, prune_dims as int, pf, ceiling));
            if !skip {
                let ghost before = results@;
                let mut i: usize = 0;
                while i < count
                    invariant
                        i <= count,
                        start + count <= n,
                        n == self.ids@.len(),
                        iv == self.ids@,
                        is_oracle(full, n as int),
                        ff == (|p: usize| key_of(full, p)),
                        results@ == before + tile_entries(start as int, count as int, ff, iv).take(i as int),
                    decreases count - i,
                {
                    let d = ask(&full, start + i, Ghost(n as int));
                    results.push((d, self.ids[start + i]));
                    assert(results@ =~= before + tile_entries(start as int, count as int, ff, iv).take(i + 1));
                    i = i + 1;
                }
                assert(tile_entries(start as int, count as int, ff, iv).take(count as int) =~= tile_entries(
                    start as int,
                    count as int,
                    ff,
                    iv,
                ));
                if results.len() >= k {
                    let best = lex_select(&results, k);
                    proof {
                        crate::lex::lemma_sort_lex(results@);
                    }
                    kth = best[k - 1].0;
                }
            }
            t = t + 1;
        }
        assert(tv.take(tv.len() as int) =~= tv);
        nearest_pairs(&results, k)
    }
}

/// The `(key, id)` pairs of positions `0..e`.
pub open spec fn pairs_upto(e: int, full: spec_fn(usize) -> u64, ids: Seq<u64>) -> Seq<KeyId> {
    Seq::new(e as nat, |p: int| (full(p as usize), ids[p]))
}

/// Where the first `t` tiles end.
pub open spec fn tiles_end(tiles: Seq<(usize, usize)>, t: int) -> int {
    if t <= 0 {
        0
    } else {
        tiles[t - 1].0 + tiles[t - 1].1
    }
}

proof fn lemma_unpruned_prefix(
    tiles: Seq<(usize, usize)>,
    n: nat,
    k: int,
    partial: spec_fn(usize) -> u64,
    full: spec_fn(usize) -> u64,
    ids: Seq<u64>,
    ceiling: u64,
    t: int,
)
    requires
        tiles_cover(tiles, n),
        0 <= t <= tiles.len(),
    ensures
        chunk_run(tiles.take(t), k, 0, partial, full, ids, ceiling).results == pairs_upto(tiles_end(tiles, t), full, ids),
    decreases t,
{
    if t == 0 {
        assert(tiles.take(0) =~= Seq::<(usize, usize)>::empty());
        assert(pairs_upto(0, full, ids) =~= Seq::<KeyId>::empty());
    } else {
        lemma_unpruned_prefix(tiles, n, k, partial, full, ids, ceiling, t - 1);
        assert(tiles.take(t).drop_last() =~= tiles.take(t - 1));
        assert(tiles.take(t).last() == tiles[t - 1]);
        let e = tiles_end(tiles, t - 1);
        if t >= 2 {
            assert(tiles[t - 1].0 == tiles[t - 2].0 + tiles[t - 2].1);
        }
        assert(tiles[t - 1].0 == e);
        assert(pairs_upto(e, full, ids) + tile_entries(tiles[t - 1].0 as int, tiles[t - 1].1 as int, full, ids) =~= pairs_upto(
            tiles_end(tiles, t),
            full,
            ids,
        ));
    }
}

proof fn lemma_unpruned_all(
    tiles: Seq<(usize, usize)>,
    n: nat,
    k: int,
    partial: spec_fn(usize) -> u64,
    full: spec_fn(usize) -> u64,
    ids: Seq<u64>,
    ceiling: u64,
)
    requires
        tiles_cover(tiles, n),
        ids.len() == n,
    ensures
        chunk_run(tiles, k, 0, partial, full, ids, ceiling).results == all_pairs(ids, full),
{
    lemma_unpruned_prefix(tiles, n, k, partial, full, ids, ceiling, tiles.len() as int);
    assert(tiles.take(tiles.len() as int) =~= tiles);
    assert(pairs_upto(n as int, full, ids) =~= all_pairs(ids, full));
}

impl ChunkedColumnarIndex {
    /// With pruning off, the tiled scan returns exactly what a scan of all
    /// stored vectors returns (the row-major and columnar scans).
    pub proof fn lemma_unpruned_scan_is_full_scan(
        &self,
        k: int,
        partial: spec_fn(usize) -> u64,
        full: spec_fn(usize) -> u64,
        ceiling: u64,
    )
        requires
            self.wf(),
        ensures
            chunked_search_spec(self.tiles(), self.ids(), k, 0, partial, full, ceiling) == ranked_pairs(
                all_pairs(self.ids(), full),
                k,
            ),
    {
        lemma_unpruned_all(self.tiles(), self.n as nat, k, partial, full, self.ids(), ceiling);
    }

    /// When every partial key is at most the full key of its position (the
    /// partial distance is a lower bound), pruning tiles never changes the
    /// result of the tiled scan.
    pub proof fn lemma_pruning_keeps_results(
        &self,
        k: int,
        prune_dims: int,
        partial: spec_fn(usize) -> u64,
        full: spec_fn(usize) -> u64,
        ceiling: u64,
    )
        requires
            self.wf(),
            k >= 0,
            forall|p: usize| p < self.ids().len() ==> #[trigger] partial(p) <= full(p),
        ensures
            chunked_search_spec(self.tiles(), self.ids(), k, prune_dims, partial, full, ceiling) == chunked_search_spec(
                self.tiles(),
                self.ids(),
                k,
                0,
                partial,
                full,
                ceiling,
            ),
    {
        let tiles = self.tiles();
        let ids = self.ids();
        let n = self.n as nat;
        let pr = chunk_run(tiles, k, prune_dims, partial, full, ids, ceiling).results;
        let un = chunk_run(tiles, k, 0, partial, full, ids, ceiling).results;
        if k == 0 {
            assert(ranked_pairs(pr, k) =~= Seq::<(u64, u64)>::empty());
            assert(ranked_pairs(un, k) =~= Seq::<(u64, u64)>::empty());
        } else {
            let x = lemma_pruned_prefix(tiles, n, k, prune_dims, partial, full, ids, ceiling, tiles.len() as int);
            assert(tiles.take(tiles.len() as int) =~= tiles);
            lemma_unpruned_all(tiles, n, k, partial, full, ids, ceiling);
            lemma_unpruned_prefix(tiles, n, k, partial, full, ids, ceiling, tiles.len() as int);
            lemma_same_top(pr, x, un, k);
        }
    }
}

/// The smallest partial key of a tile bounds each partial key in it.
proof fn lemma_partial_min_le(partial: spec_fn(usize) -> u64, start: int, count: int, ceiling: u64, i: int)
    requires
        0 <= i < count,
    ensures
        partial_min(partial, start, count, ceiling) <= partial((start + i) as usize),
    decreases count,
{
    if i < count - 1 {
        lemma_partial_min_le(partial, start, count - 1, ceiling, i);
    }
}

/// Appending the same entries to both sides keeps two collections equal,
/// whichever part they are appended to.
proof fn lemma_step_multiset(r: Seq<KeyId>, x: Seq<KeyId>, e: Seq<KeyId>, base: Seq<KeyId>)
    requires
        (r + x).to_multiset() == base.to_multiset(),
    ensures
        ((r + e) + x).to_multiset() == (base + e).to_multiset(),
        (r + (x + e)).to_multiset() == (base + e).to_multiset(),
{
    vstd::seq_lib::lemma_multiset_commutative(r + e, x);
    vstd::seq_lib::lemma_multiset_commutative(r, e);
    vstd::seq_lib::lemma_multiset_commutative(r, x);
    vstd::seq_lib::lemma_multiset_commutative(base, e);
    vstd::seq_lib::lemma_multiset_commutative(r, x + e);
    vstd::seq_lib::lemma_multiset_commutative(x, e);
    assert(((r + e) + x).to_multiset() =~= (base + e).to_multiset());
    assert((r + (x + e)).to_multiset() =~= (base + e).to_multiset());
}

/// The pruned scan holds the unpruned one's entries minus some `x`, each of
/// whose keys exceeds the pruned scan's k-th best key.
proof fn lemma_pruned_prefix(
    tiles: Seq<(usize, usize)>,
    n: nat,
    k: int,
    prune_dims: int,
    partial: spec_fn(usize) -> u64,
    full: spec_fn(usize) -> u64,
    ids: Seq<u64>,
    ceiling: u64,
    t: int,
) -> (x: Seq<KeyId>)
    requires
        tiles_cover(tiles, n),
        ids.len() == n,
        k > 0,
        0 <= t <= tiles.len(),
        forall|p: usize| p < n ==> #[trigger] partial(p) <= full(p),
    ensures
        ({
            let p = chunk_run(tiles.take(t), k, prune_dims, partial, full, ids, ceiling);
            &&& (p.results + x).to_multiset() == pairs_upto(tiles_end(tiles, t), full, ids).to_multiset()
            &&& x.len() > 0 ==> p.results.len() >= k
            &&& forall|i: int| 0 <= i < x.len() ==> (#[trigger] x[i]).0 > sort_lex(p.results)[k - 1].0
            &&& p.results.len() >= k ==> p.kth == top_lex(p.results, k)[k - 1].0
        }),
    decreases t,
{
    broadcast use vstd::seq_lib::group_to_multiset_ensures;
    if t == 0 {
        assert(tiles.take(0) =~= Seq::<(usize, usize)>::empty());
        assert(pairs_upto(0, full, ids) =~= Seq::<KeyId>::empty());
        let x = Seq::<KeyId>::empty();
        assert(Seq::<KeyId>::empty() + x =~= Seq::<KeyId>::empty());
        x
    } else {
        let x0 = lemma_pruned_prefix(tiles, n, k, prune_dims, partial, full, ids, ceiling, t - 1);
        assert(tiles.take(t).drop_last() =~= tiles.take(t - 1));
        assert(tiles.take(t).last() == tiles[t - 1]);
        let st = chunk_run(tiles.take(t - 1), k, prune_dims, partial, full, ids, ceiling);
        let tile = tiles[t - 1];
        let e = tile_entries(tile.0 as int, tile.1 as int, full, ids);
        let end0 = tiles_end(tiles, t - 1);
        if t >= 2 {
            assert(tiles[t - 1].0 == tiles[t - 2].0 + tiles[t - 2].1);
        }
        assert(tile.0 == end0);
        lemma_tiles_within(tiles, n, t - 1);
        assert(pairs_upto(end0, full, ids) + e =~= pairs_upto(tiles_end(tiles, t), full, ids));
        lemma_step_multiset(st.results, x0, e, pairs_upto(end0, full, ids));
        let p = chunk_run(tiles.take(t), k, prune_dims, partial, full, ids, ceiling);
        if tile_pruned(st, tile, k, prune_dims, partial, ceiling) {
            assert(p == st);
            let x = x0 + e;
            lemma_sort_lex(st.results);
            assert(sort_lex(st.results).take(k)[k - 1] == sort_lex(st.results)[k - 1]);
            assert forall|i: int| 0 <= i < x.len() implies (#[trigger] x[i]).0 > sort_lex(p.results)[k - 1].0 by {
                if i >= x0.len() {
                    let j = i - x0.len();
                    assert(x[i] == e[j]);
                    lemma_partial_min_le(partial, tile.0 as int, tile.1 as int, ceiling, j);
                    assert(partial((tile.0 + j) as usize) <= full((tile.0 + j) as usize));
                } else {
                    assert(x[i] == x0[i]);
                }
            }
            assert((p.results + x).to_multiset() == pairs_upto(tiles_end(tiles, t), full, ids).to_multiset());
            assert(x.len() > 0 ==> p.results.len() >= k);
            assert(p.results.len() >= k ==> p.kth == top_lex(p.results, k)[k - 1].0);
            x
        } else {
            let res = st.results + e;
            assert(p.results == res);
            if x0.len() > 0 {
                lemma_sort_lex(st.results);
                lemma_sort_append(st.results, e);
                lemma_insert_all_kth(sort_lex(st.results), e, k);
                assert forall|i: int| 0 <= i < x0.len() implies (#[trigger] x0[i]).0 > sort_lex(p.results)[k - 1].0 by {
                    assert(x0[i].0 > sort_lex(st.results)[k - 1].0);
                }
            }
            if res.len() >= k {
                assert(p.kth == top_lex(res, k)[k - 1].0);
            }
            assert((p.results + x0).to_multiset() == pairs_upto(tiles_end(tiles, t), full, ids).to_multiset());
            assert(x0.len() > 0 ==> p.results.len() >= k);
            x0
        }
    }
}

/// Adding entries whose keys exceed the k-th best key does not change the
/// first `k` by `(key, id)`.
proof fn lemma_same_top(pr: Seq<KeyId>, x: Seq<KeyId>, un: Seq<KeyId>, k: int)
    requires
        k > 0,
        (pr + x).to_multiset() == un.to_multiset(),
        x.len() > 0 ==> pr.len() >= k,
        forall|i: int| 0 <= i < x.len() ==> (#[trigger] x[i]).0 > sort_lex(pr)[k - 1].0,
    ensures
        ranked_pairs(pr, k) == ranked_pairs(un, k),
{
    broadcast use vstd::seq_lib::group_to_multiset_ensures;
    lemma_sort_lex_by_multiset(pr + x, un);
    lemma_sort_append(pr, x);
    lemma_sort_lex(pr);
    lemma_sort_lex(un);
    lemma_sort_lex(pr + x);
    if x.len() == 0 {
        assert(pr + x =~= pr);
    } else {
        lemma_insert_all_beyond(sort_lex(pr), x, k);
        assert(un.len() == (pr + x).len());
        assert(min_nat(k, un.len() as int) == k);
        assert(min_nat(k, pr.len() as int) == k);
    }
    assert(top_lex(pr, k) == top_lex(un, k));
}

} // verus!
