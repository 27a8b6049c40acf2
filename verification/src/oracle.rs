//! Score oracles: closures that give the order key of a distance or a score.
//!
//! Search routines take the score of node `i` from a closure instead of
//! computing it, so a score is asked for only when the search needs it.  The
//! closures must be pure: the same argument always gives the same key.
use vstd::prelude::*;

verus! {

/// The key that the oracle `f` gives for `i`.
pub open spec fn key_of<F: Fn(usize) -> u64>(f: F, i: usize) -> u64 {
    choose|d: u64| call_ensures(f, (i,), d)
}

/// `f` can be asked about every index below `n` and always answers the same.
pub open spec fn is_oracle<F: Fn(usize) -> u64>(f: F, n: int) -> bool {
    &&& forall|i: usize| i < n ==> call_requires(f, (i,))
    &&& forall|i: usize, a: u64, b: u64|
        call_ensures(f, (i,), a) && call_ensures(f, (i,), b) ==> a == b
}

/// Asks the oracle `f` for the key of `i`.
pub fn ask<F: Fn(usize) -> u64>(f: &F, i: usize, Ghost(n): Ghost<int>) -> (d: u64)
    requires
        is_oracle(*f, n),
        i < n,
    ensures
        d == key_of(*f, i),
{
    let d = f(i);
    assert(call_ensures(*f, (i,), d));
    d
}

/// The key that the pair oracle `f` gives for `(i, j)`.
pub open spec fn pair_key_of<F: Fn(usize, usize) -> u64>(f: F, i: usize, j: usize) -> u64 {
    choose|d: u64| call_ensures(f, (i, j), d)
}

/// `f` can be asked about every pair of indices below `n` and always answers the same.
pub open spec fn is_pair_oracle<F: Fn(usize, usize) -> u64>(f: F, n: int) -> bool {
    &&& forall|i: usize, j: usize| i < n && j < n ==> call_requires(f, (i, j))
    &&& forall|i: usize, j: usize, a: u64, b: u64|
        call_ensures(f, (i, j), a) && call_ensures(f, (i, j), b) ==> a == b
}

/// Asks the pair oracle `f` for the key of `(i, j)`.
pub fn ask_pair<F: Fn(usize, usize) -> u64>(f: &F, i: usize, j: usize, Ghost(n): Ghost<int>) -> (d: u64)
    requires
        is_pair_oracle(*f, n),
        i < n,
        j < n,
    ensures
        d == pair_key_of(*f, i, j),
{
    let d = f(i, j);
    assert(call_ensures(*f, (i, j), d));
    d
}

/// `f` can be asked about every pair `(i, j)` with `i < rows` and `j < cols`,
/// and always answers the same.
pub open spec fn is_grid_oracle<F: Fn(usize, usize) -> u64>(f: F, rows: int, cols: int) -> bool {
    &&& forall|i: usize, j: usize| i < rows && j < cols ==> call_requires(f, (i, j))
    &&& forall|i: usize, j: usize, a: u64, b: u64|
        call_ensures(f, (i, j), a) && call_ensures(f, (i, j), b) ==> a == b
}

/// Asks the grid oracle `f` for the key of `(i, j)`.
pub fn ask_grid<F: Fn(usize, usize) -> u64>(f: &F, i: usize, j: usize, Ghost(rows): Ghost<int>, Ghost(cols): Ghost<int>) -> (d: u64)
    requires
        is_grid_oracle(*f, rows, cols),
        i < rows,
        j < cols,
    ensures
        d == pair_key_of(*f, i, j),
{
    let d = f(i, j);
    assert(call_ensures(*f, (i, j), d));
    d
}

/// Every position below `n` paired with the key that `f` gives it.
pub open spec fn scored_positions<F: Fn(usize) -> u64>(f: F, n: nat) -> Seq<(usize, u64)> {
    Seq::new(n, |i: int| (i as usize, key_of(f, i as usize)))
}

/// Scores the positions `0..n` with `f`.
pub fn score_positions<F: Fn(usize) -> u64>(f: &F, n: usize) -> (r: Vec<(usize, u64)>)
    requires
        is_oracle(*f, n as int),
    ensures
        r@ == scored_positions(*f, n as nat),
{
    let mut r: Vec<(usize, u64)> = Vec::new();
    let mut i: usize = 0;
    while i < n
        invariant
            i <= n,
            is_oracle(*f, n as int),
            r@ == scored_positions(*f, i as nat),
        decreases n - i,
    {
        let d = ask(f, i, Ghost(n as int));
        r.push((i, d));
        assert(r@ =~= scored_positions(*f, (i + 1) as nat));
        i = i + 1;
    }
    r
}

/// The key that the key map `g` gives for `x`.
pub open spec fn mapped_key<G: Fn(u64) -> u64>(g: G, x: u64) -> u64 {
    choose|y: u64| call_ensures(g, (x,), y)
}

/// `g` can be asked about every key and always answers the same.
pub open spec fn is_key_map<G: Fn(u64) -> u64>(g: G) -> bool {
    &&& forall|x: u64| call_requires(g, (x,))
    &&& forall|x: u64, a: u64, b: u64| call_ensures(g, (x,), a) && call_ensures(g, (x,), b) ==> a == b
}

/// Applies the key map `g` to `x`.
pub fn map_key<G: Fn(u64) -> u64>(g: &G, x: u64) -> (y: u64)
    requires
        is_key_map(*g),
    ensures
        y == mapped_key(*g, x),
{
    let y = g(x);
    assert(call_ensures(*g, (x,), y));
    y
}

/// A source of keys for the nodes `0..n` of a search: the key of node `i`
/// stands for its distance (or score) with respect to a fixed query.
pub trait KeyOracle {
    /// The key of node `i`.
    spec fn key(&self, i: usize) -> u64;

    /// Every node below `n` can be asked about.
    spec fn covers(&self, n: int) -> bool;

    fn key_at(&self, i: usize, Ghost(n): Ghost<int>) -> (d: u64)
        requires
            self.covers(n),
            i < n,
        ensures
            d == self.key(i),
    ;
}

/// Keys given by a closure over node ids.
pub struct FnKeys<F>(pub F);

impl<F: Fn(usize) -> u64> KeyOracle for FnKeys<F> {
    open spec fn key(&self, i: usize) -> u64 {
        key_of(self.0, i)
    }

    open spec fn covers(&self, n: int) -> bool {
        is_oracle(self.0, n)
    }

    fn key_at(&self, i: usize, Ghost(n): Ghost<int>) -> (d: u64) {
        ask(&self.0, i, Ghost(n))
    }
}

/// Keys of the pairs `(row, i)` given by a closure over pairs of node ids.
pub struct RowKeys<'a, F> {
    pub dist: &'a F,
    pub row: usize,
}

impl<'a, F: Fn(usize, usize) -> u64> KeyOracle for RowKeys<'a, F> {
    open spec fn key(&self, i: usize) -> u64 {
        pair_key_of(*self.dist, self.row, i)
    }

    open spec fn covers(&self, n: int) -> bool {
        is_pair_oracle(*self.dist, n) && self.row < n
    }

    fn key_at(&self, i: usize, Ghost(n): Ghost<int>) -> (d: u64) {
        ask_pair(self.dist, self.row, i, Ghost(n))
    }
}

/// The spec function behind a key oracle.
pub open spec fn keys_fn<O: KeyOracle>(o: O) -> spec_fn(usize) -> u64 {
    |i: usize| o.key(i)
}

} // verus!
