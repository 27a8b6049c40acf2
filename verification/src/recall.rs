//! Hit counting behind the recall@k metrics.
use vstd::prelude::*;

verus! {

/// Number of entries of `xs` that occur in `set`.
pub open spec fn hits<T>(xs: Seq<T>, set: Seq<T>) -> nat
    decreases xs.len(),
{
    if xs.len() == 0 {
        0
    } else {
        hits(xs.drop_last(), set) + if set.contains(xs.last()) {
            1nat
        } else {
            0nat
        }
    }
}

/// Number of distinct values in `xs`.
pub open spec fn distinct<T>(xs: Seq<T>) -> nat
    decreases xs.len(),
{
    if xs.len() == 0 {
        0
    } else {
        distinct(xs.drop_last()) + if xs.drop_last().contains(xs.last()) {
            0nat
        } else {
            1nat
        }
    }
}

fn member(set: &Vec<usize>, x: usize, upto: usize) -> (r: bool)
    requires
        upto <= set@.len(),
    ensures
        r == set@.take(upto as int).contains(x),
{
    let mut i: usize = 0;
    while i < upto
        invariant
            i <= upto <= set@.len(),
            forall|j: int| 0 <= j < i ==> set@[j] != x,
        decreases upto - i,
    {
        if set[i] == x {
            assert(set@.take(upto as int)[i as int] == x);
            return true;
        }
        i = i + 1;
    }
    assert forall|j: int| 0 <= j < set@.take(upto as int).len() implies set@.take(upto as int)[j] != x by {
        assert(set@.take(upto as int)[j] == set@[j]);
    }
    false
}

/// How many entries of `xs` occur in `set` (entries counted with repetition).
pub fn count_in(xs: &Vec<usize>, set: &Vec<usize>) -> (r: usize)
    ensures
        r == hits(xs@, set@),
{
    let mut c: usize = 0;
    let mut i: usize = 0;
    while i < xs.len()
        invariant
            i <= xs@.len(),
            c == hits(xs@.take(i as int), set@),
            c <= i,
        decreases xs@.len() - i,
    {
        assert(xs@.take(i + 1).drop_last() =~= xs@.take(i as int));
        assert(set@.take(set@.len() as int) =~= set@);
        if member(set, xs[i], set.len()) {
            c = c + 1;
        }
        i = i + 1;
    }
    assert(xs@.take(xs@.len() as int) =~= xs@);
    c
}

/// How many distinct values `xs` holds.
pub fn count_distinct(xs: &Vec<usize>) -> (r: usize)
    ensures
        r == distinct(xs@),
{
    let mut c: usize = 0;
    let mut i: usize = 0;
    while i < xs.len()
        invariant
            i <= xs@.len(),
            c == distinct(xs@.take(i as int)),
            c <= i,
        decreases xs@.len() - i,
    {
        assert(xs@.take(i + 1).drop_last() =~= xs@.take(i as int));
        assert(xs@.take(i as int) =~= xs@.take(i as int).take(i as int));
        if !member(xs, xs[i], i) {
            c = c + 1;
        }
        i = i + 1;
    }
    assert(xs@.take(xs@.len() as int) =~= xs@);
    c
}

fn member_u64(set: &Vec<u64>, x: u64, upto: usize) -> (r: bool)
    requires
        upto <= set@.len(),
    ensures
        r == set@.take(upto as int).contains(x),
{
    let mut i: usize = 0;
    while i < upto
        invariant
            i <= upto <= set@.len(),
            forall|j: int| 0 <= j < i ==> set@[j] != x,
        decreases upto - i,
    {
        if set[i] == x {
            assert(set@.take(upto as int)[i as int] == x);
            return true;
        }
        i = i + 1;
    }
    assert forall|j: int| 0 <= j < set@.take(upto as int).len() implies set@.take(upto as int)[j] != x by {
        assert(set@.take(upto as int)[j] == set@[j]);
    }
    false
}

/// How many entries of `xs` occur in `set` (64-bit ids).
pub fn count_in_u64(xs: &Vec<u64>, set: &Vec<u64>) -> (r: usize)
    ensures
        r == hits(xs@, set@),
{
    let mut c: usize = 0;
    let mut i: usize = 0;
    while i < xs.len()
        invariant
            i <= xs@.len(),
            c == hits(xs@.take(i as int), set@),
            c <= i,
        decreases xs@.len() - i,
    {
        assert(xs@.take(i + 1).drop_last() =~= xs@.take(i as int));
        assert(set@.take(set@.len() as int) =~= set@);
        if member_u64(set, xs[i], set.len()) {
            c = c + 1;
        }
        i = i + 1;
    }
    assert(xs@.take(xs@.len() as int) =~= xs@);
    c
}

/// How many distinct values `xs` holds (64-bit ids).
pub fn count_distinct_u64(xs: &Vec<u64>) -> (r: usize)
    ensures
        r == distinct(xs@),
{
    let mut c: usize = 0;
    let mut i: usize = 0;
    while i < xs.len()
        invariant
            i <= xs@.len(),
            c == distinct(xs@.take(i as int)),
            c <= i,
        decreases xs@.len() - i,
    {
        assert(xs@.take(i + 1).drop_last() =~= xs@.take(i as int));
        assert(xs@.take(i as int) =~= xs@.take(i as int).take(i as int));
        if !member_u64(xs, xs[i], i) {
            c = c + 1;
        }
        i = i + 1;
    }
    assert(xs@.take(xs@.len() as int) =~= xs@);
    c
}

/// Every entry of a list found in a set counts: a list that only holds
/// members scores a hit for each entry.
pub proof fn lemma_all_hits<T>(xs: Seq<T>, set: Seq<T>)
    requires
        forall|i: int| 0 <= i < xs.len() ==> set.contains(#[trigger] xs[i]),
    ensures
        hits(xs, set) == xs.len(),
    decreases xs.len(),
{
    if xs.len() > 0 {
        assert forall|i: int| 0 <= i < xs.len() - 1 implies set.contains(#[trigger] xs.drop_last()[i]) by {
            assert(xs.drop_last()[i] == xs[i]);
        }
        lemma_all_hits(xs.drop_last(), set);
        assert(set.contains(xs[xs.len() - 1]));
    }
}

} // verus!
