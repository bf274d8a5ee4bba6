//! Enumerate all the unordered position pairs of a sequence.
//!
//! There are (n choose 2) == n * (n - 1) / 2 possible pairs, where n is
//! the length of the sequence. The pairs (x, y) always have y < x and come
//! in the fixed order (1,0), (2,0), (2,1), (3,0), (3,1), (3,2), ...; both
//! lookup-table construction and exhaustive search rely on this order.

use vstd::prelude::*;

verus! {

/// The pairs of one row: (x, 0), (x, 1), ..., (x, ymax - 1).
pub open spec fn spec_row(x: usize, ymax: int) -> Seq<(usize, usize)>
    decreases ymax,
{
    if ymax <= 0 {
        Seq::empty()
    } else {
        spec_row(x, ymax - 1).push((x, (ymax - 1) as usize))
    }
}

/// All rows with first component below `xmax`, each row complete.
pub open spec fn spec_rows_upto(xmax: int) -> Seq<(usize, usize)>
    decreases xmax,
{
    if xmax <= 1 {
        Seq::empty()
    } else {
        spec_rows_upto(xmax - 1) + spec_row((xmax - 1) as usize, xmax - 1)
    }
}

/// Every unordered pair (x, y) with y < x < n, in enumeration order.
pub open spec fn spec_all_pairs(n: int) -> Seq<(usize, usize)> {
    spec_rows_upto(n)
}

proof fn lemma_row_len(x: usize, ymax: int)
    requires
        0 <= ymax,
    ensures
        spec_row(x, ymax).len() == ymax,
    decreases ymax,
{
    if ymax > 0 {
        lemma_row_len(x, ymax - 1);
    }
}

/// Pair enumeration over n positions yields exactly (n choose 2) pairs:
/// twice the count is n * (n - 1).
pub proof fn lemma_pair_count(n: int)
    requires
        0 <= n,
    ensures
        2 * spec_all_pairs(n).len() == n * (n - 1),
    decreases n,
{
    if n <= 1 {
        assert(spec_all_pairs(n).len() == 0);
        assert(n * (n - 1) == 0) by (nonlinear_arith)
            requires
                0 <= n <= 1,
        ;
    } else {
        lemma_pair_count(n - 1);
        lemma_row_len((n - 1) as usize, n - 1);
        assert(spec_all_pairs(n) == spec_rows_upto(n - 1) + spec_row((n - 1) as usize, n - 1));
        assert(spec_all_pairs(n).len() == spec_all_pairs(n - 1).len() + (n - 1));
        assert(2 * spec_all_pairs(n).len() == (n - 1) * (n - 2) + 2 * (n - 1));
        assert((n - 1) * (n - 2) + 2 * (n - 1) == n * (n - 1)) by (nonlinear_arith);
    }
}

/// Iterator over the unordered position pairs of a sequence of a given
/// length, in the fixed enumeration order.
pub struct PairIterator {
    len: usize,
    x: usize,
    y: usize,
}

impl PairIterator {
    /// Length of the underlying sequence.
    pub closed spec fn spec_len(self) -> usize {
        self.len
    }

    /// First component of the pair to be yielded next.
    pub closed spec fn spec_x(self) -> usize {
        self.x
    }

    /// Second component of the pair to be yielded next.
    pub closed spec fn spec_y(self) -> usize {
        self.y
    }

    pub open spec fn wf(self) -> bool {
        self.spec_y() < self.spec_x()
    }

    /// The pairs this iterator has already yielded.
    pub open spec fn spec_yielded(self) -> Seq<(usize, usize)> {
        if self.spec_x() >= self.spec_len() {
            spec_all_pairs(self.spec_len() as int)
        } else {
            spec_rows_upto(self.spec_x() as int) + spec_row(self.spec_x(), self.spec_y() as int)
        }
    }

    pub fn new(len: usize) -> (it: PairIterator)
        ensures
            it.spec_len() == len,
            it.spec_x() == 1,
            it.spec_y() == 0,
            it.wf(),
            it.spec_yielded() == Seq::<(usize, usize)>::empty(),
    {
        let it = PairIterator { len, x: 1, y: 0 };
        proof {
            if 1 >= len {
                assert(spec_all_pairs(len as int) == Seq::<(usize, usize)>::empty());
            } else {
                assert(it.spec_yielded() =~= Seq::<(usize, usize)>::empty());
            }
        }
        it
    }

    /// Yields the next pair in order, or `None` once every pair with both
    /// components below the length has been produced.
    pub fn next(&mut self) -> (r: Option<(usize, usize)>)
        requires
            old(self).wf(),
        ensures
            final(self).wf(),
            final(self).spec_len() == old(self).spec_len(),
            match r {
                None => {
                    &&& *final(self) == *old(self)
                    &&& old(self).spec_x() >= old(self).spec_len()
                    &&& old(self).spec_yielded() == spec_all_pairs(old(self).spec_len() as int)
                },
                Some(p) => {
                    &&& p.0 == old(self).spec_x()
                    &&& p.1 == old(self).spec_y()
                    &&& p.1 < p.0
                    &&& p.0 < old(self).spec_len()
                    &&& final(self).spec_yielded() == old(self).spec_yielded().push(p)
                    &&& if p.1 + 1 == p.0 {
                        final(self).spec_x() == p.0 + 1 && final(self).spec_y() == 0
                    } else {
                        final(self).spec_x() == p.0 && final(self).spec_y() == p.1 + 1
                    }
                },
            },
    {
        let x = self.x;
        let y = self.y;
        if x >= self.len {
            None
        } else {
            if y + 1 == x {
                self.x = x + 1;
                self.y = 0;
            } else {
                self.y = y + 1;
            }
            proof {
                let n = self.len;
                if y + 1 == x {
                    assert(spec_row(x, x as int) == spec_row(x, y as int).push((x, y)));
                    if x + 1 >= n {
                        assert(x + 1 == n);
                        assert(self.spec_yielded() == spec_rows_upto(n as int));
                    }
                    assert(self.spec_yielded() =~= spec_rows_upto(x as int) + spec_row(
                        x,
                        x as int,
                    ));
                } else {
                    assert(spec_row(x, y + 1) == spec_row(x, y as int).push((x, y)));
                }
                assert(self.spec_yielded() =~= old(self).spec_yielded().push((x, y)));
            }
            Some((x, y))
        }
    }
}

/// Produces the pair iterator for an indexable sequence.
pub trait PairIter {
    /// The number of positions that pairs are drawn from.
    spec fn spec_pair_len(&self) -> usize;

    fn pairs(&self) -> (it: PairIterator)
        ensures
            it.spec_len() == self.spec_pair_len(),
            it.spec_x() == 1,
            it.spec_y() == 0,
            it.wf(),
            it.spec_yielded() == Seq::<(usize, usize)>::empty(),
    ;
}

impl<T> PairIter for [T] {
    open spec fn spec_pair_len(&self) -> usize {
        self@.len() as usize
    }

    fn pairs(&self) -> (it: PairIterator) {
        PairIterator::new(self.len())
    }
}

} // verus!
