//! The completion table: derived, cached data. A symmetric 81 x 81 matrix
//! where the entry for two distinct card indices is the card that
//! completes that pair into a triple-match. It is built once from all
//! distinct pairs and never mutated afterwards, so after construction it
//! is safe to read from many threads; the diagonal is undefined, since a
//! card cannot pair with itself.

use crate::card::{lemma_complete_pair_comm, lemma_encode_decode, spec_card_of,
    spec_complete_pair, Card, CompleteSet};
use crate::pair_iter::PairIterator;
use vstd::prelude::*;

verus! {

/// One cell of the flattened matrix holds the completion of its row and
/// column cards.
pub open spec fn spec_cell_ok(e: Seq<Card>, i: int, j: int) -> bool {
    e[i * 81 + j] == spec_complete_pair(spec_card_of(i), spec_card_of(j))
}

/// Cell (i, j) comes before cell (x, y) in pair-enumeration order.
pub open spec fn spec_cell_before(i: int, j: int, x: int, y: int) -> bool {
    i < x || (i == x && j < y)
}

/// Distinct row/column pairs flatten to distinct positions.
proof fn lemma_cell_distinct(i: int, j: int, i2: int, j2: int)
    requires
        0 <= j < 81,
        0 <= j2 < 81,
        i != i2 || j != j2,
    ensures
        i * 81 + j != i2 * 81 + j2,
{
    if i * 81 + j == i2 * 81 + j2 {
        vstd::arithmetic::div_mod::lemma_mod_multiples_vanish(i, j, 81);
        vstd::arithmetic::div_mod::lemma_mod_multiples_vanish(i2, j2, 81);
        vstd::arithmetic::div_mod::lemma_small_mod(j as nat, 81nat);
        vstd::arithmetic::div_mod::lemma_small_mod(j2 as nat, 81nat);
        assert(j == j2);
        assert(i * 81 == i2 * 81);
        assert(i == i2) by (nonlinear_arith)
            requires
                i * 81 == i2 * 81,
        ;
        assert(false);
    }
}

/// The precomputed completion table.
pub struct CompletionTable {
    entries: Vec<Card>,
}

impl CompletionTable {
    /// How many cells the flattened matrix holds.
    pub closed spec fn spec_num_entries(self) -> int {
        self.entries@.len() as int
    }

    /// The stored completion for the cards with indices i and j.
    pub closed spec fn spec_entry(self, i: int, j: int) -> Card {
        self.entries@[i * 81 + j]
    }

    /// Every off-diagonal entry holds the completion of its two cards.
    pub open spec fn wf(self) -> bool {
        &&& self.spec_num_entries() == 6561
        &&& forall|i: int, j: int|
            0 <= i < 81 && 0 <= j < 81 && i != j ==> #[trigger] self.spec_entry(i, j)
                == spec_complete_pair(spec_card_of(i), spec_card_of(j))
    }

    /// Builds the table by walking every distinct pair of card indices
    /// once and writing the pair's completion into both mirror cells.
    #[verifier::rlimit(30)]
    pub fn new() -> (t: CompletionTable)
        ensures
            t.wf(),
    {
        let mut entries: Vec<Card> = Vec::new();
        let filler = Card::new(0);
        let mut i: usize = 0;
        while i < 6561
            invariant
                i <= 6561,
                entries@.len() == i,
            decreases 6561 - i,
        {
            entries.push(filler);
            i += 1;
        }
        let mut it = PairIterator::new(81);
        loop
            invariant
                it.wf(),
                it.spec_len() == 81,
                entries@.len() == 6561,
                forall|a: int, b: int|
                    0 <= b < a < 81 && spec_cell_before(
                        a,
                        b,
                        it.spec_x() as int,
                        it.spec_y() as int,
                    ) ==> #[trigger] spec_cell_ok(entries@, a, b) && spec_cell_ok(entries@, b, a),
            ensures
                entries@.len() == 6561,
                forall|a: int, b: int|
                    0 <= b < a < 81 ==> #[trigger] spec_cell_ok(entries@, a, b) && spec_cell_ok(
                        entries@,
                        b,
                        a,
                    ),
            decreases 82 - it.spec_x(), it.spec_x() - it.spec_y(),
        {
            match it.next() {
                None => {
                    proof {
                        assert forall|a: int, b: int| 0 <= b < a < 81 implies (
                        #[trigger] spec_cell_ok(entries@, a, b) && spec_cell_ok(
                            entries@,
                            b,
                            a,
                        )) by {
                            assert(spec_cell_before(a, b, it.spec_x() as int, it.spec_y() as int));
                        }
                    }
                    break ;
                },
                Some((x, y)) => {
                    let ghost pre = entries@;
                    let cx = Card::new(x);
                    let cy = Card::new(y);
                    let c = (cx, cy).complete_set();
                    proof {
                        assert(x * 81 + y < 6561 && y * 81 + x < 6561) by (nonlinear_arith)
                            requires
                                0 <= y < x < 81,
                        ;
                    }
                    entries[x * 81 + y] = c;
                    entries[y * 81 + x] = c;
                    proof {
                        lemma_complete_pair_comm(cx, cy);
                        assert(spec_cell_ok(entries@, x as int, y as int)) by {
                            lemma_cell_distinct(x as int, y as int, y as int, x as int);
                        }
                        assert(spec_cell_ok(entries@, y as int, x as int));
                        assert forall|a: int, b: int|
                            0 <= b < a < 81 && spec_cell_before(a, b, x as int, y as int) implies (
                        #[trigger] spec_cell_ok(entries@, a, b) && spec_cell_ok(
                            entries@,
                            b,
                            a,
                        )) by {
                            assert(spec_cell_ok(pre, a, b));
                            assert(spec_cell_ok(pre, b, a));
                            lemma_cell_distinct(a, b, x as int, y as int);
                            lemma_cell_distinct(a, b, y as int, x as int);
                            lemma_cell_distinct(b, a, x as int, y as int);
                            lemma_cell_distinct(b, a, y as int, x as int);
                            assert(entries@[a * 81 + b] == pre[a * 81 + b]);
                            assert(entries@[b * 81 + a] == pre[b * 81 + a]);
                        }
                        assert forall|a: int, b: int|
                            0 <= b < a < 81 && spec_cell_before(
                                a,
                                b,
                                it.spec_x() as int,
                                it.spec_y() as int,
                            ) implies (#[trigger] spec_cell_ok(entries@, a, b) && spec_cell_ok(
                            entries@,
                            b,
                            a,
                        )) by {
                            if a == x as int && b == y as int {
                            } else {
                                assert(spec_cell_before(a, b, x as int, y as int));
                            }
                        }
                    }
                },
            }
        }
        let t = CompletionTable { entries };
        proof {
            assert forall|i: int, j: int| 0 <= i < 81 && 0 <= j < 81 && i != j implies #[trigger] t.spec_entry(
                i,
                j,
            ) == spec_complete_pair(spec_card_of(i), spec_card_of(j)) by {
                if j < i {
                    assert(spec_cell_ok(entries@, i, j));
                } else {
                    assert(0 <= i < j < 81);
                    assert(spec_cell_ok(entries@, j, i));
                    assert(spec_cell_ok(entries@, i, j));
                }
            }
        }
        t
    }

    /// Looks up the completion of two distinct well-formed cards by their
    /// indices.
    pub fn lookup(&self, a: Card, b: Card) -> (c: Card)
        requires
            self.wf(),
            a.wf(),
            b.wf(),
            a != b,
        ensures
            c == spec_complete_pair(a, b),
    {
        let ia = a.index();
        let ib = b.index();
        proof {
            lemma_encode_decode(a);
            lemma_encode_decode(b);
            assert(ia != ib);
            assert(ia * 81 + ib < 6561) by (nonlinear_arith)
                requires
                    0 <= ia < 81 && 0 <= ib < 81,
            ;
            assert(self.spec_entry(ia as int, ib as int) == spec_complete_pair(
                spec_card_of(ia as int),
                spec_card_of(ib as int),
            ));
            assert(spec_card_of(ia as int) == a && spec_card_of(ib as int) == b);
        }
        self.entries[ia * 81 + ib]
    }
}

/// The completion table is symmetric: completing a pair does not depend
/// on the order of the two cards.
pub proof fn lemma_table_symmetric(t: CompletionTable, i: int, j: int)
    requires
        t.wf(),
        0 <= i < 81,
        0 <= j < 81,
        i != j,
    ensures
        t.spec_entry(i, j) == t.spec_entry(j, i),
{
    lemma_complete_pair_comm(spec_card_of(i), spec_card_of(j));
}

} // verus!
