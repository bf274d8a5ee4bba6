//! The deck: an ordered stock of cards with stack semantics.
//!
//! Cards are drawn from the top (the logical end of the stock) and the
//! draw count is clamped to availability: draws never fail, they return
//! fewer cards than requested only when the stock is exhausted.

use crate::card::{lemma_complete_pair_comm, lemma_complete_pair_properties, spec_card_of,
    spec_complete_pair, spec_match3, wf_seq, Card, CompleteSet, Shading};
use crate::find::{lemma_has_set_witness, spec_has_set, FindSets};
use crate::shuffle::{lemma_swap_multiset, Shuffle};
use vstd::prelude::*;
use vstd::seq_lib::group_to_multiset_ensures;
use vstd::seq_lib::lemma_multiset_commutative;
use vstd::multiset::Multiset;
use vstd::slice::slice_to_vec;

verus! {

pub const DECK_SIZE: usize = 81;

/// Keeping a card when its shading is solid, as a predicate on cards.
pub open spec fn spec_solid() -> spec_fn(Card) -> bool {
    |c: Card| c.spec_shading() == Shading::Solid
}

/// Every card of the deck, in index order.
pub open spec fn spec_full_deck() -> Seq<Card> {
    Seq::new(81, |i: int| spec_card_of(i))
}

/// The full deck is well formed and holds no card twice.
pub proof fn lemma_full_deck_wf()
    ensures
        wf_seq(spec_full_deck()),
        spec_full_deck().no_duplicates(),
{
    let s = spec_full_deck();
    assert forall|i: int| 0 <= i < s.len() implies (#[trigger] s[i]).wf() by {
        crate::card::lemma_decode_encode(i);
    }
    assert forall|i: int, j: int| 0 <= i < s.len() && 0 <= j < s.len() && i != j implies s[i]
        != s[j] by {
        crate::card::lemma_decode_encode(i);
        crate::card::lemma_decode_encode(j);
    }
}

/// A permutation keeps length, card validity, and distinctness.
pub proof fn lemma_perm_preserves(s1: Seq<Card>, s2: Seq<Card>)
    requires
        s1.to_multiset() == s2.to_multiset(),
    ensures
        s1.len() == s2.len(),
        wf_seq(s1) ==> wf_seq(s2),
        s1.no_duplicates() ==> s2.no_duplicates(),
{
    broadcast use group_to_multiset_ensures;

    if wf_seq(s1) {
        assert forall|i: int| 0 <= i < s2.len() implies (#[trigger] s2[i]).wf() by {
            assert(s2.contains(s2[i]));
            assert(s1.to_multiset().count(s2[i]) > 0);
            assert(s1.contains(s2[i]));
            let j = choose|j: int| 0 <= j < s1.len() && s1[j] == s2[i];
            assert(s1[j].wf());
        }
    }
    vstd::seq_lib::to_multiset_len(s1);
    vstd::seq_lib::to_multiset_len(s2);
    if s1.no_duplicates() {
        s1.lemma_multiset_has_no_duplicates();
        s2.lemma_multiset_has_no_duplicates_conv();
    }
}

/// There is a position in a permutation for each position in the original.
pub proof fn lemma_perm_index(s1: Seq<Card>, s2: Seq<Card>, i: int)
    requires
        s1.to_multiset() == s2.to_multiset(),
        0 <= i < s1.len(),
    ensures
        exists|x: int| 0 <= x < s2.len() && s2[x] == s1[i],
{
    broadcast use group_to_multiset_ensures;

    assert(s1.contains(s1[i]));
    assert(s2.to_multiset().count(s1[i]) > 0);
    assert(s2.contains(s1[i]));
}

/// Everything a filtered sequence holds was in the original and satisfies
/// the filter.
proof fn lemma_filter_subset<A>(s: Seq<A>, pred: spec_fn(A) -> bool, x: A)
    requires
        s.filter(pred).contains(x),
    ensures
        s.contains(x),
        pred(x),
    decreases s.len(),
{
    reveal(Seq::filter);
    if s.len() > 0 {
        if s.drop_last().filter(pred).contains(x) {
            lemma_filter_subset(s.drop_last(), pred, x);
            let j = choose|j: int| 0 <= j < s.drop_last().len() && s.drop_last()[j] == x;
            assert(s[j] == x);
        } else {
            assert(x == s.last() && pred(x));
            assert(s[s.len() - 1] == x);
        }
    }
}

/// Filtering a duplicate-free sequence leaves it duplicate-free.
proof fn lemma_filter_no_dup<A>(s: Seq<A>, pred: spec_fn(A) -> bool)
    requires
        s.no_duplicates(),
    ensures
        s.filter(pred).no_duplicates(),
    decreases s.len(),
{
    reveal(Seq::filter);
    if s.len() > 0 {
        lemma_filter_no_dup(s.drop_last(), pred);
        if pred(s.last()) {
            if s.drop_last().filter(pred).contains(s.last()) {
                lemma_filter_subset(s.drop_last(), pred, s.last());
                let j = choose|j: int|
                    0 <= j < s.drop_last().len() && s.drop_last()[j] == s.last();
                assert(s[j] == s[s.len() - 1]);
                assert(false);
            }
        }
    }
}

/// Returns a vector containing all the cards in a deck, in index order.
pub fn cards() -> (r: Vec<Card>)
    ensures
        r@ == spec_full_deck(),
{
    let mut v: Vec<Card> = Vec::new();
    let mut i: usize = 0;
    while i < DECK_SIZE
        invariant
            i <= 81,
            v@.len() == i,
            forall|j: int| 0 <= j < i ==> v@[j] == spec_card_of(j),
        decreases 81 - i,
    {
        v.push(Card::new(i));
        i += 1;
    }
    proof {
        assert(v@ =~= spec_full_deck());
    }
    v
}

/// The undealt remainder of the deck.
#[derive(Default, Clone)]
pub struct Deck {
    stock: Vec<Card>,
}

impl View for Deck {
    type V = Seq<Card>;

    closed spec fn view(&self) -> Seq<Card> {
        self.stock@
    }
}

impl Deck {
    /// A deck built from the full deck holds well-formed cards, no card
    /// twice.
    pub open spec fn wf(self) -> bool {
        wf_seq(self@) && self@.no_duplicates()
    }

    /// A deck over the given stock; the last card of the vector is the
    /// top of the deck.
    pub fn from_stock(stock: Vec<Card>) -> (d: Deck)
        ensures
            d@ == stock@,
    {
        Deck { stock }
    }

    /// The stock, bottom first.
    pub fn stock(&self) -> (r: &Vec<Card>)
        ensures
            r@ == self@,
    {
        &self.stock
    }

    /// Returns a shuffled deck of all 81 cards.
    pub fn new() -> (d: Deck)
        ensures
            d.wf(),
            d@.len() == 81,
            d@.to_multiset() == spec_full_deck().to_multiset(),
    {
        let mut all = cards();
        all.shuffle();
        proof {
            lemma_full_deck_wf();
            lemma_perm_preserves(spec_full_deck(), all@);
        }
        Deck { stock: all }
    }

    /// Removes all cards from the deck that do not have a solid shading.
    /// This is useful as a deck for beginners.
    pub fn simplify(&mut self)
        ensures
            final(self)@ == old(self)@.filter(spec_solid()),
            old(self).wf() ==> final(self).wf(),
    {
        broadcast use vstd::prelude::Seq::lemma_filter_push;

        let ghost pred = spec_solid();
        let ghost s = self.stock@;
        let n = self.stock.len();
        let mut kept: Vec<Card> = Vec::new();
        let mut i: usize = 0;
        proof {
            assert(s.take(0).filter(pred) =~= Seq::<Card>::empty());
        }
        while i < n
            invariant
                n == s.len(),
                i <= n,
                s == self.stock@,
                pred == spec_solid(),
                kept@ == s.take(i as int).filter(pred),
            decreases n - i,
        {
            let c = self.stock[i];
            let ghost t = s.take(i as int);
            proof {
                assert(s.take(i + 1) =~= t.push(s[i as int]));
                t.lemma_filter_push(s[i as int], pred);
                assert(pred(s[i as int]) == (s[i as int].spec_shading() == Shading::Solid));
            }
            let solid = match c.shading() {
                Shading::Solid => true,
                _ => false,
            };
            if solid {
                kept.push(c);
                proof {
                    assert(kept@ == t.filter(pred).push(s[i as int]));
                    assert(kept@ == s.take(i + 1).filter(pred));
                }
            } else {
                proof {
                    assert(kept@ == t.filter(pred));
                    assert(kept@ == s.take(i + 1).filter(pred));
                }
            }
            i += 1;
        }
        proof {
            assert(s.take(n as int) =~= s);
            if old(self).wf() {
                lemma_filter_no_dup(s, pred);
                assert forall|j: int| 0 <= j < kept@.len() implies (#[trigger] kept@[j]).wf() by {
                    assert(kept@.contains(kept@[j]));
                    lemma_filter_subset(s, pred, kept@[j]);
                    let k = choose|k: int| 0 <= k < s.len() && s[k] == kept@[j];
                    assert(s[k].wf());
                }
            }
        }
        self.stock = kept;
    }

    pub fn is_empty(&self) -> (r: bool)
        ensures
            r == (self@.len() == 0),
    {
        self.stock.is_empty()
    }

    /// How many cards are left in the stock.
    pub fn remainder(&self) -> (r: usize)
        ensures
            r == self@.len(),
    {
        self.stock.len()
    }

    /// Draws up to `n` cards from the top of the deck. The draw count is
    /// clamped to what is left: the returned cards are exactly the top of
    /// the old stock, in stock order, and the rest stays put.
    pub fn draw(&mut self, n: usize) -> (r: Vec<Card>)
        ensures
            r@.len() == if n <= old(self)@.len() {
                n as int
            } else {
                old(self)@.len() as int
            },
            final(self)@ == old(self)@.subrange(0, old(self)@.len() - r@.len()),
            r@ == old(self)@.subrange(old(self)@.len() - r@.len(), old(self)@.len() as int),
            old(self).wf() ==> final(self).wf() && wf_seq(r@),
            old(self)@.to_multiset() == final(self)@.to_multiset().add(r@.to_multiset()),
    {
        let rem = self.stock.len();
        let x = if n < rem {
            n
        } else {
            rem
        };
        let drawn = self.stock.split_off(rem - x);
        proof {
            broadcast use vstd::multiset::group_multiset_axioms;

            let s = old(self)@;
            assert(s =~= self@ + drawn@);
            lemma_multiset_commutative(self@, drawn@);
            assert(s.to_multiset() == (self@ + drawn@).to_multiset());
            assert((self@ + drawn@).to_multiset() == self@.to_multiset().add(drawn@.to_multiset()));
            if old(self).wf() {
                assert forall|j: int| 0 <= j < self@.len() implies (#[trigger] self@[j]).wf() by {
                    assert(self@[j] == s[j]);
                }
                assert forall|j: int| 0 <= j < drawn@.len() implies (#[trigger] drawn@[j]).wf() by {
                    assert(drawn@[j] == s[s.len() - drawn@.len() + j]);
                }
                assert(self@.no_duplicates());
            }
        }
        drawn
    }
}

////////////////////////////////////////////////////////////////////////////////
// Guaranteed draws
////////////////////////////////////////////////////////////////////////////////

/// Some pair of distinct hand positions completes to a card that the stock
/// holds.
pub open spec fn spec_pair_completion_in(hand: Seq<Card>, stock: Seq<Card>) -> bool {
    exists|i: int, j: int|
        0 <= i < j < hand.len() && stock.contains(#[trigger] spec_complete_pair(hand[i], hand[j]))
}

/// Some pair of distinct stock positions completes to a card that the hand
/// holds.
pub open spec fn spec_stock_pair_completes(stock: Seq<Card>, hand: Seq<Card>) -> bool {
    exists|i: int, j: int|
        0 <= i < j < stock.len() && hand.contains(
            #[trigger] spec_complete_pair(stock[i], stock[j]),
        )
}

/// The exact outcome of the one-card fix. Some hand pair — positions i < j
/// of the hand — completes to a card `c` that sits at stock position `ix`;
/// the fix swaps `c` with the top card, so the draw is (a shuffle of) the
/// top three cards of the swapped stock, `c` among them, and the rest of
/// the swapped stock stays put.
pub open spec fn spec_one_card_fix(
    hand: Seq<Card>,
    stock: Seq<Card>,
    draw: Seq<Card>,
    rest: Seq<Card>,
    i: int,
    j: int,
    ix: int,
) -> bool {
    let c = spec_complete_pair(hand[i], hand[j]);
    let last = stock.len() - 1;
    let swapped = stock.update(ix, stock[last]).update(last, c);
    &&& 0 <= i < j < hand.len()
    &&& 0 <= ix < stock.len()
    &&& stock[ix] == c
    &&& draw.contains(c)
    &&& draw.to_multiset() == swapped.subrange(stock.len() - 3, stock.len() as int).to_multiset()
    &&& rest == swapped.subrange(0, stock.len() - 3)
}

/// The exact outcome of the two-card fix. The stock pair at positions
/// (x, y) — the first pair in pair-enumeration order whose completion the
/// hand holds — leaves the stock together with the then-top card, and the
/// draw is (a shuffle of) exactly those three; the surviving stock keeps
/// its order.
pub open spec fn spec_two_card_fix(
    stock: Seq<Card>,
    hand: Seq<Card>,
    draw: Seq<Card>,
    rest: Seq<Card>,
    x: int,
    y: int,
) -> bool {
    let taken = stock.remove(x).remove(y);
    &&& 0 <= y < x < stock.len()
    &&& hand.contains(spec_complete_pair(stock[x], stock[y]))
    &&& draw.contains(stock[x])
    &&& draw.contains(stock[y])
    &&& forall|i: int, j: int|
        0 <= j < i < stock.len() && (i < x || (i == x && j < y)) ==> !hand.contains(
            #[trigger] spec_complete_pair(stock[i], stock[j]),
        )
    &&& draw.to_multiset() == seq![stock[x], stock[y], taken.last()].to_multiset()
    &&& rest == taken.subrange(0, taken.len() - 1)
}

/// The exact outcome of the three-card fix. The draw is the first
/// triple-match of the stock in traversal order, at positions (x, y, z)
/// and in that card order; the surviving stock keeps its order.
pub open spec fn spec_three_card_fix(
    stock: Seq<Card>,
    draw: Seq<Card>,
    rest: Seq<Card>,
    x: int,
    y: int,
    z: int,
) -> bool {
    &&& 0 <= z < y < x < stock.len()
    &&& spec_match3(stock[x], stock[y], stock[z])
    &&& draw == seq![stock[x], stock[y], stock[z]]
    &&& crate::find::spec_no_set_before(stock, x, y, z)
    &&& rest == stock.remove(x).remove(y).remove(z)
}

/// The top three cards of the stock: what a plain draw of three returns,
/// in stock order.
pub open spec fn spec_top3(stock: Seq<Card>) -> Seq<Card> {
    stock.subrange(stock.len() - 3, stock.len() as int)
}

/// Whether some hand pair completes into the stock does not depend on the
/// order of the hand.
proof fn lemma_pair_completion_perm(s1: Seq<Card>, s2: Seq<Card>, stock: Seq<Card>)
    requires
        s1.to_multiset() == s2.to_multiset(),
        s1.no_duplicates(),
        spec_pair_completion_in(s1, stock),
    ensures
        spec_pair_completion_in(s2, stock),
{
    let (i, j) = choose|i: int, j: int|
        0 <= i < j < s1.len() && stock.contains(#[trigger] spec_complete_pair(s1[i], s1[j]));
    lemma_perm_preserves(s1, s2);
    lemma_perm_index(s1, s2, i);
    lemma_perm_index(s1, s2, j);
    let x = choose|x: int| 0 <= x < s2.len() && s2[x] == s1[i];
    let y = choose|y: int| 0 <= y < s2.len() && s2[y] == s1[j];
    assert(s1[i] != s1[j]);
    lemma_complete_pair_comm(s1[i], s1[j]);
    if x < y {
        assert(stock.contains(spec_complete_pair(s2[x], s2[y])));
    } else {
        assert(stock.contains(spec_complete_pair(s2[y], s2[x])));
    }
}

/// A sequence drawn from within another (counted with multiplicity) keeps
/// card validity and distinctness.
proof fn lemma_submultiset_wf(s1: Seq<Card>, s2: Seq<Card>)
    requires
        forall|v: Card| s2.to_multiset().count(v) <= #[trigger] s1.to_multiset().count(v),
        wf_seq(s1),
        s1.no_duplicates(),
    ensures
        wf_seq(s2),
        s2.no_duplicates(),
{
    broadcast use group_to_multiset_ensures;

    assert forall|i: int| 0 <= i < s2.len() implies (#[trigger] s2[i]).wf() by {
        assert(s2.contains(s2[i]));
        assert(s1.to_multiset().count(s2[i]) > 0);
        assert(s1.contains(s2[i]));
        let j = choose|j: int| 0 <= j < s1.len() && s1[j] == s2[i];
        assert(s1[j].wf());
    }
    s1.lemma_multiset_has_no_duplicates();
    assert forall|x: Card| s2.to_multiset().contains(x) implies s2.to_multiset().count(x)
        == 1 by {
        assert(s2.to_multiset().count(x) > 0);
        assert(s1.to_multiset().count(x) > 0);
        assert(s1.to_multiset().contains(x));
    }
    s2.lemma_multiset_has_no_duplicates_conv();
}

/// The position of the first occurrence of a card, if the card is there.
fn position_of(stock: &Vec<Card>, c: Card) -> (r: Option<usize>)
    ensures
        match r {
            Some(ix) => ix < stock@.len() && stock@[ix as int] == c,
            None => !stock@.contains(c),
        },
{
    let n = stock.len();
    let mut i: usize = 0;
    while i < n
        invariant
            n == stock@.len(),
            i <= n,
            forall|j: int| 0 <= j < i ==> stock@[j] != c,
        decreases n - i,
    {
        if stock[i] == c {
            return Some(i);
        }
        i += 1;
    }
    None
}

/// Whether a hand holds a card.
fn contains_card(hand: &[Card], c: Card) -> (r: bool)
    ensures
        r == hand@.contains(c),
{
    let n = hand.len();
    let mut i: usize = 0;
    while i < n
        invariant
            n == hand@.len(),
            i <= n,
            forall|j: int| 0 <= j < i ==> hand@[j] != c,
        decreases n - i,
    {
        if hand[i] == c {
            return true;
        }
        i += 1;
    }
    false
}

impl Deck {
    /// Worst case one: two cards of the missing triple-match are on the
    /// table, one is in the stock. Shuffles the hand order (to avoid
    /// positional bias), then looks for the completion of some hand pair
    /// in the stock; when found, moves that card to the top of the stock,
    /// draws three, and shuffles the draw to randomize the found card's
    /// position.
    pub fn fix_one_card(&mut self, hand: &[Card]) -> (r: Option<Vec<Card>>)
        requires
            old(self).wf(),
            wf_seq(hand@),
            hand@.no_duplicates(),
            old(self)@.len() >= 3,
        ensures
            final(self).wf(),
            match r {
                Some(draw) => {
                    &&& draw@.len() == 3
                    &&& wf_seq(draw@)
                    &&& spec_has_set(hand@ + draw@)
                    &&& spec_pair_completion_in(hand@, old(self)@)
                    &&& exists|i: int, j: int, ix: int|
                        spec_one_card_fix(hand@, old(self)@, draw@, final(self)@, i, j, ix)
                    &&& old(self)@.to_multiset() == final(self)@.to_multiset().add(
                        draw@.to_multiset(),
                    )
                },
                None => {
                    &&& final(self)@ == old(self)@
                    &&& !spec_pair_completion_in(hand@, old(self)@)
                },
            },
    {
        broadcast use group_to_multiset_ensures;
        broadcast use vstd::multiset::group_multiset_axioms;

        // shuffle the cards in the hand so we don't favor cards at the
        // front of the layout
        let mut h = slice_to_vec(hand);
        h.shuffle();
        proof {
            lemma_perm_preserves(hand@, h@);
        }
        let hn = h.len();
        let mut x: usize = 1;
        while x < hn
            invariant
                old(self).wf(),
                old(self)@.len() >= 3,
                *self == *old(self),
                hn == h@.len(),
                h@.to_multiset() == hand@.to_multiset(),
                wf_seq(h@),
                h@.no_duplicates(),
                x >= 1,
                forall|a: int, b: int|
                    0 <= b < a < x ==> !self@.contains(
                        #[trigger] spec_complete_pair(h@[a], h@[b]),
                    ),
            decreases hn - x,
        {
            let mut y: usize = 0;
            while y < x
                invariant
                    old(self).wf(),
                    old(self)@.len() >= 3,
                    *self == *old(self),
                    hn == h@.len(),
                    h@.to_multiset() == hand@.to_multiset(),
                    wf_seq(h@),
                    h@.no_duplicates(),
                    1 <= x < hn,
                    y <= x,
                    forall|a: int, b: int|
                        0 <= b < a < x ==> !self@.contains(
                            #[trigger] spec_complete_pair(h@[a], h@[b]),
                        ),
                    forall|b: int|
                        0 <= b < y ==> !self@.contains(
                            #[trigger] spec_complete_pair(h@[x as int], h@[b]),
                        ),
                decreases x - y,
            {
                let c = (h[x], h[y]).complete_set();
                if let Some(ix) = position_of(&self.stock, c) {
                    let ghost s0 = self@;
                    // swap the matching card with the top card
                    let last_ix = self.stock.len() - 1;
                    let tmp = self.stock[ix];
                    let top = self.stock[last_ix];
                    self.stock[ix] = top;
                    self.stock[last_ix] = tmp;
                    proof {
                        lemma_swap_multiset(s0, ix as int, last_ix as int);
                        assert(self@ == s0.update(ix as int, s0[last_ix as int]).update(
                            last_ix as int,
                            s0[ix as int],
                        ));
                        lemma_perm_preserves(s0, self@);
                        assert(self@[last_ix as int] == c);
                    }
                    let ghost s1 = self@;
                    // now just draw normally
                    let mut draw = self.draw(3);
                    proof {
                        assert(draw@[2] == s1[s1.len() - 1]);
                        assert(draw@.contains(c));
                    }
                    // shuffle to randomize the position of the found card
                    let ghost d0 = draw@;
                    draw.shuffle();
                    proof {
                        assert(draw@.to_multiset() == d0.to_multiset());
                        lemma_perm_preserves(d0, draw@);
                        vstd::seq_lib::to_multiset_contains(d0, c);
                        vstd::seq_lib::to_multiset_contains(draw@, c);
                        assert(d0.to_multiset().count(c) > 0);
                        assert(draw@.to_multiset().count(c) > 0);
                        assert(draw@.contains(c));
                        let k = choose|k: int| 0 <= k < draw@.len() && draw@[k] == c;
                        lemma_perm_index(h@, hand@, x as int);
                        lemma_perm_index(h@, hand@, y as int);
                        let i = choose|i: int| 0 <= i < hand@.len() && hand@[i] == h@[x as int];
                        let j = choose|j: int| 0 <= j < hand@.len() && hand@[j] == h@[y as int];
                        assert(h@[x as int] != h@[y as int]);
                        lemma_complete_pair_properties(h@[x as int], h@[y as int]);
                        let combined = hand@ + draw@;
                        let hl = hand@.len() as int;
                        assert(combined[i] == h@[x as int] && combined[j] == h@[y as int]
                            && combined[hl + k] == c);
                        assert(spec_match3(combined[i], combined[j], combined[hl + k]));
                        lemma_has_set_witness(combined, i, j, hl + k);
                        // the completion of that hand pair sat in the stock
                        assert(s0[ix as int] == c && old(self)@.contains(c));
                        lemma_complete_pair_comm(hand@[i], hand@[j]);
                        if i < j {
                            assert(old(self)@.contains(spec_complete_pair(hand@[i], hand@[j])));
                        } else {
                            assert(old(self)@.contains(spec_complete_pair(hand@[j], hand@[i])));
                        }
                        assert(spec_pair_completion_in(hand@, old(self)@));
                        // the draw is the swapped stock's top three and the
                        // rest of the swapped stock stays put
                        let (pi, pj) = if i < j {
                            (i, j)
                        } else {
                            (j, i)
                        };
                        assert(c == spec_complete_pair(hand@[pi], hand@[pj]));
                        assert(s0 == old(self)@);
                        assert(s1 == s0.update(ix as int, s0[s0.len() - 1]).update(
                            s0.len() - 1,
                            c,
                        ));
                        assert(d0 == s1.subrange(s0.len() - 3, s0.len() as int));
                        assert(self@ == s1.subrange(0, s0.len() - 3));
                        assert(spec_one_card_fix(
                            hand@,
                            old(self)@,
                            draw@,
                            self@,
                            pi,
                            pj,
                            ix as int,
                        ));
                    }
                    return Some(draw);
                }
                y += 1;
            }
            x += 1;
        }
        proof {
            if spec_pair_completion_in(hand@, self@) {
                lemma_pair_completion_perm(hand@, h@, self@);
                let (i, j) = choose|i: int, j: int|
                    0 <= i < j < h@.len() && self@.contains(
                        #[trigger] spec_complete_pair(h@[i], h@[j]),
                    );
                lemma_complete_pair_comm(h@[i], h@[j]);
                assert(!self@.contains(spec_complete_pair(h@[j], h@[i])));
                assert(false);
            }
        }
        None
    }

    /// Worst case two: one card of the missing triple-match is on the
    /// table, two are in the stock. Looks for a stock pair whose
    /// completion card sits in the hand; when found, removes that pair
    /// from the stock, draws one more arbitrary card, and shuffles the
    /// resulting group.
    pub fn fix_two_cards(&mut self, hand: &[Card]) -> (r: Option<Vec<Card>>)
        requires
            old(self).wf(),
            wf_seq(hand@),
            old(self)@.len() >= 3,
        ensures
            final(self).wf(),
            match r {
                Some(draw) => {
                    &&& draw@.len() == 3
                    &&& wf_seq(draw@)
                    &&& spec_has_set(hand@ + draw@)
                    &&& spec_stock_pair_completes(old(self)@, hand@)
                    &&& exists|x: int, y: int|
                        spec_two_card_fix(old(self)@, hand@, draw@, final(self)@, x, y)
                    &&& old(self)@.to_multiset() == final(self)@.to_multiset().add(
                        draw@.to_multiset(),
                    )
                },
                None => {
                    &&& final(self)@ == old(self)@
                    &&& !spec_stock_pair_completes(old(self)@, hand@)
                },
            },
    {
        broadcast use group_to_multiset_ensures;
        broadcast use vstd::multiset::group_multiset_axioms;

        let ghost s0 = self@;
        let sn = self.stock.len();
        let mut x: usize = 1;
        while x < sn
            invariant
                old(self).wf(),
                *self == *old(self),
                sn == self@.len(),
                sn >= 3,
                s0 == self@,
                wf_seq(hand@),
                x >= 1,
                forall|a: int, b: int|
                    0 <= b < a < x ==> !hand@.contains(
                        #[trigger] spec_complete_pair(s0[a], s0[b]),
                    ),
            decreases sn - x,
        {
            let mut y: usize = 0;
            while y < x
                invariant
                    old(self).wf(),
                    *self == *old(self),
                    sn == self@.len(),
                    sn >= 3,
                    s0 == self@,
                    wf_seq(hand@),
                    1 <= x < sn,
                    y <= x,
                    forall|a: int, b: int|
                        0 <= b < a < x ==> !hand@.contains(
                            #[trigger] spec_complete_pair(s0[a], s0[b]),
                        ),
                    forall|b: int|
                        0 <= b < y ==> !hand@.contains(
                            #[trigger] spec_complete_pair(s0[x as int], s0[b]),
                        ),
                decreases x - y,
            {
                let a = self.stock[x];
                let b = self.stock[y];
                let c = (a, b).complete_set();
                if contains_card(hand, c) {
                    let mut result: Vec<Card> = Vec::new();
                    result.push(a);
                    result.push(b);
                    // remove the found pair from the stock, larger
                    // position first so the smaller one stays valid
                    proof {
                        vstd::seq_lib::to_multiset_remove(s0, x as int);
                    }
                    self.stock.remove(x);
                    let ghost s1 = self@;
                    proof {
                        assert(s1[y as int] == s0[y as int]);
                        assert(s1.to_multiset() == s0.to_multiset().remove(a));
                        vstd::seq_lib::to_multiset_remove(s1, y as int);
                    }
                    self.stock.remove(y);
                    let ghost s2 = self@;
                    proof {
                        assert(s2.to_multiset() == s0.to_multiset().remove(a).remove(b));
                        assert forall|v: Card|
                            s2.to_multiset().count(v) <= #[trigger] s0.to_multiset().count(
                                v,
                            ) by {}
                        lemma_submultiset_wf(s0, s2);
                    }
                    // need 1 more card... any will do
                    let mut more = self.draw(1);
                    let ghost s3 = self@;
                    let ghost more0 = more@;
                    result.append(&mut more);
                    // randomize the order
                    let ghost r0 = result@;
                    result.shuffle();
                    proof {
                        lemma_perm_preserves(r0, result@);
                        // the two stock cards still sit in the shuffled draw
                        assert(r0[0] == a && r0[1] == b);
                        assert(r0.contains(a) && r0.contains(b));
                        vstd::seq_lib::to_multiset_contains(r0, a);
                        vstd::seq_lib::to_multiset_contains(r0, b);
                        vstd::seq_lib::to_multiset_contains(result@, a);
                        vstd::seq_lib::to_multiset_contains(result@, b);
                        assert(a != b);
                        assert(result@.contains(a) && result@.contains(b));
                        let p = choose|p: int| 0 <= p < result@.len() && result@[p] == a;
                        let q = choose|q: int| 0 <= q < result@.len() && result@[q] == b;
                        // the hand's completion card plus the pair is a
                        // triple-match inside hand + draw
                        let k = choose|k: int| 0 <= k < hand@.len() && hand@[k] == c;
                        lemma_complete_pair_properties(a, b);
                        let combined = hand@ + result@;
                        let hl = hand@.len() as int;
                        assert(combined[hl + p] == a && combined[hl + q] == b && combined[k]
                            == c);
                        lemma_has_set_witness(combined, hl + p, hl + q, k);
                        // that stock pair completes into the hand
                        lemma_complete_pair_comm(s0[y as int], s0[x as int]);
                        assert(hand@.contains(spec_complete_pair(s0[y as int], s0[x as int])));
                        assert(spec_stock_pair_completes(s0, hand@));
                        // the stock lost exactly the three drawn cards
                        vstd::seq_lib::to_multiset_contains(s0, a);
                        vstd::seq_lib::to_multiset_contains(s0, b);
                        assert(s0.contains(a) && s0.contains(b));
                        assert(r0 =~= seq![a, b] + more0);
                        lemma_multiset_commutative(seq![a, b], more0);
                        let e = Seq::<Card>::empty();
                        vstd::seq_lib::to_multiset_len(e);
                        vstd::multiset::lemma_multiset_empty_len(e.to_multiset());
                        vstd::seq_lib::to_multiset_build(e, a);
                        vstd::seq_lib::to_multiset_build(e.push(a), b);
                        assert(seq![a, b] =~= e.push(a).push(b));
                        assert(seq![a, b].to_multiset() =~= Multiset::<Card>::empty().insert(
                            a,
                        ).insert(b));
                        assert(s0.to_multiset() =~= s3.to_multiset().add(r0.to_multiset()));
                        assert(s0.to_multiset() == s3.to_multiset().add(result@.to_multiset()));
                        // the removed pair was the first completing pair in
                        // enumeration order, and the survivors keep their order
                        let taken = s0.remove(x as int).remove(y as int);
                        assert(s2 == taken);
                        assert(more0 == s2.subrange(s2.len() - 1, s2.len() as int));
                        assert(more0[0] == taken.last());
                        assert(r0 =~= seq![s0[x as int], s0[y as int], taken.last()]);
                        assert(result@.to_multiset() == seq![
                            s0[x as int],
                            s0[y as int],
                            taken.last(),
                        ].to_multiset());
                        assert(s3 == taken.subrange(0, taken.len() - 1));
                        assert forall|i: int, j: int|
                            0 <= j < i < s0.len() && (i < x || (i == x && j < y)) implies !hand@.contains(
                            #[trigger] spec_complete_pair(s0[i], s0[j]),
                        ) by {}
                        assert(spec_two_card_fix(s0, hand@, result@, self@, x as int, y as int));
                    }
                    return Some(result);
                }
                y += 1;
            }
            x += 1;
        }
        proof {
            if spec_stock_pair_completes(s0, hand@) {
                let (i, j) = choose|i: int, j: int|
                    0 <= i < j < s0.len() && hand@.contains(
                        #[trigger] spec_complete_pair(s0[i], s0[j]),
                    );
                lemma_complete_pair_comm(s0[i], s0[j]);
                assert(!hand@.contains(spec_complete_pair(s0[j], s0[i])));
                assert(false);
            }
        }
        None
    }

    /// Worst case three: the missing triple-match sits entirely in the
    /// stock. Finds the first triple-match there, removes its three cards
    /// from the stock, and returns them directly (the returned group is
    /// already a match, so no shuffling is needed).
    pub fn fix_three_cards(&mut self) -> (r: Option<Vec<Card>>)
        requires
            old(self).wf(),
        ensures
            final(self).wf(),
            match r {
                Some(draw) => {
                    &&& draw@.len() == 3
                    &&& wf_seq(draw@)
                    &&& spec_match3(draw@[0], draw@[1], draw@[2])
                    &&& spec_has_set(old(self)@)
                    &&& exists|x: int, y: int, z: int|
                        spec_three_card_fix(old(self)@, draw@, final(self)@, x, y, z)
                    &&& old(self)@.to_multiset() == final(self)@.to_multiset().add(
                        draw@.to_multiset(),
                    )
                },
                None => {
                    &&& final(self)@ == old(self)@
                    &&& !spec_has_set(old(self)@)
                },
            },
    {
        broadcast use group_to_multiset_ensures;
        broadcast use vstd::multiset::group_multiset_axioms;

        let ghost s0 = self@;
        let found = self.stock.as_slice().find_first_set();
        if let Some(st) = found {
            let (a, b, c) = st.cards();
            let ghost (gx, gy, gz) = choose|x: int, y: int, z: int|
                crate::find::spec_first_set_found(s0, x, y, z, st);
            proof {
                assert(s0[gx] == a && s0[gy] == b && s0[gz] == c);
                assert(s0.contains(a) && s0.contains(b) && s0.contains(c));
                assert(a != b && a != c && b != c);
                assert(spec_has_set(s0)) by {
                    assert(spec_match3(s0[gx], s0[gy], s0[gz]));
                }
            }
            let pa = position_of(&self.stock, a).unwrap();
            let pb = position_of(&self.stock, b).unwrap();
            let pc = position_of(&self.stock, c).unwrap();
            proof {
                assert(pa != pb && pa != pc && pb != pc);
                // the deck holds no card twice, so the searched positions
                // are the found triple's positions
                if pa as int != gx {
                    assert(s0[pa as int] == s0[gx]);
                    assert(false);
                }
                if pb as int != gy {
                    assert(s0[pb as int] == s0[gy]);
                    assert(false);
                }
                if pc as int != gz {
                    assert(s0[pc as int] == s0[gz]);
                    assert(false);
                }
            }
            // remove the three cards, largest position first so the
            // remaining positions stay valid
            let (hi1, lo1) = if pa > pb {
                (pa, pb)
            } else {
                (pb, pa)
            };
            let (hi, mid, lo) = if pc > hi1 {
                (pc, hi1, lo1)
            } else if pc > lo1 {
                (hi1, pc, lo1)
            } else {
                (hi1, lo1, pc)
            };
            proof {
                assert(lo < mid && mid < hi && hi < s0.len());
            }
            let v1 = self.stock.remove(hi);
            proof {
                assert(self@[mid as int] == s0[mid as int]);
                assert(self@[lo as int] == s0[lo as int]);
                assert(self@.to_multiset() == s0.to_multiset().remove(v1));
            }
            let v2 = self.stock.remove(mid);
            proof {
                assert(self@[lo as int] == s0[lo as int]);
            }
            let v3 = self.stock.remove(lo);
            let ghost s3 = self@;
            proof {
                assert(s3.to_multiset() == s0.to_multiset().remove(v1).remove(v2).remove(v3));
                assert forall|v: Card|
                    s3.to_multiset().count(v) <= #[trigger] s0.to_multiset().count(v) by {}
                lemma_submultiset_wf(s0, s3);
                // the removed cards are the three matching cards
                assert(seq![v1, v2, v3].to_multiset() =~= seq![a, b, c].to_multiset()) by {
                    assert(seq![v1, v2, v3] == seq![v1].push(v2).push(v3));
                    assert(seq![a, b, c] == seq![a].push(b).push(c));
                    assert(seq![v1] == Seq::<Card>::empty().push(v1));
                    assert(seq![a] == Seq::<Card>::empty().push(a));
                }
            }
            let mut draw: Vec<Card> = Vec::new();
            draw.push(a);
            draw.push(b);
            draw.push(c);
            proof {
                assert(draw@ =~= seq![a, b, c]);
                assert(s0.to_multiset() =~= s3.to_multiset().add(draw@.to_multiset()));
                // the draw is the first match in traversal order and the
                // surviving stock keeps its order
                assert(hi as int == gx && mid as int == gy && lo as int == gz);
                assert(s3 == s0.remove(gx).remove(gy).remove(gz));
                assert(draw@ == seq![s0[gx], s0[gy], s0[gz]]);
                assert(spec_three_card_fix(s0, draw@, s3, gx, gy, gz));
            }
            Some(draw)
        } else {
            None
        }
    }

    /// The smallest number of cards guaranteed to contain a triple-match
    /// is 21. However, the odds that there are no matches in 18 cards is
    /// so low that it almost never happens in practice. As long as there
    /// are at least 6 cards in the stock, the deck can be doctored so that
    /// 18 cards are guaranteed to contain a triple-match:
    ///
    /// 15 (table) + 6 (stock) == 21
    ///
    /// In the worst case scenario, 15 cards are on the table, 6 remain in
    /// the stock, and there is exactly one triple-match amongst those 21
    /// cards. There are three cases to handle: two of its cards are on the
    /// table and one is in the stock; one is on the table and two are in
    /// the stock; or all three are in the stock. The three fix functions
    /// handle them in that order, and `lemma_stuck_beyond_repair` shows
    /// the case split is exhaustive: when every tier declines and the hand
    /// itself has no match, the 21 cards hold no match at all.
    pub fn draw_guaranteeing_set(&mut self, hand: &[Card]) -> (r: Option<Vec<Card>>)
        requires
            old(self).wf(),
            wf_seq(hand@),
            hand@.no_duplicates(),
            hand@.len() == 15,
            old(self)@.len() >= 6,
        ensures
            final(self).wf(),
            match r {
                Some(draw) => {
                    &&& draw@.len() == 3
                    &&& wf_seq(draw@)
                    &&& spec_has_set(hand@ + draw@)
                    &&& {
                        ||| spec_has_set(hand@ + spec_top3(old(self)@))
                        ||| spec_pair_completion_in(hand@, old(self)@)
                        ||| spec_stock_pair_completes(old(self)@, hand@)
                        ||| spec_has_set(old(self)@)
                    }
                    &&& spec_has_set(hand@ + spec_top3(old(self)@)) ==> draw@ == spec_top3(
                        old(self)@,
                    ) && final(self)@ == old(self)@.subrange(0, old(self)@.len() - 3)
                    &&& old(self)@.to_multiset() == final(self)@.to_multiset().add(
                        draw@.to_multiset(),
                    )
                },
                None => {
                    &&& final(self)@ == old(self)@
                    &&& !spec_has_set(hand@ + spec_top3(old(self)@))
                    &&& !spec_pair_completion_in(hand@, old(self)@)
                    &&& !spec_stock_pair_completes(old(self)@, hand@)
                    &&& !spec_has_set(old(self)@)
                },
            },
    {
        let ghost s0 = self@;
        // Check to see if simply drawing the next 3 cards is okay. This
        // will almost always work.
        let mut draw = self.draw(3);
        let mut test = slice_to_vec(hand);
        let dn = draw.len();
        let mut i: usize = 0;
        proof {
            assert(hand@ + draw@.take(0) =~= hand@);
        }
        while i < dn
            invariant
                dn == draw@.len(),
                i <= dn,
                test@ == hand@ + draw@.take(i as int),
            decreases dn - i,
        {
            let c = draw[i];
            test.push(c);
            proof {
                assert(hand@ + draw@.take(i + 1) =~= (hand@ + draw@.take(i as int)).push(
                    draw@[i as int],
                ));
            }
            i += 1;
        }
        proof {
            assert(test@ =~= hand@ + draw@);
            assert forall|j: int| 0 <= j < test@.len() implies (#[trigger] test@[j]).wf() by {
                if j < hand@.len() {
                    assert(test@[j] == hand@[j]);
                } else {
                    assert(test@[j] == draw@[j - hand@.len()]);
                }
            }
        }
        if test.as_slice().contains_set() {
            proof {
                assert(draw@ == spec_top3(s0));
                assert(spec_has_set(hand@ + spec_top3(s0)));
            }
            return Some(draw);
        }
        // return the draw to the stock so we can doctor the deck
        let ghost top = draw@;
        proof {
            assert(top == spec_top3(s0));
            assert(!spec_has_set(hand@ + top));
        }
        self.stock.append(&mut draw);
        proof {
            assert(self@ =~= s0);
        }
        match self.fix_one_card(hand) {
            Some(d) => Some(d),
            None => match self.fix_two_cards(hand) {
                Some(d) => Some(d),
                None => match self.fix_three_cards() {
                    Some(d) => {
                        proof {
                            // the drawn cards are themselves a triple-match
                            let combined = hand@ + d@;
                            let hl = hand@.len() as int;
                            assert(combined[hl] == d@[0] && combined[hl + 1] == d@[1] && combined[
                                hl + 2] == d@[2]);
                            lemma_has_set_witness(combined, hl, hl + 1, hl + 2);
                        }
                        Some(d)
                    },
                    None => None,
                },
            },
        }
    }
}

/// When the hand itself has no triple-match and every repair tier
/// declines — no hand pair completes into the stock, no stock pair
/// completes into the hand, and the stock has no match of its own — then
/// hand and stock together hold no triple-match at all: the fallback
/// chain of `draw_guaranteeing_set` misses nothing.
pub proof fn lemma_stuck_beyond_repair(hand: Seq<Card>, stock: Seq<Card>)
    requires
        wf_seq(hand),
        wf_seq(stock),
        !spec_has_set(hand),
        !spec_pair_completion_in(hand, stock),
        !spec_stock_pair_completes(stock, hand),
        !spec_has_set(stock),
    ensures
        !spec_has_set(hand + stock),
{
    let combined = hand + stock;
    let hl = hand.len() as int;
    if spec_has_set(combined) {
        let (x, y, z) = choose|x: int, y: int, z: int|
            0 <= z < y < x < combined.len() && spec_match3(combined[x], combined[y], combined[z]);
        crate::card::lemma_match3_perm(combined[x], combined[y], combined[z]);
        if x < hl {
            // all three cards sit in the hand
            assert(spec_match3(hand[x], hand[y], hand[z]));
            assert(spec_has_set(hand));
        } else if y < hl {
            // two in the hand, one in the stock: the stock card completes
            // a hand pair
            let sx = x - hl;
            assert(combined[x] == stock[sx]);
            crate::card::lemma_match3_unique(hand[y], hand[z], stock[sx]);
            assert(stock[sx] == spec_complete_pair(hand[y], hand[z]));
            lemma_complete_pair_comm(hand[y], hand[z]);
            assert(stock.contains(spec_complete_pair(hand[z], hand[y])));
            assert(spec_pair_completion_in(hand, stock));
        } else if z < hl {
            // one in the hand, two in the stock: the hand card completes
            // a stock pair
            let sx = x - hl;
            let sy = y - hl;
            assert(combined[x] == stock[sx] && combined[y] == stock[sy]);
            crate::card::lemma_match3_unique(stock[sx], stock[sy], hand[z]);
            assert(hand[z] == spec_complete_pair(stock[sx], stock[sy]));
            lemma_complete_pair_comm(stock[sx], stock[sy]);
            assert(hand.contains(spec_complete_pair(stock[sy], stock[sx])));
            assert(spec_stock_pair_completes(stock, hand));
        } else {
            // all three cards sit in the stock
            let sx = x - hl;
            let sy = y - hl;
            let sz = z - hl;
            assert(combined[x] == stock[sx] && combined[y] == stock[sy] && combined[z]
                == stock[sz]);
            assert(spec_match3(stock[sx], stock[sy], stock[sz]));
            assert(spec_has_set(stock));
        }
        assert(false);
    }
}

} // verus!
