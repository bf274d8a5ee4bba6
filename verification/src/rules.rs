//! The two rule sets of the game family: classic triple-match play and
//! the quad-match variant. Each names itself, fixes the match size, the
//! initial deal, and the tableau fill order, and answers match queries
//! over the cards on the table.

use crate::card::{spec_complete_pair, spec_match3, spec_match4, wf_seq, Card, ToSet, ToSuperSet};
use crate::deck::{lemma_perm_index, lemma_perm_preserves};
use crate::find::{
    spec_count_sets, spec_count_supersets, spec_has_set, spec_has_superset, FindSets,
    FindSuperSets,
};
use crate::shuffle::Shuffle;
use vstd::prelude::*;
use vstd::slice::slice_to_vec;

verus! {

/// The classic rules: a match is three cards, every feature all-same or
/// all-different.
pub struct SetRules;

/// The quad variant: a match is four cards that split into two pairs with
/// one common completion.
pub struct SuperSetRules;

/// What a rule set must answer about cards on the table. The two hint
/// cards always extend to a full match within the given cards.
pub trait Rules {
    /// The display name of the variant.
    spec fn spec_name(&self) -> Seq<char>;

    /// The tableau fill order, topmost-filled-first.
    spec fn spec_deal_order(&self) -> Seq<usize>;

    /// How many cards the opening deal puts on the table.
    spec fn spec_initial_deal_size(&self) -> usize;

    /// How many cards form a match.
    spec fn spec_set_size(&self) -> usize;

    /// Whether a full selection of `spec_set_size` cards is a valid match.
    spec fn spec_valid(&self, s: Seq<Card>) -> bool;

    /// Whether the cards hold at least one match.
    spec fn spec_any(&self, s: Seq<Card>) -> bool;

    /// The two returned hint cards extend to a match within the cards.
    spec fn spec_hint_ok(&self, s: Seq<Card>, v: Seq<Card>) -> bool;

    /// The sequence is small enough that its match count fits the machine
    /// word.
    spec fn spec_count_req(&self, s: Seq<Card>) -> bool;

    /// How many matches the cards hold.
    spec fn spec_count(&self, s: Seq<Card>) -> int;

    fn name(&self) -> (r: &'static str)
        ensures
            r@ == self.spec_name(),
    ;

    /// Stack of tableau indices: top indices are dealt first.
    fn deal_order(&self) -> (r: Vec<usize>)
        ensures
            r@ == self.spec_deal_order(),
    ;

    fn initial_deal_size(&self) -> (r: usize)
        ensures
            r == self.spec_initial_deal_size(),
    ;

    fn set_size(&self) -> (r: usize)
        ensures
            r == self.spec_set_size(),
    ;

    fn valid_set(&self, selection: &[Card]) -> (r: bool)
        requires
            wf_seq(selection@),
            selection@.len() == self.spec_set_size(),
        ensures
            r == self.spec_valid(selection@),
    ;

    fn hint(&self, cards: &[Card]) -> (r: Option<Vec<Card>>)
        requires
            wf_seq(cards@),
            cards@.no_duplicates(),
        ensures
            r is Some <==> self.spec_any(cards@),
            match r {
                Some(v) => v@.len() == 2 && self.spec_hint_ok(cards@, v@),
                None => true,
            },
    ;

    fn stuck(&self, cards: &[Card]) -> (r: bool)
        requires
            wf_seq(cards@),
        ensures
            r == !self.spec_any(cards@),
    ;

    fn count_sets(&self, cards: &[Card]) -> (r: usize)
        requires
            wf_seq(cards@),
            self.spec_count_req(cards@),
        ensures
            r == self.spec_count(cards@),
    ;
}

impl Rules for SetRules {
    open spec fn spec_name(&self) -> Seq<char> {
        "Set"@
    }

    open spec fn spec_deal_order(&self) -> Seq<usize> {
        seq![19usize, 14, 9, 15, 10, 5, 18, 17, 16, 13, 12, 11, 8, 7, 6, 3, 2, 1]
    }

    open spec fn spec_initial_deal_size(&self) -> usize {
        12
    }

    open spec fn spec_set_size(&self) -> usize {
        3
    }

    open spec fn spec_valid(&self, s: Seq<Card>) -> bool {
        spec_match3(s[0], s[1], s[2])
    }

    open spec fn spec_any(&self, s: Seq<Card>) -> bool {
        spec_has_set(s)
    }

    /// The two hint cards sit in the table cards, and a third table card
    /// forms a triple-match with them.
    open spec fn spec_hint_ok(&self, s: Seq<Card>, v: Seq<Card>) -> bool {
        exists|i: int, j: int, k: int|
            #![trigger s[i], s[j], s[k]]
            {
                &&& 0 <= i < s.len() && 0 <= j < s.len() && 0 <= k < s.len()
                &&& i != j && i != k && j != k
                &&& s[i] == v[0] && s[j] == v[1]
                &&& spec_match3(v[0], v[1], s[k])
            }
    }

    open spec fn spec_count_req(&self, s: Seq<Card>) -> bool {
        s.len() * s.len() * s.len() + s.len() < usize::MAX
    }

    open spec fn spec_count(&self, s: Seq<Card>) -> int {
        spec_count_sets(s)
    }

    fn name(&self) -> (r: &'static str) {
        "Set"
    }

    fn deal_order(&self) -> (r: Vec<usize>) {
        //
        //  XX   1   2   3  XX
        //   5   6   7   8   9
        //  10  11  12  13  14
        //  15  16  17  18  19
        //
        let order = vec![19, 14, 9, 15, 10, 5, 18, 17, 16, 13, 12, 11, 8, 7, 6, 3, 2, 1];
        proof {
            assert(order@ =~= self.spec_deal_order());
        }
        order
    }

    fn initial_deal_size(&self) -> (r: usize) {
        12
    }

    fn set_size(&self) -> (r: usize) {
        3
    }

    fn valid_set(&self, selection: &[Card]) -> (r: bool) {
        let triple = (selection[0], selection[1], selection[2]);
        triple.to_set().is_some()
    }

    fn hint(&self, cards: &[Card]) -> (r: Option<Vec<Card>>) {
        // By shuffling here, we randomize both the order of the
        // discovered matches and the order of the cards within the
        // returned hint pair. Otherwise we favor matches and cards
        // earlier in the layout.
        let mut shuffled = slice_to_vec(cards);
        shuffled.shuffle();
        proof {
            lemma_perm_preserves(cards@, shuffled@);
        }
        let ghost sh = shuffled@;
        let found = shuffled.as_slice().find_first_set();
        if let Some(st) = found {
            let (a, b, c) = st.cards();
            let mut v: Vec<Card> = Vec::new();
            v.push(a);
            v.push(b);
            proof {
                let (x, y, z) = choose|x: int, y: int, z: int|
                    crate::find::spec_first_set_found(sh, x, y, z, st);
                assert(sh[x] == a && sh[y] == b && sh[z] == c);
                lemma_perm_index(sh, cards@, x);
                lemma_perm_index(sh, cards@, y);
                lemma_perm_index(sh, cards@, z);
                let i = choose|i: int| 0 <= i < cards@.len() && cards@[i] == sh[x];
                let j = choose|j: int| 0 <= j < cards@.len() && cards@[j] == sh[y];
                let k = choose|k: int| 0 <= k < cards@.len() && cards@[k] == sh[z];
                assert(a != b && a != c && b != c);
                assert(v@[0] == a && v@[1] == b);
                assert(spec_match3(v@[0], v@[1], cards@[k]));
                assert(self.spec_hint_ok(cards@, v@));
                crate::find::lemma_has_set_witness(cards@, i, j, k);
            }
            Some(v)
        } else {
            proof {
                if spec_has_set(cards@) {
                    let (x, y, z) = choose|x: int, y: int, z: int|
                        0 <= z < y < x < cards@.len() && spec_match3(
                            cards@[x],
                            cards@[y],
                            cards@[z],
                        );
                    lemma_perm_index(cards@, sh, x);
                    lemma_perm_index(cards@, sh, y);
                    lemma_perm_index(cards@, sh, z);
                    let i = choose|i: int| 0 <= i < sh.len() && sh[i] == cards@[x];
                    let j = choose|j: int| 0 <= j < sh.len() && sh[j] == cards@[y];
                    let k = choose|k: int| 0 <= k < sh.len() && sh[k] == cards@[z];
                    crate::find::lemma_has_set_witness(sh, i, j, k);
                    assert(false);
                }
            }
            None
        }
    }

    fn stuck(&self, cards: &[Card]) -> (r: bool) {
        !cards.contains_set()
    }

    fn count_sets(&self, cards: &[Card]) -> (r: usize) {
        FindSets::count_sets(cards)
    }
}

impl Rules for SuperSetRules {
    open spec fn spec_name(&self) -> Seq<char> {
        "SuperSet"@
    }

    open spec fn spec_deal_order(&self) -> Seq<usize> {
        seq![18usize, 17, 16, 13, 11, 8, 6, 3, 2, 1]
    }

    open spec fn spec_initial_deal_size(&self) -> usize {
        10
    }

    open spec fn spec_set_size(&self) -> usize {
        4
    }

    open spec fn spec_valid(&self, s: Seq<Card>) -> bool {
        spec_has_superset(s)
    }

    open spec fn spec_any(&self, s: Seq<Card>) -> bool {
        spec_has_superset(s)
    }

    /// The two hint cards sit in the table cards, and a second, disjoint
    /// pair of table cards completes to the same third card.
    open spec fn spec_hint_ok(&self, s: Seq<Card>, v: Seq<Card>) -> bool {
        exists|i: int, j: int, k: int, l: int|
            #![trigger s[i], s[j], s[k], s[l]]
            {
                &&& 0 <= i < s.len() && 0 <= j < s.len() && 0 <= k < s.len() && 0 <= l < s.len()
                &&& i != j && i != k && i != l && j != k && j != l && k != l
                &&& s[i] == v[0] && s[j] == v[1]
                &&& spec_complete_pair(v[0], v[1]) == spec_complete_pair(s[k], s[l])
            }
    }

    open spec fn spec_count_req(&self, s: Seq<Card>) -> bool {
        s.len() * s.len() * s.len() * s.len() + s.len() < usize::MAX
    }

    open spec fn spec_count(&self, s: Seq<Card>) -> int {
        spec_count_supersets(s)
    }

    fn name(&self) -> (r: &'static str) {
        "SuperSet"
    }

    fn deal_order(&self) -> (r: Vec<usize>) {
        //
        //  XX   1   2   3  XX
        //  XX   6  XX   8  XX
        //  XX  11  XX  13  XX
        //  XX  16  17  18  XX
        //
        let order = vec![18, 17, 16, 13, 11, 8, 6, 3, 2, 1];
        proof {
            assert(order@ =~= self.spec_deal_order());
        }
        order
    }

    fn initial_deal_size(&self) -> (r: usize) {
        10
    }

    fn set_size(&self) -> (r: usize) {
        4
    }

    fn valid_set(&self, selection: &[Card]) -> (r: bool) {
        selection.contains_superset()
    }

    fn hint(&self, cards: &[Card]) -> (r: Option<Vec<Card>>) {
        // Same rationale for randomizing as in the classic rules.
        let mut shuffled = slice_to_vec(cards);
        shuffled.shuffle();
        proof {
            lemma_perm_preserves(cards@, shuffled@);
        }
        let ghost sh = shuffled@;
        let found = shuffled.as_slice().find_first_superset();
        if let Some(ss) = found {
            let (a, b) = ss.left();  // or right
            let mut v: Vec<Card> = Vec::new();
            v.push(a);
            v.push(b);
            proof {
                let (x, y, z, w) = choose|x: int, y: int, z: int, w: int|
                    crate::find::spec_first_superset_found(sh, x, y, z, w, ss);
                let q0 = sh[x];
                let q1 = sh[y];
                let q2 = sh[z];
                let q3 = sh[w];
                assert(q0 != q1 && q0 != q2 && q0 != q3 && q1 != q2 && q1 != q3 && q2 != q3);
                lemma_perm_index(sh, cards@, x);
                lemma_perm_index(sh, cards@, y);
                lemma_perm_index(sh, cards@, z);
                lemma_perm_index(sh, cards@, w);
                let px = choose|p: int| 0 <= p < cards@.len() && cards@[p] == q0;
                let py = choose|p: int| 0 <= p < cards@.len() && cards@[p] == q1;
                let pz = choose|p: int| 0 <= p < cards@.len() && cards@[p] == q2;
                let pw = choose|p: int| 0 <= p < cards@.len() && cards@[p] == q3;
                let left = ss.spec_left();
                let right = ss.spec_right();
                assert((q0, q1, q2, q3).spec_superset_pairs() == Some((left, right)));
                assert(v@[0] == left.0 && v@[1] == left.1);
                assert(spec_complete_pair(left.0, left.1) == spec_complete_pair(
                    right.0,
                    right.1,
                ));
                if left == (q0, q1) {
                    assert(cards@[px] == v@[0] && cards@[py] == v@[1] && right == (q2, q3));
                    assert(self.spec_hint_ok(cards@, v@)) by {
                        assert(cards@[pz] == right.0 && cards@[pw] == right.1);
                    }
                } else if left == (q0, q2) {
                    assert(cards@[px] == v@[0] && cards@[pz] == v@[1] && right == (q1, q3));
                    assert(self.spec_hint_ok(cards@, v@)) by {
                        assert(cards@[py] == right.0 && cards@[pw] == right.1);
                    }
                } else {
                    assert(left == (q0, q3) && right == (q1, q2));
                    assert(cards@[px] == v@[0] && cards@[pw] == v@[1]);
                    assert(self.spec_hint_ok(cards@, v@)) by {
                        assert(cards@[py] == right.0 && cards@[pz] == right.1);
                    }
                }
                assert(spec_match4(q0, q1, q2, q3));
                assert(spec_match4(cards@[px], cards@[py], cards@[pz], cards@[pw]));
                crate::find::lemma_has_superset_witness(cards@, px, py, pz, pw);
            }
            Some(v)
        } else {
            proof {
                if spec_has_superset(cards@) {
                    let (x, y, z, w) = choose|x: int, y: int, z: int, w: int|
                        0 <= w < z < y < x < cards@.len() && spec_match4(
                            cards@[x],
                            cards@[y],
                            cards@[z],
                            cards@[w],
                        );
                    lemma_perm_index(cards@, sh, x);
                    lemma_perm_index(cards@, sh, y);
                    lemma_perm_index(cards@, sh, z);
                    lemma_perm_index(cards@, sh, w);
                    let i = choose|i: int| 0 <= i < sh.len() && sh[i] == cards@[x];
                    let j = choose|j: int| 0 <= j < sh.len() && sh[j] == cards@[y];
                    let k = choose|k: int| 0 <= k < sh.len() && sh[k] == cards@[z];
                    let l = choose|l: int| 0 <= l < sh.len() && sh[l] == cards@[w];
                    crate::find::lemma_has_superset_witness(sh, i, j, k, l);
                    assert(false);
                }
            }
            None
        }
    }

    fn stuck(&self, cards: &[Card]) -> (r: bool) {
        !cards.contains_superset()
    }

    fn count_sets(&self, cards: &[Card]) -> (r: usize) {
        FindSuperSets::count_supersets(cards)
    }
}

/// A rule set chosen at run time: one of the two variants, usable
/// wherever `Rules` is asked for.
pub enum GameRules {
    Classic(SetRules),
    Quad(SuperSetRules),
}

impl Rules for GameRules {
    open spec fn spec_name(&self) -> Seq<char> {
        match self {
            GameRules::Classic(r) => r.spec_name(),
            GameRules::Quad(r) => r.spec_name(),
        }
    }

    open spec fn spec_deal_order(&self) -> Seq<usize> {
        match self {
            GameRules::Classic(r) => r.spec_deal_order(),
            GameRules::Quad(r) => r.spec_deal_order(),
        }
    }

    open spec fn spec_initial_deal_size(&self) -> usize {
        match self {
            GameRules::Classic(r) => r.spec_initial_deal_size(),
            GameRules::Quad(r) => r.spec_initial_deal_size(),
        }
    }

    open spec fn spec_set_size(&self) -> usize {
        match self {
            GameRules::Classic(r) => r.spec_set_size(),
            GameRules::Quad(r) => r.spec_set_size(),
        }
    }

    open spec fn spec_valid(&self, s: Seq<Card>) -> bool {
        match self {
            GameRules::Classic(r) => r.spec_valid(s),
            GameRules::Quad(r) => r.spec_valid(s),
        }
    }

    open spec fn spec_any(&self, s: Seq<Card>) -> bool {
        match self {
            GameRules::Classic(r) => r.spec_any(s),
            GameRules::Quad(r) => r.spec_any(s),
        }
    }

    open spec fn spec_hint_ok(&self, s: Seq<Card>, v: Seq<Card>) -> bool {
        match self {
            GameRules::Classic(r) => r.spec_hint_ok(s, v),
            GameRules::Quad(r) => r.spec_hint_ok(s, v),
        }
    }

    open spec fn spec_count_req(&self, s: Seq<Card>) -> bool {
        match self {
            GameRules::Classic(r) => r.spec_count_req(s),
            GameRules::Quad(r) => r.spec_count_req(s),
        }
    }

    open spec fn spec_count(&self, s: Seq<Card>) -> int {
        match self {
            GameRules::Classic(r) => r.spec_count(s),
            GameRules::Quad(r) => r.spec_count(s),
        }
    }

    fn name(&self) -> (r: &'static str) {
        match self {
            GameRules::Classic(r) => r.name(),
            GameRules::Quad(r) => r.name(),
        }
    }

    fn deal_order(&self) -> (r: Vec<usize>) {
        match self {
            GameRules::Classic(r) => r.deal_order(),
            GameRules::Quad(r) => r.deal_order(),
        }
    }

    fn initial_deal_size(&self) -> (r: usize) {
        match self {
            GameRules::Classic(r) => r.initial_deal_size(),
            GameRules::Quad(r) => r.initial_deal_size(),
        }
    }

    fn set_size(&self) -> (r: usize) {
        match self {
            GameRules::Classic(r) => r.set_size(),
            GameRules::Quad(r) => r.set_size(),
        }
    }

    fn valid_set(&self, selection: &[Card]) -> (r: bool) {
        match self {
            GameRules::Classic(r) => r.valid_set(selection),
            GameRules::Quad(r) => r.valid_set(selection),
        }
    }

    fn hint(&self, cards: &[Card]) -> (r: Option<Vec<Card>>) {
        match self {
            GameRules::Classic(r) => r.hint(cards),
            GameRules::Quad(r) => r.hint(cards),
        }
    }

    fn stuck(&self, cards: &[Card]) -> (r: bool) {
        match self {
            GameRules::Classic(r) => r.stuck(cards),
            GameRules::Quad(r) => r.stuck(cards),
        }
    }

    fn count_sets(&self, cards: &[Card]) -> (r: usize) {
        match self {
            GameRules::Classic(r) => r.count_sets(cards),
            GameRules::Quad(r) => r.count_sets(cards),
        }
    }
}

} // verus!
