//! Exhaustive search for triple- and quad-matches within a card sequence.
//!
//! Traversal order for triples over a sequence of length n: nested
//! descending indices x in [2,n), y in [1,x), z in [0,y). For quads a
//! fourth index w in [0,z) is added. Each combination of positions appears
//! exactly once in this order, so counting visits every logical group once.

use crate::card::{lemma_match3_perm, lemma_match4_perm, spec_match3, spec_match4, wf_seq, Card,
    SuperSet, ToSet, ToSuperSet, TripleMatch};
use vstd::prelude::*;

verus! {

////////////////////////////////////////////////////////////////////////////////
// Triple-match enumeration order
////////////////////////////////////////////////////////////////////////////////

/// Matching triples (x, y, z) with these fixed x and y, z below zmax, in
/// traversal order.
pub open spec fn spec_sets_z(s: Seq<Card>, x: int, y: int, zmax: int) -> Seq<(Card, Card, Card)>
    decreases zmax,
{
    if zmax <= 0 {
        Seq::empty()
    } else {
        spec_sets_z(s, x, y, zmax - 1) + if spec_match3(s[x], s[y], s[zmax - 1]) {
            seq![(s[x], s[y], s[zmax - 1])]
        } else {
            Seq::empty()
        }
    }
}

/// Matching triples with this fixed x, y below ymax, in traversal order.
pub open spec fn spec_sets_y(s: Seq<Card>, x: int, ymax: int) -> Seq<(Card, Card, Card)>
    decreases ymax,
{
    if ymax <= 0 {
        Seq::empty()
    } else {
        spec_sets_y(s, x, ymax - 1) + spec_sets_z(s, x, ymax - 1, ymax - 1)
    }
}

/// Matching triples with x below xmax, in traversal order.
pub open spec fn spec_sets_x(s: Seq<Card>, xmax: int) -> Seq<(Card, Card, Card)>
    decreases xmax,
{
    if xmax <= 0 {
        Seq::empty()
    } else {
        spec_sets_x(s, xmax - 1) + spec_sets_y(s, xmax - 1, xmax - 1)
    }
}

/// Every matching triple of the sequence, in traversal order.
pub open spec fn spec_all_sets(s: Seq<Card>) -> Seq<(Card, Card, Card)> {
    spec_sets_x(s, s.len() as int)
}

/// How many triple-matches the sequence holds.
pub open spec fn spec_count_sets(s: Seq<Card>) -> int {
    spec_all_sets(s).len() as int
}

/// The sequence holds at least one triple-match.
pub open spec fn spec_has_set(s: Seq<Card>) -> bool {
    exists|x: int, y: int, z: int|
        0 <= z < y < x < s.len() && spec_match3(s[x], s[y], s[z])
}

/// Position (i, j, k) comes strictly before (x, y, z) in traversal order.
pub open spec fn spec_lex3_before(i: int, j: int, k: int, x: int, y: int, z: int) -> bool {
    i < x || (i == x && j < y) || (i == x && j == y && k < z)
}

/// No triple-match sits at a position before (x, y, z) in traversal order.
pub open spec fn spec_no_set_before(s: Seq<Card>, x: int, y: int, z: int) -> bool {
    forall|i: int, j: int, k: int|
        0 <= k < j < i < s.len() && spec_lex3_before(i, j, k, x, y, z) ==> !(#[trigger] spec_match3(
            s[i],
            s[j],
            s[k],
        ))
}

/// The found triple sits at position (x, y, z), and no position before it
/// in traversal order holds a match.
pub open spec fn spec_first_set_found(
    s: Seq<Card>,
    x: int,
    y: int,
    z: int,
    st: TripleMatch,
) -> bool {
    &&& 0 <= z < y < x < s.len()
    &&& st.spec_cards() == (s[x], s[y], s[z])
    &&& spec_no_set_before(s, x, y, z)
}

proof fn lemma_sets_z_empty(s: Seq<Card>, x: int, y: int)
    ensures
        spec_sets_z(s, x, y, 0) == Seq::<(Card, Card, Card)>::empty(),
{
}

proof fn lemma_sets_y_empty(s: Seq<Card>, x: int)
    ensures
        spec_sets_y(s, x, 0) == Seq::<(Card, Card, Card)>::empty(),
        spec_sets_y(s, x, 1) == Seq::<(Card, Card, Card)>::empty(),
{
    reveal_with_fuel(spec_sets_y, 3);
    assert(spec_sets_y(s, x, 1) =~= Seq::<(Card, Card, Card)>::empty());
}

proof fn lemma_sets_x_empty(s: Seq<Card>)
    ensures
        spec_sets_x(s, 0) == Seq::<(Card, Card, Card)>::empty(),
        spec_sets_x(s, 1) == Seq::<(Card, Card, Card)>::empty(),
        spec_sets_x(s, 2) == Seq::<(Card, Card, Card)>::empty(),
{
    reveal_with_fuel(spec_sets_x, 4);
    lemma_sets_y_empty(s, 0);
    lemma_sets_y_empty(s, 1);
    assert(spec_sets_x(s, 1) =~= Seq::<(Card, Card, Card)>::empty());
    assert(spec_sets_x(s, 2) =~= Seq::<(Card, Card, Card)>::empty());
}

proof fn lemma_sets_z_len(s: Seq<Card>, x: int, y: int, zmax: int)
    requires
        0 <= zmax,
    ensures
        spec_sets_z(s, x, y, zmax).len() <= zmax,
    decreases zmax,
{
    if zmax > 0 {
        lemma_sets_z_len(s, x, y, zmax - 1);
    }
}

proof fn lemma_sets_y_len(s: Seq<Card>, x: int, ymax: int)
    requires
        0 <= ymax,
    ensures
        spec_sets_y(s, x, ymax).len() <= ymax * ymax,
    decreases ymax,
{
    if ymax > 0 {
        lemma_sets_y_len(s, x, ymax - 1);
        lemma_sets_z_len(s, x, ymax - 1, ymax - 1);
        assert((ymax - 1) * (ymax - 1) + (ymax - 1) <= ymax * ymax) by (nonlinear_arith)
            requires
                ymax > 0,
        ;
    } else {
        assert(ymax * ymax == 0) by (nonlinear_arith)
            requires
                ymax == 0,
        ;
    }
}

proof fn lemma_sets_x_len(s: Seq<Card>, xmax: int)
    requires
        0 <= xmax,
    ensures
        spec_sets_x(s, xmax).len() <= xmax * xmax * xmax,
    decreases xmax,
{
    if xmax > 0 {
        lemma_sets_x_len(s, xmax - 1);
        lemma_sets_y_len(s, xmax - 1, xmax - 1);
        assert((xmax - 1) * (xmax - 1) * (xmax - 1) + (xmax - 1) * (xmax - 1) <= xmax * xmax
            * xmax) by (nonlinear_arith)
            requires
                xmax > 0,
        ;
    } else {
        assert(xmax * xmax * xmax == 0) by (nonlinear_arith)
            requires
                xmax == 0,
        ;
    }
}

////////////////////////////////////////////////////////////////////////////////
// FindSets
////////////////////////////////////////////////////////////////////////////////

/// Exhaustive triple-match search over an indexable card sequence.
pub trait FindSets {
    /// The cards searched.
    spec fn spec_sets_view(&self) -> Seq<Card>;

    /// The first triple-match in traversal order, or nothing when no
    /// triple of positions matches.
    fn find_first_set(&self) -> (r: Option<TripleMatch>)
        requires
            wf_seq(self.spec_sets_view()),
        ensures
            match r {
                Some(st) => st.wf() && exists|x: int, y: int, z: int|
                    spec_first_set_found(self.spec_sets_view(), x, y, z, st),
                None => !spec_has_set(self.spec_sets_view()),
            },
    ;

    /// Every triple-match, in traversal order.
    fn find_all_sets(&self) -> (r: Vec<TripleMatch>)
        requires
            wf_seq(self.spec_sets_view()),
        ensures
            r@.map_values(|st: TripleMatch| st.spec_cards()) == spec_all_sets(
                self.spec_sets_view(),
            ),
            forall|i: int| 0 <= i < r@.len() ==> (#[trigger] r@[i]).wf(),
    ;

    /// How many triple-matches the sequence holds. The length bound keeps
    /// the running count within the machine word.
    fn count_sets(&self) -> (r: usize)
        requires
            wf_seq(self.spec_sets_view()),
            self.spec_sets_view().len() * self.spec_sets_view().len() * self.spec_sets_view().len()
                + self.spec_sets_view().len() < usize::MAX,
        ensures
            r == spec_count_sets(self.spec_sets_view()),
    ;

    /// Whether at least one triple-match exists.
    fn contains_set(&self) -> (r: bool)
        requires
            wf_seq(self.spec_sets_view()),
        ensures
            r == spec_has_set(self.spec_sets_view()),
    ;
}

impl FindSets for [Card] {
    open spec fn spec_sets_view(&self) -> Seq<Card> {
        self@
    }

    fn find_first_set(&self) -> (r: Option<TripleMatch>) {
        let ghost s = self@;
        let n = self.len();
        let mut x: usize = 2;
        while x < n
            invariant
                wf_seq(s),
                s == self@,
                n == s.len(),
                2 <= x,
                spec_no_set_before(s, x as int, 1, 0),
            decreases n - x,
        {
            let mut y: usize = 1;
            while y < x
                invariant
                    wf_seq(s),
                    s == self@,
                    n == s.len(),
                    2 <= x < n,
                    1 <= y <= x,
                    spec_no_set_before(s, x as int, y as int, 0),
                decreases x - y,
            {
                let mut z: usize = 0;
                while z < y
                    invariant
                        wf_seq(s),
                        s == self@,
                        n == s.len(),
                        2 <= x < n,
                        1 <= y < x,
                        z <= y,
                        spec_no_set_before(s, x as int, y as int, z as int),
                    decreases y - z,
                {
                    let triple = (self[x], self[y], self[z]);
                    if let Some(st) = triple.to_set() {
                        proof {
                            assert(spec_first_set_found(
                                self.spec_sets_view(),
                                x as int,
                                y as int,
                                z as int,
                                st,
                            ));
                        }
                        return Some(st);
                    }
                    z += 1;
                }
                y += 1;
            }
            x += 1;
        }
        assert(!spec_has_set(s));
        None
    }

    fn find_all_sets(&self) -> (r: Vec<TripleMatch>) {
        let ghost s = self@;
        let ghost f = |st: TripleMatch| st.spec_cards();
        let n = self.len();
        let mut all: Vec<TripleMatch> = Vec::new();
        let mut x: usize = 2;
        proof {
            lemma_sets_x_empty(s);
            assert(all@.map_values(f) =~= spec_sets_x(s, 2));
        }
        while x < n
            invariant
                wf_seq(s),
                s == self@,
                n == s.len(),
                2 <= x,
                n >= 2 ==> x <= n,
                n < 2 ==> x == 2,
                f == (|st: TripleMatch| st.spec_cards()),
                all@.map_values(f) == spec_sets_x(s, x as int),
                forall|i: int| 0 <= i < all@.len() ==> (#[trigger] all@[i]).wf(),
            decreases n - x,
        {
            proof {
                lemma_sets_y_empty(s, x as int);
                assert(all@.map_values(f) =~= spec_sets_x(s, x as int) + spec_sets_y(
                    s,
                    x as int,
                    1,
                ));
            }
            let mut y: usize = 1;
            while y < x
                invariant
                    wf_seq(s),
                    s == self@,
                    n == s.len(),
                    2 <= x < n,
                    1 <= y <= x,
                    f == (|st: TripleMatch| st.spec_cards()),
                    all@.map_values(f) == spec_sets_x(s, x as int) + spec_sets_y(
                        s,
                        x as int,
                        y as int,
                    ),
                    forall|i: int| 0 <= i < all@.len() ==> (#[trigger] all@[i]).wf(),
                decreases x - y,
            {
                proof {
                    lemma_sets_z_empty(s, x as int, y as int);
                    assert(all@.map_values(f) =~= spec_sets_x(s, x as int) + spec_sets_y(
                        s,
                        x as int,
                        y as int,
                    ) + spec_sets_z(s, x as int, y as int, 0));
                }
                let mut z: usize = 0;
                while z < y
                    invariant
                        wf_seq(s),
                        s == self@,
                        n == s.len(),
                        2 <= x < n,
                        1 <= y < x,
                        z <= y,
                        f == (|st: TripleMatch| st.spec_cards()),
                        all@.map_values(f) == spec_sets_x(s, x as int) + spec_sets_y(
                            s,
                            x as int,
                            y as int,
                        ) + spec_sets_z(s, x as int, y as int, z as int),
                        forall|i: int| 0 <= i < all@.len() ==> (#[trigger] all@[i]).wf(),
                    decreases y - z,
                {
                    let ghost prev = all@;
                    let triple = (self[x], self[y], self[z]);
                    if let Some(st) = triple.to_set() {
                        all.push(st);
                        proof {
                            assert(all@.map_values(f) =~= prev.map_values(f).push(
                                st.spec_cards(),
                            ));
                        }
                    }
                    proof {
                        assert(all@.map_values(f) =~= spec_sets_x(s, x as int) + spec_sets_y(
                            s,
                            x as int,
                            y as int,
                        ) + spec_sets_z(s, x as int, y as int, z as int + 1));
                    }
                    z += 1;
                }
                proof {
                    assert(all@.map_values(f) =~= spec_sets_x(s, x as int) + spec_sets_y(
                        s,
                        x as int,
                        y as int + 1,
                    ));
                }
                y += 1;
            }
            proof {
                assert(all@.map_values(f) =~= spec_sets_x(s, x as int + 1));
            }
            x += 1;
        }
        proof {
            if n < 2 {
                lemma_sets_x_empty(s);
                assert(all@.map_values(f) =~= spec_all_sets(s));
            }
        }
        all
    }

    fn count_sets(&self) -> (r: usize) {
        let ghost s = self@;
        let n = self.len();
        let mut num: usize = 0;
        let mut x: usize = 2;
        proof {
            lemma_sets_x_empty(s);
        }
        while x < n
            invariant
                wf_seq(s),
                s == self@,
                n == s.len(),
                n * n * n + n < usize::MAX,
                2 <= x,
                n >= 2 ==> x <= n,
                n < 2 ==> x == 2,
                num == spec_sets_x(s, x as int).len(),
            decreases n - x,
        {
            proof {
                lemma_sets_y_empty(s, x as int);
            }
            let mut y: usize = 1;
            while y < x
                invariant
                    wf_seq(s),
                    s == self@,
                    n == s.len(),
                    n * n * n + n < usize::MAX,
                    2 <= x < n,
                    1 <= y <= x,
                    num == spec_sets_x(s, x as int).len() + spec_sets_y(s, x as int, y as int).len(),
                decreases x - y,
            {
                proof {
                    lemma_sets_z_empty(s, x as int, y as int);
                }
                let mut z: usize = 0;
                while z < y
                    invariant
                        wf_seq(s),
                        s == self@,
                        n == s.len(),
                        n * n * n + n < usize::MAX,
                        2 <= x < n,
                        1 <= y < x,
                        z <= y,
                        num == spec_sets_x(s, x as int).len() + spec_sets_y(
                            s,
                            x as int,
                            y as int,
                        ).len() + spec_sets_z(s, x as int, y as int, z as int).len(),
                    decreases y - z,
                {
                    let triple = (self[x], self[y], self[z]);
                    if triple.to_set().is_some() {
                        proof {
                            lemma_sets_x_len(s, x as int);
                            lemma_sets_y_len(s, x as int, y as int);
                            lemma_sets_z_len(s, x as int, y as int, z as int);
                            assert(x * x * x + y * y + z < n * n * n + n) by (nonlinear_arith)
                                requires
                                    0 <= z < y < x < n,
                            ;
                        }
                        num += 1;
                    }
                    z += 1;
                }
                y += 1;
            }
            x += 1;
        }
        proof {
            if n < 2 {
                lemma_sets_x_empty(s);
            }
        }
        num
    }

    fn contains_set(&self) -> (r: bool) {
        let ghost s = self@;
        let n = self.len();
        let mut x: usize = 2;
        while x < n
            invariant
                wf_seq(s),
                s == self@,
                n == s.len(),
                2 <= x,
                spec_no_set_before(s, x as int, 1, 0),
            decreases n - x,
        {
            let mut y: usize = 1;
            while y < x
                invariant
                    wf_seq(s),
                    s == self@,
                    n == s.len(),
                    2 <= x < n,
                    1 <= y <= x,
                    spec_no_set_before(s, x as int, y as int, 0),
                decreases x - y,
            {
                let mut z: usize = 0;
                while z < y
                    invariant
                        wf_seq(s),
                        s == self@,
                        n == s.len(),
                        2 <= x < n,
                        1 <= y < x,
                        z <= y,
                        spec_no_set_before(s, x as int, y as int, z as int),
                    decreases y - z,
                {
                    let triple = (self[x], self[y], self[z]);
                    if triple.to_set().is_some() {
                        proof {
                            assert(spec_has_set(self.spec_sets_view())) by {
                                assert(spec_match3(s[x as int], s[y as int], s[z as int]));
                            }
                        }
                        return true;
                    }
                    z += 1;
                }
                y += 1;
            }
            x += 1;
        }
        assert(!spec_has_set(s));
        false
    }
}

/// Three distinct positions holding a triple-match witness the existence
/// of one, whatever order the positions come in.
pub proof fn lemma_has_set_witness(s: Seq<Card>, i: int, j: int, k: int)
    requires
        0 <= i < s.len(),
        0 <= j < s.len(),
        0 <= k < s.len(),
        i != j,
        i != k,
        j != k,
        spec_match3(s[i], s[j], s[k]),
    ensures
        spec_has_set(s),
{
    lemma_match3_perm(s[i], s[j], s[k]);
    if i > j && j > k {
        assert(spec_match3(s[i], s[j], s[k]));
    } else if i > k && k > j {
        assert(spec_match3(s[i], s[k], s[j]));
    } else if k > i && i > j {
        assert(spec_match3(s[k], s[i], s[j]));
    } else if j > i && i > k {
        assert(spec_match3(s[j], s[i], s[k]));
    } else if j > k && k > i {
        assert(spec_match3(s[j], s[k], s[i]));
    } else {
        assert(spec_match3(s[k], s[j], s[i]));
    }
}

////////////////////////////////////////////////////////////////////////////////
// Quad-match enumeration order
////////////////////////////////////////////////////////////////////////////////

type PairOfPairs = ((Card, Card), (Card, Card));

/// The witnessing pairing for the quad at (x, y, z, w), when it matches.
pub open spec fn spec_quad_pairing(s: Seq<Card>, x: int, y: int, z: int, w: int) -> Seq<
    PairOfPairs,
> {
    match (s[x], s[y], s[z], s[w]).spec_superset_pairs() {
        Some(p) => seq![p],
        None => Seq::empty(),
    }
}

/// Matching quads with fixed x, y, z and fourth position below wmax.
pub open spec fn spec_ssets_w(s: Seq<Card>, x: int, y: int, z: int, wmax: int) -> Seq<PairOfPairs>
    decreases wmax,
{
    if wmax <= 0 {
        Seq::empty()
    } else {
        spec_ssets_w(s, x, y, z, wmax - 1) + spec_quad_pairing(s, x, y, z, wmax - 1)
    }
}

/// Matching quads with fixed x, y and third position below zmax.
pub open spec fn spec_ssets_z(s: Seq<Card>, x: int, y: int, zmax: int) -> Seq<PairOfPairs>
    decreases zmax,
{
    if zmax <= 0 {
        Seq::empty()
    } else {
        spec_ssets_z(s, x, y, zmax - 1) + spec_ssets_w(s, x, y, zmax - 1, zmax - 1)
    }
}

/// Matching quads with fixed x and second position below ymax.
pub open spec fn spec_ssets_y(s: Seq<Card>, x: int, ymax: int) -> Seq<PairOfPairs>
    decreases ymax,
{
    if ymax <= 0 {
        Seq::empty()
    } else {
        spec_ssets_y(s, x, ymax - 1) + spec_ssets_z(s, x, ymax - 1, ymax - 1)
    }
}

/// Matching quads with first position below xmax.
pub open spec fn spec_ssets_x(s: Seq<Card>, xmax: int) -> Seq<PairOfPairs>
    decreases xmax,
{
    if xmax <= 0 {
        Seq::empty()
    } else {
        spec_ssets_x(s, xmax - 1) + spec_ssets_y(s, xmax - 1, xmax - 1)
    }
}

/// The witnessing pairings of every matching quad, in traversal order.
pub open spec fn spec_all_supersets(s: Seq<Card>) -> Seq<PairOfPairs> {
    spec_ssets_x(s, s.len() as int)
}

/// How many quad-matches the sequence holds.
pub open spec fn spec_count_supersets(s: Seq<Card>) -> int {
    spec_all_supersets(s).len() as int
}

/// The sequence holds at least one quad-match.
pub open spec fn spec_has_superset(s: Seq<Card>) -> bool {
    exists|x: int, y: int, z: int, w: int|
        0 <= w < z < y < x < s.len() && spec_match4(s[x], s[y], s[z], s[w])
}

/// Position (i, j, k, l) comes strictly before (x, y, z, w) in traversal
/// order.
pub open spec fn spec_lex4_before(
    i: int,
    j: int,
    k: int,
    l: int,
    x: int,
    y: int,
    z: int,
    w: int,
) -> bool {
    ||| i < x
    ||| (i == x && j < y)
    ||| (i == x && j == y && k < z)
    ||| (i == x && j == y && k == z && l < w)
}

/// No quad-match sits at a position before (x, y, z, w) in traversal order.
pub open spec fn spec_no_superset_before(s: Seq<Card>, x: int, y: int, z: int, w: int) -> bool {
    forall|i: int, j: int, k: int, l: int|
        0 <= l < k < j < i < s.len() && spec_lex4_before(i, j, k, l, x, y, z, w) ==> !(
        #[trigger] spec_match4(s[i], s[j], s[k], s[l]))
}

/// The found quad sits at position (x, y, z, w), and no position before it
/// in traversal order holds a quad-match.
pub open spec fn spec_first_superset_found(
    s: Seq<Card>,
    x: int,
    y: int,
    z: int,
    w: int,
    ss: SuperSet,
) -> bool {
    &&& 0 <= w < z < y < x < s.len()
    &&& (s[x], s[y], s[z], s[w]).spec_superset_pairs() == Some(
        (ss.spec_left(), ss.spec_right()),
    )
    &&& spec_no_superset_before(s, x, y, z, w)
}

/// How far four indices are from descending order, counted as the number
/// of ascending pairs among them.
pub open spec fn spec_asc4(i: int, j: int, k: int, l: int) -> int {
    (if i < j {
        1int
    } else {
        0int
    }) + (if i < k {
        1int
    } else {
        0int
    }) + (if i < l {
        1int
    } else {
        0int
    }) + (if j < k {
        1int
    } else {
        0int
    }) + (if j < l {
        1int
    } else {
        0int
    }) + (if k < l {
        1int
    } else {
        0int
    })
}

/// Four distinct positions holding a quad-match witness the existence of
/// one, whatever order the positions come in.
pub proof fn lemma_has_superset_witness(s: Seq<Card>, i: int, j: int, k: int, l: int)
    requires
        0 <= i < s.len(),
        0 <= j < s.len(),
        0 <= k < s.len(),
        0 <= l < s.len(),
        i != j && i != k && i != l && j != k && j != l && k != l,
        spec_match4(s[i], s[j], s[k], s[l]),
    ensures
        spec_has_superset(s),
    decreases spec_asc4(i, j, k, l),
{
    if j > i {
        lemma_match4_perm(s[i], s[j], s[k], s[l]);
        lemma_has_superset_witness(s, j, i, k, l);
    } else if k > j {
        lemma_match4_perm(s[i], s[j], s[k], s[l]);
        lemma_has_superset_witness(s, i, k, j, l);
    } else if l > k {
        lemma_match4_perm(s[i], s[j], s[k], s[l]);
        lemma_has_superset_witness(s, i, j, l, k);
    } else {
        assert(0 <= l < k < j < i < s.len() && spec_match4(s[i], s[j], s[k], s[l]));
    }
}

proof fn lemma_ssets_w_empty(s: Seq<Card>, x: int, y: int, z: int)
    ensures
        spec_ssets_w(s, x, y, z, 0) == Seq::<PairOfPairs>::empty(),
{
}

proof fn lemma_ssets_z_empty(s: Seq<Card>, x: int, y: int)
    ensures
        spec_ssets_z(s, x, y, 0) == Seq::<PairOfPairs>::empty(),
        spec_ssets_z(s, x, y, 1) == Seq::<PairOfPairs>::empty(),
{
    reveal_with_fuel(spec_ssets_z, 3);
    assert(spec_ssets_z(s, x, y, 1) =~= Seq::<PairOfPairs>::empty());
}

proof fn lemma_ssets_y_empty(s: Seq<Card>, x: int)
    ensures
        spec_ssets_y(s, x, 0) == Seq::<PairOfPairs>::empty(),
        spec_ssets_y(s, x, 1) == Seq::<PairOfPairs>::empty(),
        spec_ssets_y(s, x, 2) == Seq::<PairOfPairs>::empty(),
{
    reveal_with_fuel(spec_ssets_y, 4);
    lemma_ssets_z_empty(s, x, 0);
    lemma_ssets_z_empty(s, x, 1);
    assert(spec_ssets_y(s, x, 1) =~= Seq::<PairOfPairs>::empty());
    assert(spec_ssets_y(s, x, 2) =~= Seq::<PairOfPairs>::empty());
}

proof fn lemma_ssets_x_empty(s: Seq<Card>)
    ensures
        spec_ssets_x(s, 0) == Seq::<PairOfPairs>::empty(),
        spec_ssets_x(s, 1) == Seq::<PairOfPairs>::empty(),
        spec_ssets_x(s, 2) == Seq::<PairOfPairs>::empty(),
        spec_ssets_x(s, 3) == Seq::<PairOfPairs>::empty(),
{
    reveal_with_fuel(spec_ssets_x, 5);
    lemma_ssets_y_empty(s, 0);
    lemma_ssets_y_empty(s, 1);
    lemma_ssets_y_empty(s, 2);
    assert(spec_ssets_x(s, 1) =~= Seq::<PairOfPairs>::empty());
    assert(spec_ssets_x(s, 2) =~= Seq::<PairOfPairs>::empty());
    assert(spec_ssets_x(s, 3) =~= Seq::<PairOfPairs>::empty());
}

proof fn lemma_ssets_w_len(s: Seq<Card>, x: int, y: int, z: int, wmax: int)
    requires
        0 <= wmax,
    ensures
        spec_ssets_w(s, x, y, z, wmax).len() <= wmax,
    decreases wmax,
{
    if wmax > 0 {
        lemma_ssets_w_len(s, x, y, z, wmax - 1);
    }
}

proof fn lemma_ssets_z_len(s: Seq<Card>, x: int, y: int, zmax: int)
    requires
        0 <= zmax,
    ensures
        spec_ssets_z(s, x, y, zmax).len() <= zmax * zmax,
    decreases zmax,
{
    if zmax > 0 {
        lemma_ssets_z_len(s, x, y, zmax - 1);
        lemma_ssets_w_len(s, x, y, zmax - 1, zmax - 1);
        assert((zmax - 1) * (zmax - 1) + (zmax - 1) <= zmax * zmax) by (nonlinear_arith)
            requires
                zmax > 0,
        ;
    } else {
        assert(zmax * zmax == 0) by (nonlinear_arith)
            requires
                zmax == 0,
        ;
    }
}

proof fn lemma_ssets_y_len(s: Seq<Card>, x: int, ymax: int)
    requires
        0 <= ymax,
    ensures
        spec_ssets_y(s, x, ymax).len() <= ymax * ymax * ymax,
    decreases ymax,
{
    if ymax > 0 {
        lemma_ssets_y_len(s, x, ymax - 1);
        lemma_ssets_z_len(s, x, ymax - 1, ymax - 1);
        assert((ymax - 1) * (ymax - 1) * (ymax - 1) + (ymax - 1) * (ymax - 1) <= ymax * ymax
            * ymax) by (nonlinear_arith)
            requires
                ymax > 0,
        ;
    } else {
        assert(ymax * ymax * ymax == 0) by (nonlinear_arith)
            requires
                ymax == 0,
        ;
    }
}

proof fn lemma_ssets_x_len(s: Seq<Card>, xmax: int)
    requires
        0 <= xmax,
    ensures
        spec_ssets_x(s, xmax).len() <= xmax * xmax * xmax * xmax,
    decreases xmax,
{
    if xmax > 0 {
        lemma_ssets_x_len(s, xmax - 1);
        lemma_ssets_y_len(s, xmax - 1, xmax - 1);
        assert((xmax - 1) * (xmax - 1) * (xmax - 1) * (xmax - 1) + (xmax - 1) * (xmax - 1) * (xmax
            - 1) <= xmax * xmax * xmax * xmax) by (nonlinear_arith)
            requires
                xmax > 0,
        ;
    } else {
        assert(xmax * xmax * xmax * xmax == 0) by (nonlinear_arith)
            requires
                xmax == 0,
        ;
    }
}

////////////////////////////////////////////////////////////////////////////////
// FindSuperSets
////////////////////////////////////////////////////////////////////////////////

/// Exhaustive quad-match search over an indexable card sequence.
pub trait FindSuperSets {
    /// The cards searched.
    spec fn spec_ssets_view(&self) -> Seq<Card>;

    /// The first quad-match in traversal order, or nothing when no four
    /// positions match.
    fn find_first_superset(&self) -> (r: Option<SuperSet>)
        requires
            wf_seq(self.spec_ssets_view()),
        ensures
            match r {
                Some(ss) => ss.wf() && exists|x: int, y: int, z: int, w: int|
                    spec_first_superset_found(self.spec_ssets_view(), x, y, z, w, ss),
                None => !spec_has_superset(self.spec_ssets_view()),
            },
    ;

    /// Every quad-match, in traversal order.
    fn find_all_supersets(&self) -> (r: Vec<SuperSet>)
        requires
            wf_seq(self.spec_ssets_view()),
        ensures
            r@.map_values(|ss: SuperSet| (ss.spec_left(), ss.spec_right()))
                == spec_all_supersets(self.spec_ssets_view()),
            forall|i: int| 0 <= i < r@.len() ==> (#[trigger] r@[i]).wf(),
    ;

    /// How many quad-matches the sequence holds. The length bound keeps
    /// the running count within the machine word.
    fn count_supersets(&self) -> (r: usize)
        requires
            wf_seq(self.spec_ssets_view()),
            self.spec_ssets_view().len() * self.spec_ssets_view().len()
                * self.spec_ssets_view().len() * self.spec_ssets_view().len()
                + self.spec_ssets_view().len() < usize::MAX,
        ensures
            r == spec_count_supersets(self.spec_ssets_view()),
    ;

    /// Whether at least one quad-match exists.
    fn contains_superset(&self) -> (r: bool)
        requires
            wf_seq(self.spec_ssets_view()),
        ensures
            r == spec_has_superset(self.spec_ssets_view()),
    ;
}

impl FindSuperSets for [Card] {
    open spec fn spec_ssets_view(&self) -> Seq<Card> {
        self@
    }

    fn find_first_superset(&self) -> (r: Option<SuperSet>) {
        let ghost s = self@;
        let n = self.len();
        let mut x: usize = 3;
        while x < n
            invariant
                wf_seq(s),
                s == self@,
                n == s.len(),
                3 <= x,
                spec_no_superset_before(s, x as int, 2, 1, 0),
            decreases n - x,
        {
            let mut y: usize = 2;
            while y < x
                invariant
                    wf_seq(s),
                    s == self@,
                    n == s.len(),
                    3 <= x < n,
                    2 <= y <= x,
                    spec_no_superset_before(s, x as int, y as int, 1, 0),
                decreases x - y,
            {
                let mut z: usize = 1;
                while z < y
                    invariant
                        wf_seq(s),
                        s == self@,
                        n == s.len(),
                        3 <= x < n,
                        2 <= y < x,
                        1 <= z <= y,
                        spec_no_superset_before(s, x as int, y as int, z as int, 0),
                    decreases y - z,
                {
                    let mut w: usize = 0;
                    while w < z
                        invariant
                            wf_seq(s),
                            s == self@,
                            n == s.len(),
                            3 <= x < n,
                            2 <= y < x,
                            1 <= z < y,
                            w <= z,
                            spec_no_superset_before(s, x as int, y as int, z as int, w as int),
                        decreases z - w,
                    {
                        let quad = (self[x], self[y], self[z], self[w]);
                        if let Some(ss) = quad.to_superset() {
                            proof {
                                assert(spec_first_superset_found(
                                    self.spec_ssets_view(),
                                    x as int,
                                    y as int,
                                    z as int,
                                    w as int,
                                    ss,
                                ));
                            }
                            return Some(ss);
                        }
                        w += 1;
                    }
                    z += 1;
                }
                y += 1;
            }
            x += 1;
        }
        assert(!spec_has_superset(s));
        None
    }

    fn find_all_supersets(&self) -> (r: Vec<SuperSet>) {
        let ghost s = self@;
        let ghost f = |ss: SuperSet| (ss.spec_left(), ss.spec_right());
        let n = self.len();
        let mut all: Vec<SuperSet> = Vec::new();
        let mut x: usize = 3;
        proof {
            lemma_ssets_x_empty(s);
            assert(all@.map_values(f) =~= spec_ssets_x(s, 3));
        }
        while x < n
            invariant
                wf_seq(s),
                s == self@,
                n == s.len(),
                3 <= x,
                n >= 3 ==> x <= n,
                n < 3 ==> x == 3,
                f == (|ss: SuperSet| (ss.spec_left(), ss.spec_right())),
                all@.map_values(f) == spec_ssets_x(s, x as int),
                forall|i: int| 0 <= i < all@.len() ==> (#[trigger] all@[i]).wf(),
            decreases n - x,
        {
            proof {
                lemma_ssets_y_empty(s, x as int);
                assert(all@.map_values(f) =~= spec_ssets_x(s, x as int) + spec_ssets_y(
                    s,
                    x as int,
                    2,
                ));
            }
            let mut y: usize = 2;
            while y < x
                invariant
                    wf_seq(s),
                    s == self@,
                    n == s.len(),
                    3 <= x < n,
                    2 <= y <= x,
                    f == (|ss: SuperSet| (ss.spec_left(), ss.spec_right())),
                    all@.map_values(f) == spec_ssets_x(s, x as int) + spec_ssets_y(
                        s,
                        x as int,
                        y as int,
                    ),
                    forall|i: int| 0 <= i < all@.len() ==> (#[trigger] all@[i]).wf(),
                decreases x - y,
            {
                proof {
                    lemma_ssets_z_empty(s, x as int, y as int);
                    assert(all@.map_values(f) =~= spec_ssets_x(s, x as int) + spec_ssets_y(
                        s,
                        x as int,
                        y as int,
                    ) + spec_ssets_z(s, x as int, y as int, 1));
                }
                let mut z: usize = 1;
                while z < y
                    invariant
                        wf_seq(s),
                        s == self@,
                        n == s.len(),
                        3 <= x < n,
                        2 <= y < x,
                        1 <= z <= y,
                        f == (|ss: SuperSet| (ss.spec_left(), ss.spec_right())),
                        all@.map_values(f) == spec_ssets_x(s, x as int) + spec_ssets_y(
                            s,
                            x as int,
                            y as int,
                        ) + spec_ssets_z(s, x as int, y as int, z as int),
                        forall|i: int| 0 <= i < all@.len() ==> (#[trigger] all@[i]).wf(),
                    decreases y - z,
                {
                    proof {
                        lemma_ssets_w_empty(s, x as int, y as int, z as int);
                        assert(all@.map_values(f) =~= spec_ssets_x(s, x as int) + spec_ssets_y(
                            s,
                            x as int,
                            y as int,
                        ) + spec_ssets_z(s, x as int, y as int, z as int) + spec_ssets_w(
                            s,
                            x as int,
                            y as int,
                            z as int,
                            0,
                        ));
                    }
                    let mut w: usize = 0;
                    while w < z
                        invariant
                            wf_seq(s),
                            s == self@,
                            n == s.len(),
                            3 <= x < n,
                            2 <= y < x,
                            1 <= z < y,
                            w <= z,
                            f == (|ss: SuperSet| (ss.spec_left(), ss.spec_right())),
                            all@.map_values(f) == spec_ssets_x(s, x as int) + spec_ssets_y(
                                s,
                                x as int,
                                y as int,
                            ) + spec_ssets_z(s, x as int, y as int, z as int) + spec_ssets_w(
                                s,
                                x as int,
                                y as int,
                                z as int,
                                w as int,
                            ),
                            forall|i: int| 0 <= i < all@.len() ==> (#[trigger] all@[i]).wf(),
                        decreases z - w,
                    {
                        let ghost prev = all@;
                        let quad = (self[x], self[y], self[z], self[w]);
                        if let Some(ss) = quad.to_superset() {
                            all.push(ss);
                            proof {
                                assert(all@.map_values(f) =~= prev.map_values(f).push(
                                    (ss.spec_left(), ss.spec_right()),
                                ));
                            }
                        }
                        proof {
                            assert(all@.map_values(f) =~= spec_ssets_x(s, x as int)
                                + spec_ssets_y(s, x as int, y as int) + spec_ssets_z(
                                s,
                                x as int,
                                y as int,
                                z as int,
                            ) + spec_ssets_w(s, x as int, y as int, z as int, w as int + 1));
                        }
                        w += 1;
                    }
                    proof {
                        assert(all@.map_values(f) =~= spec_ssets_x(s, x as int) + spec_ssets_y(
                            s,
                            x as int,
                            y as int,
                        ) + spec_ssets_z(s, x as int, y as int, z as int + 1));
                    }
                    z += 1;
                }
                proof {
                    assert(all@.map_values(f) =~= spec_ssets_x(s, x as int) + spec_ssets_y(
                        s,
                        x as int,
                        y as int + 1,
                    ));
                }
                y += 1;
            }
            proof {
                assert(all@.map_values(f) =~= spec_ssets_x(s, x as int + 1));
            }
            x += 1;
        }
        proof {
            if n < 3 {
                lemma_ssets_x_empty(s);
                assert(all@.map_values(f) =~= spec_all_supersets(s));
            }
        }
        all
    }

    fn count_supersets(&self) -> (r: usize) {
        let ghost s = self@;
        let n = self.len();
        let mut num: usize = 0;
        let mut x: usize = 3;
        proof {
            lemma_ssets_x_empty(s);
        }
        while x < n
            invariant
                wf_seq(s),
                s == self@,
                n == s.len(),
                n * n * n * n + n < usize::MAX,
                3 <= x,
                n >= 3 ==> x <= n,
                n < 3 ==> x == 3,
                num == spec_ssets_x(s, x as int).len(),
            decreases n - x,
        {
            proof {
                lemma_ssets_y_empty(s, x as int);
            }
            let mut y: usize = 2;
            while y < x
                invariant
                    wf_seq(s),
                    s == self@,
                    n == s.len(),
                    n * n * n * n + n < usize::MAX,
                    3 <= x < n,
                    2 <= y <= x,
                    num == spec_ssets_x(s, x as int).len() + spec_ssets_y(
                        s,
                        x as int,
                        y as int,
                    ).len(),
                decreases x - y,
            {
                proof {
                    lemma_ssets_z_empty(s, x as int, y as int);
                }
                let mut z: usize = 1;
                while z < y
                    invariant
                        wf_seq(s),
                        s == self@,
                        n == s.len(),
                        n * n * n * n + n < usize::MAX,
                        3 <= x < n,
                        2 <= y < x,
                        1 <= z <= y,
                        num == spec_ssets_x(s, x as int).len() + spec_ssets_y(
                            s,
                            x as int,
                            y as int,
                        ).len() + spec_ssets_z(s, x as int, y as int, z as int).len(),
                    decreases y - z,
                {
                    proof {
                        lemma_ssets_w_empty(s, x as int, y as int, z as int);
                    }
                    let mut w: usize = 0;
                    while w < z
                        invariant
                            wf_seq(s),
                            s == self@,
                            n == s.len(),
                            n * n * n * n + n < usize::MAX,
                            3 <= x < n,
                            2 <= y < x,
                            1 <= z < y,
                            w <= z,
                            num == spec_ssets_x(s, x as int).len() + spec_ssets_y(
                                s,
                                x as int,
                                y as int,
                            ).len() + spec_ssets_z(s, x as int, y as int, z as int).len()
                                + spec_ssets_w(s, x as int, y as int, z as int, w as int).len(),
                        decreases z - w,
                    {
                        let quad = (self[x], self[y], self[z], self[w]);
                        if quad.to_superset().is_some() {
                            proof {
                                lemma_ssets_x_len(s, x as int);
                                lemma_ssets_y_len(s, x as int, y as int);
                                lemma_ssets_z_len(s, x as int, y as int, z as int);
                                lemma_ssets_w_len(s, x as int, y as int, z as int, w as int);
                                assert(x * x * x * x + y * y * y + z * z + w < n * n * n * n
                                    + n) by (nonlinear_arith)
                                    requires
                                        0 <= w < z < y < x < n,
                                ;
                            }
                            num += 1;
                        }
                        w += 1;
                    }
                    z += 1;
                }
                y += 1;
            }
            x += 1;
        }
        proof {
            if n < 3 {
                lemma_ssets_x_empty(s);
            }
        }
        num
    }

    fn contains_superset(&self) -> (r: bool) {
        let ghost s = self@;
        let n = self.len();
        let mut x: usize = 3;
        while x < n
            invariant
                wf_seq(s),
                s == self@,
                n == s.len(),
                3 <= x,
                spec_no_superset_before(s, x as int, 2, 1, 0),
            decreases n - x,
        {
            let mut y: usize = 2;
            while y < x
                invariant
                    wf_seq(s),
                    s == self@,
                    n == s.len(),
                    3 <= x < n,
                    2 <= y <= x,
                    spec_no_superset_before(s, x as int, y as int, 1, 0),
                decreases x - y,
            {
                let mut z: usize = 1;
                while z < y
                    invariant
                        wf_seq(s),
                        s == self@,
                        n == s.len(),
                        3 <= x < n,
                        2 <= y < x,
                        1 <= z <= y,
                        spec_no_superset_before(s, x as int, y as int, z as int, 0),
                    decreases y - z,
                {
                    let mut w: usize = 0;
                    while w < z
                        invariant
                            wf_seq(s),
                            s == self@,
                            n == s.len(),
                            3 <= x < n,
                            2 <= y < x,
                            1 <= z < y,
                            w <= z,
                            spec_no_superset_before(s, x as int, y as int, z as int, w as int),
                        decreases z - w,
                    {
                        let quad = (self[x], self[y], self[z], self[w]);
                        if quad.to_superset().is_some() {
                            proof {
                                assert(spec_has_superset(self.spec_ssets_view())) by {
                                    assert(spec_match4(
                                        s[x as int],
                                        s[y as int],
                                        s[z as int],
                                        s[w as int],
                                    ));
                                }
                            }
                            return true;
                        }
                        w += 1;
                    }
                    z += 1;
                }
                y += 1;
            }
            x += 1;
        }
        assert(!spec_has_superset(s));
        false
    }
}

} // verus!
