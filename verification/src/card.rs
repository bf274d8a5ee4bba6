//! Card, triple-match, and quad-match ("SuperSet") implementation.
//!
//! A card has four features, each of which has three possible values. As
//! such, it can be represented by a four-element vector where each element
//! is a ternary digit (trit): 0, 1, or 2. The implementation here packs
//! this vector into the four bytes of a `u32`, one trit per byte lane, so
//! that match validity and pair completion can be decided with lane-wise
//! modular arithmetic.

use vstd::arithmetic::div_mod::{lemma_div_denominator, lemma_fundamental_div_mod};
use vstd::prelude::*;

verus! {

/// One card of the 81-card deck, packed as four byte lanes of a `u32`.
/// Lane 0 (the least significant byte) holds the count trit, lane 1 the
/// shape trit, lane 2 the color trit, and lane 3 the shading trit.
#[derive(Clone, Copy, PartialEq, Eq, Structural, PartialOrd, Ord, Debug)]
pub struct Card(u32);

impl Card {
    /// The trit stored in byte lane `k` of the packed word.
    pub closed spec fn lane(self, k: int) -> u32 {
        if k == 0 {
            self.0 & 0xff
        } else if k == 1 {
            (self.0 >> 8u32) & 0xff
        } else if k == 2 {
            (self.0 >> 16u32) & 0xff
        } else {
            (self.0 >> 24u32) & 0xff
        }
    }

    /// A card is well formed when every lane holds a trit.
    pub open spec fn wf(self) -> bool {
        self.lane(0) < 3 && self.lane(1) < 3 && self.lane(2) < 3 && self.lane(3) < 3
    }

    /// The linear index in [0,81) that the packed lanes denote, read as a
    /// base-3 numeral with the count lane most significant.
    pub open spec fn spec_index(self) -> int {
        27 * (self.lane(0) as int) + 9 * (self.lane(1) as int) + 3 * (self.lane(2) as int)
            + (self.lane(3) as int)
    }
}

/// The card whose packed lanes are the base-3 digits of `i`: the shading
/// trit is `i % 3` and the count trit is `(i / 27) % 3`.
pub closed spec fn spec_card_of(i: int) -> Card {
    Card(
        (((i / 27) % 3) + ((i / 9) % 3) * 0x100 + ((i / 3) % 3) * 0x10000 + (i % 3)
            * 0x1000000) as u32,
    )
}

/// Every card of a sequence is well formed.
pub open spec fn wf_seq(s: Seq<Card>) -> bool {
    forall|i: int| 0 <= i < s.len() ==> (#[trigger] s[i]).wf()
}

/// Packing four trits into byte lanes and reading a lane back yields the
/// trit that was stored there.
proof fn lemma_pack_unpack(x0: u32, x1: u32, x2: u32, x3: u32)
    by (bit_vector)
    requires
        x0 < 3,
        x1 < 3,
        x2 < 3,
        x3 < 3,
    ensures
        x0 + x1 * 0x100 + x2 * 0x10000 + x3 * 0x1000000 < 0x100000000,
        ((x0 + x1 * 0x100 + x2 * 0x10000 + x3 * 0x1000000) as u32) & 0xff == x0,
        (((x0 + x1 * 0x100 + x2 * 0x10000 + x3 * 0x1000000) as u32) >> 8u32) & 0xff == x1,
        (((x0 + x1 * 0x100 + x2 * 0x10000 + x3 * 0x1000000) as u32) >> 16u32) & 0xff == x2,
        (((x0 + x1 * 0x100 + x2 * 0x10000 + x3 * 0x1000000) as u32) >> 24u32) & 0xff == x3,
{
}

/// Each byte lane of a `u32` fits in a byte.
proof fn lemma_lane_bound(v: u32)
    by (bit_vector)
    ensures
        v & 0xff < 256,
        (v >> 8u32) & 0xff < 256,
        (v >> 16u32) & 0xff < 256,
        (v >> 24u32) & 0xff < 256,
{
}

/// Any `u32` equals its four byte lanes reassembled.
proof fn lemma_unpack_pack(v: u32)
    by (bit_vector)
    ensures
        v == (v & 0xff) + ((v >> 8u32) & 0xff) * 0x100 + ((v >> 16u32) & 0xff) * 0x10000 + ((v
            >> 24u32) & 0xff) * 0x1000000,
{
}

/// The base-3 digits of `i` in [0,81) reassemble to `i`.
proof fn lemma_base3_digits(i: int)
    requires
        0 <= i < 81,
    ensures
        27 * ((i / 27) % 3) + 9 * ((i / 9) % 3) + 3 * ((i / 3) % 3) + i % 3 == i,
        0 <= (i / 27) % 3 < 3 && 0 <= (i / 9) % 3 < 3 && 0 <= (i / 3) % 3 < 3 && 0 <= i % 3 < 3,
{
    lemma_fundamental_div_mod(i, 3);
    lemma_fundamental_div_mod(i / 3, 3);
    lemma_fundamental_div_mod(i / 9, 3);
    lemma_div_denominator(i, 3, 3);
    lemma_div_denominator(i, 9, 3);
    assert(i / 27 < 3);
    assert((i / 27) % 3 == i / 27) by {
        vstd::arithmetic::div_mod::lemma_small_mod((i / 27) as nat, 3nat);
    }
}

/// Encoding an index in [0,81) gives a well-formed card that decodes back
/// to that index.
pub proof fn lemma_decode_encode(i: int)
    requires
        0 <= i < 81,
    ensures
        spec_card_of(i).wf(),
        spec_card_of(i).spec_index() == i,
{
    lemma_base3_digits(i);
    let x0 = ((i / 27) % 3) as u32;
    let x1 = ((i / 9) % 3) as u32;
    let x2 = ((i / 3) % 3) as u32;
    let x3 = (i % 3) as u32;
    lemma_pack_unpack(x0, x1, x2, x3);
}

/// A well-formed card is the encoding of its own index: encode is a
/// bijection between [0,81) and well-formed cards.
pub proof fn lemma_encode_decode(c: Card)
    requires
        c.wf(),
    ensures
        0 <= c.spec_index() < 81,
        spec_card_of(c.spec_index()) == c,
{
    lemma_unpack_pack(c.0);
    let i = c.spec_index();
    lemma_base3_digits(i);
    lemma_decode_encode(i);
    // both cards pack the same four trits, so their words agree
    let x0 = c.lane(0);
    let x1 = c.lane(1);
    let x2 = c.lane(2);
    let x3 = c.lane(3);
    lemma_pack_unpack(x0, x1, x2, x3);
}

/// Two well-formed cards with the same index are the same card.
pub proof fn lemma_index_injective(a: Card, b: Card)
    requires
        a.wf(),
        b.wf(),
        a.spec_index() == b.spec_index(),
    ensures
        a == b,
{
    lemma_encode_decode(a);
    lemma_encode_decode(b);
}

impl Card {
    /// Converts the index to ternary and packs each of the resulting four
    /// trits into the byte lanes of a `u32`. The least significant trit of
    /// the index ends up in the leftmost byte.
    pub fn new(index: usize) -> (c: Card)
        requires
            index < 81,
        ensures
            c == spec_card_of(index as int),
            c.wf(),
            c.spec_index() == index,
    {
        let i = index as u32;
        let c3 = i % 3;
        let r = i / 3;
        let c2 = r % 3;
        let r = r / 3;
        let c1 = r % 3;
        let c0 = r / 3;
        proof {
            lemma_base3_digits(index as int);
            assert(i / 3 == index as int / 3 && (i / 3) / 3 == index as int / 9 && ((i / 3) / 3)
                / 3 == index as int / 27) by {
                lemma_div_denominator(index as int, 3, 3);
                lemma_div_denominator(index as int, 9, 3);
            }
            assert(c0 == (index as int / 27) % 3) by {
                vstd::arithmetic::div_mod::lemma_small_mod((index as int / 27) as nat, 3nat);
            }
        }
        let value = (c3 << 24u32) | (c2 << 16u32) | (c1 << 8u32) | c0;
        proof {
            assert(value == c0 + c1 * 0x100 + c2 * 0x10000 + c3 * 0x1000000) by (bit_vector)
                requires
                    c0 < 3 && c1 < 3 && c2 < 3 && c3 < 3,
                    value == (c3 << 24u32) | (c2 << 16u32) | (c1 << 8u32) | c0,
            ;
            lemma_pack_unpack(c0, c1, c2, c3);
            lemma_decode_encode(index as int);
        }
        Card(value)
    }

    /// Maps the card value back to the index from which it was derived.
    pub fn index(self) -> (i: usize)
        requires
            self.wf(),
        ensures
            i == self.spec_index(),
            i < 81,
    {
        let v = self.0;
        let b0 = v & 0xff;
        let b1 = (v >> 8u32) & 0xff;
        let b2 = (v >> 16u32) & 0xff;
        let b3 = (v >> 24u32) & 0xff;
        proof {
            lemma_encode_decode(self);
        }
        (27 * b0 + 9 * b1 + 3 * b2 + b3) as usize
    }
}

////////////////////////////////////////////////////////////////////////////////
// Card: Feature Extraction
////////////////////////////////////////////////////////////////////////////////

/// Names for the four byte lanes of a card.
#[derive(Debug, Clone, Copy, PartialEq, Eq, Structural)]
pub enum Feature {
    Count,
    Shape,
    Color,
    Shading,
}

#[derive(Debug, Clone, Copy, PartialEq, Eq, Structural)]
pub enum Shape {
    Oval,
    Squiggle,
    Diamond,
}

/// Unlike the other features, Color doesn't have a fixed interpretation.
#[derive(Debug, Clone, Copy, PartialEq, Eq, Structural)]
pub enum Color {
    A,
    B,
    C,
}

#[derive(Debug, Clone, Copy, PartialEq, Eq, Structural)]
pub enum Shading {
    Solid,
    Striped,
    Outlined,
}

impl Card {
    /// The lane that a feature names.
    pub open spec fn spec_feature(self, feature: Feature) -> u32 {
        match feature {
            Feature::Count => self.lane(0),
            Feature::Shape => self.lane(1),
            Feature::Color => self.lane(2),
            Feature::Shading => self.lane(3),
        }
    }

    pub open spec fn spec_count(self) -> u32 {
        (self.lane(0) + 1) as u32
    }

    pub open spec fn spec_shape(self) -> Shape {
        if self.lane(1) == 0 {
            Shape::Oval
        } else if self.lane(1) == 1 {
            Shape::Squiggle
        } else {
            Shape::Diamond
        }
    }

    pub open spec fn spec_color(self) -> Color {
        if self.lane(2) == 0 {
            Color::A
        } else if self.lane(2) == 1 {
            Color::B
        } else {
            Color::C
        }
    }

    pub open spec fn spec_shading(self) -> Shading {
        if self.lane(3) == 0 {
            Shading::Solid
        } else if self.lane(3) == 1 {
            Shading::Striped
        } else {
            Shading::Outlined
        }
    }

    /// Extracts the byte lane corresponding to the given `Feature`. Since
    /// the lanes represent ternary digits, the returned value of a
    /// well-formed card is always in the interval [0,2].
    pub fn feature(self, feature: Feature) -> (t: u8)
        ensures
            t == self.spec_feature(feature),
    {
        proof {
            lemma_lane_bound(self.0);
        }
        match feature {
            Feature::Count => (self.0 & 0xff) as u8,
            Feature::Shape => ((self.0 >> 8u32) & 0xff) as u8,
            Feature::Color => ((self.0 >> 16u32) & 0xff) as u8,
            Feature::Shading => ((self.0 >> 24u32) & 0xff) as u8,
        }
    }

    /// Returns a shape count in the interval [1,3].
    pub fn count(self) -> (n: u8)
        requires
            self.wf(),
        ensures
            n == self.spec_count(),
            1 <= n <= 3,
    {
        self.feature(Feature::Count) + 1
    }

    pub fn shape(self) -> (s: Shape)
        ensures
            s == self.spec_shape(),
    {
        match self.feature(Feature::Shape) {
            0 => Shape::Oval,
            1 => Shape::Squiggle,
            _ => Shape::Diamond,
        }
    }

    pub fn color(self) -> (c: Color)
        ensures
            c == self.spec_color(),
    {
        match self.feature(Feature::Color) {
            0 => Color::A,
            1 => Color::B,
            _ => Color::C,
        }
    }

    pub fn shading(self) -> (s: Shading)
        ensures
            s == self.spec_shading(),
    {
        match self.feature(Feature::Shading) {
            0 => Shading::Solid,
            1 => Shading::Striped,
            _ => Shading::Outlined,
        }
    }
}

////////////////////////////////////////////////////////////////////////////////
// Match algebra
////////////////////////////////////////////////////////////////////////////////

/// Three cards form a triple-match if and only if, for every feature, the
/// three trits sum to 0 modulo 3 — that is, for every feature the cards
/// are either all equal or all pairwise distinct.
pub open spec fn spec_match3(a: Card, b: Card, c: Card) -> bool {
    &&& (a.lane(0) + b.lane(0) + c.lane(0)) % 3 == 0
    &&& (a.lane(1) + b.lane(1) + c.lane(1)) % 3 == 0
    &&& (a.lane(2) + b.lane(2) + c.lane(2)) % 3 == 0
    &&& (a.lane(3) + b.lane(3) + c.lane(3)) % 3 == 0
}

/// The unique trit x such that s + x == 0 modulo 3, for a lane-wise pair
/// sum s in [0,4]: {0 -> 0, 1 -> 2, 2 -> 1, 3 -> 0, 4 -> 2}.
pub open spec fn spec_third_trit(s: int) -> int {
    (6 - s) % 3
}

/// The card that completes a pair into a triple-match: lane-wise, the
/// unique trit that brings each feature's sum to 0 modulo 3.
pub closed spec fn spec_complete_pair(a: Card, b: Card) -> Card {
    Card(
        (spec_third_trit(a.lane(0) + b.lane(0)) + spec_third_trit(a.lane(1) + b.lane(1)) * 0x100
            + spec_third_trit(a.lane(2) + b.lane(2)) * 0x10000 + spec_third_trit(
            a.lane(3) + b.lane(3),
        ) * 0x1000000) as u32,
    )
}

/// The lanes of the completion card, as seen by callers.
pub proof fn lemma_complete_pair_lanes(a: Card, b: Card)
    requires
        a.wf(),
        b.wf(),
    ensures
        spec_complete_pair(a, b).wf(),
        forall|k: int|
            0 <= k < 4 ==> #[trigger] spec_complete_pair(a, b).lane(k) == spec_third_trit(
                a.lane(k) + b.lane(k),
            ),
{
    let x0 = spec_third_trit(a.lane(0) + b.lane(0)) as u32;
    let x1 = spec_third_trit(a.lane(1) + b.lane(1)) as u32;
    let x2 = spec_third_trit(a.lane(2) + b.lane(2)) as u32;
    let x3 = spec_third_trit(a.lane(3) + b.lane(3)) as u32;
    lemma_pack_unpack(x0, x1, x2, x3);
    let c = spec_complete_pair(a, b);
    assert(c.lane(0) == x0 && c.lane(1) == x1 && c.lane(2) == x2 && c.lane(3) == x3);
}

/// Completing a pair is commutative: the order of the two cards does not
/// matter.
pub proof fn lemma_complete_pair_comm(a: Card, b: Card)
    ensures
        spec_complete_pair(a, b) == spec_complete_pair(b, a),
{
}

/// For distinct trits, the completing trit of their sum differs from both.
proof fn lemma_third_trit_distinct(x: int, y: int)
    requires
        0 <= x < 3,
        0 <= y < 3,
        x != y,
    ensures
        spec_third_trit(x + y) != x,
        spec_third_trit(x + y) != y,
{
}

/// For any trits, the completing trit is itself a trit and completes the
/// feature sum to 0 modulo 3.
proof fn lemma_third_trit_completes(x: int, y: int)
    requires
        0 <= x < 3,
        0 <= y < 3,
    ensures
        0 <= spec_third_trit(x + y) < 3,
        (x + y + spec_third_trit(x + y)) % 3 == 0,
{
}

/// The completion of a well-formed pair really completes it: the result is
/// well formed and forms a triple-match with the pair; and when the two
/// cards are distinct, the completion differs from both.
pub proof fn lemma_complete_pair_properties(a: Card, b: Card)
    requires
        a.wf(),
        b.wf(),
    ensures
        spec_complete_pair(a, b).wf(),
        spec_match3(a, b, spec_complete_pair(a, b)),
        a != b ==> spec_complete_pair(a, b) != a && spec_complete_pair(a, b) != b,
{
    lemma_complete_pair_lanes(a, b);
    let c = spec_complete_pair(a, b);
    lemma_third_trit_completes(a.lane(0) as int, b.lane(0) as int);
    lemma_third_trit_completes(a.lane(1) as int, b.lane(1) as int);
    lemma_third_trit_completes(a.lane(2) as int, b.lane(2) as int);
    lemma_third_trit_completes(a.lane(3) as int, b.lane(3) as int);
    assert(spec_match3(a, b, c));
    if a != b {
        lemma_unpack_pack(a.0);
        lemma_unpack_pack(b.0);
        assert(a.lane(0) != b.lane(0) || a.lane(1) != b.lane(1) || a.lane(2) != b.lane(2)
            || a.lane(3) != b.lane(3));
        if a.lane(0) != b.lane(0) {
            lemma_third_trit_distinct(a.lane(0) as int, b.lane(0) as int);
        } else if a.lane(1) != b.lane(1) {
            lemma_third_trit_distinct(a.lane(1) as int, b.lane(1) as int);
        } else if a.lane(2) != b.lane(2) {
            lemma_third_trit_distinct(a.lane(2) as int, b.lane(2) as int);
        } else {
            lemma_third_trit_distinct(a.lane(3) as int, b.lane(3) as int);
        }
        assert(c != a && c != b);
    }
}

/// For trits x, y, z: the feature sum is 0 modulo 3 exactly when z is the
/// completing trit of x and y.
proof fn lemma_third_trit_unique(x: int, y: int, z: int)
    requires
        0 <= x < 3,
        0 <= y < 3,
        0 <= z < 3,
    ensures
        ((x + y + z) % 3 == 0) <==> z == spec_third_trit(x + y),
{
}

/// The completion card is the only card that completes a pair: three
/// well-formed cards match exactly when the third is the completion of
/// the first two.
pub proof fn lemma_match3_unique(a: Card, b: Card, c: Card)
    requires
        a.wf(),
        b.wf(),
        c.wf(),
    ensures
        spec_match3(a, b, c) <==> c == spec_complete_pair(a, b),
{
    lemma_complete_pair_lanes(a, b);
    let d = spec_complete_pair(a, b);
    lemma_third_trit_unique(a.lane(0) as int, b.lane(0) as int, c.lane(0) as int);
    lemma_third_trit_unique(a.lane(1) as int, b.lane(1) as int, c.lane(1) as int);
    lemma_third_trit_unique(a.lane(2) as int, b.lane(2) as int, c.lane(2) as int);
    lemma_third_trit_unique(a.lane(3) as int, b.lane(3) as int, c.lane(3) as int);
    if spec_match3(a, b, c) {
        assert(c.lane(0) == d.lane(0) && c.lane(1) == d.lane(1) && c.lane(2) == d.lane(2)
            && c.lane(3) == d.lane(3));
        lemma_unpack_pack(c.0);
        lemma_unpack_pack(d.0);
    }
}

/// A triple-match does not depend on the order of the three cards.
pub proof fn lemma_match3_perm(a: Card, b: Card, c: Card)
    ensures
        spec_match3(a, b, c) == spec_match3(a, c, b),
        spec_match3(a, b, c) == spec_match3(b, a, c),
        spec_match3(a, b, c) == spec_match3(b, c, a),
        spec_match3(a, b, c) == spec_match3(c, a, b),
        spec_match3(a, b, c) == spec_match3(c, b, a),
{
}

/// Four cards form a quad-match if some partition of them into two pairs
/// has both pairs completing to the same third card.
pub open spec fn spec_match4(a: Card, b: Card, c: Card, d: Card) -> bool {
    ||| spec_complete_pair(a, b) == spec_complete_pair(c, d)
    ||| spec_complete_pair(a, c) == spec_complete_pair(b, d)
    ||| spec_complete_pair(a, d) == spec_complete_pair(b, c)
}

/// A quad-match does not depend on the order of the four cards: swapping
/// any two adjacent cards permutes the three candidate pairings among
/// themselves.
pub proof fn lemma_match4_perm(a: Card, b: Card, c: Card, d: Card)
    ensures
        spec_match4(a, b, c, d) == spec_match4(b, a, c, d),
        spec_match4(a, b, c, d) == spec_match4(a, c, b, d),
        spec_match4(a, b, c, d) == spec_match4(a, b, d, c),
{
    lemma_complete_pair_comm(a, b);
    lemma_complete_pair_comm(a, c);
    lemma_complete_pair_comm(a, d);
    lemma_complete_pair_comm(b, c);
    lemma_complete_pair_comm(b, d);
    lemma_complete_pair_comm(c, d);
}

/// Summing two packed card words adds each byte lane independently: trits
/// leave enough headroom per lane that no carry crosses a lane boundary.
proof fn lemma_lane_sum2(u: u32, v: u32)
    by (bit_vector)
    requires
        u & 0xff < 3 && (u >> 8u32) & 0xff < 3 && (u >> 16u32) & 0xff < 3 && (u >> 24u32) & 0xff
            < 3,
        v & 0xff < 3 && (v >> 8u32) & 0xff < 3 && (v >> 16u32) & 0xff < 3 && (v >> 24u32) & 0xff
            < 3,
    ensures
        u + v < 0x100000000,
        ((u + v) as u32) & 0xff == (u & 0xff) + (v & 0xff),
        (((u + v) as u32) >> 8u32) & 0xff == ((u >> 8u32) & 0xff) + ((v >> 8u32) & 0xff),
        (((u + v) as u32) >> 16u32) & 0xff == ((u >> 16u32) & 0xff) + ((v >> 16u32) & 0xff),
        (((u + v) as u32) >> 24u32) & 0xff == ((u >> 24u32) & 0xff) + ((v >> 24u32) & 0xff),
{
}

/// Lane-wise addition of three packed card words, as for two.
proof fn lemma_lane_sum3(u: u32, v: u32, w: u32)
    by (bit_vector)
    requires
        u & 0xff < 3 && (u >> 8u32) & 0xff < 3 && (u >> 16u32) & 0xff < 3 && (u >> 24u32) & 0xff
            < 3,
        v & 0xff < 3 && (v >> 8u32) & 0xff < 3 && (v >> 16u32) & 0xff < 3 && (v >> 24u32) & 0xff
            < 3,
        w & 0xff < 3 && (w >> 8u32) & 0xff < 3 && (w >> 16u32) & 0xff < 3 && (w >> 24u32) & 0xff
            < 3,
    ensures
        u + v + w < 0x100000000,
        ((u + v + w) as u32) & 0xff == (u & 0xff) + (v & 0xff) + (w & 0xff),
        (((u + v + w) as u32) >> 8u32) & 0xff == ((u >> 8u32) & 0xff) + ((v >> 8u32) & 0xff) + ((w
            >> 8u32) & 0xff),
        (((u + v + w) as u32) >> 16u32) & 0xff == ((u >> 16u32) & 0xff) + ((v >> 16u32) & 0xff) + (
        (w >> 16u32) & 0xff),
        (((u + v + w) as u32) >> 24u32) & 0xff == ((u >> 24u32) & 0xff) + ((v >> 24u32) & 0xff) + (
        (w >> 24u32) & 0xff),
{
}

////////////////////////////////////////////////////////////////////////////////
// TripleMatch
////////////////////////////////////////////////////////////////////////////////

type Triple = (Card, Card, Card);

/// A validated triple-match.
pub struct TripleMatch {
    cards: Triple,
}

impl TripleMatch {
    /// The three constituent cards.
    pub closed spec fn spec_cards(self) -> Triple {
        self.cards
    }

    /// A validated triple really is a triple-match of well-formed cards.
    pub open spec fn wf(self) -> bool {
        &&& self.spec_cards().0.wf()
        &&& self.spec_cards().1.wf()
        &&& self.spec_cards().2.wf()
        &&& spec_match3(self.spec_cards().0, self.spec_cards().1, self.spec_cards().2)
    }

    pub fn cards(&self) -> (r: Triple)
        ensures
            r == self.spec_cards(),
    {
        self.cards
    }
}

pub trait ToSet: Sized {
    /// The inputs on which the test may be asked: every card well formed.
    spec fn to_set_req(self) -> bool;

    /// The matching cards, when the group is a triple-match.
    spec fn spec_set_cards(self) -> Option<Triple>;

    fn to_set(self) -> (r: Option<TripleMatch>)
        requires
            self.to_set_req(),
        ensures
            match (r, self.spec_set_cards()) {
                (Some(s), Some(t)) => s.spec_cards() == t && s.wf(),
                (None, None) => true,
                _ => false,
            },
    ;
}

impl ToSet for Triple {
    open spec fn to_set_req(self) -> bool {
        self.0.wf() && self.1.wf() && self.2.wf()
    }

    open spec fn spec_set_cards(self) -> Option<Triple> {
        if spec_match3(self.0, self.1, self.2) {
            Some(self)
        } else {
            None
        }
    }

    /// Three cards form a triple-match if their lane-wise sum is
    /// (0,0,0,0) modulo 3.
    fn to_set(self) -> (r: Option<TripleMatch>) {
        let (a, b, c) = self;
        proof {
            lemma_lane_sum3(a.0, b.0, c.0);
        }
        let sum = a.0 + b.0 + c.0;
        let valid = (sum & 0xff) % 3 == 0 && ((sum >> 8u32) & 0xff) % 3 == 0 && ((sum >> 16u32)
            & 0xff) % 3 == 0 && ((sum >> 24u32) & 0xff) % 3 == 0;
        if valid {
            Some(TripleMatch { cards: self })
        } else {
            None
        }
    }
}

////////////////////////////////////////////////////////////////////////////////
// SuperSet
////////////////////////////////////////////////////////////////////////////////

type Pair = (Card, Card);

/// A validated quad-match: two pairs of cards whose triple-match
/// completions coincide.
pub struct SuperSet {
    left: Pair,
    right: Pair,
}

impl SuperSet {
    pub closed spec fn spec_left(self) -> Pair {
        self.left
    }

    pub closed spec fn spec_right(self) -> Pair {
        self.right
    }

    /// A validated quad really is two well-formed pairs with one common
    /// completion card.
    pub open spec fn wf(self) -> bool {
        &&& self.spec_left().0.wf()
        &&& self.spec_left().1.wf()
        &&& self.spec_right().0.wf()
        &&& self.spec_right().1.wf()
        &&& spec_complete_pair(self.spec_left().0, self.spec_left().1) == spec_complete_pair(
            self.spec_right().0,
            self.spec_right().1,
        )
    }

    pub fn left(&self) -> (r: Pair)
        ensures
            r == self.spec_left(),
    {
        self.left
    }

    pub fn right(&self) -> (r: Pair)
        ensures
            r == self.spec_right(),
    {
        self.right
    }
}

pub trait ToSuperSet: Sized {
    /// The inputs on which the test may be asked: every card well formed.
    spec fn to_superset_req(self) -> bool;

    /// The first partition into two pairs whose completions agree, when
    /// one exists, trying {ab|cd}, {ac|bd}, {ad|bc} in that order.
    spec fn spec_superset_pairs(self) -> Option<(Pair, Pair)>;

    fn to_superset(self) -> (r: Option<SuperSet>)
        requires
            self.to_superset_req(),
        ensures
            match (r, self.spec_superset_pairs()) {
                (Some(s), Some(p)) => s.spec_left() == p.0 && s.spec_right() == p.1 && s.wf(),
                (None, None) => true,
                _ => false,
            },
    ;
}

impl ToSuperSet for (Card, Card, Card, Card) {
    open spec fn to_superset_req(self) -> bool {
        self.0.wf() && self.1.wf() && self.2.wf() && self.3.wf()
    }

    open spec fn spec_superset_pairs(self) -> Option<(Pair, Pair)> {
        let (a, b, c, d) = self;
        if spec_complete_pair(a, b) == spec_complete_pair(c, d) {
            Some(((a, b), (c, d)))
        } else if spec_complete_pair(a, c) == spec_complete_pair(b, d) {
            Some(((a, c), (b, d)))
        } else if spec_complete_pair(a, d) == spec_complete_pair(b, c) {
            Some(((a, d), (b, c)))
        } else {
            None
        }
    }

    /// Two pairs of cards form a SuperSet if and only if the completing
    /// card for each pair is the same; the three possible pairings are
    /// tried in a fixed order.
    fn to_superset(self) -> (r: Option<SuperSet>) {
        let (a, b, c, d) = self;
        if (a, b).complete_set() == (c, d).complete_set() {
            Some(SuperSet { left: (a, b), right: (c, d) })
        } else if (a, c).complete_set() == (b, d).complete_set() {
            Some(SuperSet { left: (a, c), right: (b, d) })
        } else if (a, d).complete_set() == (b, c).complete_set() {
            Some(SuperSet { left: (a, d), right: (b, c) })
        } else {
            None
        }
    }
}

////////////////////////////////////////////////////////////////////////////////
// CompleteSet
////////////////////////////////////////////////////////////////////////////////

/// For a lane-wise pair sum in [0,4], the trit completing that lane:
/// {0 -> 0, 1 -> 2, 2 -> 1, 3 -> 0, 4 -> 2}.
fn third_trit(s: u32) -> (t: u32)
    requires
        s <= 4,
    ensures
        t == spec_third_trit(s as int),
        t < 3,
{
    match s {
        0 => 0,
        1 => 2,
        2 => 1,
        3 => 0,
        _ => 2,
    }
}

pub trait CompleteSet: Sized {
    /// The inputs on which completion may be asked: every card well formed.
    spec fn complete_req(self) -> bool;

    /// The card that completes this pair into a triple-match.
    spec fn spec_completion(self) -> Card;

    fn complete_set(self) -> (r: Card)
        requires
            self.complete_req(),
        ensures
            r == self.spec_completion(),
            r.wf(),
    ;
}

impl CompleteSet for Pair {
    open spec fn complete_req(self) -> bool {
        self.0.wf() && self.1.wf()
    }

    open spec fn spec_completion(self) -> Card {
        spec_complete_pair(self.0, self.1)
    }

    /// Given a pair of cards, returns the third card needed to complete
    /// the triple-match.
    ///
    /// This method works by taking the trit-wise sum of the cards in the
    /// pair. Each unique sum maps to a matching trit which is the
    /// appropriate component of the missing card:
    ///
    ///   A | B | A+B | Match
    ///  ---+---+-----+-------
    ///   0 | 0 |   0 |     0
    ///   0 | 1 |   1 |     2
    ///   0 | 2 |   2 |     1
    ///   1 | 1 |   2 |     1
    ///   1 | 2 |   3 |     0
    ///   2 | 2 |   4 |     2
    fn complete_set(self) -> (r: Card) {
        let (a, b) = self;
        proof {
            assert(self.complete_req());
            assert(self.0.wf());
            assert(a == self.0);
            assert(a.wf() && b.wf());
            assert(a.lane(0) == a.0 & 0xff && a.lane(1) == (a.0 >> 8u32) & 0xff && a.lane(2) == (
            a.0 >> 16u32) & 0xff && a.lane(3) == (a.0 >> 24u32) & 0xff);
            assert(b.lane(0) == b.0 & 0xff && b.lane(1) == (b.0 >> 8u32) & 0xff && b.lane(2) == (
            b.0 >> 16u32) & 0xff && b.lane(3) == (b.0 >> 24u32) & 0xff);
            lemma_lane_sum2(a.0, b.0);
        }
        let sum = a.0 + b.0;
        let t0 = third_trit(sum & 0xff);
        let t1 = third_trit((sum >> 8u32) & 0xff);
        let t2 = third_trit((sum >> 16u32) & 0xff);
        let t3 = third_trit((sum >> 24u32) & 0xff);
        let value = (t3 << 24u32) | (t2 << 16u32) | (t1 << 8u32) | t0;
        proof {
            assert(value == t0 + t1 * 0x100 + t2 * 0x10000 + t3 * 0x1000000) by (bit_vector)
                requires
                    t0 < 3 && t1 < 3 && t2 < 3 && t3 < 3,
                    value == (t3 << 24u32) | (t2 << 16u32) | (t1 << 8u32) | t0,
            ;
            assert(sum & 0xff == a.lane(0) + b.lane(0) && (sum >> 8u32) & 0xff == a.lane(1)
                + b.lane(1) && (sum >> 16u32) & 0xff == a.lane(2) + b.lane(2) && (sum >> 24u32)
                & 0xff == a.lane(3) + b.lane(3));
            assert(value as int == spec_third_trit(a.lane(0) + b.lane(0)) + spec_third_trit(
                a.lane(1) + b.lane(1),
            ) * 0x100 + spec_third_trit(a.lane(2) + b.lane(2)) * 0x10000 + spec_third_trit(
                a.lane(3) + b.lane(3),
            ) * 0x1000000);
            assert(Card(value) == spec_complete_pair(a, b));
            assert(self.spec_completion() == spec_complete_pair(a, b));
            lemma_complete_pair_properties(a, b);
        }
        Card(value)
    }
}

} // verus!
