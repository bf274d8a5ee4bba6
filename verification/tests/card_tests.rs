use marmoset::card::{Card, Color, CompleteSet, Shading, Shape, ToSet, ToSuperSet};
use marmoset::deck::cards;
use marmoset::pair_iter::PairIter;

#[test]
fn check_card_conversions() {
    for i in 0..81 {
        let card = Card::new(i);
        assert_eq!(i, card.index());
    }
}

#[test]
fn check_set_completion() {
    let cards = cards();
    let mut set_count = 0;

    let mut pairs = cards.pairs();
    while let Some((x, y)) = pairs.next() {
        let (a, b) = (cards[x], cards[y]);
        let c = (a, b).complete_set();
        let triple = (a, b, c);
        assert!(triple.to_set().is_some());
        set_count += 1;
    }
    // each set is encountered thrice
    assert_eq!(set_count, 1080 * 3)
}

#[test]
fn check_pair_completions_cover_all_sets() {
    // completing every one of the C(81,2) = 3240 pairs produces each of
    // the 1080 triple-matches exactly three times: once per choice of
    // which two cards form the input pair
    let cards = cards();
    let mut triples: Vec<[usize; 3]> = Vec::new();
    let mut pairs = cards.pairs();
    while let Some((x, y)) = pairs.next() {
        let (a, b) = (cards[x], cards[y]);
        let c = (a, b).complete_set();
        let mut triple = [a.index(), b.index(), c.index()];
        triple.sort();
        triples.push(triple);
    }
    assert_eq!(triples.len(), 3240);
    triples.sort();
    for chunk in triples.chunks(3) {
        assert_eq!(chunk.len(), 3);
        assert_eq!(chunk[0], chunk[1]);
        assert_eq!(chunk[1], chunk[2]);
    }
    triples.dedup();
    assert_eq!(triples.len(), 1080);
}

#[test]
fn check_completion_commutative() {
    let cards = cards();
    let mut pairs = cards.pairs();
    while let Some((x, y)) = pairs.next() {
        let (a, b) = (cards[x], cards[y]);
        let c = (a, b).complete_set();
        // completion does not depend on the pair's order
        assert_eq!(c, (b, a).complete_set());
        // and it differs from both cards of a distinct pair
        assert_ne!(c, a);
        assert_ne!(c, b);
    }
}

#[test]
fn check_feature_accessors() {
    // index 0 has every trit 0
    let first = Card::new(0);
    assert_eq!(first.count(), 1);
    assert_eq!(first.shape(), Shape::Oval);
    assert_eq!(first.color(), Color::A);
    assert_eq!(first.shading(), Shading::Solid);

    // index 80 has every trit 2
    let last = Card::new(80);
    assert_eq!(last.count(), 3);
    assert_eq!(last.shape(), Shape::Diamond);
    assert_eq!(last.color(), Color::C);
    assert_eq!(last.shading(), Shading::Outlined);

    // the shading trit is the least significant base-3 digit
    assert_eq!(Card::new(1).shading(), Shading::Striped);
    // the color trit is next
    assert_eq!(Card::new(3).color(), Color::B);
    // then the shape trit
    assert_eq!(Card::new(9).shape(), Shape::Squiggle);
    // and the count trit is most significant
    assert_eq!(Card::new(27).count(), 2);
}

#[test]
fn check_to_set() {
    // 0, 1 complete to 2: all features equal but shading, which is all
    // pairwise distinct
    let triple = (Card::new(0), Card::new(1), Card::new(2));
    let set = triple.to_set();
    assert!(set.is_some());
    let cards = set.unwrap().cards();
    assert_eq!(cards.0.index(), 0);
    assert_eq!(cards.1.index(), 1);
    assert_eq!(cards.2.index(), 2);

    // 0, 1, 3 fails: the shading digits sum to 1
    assert!((Card::new(0), Card::new(1), Card::new(3)).to_set().is_none());
}

#[test]
fn check_to_superset() {
    // pairs (0,1) and (3,7) both complete to card 2
    let quad = (Card::new(0), Card::new(1), Card::new(3), Card::new(7));
    let superset = quad.to_superset();
    assert!(superset.is_some());
    let ss = superset.unwrap();
    let (l0, l1) = ss.left();
    let (r0, r1) = ss.right();
    assert_eq!((l0.index(), l1.index()), (0, 1));
    assert_eq!((r0.index(), r1.index()), (3, 7));
    assert_eq!((l0, l1).complete_set(), (r0, r1).complete_set());

    // no pairing of 0, 1, 2, 3 shares a completion
    let quad = (Card::new(0), Card::new(1), Card::new(2), Card::new(3));
    assert!(quad.to_superset().is_none());
}
