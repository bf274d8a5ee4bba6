use marmoset::card::{Card, CompleteSet, Shading};
use marmoset::deck::{cards, Deck};
use marmoset::find::{FindSets, FindSuperSets};

trait AsCards {
    fn as_cards(&self) -> Vec<Card>;
}

impl AsCards for [usize] {
    fn as_cards(&self) -> Vec<Card> {
        self.iter().map(|&ix| Card::new(ix)).collect()
    }
}

#[test]
fn count_sets() {
    let sets = cards().find_all_sets();
    assert_eq!(sets.len(), 1080);
    assert_eq!(cards().count_sets(), 1080);
}

#[test]
fn count_supersets() {
    let supersets = cards().find_all_supersets();
    assert_eq!(supersets.len(), 63180);
    assert_eq!(cards().count_supersets(), 63180);
}

#[test]
fn check_draw_cards() {
    let mut deck = Deck::new();
    let mut r = deck.remainder();

    let mut deal = deck.draw(12);
    assert_eq!(deal.len(), 12);
    assert_eq!(deck.remainder(), r - 12);

    r = deck.remainder();
    deal = deck.draw(r + 10);
    assert_eq!(deal.len(), r);
    assert!(deck.is_empty());

    deal = deck.draw(3);
    assert!(deal.is_empty());
}

#[test]
fn check_fixers() {
    // these cards are a set
    const A: usize = 21;
    const B: usize = 41;
    const C: usize = 58;
    let set = [A, B, C].as_cards();
    assert!(set.contains_set());

    // 9 cards that contain exactly one set: (A, B, C)
    let indices = vec![11, 19, 31, 34, 64, 72, A, B, C];
    let cards = indices.as_cards();
    assert_eq!(cards.count_sets(), 1);

    // fix_one_card: two cards from the set in the hand, one in the stock
    let hand = [11, A, B].as_cards();
    let stock = [C, 19, 31, 34, 64, 72].as_cards();

    assert!(!hand.contains_set());
    assert!(!stock.contains_set());

    let mut deck = Deck::from_stock(stock);
    match deck.fix_one_card(&hand) {
        None => panic!("Could not guarantee set!"),
        Some(mut draw) => {
            let mut test = hand.clone();
            test.append(&mut draw);
            assert!(test.contains_set());
            test.sort_by_key(|c| c.index());
            assert_eq!(test, [11, A, 34, B, C, 64].as_cards());
            assert_eq!(deck.stock(), &[72, 19, 31].as_cards());
        }
    }

    // fix_two_cards: one card from the set in the hand, two in the stock
    let hand = [11, 19, A].as_cards();
    let stock = [B, 31, 34, C, 64, 72].as_cards();

    assert!(!hand.contains_set());
    assert!(!stock.contains_set());

    let mut deck = Deck::from_stock(stock);
    match deck.fix_two_cards(&hand) {
        None => panic!("Could not guarantee set!"),
        Some(mut draw) => {
            let mut test = hand.clone();
            test.append(&mut draw);
            assert!(test.contains_set());
            test.sort_by_key(|c| c.index());
            assert_eq!(test, [11, 19, A, B, C, 72].as_cards());
            assert_eq!(deck.stock(), &[31, 34, 64].as_cards());
        }
    }

    // fix_three_cards: three cards from the set in the stock
    let stock = [34, A, B, C, 64, 72].as_cards();

    let mut deck = Deck::from_stock(stock);
    match deck.fix_three_cards() {
        None => panic!("Could not guarantee set!"),
        Some(mut draw) => {
            assert!(draw.contains_set());
            draw.sort_by_key(|c| c.index());
            assert_eq!(draw, set);
            assert_eq!(deck.stock(), &[34, 64, 72].as_cards());
        }
    }
}

#[test]
fn check_guarantee() {
    // 20 cards that contain no sets
    let indices = vec![0, 1, 3, 4, 9, 13, 14, 15, 19, 34, 38, 39, 40, 44, 49, 50, 52, 53, 60, 74];

    // find the remaining cards in the deck
    let mut complement: Vec<usize> = (0..81).collect();
    for &ix in indices.iter().rev() {
        complement.remove(ix);
    }

    // convert indices to Cards
    let mut hand = indices.as_cards();
    let rest = complement.as_cards();

    assert_eq!(hand.len(), 20);
    assert!(!hand.contains_set());

    let mut stock = hand.split_off(15);
    assert_eq!(stock.len(), 5);

    // shift the stock to the right, so we can put our test cards at the bottom
    stock.insert(0, rest[0]);

    // add each of the remaining cards to the stock one by one, making
    // sure that we can find sets
    for &x in &rest {
        stock[0] = x;
        let mut deck = Deck::from_stock(stock.clone());

        match deck.draw_guaranteeing_set(&hand) {
            None => panic!("Could not guarantee set!"),
            Some(mut draw) => {
                let mut test = hand.clone();
                test.append(&mut draw);
                assert_eq!(test.len(), 18);
                assert!(test.contains_set());
            }
        }
    }
}

#[test]
fn check_two_card_fix_scenario() {
    // a 15-card table with no match
    let hand = [0, 1, 3, 4, 9, 13, 14, 15, 19, 34, 38, 39, 40, 44, 49].as_cards();
    assert_eq!(hand.len(), 15);
    assert!(!hand.contains_set());

    // a 6-card stock where exactly one pair's completion lies in the hand
    let stock = [2, 5, 8, 10, 11, 27].as_cards();
    let mut completing_pairs = 0;
    for i in 0..stock.len() {
        for j in 0..i {
            if hand.contains(&(stock[i], stock[j]).complete_set()) {
                completing_pairs += 1;
            }
        }
    }
    assert_eq!(completing_pairs, 1);

    // the guaranteed draw must hand back three cards that, together with
    // the table, hold at least one match
    let mut deck = Deck::from_stock(stock);
    let mut draw = deck
        .draw_guaranteeing_set(&hand)
        .expect("the guaranteed draw must succeed");
    assert_eq!(draw.len(), 3);
    let mut test = hand.clone();
    test.append(&mut draw);
    assert_eq!(test.len(), 18);
    assert!(test.contains_set());
}

#[test]
fn check_new_deck_holds_every_card() {
    let mut deck = Deck::new();
    assert_eq!(deck.remainder(), 81);
    let mut drawn = deck.draw(81);
    assert!(deck.is_empty());
    drawn.sort_by_key(|c| c.index());
    let mut indices: Vec<usize> = drawn.iter().map(|c| c.index()).collect();
    indices.dedup();
    assert_eq!(indices, (0..81).collect::<Vec<usize>>());
}

#[test]
fn check_simplify() {
    let mut deck = Deck::new();
    deck.simplify();
    // 27 of the 81 cards have the solid shading
    assert_eq!(deck.remainder(), 27);
    for &card in deck.stock() {
        assert_eq!(card.shading(), Shading::Solid);
    }
    // simplifying before the first draw keeps a playable deck
    let deal = deck.draw(12);
    assert_eq!(deal.len(), 12);
    assert_eq!(deck.remainder(), 15);
}
