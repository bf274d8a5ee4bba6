use marmoset::card::Card;
use marmoset::config::{ColorScheme, Config, Deck as DeckKind, Variant};
use marmoset::rules::{GameRules, Rules, SetRules, SuperSetRules};
use marmoset::table::CompletionTable;
use marmoset::card::CompleteSet;

fn as_cards(indices: &[usize]) -> Vec<Card> {
    indices.iter().map(|&ix| Card::new(ix)).collect()
}

#[test]
fn check_set_rules_policy() {
    let rules = SetRules;
    assert_eq!(rules.name(), "Set");
    assert_eq!(rules.set_size(), 3);
    assert_eq!(rules.initial_deal_size(), 12);
    assert_eq!(
        rules.deal_order(),
        vec![19, 14, 9, 15, 10, 5, 18, 17, 16, 13, 12, 11, 8, 7, 6, 3, 2, 1]
    );
}

#[test]
fn check_superset_rules_policy() {
    let rules = SuperSetRules;
    assert_eq!(rules.name(), "SuperSet");
    assert_eq!(rules.set_size(), 4);
    assert_eq!(rules.initial_deal_size(), 10);
    assert_eq!(rules.deal_order(), vec![18, 17, 16, 13, 11, 8, 6, 3, 2, 1]);
}

#[test]
fn check_set_rules_queries() {
    let rules = SetRules;
    // {21, 41, 58} is a triple-match
    assert!(rules.valid_set(&as_cards(&[21, 41, 58])));
    assert!(!rules.valid_set(&as_cards(&[21, 41, 57])));

    // a hand with exactly one match is not stuck and yields a hint
    let hand = as_cards(&[11, 19, 31, 34, 64, 72, 21, 41, 58]);
    assert!(!rules.stuck(&hand));
    assert_eq!(rules.count_sets(&hand), 1);
    let hint = rules.hint(&hand).expect("a hint must exist");
    assert_eq!(hint.len(), 2);
    let set = [21usize, 41, 58].map(Card::new);
    assert!(hint.iter().all(|c| set.contains(c)));

    // without the match the hand is stuck and yields no hint
    let stuck = as_cards(&[11, 19, 31, 34, 64, 72]);
    assert!(rules.stuck(&stuck));
    assert!(rules.hint(&stuck).is_none());
    assert_eq!(rules.count_sets(&stuck), 0);
}

#[test]
fn check_superset_rules_queries() {
    let rules = SuperSetRules;
    // pairs (0,1) and (3,7) complete to the same card
    assert!(rules.valid_set(&as_cards(&[0, 1, 3, 7])));
    assert!(!rules.valid_set(&as_cards(&[0, 1, 2, 3])));

    let quad = as_cards(&[0, 1, 3, 7]);
    assert!(!rules.stuck(&quad));
    assert_eq!(rules.count_sets(&quad), 1);
    let hint = rules.hint(&quad).expect("a hint must exist");
    assert_eq!(hint.len(), 2);
    // the two hint cards complete to the same card as the other two
    let rest: Vec<Card> = quad.iter().copied().filter(|c| !hint.contains(c)).collect();
    assert_eq!(rest.len(), 2);
    assert_eq!(
        (hint[0], hint[1]).complete_set(),
        (rest[0], rest[1]).complete_set()
    );

    let stuck = as_cards(&[0, 1, 2, 3]);
    assert!(rules.stuck(&stuck));
    assert!(rules.hint(&stuck).is_none());
}

#[test]
fn check_config_defaults() {
    let config = Config::new();
    assert_eq!(config.variant, Variant::Classic);
    assert_eq!(config.deck, DeckKind::Full);
    assert!(!config.tidy_layout);
    assert_eq!(config.color_scheme, ColorScheme::CMYK);
    assert_eq!(config.window_size, (1200, 700));
    assert_eq!(Config::default().variant, Variant::Classic);
}

#[test]
fn check_config_rules() {
    let mut config = Config::new();
    let rules = config.rules();
    assert!(matches!(rules, GameRules::Classic(_)));
    assert_eq!(rules.set_size(), 3);
    assert_eq!(rules.name(), "Set");

    config.variant = Variant::SuperSet;
    let rules = config.rules();
    assert!(matches!(rules, GameRules::Quad(_)));
    assert_eq!(rules.set_size(), 4);
    assert_eq!(rules.name(), "SuperSet");
}

#[test]
fn check_completion_table() {
    let table = CompletionTable::new();
    // the table agrees with direct completion and is symmetric
    for &(i, j) in &[(0usize, 1usize), (21, 41), (3, 7), (79, 80), (0, 80)] {
        let a = Card::new(i);
        let b = Card::new(j);
        assert_eq!(table.lookup(a, b), (a, b).complete_set());
        assert_eq!(table.lookup(a, b), table.lookup(b, a));
    }
    // {21, 41, 58} is a triple-match, so 21 and 41 complete to 58
    assert_eq!(table.lookup(Card::new(21), Card::new(41)).index(), 58);
}
