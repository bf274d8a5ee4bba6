use marmoset::pair_iter::{PairIter, PairIterator};

fn collect_pairs(mut it: PairIterator) -> Vec<(usize, usize)> {
    let mut all = Vec::new();
    while let Some(p) = it.next() {
        all.push(p);
    }
    all
}

#[test]
fn check_pair_iter() {
    let nums = [0, 1, 2, 3, 4];

    let pairs = collect_pairs(nums.pairs());

    let expected = [
        (1, 0),
        (2, 0),
        (2, 1),
        (3, 0),
        (3, 1),
        (3, 2),
        (4, 0),
        (4, 1),
        (4, 2),
        (4, 3),
    ];

    assert_eq!(pairs, expected);

    // can't make any pairs from a single element slice
    assert_eq!(collect_pairs([1].pairs()).len(), 0);

    // can't make any pairs from a zero element slice
    let empty: [usize; 0] = [];
    assert_eq!(collect_pairs(empty.pairs()).len(), 0);

    // should get exactly one pair from a 2-element slice
    let two = [0, 1];
    assert_eq!(collect_pairs(two.pairs()).len(), 1);

    if let Some((a, b)) = two.pairs().next() {
        assert_eq!((a, b), (1, 0));
    } else {
        panic!();
    }
}

#[test]
fn check_pair_count_over_deck() {
    // C(81, 2) pairs over a full deck of positions
    let mut it = PairIterator::new(81);
    let mut count = 0;
    while let Some(_) = it.next() {
        count += 1;
    }
    assert_eq!(count, 3240);
}
