use poker::{classify, winning_hands, Card, Hand, HandCategory, PokerError};
use std::cmp::Ordering;

fn category(text: &str) -> HandCategory {
    Hand::new(text).unwrap().category
}

#[test]
fn single_hand_is_the_winner() {
    assert_eq!(winning_hands(&["4D 5S 6S 8D 3C"]), Ok(vec!["4D 5S 6S 8D 3C"]));
}

#[test]
fn identical_classifications_tie() {
    let hands = ["4S 5H 4C 8D 4H", "4D 5D 4C 8D 4H"];
    assert_eq!(winning_hands(&hands), Ok(vec!["4S 5H 4C 8D 4H", "4D 5D 4C 8D 4H"]));
}

#[test]
fn ties_keep_input_order_and_drop_losers() {
    let hands = ["2S 4C 7S 9H 10H", "3S 4S 5D 6H JH", "3H 4H 5C 6C JD"];
    assert_eq!(winning_hands(&hands), Ok(vec!["3S 4S 5D 6H JH", "3H 4H 5C 6C JD"]));
}

#[test]
fn flushes_of_different_suits_tie() {
    let hands = ["2S 4S 5S 6S 9S", "2H 4H 5H 6H 9H"];
    assert_eq!(winning_hands(&hands), Ok(vec!["2S 4S 5S 6S 9S", "2H 4H 5H 6H 9H"]));
}

#[test]
fn wheel_is_a_five_high_straight() {
    assert_eq!(category("5H 4C 3D 2S AH"), HandCategory::Straight(5));
    assert_eq!(category("6H 5C 4D 3S 2H"), HandCategory::Straight(6));
    assert_eq!(category("10H JC QD KS AH"), HandCategory::Straight(14));
    let wheel = category("5H 4C 3D 2S AH");
    assert_eq!(wheel.compare(&category("6H 5C 4D 3S 2H")), Ordering::Less);
    assert_ne!(wheel, category("10H JC QD KS AH"));
    assert_eq!(
        winning_hands(&["5H 4C 3D 2S AH", "6H 5C 4D 3S 2H"]),
        Ok(vec!["6H 5C 4D 3S 2H"])
    );
}

#[test]
fn wheel_straight_flush() {
    assert_eq!(category("5D 4D 3D 2D AD"), HandCategory::StraightFlush(5));
    assert_eq!(
        winning_hands(&["5D 4D 3D 2D AD", "6S 5S 4S 3S 2S"]),
        Ok(vec!["6S 5S 4S 3S 2S"])
    );
}

#[test]
fn flush_beats_higher_high_card() {
    let hands = ["KD QH JC 9S 7H", "2S 4S 5S 6S 9S"];
    assert_eq!(winning_hands(&hands), Ok(vec!["2S 4S 5S 6S 9S"]));
}

#[test]
fn full_house_higher_pair_wins() {
    let hands = ["5H 5S 5D 9S 9D", "5H 5S 5D 8S 8D"];
    assert_eq!(winning_hands(&hands), Ok(vec!["5H 5S 5D 9S 9D"]));
    assert_eq!(category("5H 5S 5D 9S 9D"), HandCategory::FullHouse(5, 9));
}

#[test]
fn order_of_cards_does_not_matter() {
    assert_eq!(category("4S 5H 4C 8D 4H"), category("8D 4H 4S 4C 5H"));
    assert_eq!(category("JD 10D QD AD KD"), category("AD KD QD JD 10D"));
    let sorted = [
        Card { rank: 9, suit: 'C' },
        Card { rank: 9, suit: 'D' },
        Card { rank: 7, suit: 'H' },
        Card { rank: 3, suit: 'S' },
        Card { rank: 3, suit: 'C' },
    ];
    let shuffled = [sorted[3], sorted[0], sorted[4], sorted[2], sorted[1]];
    assert_eq!(classify(&sorted), classify(&shuffled));
    assert_eq!(classify(&sorted), HandCategory::TwoPair(9, 3, 7));
}

#[test]
fn empty_input_fails() {
    assert_eq!(winning_hands(&[]), Err(PokerError::EmptyInput));
}

#[test]
fn wrong_card_counts_fail() {
    assert_eq!(winning_hands(&["4S 5H 4C 8D"]), Err(PokerError::InvalidHandSize));
    assert_eq!(winning_hands(&["4S 5H 4C 8D 4H 2C"]), Err(PokerError::InvalidHandSize));
    assert_eq!(winning_hands(&[""]), Err(PokerError::InvalidHandSize));
}

#[test]
fn malformed_cards_fail() {
    assert_eq!(winning_hands(&["4S 5H 4C 8D XH"]), Err(PokerError::InvalidCardFormat));
    assert_eq!(winning_hands(&["4S 5H 4C 8D 1H"]), Err(PokerError::InvalidCardFormat));
    assert_eq!(winning_hands(&["4S 5H 4C 8D 4"]), Err(PokerError::InvalidCardFormat));
    assert_eq!(winning_hands(&["4S 5H 4C 8D 4HH"]), Err(PokerError::InvalidCardFormat));
}

#[test]
fn first_failing_hand_decides_the_error() {
    let hands = ["4S 5H 4C 8D 4H", "4S 5H", "4S 5H 4C 8D ZZ"];
    assert_eq!(winning_hands(&hands), Err(PokerError::InvalidHandSize));
    let hands = ["4S 5H 4C 8D ZZ", "4S 5H"];
    assert_eq!(winning_hands(&hands), Err(PokerError::InvalidCardFormat));
}

#[test]
fn extra_whitespace_is_accepted() {
    assert_eq!(category("  4S  5H\t4C\n8D 4H "), HandCategory::ThreeOfAKind(4, 8, 5));
}

#[test]
fn card_tokens_parse() {
    assert_eq!(Card::new("10H"), Ok(Card { rank: 10, suit: 'H' }));
    assert_eq!(Card::new("AD"), Ok(Card { rank: 14, suit: 'D' }));
    assert_eq!(Card::new("KC"), Ok(Card { rank: 13, suit: 'C' }));
    assert_eq!(Card::new("QS"), Ok(Card { rank: 12, suit: 'S' }));
    assert_eq!(Card::new("JH"), Ok(Card { rank: 11, suit: 'H' }));
    assert_eq!(Card::new("2S"), Ok(Card { rank: 2, suit: 'S' }));
    assert_eq!(Card::new(""), Err(PokerError::InvalidCardFormat));
    assert_eq!(Card::new("A"), Err(PokerError::InvalidCardFormat));
    assert_eq!(Card::new("11H"), Err(PokerError::InvalidCardFormat));
}

#[test]
fn every_category_is_classified() {
    assert_eq!(category("KD 9H 7C 4S 2H"), HandCategory::HighCard(13, 9, 7, 4, 2));
    assert_eq!(category("9D 9H 7C 4S 2H"), HandCategory::OnePair(9, 7, 4, 2));
    assert_eq!(category("9D 9H 4C 4S 2H"), HandCategory::TwoPair(9, 4, 2));
    assert_eq!(category("9D 9H 9C 4S 2H"), HandCategory::ThreeOfAKind(9, 4, 2));
    assert_eq!(category("9D 8H 7C 6S 5H"), HandCategory::Straight(9));
    assert_eq!(category("KD 9D 7D 4D 2D"), HandCategory::Flush(13, 9, 7, 4, 2));
    assert_eq!(category("9D 9H 9C 4S 4H"), HandCategory::FullHouse(9, 4));
    assert_eq!(category("9D 9H 9C 9S 2H"), HandCategory::FourOfAKind(9, 2));
    assert_eq!(category("9D 8D 7D 6D 5D"), HandCategory::StraightFlush(9));
}

#[test]
fn categories_rank_in_poker_order() {
    let ascending = [
        "AD KH QC JS 9H",
        "2D 2H 3C 4S 5H",
        "2D 2H 3C 3S 4H",
        "2D 2H 2C 3S 4H",
        "2D 3H 4C 5S 6H",
        "2D 3D 4D 5D 7D",
        "2D 2H 2C 3S 3H",
        "2D 2H 2C 2S 3H",
        "2D 3D 4D 5D 6D",
    ];
    for i in 0..ascending.len() {
        let a = category(ascending[i]);
        assert_eq!(a.strength() as usize, i);
        for j in 0..ascending.len() {
            let b = category(ascending[j]);
            let expected = i.cmp(&j);
            assert_eq!(a.compare(&b), expected);
        }
    }
}

#[test]
fn tiebreak_ranks_compare_in_order() {
    let a = HandCategory::TwoPair(9, 4, 2);
    let b = HandCategory::TwoPair(9, 5, 2);
    assert_eq!(a.tiebreak(), vec![9, 4, 2]);
    assert_eq!(a.compare(&b), Ordering::Less);
    assert_eq!(b.compare(&a), Ordering::Greater);
    assert_eq!(a.compare(&a), Ordering::Equal);
    assert_eq!(
        winning_hands(&["9D 9H 4C 4S 2H", "9C 9S 5C 5S 2D"]),
        Ok(vec!["9C 9S 5C 5S 2D"])
    );
}

#[test]
fn kickers_break_pair_ties() {
    let hands = ["9D 9H KC 4S 2H", "9C 9S QC JS 10D"];
    assert_eq!(winning_hands(&hands), Ok(vec!["9D 9H KC 4S 2H"]));
}
