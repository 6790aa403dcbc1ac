use poker_wins::cards::{Card, Suit, Value};
use poker_wins::hands::{all_hands, binomial, Hand, Hands, ALL_HANDS};

#[test]
fn test_hands_iterator_count() {
    let mut hands = Hands::new();
    let mut count: usize = 0;
    while let Some(_) = hands.next_hand() {
        count += 1;
    }
    // C(52, 7) = 52! / (7! * 45!) = 133,784,560
    assert_eq!(count, ALL_HANDS);
}

#[test]
fn test_hands_no_duplicates() {
    let mut hands = all_hands();

    // Check first 1000 hands have no duplicate cards
    for _ in 0..1000 {
        let hand = hands.next_hand().expect("enumeration ended early");
        let cards = &hand.0;
        for i in 0..7 {
            for j in (i + 1)..7 {
                assert_ne!(cards[i].0, cards[j].0, "Hand contains duplicate cards");
            }
        }
    }
}

#[test]
fn test_hands_in_order() {
    let mut hands = Hands::new();

    // Check first 1000 hands have cards in increasing order
    for _ in 0..1000 {
        let hand = hands.next_hand().expect("enumeration ended early");
        let cards = &hand.0;
        for i in 0..6 {
            assert!(cards[i].0 < cards[i + 1].0, "Cards not in increasing order");
        }
    }
}

#[test]
fn test_binomial_values() {
    assert_eq!(binomial(52, 7), ALL_HANDS);
    assert_eq!(binomial(7, 5), 21);
    assert_eq!(binomial(5, 0), 1);
    assert_eq!(binomial(4, 7), 0);
    assert_eq!(binomial(52, 1), 52);
}

#[test]
fn test_score_high_card() {
    // High card: 2♣ 4♦ 6♠ 9♥ K♣ + two extra cards 3♥ 8♦
    // (avoiding consecutive cards to prevent straights)
    let hand = Hand([
        Card::new(Value::new(2), Suit::Clubs),
        Card::new(Value::new(3), Suit::Hearts),
        Card::new(Value::new(4), Suit::Diamonds),
        Card::new(Value::new(6), Suit::Spades),
        Card::new(Value::new(8), Suit::Diamonds),
        Card::new(Value::new(9), Suit::Hearts),
        Card::new(Value::new(13), Suit::Clubs),
    ]);
    let entry = hand.score();
    assert_eq!(entry.rank, 1); // High card
    assert_eq!(entry.hi, 13); // King
}

#[test]
fn test_score_one_pair() {
    // One pair: 3♣ 3♦ 5♠ 7♥ 9♣ + two extra cards 2♥ 4♦
    let hand = Hand([
        Card::new(Value::new(2), Suit::Hearts),
        Card::new(Value::new(3), Suit::Clubs),
        Card::new(Value::new(3), Suit::Diamonds),
        Card::new(Value::new(4), Suit::Diamonds),
        Card::new(Value::new(5), Suit::Spades),
        Card::new(Value::new(7), Suit::Hearts),
        Card::new(Value::new(9), Suit::Clubs),
    ]);
    let entry = hand.score();
    assert_eq!(entry.rank, 2); // One pair
    assert_eq!(entry.hi, 9);
}

#[test]
fn test_score_two_pair() {
    // Two pair: 3♣ 3♦ 7♠ 7♥ 9♣ + two extra cards 2♥ 4♦
    let hand = Hand([
        Card::new(Value::new(2), Suit::Hearts),
        Card::new(Value::new(3), Suit::Clubs),
        Card::new(Value::new(3), Suit::Diamonds),
        Card::new(Value::new(4), Suit::Diamonds),
        Card::new(Value::new(7), Suit::Spades),
        Card::new(Value::new(7), Suit::Hearts),
        Card::new(Value::new(9), Suit::Clubs),
    ]);
    let entry = hand.score();
    assert_eq!(entry.rank, 3); // Two pair
    assert_eq!(entry.hi, 9);
}

#[test]
fn test_score_three_of_a_kind() {
    // Three of a kind: 5♣ 5♦ 5♠ 7♥ 9♣ + two extra cards 2♥ 3♦
    let hand = Hand([
        Card::new(Value::new(2), Suit::Hearts),
        Card::new(Value::new(3), Suit::Diamonds),
        Card::new(Value::new(5), Suit::Clubs),
        Card::new(Value::new(5), Suit::Diamonds),
        Card::new(Value::new(5), Suit::Spades),
        Card::new(Value::new(7), Suit::Hearts),
        Card::new(Value::new(9), Suit::Clubs),
    ]);
    let entry = hand.score();
    assert_eq!(entry.rank, 4); // Three of a kind
    assert_eq!(entry.hi, 9);
}

#[test]
fn test_score_straight() {
    // Straight: 5♣ 6♦ 7♠ 8♥ 9♣ + two extra cards 2♥ 3♦
    let hand = Hand([
        Card::new(Value::new(2), Suit::Hearts),
        Card::new(Value::new(3), Suit::Diamonds),
        Card::new(Value::new(5), Suit::Clubs),
        Card::new(Value::new(6), Suit::Diamonds),
        Card::new(Value::new(7), Suit::Spades),
        Card::new(Value::new(8), Suit::Hearts),
        Card::new(Value::new(9), Suit::Clubs),
    ]);
    let entry = hand.score();
    assert_eq!(entry.rank, 5); // Straight
    assert_eq!(entry.hi, 9);
}

#[test]
fn test_score_flush() {
    // Flush: 2♣ 5♣ 7♣ 9♣ K♣ + two extra cards 3♥ 4♦
    let hand = Hand([
        Card::new(Value::new(2), Suit::Clubs),
        Card::new(Value::new(3), Suit::Hearts),
        Card::new(Value::new(4), Suit::Diamonds),
        Card::new(Value::new(5), Suit::Clubs),
        Card::new(Value::new(7), Suit::Clubs),
        Card::new(Value::new(9), Suit::Clubs),
        Card::new(Value::new(13), Suit::Clubs),
    ]);
    let entry = hand.score();
    assert_eq!(entry.rank, 6); // Flush
    assert_eq!(entry.hi, 13);
}

#[test]
fn test_score_full_house() {
    // Full house: 5♣ 5♦ 5♠ 7♥ 7♣ + two extra cards 2♥ 3♦
    let hand = Hand([
        Card::new(Value::new(2), Suit::Hearts),
        Card::new(Value::new(3), Suit::Diamonds),
        Card::new(Value::new(5), Suit::Clubs),
        Card::new(Value::new(5), Suit::Diamonds),
        Card::new(Value::new(5), Suit::Spades),
        Card::new(Value::new(7), Suit::Hearts),
        Card::new(Value::new(7), Suit::Clubs),
    ]);
    let entry = hand.score();
    assert_eq!(entry.rank, 7); // Full house
    assert_eq!(entry.hi, 7);
}

#[test]
fn test_score_four_of_a_kind() {
    // Four of a kind: 5♣ 5♦ 5♠ 5♥ 9♣ + two extra cards 2♥ 3♦
    let hand = Hand([
        Card::new(Value::new(2), Suit::Hearts),
        Card::new(Value::new(3), Suit::Diamonds),
        Card::new(Value::new(5), Suit::Clubs),
        Card::new(Value::new(5), Suit::Diamonds),
        Card::new(Value::new(5), Suit::Spades),
        Card::new(Value::new(5), Suit::Hearts),
        Card::new(Value::new(9), Suit::Clubs),
    ]);
    let entry = hand.score();
    assert_eq!(entry.rank, 8); // Four of a kind
    assert_eq!(entry.hi, 9);
}

#[test]
fn test_score_straight_flush() {
    // Straight flush: 5♣ 6♣ 7♣ 8♣ 9♣ + two extra cards 2♥ 3♦
    let hand = Hand([
        Card::new(Value::new(2), Suit::Hearts),
        Card::new(Value::new(3), Suit::Diamonds),
        Card::new(Value::new(5), Suit::Clubs),
        Card::new(Value::new(6), Suit::Clubs),
        Card::new(Value::new(7), Suit::Clubs),
        Card::new(Value::new(8), Suit::Clubs),
        Card::new(Value::new(9), Suit::Clubs),
    ]);
    let entry = hand.score();
    assert_eq!(entry.rank, 9); // Straight flush
    assert_eq!(entry.hi, 9);
}

#[test]
fn test_score_royal_flush() {
    // Royal flush: 10♣ J♣ Q♣ K♣ A♣ + two extra cards 2♥ 3♦
    let hand = Hand([
        Card::new(Value::new(1), Suit::Clubs),
        Card::new(Value::new(2), Suit::Hearts),
        Card::new(Value::new(3), Suit::Diamonds),
        Card::new(Value::new(10), Suit::Clubs),
        Card::new(Value::new(11), Suit::Clubs),
        Card::new(Value::new(12), Suit::Clubs),
        Card::new(Value::new(13), Suit::Clubs),
    ]);
    let entry = hand.score();
    assert_eq!(entry.rank, 9); // Straight flush (royal flush is the highest straight flush)
    assert_eq!(entry.hi, 14); // Ace high (14)
}

#[test]
fn test_score_wheel_straight() {
    // The wheel A-2-3-4-5: a straight whose high card is the five.
    let hand = Hand([
        Card::new(Value::new(1), Suit::Clubs),
        Card::new(Value::new(2), Suit::Hearts),
        Card::new(Value::new(3), Suit::Diamonds),
        Card::new(Value::new(4), Suit::Clubs),
        Card::new(Value::new(5), Suit::Clubs),
        Card::new(Value::new(9), Suit::Hearts),
        Card::new(Value::new(12), Suit::Diamonds),
    ]);
    let entry = hand.score();
    assert_eq!(entry.rank, 5);
    assert_eq!(entry.hi, 5);
}
