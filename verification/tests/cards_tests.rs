use poker_wins::cards::{card_to_string, Card, Suit, Value};

#[test]
fn example() {
    let c = Card(0);
    let (value, suit) = c.into_inner();
    assert_eq!(value, Value::new(1));
    assert_eq!(suit, Suit::Clubs)
}

#[test]
fn test_suit_roundtrip_all() {
    let suits = [Suit::Clubs, Suit::Spades, Suit::Hearts, Suit::Diamonds];
    for s in suits {
        let as_u8: u8 = s.to_u8();
        assert!(as_u8 <= 3);
        let back = Suit::from_u8(as_u8);
        assert_eq!(back, s);
    }
}

#[test]
fn test_card_roundtrip_all_ids() {
    for id in 0..=51u8 {
        let card = Card(id);
        assert!(card.valid());
        let (value, suit) = card.into_inner();
        assert!(value.0 >= 1 && value.0 <= 13);
        let card2 = Card::new(value, suit);
        assert_eq!(card, card2);
    }
}

#[test]
fn test_card_invalid_above_51() {
    assert!(!Card(52).valid());
    assert!(!Card(255).valid());
}

#[test]
fn test_card_to_string_examples() {
    // Under the solver encoding: value = id % 13 (0 is the deuce), suit =
    // id / 13 with clubs first.
    assert_eq!(card_to_string(0), "2c");
    assert_eq!(card_to_string(8), "10c");
    assert_eq!(card_to_string(12), "Ac");
    assert_eq!(card_to_string(13), "2d");
    assert_eq!(card_to_string(25), "Ad");
    assert_eq!(card_to_string(35), "Jh");
    assert_eq!(card_to_string(51), "As");
}
