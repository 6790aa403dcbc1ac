use poker_wins::cards::{Card, Suit, Value};
use poker_wins::deck::Deck;
use poker_wins::game::{
    deal_a_round, hybrid_score, max_wins, num_realistic_wins, num_wins, num_wins_total,
    position_margin, Common, Game, Player,
};
use poker_wins::hands::Hand;
use poker_wins::precompute::ScoreTable;

/// Builds a hand from seven cards in any order, sorted ascending by id.
fn sorted_hand(mut cards: [Card; 7]) -> Hand {
    cards.sort();
    Hand(cards)
}

/// A table holding the correct scores for every hand any player of any
/// cut of this deck can hold.
fn table_for_deck(num_players: usize, deck: &Deck) -> ScoreTable {
    let mut table = ScoreTable::new();
    for cut in 0..52 {
        let game = deal_a_round(num_players, deck.clone().cut(cut));
        for p in 0..num_players {
            let h = sorted_hand([
                game.players[p].0[0],
                game.players[p].0[1],
                game.common.0[0],
                game.common.0[1],
                game.common.0[2],
                game.common.0[3],
                game.common.0[4],
            ]);
            table.add_hand(h);
        }
    }
    table
}

#[test]
fn test_player1_wins_with_straight() {
    // Community: 4♣, 3♦, 7♠, 5♣, J♠
    // Player 1: K♥, 6♦
    // Player 0: 8♥, 7♦
    //
    // Player 0's best is a pair of 7s; player 1's best is the straight
    // 3-4-5-6-7, so player 1 wins.
    let card_4c = Card::new(Value::new(4), Suit::Clubs);
    let card_3d = Card::new(Value::new(3), Suit::Diamonds);
    let card_7s = Card::new(Value::new(7), Suit::Spades);
    let card_5c = Card::new(Value::new(5), Suit::Clubs);
    let card_js = Card::new(Value::new(11), Suit::Spades);

    let card_kh = Card::new(Value::new(13), Suit::Hearts);
    let card_6d = Card::new(Value::new(6), Suit::Diamonds);

    let card_8h = Card::new(Value::new(8), Suit::Hearts);
    let card_7d = Card::new(Value::new(7), Suit::Diamonds);

    let player0 = Player([card_8h, card_7d]);
    let player1 = Player([card_kh, card_6d]);
    let common = Common([card_4c, card_3d, card_7s, card_5c, card_js]);

    let game = Game {
        players: vec![player0, player1],
        common,
        rest: Deck(vec![]),
    };

    let mut table = ScoreTable::new();
    table.add_hand(sorted_hand([
        card_8h, card_7d, card_4c, card_3d, card_7s, card_5c, card_js,
    ]));
    table.add_hand(sorted_hand([
        card_kh, card_6d, card_4c, card_3d, card_7s, card_5c, card_js,
    ]));

    let p0_score = game.players_score(0, &table);
    let p1_score = game.players_score(1, &table);

    assert_eq!(p0_score.rank, 2, "Player 0 should have a pair");
    assert_eq!(p1_score.rank, 5, "Player 1 should have a straight");
    assert!(!game.dealer_wins(&table), "Player 0 (dealer) should NOT win this hand");
    assert_eq!(game.winning_player(&table), 1, "Player 1 should be the winning player");
}

#[test]
fn test_player1_wins_with_ace_high() {
    // Community: 7♥, 5♣, 10♣, 8♣, 8♥
    // Player 1: A♣, 3♦
    // Player 0: Q♦, 4♠
    //
    // Both end with a pair of 8s, but player 1's high card is the ace.
    let card_7h = Card::new(Value::new(7), Suit::Hearts);
    let card_5c = Card::new(Value::new(5), Suit::Clubs);
    let card_10c = Card::new(Value::new(10), Suit::Clubs);
    let card_8c = Card::new(Value::new(8), Suit::Clubs);
    let card_8h = Card::new(Value::new(8), Suit::Hearts);

    let card_ac = Card::new(Value::new(1), Suit::Clubs);
    let card_3d = Card::new(Value::new(3), Suit::Diamonds);

    let card_qd = Card::new(Value::new(12), Suit::Diamonds);
    let card_4s = Card::new(Value::new(4), Suit::Spades);

    let player0 = Player([card_qd, card_4s]);
    let player1 = Player([card_ac, card_3d]);
    let common = Common([card_7h, card_5c, card_10c, card_8c, card_8h]);

    let game = Game {
        players: vec![player0, player1],
        common,
        rest: Deck(vec![]),
    };

    let mut table = ScoreTable::new();
    table.add_hand(sorted_hand([
        card_qd, card_4s, card_7h, card_5c, card_10c, card_8c, card_8h,
    ]));
    table.add_hand(sorted_hand([
        card_ac, card_3d, card_7h, card_5c, card_10c, card_8c, card_8h,
    ]));

    let p0_score = game.players_score(0, &table);
    let p1_score = game.players_score(1, &table);

    assert_eq!(p0_score.rank, 2, "Player 0 should have a pair");
    assert_eq!(p1_score.rank, 2, "Player 1 should have a pair");
    assert_eq!(p1_score.hi, 14, "Player 1's high card should be Ace (14)");
    assert_eq!(p0_score.hi, 12, "Player 0's high card should be Queen (12)");
    assert!(!game.dealer_wins(&table), "Player 0 (dealer) should NOT win this hand");
    assert_eq!(game.winning_player(&table), 1, "Player 1 should be the winning player");
}

#[test]
fn test_player0_wins_specific_hand_direct_scoring() {
    // Same scenario, scored through Hand::score directly instead of the
    // table.
    let card_4c = Card::new(Value::new(4), Suit::Clubs);
    let card_3d = Card::new(Value::new(3), Suit::Diamonds);
    let card_7s = Card::new(Value::new(7), Suit::Spades);
    let card_5c = Card::new(Value::new(5), Suit::Clubs);
    let card_js = Card::new(Value::new(11), Suit::Spades);

    let card_kh = Card::new(Value::new(13), Suit::Hearts);
    let card_6d = Card::new(Value::new(6), Suit::Diamonds);

    let card_8h = Card::new(Value::new(8), Suit::Hearts);
    let card_7d = Card::new(Value::new(7), Suit::Diamonds);

    // Player 1's best possible five cards: the straight 3-4-5-6-7, inside
    // the full seven-card hand.
    let p1_hand = sorted_hand([
        card_kh, card_6d, card_3d, card_4c, card_5c, card_7s, card_js,
    ]);
    let p1_score = p1_hand.score();

    // Player 0's best: pair of 7s.
    let p0_hand = sorted_hand([
        card_8h, card_7d, card_7s, card_js, card_5c, card_4c, card_3d,
    ]);
    let p0_score = p0_hand.score();

    assert_eq!(p1_score.rank, 5, "Player 1 should have a straight");
    assert_eq!(p0_score.rank, 2, "Player 0 should have a pair");
    assert!(p1_score.rank > p0_score.rank, "Player 1's straight should beat Player 0's pair");
}

#[test]
fn test_deal_consumes_sixteen_cards() {
    // With 4 players the deal consumes 2*4 hole cards, 5 community cards
    // and 3 burns: 16 cards, leaving 36 in the draw pile.
    let deck = Deck::new_deck_order();
    let game = deal_a_round(4, deck);
    assert_eq!(game.players.len(), 4);
    assert_eq!(game.rest.len(), 36);

    // All dealt cards are distinct.
    let mut seen = [false; 52];
    for p in &game.players {
        for c in p.0 {
            assert!(!seen[c.0 as usize]);
            seen[c.0 as usize] = true;
        }
    }
    for c in game.common.0 {
        assert!(!seen[c.0 as usize]);
        seen[c.0 as usize] = true;
    }
}

#[test]
fn test_max_wins_values() {
    assert_eq!(max_wins(false), 52);
    assert_eq!(max_wins(true), 42);
}

#[test]
fn test_num_wins_at_most_max() {
    let deck = Deck::new_deck_order();
    let table = table_for_deck(2, &deck);
    let wins = num_wins(2, &deck, &table, false);
    assert!(wins <= 52);
    assert_eq!(wins, num_wins_total(2, &deck, &table));

    let realistic = num_wins(2, &deck, &table, true);
    assert!(realistic <= 42);
    assert_eq!(realistic, num_realistic_wins(2, &deck, &table));
    assert!(realistic <= wins);
}

#[test]
fn test_hybrid_is_wins_weighted_plus_margins() {
    let deck = Deck::new_deck_order();
    let table = table_for_deck(2, &deck);

    let mut strict_wins: i64 = 0;
    let mut margin_sum: i64 = 0;
    for cut in 0..52 {
        let margin = position_margin(2, &deck, cut, &table);
        if margin > 0 {
            strict_wins += 1;
        }
        margin_sum += margin as i64;
    }

    let hybrid = hybrid_score(2, &deck, &table, false);
    assert_eq!(hybrid, strict_wins * 100_000 + margin_sum);

    // A deck with one more strictly-winning cut always outscores this
    // one, whatever the margins: margins stay far below the win weight.
    assert!(margin_sum.abs() < 100_000);
}
