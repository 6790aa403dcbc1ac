use poker_wins::deck::Deck;
use poker_wins::search::{
    deck_from_cards, hamming_distance, inject_migrants, next_population, select_parent,
    sort_scored_desc, Scored,
};

fn scored(deck: Deck, score: usize) -> Scored {
    Scored { deck, score }
}

#[test]
fn test_hamming_distance_counts_differences() {
    let a = Deck::new_deck_order();
    let b = Deck::new_deck_order();
    assert_eq!(hamming_distance(&a, &b), 0);
    let mut c = Deck::new_deck_order();
    c.swap(0, 1);
    assert_eq!(hamming_distance(&a, &c), 2);
    let rotated = Deck::new_deck_order().cut(1);
    assert!(hamming_distance(&a, &rotated) > 0);
}

#[test]
fn test_select_parent_in_range() {
    let mut rng = oorandom::Rand32::new(5);
    let pop = vec![
        scored(Deck::new_deck_order(), 10),
        scored(Deck::new_deck_order(), 0),
        scored(Deck::new_deck_order(), 42),
    ];
    for _ in 0..50 {
        let idx = select_parent(&pop, &mut rng);
        assert!(idx < pop.len());
    }
    // All-zero fitness still selects a valid index.
    let zeros = vec![
        scored(Deck::new_deck_order(), 0),
        scored(Deck::new_deck_order(), 0),
    ];
    for _ in 0..10 {
        assert!(select_parent(&zeros, &mut rng) < 2);
    }
}

#[test]
fn test_sort_scored_desc_orders_by_score() {
    let pop = vec![
        scored(Deck::new_deck_order(), 3),
        scored(Deck::new_deck_order(), 52),
        scored(Deck::new_deck_order(), 17),
        scored(Deck::new_deck_order(), 17),
        scored(Deck::new_deck_order(), 0),
    ];
    let sorted = sort_scored_desc(pop);
    let scores: Vec<usize> = sorted.iter().map(|s| s.score).collect();
    assert_eq!(scores, vec![52, 17, 17, 3, 0]);
}

#[test]
fn test_next_population_keeps_best() {
    // The previous generation's best survives any batch of children:
    // elitism makes the best score monotone across generations.
    let prev = vec![
        scored(Deck::new_deck_order(), 40),
        scored(Deck::new_deck_order(), 30),
        scored(Deck::new_deck_order(), 20),
    ];
    let children = vec![
        scored(Deck::new_deck_order(), 10),
        scored(Deck::new_deck_order(), 5),
    ];
    let next = next_population(&prev, children, 3, 1);
    assert_eq!(next.len(), 3);
    assert!(next[0].score >= 40);
    assert_eq!(next[0].score, 40);

    // A stronger child takes the lead but the old best is not lost.
    let prev = vec![scored(Deck::new_deck_order(), 12)];
    let children = vec![scored(Deck::new_deck_order(), 50)];
    let next = next_population(&prev, children, 2, 1);
    assert_eq!(next.len(), 2);
    assert_eq!(next[0].score, 50);
    assert_eq!(next[1].score, 12);
}

#[test]
fn test_inject_migrants_replaces_worst() {
    let island = vec![
        scored(Deck::new_deck_order(), 30),
        scored(Deck::new_deck_order(), 20),
        scored(Deck::new_deck_order(), 1),
    ];
    let migrants = vec![scored(Deck::new_deck_order(), 25)];
    let merged = inject_migrants(island, migrants);
    let scores: Vec<usize> = merged.iter().map(|s| s.score).collect();
    assert_eq!(scores, vec![30, 25, 20]);
}

#[test]
fn test_deck_from_cards_accepts_permutations_only() {
    let ids: Vec<u8> = (0..52).collect();
    let d = deck_from_cards(&ids).expect("a permutation must be accepted");
    assert_eq!(d.0[0].0, 0);
    assert_eq!(d.0[51].0, 51);

    let short: Vec<u8> = (0..51).collect();
    assert!(deck_from_cards(&short).is_none());

    let mut dup: Vec<u8> = (0..52).collect();
    dup[51] = 0;
    assert!(deck_from_cards(&dup).is_none());

    let mut out_of_range: Vec<u8> = (0..52).collect();
    out_of_range[10] = 77;
    assert!(deck_from_cards(&out_of_range).is_none());
}
