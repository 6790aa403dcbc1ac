use poker_wins::cards::Card;
use poker_wins::deck::{AdvancedMutation, Deck, Mutation};

fn is_permutation(d: &Deck) -> bool {
    let mut seen = [false; 52];
    if d.0.len() != 52 {
        return false;
    }
    for c in d.0.iter() {
        if c.0 > 51 || seen[c.0 as usize] {
            return false;
        }
        seen[c.0 as usize] = true;
    }
    true
}

#[test]
fn cut_0_does_nothing() {
    let start = Deck::new_deck_order();
    let c = start.clone().cut(0);
    assert_eq!(start, c);
}

#[test]
fn test_cut_twice_roundtrip() {
    for cut_pos in 0..52usize {
        let deck = Deck::new_deck_order();
        let d1 = deck.clone().cut(cut_pos);
        let d2 = d1.cut(52 - cut_pos);
        assert_eq!(deck, d2);
    }
}

#[test]
fn test_cut_17_then_35_is_identity() {
    let start = Deck::new_deck_order();
    let rotated = start.clone().cut(17).cut(35);
    assert_eq!(start, rotated);
}

#[test]
fn test_new_deck_order_is_permutation() {
    let d = Deck::new_deck_order();
    assert!(is_permutation(&d));
    // Value-major, suit-minor: the aces of all four suits come first.
    assert_eq!(d.0[0], Card(0));
    assert_eq!(d.0[1], Card(13));
    assert_eq!(d.0[2], Card(26));
    assert_eq!(d.0[3], Card(39));
    assert_eq!(d.0[4], Card(1));
}

#[test]
fn test_shuffle_is_permutation() {
    let mut rng = oorandom::Rand32::new(4);
    let d = Deck::new_deck_order().shuffle(&mut rng);
    assert!(is_permutation(&d));
}

#[test]
fn test_shuffle_deterministic_per_seed() {
    let mut rng1 = oorandom::Rand32::new(99);
    let mut rng2 = oorandom::Rand32::new(99);
    let d1 = Deck::new_deck_order().shuffle(&mut rng1);
    let d2 = Deck::new_deck_order().shuffle(&mut rng2);
    assert_eq!(d1, d2);
}

#[test]
fn test_crossover_preserves_permutation() {
    let mut rng = oorandom::Rand32::new(7);
    let p1 = Deck::new_deck_order().shuffle(&mut rng);
    let p2 = Deck::new_deck_order().shuffle(&mut rng);
    for _ in 0..20 {
        let child = Deck::crossover(&p1, &p2, &mut rng);
        assert!(is_permutation(&child));
    }
    // Explicit crossover points: the kept segment comes from parent 1.
    let child = Deck::crossover_at(&p1, &p2, 10, 20);
    assert!(is_permutation(&child));
    for i in 10..20 {
        assert_eq!(child.0[i], p1.0[i]);
    }
}

#[test]
fn test_uniform_crossover_preserves_permutation() {
    let mut rng = oorandom::Rand32::new(11);
    let p1 = Deck::new_deck_order().shuffle(&mut rng);
    let p2 = Deck::new_deck_order().shuffle(&mut rng);
    for _ in 0..20 {
        let child = Deck::uniform_crossover(&p1, &p2, &mut rng);
        assert!(is_permutation(&child));
    }
    // An all-set mask copies parent 1 entirely.
    let mask = vec![true; 52];
    let child = Deck::uniform_crossover_with_mask(&p1, &p2, &mask);
    assert_eq!(child, p1);
    // An empty mask copies parent 2 entirely.
    let mask = vec![false; 52];
    let child = Deck::uniform_crossover_with_mask(&p1, &p2, &mask);
    assert_eq!(child, p2);
}

#[test]
fn test_mutations_preserve_permutation() {
    let mut rng = oorandom::Rand32::new(21);
    let mut d = Deck::new_deck_order();
    for _ in 0..100 {
        let m = AdvancedMutation::generate(&mut rng, 300);
        d = m.apply(d, &mut rng);
        assert!(is_permutation(&d));
    }
    let muts = poker_wins::deck::generate_mutations(&mut rng);
    assert!(muts.len() >= 1 && muts.len() <= 3);
    d = d.apply_mutations(&muts);
    assert!(is_permutation(&d));
}

#[test]
fn test_block_swap_out_of_range_is_noop() {
    let d = Deck::new_deck_order();
    let mut rng = oorandom::Rand32::new(3);
    // Overlapping blocks leave the deck unchanged.
    let m = AdvancedMutation::BlockSwap(10, 12, 5);
    let d2 = m.apply(d.clone(), &mut rng);
    assert_eq!(d, d2);
    // Out-of-bounds blocks leave the deck unchanged.
    let m = AdvancedMutation::BlockSwap(50, 0, 5);
    let d2 = m.apply(d.clone(), &mut rng);
    assert_eq!(d, d2);
    // Reversal with an empty or reversed range is a no-op.
    let m = AdvancedMutation::Reversal(20, 20);
    let d2 = m.apply(d.clone(), &mut rng);
    assert_eq!(d, d2);
}

#[test]
fn test_swap_and_mutation() {
    let mut d = Deck::new_deck_order();
    let c0 = d.0[0];
    let c5 = d.0[5];
    d.swap(0, 5);
    assert_eq!(d.0[0], c5);
    assert_eq!(d.0[5], c0);
    let d2 = d.clone().apply_mutation(Mutation((0, 5)));
    assert_eq!(d2.0[0], c0);
    assert_eq!(d2.0[5], c5);
}

#[test]
fn test_draw_pops_from_end() {
    let mut d = Deck::new_deck_order();
    let last = d.0[51];
    let drawn = d.draw();
    assert_eq!(drawn, last);
    assert_eq!(d.len(), 51);
    assert!(!d.is_empty());
}
