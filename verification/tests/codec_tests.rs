use poker_wins::cards::Card;
use poker_wins::hands::{Hand, ALL_HANDS};
use poker_wins::precompute::{buffer_size, format_number, Entry, ScoreTable, TableEntry};

#[test]
fn test_entry_record_is_nine_bytes() {
    assert_eq!(Entry::size(), 9);
    assert_eq!(buffer_size(), 9 * ALL_HANDS);
    assert_eq!(buffer_size(), 1_204_061_040);
}

#[test]
fn test_serialize_then_deserialize_roundtrip() {
    let hand = Hand([
        Card(3),
        Card(7),
        Card(11),
        Card(20),
        Card(33),
        Card(41),
        Card(50),
    ]);
    let entry = Entry {
        hand,
        rank: 6,
        hi: 13,
    };
    let mut buf = bytes::BytesMut::with_capacity(9);
    entry.serialize(&mut buf);
    assert_eq!(&buf[..], &[3, 7, 11, 20, 33, 41, 50, 6, 13]);

    let mut frozen = buf.freeze();
    let back = Entry::deserialize(&mut frozen);
    assert_eq!(back, entry);
    assert_eq!(frozen.len(), 0);
}

#[test]
fn test_deserialize_reads_record_bytes() {
    let mut record = bytes::Bytes::from(vec![0u8, 1, 2, 3, 4, 5, 6, 9, 14]);
    let e = Entry::deserialize(&mut record);
    assert_eq!(e.hand.0[0], Card(0));
    assert_eq!(e.hand.0[6], Card(6));
    assert_eq!(e.rank, 9);
    assert_eq!(e.hi, 14);
    assert_eq!(record.len(), 0);
    let te = e.to_table_entry();
    assert_eq!(te.rank, 9);
    assert_eq!(te.hi, 14);
}

#[test]
fn test_score_table_lookup_matches_direct_scoring() {
    // A table filled from the scorer returns exactly what the scorer
    // computes.
    let hand = Hand([
        Card(0),
        Card(1),
        Card(2),
        Card(3),
        Card(17),
        Card(30),
        Card(44),
    ]);
    let mut table = ScoreTable::new();
    table.add_hand(hand);
    assert_eq!(table.len(), 1);
    let direct = hand.score();
    let looked_up = table.score(&hand);
    assert_eq!(looked_up.rank, direct.rank);
    assert_eq!(looked_up.hi, direct.hi);
}

#[test]
fn test_table_entry_score_projection() {
    let e = TableEntry { rank: 5, hi: 9 };
    assert_eq!(e.to_score(), 5 * 16 + 9);
    let better = TableEntry { rank: 6, hi: 2 };
    // The projection preserves the lexicographic order on (rank, high).
    assert!(better.to_score() > e.to_score());
}

#[test]
fn test_format_number_grouping() {
    assert_eq!(format_number(0), "0");
    assert_eq!(format_number(999), "999");
    assert_eq!(format_number(1000), "1,000");
    assert_eq!(format_number(1234567), "1,234,567");
    assert_eq!(format_number(133784560), "133,784,560");
}
