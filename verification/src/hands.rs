//! Hands and the poker evaluator: a hand is seven cards in strictly
//! increasing id order; its score is the best `(rank, high)` over all 21
//! five-card sub-hands.

use vstd::prelude::*;
use vstd::pervasive::VecAdditionalExecFns;
use crate::cards::{Card, spec_card_value, spec_card_suit};
use crate::precompute::Entry;

verus! {

pub const HAND_SIZE: usize = 7;

pub const ALL_HANDS: usize = 133_784_560;

/// How many cards among `s` carry the value `v` (values run 1..13).
pub open spec fn value_count(s: Seq<u8>, v: int) -> int
    decreases s.len(),
{
    if s.len() == 0 {
        0
    } else {
        value_count(s.drop_last(), v) + if spec_card_value(s.last()) == v {
            1int
        } else {
            0int
        }
    }
}

/// All five cards share one suit.
pub open spec fn spec_is_flush(s: Seq<u8>) -> bool {
    forall|i: int| 0 <= i < s.len() ==> spec_card_suit(#[trigger] s[i]) == spec_card_suit(s[0])
}

/// The five values `lo .. lo+4` each occur exactly once.
pub open spec fn run_at(s: Seq<u8>, lo: int) -> bool {
    forall|v: int| lo <= v < lo + 5 ==> #[trigger] value_count(s, v) == 1
}

/// The wheel A-2-3-4-5: the one straight in which the ace counts low.
pub open spec fn spec_is_wheel(s: Seq<u8>) -> bool {
    run_at(s, 1)
}

/// The ace-high straight 10-J-Q-K-A.
pub open spec fn spec_is_royal(s: Seq<u8>) -> bool {
    value_count(s, 1) == 1 && value_count(s, 10) == 1 && value_count(s, 11) == 1
        && value_count(s, 12) == 1 && value_count(s, 13) == 1
}

/// Five consecutive values, or the ace-high straight.
pub open spec fn spec_is_straight(s: Seq<u8>) -> bool {
    (exists|lo: int| 1 <= lo <= 9 && run_at(s, lo)) || spec_is_royal(s)
}

/// Some value occurs exactly `k` times.
pub open spec fn has_count(s: Seq<u8>, k: int) -> bool {
    exists|v: int| 1 <= v <= 13 && #[trigger] value_count(s, v) == k
}

/// How many of the values `1 ..= v` occur exactly twice.
pub open spec fn num_pairs_upto(s: Seq<u8>, v: int) -> int {
    count_hits_upto(s, 2, v)
}

/// The greatest value in `1 ..= v` that occurs in `s`, or 1 if none does.
pub open spec fn max_value_upto(s: Seq<u8>, v: int) -> int
    decreases v,
{
    if v <= 1 {
        1
    } else if value_count(s, v) > 0 {
        v
    } else {
        max_value_upto(s, v - 1)
    }
}

/// Whether the first `f` cards all share the first card's suit.
pub open spec fn flush_upto(s: Seq<u8>, f: int) -> bool
    decreases f,
{
    if f <= 0 {
        true
    } else {
        flush_upto(s, f - 1) && spec_card_suit(s[f - 1]) == spec_card_suit(s[0])
    }
}

proof fn lemma_flush_upto(s: Seq<u8>, f: int)
    requires
        0 <= f,
    ensures
        flush_upto(s, f) <==> (forall|q: int| 0 <= q < f ==> spec_card_suit(#[trigger] s[q])
            == spec_card_suit(s[0])),
    decreases f,
{
    if f > 0 {
        lemma_flush_upto(s, f - 1);
    }
}

/// Whether some run of five consecutive values starts at or below `lo`.
pub open spec fn any_run_upto(s: Seq<u8>, lo: int) -> bool
    decreases lo,
{
    if lo < 1 {
        false
    } else {
        run_at(s, lo) || any_run_upto(s, lo - 1)
    }
}

proof fn lemma_any_run_upto(s: Seq<u8>, lo: int)
    requires
        0 <= lo,
    ensures
        any_run_upto(s, lo) <==> (exists|l: int| 1 <= l <= lo && run_at(s, l)),
    decreases lo,
{
    if lo > 0 {
        lemma_any_run_upto(s, lo - 1);
        if run_at(s, lo) {
            assert(1 <= lo <= lo && run_at(s, lo));
        }
    }
}

/// How many of the values `1 ..= v` occur exactly `k` times.
pub open spec fn count_hits_upto(s: Seq<u8>, k: int, v: int) -> int
    decreases v,
{
    if v <= 0 {
        0
    } else {
        count_hits_upto(s, k, v - 1) + if value_count(s, v) == k {
            1int
        } else {
            0int
        }
    }
}

proof fn lemma_count_hits_exists(s: Seq<u8>, k: int, v: int)
    requires
        0 <= v,
    ensures
        0 <= count_hits_upto(s, k, v) <= v,
        (count_hits_upto(s, k, v) > 0) <==> (exists|w: int| 1 <= w <= v
            && #[trigger] value_count(s, w) == k),
    decreases v,
{
    if v > 0 {
        lemma_count_hits_exists(s, k, v - 1);
        if value_count(s, v) == k {
            assert(1 <= v <= v && value_count(s, v) == k);
        }
    }
}

/// The tie-break value of a five-card hand: 14 for an ace unless the hand
/// is the wheel (then 5); otherwise the greatest value present.
pub open spec fn spec_high5(s: Seq<u8>) -> int {
    if value_count(s, 1) > 0 {
        if spec_is_wheel(s) {
            5
        } else {
            14
        }
    } else {
        max_value_upto(s, 13)
    }
}

/// The categorical rank of a five-card hand, 1 (high card) to 9 (straight
/// flush), decided by the first matching rule.
pub open spec fn spec_rank5(s: Seq<u8>) -> int {
    if spec_is_straight(s) && spec_is_flush(s) {
        9
    } else if has_count(s, 4) {
        8
    } else if has_count(s, 3) && has_count(s, 2) {
        7
    } else if spec_is_flush(s) {
        6
    } else if spec_is_straight(s) {
        5
    } else if has_count(s, 3) {
        4
    } else if num_pairs_upto(s, 13) >= 2 {
        3
    } else if num_pairs_upto(s, 13) == 1 {
        2
    } else {
        1
    }
}

/// The `(rank, high)` score of a five-card hand.
pub open spec fn spec_score5(s: Seq<u8>) -> (int, int) {
    (spec_rank5(s), spec_high5(s))
}

pub proof fn lemma_rank5_bounds(s: Seq<u8>)
    ensures
        1 <= spec_rank5(s) <= 9,
{
}

proof fn lemma_value_count_nonneg(s: Seq<u8>, v: int)
    ensures
        0 <= value_count(s, v) <= s.len(),
    decreases s.len(),
{
    if s.len() > 0 {
        lemma_value_count_nonneg(s.drop_last(), v);
    }
}

pub proof fn lemma_high5_bounds(s: Seq<u8>)
    ensures
        1 <= spec_high5(s) <= 14,
{
    lemma_max_value_bounds(s, 13);
}

proof fn lemma_max_value_bounds(s: Seq<u8>, v: int)
    requires
        1 <= v,
    ensures
        1 <= max_value_upto(s, v) <= v,
    decreases v,
{
    if v > 1 {
        lemma_max_value_bounds(s, v - 1);
    }
}

proof fn lemma_max_value_skip(s: Seq<u8>, v: int, w: int)
    requires
        1 <= w <= v,
        forall|u: int| w < u <= v ==> #[trigger] value_count(s, u) == 0,
    ensures
        max_value_upto(s, v) == max_value_upto(s, w),
    decreases v,
{
    if v > w {
        lemma_max_value_skip(s, v - 1, w);
    }
}

/// Scores five cards: the values and suits are read off each card, and the
/// rank and tie-break value follow the rules of `spec_rank5`/`spec_high5`.
pub fn score_five_cards(cards: [Card; 5]) -> (r: (u8, u8))
    ensures
        r.0 == spec_rank5(cards@.map_values(|c: Card| c.0)),
        r.1 == spec_high5(cards@.map_values(|c: Card| c.0)),
        1 <= r.0 <= 9,
        1 <= r.1 <= 14,
{
    let ghost s = cards@.map_values(|c: Card| c.0);

    // Count the occurrences of each value 1..13.
    let mut counts: Vec<u8> = Vec::new();
    let mut z: usize = 0;
    while z < 14
        invariant
            0 <= z <= 14,
            counts@.len() == z,
            forall|q: int| 0 <= q < z ==> counts@[q] == 0,
        decreases 14 - z,
    {
        counts.push(0);
        z = z + 1;
    }
    let mut i: usize = 0;
    while i < 5
        invariant
            0 <= i <= 5,
            s == cards@.map_values(|c: Card| c.0),
            counts@.len() == 14,
            forall|v: int| 1 <= v <= 13 ==> counts@[v] == value_count(s.take(i as int), v),
            counts@[0] == 0,
        decreases 5 - i,
    {
        let v: u8 = (cards[i].0 % 13) + 1;
        proof {
            lemma_value_count_nonneg(s.take(i as int), v as int);
        }
        let cur = counts[v as usize];
        counts.set(v as usize, cur + 1);
        proof {
            assert(s.take(i + 1).drop_last() =~= s.take(i as int));
            assert(s.take(i + 1).last() == s[i as int]);
            assert(spec_card_value(s[i as int]) == v);
            assert forall|w: int| 1 <= w <= 13 implies counts@[w] == value_count(
                s.take(i + 1), w) by {
                lemma_value_count_nonneg(s.take(i as int), w);
            };
        }
        i = i + 1;
    }
    proof {
        assert(s.take(5) =~= s);
    }

    // Flush: all suits equal the first card's suit.
    let suit0 = cards[0].0 / 13;
    let mut is_flush = true;
    let mut f: usize = 0;
    while f < 5
        invariant
            0 <= f <= 5,
            s == cards@.map_values(|c: Card| c.0),
            suit0 == spec_card_suit(s[0]),
            is_flush == flush_upto(s, f as int),
        decreases 5 - f,
    {
        if cards[f].0 / 13 != suit0 {
            is_flush = false;
        }
        proof {
            assert(flush_upto(s, f + 1) == (flush_upto(s, f as int)
                && spec_card_suit(s[f as int]) == spec_card_suit(s[0])));
        }
        f = f + 1;
    }
    proof {
        lemma_flush_upto(s, 5);
        assert(is_flush == spec_is_flush(s));
    }

    // Straight: a run of five consecutive values, or the ace-high straight.
    let mut is_straight = false;
    let mut lo: usize = 1;
    while lo <= 9
        invariant
            1 <= lo <= 10,
            counts@.len() == 14,
            forall|v: int| 1 <= v <= 13 ==> counts@[v] == value_count(s, v),
            is_straight == any_run_upto(s, lo - 1),
        decreases 10 - lo,
    {
        let hit = counts[lo] == 1 && counts[lo + 1] == 1 && counts[lo + 2] == 1
            && counts[lo + 3] == 1 && counts[lo + 4] == 1;
        proof {
            assert(counts@[lo as int] == value_count(s, lo as int));
            assert(counts@[lo + 1] == value_count(s, lo + 1));
            assert(counts@[lo + 2] == value_count(s, lo + 2));
            assert(counts@[lo + 3] == value_count(s, lo + 3));
            assert(counts@[lo + 4] == value_count(s, lo + 4));
            if hit {
                assert forall|v: int| lo <= v < lo + 5 implies #[trigger] value_count(s, v)
                    == 1 by {
                    assert(counts@[v] == value_count(s, v));
                };
                assert(run_at(s, lo as int));
            } else {
                assert(!run_at(s, lo as int));
            }
            assert(any_run_upto(s, lo as int) == (run_at(s, lo as int)
                || any_run_upto(s, lo - 1)));
        }
        if hit {
            is_straight = true;
        }
        lo = lo + 1;
    }
    let royal = counts[1] == 1 && counts[10] == 1 && counts[11] == 1 && counts[12] == 1
        && counts[13] == 1;
    proof {
        assert(royal == spec_is_royal(s));
        lemma_any_run_upto(s, 9);
    }
    if royal {
        is_straight = true;
    }
    proof {
        assert(is_straight == spec_is_straight(s));
    }

    // Multiplicities.
    let mut has_four = false;
    let mut has_three = false;
    let mut pairs: u8 = 0;
    let mut v: usize = 1;
    while v <= 13
        invariant
            1 <= v <= 14,
            counts@.len() == 14,
            forall|w: int| 1 <= w <= 13 ==> counts@[w] == value_count(s, w),
            has_four == (count_hits_upto(s, 4, v - 1) > 0),
            has_three == (count_hits_upto(s, 3, v - 1) > 0),
            pairs == count_hits_upto(s, 2, v - 1),
            0 <= pairs <= v - 1,
        decreases 14 - v,
    {
        let c = counts[v];
        proof {
            assert(value_count(s, v as int) == c);
            lemma_count_hits_exists(s, 4, v - 1);
            lemma_count_hits_exists(s, 3, v - 1);
            lemma_count_hits_exists(s, 2, v - 1);
            assert(count_hits_upto(s, 4, v as int) == count_hits_upto(s, 4, v - 1)
                + if value_count(s, v as int) == 4 { 1int } else { 0int });
            assert(count_hits_upto(s, 3, v as int) == count_hits_upto(s, 3, v - 1)
                + if value_count(s, v as int) == 3 { 1int } else { 0int });
            assert(count_hits_upto(s, 2, v as int) == count_hits_upto(s, 2, v - 1)
                + if value_count(s, v as int) == 2 { 1int } else { 0int });
        }
        if c == 4 {
            has_four = true;
        }
        if c == 3 {
            has_three = true;
        }
        if c == 2 {
            pairs = pairs + 1;
        }
        v = v + 1;
    }
    proof {
        lemma_count_hits_exists(s, 4, 13);
        lemma_count_hits_exists(s, 3, 13);
        lemma_count_hits_exists(s, 2, 13);
        assert(has_four == has_count(s, 4));
        assert(has_three == has_count(s, 3));
        assert((pairs >= 1) == has_count(s, 2));
    }

    // High card.
    let high: u8 = if counts[1] > 0 {
        let wheel = counts[1] == 1 && counts[2] == 1 && counts[3] == 1 && counts[4] == 1
            && counts[5] == 1;
        proof {
            assert(wheel == spec_is_wheel(s));
        }
        if wheel {
            5
        } else {
            14
        }
    } else {
        let mut h: usize = 13;
        while h > 1 && counts[h] == 0
            invariant
                1 <= h <= 13,
                counts@.len() == 14,
                forall|w: int| 1 <= w <= 13 ==> counts@[w] == value_count(s, w),
                max_value_upto(s, 13) == max_value_upto(s, h as int),
            decreases h,
        {
            proof {
                lemma_max_value_skip(s, h as int, h - 1);
            }
            h = h - 1;
        }
        h as u8
    };

    // Rank by the first matching rule.
    let rank: u8 = if is_straight && is_flush {
        9
    } else if has_four {
        8
    } else if has_three && pairs >= 1 {
        7
    } else if is_flush {
        6
    } else if is_straight {
        5
    } else if has_three {
        4
    } else if pairs >= 2 {
        3
    } else if pairs == 1 {
        2
    } else {
        1
    };

    proof {
        lemma_rank5_bounds(s);
        lemma_high5_bounds(s);
        assert(rank == spec_rank5(s));
        assert(high == spec_high5(s));
    }
    (rank, high)
}





/// Lexicographic order on `(rank, high)` scores.
pub open spec fn score_le(a: (int, int), b: (int, int)) -> bool {
    a.0 < b.0 || (a.0 == b.0 && a.1 <= b.1)
}

/// The five cards of `s` that remain when positions `i < j` are removed.
pub open spec fn drop2(s: Seq<u8>, i: int, j: int) -> Seq<u8> {
    s.remove(j).remove(i)
}

/// `p` is the best five-card score among the 21 five-card sub-hands of the
/// seven cards `s`: some sub-hand achieves it and none beats it.
pub open spec fn is_best7(s: Seq<u8>, p: (int, int)) -> bool {
    &&& exists|i: int, j: int| 0 <= i < j < 7 && spec_score5(#[trigger] drop2(s, i, j)) == p
    &&& forall|i: int, j: int| 0 <= i < j < 7 ==> score_le(
        spec_score5(#[trigger] drop2(s, i, j)), p)
}

/// The best five-card score of a seven-card hand.
pub open spec fn spec_score7(s: Seq<u8>) -> (int, int) {
    choose|p: (int, int)| is_best7(s, p)
}

/// The best score is unique: any two scores that both satisfy `is_best7`
/// are equal.
pub proof fn lemma_best7_unique(s: Seq<u8>, p: (int, int), q: (int, int))
    requires
        is_best7(s, p),
        is_best7(s, q),
    ensures
        p == q,
{
    let (i1, j1) = choose|i: int, j: int| 0 <= i < j < 7
        && spec_score5(#[trigger] drop2(s, i, j)) == p;
    let (i2, j2) = choose|i: int, j: int| 0 <= i < j < 7
        && spec_score5(#[trigger] drop2(s, i, j)) == q;
    assert(score_le(p, q));
    assert(score_le(q, p));
}

/// A seven-card hand, kept in strictly increasing id order.
#[derive(Debug, Clone, Copy, Default, PartialEq, Eq, Hash)]
pub struct Hand(pub [Card; 7]);

impl View for Hand {
    type V = Seq<u8>;

    open spec fn view(&self) -> Seq<u8> {
        self.0@.map_values(|c: Card| c.0)
    }
}

/// A well-formed hand: strictly increasing card ids, all valid.
pub open spec fn hand_wf(s: Seq<u8>) -> bool {
    &&& s.len() == 7
    &&& forall|i: int, j: int| 0 <= i < j < 7 ==> s[i] < s[j]
    &&& forall|i: int| 0 <= i < 7 ==> s[i] <= 51
}

impl Hand {
    /// Scores the hand: evaluates all 21 five-card sub-hands and keeps the
    /// lexicographically greatest `(rank, high)`.
    pub fn score(self) -> (e: Entry)
        ensures
            e.hand == self,
            is_best7(self@, (e.rank as int, e.hi as int)),
            (e.rank as int, e.hi as int) == spec_score7(self@),
            1 <= e.rank <= 9,
            1 <= e.hi <= 14,
    {
        let ghost s = self@;

        // All 21 index pairs i < j of positions to leave out.
        let mut pairs: Vec<(usize, usize)> = Vec::new();
        let mut i: usize = 0;
        while i < 7
            invariant
                0 <= i <= 7,
                forall|t: int| 0 <= t < pairs@.len() ==> {
                    let pr = #[trigger] pairs@[t];
                    0 <= pr.0 < pr.1 < 7
                },
                forall|a: usize, b: usize| a < b < 7 && a < i ==> #[trigger] pairs@.contains((a, b)),
            decreases 7 - i,
        {
            let mut j: usize = i + 1;
            while j < 7
                invariant
                    0 <= i < 7,
                    i + 1 <= j <= 7,
                    forall|t: int| 0 <= t < pairs@.len() ==> {
                        let pr = #[trigger] pairs@[t];
                        0 <= pr.0 < pr.1 < 7
                    },
                    forall|a: usize, b: usize| a < b < 7 && a < i ==> #[trigger] pairs@.contains((a, b)),
                    forall|b: usize| i < b < j ==> #[trigger] pairs@.contains((i, b)),
                decreases 7 - j,
            {
                let ghost before = pairs@;
                pairs.push((i, j));
                proof {
                    assert(pairs@ == before.push((i, j)));
                    assert(pairs@[pairs@.len() - 1] == (i, j));
                    assert forall|a: usize, b: usize| a < b < 7 && a < i implies
                        #[trigger] pairs@.contains((a, b)) by {
                        assert(before.contains((a, b)));
                        let t = choose|t: int| 0 <= t < before.len() && before[t] == (a, b);
                        assert(pairs@[t] == (a, b));
                    };
                    assert forall|b: usize| i < b < j + 1 implies #[trigger] pairs@.contains(
                        (i, b)) by {
                        if b < j {
                            assert(before.contains((i, b)));
                            let t = choose|t: int| 0 <= t < before.len() && before[t] == (i, b);
                            assert(pairs@[t] == (i, b));
                        } else {
                            assert(pairs@[pairs@.len() - 1] == (i, b));
                        }
                    };
                }
                j = j + 1;
            }
            i = i + 1;
        }

        // Scan all pairs, keeping the best score seen.
        let mut best_rank: u8 = 0;
        let mut best_hi: u8 = 0;
        let n = pairs.len();
        let mut t: usize = 0;
        while t < n
            invariant
                0 <= t <= n,
                n == pairs@.len(),
                s == self@,
                s.len() == 7,
                forall|q: int| 0 <= q < pairs@.len() ==> {
                    let pr = #[trigger] pairs@[q];
                    0 <= pr.0 < pr.1 < 7
                },
                forall|a: usize, b: usize| a < b < 7 ==> #[trigger] pairs@.contains((a, b)),
                t == 0 ==> best_rank == 0 && best_hi == 0,
                t > 0 ==> exists|e: int| 0 <= e < t && spec_score5(#[trigger] drop2(
                    s, pairs@[e].0 as int, pairs@[e].1 as int))
                    == (best_rank as int, best_hi as int),
                forall|e: int| 0 <= e < t ==> score_le(spec_score5(#[trigger] drop2(
                    s, pairs@[e].0 as int, pairs@[e].1 as int)),
                    (best_rank as int, best_hi as int)),
                t > 0 ==> 1 <= best_rank <= 9 && 1 <= best_hi <= 14,
            decreases n - t,
        {
            let pr = pairs[t];
            let pi = pr.0;
            let pj = pr.1;

            // The five cards that remain when positions pi < pj are removed.
            let mut five: Vec<Card> = Vec::new();
            let mut k: usize = 0;
            while k < 7
                invariant
                    0 <= k <= 7,
                    s == self@,
                    s.len() == 7,
                    0 <= pi < pj < 7,
                    five@.len() == k - (if k > pi { 1int } else { 0int })
                        - (if k > pj { 1int } else { 0int }),
                    forall|q: int| 0 <= q < five@.len() ==> (#[trigger] five@[q]).0
                        == (if q < pi { s[q] } else if q < pj - 1 { s[q + 1] } else { s[q + 2] }),
                decreases 7 - k,
            {
                if k != pi && k != pj {
                    five.push(self.0[k]);
                }
                k = k + 1;
            }
            let arr: [Card; 5] = [five[0], five[1], five[2], five[3], five[4]];
            proof {
                assert(arr@.map_values(|c: Card| c.0) =~= drop2(s, pi as int, pj as int)) by {
                    let d = drop2(s, pi as int, pj as int);
                    assert(s.remove(pj as int).len() == 6);
                    assert(d.len() == 5);
                    assert forall|q: int| 0 <= q < 5 implies arr@.map_values(
                        |c: Card| c.0)[q] == d[q] by {
                        assert(arr@[q] == five@[q]);
                        if q < pi {
                            assert(d[q] == s.remove(pj as int)[q]);
                            assert(d[q] == s[q]);
                        } else if q < pj - 1 {
                            assert(d[q] == s.remove(pj as int)[q + 1]);
                            assert(d[q] == s[q + 1]);
                        } else {
                            assert(d[q] == s.remove(pj as int)[q + 1]);
                            assert(d[q] == s[q + 2]);
                        }
                    };
                };
            }
            let sc = score_five_cards(arr);
            let rank = sc.0;
            let hi = sc.1;
            proof {
                assert((rank as int, hi as int) == spec_score5(drop2(s, pi as int, pj as int)));
            }

            if rank > best_rank || (rank == best_rank && hi > best_hi) {
                best_rank = rank;
                best_hi = hi;
                proof {
                    assert(spec_score5(drop2(s, pairs@[t as int].0 as int,
                        pairs@[t as int].1 as int)) == (best_rank as int, best_hi as int));
                }
            }
            proof {
                assert(score_le(spec_score5(drop2(s, pairs@[t as int].0 as int,
                    pairs@[t as int].1 as int)), (best_rank as int, best_hi as int)));
            }
            t = t + 1;
        }

        proof {
            assert(n > 0) by {
                assert(pairs@.contains((0usize, 1usize)));
            };
            assert(is_best7(s, (best_rank as int, best_hi as int))) by {
                let e = choose|e: int| 0 <= e < n && spec_score5(drop2(
                    s, pairs@[e].0 as int, pairs@[e].1 as int))
                    == (best_rank as int, best_hi as int);
                let wi = pairs@[e].0 as int;
                let wj = pairs@[e].1 as int;
                assert(0 <= wi < wj < 7 && spec_score5(drop2(s, wi, wj))
                    == (best_rank as int, best_hi as int));
                assert forall|a: int, b: int| 0 <= a < b < 7 implies score_le(
                    spec_score5(#[trigger] drop2(s, a, b)),
                    (best_rank as int, best_hi as int)) by {
                    assert(pairs@.contains((a as usize, b as usize)));
                    let q = choose|q: int| 0 <= q < pairs@.len()
                        && pairs@[q] == (a as usize, b as usize);
                    assert(score_le(spec_score5(drop2(s, pairs@[q].0 as int,
                        pairs@[q].1 as int)), (best_rank as int, best_hi as int)));
                };
            };
            lemma_best7_unique(s, (best_rank as int, best_hi as int), spec_score7(s));
        }

        Entry { hand: self, rank: best_rank, hi: best_hi }
    }
}

/// The sequence of card ids `0, 1, .., 6`: the first seven-card combination.
pub open spec fn first_comb() -> Seq<u8> {
    seq![0u8, 1u8, 2u8, 3u8, 4u8, 5u8, 6u8]
}

/// A well-formed enumeration state: seven strictly increasing card ids.
pub open spec fn comb_wf(st: Seq<u8>) -> bool {
    &&& st.len() == 7
    &&& forall|i: int, j: int| 0 <= i < j < 7 ==> st[i] < st[j]
    &&& forall|i: int| 0 <= i < 7 ==> st[i] <= 45 + i
}

/// Position `i` can be incremented without running out of higher card ids.
pub open spec fn can_inc(st: Seq<u8>, i: int) -> bool {
    st[i] < 45 + i
}

/// The rightmost position at or below `i` that can be incremented, or -1.
pub open spec fn inc_pos(st: Seq<u8>, i: int) -> int
    decreases i + 1,
{
    if i < 0 {
        -1
    } else if can_inc(st, i) {
        i
    } else {
        inc_pos(st, i - 1)
    }
}

/// The combination after `st` in the enumeration: the rightmost position
/// that can move is incremented and everything after it is reset to the
/// smallest run above it; `None` when `st` is the last combination.
pub open spec fn spec_next_comb(st: Seq<u8>) -> Option<Seq<u8>> {
    let p = inc_pos(st, 6);
    if p < 0 {
        None
    } else {
        Some(Seq::new(7, |k: int| if k < p {
            st[k]
        } else {
            (st[p] + 1 + (k - p)) as u8
        }))
    }
}

proof fn lemma_inc_pos_none(st: Seq<u8>, i: int)
    requires
        i < 7,
        forall|k: int| 0 <= k <= i ==> !can_inc(st, #[trigger] (k + 0)),
    ensures
        inc_pos(st, i) == -1,
    decreases i + 1,
{
    if i >= 0 {
        assert(!can_inc(st, i + 0));
        lemma_inc_pos_none(st, i - 1);
    }
}

proof fn lemma_inc_pos_found(st: Seq<u8>, i: int, p: int)
    requires
        0 <= p <= i < 7,
        can_inc(st, p),
        forall|k: int| p < k <= i ==> !can_inc(st, #[trigger] (k + 0)),
    ensures
        inc_pos(st, i) == p,
    decreases i,
{
    if i > p {
        assert(!can_inc(st, i + 0));
        lemma_inc_pos_found(st, i - 1, p);
    }
}

/// Enumerates all seven-card combinations of the 52 cards, in order.
pub struct Hands {
    state: Option<[u8; 7]>,
}

impl Hands {
    /// The enumeration state, as a sequence of card ids.
    pub closed spec fn state_spec(&self) -> Option<Seq<u8>> {
        match self.state {
            Option::None => Option::None,
            Option::Some(a) => Option::Some(a@),
        }
    }

    /// The state is either exhausted or a well-formed combination.
    pub open spec fn wf(&self) -> bool {
        match self.state_spec() {
            Option::None => true,
            Option::Some(st) => comb_wf(st),
        }
    }

    /// Starts at the first combination `0..6`.
    pub fn new() -> (r: Hands)
        ensures
            r.wf(),
            r.state_spec() == Option::Some(first_comb()),
    {
        let r = Hands { state: Some([0, 1, 2, 3, 4, 5, 6]) };
        proof {
            assert(r.state_spec().unwrap() =~= first_comb());
        }
        r
    }

    /// Returns the current combination as a hand and steps the state to its
    /// successor; `None` once the enumeration is exhausted.
    pub fn next_hand(&mut self) -> (r: Option<Hand>)
        requires
            old(self).wf(),
        ensures
            final(self).wf(),
            match old(self).state_spec() {
                Option::None => r.is_none() && final(self).state_spec().is_none(),
                Option::Some(st) => {
                    &&& r.is_some()
                    &&& r.unwrap()@ == st
                    &&& hand_wf(st)
                    &&& final(self).state_spec() == spec_next_comb(st)
                },
            },
    {
        let cur = match self.state {
            None => {
                return None;
            }
            Some(c) => c,
        };
        let ghost st = cur@;
        let hand = Hand([
            Card(cur[0]),
            Card(cur[1]),
            Card(cur[2]),
            Card(cur[3]),
            Card(cur[4]),
            Card(cur[5]),
            Card(cur[6]),
        ]);
        proof {
            assert(hand@ =~= st);
            assert(hand_wf(st));
        }

        // Rightmost position that can be incremented (7 = none).
        let mut pos: usize = 7;
        let mut i: usize = 7;
        while i > 0
            invariant
                0 <= i <= 7,
                pos <= 7,
                st == cur@,
                comb_wf(st),
                pos == 7 ==> forall|k: int| i <= k < 7 ==> !can_inc(st, #[trigger] (k + 0)),
                pos < 7 ==> i <= pos && can_inc(st, pos as int)
                    && forall|k: int| pos < k < 7 ==> !can_inc(st, #[trigger] (k + 0)),
            decreases i,
        {
            i = i - 1;
            if pos == 7 && cur[i] < 45 + (i as u8) {
                pos = i;
                proof {
                    assert(can_inc(st, pos as int));
                }
            }
            proof {
                if pos == 7 {
                    assert(!can_inc(st, i + 0));
                }
            }
        }

        if pos == 7 {
            proof {
                lemma_inc_pos_none(st, 6);
            }
            self.state = None;
            Some(hand)
        } else {
            proof {
                lemma_inc_pos_found(st, 6, pos as int);
            }
            let base = cur[pos];
            let mut nv: Vec<u8> = Vec::new();
            let mut k: usize = 0;
            while k < 7
                invariant
                    0 <= k <= 7,
                    st == cur@,
                    comb_wf(st),
                    pos < 7,
                    can_inc(st, pos as int),
                    base == st[pos as int],
                    nv@.len() == k,
                    forall|q: int| 0 <= q < k ==> nv@[q] == (if q < pos {
                        st[q]
                    } else {
                        (st[pos as int] + 1 + (q - pos)) as u8
                    }),
                decreases 7 - k,
            {
                if k < pos {
                    nv.push(cur[k]);
                } else {
                    nv.push(base + 1 + ((k - pos) as u8));
                }
                k = k + 1;
            }
            let next = [nv[0], nv[1], nv[2], nv[3], nv[4], nv[5], nv[6]];
            self.state = Some(next);
            proof {
                let ns = self.state_spec().unwrap();
                assert(ns =~= spec_next_comb(st).unwrap());
                assert(comb_wf(ns)) by {
                    assert forall|a: int, b: int| 0 <= a < b < 7 implies ns[a] < ns[b] by {
                        if a >= pos {
                            assert(ns[a] == st[pos as int] + 1 + (a - pos));
                        } else if b >= pos {
                            assert(st[a] < st[pos as int] || a == pos);
                        }
                    };
                    assert forall|a: int| 0 <= a < 7 implies ns[a] <= 45 + a by {
                        if a >= pos {
                            assert(st[pos as int] < 45 + pos);
                        }
                    };
                };
            }
            Some(hand)
        }
    }
}

/// An enumerator over all seven-card hands, starting from the first.
pub fn all_hands() -> (r: Hands)
    ensures
        r.wf(),
        r.state_spec() == Option::Some(first_comb()),
{
    Hands::new()
}

/// The number of ways to choose `k` items from `n`: Pascal's rule.
pub open spec fn spec_choose(n: nat, k: nat) -> nat
    decreases n, k,
{
    if k == 0 {
        1
    } else if k > n {
        0
    } else {
        spec_choose((n - 1) as nat, (k - 1) as nat) + spec_choose((n - 1) as nat, k)
    }
}

proof fn lemma_choose_le_pow2(n: nat, k: nat)
    ensures
        spec_choose(n, k) <= vstd::arithmetic::power2::pow2(n),
    decreases n, k,
{
    vstd::arithmetic::power2::lemma_pow2_pos(n);
    if k == 0 {
    } else if k > n {
    } else {
        lemma_choose_le_pow2((n - 1) as nat, (k - 1) as nat);
        lemma_choose_le_pow2((n - 1) as nat, k);
        vstd::arithmetic::power2::lemma_pow2_unfold(n);
    }
}

/// The absorption identity `(k+1) * C(n, k+1) == (n-k) * C(n, k)`.
proof fn lemma_choose_absorb(n: nat, k: nat)
    requires
        k < n,
    ensures
        (k + 1) * spec_choose(n, (k + 1) as nat) == (n - k) * spec_choose(n, k),
    decreases n,
{
    if k == 0 {
        lemma_choose_first(n);
        let x = spec_choose(n, (k + 1) as nat);
        let y = spec_choose(n, k);
        assert(x == n && y == 1);
        assert((k + 1) * x == (n - k) * y) by (nonlinear_arith)
            requires
                k == 0,
                x == n,
                y == 1,
        {
        }
    } else {
        let m = (n - 1) as nat;
        let a = spec_choose(m, (k - 1) as nat);
        let b = spec_choose(m, k);
        let c = spec_choose(m, (k + 1) as nat);
        if k < m {
            lemma_choose_absorb(m, k);
            assert((k + 1) * c == (m - k) * b);
        } else {
            assert(c == 0);
            assert((k + 1) * c == (m - k) * b) by (nonlinear_arith)
                requires
                    c == 0,
                    k == m,
            {
            }
        }
        lemma_choose_absorb(m, (k - 1) as nat);
        assert(k * b == (m - (k - 1)) * a);
        assert(spec_choose(n, (k + 1) as nat) == b + c);
        assert(spec_choose(n, k) == a + b);
        assert((k + 1) * (b + c) == (n - k) * (a + b)) by (nonlinear_arith)
            requires
                (k + 1) * c == (m - k) * b,
                k * b == (m - (k - 1)) * a,
                n == m + 1,
                1 <= k <= m,
                a >= 0,
                b >= 0,
                c >= 0,
        {
        }
    }
}

proof fn lemma_choose_first(n: nat)
    requires
        n >= 1,
    ensures
        spec_choose(n, 1) == n,
    decreases n,
{
    assert(spec_choose(n, 1) == spec_choose((n - 1) as nat, 0) + spec_choose((n - 1) as nat, 1));
    if n > 1 {
        lemma_choose_first((n - 1) as nat);
    } else {
        assert(spec_choose(0nat, 1nat) == 0);
    }
}

/// Binomial coefficient `C(n, k)`, by the usual running product; exact for
/// every `n` up to the deck size.
pub fn binomial(n: usize, k: usize) -> (r: usize)
    requires
        n <= 52,
        spec_choose(n as nat, k as nat) <= usize::MAX,
    ensures
        r == spec_choose(n as nat, k as nat),
{
    if k > n {
        return 0;
    }
    if k == 0 {
        return 1;
    }

    let mut result: u64 = 1;
    let mut i: usize = 0;
    while i < k
        invariant
            0 <= i <= k <= n <= 52,
            result == spec_choose(n as nat, i as nat),
        decreases k - i,
    {
        proof {
            lemma_choose_le_pow2(n as nat, i as nat);
            vstd::arithmetic::power2::lemma_pow2_adds(n as nat, (52 - n) as nat);
            vstd::arithmetic::power2::lemma_pow2_pos((52 - n) as nat);
            vstd::arithmetic::power2::lemma_pow2_pos(n as nat);
            vstd::arithmetic::power2::lemma2_to64_rest();
            assert(vstd::arithmetic::power2::pow2(n as nat)
                <= vstd::arithmetic::power2::pow2(52)) by (nonlinear_arith)
                requires
                    vstd::arithmetic::power2::pow2(52) == vstd::arithmetic::power2::pow2(
                        n as nat) * vstd::arithmetic::power2::pow2((52 - n) as nat),
                    vstd::arithmetic::power2::pow2((52 - n) as nat) >= 1,
                    vstd::arithmetic::power2::pow2(n as nat) >= 1,
            {
            }
            vstd::arithmetic::power2::lemma2_to64();
            assert(result <= 0x10000000000000);
            lemma_choose_absorb(n as nat, i as nat);
        }
        proof {
            vstd::arithmetic::mul::lemma_mul_upper_bound(
                result as int, 0x10000000000000, (n - i) as int, 52);
        }
        let next = result * ((n - i) as u64) / ((i + 1) as u64);
        proof {
            let rr = result as int;
            let ni = (n - i) as int;
            let i1 = (i + 1) as int;
            let q = spec_choose(n as nat, (i + 1) as nat) as int;
            assert(rr * ni == i1 * q);
            assert((i1 * q) / i1 == q) by (nonlinear_arith)
                requires
                    i1 >= 1,
                    q >= 0,
            {
            }
            lemma_choose_le_pow2(n as nat, (i + 1) as nat);
            assert(q <= 0x10000000000000) by {
                vstd::arithmetic::power2::lemma2_to64_rest();
                assert(spec_choose(n as nat, (i + 1) as nat)
                    <= vstd::arithmetic::power2::pow2(n as nat));
            };
        }
        result = next;
        i = i + 1;
    }
    proof {
        lemma_choose_le_pow2(n as nat, k as nat);
        vstd::arithmetic::power2::lemma_pow2_adds(n as nat, (52 - n) as nat);
        vstd::arithmetic::power2::lemma_pow2_pos((52 - n) as nat);
        vstd::arithmetic::power2::lemma_pow2_pos(n as nat);
        vstd::arithmetic::power2::lemma2_to64_rest();
        assert(vstd::arithmetic::power2::pow2(n as nat)
            <= vstd::arithmetic::power2::pow2(52)) by (nonlinear_arith)
            requires
                vstd::arithmetic::power2::pow2(52) == vstd::arithmetic::power2::pow2(
                    n as nat) * vstd::arithmetic::power2::pow2((52 - n) as nat),
                vstd::arithmetic::power2::pow2((52 - n) as nat) >= 1,
                vstd::arithmetic::power2::pow2(n as nat) >= 1,
        {
        }
    }
    result as usize
}



/// The larger of two scores.
pub open spec fn score_max2(a: (int, int), b: (int, int)) -> (int, int) {
    if score_le(a, b) {
        b
    } else {
        a
    }
}

/// Whether the pair `(a, b)` comes at or after `(i, j)` in the pair order.
pub open spec fn pair_ge(a: int, b: int, i: int, j: int) -> bool {
    a > i || (a == i && b >= j)
}

/// The best five-card score over the pairs from `(i, j)` onward.
pub open spec fn best_from(s: Seq<u8>, i: int, j: int) -> (int, int)
    decreases 6 - i, 7 - j,
{
    if i < 0 || j <= i || j > 6 || i > 5 {
        (1, 1)
    } else {
        let cur = spec_score5(drop2(s, i, j));
        if j < 6 {
            score_max2(cur, best_from(s, i, j + 1))
        } else if i < 5 {
            score_max2(cur, best_from(s, i + 1, i + 2))
        } else {
            cur
        }
    }
}

proof fn lemma_best_from(s: Seq<u8>, i: int, j: int)
    requires
        s.len() == 7,
        0 <= i < j < 7,
    ensures
        exists|a: int, b: int| 0 <= a < b < 7 && pair_ge(a, b, i, j)
            && spec_score5(#[trigger] drop2(s, a, b)) == best_from(s, i, j),
        forall|a: int, b: int| 0 <= a < b < 7 && pair_ge(a, b, i, j) ==> score_le(
            spec_score5(#[trigger] drop2(s, a, b)), best_from(s, i, j)),
    decreases 6 - i, 7 - j,
{
    let m = best_from(s, i, j);
    let cur = spec_score5(drop2(s, i, j));
    if j < 6 {
        lemma_best_from(s, i, j + 1);
        let rest = best_from(s, i, j + 1);
        assert(m == score_max2(cur, rest));
        if score_le(cur, rest) {
            let (a, b) = choose|a: int, b: int| 0 <= a < b < 7 && pair_ge(a, b, i, j + 1)
                && spec_score5(#[trigger] drop2(s, a, b)) == rest;
            assert(pair_ge(a, b, i, j));
        } else {
            assert(spec_score5(drop2(s, i, j)) == m);
        }
        assert forall|a: int, b: int| 0 <= a < b < 7 && pair_ge(a, b, i, j) implies score_le(
            spec_score5(#[trigger] drop2(s, a, b)), m) by {
            if a == i && b == j {
            } else {
                assert(pair_ge(a, b, i, j + 1));
                assert(score_le(spec_score5(drop2(s, a, b)), rest));
            }
        };
    } else if i < 5 {
        lemma_best_from(s, i + 1, i + 2);
        let rest = best_from(s, i + 1, i + 2);
        assert(m == score_max2(cur, rest));
        if score_le(cur, rest) {
            let (a, b) = choose|a: int, b: int| 0 <= a < b < 7 && pair_ge(a, b, i + 1, i + 2)
                && spec_score5(#[trigger] drop2(s, a, b)) == rest;
            assert(pair_ge(a, b, i, j));
        } else {
            assert(spec_score5(drop2(s, i, j)) == m);
        }
        assert forall|a: int, b: int| 0 <= a < b < 7 && pair_ge(a, b, i, j) implies score_le(
            spec_score5(#[trigger] drop2(s, a, b)), m) by {
            if a == i && b == j {
            } else {
                assert(a > i);
                assert(pair_ge(a, b, i + 1, i + 2));
                assert(score_le(spec_score5(drop2(s, a, b)), rest));
            }
        };
    } else {
        assert(i == 5 && j == 6);
        assert(m == cur);
        assert forall|a: int, b: int| 0 <= a < b < 7 && pair_ge(a, b, i, j) implies score_le(
            spec_score5(#[trigger] drop2(s, a, b)), m) by {
            assert(a == 5 && b == 6);
        };
    }
}

/// Every seven-card sequence has a best five-card score, and it lies in
/// the rank range 1..9 and high range 1..14.
pub proof fn lemma_best7_exists(s: Seq<u8>)
    requires
        s.len() == 7,
    ensures
        is_best7(s, spec_score7(s)),
        1 <= spec_score7(s).0 <= 9,
        1 <= spec_score7(s).1 <= 14,
{
    assert forall|i: int, j: int| 0 <= i < j < 7 implies
        1 <= (#[trigger] spec_score5(drop2(s, i, j))).0 <= 9
        && 1 <= spec_score5(drop2(s, i, j)).1 <= 14 by {
        lemma_rank5_bounds(drop2(s, i, j));
        lemma_high5_bounds(drop2(s, i, j));
    };
    lemma_best_from(s, 0, 1);
    let m = best_from(s, 0, 1);
    assert(is_best7(s, m)) by {
        assert forall|a: int, b: int| 0 <= a < b < 7 implies score_le(
            spec_score5(#[trigger] drop2(s, a, b)), m) by {
            assert(pair_ge(a, b, 0, 1));
        };
    };
    lemma_best7_unique(s, m, spec_score7(s));
}
} // verus!
