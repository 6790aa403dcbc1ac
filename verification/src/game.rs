//! The deal oracle: cut the deck, deal a Texas Hold'em round, score every
//! player's seven cards through the evaluator table, and count the cuts at
//! which the dealer (player 0) wins.

use vstd::prelude::*;
use vstd::pervasive::VecAdditionalExecFns;
use vstd::relations::sorted_by;
use crate::cards::Card;
use crate::deck::{Deck, valid_deck, lemma_valid_deck_no_duplicates};
use crate::hands::{Hand, hand_wf, spec_score7, score_le};
use crate::precompute::{ScoreTable, TableEntry};

verus! {

/// The id order on cards, used to keep hands sorted.
pub open spec fn u8_le() -> spec_fn(u8, u8) -> bool {
    |a: u8, b: u8| a <= b
}

/// A sequence of card ids in ascending order.
pub open spec fn spec_sorted_ids(q: Seq<u8>) -> Seq<u8> {
    q.sort_by(u8_le())
}

/// The deck rotated by `k`: position `i` holds `d[(i + k) mod 52]`.
pub open spec fn spec_cut(d: Seq<u8>, k: int) -> Seq<u8> {
    d.subrange(k, 52) + d.subrange(0, k)
}

/// The two hole cards of player `p` when `n` players are dealt from the
/// end of `d`: one card per pass, in seat order.
pub open spec fn spec_hole(d: Seq<u8>, n: int, p: int) -> Seq<u8> {
    seq![d[51 - p], d[51 - n - p]]
}

/// The five community cards: flop, turn and river, with a burn before
/// each group.
pub open spec fn spec_community(d: Seq<u8>, n: int) -> Seq<u8> {
    seq![d[50 - 2 * n], d[49 - 2 * n], d[48 - 2 * n], d[46 - 2 * n], d[44 - 2 * n]]
}

/// The seven cards available to player `p`: hole cards then community.
pub open spec fn spec_dealt_hand(d: Seq<u8>, n: int, p: int) -> Seq<u8> {
    spec_hole(d, n, p) + spec_community(d, n)
}

/// Player `p`'s score: the seven cards, sorted, evaluated.
pub open spec fn spec_player_score(d: Seq<u8>, n: int, p: int) -> (int, int) {
    spec_score7(spec_sorted_ids(spec_dealt_hand(d, n, p)))
}

/// The dealer wins the round when no other player's score beats player
/// 0's; ties go to the dealer.
pub open spec fn spec_dealer_wins(d: Seq<u8>, n: int) -> bool {
    forall|p: int| 1 <= p < n ==> score_le(
        #[trigger] spec_player_score(d, n, p), spec_player_score(d, n, 0))
}

/// How many cut positions in `[lo, hi)` give the dealer the round.
pub open spec fn spec_wins_in(d: Seq<u8>, n: int, lo: int, hi: int) -> int
    decreases hi - lo,
{
    if lo >= hi {
        0
    } else {
        spec_wins_in(d, n, lo, hi - 1) + if spec_dealer_wins(spec_cut(d, hi - 1), n) {
            1int
        } else {
            0int
        }
    }
}

/// No cut range yields more wins than it has positions: the win count
/// over `[lo, hi)` is at most `hi - lo`, so no deck wins more than 52.
pub proof fn lemma_wins_in_bounds(d: Seq<u8>, n: int, lo: int, hi: int)
    requires
        lo <= hi,
    ensures
        0 <= spec_wins_in(d, n, lo, hi) <= hi - lo,
    decreases hi - lo,
{
    if lo < hi {
        lemma_wins_in_bounds(d, n, lo, hi - 1);
    }
}

/// A player's private cards.
#[derive(Debug, Clone, Copy, Default)]
pub struct Player(pub [Card; 2]);

impl View for Player {
    type V = Seq<u8>;

    open spec fn view(&self) -> Seq<u8> {
        self.0@.map_values(|c: Card| c.0)
    }
}

/// The shared community cards.
#[derive(Debug, Clone, Default)]
pub struct Common(pub [Card; 5]);

impl View for Common {
    type V = Seq<u8>;

    open spec fn view(&self) -> Seq<u8> {
        self.0@.map_values(|c: Card| c.0)
    }
}

/// One dealt round: every player's hole cards, the community cards, and
/// the undealt remainder of the deck.
pub struct Game {
    pub players: Vec<Player>,
    pub common: Common,
    pub rest: Deck,
}

impl Game {
    /// The dealer wins when no other player's score strictly beats player
    /// 0's.
    pub open spec fn spec_dealer_wins_game(self) -> bool {
        forall|p: int| 1 <= p < self.players@.len() ==> score_le(
            #[trigger] spec_score7(spec_sorted_ids(self.hand_of(p))),
            spec_score7(spec_sorted_ids(self.hand_of(0))))
    }

    /// The seven cards available to player `p`.
    pub open spec fn hand_of(self, p: int) -> Seq<u8> {
        self.players@[p]@ + self.common@
    }

    /// Every player sees seven distinct, valid cards.
    pub open spec fn wf(self) -> bool {
        &&& 1 <= self.players@.len() <= 22
        &&& forall|p: int| 0 <= p < self.players@.len() ==> {
            &&& (#[trigger] self.hand_of(p)).no_duplicates()
            &&& forall|i: int| 0 <= i < 7 ==> self.hand_of(p)[i] <= 51
        }
    }

    /// Builds player `p`'s seven-card hand in sorted order and looks its
    /// score up in the table.
    pub fn players_score(&self, idx: usize, table: &ScoreTable) -> (r: TableEntry)
        requires
            self.wf(),
            idx < self.players@.len(),
            table.complete(),
        ensures
            (r.rank as int, r.hi as int) == spec_score7(spec_sorted_ids(
                self.hand_of(idx as int))),
    {
        let ghost q = self.hand_of(idx as int);
        let p = &self.players[idx];
        let mut cards: Vec<Card> = Vec::new();
        cards.push(p.0[0]);
        cards.push(p.0[1]);
        cards.push(self.common.0[0]);
        cards.push(self.common.0[1]);
        cards.push(self.common.0[2]);
        cards.push(self.common.0[3]);
        cards.push(self.common.0[4]);
        proof {
            assert(cards@.map_values(|c: Card| c.0) =~= q);
        }
        sort_cards(&mut cards);
        let ghost sq = cards@.map_values(|c: Card| c.0);
        proof {
            lemma_u8_le_total();
            q.lemma_sort_by_ensures(u8_le());
            vstd::seq_lib::lemma_sorted_unique(sq, spec_sorted_ids(q), u8_le());
            assert(sq == spec_sorted_ids(q));
            // Strictly increasing: sorted and duplicate-free.
            broadcast use vstd::seq_lib::group_to_multiset_ensures;
            q.lemma_multiset_has_no_duplicates();
            sq.lemma_multiset_has_no_duplicates_conv();
            assert(hand_wf(sq)) by {
                assert forall|i: int, j: int| 0 <= i < j < 7 implies sq[i] < sq[j] by {
                    assert(u8_le()(sq[i], sq[j]));
                };
                assert forall|i: int| 0 <= i < 7 implies sq[i] <= 51 by {
                    assert(sq.to_multiset().count(sq[i]) > 0);
                    assert(q.to_multiset().count(sq[i]) > 0);
                    assert(q.contains(sq[i]));
                    let w = choose|w: int| 0 <= w < 7 && q[w] == sq[i];
                    assert(q[w] <= 51);
                };
            };
        }
        let hand = Hand([cards[0], cards[1], cards[2], cards[3], cards[4], cards[5], cards[6]]);
        proof {
            assert(hand@ =~= sq);
        }
        table.score(&hand)
    }

    /// The index of the round's winner: the first player whose score no
    /// other player strictly beats.
    pub fn winning_player(&self, table: &ScoreTable) -> (r: usize)
        requires
            self.wf(),
            table.complete(),
        ensures
            r < self.players@.len(),
            forall|p: int| 0 <= p < self.players@.len() ==> score_le(
                #[trigger] spec_score7(spec_sorted_ids(self.hand_of(p))),
                spec_score7(spec_sorted_ids(self.hand_of(r as int)))),
            forall|p: int| 0 <= p < r ==> !score_le(
                spec_score7(spec_sorted_ids(self.hand_of(r as int))),
                #[trigger] spec_score7(spec_sorted_ids(self.hand_of(p)))),
    {
        let n = self.players.len();
        let mut winner: usize = 0;
        let mut best = self.players_score(0, table);
        let mut p: usize = 1;
        while p < n
            invariant
                1 <= p <= n,
                n == self.players@.len(),
                self.wf(),
                table.complete(),
                winner < p,
                (best.rank as int, best.hi as int) == spec_score7(spec_sorted_ids(
                    self.hand_of(winner as int))),
                forall|q: int| 0 <= q < p ==> score_le(
                    #[trigger] spec_score7(spec_sorted_ids(self.hand_of(q))),
                    spec_score7(spec_sorted_ids(self.hand_of(winner as int)))),
                forall|q: int| 0 <= q < winner ==> !score_le(
                    spec_score7(spec_sorted_ids(self.hand_of(winner as int))),
                    #[trigger] spec_score7(spec_sorted_ids(self.hand_of(q)))),
            decreases n - p,
        {
            let s = self.players_score(p, table);
            if s.rank > best.rank || (s.rank == best.rank && s.hi > best.hi) {
                winner = p;
                best = s;
            }
            p = p + 1;
        }
        winner
    }

    /// The dealer (player 0) wins when the round's winner is player 0.
    pub fn dealer_wins(&self, table: &ScoreTable) -> (r: bool)
        requires
            self.wf(),
            table.complete(),
        ensures
            r == self.spec_dealer_wins_game(),
    {
        let w = self.winning_player(table);
        if w == 0 {
            true
        } else {
            proof {
                assert(!score_le(
                    spec_score7(spec_sorted_ids(self.hand_of(w as int))),
                    spec_score7(spec_sorted_ids(self.hand_of(0)))));
            }
            false
        }
    }
}

proof fn lemma_u8_le_total()
    ensures
        vstd::relations::total_ordering(u8_le()),
{
    let leq = u8_le();
    assert(vstd::relations::connected(leq)) by {
        assert forall|x: u8, y: u8| #[trigger] leq(x, y) || #[trigger] leq(y, x) by {};
    };
    assert(vstd::relations::transitive(leq)) by {
        assert forall|x: u8, y: u8, z: u8| #[trigger] leq(x, y) && #[trigger] leq(y, z)
            implies leq(x, z) by {};
    };
}

/// Sorts the cards ascending by id (selection sort); the multiset of ids
/// is unchanged.
fn sort_cards(v: &mut Vec<Card>)
    ensures
        final(v)@.len() == old(v)@.len(),
        final(v)@.map_values(|c: Card| c.0).to_multiset()
            == old(v)@.map_values(|c: Card| c.0).to_multiset(),
        sorted_by(final(v)@.map_values(|c: Card| c.0), u8_le()),
{
    let n = v.len();
    let ghost orig = v@.map_values(|c: Card| c.0);
    let mut i: usize = 0;
    while i < n
        invariant
            0 <= i <= n,
            v@.len() == n,
            v@.map_values(|c: Card| c.0).to_multiset() == orig.to_multiset(),
            forall|a: int, b: int| 0 <= a < b < i ==> (#[trigger] v@[a]).0 <= (#[trigger] v@[b]).0,
            forall|a: int, b: int| 0 <= a < i <= b < n ==> (#[trigger] v@[a]).0 <= (#[trigger] v@[b]).0,
        decreases n - i,
    {
        let mut min_idx: usize = i;
        let mut j: usize = i + 1;
        while j < n
            invariant
                0 <= i <= min_idx < j <= n,
                v@.len() == n,
                forall|k: int| i <= k < j ==> v@[min_idx as int].0 <= #[trigger] v@[k].0,
            decreases n - j,
        {
            if v[j].0 < v[min_idx].0 {
                min_idx = j;
            }
            j = j + 1;
        }
        let ghost before = v@.map_values(|c: Card| c.0);
        let a = v[i];
        let b = v[min_idx];
        v.set(i, b);
        v.set(min_idx, a);
        proof {
            let after = v@.map_values(|c: Card| c.0);
            assert(after =~= before.update(i as int, before[min_idx as int]).update(
                min_idx as int, before[i as int]));
            crate::deck::lemma_swap_seq_multiset(before, i as int, min_idx as int);
        }
        i = i + 1;
    }
    proof {
        let sq = v@.map_values(|c: Card| c.0);
        assert(sorted_by(sq, u8_le())) by {
            assert forall|a: int, b: int| 0 <= a < b < sq.len() implies #[trigger] u8_le()(
                sq[a], sq[b]) by {
                assert(v@[a].0 <= v@[b].0);
            };
        };
    }
}


/// Deals one Hold'em round from the top of the deck (the end of the
/// sequence): two hole-card passes in seat order, then burn, flop (three
/// cards), burn, turn, burn, river.  Exactly `2n + 8` cards are consumed;
/// the rest stays in the draw pile.
pub fn deal_a_round(num_players: usize, deck: Deck) -> (g: Game)
    requires
        valid_deck(deck@),
        2 <= num_players <= 22,
    ensures
        g.players@.len() == num_players,
        g.wf(),
        forall|p: int| 0 <= p < num_players ==> #[trigger] g.hand_of(p)
            == spec_dealt_hand(deck@, num_players as int, p),
        g.common@ == spec_community(deck@, num_players as int),
        g.rest@ == deck@.take(52 - (2 * num_players + 8)),
    {
    let ghost d = deck@;
    let n = num_players;
    let mut dk = deck;

    // Two passes of hole cards.
    let mut drawn: Vec<Card> = Vec::new();
    let mut t: usize = 0;
    while t < 2 * n
        invariant
            0 <= t <= 2 * n,
            2 <= n <= 22,
            d.len() == 52,
            dk@ == d.take(52 - t),
            drawn@.len() == t,
            forall|k: int| 0 <= k < t ==> (#[trigger] drawn@[k]).0 == d[51 - k],
        decreases 2 * n - t,
    {
        let c = dk.draw();
        proof {
            assert(d.take(52 - t).last() == d[51 - t]);
            assert(d.take(52 - t).drop_last() =~= d.take(52 - (t + 1)));
        }
        drawn.push(c);
        t = t + 1;
    }

    let mut players: Vec<Player> = Vec::new();
    let mut p: usize = 0;
    while p < n
        invariant
            0 <= p <= n,
            2 <= n <= 22,
            d.len() == 52,
            drawn@.len() == 2 * n,
            forall|k: int| 0 <= k < 2 * n ==> (#[trigger] drawn@[k]).0 == d[51 - k],
            players@.len() == p,
            forall|q: int| 0 <= q < p ==> (#[trigger] players@[q])@
                == spec_hole(d, n as int, q),
        decreases n - p,
    {
        let pl = Player([drawn[p], drawn[n + p]]);
        proof {
            assert(pl@ =~= spec_hole(d, n as int, p as int));
        }
        players.push(pl);
        p = p + 1;
    }

    // Burn, flop, burn, turn, burn, river.
    let ghost base = 52 - 2 * (n as int);
    proof {
        assert(dk@ == d.take(base));
    }
    let _burn = dk.draw();
    proof {
        assert(d.take(base).last() == d[base - 1]);
        assert(d.take(base).drop_last() =~= d.take(base - 1));
    }
    let c0 = dk.draw();
    proof {
        assert(d.take(base - 1).last() == d[base - 2]);
        assert(d.take(base - 1).drop_last() =~= d.take(base - 2));
    }
    let c1 = dk.draw();
    proof {
        assert(d.take(base - 2).last() == d[base - 3]);
        assert(d.take(base - 2).drop_last() =~= d.take(base - 3));
    }
    let c2 = dk.draw();
    proof {
        assert(d.take(base - 3).last() == d[base - 4]);
        assert(d.take(base - 3).drop_last() =~= d.take(base - 4));
    }
    let _burn2 = dk.draw();
    proof {
        assert(d.take(base - 4).last() == d[base - 5]);
        assert(d.take(base - 4).drop_last() =~= d.take(base - 5));
    }
    let c3 = dk.draw();
    proof {
        assert(d.take(base - 5).last() == d[base - 6]);
        assert(d.take(base - 5).drop_last() =~= d.take(base - 6));
    }
    let _burn3 = dk.draw();
    proof {
        assert(d.take(base - 6).last() == d[base - 7]);
        assert(d.take(base - 6).drop_last() =~= d.take(base - 7));
    }
    let c4 = dk.draw();
    proof {
        assert(d.take(base - 7).last() == d[base - 8]);
        assert(d.take(base - 7).drop_last() =~= d.take(base - 8));
    }

    let common = Common([c0, c1, c2, c3, c4]);
    let g = Game { players, common, rest: dk };
    proof {
        let ni = n as int;
        assert(g.common@ =~= spec_community(d, ni));
        assert forall|q: int| 0 <= q < ni implies #[trigger] g.hand_of(q)
            == spec_dealt_hand(d, ni, q) by {
            assert(g.hand_of(q) =~= spec_hole(d, ni, q) + spec_community(d, ni));
        };
        lemma_valid_deck_no_duplicates(d);
        assert forall|q: int| 0 <= q < ni implies (#[trigger] g.hand_of(q)).no_duplicates()
            && (forall|i: int| 0 <= i < 7 ==> g.hand_of(q)[i] <= 51) by {
            let h = g.hand_of(q);
            let idxs = seq![51 - q, 51 - ni - q, 50 - 2 * ni, 49 - 2 * ni, 48 - 2 * ni,
                46 - 2 * ni, 44 - 2 * ni];
            assert forall|i: int| 0 <= i < 7 implies h[i] == d[idxs[i]] by {};
            assert forall|i: int, j: int| 0 <= i < j < 7 implies h[i] != h[j] by {
                assert(idxs[i] != idxs[j]);
                assert(0 <= idxs[i] < 52 && 0 <= idxs[j] < 52);
                assert(d[idxs[i]] != d[idxs[j]]);
            };
            assert forall|i: int| 0 <= i < 7 implies h[i] <= 51 by {
                assert(0 <= idxs[i] < 52);
                assert(d[idxs[i]] < 52);
            };
            assert(h.no_duplicates());
        };
        assert(g.rest@ == d.take(52 - (2 * ni + 8)));
    }
    g
}

/// The number of cuts a perfect deck must win: 52, or 42 when the cut
/// range is restricted to realistic positions.
pub fn max_wins(realistic: bool) -> (r: usize)
    ensures
        r == if realistic { 42int } else { 52int },
{
    if realistic {
        52 - 10
    } else {
        52
    }
}

/// Deals a round from the given (already cut) deck and reports whether
/// the dealer wins it.
pub fn dealer_wins_game(num_players: usize, deck: Deck, table: &ScoreTable) -> (r: bool)
    requires
        valid_deck(deck@),
        2 <= num_players <= 22,
        table.complete(),
    ensures
        r == spec_dealer_wins(deck@, num_players as int),
{
    let ghost d = deck@;
    let ghost ni = num_players as int;
    let g = deal_a_round(num_players, deck);
    let r = g.dealer_wins(table);
    proof {
        assert forall|p: int| 0 <= p < ni implies spec_player_score(d, ni, p)
            == spec_score7(spec_sorted_ids(#[trigger] g.hand_of(p))) by {
            assert(g.hand_of(p) == spec_dealt_hand(d, ni, p));
        };
        if g.spec_dealer_wins_game() {
            assert forall|p: int| 1 <= p < ni implies score_le(
                #[trigger] spec_player_score(d, ni, p), spec_player_score(d, ni, 0)) by {
                assert(score_le(spec_score7(spec_sorted_ids(g.hand_of(p))),
                    spec_score7(spec_sorted_ids(g.hand_of(0)))));
            };
        }
        if spec_dealer_wins(d, ni) {
            assert forall|p: int| 1 <= p < g.players@.len() implies score_le(
                #[trigger] spec_score7(spec_sorted_ids(g.hand_of(p))),
                spec_score7(spec_sorted_ids(g.hand_of(0)))) by {
                assert(score_le(spec_player_score(d, ni, p), spec_player_score(d, ni, 0)));
            };
        }
        assert(r == spec_dealer_wins(d, ni));
    }
    r
}

/// Counts the cuts in `[lo, hi)` at which the dealer wins the dealt round.
fn count_wins_in(num_players: usize, deck: &Deck, table: &ScoreTable, lo: usize, hi: usize)
    -> (r: usize)
    requires
        valid_deck(deck@),
        2 <= num_players <= 22,
        table.complete(),
        lo <= hi <= 52,
    ensures
        r == spec_wins_in(deck@, num_players as int, lo as int, hi as int),
        r <= hi - lo,
{
    let ghost d = deck@;
    let ghost ni = num_players as int;
    let mut wins: usize = 0;
    let mut cut: usize = lo;
    while cut < hi
        invariant
            lo <= cut <= hi <= 52,
            valid_deck(d),
            deck@ == d,
            2 <= num_players <= 22,
            ni == num_players as int,
            table.complete(),
            wins == spec_wins_in(d, ni, lo as int, cut as int),
            wins <= cut - lo,
        decreases hi - cut,
    {
        let cd = deck.duplicate().cut(cut);
        proof {
            assert(cd@ == spec_cut(d, cut as int));
        }
        if dealer_wins_game(num_players, cd, table) {
            wins = wins + 1;
        }
        proof {
            assert(spec_wins_in(d, ni, lo as int, cut + 1) == spec_wins_in(
                d, ni, lo as int, cut as int) + if spec_dealer_wins(spec_cut(
                d, cut as int), ni) { 1int } else { 0int });
        }
        cut = cut + 1;
    }
    wins
}

/// Counts dealer wins over all 52 cut positions.
pub fn num_wins_total(num_players: usize, deck: &Deck, table: &ScoreTable) -> (r: usize)
    requires
        valid_deck(deck@),
        2 <= num_players <= 22,
        table.complete(),
    ensures
        r == spec_wins_in(deck@, num_players as int, 0, 52),
        r <= 52,
{
    count_wins_in(num_players, deck, table, 0, 52)
}

/// Counts dealer wins over the realistic cut positions `[5, 47)`.
pub fn num_realistic_wins(num_players: usize, deck: &Deck, table: &ScoreTable) -> (r: usize)
    requires
        valid_deck(deck@),
        2 <= num_players <= 22,
        table.complete(),
    ensures
        r == spec_wins_in(deck@, num_players as int, 5, 47),
        r <= 42,
{
    count_wins_in(num_players, deck, table, 5, 47)
}

/// The number of cut positions at which the dealer wins: all 52 cuts, or
/// only the 42 realistic ones.  Never more than 52.
pub fn num_wins(num_players: usize, deck: &Deck, table: &ScoreTable, realistic: bool) -> (r: usize)
    requires
        valid_deck(deck@),
        2 <= num_players <= 22,
        table.complete(),
    ensures
        r == spec_num_wins(deck@, num_players as int, realistic),
        r <= 52,
{
    if !realistic {
        num_wins_total(num_players, deck, table)
    } else {
        num_realistic_wins(num_players, deck, table)
    }
}

/// The fitness objective: dealer wins over the configured cut range.
pub open spec fn spec_num_wins(d: Seq<u8>, n: int, realistic: bool) -> int {
    if realistic {
        spec_wins_in(d, n, 5, 47)
    } else {
        spec_wins_in(d, n, 0, 52)
    }
}

/// The order-preserving integer projection of a score.
pub open spec fn score_int(p: (int, int)) -> int {
    16 * p.0 + p.1
}

/// The best opponent's projected score among players `1 ..= p`.
pub open spec fn spec_best_opp_int(d: Seq<u8>, n: int, p: int) -> int
    decreases p,
{
    if p <= 1 {
        score_int(spec_player_score(d, n, 1))
    } else {
        let prev = spec_best_opp_int(d, n, p - 1);
        let cur = score_int(spec_player_score(d, n, p));
        if cur > prev {
            cur
        } else {
            prev
        }
    }
}

/// The dealer's margin over the best opponent for one dealt round.
pub open spec fn spec_margin(d: Seq<u8>, n: int) -> int {
    score_int(spec_player_score(d, n, 0)) - spec_best_opp_int(d, n, n - 1)
}

/// Cuts in `[lo, hi)` whose margin is strictly positive.
pub open spec fn spec_strict_wins(d: Seq<u8>, n: int, lo: int, hi: int) -> int
    decreases hi - lo,
{
    if lo >= hi {
        0
    } else {
        spec_strict_wins(d, n, lo, hi - 1) + if spec_margin(spec_cut(d, hi - 1), n) > 0 {
            1int
        } else {
            0int
        }
    }
}

/// The sum of the margins over the cuts in `[lo, hi)`.
pub open spec fn spec_margin_sum(d: Seq<u8>, n: int, lo: int, hi: int) -> int
    decreases hi - lo,
{
    if lo >= hi {
        0
    } else {
        spec_margin_sum(d, n, lo, hi - 1) + spec_margin(spec_cut(d, hi - 1), n)
    }
}

/// The hybrid objective over a cut range: strict wins weighted at 100 000,
/// plus the margin sum as a dense gradient.
pub open spec fn spec_hybrid_range(d: Seq<u8>, n: int, lo: int, hi: int) -> int {
    100000 * spec_strict_wins(d, n, lo, hi) + spec_margin_sum(d, n, lo, hi)
}

/// The hybrid objective of the configured cut range.
pub open spec fn spec_hybrid(d: Seq<u8>, n: int, realistic: bool) -> int {
    if realistic {
        spec_hybrid_range(d, n, 5, 47)
    } else {
        spec_hybrid_range(d, n, 0, 52)
    }
}

proof fn lemma_player_score_bounds(d: Seq<u8>, n: int, p: int)
    ensures
        17 <= score_int(spec_player_score(d, n, p)) <= 158,
{
    let q = spec_dealt_hand(d, n, p);
    let sq = spec_sorted_ids(q);
    lemma_u8_le_total();
    q.lemma_sort_by_ensures(u8_le());
    broadcast use vstd::seq_lib::group_to_multiset_ensures;
    assert(q.len() == 7);
    assert(q.to_multiset() == sq.to_multiset());
    assert(q.len() == q.to_multiset().len());
    assert(sq.len() == sq.to_multiset().len());
    assert(sq.len() == 7);
    crate::hands::lemma_best7_exists(sq);
}

proof fn lemma_best_opp_bounds(d: Seq<u8>, n: int, p: int)
    ensures
        17 <= spec_best_opp_int(d, n, p) <= 158,
    decreases p,
{
    lemma_player_score_bounds(d, n, p);
    if p > 1 {
        lemma_best_opp_bounds(d, n, p - 1);
    } else {
        lemma_player_score_bounds(d, n, 1);
    }
}

/// A single round's margin lies in `[-141, 141]`.
pub proof fn lemma_margin_bounds(d: Seq<u8>, n: int)
    ensures
        -141 <= spec_margin(d, n) <= 141,
{
    lemma_player_score_bounds(d, n, 0);
    lemma_best_opp_bounds(d, n, n - 1);
}

proof fn lemma_margin_sum_bounds(d: Seq<u8>, n: int, lo: int, hi: int)
    requires
        lo <= hi,
    ensures
        -141 * (hi - lo) <= spec_margin_sum(d, n, lo, hi) <= 141 * (hi - lo),
    decreases hi - lo,
{
    if lo < hi {
        lemma_margin_sum_bounds(d, n, lo, hi - 1);
        lemma_margin_bounds(spec_cut(d, hi - 1), n);
    }
}

proof fn lemma_strict_wins_bounds(d: Seq<u8>, n: int, lo: int, hi: int)
    requires
        lo <= hi,
    ensures
        0 <= spec_strict_wins(d, n, lo, hi) <= hi - lo,
    decreases hi - lo,
{
    if lo < hi {
        lemma_strict_wins_bounds(d, n, lo, hi - 1);
    }
}

/// Wins dominate the hybrid objective: a deck with strictly more strict
/// wins over a cut range of at most 52 positions always outscores one
/// with fewer, whatever the margins.
pub proof fn lemma_hybrid_orders_by_wins(d1: Seq<u8>, d2: Seq<u8>, n: int, lo: int, hi: int)
    requires
        lo <= hi,
        hi - lo <= 52,
        spec_strict_wins(d1, n, lo, hi) > spec_strict_wins(d2, n, lo, hi),
    ensures
        spec_hybrid_range(d1, n, lo, hi) > spec_hybrid_range(d2, n, lo, hi),
{
    lemma_margin_sum_bounds(d1, n, lo, hi);
    lemma_margin_sum_bounds(d2, n, lo, hi);
    let w1 = spec_strict_wins(d1, n, lo, hi);
    let w2 = spec_strict_wins(d2, n, lo, hi);
    assert(100000 * w1 >= 100000 * (w2 + 1)) by (nonlinear_arith)
        requires
            w1 >= w2 + 1,
    {
    }
    assert(100000 * (w2 + 1) == 100000 * w2 + 100000) by (nonlinear_arith);
}

impl Game {
    /// The best opponent's projected score.
    fn best_opponent_score(&self, table: &ScoreTable, ghost_d: Ghost<Seq<u8>>, ghost_n: Ghost<int>)
        -> (r: i32)
        requires
            self.wf(),
            table.complete(),
            self.players@.len() >= 2,
            self.players@.len() == ghost_n@,
            forall|p: int| 0 <= p < ghost_n@ ==> #[trigger] self.hand_of(p)
                == spec_dealt_hand(ghost_d@, ghost_n@, p),
        ensures
            r == spec_best_opp_int(ghost_d@, ghost_n@, ghost_n@ - 1),
    {
        let ghost d = ghost_d@;
        let ghost ni = ghost_n@;
        let n = self.players.len();
        let first = self.players_score(1, table);
        let mut best: i32 = first.to_score();
        proof {
            assert(self.hand_of(1) == spec_dealt_hand(d, ni, 1));
            assert(best == spec_best_opp_int(d, ni, 1));
        }
        let mut p: usize = 2;
        while p < n
            invariant
                2 <= p <= n,
                n == self.players@.len(),
                self.wf(),
                table.complete(),
                ni == n as int,
                forall|q: int| 0 <= q < ni ==> #[trigger] self.hand_of(q)
                    == spec_dealt_hand(d, ni, q),
                best == spec_best_opp_int(d, ni, p - 1),
                -32768 <= best <= 32767,
            decreases n - p,
        {
            let s = self.players_score(p, table);
            let sc = s.to_score();
            proof {
                assert(self.hand_of(p as int) == spec_dealt_hand(d, ni, p as int));
                assert(sc == score_int(spec_player_score(d, ni, p as int)));
            }
            if sc > best {
                best = sc;
            }
            p = p + 1;
        }
        best
    }
}

/// The margin of the round dealt after cutting the deck at `cut_pos`.
pub fn position_margin(num_players: usize, deck: &Deck, cut_pos: usize, table: &ScoreTable)
    -> (r: i32)
    requires
        valid_deck(deck@),
        2 <= num_players <= 22,
        cut_pos <= 52,
        table.complete(),
    ensures
        r == spec_margin(spec_cut(deck@, cut_pos as int), num_players as int),
{
    let ghost ni = num_players as int;
    let cd = deck.duplicate().cut(cut_pos);
    let ghost d2 = cd@;
    proof {
        assert(d2 == spec_cut(deck@, cut_pos as int));
    }
    let game = deal_a_round(num_players, cd);
    let p0 = game.players_score(0, table);
    let p0s = p0.to_score();
    proof {
        assert(game.hand_of(0) == spec_dealt_hand(d2, ni, 0));
        assert(p0s == score_int(spec_player_score(d2, ni, 0)));
    }
    let best = game.best_opponent_score(table, Ghost(d2), Ghost(ni));
    proof {
        lemma_player_score_bounds(d2, ni, 0);
        lemma_best_opp_bounds(d2, ni, ni - 1);
    }
    p0s - best
}

/// The hybrid objective: for each cut in the configured range, one point
/// per strictly winning round weighted at 100 000, plus the sum of the
/// margins.
pub fn hybrid_score(num_players: usize, deck: &Deck, table: &ScoreTable, realistic: bool)
    -> (r: i64)
    requires
        valid_deck(deck@),
        2 <= num_players <= 22,
        table.complete(),
    ensures
        r == spec_hybrid(deck@, num_players as int, realistic),
{
    let ghost d = deck@;
    let ghost ni = num_players as int;
    let lo: usize = if realistic { 5 } else { 0 };
    let hi: usize = if realistic { 47 } else { 52 };
    let mut wins: i64 = 0;
    let mut total_margin: i64 = 0;
    let mut cut: usize = lo;
    while cut < hi
        invariant
            lo <= cut <= hi <= 52,
            valid_deck(d),
            deck@ == d,
            2 <= num_players <= 22,
            ni == num_players as int,
            table.complete(),
            wins == spec_strict_wins(d, ni, lo as int, cut as int),
            total_margin == spec_margin_sum(d, ni, lo as int, cut as int),
            0 <= wins <= cut - lo,
            -141 * (cut - lo) <= total_margin <= 141 * (cut - lo),
        decreases hi - cut,
    {
        let margin = position_margin(num_players, deck, cut, table);
        proof {
            lemma_margin_bounds(spec_cut(d, cut as int), ni);
            assert(spec_strict_wins(d, ni, lo as int, cut + 1) == spec_strict_wins(
                d, ni, lo as int, cut as int) + if spec_margin(spec_cut(d, cut as int), ni) > 0 {
                1int
            } else {
                0int
            });
            assert(spec_margin_sum(d, ni, lo as int, cut + 1) == spec_margin_sum(
                d, ni, lo as int, cut as int) + spec_margin(spec_cut(d, cut as int), ni));
        }
        if margin > 0 {
            wins = wins + 1;
        }
        total_margin = total_margin + (margin as i64);
        cut = cut + 1;
    }
    wins * 100000 + total_margin
}

/// The other face of win dominance: a hybrid score at least as high never
/// comes with strictly fewer strictly winning cuts.
pub proof fn lemma_hybrid_monotone_wins(d1: Seq<u8>, d2: Seq<u8>, n: int, lo: int, hi: int)
    requires
        lo <= hi,
        hi - lo <= 52,
        spec_hybrid_range(d1, n, lo, hi) >= spec_hybrid_range(d2, n, lo, hi),
    ensures
        spec_strict_wins(d1, n, lo, hi) >= spec_strict_wins(d2, n, lo, hi),
{
    if spec_strict_wins(d1, n, lo, hi) < spec_strict_wins(d2, n, lo, hi) {
        lemma_hybrid_orders_by_wins(d2, d1, n, lo, hi);
    }
}

/// The hybrid win term and cut range behind the `realistic` flag.
pub proof fn lemma_hybrid_flag_monotone_wins(d1: Seq<u8>, d2: Seq<u8>, n: int, realistic: bool)
    requires
        spec_hybrid(d1, n, realistic) >= spec_hybrid(d2, n, realistic),
    ensures
        realistic ==> spec_strict_wins(d1, n, 5, 47) >= spec_strict_wins(d2, n, 5, 47),
        !realistic ==> spec_strict_wins(d1, n, 0, 52) >= spec_strict_wins(d2, n, 0, 52),
{
    if realistic {
        lemma_hybrid_monotone_wins(d1, d2, n, 5, 47);
    } else {
        lemma_hybrid_monotone_wins(d1, d2, n, 0, 52);
    }
}

/// The hybrid objective is bounded: at most 52 cuts at 100 000 each plus
/// margins of at most 141 per cut.
pub proof fn lemma_hybrid_bounds(d: Seq<u8>, n: int, realistic: bool)
    ensures
        -6000000 <= spec_hybrid(d, n, realistic) <= 6000000,
{
    if realistic {
        lemma_strict_wins_bounds(d, n, 5, 47);
        lemma_margin_sum_bounds(d, n, 5, 47);
        let w = spec_strict_wins(d, n, 5, 47);
        assert(0 <= 100000 * w <= 4200000) by (nonlinear_arith)
            requires
                0 <= w <= 42,
        {
        }
    } else {
        lemma_strict_wins_bounds(d, n, 0, 52);
        lemma_margin_sum_bounds(d, n, 0, 52);
        let w = spec_strict_wins(d, n, 0, 52);
        assert(0 <= 100000 * w <= 5200000) by (nonlinear_arith)
            requires
                0 <= w <= 52,
        {
        }
    }
}
} // verus!
