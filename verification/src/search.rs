//! Verified pieces of the search strategies: fitness-proportionate
//! selection, population sorting and survivor selection with elitism, the
//! simulated-annealing refinement kernel, and hill climbing.

use vstd::prelude::*;
use vstd::multiset::Multiset;
use vstd::pervasive::VecAdditionalExecFns;
use crate::cards::Card;
use crate::deck::{Deck, valid_deck, generate_adaptive_mutations};
use crate::precompute::ScoreTable;
use crate::game::{
    lemma_hybrid_bounds, spec_hybrid, spec_num_wins, spec_strict_wins, hybrid_score, num_wins,
    max_wins,
};
use crate::rng::rand_range;

verus! {

broadcast use vstd::seq_lib::group_to_multiset_ensures;

/// How many positions of the two decks hold different cards.
pub open spec fn spec_hamming(a: Seq<u8>, b: Seq<u8>, i: int) -> int
    decreases i,
{
    if i <= 0 {
        0
    } else {
        spec_hamming(a, b, i - 1) + if a[i - 1] != b[i - 1] {
            1int
        } else {
            0int
        }
    }
}

/// Counts the positions at which the two decks differ.
pub fn hamming_distance(deck1: &Deck, deck2: &Deck) -> (r: usize)
    requires
        deck1@.len() == deck2@.len(),
    ensures
        r == spec_hamming(deck1@, deck2@, deck1@.len() as int),
        r <= deck1@.len(),
{
    let n = deck1.len();
    let mut count: usize = 0;
    let mut i: usize = 0;
    while i < n
        invariant
            0 <= i <= n,
            n == deck1@.len() == deck2@.len(),
            count == spec_hamming(deck1@, deck2@, i as int),
            count <= i,
        decreases n - i,
    {
        if deck1.0[i].0 != deck2.0[i].0 {
            count = count + 1;
        }
        i = i + 1;
    }
    count
}

/// A scored candidate: a deck and its win count.
pub struct Scored {
    pub deck: Deck,
    pub score: usize,
}

impl Scored {
    /// The mathematical content of a scored candidate: the deck's card
    /// sequence and the score.
    pub open spec fn model(self) -> (Seq<u8>, int) {
        (self.deck@, self.score as int)
    }
}

/// The models of a population.
pub open spec fn pop_models(p: Seq<Scored>) -> Seq<(Seq<u8>, int)> {
    p.map_values(|s: Scored| s.model())
}

/// Fitness-proportionate ("roulette wheel") selection: an index drawn with
/// probability proportional to the score; uniform when all scores are
/// zero.  Every outcome is a valid index.
pub fn select_parent(population: &Vec<Scored>, rng: &mut oorandom::Rand32) -> (r: usize)
    requires
        1 <= population@.len() <= 1000,
        forall|i: int| 0 <= i < population@.len() ==> (#[trigger] population@[i]).score <= 52,
    ensures
        r < population@.len(),
{
    let n = population.len();
    let mut total: u32 = 0;
    let mut i: usize = 0;
    while i < n
        invariant
            0 <= i <= n,
            n == population@.len() <= 1000,
            forall|k: int| 0 <= k < n ==> (#[trigger] population@[k]).score <= 52,
            total <= 52 * i,
        decreases n - i,
    {
        total = total + (population[i].score as u32);
        i = i + 1;
    }

    if total == 0 {
        let idx = rand_range(rng, 0, n as u32);
        return idx as usize;
    }

    let mut spin = rand_range(rng, 0, total);
    let mut idx: usize = 0;
    while idx < n
        invariant
            0 <= idx <= n,
            n == population@.len(),
            forall|k: int| 0 <= k < n ==> (#[trigger] population@[k]).score <= 52,
        decreases n - idx,
    {
        let s = population[idx].score as u32;
        if spin < s {
            return idx;
        }
        spin = spin - s;
        idx = idx + 1;
    }
    n - 1
}

/// Scores descending: every candidate is at least as fit as the next.
pub open spec fn scores_desc(p: Seq<Scored>) -> bool {
    forall|i: int, j: int| 0 <= i < j < p.len() ==> (#[trigger] p[i]).score
        >= (#[trigger] p[j]).score
}

/// Sorts a population by score, best first; the candidates (deck cards
/// and score) are exactly those given.
pub fn sort_scored_desc(v: Vec<Scored>) -> (r: Vec<Scored>)
    ensures
        r@.len() == v@.len(),
        pop_models(r@).to_multiset() == pop_models(v@).to_multiset(),
        scores_desc(r@),
{
    let ghost orig = pop_models(v@);
    let mut rest = v;
    let mut out: Vec<Scored> = Vec::new();
    while rest.len() > 0
        invariant
            pop_models(out@).to_multiset().add(pop_models(rest@).to_multiset())
                == orig.to_multiset(),
            out@.len() + rest@.len() == orig.len(),
            scores_desc(out@),
        decreases rest@.len(),
    {
        let ghost rest0 = pop_models(rest@);
        let x = rest.pop().unwrap();
        proof {
            assert(rest0 =~= pop_models(rest@).push(x.model()));
            assert(rest0.to_multiset() == pop_models(rest@).to_multiset().insert(x.model()));
        }

        let n_out = out.len();
        let mut k: usize = 0;
        while k < n_out && out[k].score >= x.score
            invariant
                0 <= k <= n_out,
                n_out == out@.len(),
                forall|q: int| 0 <= q < k ==> (#[trigger] out@[q]).score >= x.score,
            decreases n_out - k,
        {
            k = k + 1;
        }

        let ghost ob = out@;
        out.insert(k, x);
        proof {
            broadcast use vstd::multiset::group_multiset_axioms;
            assert(out@ == ob.insert(k as int, x));
            assert(pop_models(out@) =~= pop_models(ob).insert(k as int, x.model()));
            vstd::seq_lib::to_multiset_insert(pop_models(ob), k as int, x.model());
            assert forall|i: int, j: int| 0 <= i < j < out@.len() implies
                (#[trigger] out@[i]).score >= (#[trigger] out@[j]).score by {
                assert(out@ =~= ob.take(k as int) + seq![x] + ob.skip(k as int));
                let pick = |q: int| if q < k { ob[q] } else if q == k { x } else { ob[q - 1] };
                assert(out@[i] == pick(i));
                assert(out@[j] == pick(j));
                if j >= k + 1 {
                    assert(ob[j - 1].score <= x.score) by {
                        if k < n_out {
                            assert(ob[k as int].score < x.score);
                            if j - 1 > k {
                                assert(ob[k as int].score >= ob[j - 1].score);
                            }
                        }
                    };
                }
                if i < k {
                    assert(ob[i].score >= x.score);
                }
            };
        }
    }
    proof {
        broadcast use vstd::multiset::group_multiset_axioms;
        assert(pop_models(rest@).to_multiset() =~= Multiset::<(Seq<u8>, int)>::empty()) by {
            assert(pop_models(rest@).len() == 0);
            vstd::seq_lib::to_multiset_len(pop_models(rest@));
        };
        assert(pop_models(out@).to_multiset() =~= orig.to_multiset());
    }
    out
}


/// The cut range flag used throughout the search: all 52 cuts.
pub const REAL: bool = false;

/// Elitist survivor selection: the elite of the previous generation, the
/// new children, and the remainder of the previous generation are pooled,
/// sorted by score, and truncated to the population size.  With at least
/// one elite the best score never decreases from one generation to the
/// next.
pub fn next_population(prev: &Vec<Scored>, children: Vec<Scored>, pop_size: usize, elite: usize)
    -> (r: Vec<Scored>)
    requires
        1 <= elite <= prev@.len(),
        1 <= pop_size,
    ensures
        scores_desc(r@),
        r@.len() == vstd::math::min((prev@.len() + children@.len()) as int, pop_size as int),
        r@[0].score >= prev@[0].score,
        forall|i: int| 0 <= i < r@.len() ==> pop_models(prev@).to_multiset().add(
            pop_models(children@).to_multiset()).count((#[trigger] r@[i]).model()) > 0,
{
    broadcast use vstd::multiset::group_multiset_axioms;
    let ghost prev_ms = pop_models(prev@).to_multiset();
    let ghost child_ms = pop_models(children@).to_multiset();

    let mut combined: Vec<Scored> = Vec::new();
    let mut i: usize = 0;
    while i < prev.len()
        invariant
            0 <= i <= prev@.len(),
            pop_models(combined@) =~= pop_models(prev@).take(i as int),
        decreases prev@.len() - i,
    {
        let ghost before = pop_models(combined@);
        combined.push(Scored { deck: prev[i].deck.duplicate(), score: prev[i].score });
        proof {
            assert(pop_models(combined@) =~= before.push(prev@[i as int].model()));
            assert(pop_models(prev@).take(i + 1) =~= pop_models(prev@).take(i as int).push(
                prev@[i as int].model()));
        }
        i = i + 1;
    }
    proof {
        assert(pop_models(prev@).take(prev@.len() as int) =~= pop_models(prev@));
        assert(pop_models(combined@)[0] == combined@[0].model());
        assert(pop_models(prev@)[0] == prev@[0].model());
        assert(combined@[0].model() == prev@[0].model());
    }

    let mut kids = children;
    while kids.len() > 0
        invariant
            pop_models(combined@).to_multiset() == prev_ms.add(child_ms.sub(
                pop_models(kids@).to_multiset())),
            pop_models(kids@).to_multiset().subset_of(child_ms),
            combined@.len() >= prev@.len() >= 1,
            combined@[0].model() == prev@[0].model(),
        decreases kids@.len(),
    {
        let ghost kids0 = pop_models(kids@);
        let ghost comb0 = pop_models(combined@);
        let x = kids.pop().unwrap();
        combined.push(x);
        proof {
            assert(kids0 =~= pop_models(kids@).push(x.model()));
            assert(kids0.to_multiset() == pop_models(kids@).to_multiset().insert(x.model()));
            assert(pop_models(combined@) =~= comb0.push(x.model()));
            assert(pop_models(combined@).to_multiset() == comb0.to_multiset().insert(x.model()));
            assert(pop_models(combined@).to_multiset() =~= prev_ms.add(child_ms.sub(
                pop_models(kids@).to_multiset())));
        }
    }
    proof {
        assert(pop_models(kids@).to_multiset() =~= Multiset::<(Seq<u8>, int)>::empty()) by {
            vstd::seq_lib::to_multiset_len(pop_models(kids@));
        };
        assert(pop_models(combined@).to_multiset() =~= prev_ms.add(child_ms));
        vstd::seq_lib::to_multiset_len(pop_models(combined@));
        vstd::seq_lib::to_multiset_len(pop_models(prev@));
        vstd::seq_lib::to_multiset_len(pop_models(children@));
    }

    let sorted = sort_scored_desc(combined);
    proof {
        // The previous best is still present, so the new front is at least
        // as good.
        let pm = prev@[0].model();
        assert(pop_models(sorted@).to_multiset().count(pm) > 0) by {
            assert(prev_ms.count(pm) > 0) by {
                assert(pop_models(prev@)[0] == pm);
                assert(pop_models(prev@).contains(pm));
            };
        };
        assert(pop_models(sorted@).contains(pm));
        let w = choose|w: int| 0 <= w < pop_models(sorted@).len()
            && pop_models(sorted@)[w] == pm;
        assert(sorted@[w].model() == pm);
        assert(sorted@[w].score == prev@[0].score);
        assert(sorted@[0].score >= sorted@[w].score);
    }
    let mut res = sorted;
    res.truncate(pop_size);
    proof {
        assert forall|q: int| 0 <= q < res@.len() implies prev_ms.add(child_ms).count(
            (#[trigger] res@[q]).model()) > 0 by {
            assert(res@[q] == sorted@[q]);
            assert(pop_models(sorted@)[q] == sorted@[q].model());
            assert(pop_models(sorted@).contains(sorted@[q].model()));
            assert(pop_models(sorted@).to_multiset().count(sorted@[q].model()) > 0);
        };
    }
    res
}

/// The simulated-annealing refinement kernel, stepped from outside: the
/// caller draws the Metropolis coin (a temperature-dependent chance of
/// accepting a worse candidate) and the kernel does everything else.
/// The best-seen hybrid score never decreases, and with it the number of
/// strictly winning cuts of the best deck never decreases.
pub struct SaRefiner {
    pub num_players: usize,
    pub realistic: bool,
    pub current: Deck,
    pub current_score: i64,
    pub best: Deck,
    pub best_score: i64,
    pub best_wins: usize,
    pub pending: Option<(Deck, i64)>,
}

impl SaRefiner {
    pub open spec fn wf(self) -> bool {
        &&& 2 <= self.num_players <= 22
        &&& valid_deck(self.current@)
        &&& valid_deck(self.best@)
        &&& self.current_score == spec_hybrid(self.current@, self.num_players as int,
            self.realistic)
        &&& self.best_score == spec_hybrid(self.best@, self.num_players as int, self.realistic)
        &&& self.best_wins == spec_num_wins(self.best@, self.num_players as int, self.realistic)
        &&& self.best_score >= self.current_score
        &&& match self.pending {
            Option::None => true,
            Option::Some(c) => valid_deck(c.0@) && c.1 == spec_hybrid(c.0@,
                self.num_players as int, self.realistic),
        }
    }

    /// Starts the kernel at the given deck: it is both the current and the
    /// best point seen so far.
    pub fn start(num_players: usize, realistic: bool, deck: Deck, table: &ScoreTable)
        -> (r: SaRefiner)
        requires
            valid_deck(deck@),
            2 <= num_players <= 22,
            table.complete(),
        ensures
            r.wf(),
            r.num_players == num_players,
            r.realistic == realistic,
            r.best@ == deck@,
            r.best_wins == spec_num_wins(deck@, num_players as int, realistic),
    {
        let score = hybrid_score(num_players, &deck, table, realistic);
        let wins = num_wins(num_players, &deck, table, realistic);
        let best = deck.duplicate();
        SaRefiner {
            num_players,
            realistic,
            current: deck,
            current_score: score,
            best,
            best_score: score,
            best_wins: wins,
            pending: None,
        }
    }

    /// Draws one adaptive perturbation of the current deck and scores it;
    /// returns the hybrid-score change the move would bring.
    pub fn propose(&mut self, table: &ScoreTable, rng: &mut oorandom::Rand32) -> (delta: i64)
        requires
            old(self).wf(),
            table.complete(),
        ensures
            final(self).wf(),
            final(self).pending.is_some(),
            final(self).num_players == old(self).num_players,
            final(self).realistic == old(self).realistic,
            final(self).best@ == old(self).best@,
            final(self).best_score == old(self).best_score,
            final(self).best_wins == old(self).best_wins,
            final(self).current@ == old(self).current@,
            final(self).current_score == old(self).current_score,
            delta == final(self).pending.unwrap().1 - final(self).current_score,
    {
        let muts = generate_adaptive_mutations(rng, 200);
        let cand = muts[0].apply(self.current.duplicate(), rng);
        let cand_score = hybrid_score(self.num_players, &cand, table, self.realistic);
        proof {
            crate::game::lemma_hybrid_bounds(cand@, self.num_players as int, self.realistic);
            crate::game::lemma_hybrid_bounds(self.current@, self.num_players as int,
                self.realistic);
        }
        let delta = cand_score - self.current_score;
        self.pending = Some((cand, cand_score));
        delta
    }

    /// Resolves the pending move: an improving move is always taken, a
    /// worse one only when the caller's coin says so.  The best-seen deck,
    /// score and win count never regress, and the best deck's strictly
    /// winning cuts never decrease.
    pub fn resolve(&mut self, table: &ScoreTable, accept_worse: bool)
        requires
            old(self).wf(),
            old(self).pending.is_some(),
            table.complete(),
        ensures
            final(self).wf(),
            final(self).pending.is_none(),
            final(self).num_players == old(self).num_players,
            final(self).realistic == old(self).realistic,
            final(self).best_score >= old(self).best_score,
            final(self).realistic ==> spec_strict_wins(final(self).best@,
                final(self).num_players as int, 5, 47) >= spec_strict_wins(old(self).best@,
                old(self).num_players as int, 5, 47),
            !final(self).realistic ==> spec_strict_wins(final(self).best@,
                final(self).num_players as int, 0, 52) >= spec_strict_wins(old(self).best@,
                old(self).num_players as int, 0, 52),
    {
        let pending = self.pending.take();
        let (cand, cand_score) = match pending {
            Some(p) => p,
            None => vstd::pervasive::unreached(),
        };
        if cand_score > self.current_score || accept_worse {
            self.current = cand;
            self.current_score = cand_score;
            if self.current_score > self.best_score {
                self.best_score = self.current_score;
                self.best = self.current.duplicate();
                self.best_wins = num_wins(self.num_players, &self.best, table, self.realistic);
            }
        }
        proof {
            crate::game::lemma_hybrid_flag_monotone_wins(self.best@, old(self).best@,
                self.num_players as int, self.realistic);
        }
    }

    /// The best win count seen so far; the caller's stopping criterion.
    pub fn best_wins(&self) -> (r: usize)
        ensures
            r == self.best_wins,
    {
        self.best_wins
    }

    /// Hands the best deck seen and its win count out.
    pub fn into_best(self, table: &ScoreTable) -> (r: (Deck, usize))
        requires
            self.wf(),
            table.complete(),
        ensures
            valid_deck(r.0@),
            r.1 == spec_num_wins(r.0@, self.num_players as int, self.realistic),
            r.0@ == self.best@,
            r.1 == self.best_wins,
    {
        let SaRefiner { best, best_wins, .. } = self;
        (best, best_wins)
    }
}

/// Hill climbing with random restarts: repeatedly tries random
/// transpositions, keeps improvements, and restarts from a fresh shuffle
/// when stuck.  Returns a full deck: the first perfect deck found, or the
/// best seen when the restart budget runs out.
pub fn hill_climbing(num_players: usize, table: ScoreTable) -> (r: Deck)
    requires
        2 <= num_players <= 22,
        table.complete(),
    ensures
        valid_deck(r@),
{
    let max_samples: usize = 500;
    let max_restarts: usize = 100;

    let mut rng = crate::rng::rng_new(4);
    let mut best_ever_deck = Deck::new_deck_order().shuffle(&mut rng);
    let mut best_ever_score = num_wins(num_players, &best_ever_deck, &table, REAL);

    let mut restart: usize = 0;
    while restart < max_restarts
        invariant
            2 <= num_players <= 22,
            table.complete(),
            valid_deck(best_ever_deck@),
            best_ever_score <= 52,
        decreases max_restarts - restart,
    {
        let mut deck = if restart == 0 {
            best_ever_deck.duplicate()
        } else {
            Deck::new_deck_order().shuffle(&mut rng)
        };
        let mut current_score = num_wins(num_players, &deck, &table, REAL);

        let mut iterations_stuck: usize = 0;
        while iterations_stuck <= 5
            invariant
                2 <= num_players <= 22,
                table.complete(),
                valid_deck(deck@),
                valid_deck(best_ever_deck@),
                current_score <= 52,
                best_ever_score <= 52,
            decreases 52 - current_score, 5 - iterations_stuck + 1,
        {
            let mut improved = false;
            let ghost entry_score = current_score as int;

            let mut sample: usize = 0;
            while sample < max_samples && !improved
                invariant
                    2 <= num_players <= 22,
                    table.complete(),
                    valid_deck(deck@),
                    valid_deck(best_ever_deck@),
                    current_score <= 52,
                    best_ever_score <= 52,
                    entry_score <= current_score,
                    improved ==> entry_score < current_score,
                    !improved ==> current_score == entry_score,
                decreases max_samples - sample,
            {
                let i = rand_range(&mut rng, 0, 52) as usize;
                let j = rand_range(&mut rng, 0, 52) as usize;

                if i != j {
                    let ghost pre = deck@;
                    deck.swap(i, j);
                    proof {
                        crate::deck::lemma_same_multiset_valid(pre, deck@);
                    }
                    let new_score = num_wins(num_players, &deck, &table, REAL);

                    if new_score > current_score {
                        current_score = new_score;
                        improved = true;

                        if current_score > best_ever_score {
                            best_ever_score = current_score;
                            best_ever_deck = deck.duplicate();
                        }

                        if current_score == max_wins(REAL) {
                            return deck;
                        }
                    } else {
                        let ghost pre2 = deck@;
                        deck.swap(i, j);
                        proof {
                            crate::deck::lemma_same_multiset_valid(pre2, deck@);
                        }
                    }
                }
                sample = sample + 1;
            }

            if !improved {
                iterations_stuck = iterations_stuck + 1;
            } else {
                iterations_stuck = 0;
            }
        }
        restart = restart + 1;
    }

    best_ever_deck
}

/// Checks that a constructed sequence of card ids is a full deck; the
/// ant-colony construction validates its output through this.
pub fn deck_from_cards(ids: &Vec<u8>) -> (r: Option<Deck>)
    ensures
        match r {
            Option::Some(d) => d@ == ids@ && valid_deck(ids@),
            Option::None => !valid_deck(ids@),
        },
{
    broadcast use vstd::multiset::group_multiset_axioms;
    if ids.len() != 52 {
        return None;
    }
    let mut seen: Vec<bool> = Vec::new();
    let mut z: usize = 0;
    while z < 52
        invariant
            0 <= z <= 52,
            seen@.len() == z,
            forall|q: int| 0 <= q < z ==> seen@[q] == false,
        decreases 52 - z,
    {
        seen.push(false);
        z = z + 1;
    }

    let mut v: Vec<Card> = Vec::new();
    let mut i: usize = 0;
    while i < 52
        invariant
            0 <= i <= 52,
            ids@.len() == 52,
            seen@.len() == 52,
            v@.len() == i,
            forall|k: int| 0 <= k < i ==> (#[trigger] v@[k]).0 == ids@[k],
            forall|k: int| 0 <= k < i ==> ids@[k] < 52,
            ids@.take(i as int).no_duplicates(),
            forall|c: int| 0 <= c < 52 ==> (seen@[c] <==> ids@.take(i as int).contains(c as u8)),
        decreases 52 - i,
    {
        let id = ids[i];
        if id >= 52 {
            return None;
        }
        if seen[id as usize] {
            proof {
                let pre = ids@.take(i as int);
                assert(pre.contains(id));
                let w = choose|w: int| 0 <= w < i && ids@[w] == id;
                assert(ids@[w] == ids@[i as int]);
                assert(!ids@.no_duplicates());
                if valid_deck(ids@) {
                    crate::deck::lemma_valid_deck_no_duplicates(ids@);
                }
            }
            return None;
        }
        seen.set(id as usize, true);
        v.push(Card(id));
        proof {
            let pre = ids@.take(i as int);
            let now = ids@.take(i + 1);
            assert(now =~= pre.push(id));
            assert(now.no_duplicates()) by {
                assert(!pre.contains(id));
            };
            assert forall|c: int| 0 <= c < 52 implies (seen@[c] <==> now.contains(c as u8)) by {
                if seen@[c] {
                    if c == id {
                        assert(now[now.len() - 1] == id);
                    } else {
                        assert(pre.contains(c as u8));
                        let w = choose|w: int| 0 <= w < pre.len() && pre[w] == c as u8;
                        assert(now[w] == c as u8);
                    }
                } else {
                    if now.contains(c as u8) {
                        let w = choose|w: int| 0 <= w < now.len() && now[w] == c as u8;
                        assert(w < pre.len() ==> pre[w] == c as u8);
                    }
                }
            };
        }
        i = i + 1;
    }

    proof {
        assert(ids@.take(52) =~= ids@);
    }
    let mut c: usize = 0;
    while c < 52
        invariant
            0 <= c <= 52,
            ids@.len() == 52,
            seen@.len() == 52,
            ids@.no_duplicates(),
            forall|q: int| 0 <= q < 52 ==> (seen@[q] <==> ids@.contains(q as u8)),
            forall|q: int| 0 <= q < c ==> #[trigger] ids@.contains(q as u8),
            v@.len() == 52,
            forall|k: int| 0 <= k < 52 ==> (#[trigger] v@[k]).0 == ids@[k],
        decreases 52 - c,
    {
        if !seen[c] {
            proof {
                if valid_deck(ids@) {
                    assert(ids@.to_multiset().count(c as u8) == 1);
                    assert(ids@.contains(c as u8));
                }
            }
            return None;
        }
        c = c + 1;
    }

    let d = Deck(v);
    proof {
        assert(d@ =~= ids@);
        assert(valid_deck(ids@)) by {
            ids@.lemma_multiset_has_no_duplicates();
            assert forall|cc: u8| cc < 52 implies #[trigger] ids@.to_multiset().count(cc)
                == 1 by {
                let qq = cc as int;
                assert(ids@.contains(qq as u8));
                assert(qq as u8 == cc);
                assert(ids@.to_multiset().count(cc) > 0);
            };
        };
    }
    Some(d)
}

/// Replaces an island's worst members with the migrants from its ring
/// neighbour and re-sorts: the result holds only candidates that came
/// from the island or the migrants, best first.
pub fn inject_migrants(island: Vec<Scored>, migrants: Vec<Scored>) -> (r: Vec<Scored>)
    requires
        migrants@.len() <= island@.len(),
    ensures
        scores_desc(r@),
        r@.len() == island@.len(),
        forall|i: int| 0 <= i < r@.len() ==> pop_models(island@).to_multiset().add(
            pop_models(migrants@).to_multiset()).count((#[trigger] r@[i]).model()) > 0,
{
    broadcast use vstd::multiset::group_multiset_axioms;
    let ghost island_ms = pop_models(island@).to_multiset();
    let ghost mig_ms = pop_models(migrants@).to_multiset();

    let keep = island.len() - migrants.len();
    let mut pool = island;
    pool.truncate(keep);
    proof {
        assert forall|q: int| 0 <= q < pool@.len() implies island_ms.count(
            (#[trigger] pool@[q]).model()) > 0 by {
            assert(pop_models(pool@)[q] == pool@[q].model());
            assert(pool@[q].model() == pop_models(island@)[q]);
            assert(pop_models(island@).contains(pool@[q].model()));
        };
    }
    let total = keep + migrants.len();
    let mut mg = migrants;
    while mg.len() > 0
        invariant
            pool@.len() + mg@.len() == total,
            forall|q: int| 0 <= q < pool@.len() ==> island_ms.add(mig_ms).count(
                (#[trigger] pool@[q]).model()) > 0,
            pop_models(mg@).to_multiset().subset_of(mig_ms),
        decreases mg@.len(),
    {
        let ghost mg0 = pop_models(mg@);
        let ghost poolv0 = pool@;
        let x = mg.pop().unwrap();
        pool.push(x);
        proof {
            assert(mg0 =~= pop_models(mg@).push(x.model()));
            assert(mg0.to_multiset() == pop_models(mg@).to_multiset().insert(x.model()));
            assert(pool@ =~= poolv0.push(x));
            assert(mig_ms.count(x.model()) > 0);
            assert forall|q: int| 0 <= q < pool@.len() implies island_ms.add(mig_ms).count(
                (#[trigger] pool@[q]).model()) > 0 by {
                if q < pool@.len() - 1 {
                    assert(pool@[q] == poolv0[q]);
                }
            };
        }
    }
    let sorted = sort_scored_desc(pool);
    proof {
        assert forall|q: int| 0 <= q < sorted@.len() implies island_ms.add(mig_ms).count(
            (#[trigger] sorted@[q]).model()) > 0 by {
            assert(pop_models(sorted@)[q] == sorted@[q].model());
            assert(pop_models(sorted@).contains(sorted@[q].model()));
            assert(pop_models(sorted@).to_multiset().count(sorted@[q].model()) > 0);
        };
    }
    sorted
}
} // verus!
