//! Decks: ordered sequences of cards.  A full deck is a permutation of the 52
//! card ids; every operation here that returns a full deck preserves that
//! invariant.

use vstd::prelude::*;
use vstd::pervasive::VecAdditionalExecFns;
use crate::cards::Card;
use crate::rng::rand_range;

verus! {

broadcast use vstd::seq_lib::group_to_multiset_ensures;

pub const DECK_SIZE: usize = 52;

/// An ordered sequence of cards, addressed by position.
#[derive(Debug, Clone, PartialEq, Eq)]
pub struct Deck(pub Vec<Card>);

impl View for Deck {
    type V = Seq<u8>;

    open spec fn view(&self) -> Seq<u8> {
        self.0@.map_values(|c: Card| c.0)
    }
}

/// A full deck: 52 cards, each id below 52, each id appearing exactly once.
pub open spec fn valid_deck(s: Seq<u8>) -> bool {
    &&& s.len() == 52
    &&& forall|i: int| 0 <= i < 52 ==> s[i] < 52
    &&& forall|c: u8| c < 52 ==> #[trigger] s.to_multiset().count(c) == 1
}

/// A full deck holds exactly the card ids `{0..51}`: its set of cards is the
/// set of all valid ids.
pub proof fn lemma_valid_deck_cards(s: Seq<u8>)
    requires
        valid_deck(s),
    ensures
        s.to_set() =~= Set::new(|c: u8| c < 52),
{
    assert forall|c: u8| s.to_set().contains(c) implies c < 52 by {
        assert(s.contains(c));
        let i = choose|i: int| 0 <= i < s.len() && s[i] == c;
        assert(s[i] < 52);
    };
    assert forall|c: u8| c < 52 implies s.to_set().contains(c) by {
        assert(s.to_multiset().count(c) == 1);
        assert(s.contains(c));
    };
}

/// A full deck has no repeated card.
pub proof fn lemma_valid_deck_no_duplicates(s: Seq<u8>)
    requires
        valid_deck(s),
    ensures
        s.no_duplicates(),
{
    assert forall|i: int, j: int|
        0 <= i < s.len() && 0 <= j < s.len() && i != j implies s[i] != s[j] by {
        if s[i] == s[j] {
            let t = s.remove(i);
            vstd::seq_lib::to_multiset_remove(s, i);
            let j2 = if j < i { j } else { j - 1 };
            assert(t[j2] == s[j]);
            assert(t.contains(s[j]));
            assert(t.to_multiset().count(s[j]) > 0);
            assert(s.to_multiset().count(s[i]) == 1);
            assert(t.to_multiset().count(s[j]) == 0);
        }
    };
}

/// Two full decks with the same cards in the same order are equal; stated on
/// the multiset: any sequence with the same multiset as a full deck is full.
pub proof fn lemma_same_multiset_valid(s: Seq<u8>, t: Seq<u8>)
    requires
        valid_deck(s),
        t.len() == 52,
        t.to_multiset() == s.to_multiset(),
    ensures
        valid_deck(t),
{
    assert forall|i: int| 0 <= i < 52 implies t[i] < 52 by {
        assert(t.contains(t[i]));
        assert(t.to_multiset().count(t[i]) > 0);
        assert(s.to_multiset().count(t[i]) > 0);
        assert(s.contains(t[i]));
        let k = choose|k: int| 0 <= k < s.len() && s[k] == t[i];
        assert(s[k] < 52);
    };
}

impl Deck {
    /// Number of cards currently in the deck.
    pub fn len(&self) -> (r: usize)
        ensures
            r == self@.len(),
    {
        self.0.len()
    }

    pub fn is_empty(&self) -> (r: bool)
        ensures
            r == (self@.len() == 0),
    {
        self.0.is_empty()
    }

    /// The deck in new-pack order: value-major, suit-minor, so position
    /// `i` holds the card id `i / 4 + 13 * (i % 4)`.
    pub fn new_deck_order() -> (r: Deck)
        ensures
            r@.len() == 52,
            forall|i: int| 0 <= i < 52 ==> r@[i] == #[trigger] new_order_card(i),
            valid_deck(r@),
    {
        let mut v: Vec<Card> = Vec::new();
        let mut value: u8 = 1;
        while value <= 13
            invariant
                1 <= value <= 14,
                v@.len() == 4 * (value - 1),
                forall|i: int| 0 <= i < v@.len() ==> v@[i].0 == #[trigger] new_order_card(i),
            decreases 14 - value,
        {
            let mut suit: u8 = 0;
            while suit < 4
                invariant
                    1 <= value <= 13,
                    0 <= suit <= 4,
                    v@.len() == 4 * (value - 1) + suit,
                    forall|i: int| 0 <= i < v@.len() ==> v@[i].0 == #[trigger] new_order_card(i),
                decreases 4 - suit,
            {
                let card = Card((value - 1) + 13 * suit);
                proof {
                    let n = v@.len() as int;
                    vstd::arithmetic::div_mod::lemma_fundamental_div_mod_converse(
                        n, 4, (value - 1) as int, suit as int);
                    assert(new_order_card(n) == (value - 1) + 13 * suit);
                }
                v.push(card);
                suit = suit + 1;
            }
            value = value + 1;
        }
        let r = Deck(v);
        proof {
            lemma_new_order_valid(r@);
        }
        r
    }

    /// Swaps the cards at positions `a` and `b`.
    pub fn swap(&mut self, a: usize, b: usize)
        requires
            a < old(self)@.len(),
            b < old(self)@.len(),
        ensures
            final(self)@ == old(self)@.update(a as int, old(self)@[b as int]).update(
                b as int, old(self)@[a as int]),
            final(self)@.to_multiset() == old(self)@.to_multiset(),
            final(self)@.len() == old(self)@.len(),
    {
        let ca = self.0[a];
        let cb = self.0[b];
        self.0.set(a, cb);
        self.0.set(b, ca);
        proof {
            assert(self@ =~= old(self)@.update(a as int, old(self)@[b as int]).update(
                b as int, old(self)@[a as int]));
            lemma_swap_seq_multiset(old(self)@, a as int, b as int);
        }
    }

    /// Cyclic cut at `pos`: the result holds `self[(i + pos) mod len]` at
    /// position `i`, i.e. the tail from `pos` followed by the head.
    pub fn cut(self, pos: usize) -> (r: Deck)
        requires
            pos <= self@.len(),
        ensures
            r@ == self@.subrange(pos as int, self@.len() as int) + self@.subrange(0, pos as int),
            r@.len() == self@.len(),
            r@.to_multiset() == self@.to_multiset(),
            valid_deck(self@) ==> valid_deck(r@),
    {
        let n = self.0.len();
        let mut v: Vec<Card> = Vec::new();
        let mut i: usize = pos;
        while i < n
            invariant
                pos <= i <= n,
                n == self@.len(),
                v@.len() == i - pos,
                forall|k: int| 0 <= k < v@.len() ==> v@[k].0 == self@[pos + k],
            decreases n - i,
        {
            v.push(self.0[i]);
            i = i + 1;
        }
        let mut j: usize = 0;
        while j < pos
            invariant
                0 <= j <= pos <= n,
                n == self@.len(),
                v@.len() == (n - pos) + j,
                forall|k: int| 0 <= k < n - pos ==> v@[k].0 == self@[pos + k],
                forall|k: int| n - pos <= k < v@.len() ==> v@[k].0 == self@[k - (n - pos)],
            decreases pos - j,
        {
            v.push(self.0[j]);
            j = j + 1;
        }
        let r = Deck(v);
        proof {
            let a = self@.subrange(0, pos as int);
            let b = self@.subrange(pos as int, n as int);
            assert(r@ =~= b + a);
            assert(self@ =~= a + b);
            vstd::seq_lib::lemma_multiset_commutative(a, b);
            vstd::seq_lib::lemma_multiset_commutative(b, a);
            assert(r@.to_multiset() == self@.to_multiset());
            if valid_deck(self@) {
                lemma_same_multiset_valid(self@, r@);
            }
        }
        r
    }

    /// Removes and returns the card at the top of the draw pile (the end of
    /// the sequence).  Drawing from an empty deck is a fatal error.
    pub fn draw(&mut self) -> (r: Card)
        requires
            old(self)@.len() > 0,
        ensures
            r.0 == old(self)@.last(),
            final(self)@ == old(self)@.drop_last(),
    {
        let c = self.0.pop().unwrap();
        proof {
            assert(self@ =~= old(self)@.drop_last());
        }
        c
    }
}

/// The sequence `s` with the cards at `a` and `b` exchanged.
pub open spec fn spec_swap_seq(s: Seq<u8>, a: int, b: int) -> Seq<u8> {
    s.update(a, s[b]).update(b, s[a])
}

/// A deck with its cards at positions `a` and `b` transposed.
#[derive(Debug, Clone, Copy)]
pub struct Mutation(pub (usize, usize));

impl Mutation {
    /// Both positions of the transposition lie inside a full deck.
    pub open spec fn wf(self) -> bool {
        self.0.0 < 52 && self.0.1 < 52
    }

    /// Draws a transposition of two positions of a full deck, ordered.
    pub fn generate(rng: &mut oorandom::Rand32) -> (r: Mutation)
        ensures
            r.wf(),
            r.0.0 <= r.0.1,
    {
        let a = rand_range(rng, 0, 52);
        let b = rand_range(rng, 0, 52);
        let start = if a < b { a } else { b };
        let end = if a < b { b } else { a };
        Mutation(((start as usize), (end as usize)))
    }
}

/// Draws between one and three transpositions.
pub fn generate_mutations(rng: &mut oorandom::Rand32) -> (r: Vec<Mutation>)
    ensures
        1 <= r@.len() <= 3,
        forall|i: int| 0 <= i < r@.len() ==> (#[trigger] r@[i]).wf(),
{
    let num_mutations = rand_range(rng, 1, 4);
    let mut muts: Vec<Mutation> = Vec::new();
    let mut k: u32 = 0;
    while k < num_mutations
        invariant
            num_mutations < 4,
            0 <= k <= num_mutations,
            muts@.len() == k,
            forall|i: int| 0 <= i < muts@.len() ==> (#[trigger] muts@[i]).wf(),
        decreases num_mutations - k,
    {
        let m = Mutation::generate(rng);
        muts.push(m);
        k = k + 1;
    }
    muts
}

/// Applies a list of transpositions in order.
pub open spec fn spec_apply_mutations(s: Seq<u8>, ms: Seq<Mutation>) -> Seq<u8>
    decreases ms.len(),
{
    if ms.len() == 0 {
        s
    } else {
        spec_apply_mutations(spec_swap_seq(s, ms[0].0.0 as int, ms[0].0.1 as int), ms.drop_first())
    }
}

proof fn lemma_apply_mutations_push(s: Seq<u8>, ms: Seq<Mutation>, m: Mutation)
    ensures
        spec_apply_mutations(s, ms.push(m)) == spec_swap_seq(
            spec_apply_mutations(s, ms), m.0.0 as int, m.0.1 as int),
    decreases ms.len(),
{
    let p = ms.push(m);
    assert(spec_apply_mutations(s, p) == spec_apply_mutations(
        spec_swap_seq(s, p[0].0.0 as int, p[0].0.1 as int), p.drop_first()));
    if ms.len() == 0 {
        assert(p.drop_first() =~= Seq::<Mutation>::empty());
        assert(p[0] == m);
        assert(spec_apply_mutations(s, ms) == s);
        let t = spec_swap_seq(s, m.0.0 as int, m.0.1 as int);
        assert(spec_apply_mutations(t, Seq::<Mutation>::empty()) == t);
    } else {
        assert(p.drop_first() =~= ms.drop_first().push(m));
        assert(p[0] == ms[0]);
        lemma_apply_mutations_push(
            spec_swap_seq(s, ms[0].0.0 as int, ms[0].0.1 as int), ms.drop_first(), m);
        assert(spec_apply_mutations(s, ms) == spec_apply_mutations(
            spec_swap_seq(s, ms[0].0.0 as int, ms[0].0.1 as int), ms.drop_first()));
    }
}

impl Deck {
    /// Transposes the two positions of the mutation.
    pub fn apply_mutation(self, mutation: Mutation) -> (r: Deck)
        requires
            mutation.0.0 < self@.len(),
            mutation.0.1 < self@.len(),
        ensures
            r@ == spec_swap_seq(self@, mutation.0.0 as int, mutation.0.1 as int),
            r@.to_multiset() == self@.to_multiset(),
            r@.len() == self@.len(),
    {
        let mut d = self;
        d.swap(mutation.0.0, mutation.0.1);
        d
    }

    /// Applies each transposition of the list in order.
    pub fn apply_mutations(self, mutations: &Vec<Mutation>) -> (r: Deck)
        requires
            forall|i: int| 0 <= i < mutations@.len()
                ==> (#[trigger] mutations@[i]).0.0 < self@.len()
                    && mutations@[i].0.1 < self@.len(),
        ensures
            r@ == spec_apply_mutations(self@, mutations@),
            r@.to_multiset() == self@.to_multiset(),
            r@.len() == self@.len(),
    {
        let ghost orig = self@;
        let mut d = self;
        let n = mutations.len();
        let mut k: usize = 0;
        while k < n
            invariant
                0 <= k <= n,
                n == mutations@.len(),
                d@.len() == orig.len(),
                d@.to_multiset() == orig.to_multiset(),
                d@ == spec_apply_mutations(orig, mutations@.take(k as int)),
                forall|i: int| 0 <= i < mutations@.len()
                    ==> (#[trigger] mutations@[i]).0.0 < orig.len()
                        && mutations@[i].0.1 < orig.len(),
            decreases n - k,
        {
            let m = mutations[k];
            d = d.apply_mutation(m);
            proof {
                lemma_apply_mutations_push(orig, mutations@.take(k as int), m);
                assert(mutations@.take(k as int).push(m) =~= mutations@.take(k + 1));
            }
            k = k + 1;
        }
        proof {
            assert(mutations@.take(n as int) =~= mutations@);
        }
        d
    }

    /// Fisher-Yates shuffle driven by the generator; the result holds the
    /// same 52 cards in some order.
    pub fn shuffle(self, rand: &mut oorandom::Rand32) -> (r: Deck)
        requires
            self@.len() == 52,
        ensures
            r@.len() == 52,
            r@.to_multiset() == self@.to_multiset(),
            valid_deck(self@) ==> valid_deck(r@),
    {
        let ghost orig = self@;
        let mut d = self;
        let n: u32 = 52;
        let mut i: u32 = 0;
        while i < n - 1
            invariant
                0 <= i <= n - 1,
                n == 52,
                d@.len() == 52,
                d@.to_multiset() == orig.to_multiset(),
            decreases n - 1 - i,
        {
            let j = rand_range(rand, i, n);
            d.swap(i as usize, j as usize);
            i = i + 1;
        }
        proof {
            if valid_deck(orig) {
                lemma_same_multiset_valid(orig, d@);
            }
        }
        d
    }
}

/// The non-overlap and bounds condition under which a block swap acts; any
/// other block swap is a no-op.
pub open spec fn block_swap_ok(a: int, b: int, l: int) -> bool {
    a + l <= 52 && b + l <= 52 && (a + l <= b || b + l <= a)
}

/// The sequence with the blocks `[a, a+l)` and `[b, b+l)` exchanged.
pub open spec fn spec_block_swap(s: Seq<u8>, a: int, b: int, l: int) -> Seq<u8> {
    Seq::new(s.len(), |k: int|
        if a <= k < a + l {
            s[b + (k - a)]
        } else if b <= k < b + l {
            s[a + (k - b)]
        } else {
            s[k]
        })
}

/// The sequence with the segment `[a, b)` reversed.
pub open spec fn spec_reverse_seg(s: Seq<u8>, a: int, b: int) -> Seq<u8> {
    Seq::new(s.len(), |k: int| if a <= k < b { s[a + b - 1 - k] } else { s[k] })
}

/// The five deck perturbations used by the search.
#[derive(Debug, Clone, Copy)]
pub enum AdvancedMutation {
    Swap(usize, usize),
    BlockSwap(usize, usize, usize),
    Reversal(usize, usize),
    Rotation(usize),
    Scramble(usize, usize),
}

impl AdvancedMutation {
    /// The parameter ranges that `generate` draws from.
    pub open spec fn wf(self) -> bool {
        match self {
            AdvancedMutation::Swap(i, j) => i < 52 && j < 52,
            AdvancedMutation::BlockSwap(a, b, l) => 2 <= l < 8 && a + l <= 52 && b + l <= 52,
            AdvancedMutation::Reversal(s, e) => s <= e && e <= 52,
            AdvancedMutation::Rotation(k) => 1 <= k < 52,
            AdvancedMutation::Scramble(s, e) => s <= e && e <= 52 && e <= s + 10,
        }
    }

    /// Draws one perturbation.  Rates are given in thousandths; above 200
    /// the choice is uniform over all five kinds, otherwise it is weighted
    /// towards transpositions and reversals.
    pub fn generate(rng: &mut oorandom::Rand32, mutation_rate: u32) -> (r: AdvancedMutation)
        ensures
            r.wf(),
    {
        let mutation_type: u32 = if mutation_rate > 200 {
            rand_range(rng, 0, 5)
        } else {
            let t = rand_range(rng, 0, 10);
            if t <= 5 {
                0
            } else if t <= 8 {
                2
            } else {
                1
            }
        };

        if mutation_type == 0 {
            let a = rand_range(rng, 0, 52);
            let b = rand_range(rng, 0, 52);
            AdvancedMutation::Swap(a as usize, b as usize)
        } else if mutation_type == 1 {
            let len = rand_range(rng, 2, 8);
            let start1 = rand_range(rng, 0, 52 - len);
            let start2 = rand_range(rng, 0, 52 - len);
            AdvancedMutation::BlockSwap(start1 as usize, start2 as usize, len as usize)
        } else if mutation_type == 2 {
            let a = rand_range(rng, 0, 52);
            let b = rand_range(rng, 0, 52);
            let start = if a < b { a } else { b };
            let end = if a < b { b } else { a };
            AdvancedMutation::Reversal(start as usize, end as usize)
        } else if mutation_type == 3 {
            let pos = rand_range(rng, 1, 52);
            AdvancedMutation::Rotation(pos as usize)
        } else {
            let a = rand_range(rng, 0, 52);
            let b = rand_range(rng, 0, 52);
            let start = if a < b { a } else { b };
            let mx = if a < b { b } else { a };
            let end = if mx < start + 10 { mx } else { start + 10 };
            AdvancedMutation::Scramble(start as usize, end as usize)
        }
    }

    /// Applies the perturbation.  A perturbation whose indices fall outside
    /// the deck, or a block swap whose blocks overlap, leaves the deck
    /// unchanged; every outcome holds the same 52 cards.
    pub fn apply(self, deck: Deck, rng: &mut oorandom::Rand32) -> (r: Deck)
        requires
            deck@.len() == 52,
        ensures
            r@.len() == 52,
            r@.to_multiset() == deck@.to_multiset(),
            valid_deck(deck@) ==> valid_deck(r@),
            match self {
                AdvancedMutation::Swap(i, j) => r@ == if i < 52 && j < 52 {
                    spec_swap_seq(deck@, i as int, j as int)
                } else {
                    deck@
                },
                AdvancedMutation::BlockSwap(a, b, l) => r@ == if block_swap_ok(
                    a as int, b as int, l as int) {
                    spec_block_swap(deck@, a as int, b as int, l as int)
                } else {
                    deck@
                },
                AdvancedMutation::Reversal(s, e) => r@ == if s < e && e <= 52 {
                    spec_reverse_seg(deck@, s as int, e as int)
                } else {
                    deck@
                },
                AdvancedMutation::Rotation(k) => r@ == if k <= 52 {
                    deck@.subrange(k as int, 52) + deck@.subrange(0, k as int)
                } else {
                    deck@
                },
                AdvancedMutation::Scramble(_, _) => true,
            },
    {
        let ghost orig = deck@;
        let r = match self {
            AdvancedMutation::Swap(i, j) => {
                if i < 52 && j < 52 {
                    let mut d = deck;
                    d.swap(i, j);
                    d
                } else {
                    deck
                }
            }
            AdvancedMutation::BlockSwap(start1, start2, len) => {
                if len <= 52 && start1 <= 52 - len && start2 <= 52 - len
                    && (start1 + len <= start2 || start2 + len <= start1) {
                    let mut d = deck;
                    let mut i: usize = 0;
                    while i < len
                        invariant
                            0 <= i <= len,
                            start1 + len <= 52,
                            start2 + len <= 52,
                            start1 + len <= start2 || start2 + len <= start1,
                            d@.len() == 52,
                            d@.to_multiset() == orig.to_multiset(),
                            forall|k: int| start1 <= k < start1 + i ==> d@[k] == orig[start2 + (k - start1)],
                            forall|k: int| start2 <= k < start2 + i ==> d@[k] == orig[start1 + (k - start2)],
                            forall|k: int| 0 <= k < 52 && !(start1 <= k < start1 + i)
                                && !(start2 <= k < start2 + i) ==> d@[k] == orig[k],
                        decreases len - i,
                    {
                        d.swap(start1 + i, start2 + i);
                        i = i + 1;
                    }
                    proof {
                        assert(d@ =~= spec_block_swap(orig, start1 as int, start2 as int, len as int));
                    }
                    d
                } else {
                    deck
                }
            }
            AdvancedMutation::Reversal(start, end) => {
                if start < end && end <= 52 {
                    let mut d = deck;
                    let mut i: usize = start;
                    let mut j: usize = end - 1;
                    while i < j
                        invariant
                            start <= i <= j + 1,
                            j < end <= 52,
                            i + j == start + end - 1,
                            d@.len() == 52,
                            d@.to_multiset() == orig.to_multiset(),
                            forall|k: int| start <= k < i ==> d@[k] == orig[start + end - 1 - k],
                            forall|k: int| j < k < end ==> d@[k] == orig[start + end - 1 - k],
                            forall|k: int| 0 <= k < 52 && !(start <= k < i) && !(j < k < end)
                                ==> d@[k] == orig[k],
                        decreases j,
                    {
                        d.swap(i, j);
                        i = i + 1;
                        j = j - 1;
                    }
                    proof {
                        let rs = spec_reverse_seg(orig, start as int, end as int);
                        assert forall|k: int| 0 <= k < 52 implies d@[k] == rs[k] by {
                            if start <= k < end {
                                if k < i {
                                    assert(d@[k] == orig[start + end - 1 - k]);
                                } else if k > j {
                                    assert(d@[k] == orig[start + end - 1 - k]);
                                } else {
                                    assert(k == i && k == j);
                                    assert(d@[k] == orig[k]);
                                    assert(start + end - 1 - k == k);
                                }
                            }
                        };
                        assert(d@ =~= rs);
                    }
                    d
                } else {
                    deck
                }
            }
            AdvancedMutation::Rotation(pos) => {
                if pos <= 52 {
                    deck.cut(pos)
                } else {
                    deck
                }
            }
            AdvancedMutation::Scramble(start, end) => {
                if start < end && end <= 52 {
                    let mut d = deck;
                    let mut i: usize = start;
                    while i < end
                        invariant
                            start <= i <= end <= 52,
                            start < end,
                            d@.len() == 52,
                            d@.to_multiset() == orig.to_multiset(),
                        decreases end - i,
                    {
                        let j = rand_range(rng, i as u32, end as u32);
                        d.swap(i, j as usize);
                        i = i + 1;
                    }
                    d
                } else {
                    deck
                }
            }
        };
        proof {
            if valid_deck(orig) {
                lemma_same_multiset_valid(orig, r@);
            }
        }
        r
    }
}

/// Draws a batch of adaptive perturbations: two to four of them above a
/// rate of 200 thousandths, one or two otherwise.
pub fn generate_adaptive_mutations(rng: &mut oorandom::Rand32, mutation_rate: u32)
    -> (r: Vec<AdvancedMutation>)
    ensures
        1 <= r@.len() <= 4,
        forall|i: int| 0 <= i < r@.len() ==> (#[trigger] r@[i]).wf(),
{
    let num_mutations: u32 = if mutation_rate > 200 {
        rand_range(rng, 2, 5)
    } else {
        rand_range(rng, 1, 3)
    };

    let mut muts: Vec<AdvancedMutation> = Vec::new();
    let mut k: u32 = 0;
    while k < num_mutations
        invariant
            num_mutations < 5,
            0 <= k <= num_mutations,
            muts@.len() == k,
            forall|i: int| 0 <= i < muts@.len() ==> (#[trigger] muts@[i]).wf(),
        decreases num_mutations - k,
    {
        let m = AdvancedMutation::generate(rng, mutation_rate);
        muts.push(m);
        k = k + 1;
    }
    muts
}

/// The cards of `p2`, in order, that do not occur in `keep`.
pub open spec fn spec_fill(p2: Seq<u8>, keep: Seq<u8>) -> Seq<u8>
    decreases p2.len(),
{
    if p2.len() == 0 {
        Seq::empty()
    } else {
        let rest = spec_fill(p2.drop_last(), keep);
        if keep.contains(p2.last()) {
            rest
        } else {
            rest.push(p2.last())
        }
    }
}

/// The child of a two-point order crossover: the segment `[start, end)` of
/// the first parent, with the remaining positions filled by the second
/// parent's other cards in order.
pub open spec fn spec_ox(p1: Seq<u8>, p2: Seq<u8>, start: int, end: int) -> Seq<u8> {
    let seg = p1.subrange(start, end);
    let fill = spec_fill(p2, seg);
    fill.take(start) + seg + fill.skip(start)
}

proof fn lemma_fill_multiset(p2: Seq<u8>, keep: Seq<u8>)
    ensures
        forall|c: u8| #[trigger] spec_fill(p2, keep).to_multiset().count(c)
            == if keep.contains(c) { 0nat } else { p2.to_multiset().count(c) },
    decreases p2.len(),
{
    if p2.len() == 0 {
        assert forall|c: u8| #[trigger] spec_fill(p2, keep).to_multiset().count(c)
            == if keep.contains(c) { 0nat } else { p2.to_multiset().count(c) } by {
            assert(!spec_fill(p2, keep).contains(c));
            assert(!p2.contains(c));
        };
    } else {
        let rest = spec_fill(p2.drop_last(), keep);
        lemma_fill_multiset(p2.drop_last(), keep);
        assert(p2 =~= p2.drop_last().push(p2.last()));
        assert(p2.to_multiset() == p2.drop_last().to_multiset().insert(p2.last()));
        assert forall|c: u8| #[trigger] spec_fill(p2, keep).to_multiset().count(c)
            == if keep.contains(c) { 0nat } else { p2.to_multiset().count(c) } by {
            broadcast use vstd::multiset::group_multiset_axioms;
            if keep.contains(p2.last()) {
                assert(spec_fill(p2, keep) == rest);
            } else {
                assert(spec_fill(p2, keep) == rest.push(p2.last()));
                assert(spec_fill(p2, keep).to_multiset() == rest.to_multiset().insert(p2.last()));
            }
        };
    }
}

proof fn lemma_subrange_count(s: Seq<u8>, a: int, b: int)
    requires
        0 <= a <= b <= s.len(),
    ensures
        forall|c: u8| #[trigger] s.subrange(a, b).to_multiset().count(c)
            <= s.to_multiset().count(c),
{
    broadcast use vstd::multiset::group_multiset_axioms;
    let x = s.subrange(0, a);
    let y = s.subrange(a, b);
    let z = s.subrange(b, s.len() as int);
    assert(s =~= (x + y) + z);
    vstd::seq_lib::lemma_multiset_commutative(x + y, z);
    vstd::seq_lib::lemma_multiset_commutative(x, y);
}

/// The fill of a full deck against a duplicate-free selection of cards,
/// concatenated with that selection, holds the same 52 cards as the deck.
proof fn lemma_fill_total(p2: Seq<u8>, keep: Seq<u8>)
    requires
        valid_deck(p2),
        forall|c: u8| #[trigger] keep.to_multiset().count(c) <= 1,
        forall|i: int| 0 <= i < keep.len() ==> keep[i] < 52,
    ensures
        (spec_fill(p2, keep) + keep).to_multiset() == p2.to_multiset(),
        spec_fill(p2, keep).len() + keep.len() == 52,
{
    broadcast use vstd::multiset::group_multiset_axioms;
    let fill = spec_fill(p2, keep);
    let u = fill + keep;
    lemma_fill_multiset(p2, keep);
    vstd::seq_lib::lemma_multiset_commutative(fill, keep);
    assert forall|c: u8| #[trigger] u.to_multiset().count(c) == p2.to_multiset().count(c) by {
        assert(u.to_multiset().count(c) == fill.to_multiset().count(c)
            + keep.to_multiset().count(c));
        if keep.contains(c) {
            let i = choose|i: int| 0 <= i < keep.len() && keep[i] == c;
            assert(keep[i] < 52);
            assert(keep.to_multiset().count(c) >= 1);
            assert(keep.to_multiset().count(c) == 1);
            assert(fill.to_multiset().count(c) == 0);
            assert(p2.to_multiset().count(c) == 1);
        } else {
            assert(keep.to_multiset().count(c) == 0);
            assert(fill.to_multiset().count(c) == p2.to_multiset().count(c));
        }
    };
    assert(u.to_multiset() =~= p2.to_multiset());
    assert(u.to_multiset().len() == p2.to_multiset().len());
    assert(u.len() == 52);
}

impl Deck {
    /// A card-for-card copy of the deck.
    pub fn duplicate(&self) -> (r: Deck)
        ensures
            r@ == self@,
    {
        let n = self.0.len();
        let mut v: Vec<Card> = Vec::new();
        let mut i: usize = 0;
        while i < n
            invariant
                0 <= i <= n,
                n == self@.len(),
                v@.len() == i,
                forall|k: int| 0 <= k < i ==> v@[k].0 == self@[k],
            decreases n - i,
        {
            v.push(self.0[i]);
            i = i + 1;
        }
        let r = Deck(v);
        proof {
            assert(r@ =~= self@);
        }
        r
    }

    /// Two-point order crossover: keeps `parent1[start..end]` in place and
    /// fills the remaining positions with `parent2`'s other cards in order.
    /// The child is always a full deck again.
    pub fn crossover_at(parent1: &Deck, parent2: &Deck, start: usize, end: usize) -> (r: Deck)
        requires
            valid_deck(parent1@),
            valid_deck(parent2@),
            start <= end <= 52,
        ensures
            r@ == spec_ox(parent1@, parent2@, start as int, end as int),
            valid_deck(r@),
    {
        let ghost segg = parent1@.subrange(start as int, end as int);
        let ghost fillg = spec_fill(parent2@, segg);

        proof {
            lemma_subrange_count(parent1@, start as int, end as int);
            lemma_fill_total(parent2@, segg);
            assert(fillg.len() == 52 - (end - start));
        }

        // Mark which cards belong to the kept segment of parent1.
        let mut in_seg: Vec<bool> = Vec::new();
        let mut c: usize = 0;
        while c < 52
            invariant
                0 <= c <= 52,
                in_seg@.len() == c,
                forall|k: int| 0 <= k < c ==> in_seg@[k] == false,
            decreases 52 - c,
        {
            in_seg.push(false);
            c = c + 1;
        }
        let mut i: usize = start;
        while i < end
            invariant
                start <= i <= end <= 52,
                valid_deck(parent1@),
                segg == parent1@.subrange(start as int, end as int),
                in_seg@.len() == 52,
                forall|k: int| 0 <= k < 52 ==> (in_seg@[k] <==> parent1@.subrange(
                    start as int, i as int).contains(k as u8)),
            decreases end - i,
        {
            let card = self_index(parent1, i);
            in_seg.set(card.0 as usize, true);
            proof {
                let prev = parent1@.subrange(start as int, i as int);
                let now = parent1@.subrange(start as int, i + 1);
                assert(now =~= prev.push(parent1@[i as int]));
                assert forall|k: int| 0 <= k < 52 implies
                    (in_seg@[k] <==> now.contains(k as u8)) by {
                    if in_seg@[k] {
                        if k == parent1@[i as int] {
                            assert(now[now.len() - 1] == k as u8);
                        } else {
                            assert(prev.contains(k as u8));
                            let w = choose|w: int| 0 <= w < prev.len() && prev[w] == k as u8;
                            assert(now[w] == k as u8);
                        }
                    } else {
                        if now.contains(k as u8) {
                            let w = choose|w: int| 0 <= w < now.len() && now[w] == k as u8;
                            assert(w < prev.len() ==> prev[w] == k as u8);
                        }
                    }
                };
            }
            i = i + 1;
        }
        proof {
            assert(parent1@.subrange(start as int, end as int) == segg);
        }

        // Collect parent2's cards that are not in the segment, in order.
        let mut fill: Vec<Card> = Vec::new();
        let mut k: usize = 0;
        while k < 52
            invariant
                0 <= k <= 52,
                valid_deck(parent2@),
                in_seg@.len() == 52,
                forall|q: int| 0 <= q < 52 ==> (in_seg@[q] <==> segg.contains(q as u8)),
                fill@.map_values(|cd: Card| cd.0) == spec_fill(parent2@.take(k as int), segg),
            decreases 52 - k,
        {
            let card = self_index(parent2, k);
            proof {
                let prev = parent2@.take(k as int);
                let now = parent2@.take(k + 1);
                assert(now.drop_last() =~= prev);
                assert(now.last() == parent2@[k as int]);
                assert(spec_fill(now, segg) == if segg.contains(parent2@[k as int]) {
                    spec_fill(prev, segg)
                } else {
                    spec_fill(prev, segg).push(parent2@[k as int])
                });
            }
            if !in_seg[card.0 as usize] {
                fill.push(card);
                proof {
                    assert(fill@.map_values(|cd: Card| cd.0) =~= spec_fill(
                        parent2@.take(k as int), segg).push(parent2@[k as int]));
                }
            }
            k = k + 1;
        }
        proof {
            assert(parent2@.take(52) =~= parent2@);
            assert(fill@.map_values(|cd: Card| cd.0) == fillg);
            assert(fill@.len() == fillg.len());
        }

        // Assemble: fill[..start] ++ parent1[start..end] ++ fill[start..].
        let mut child: Vec<Card> = Vec::new();
        let mut a: usize = 0;
        while a < start
            invariant
                0 <= a <= start,
                start <= fill@.len(),
                child@.len() == a,
                fill@.map_values(|cd: Card| cd.0) == fillg,
                forall|q: int| 0 <= q < a ==> child@[q].0 == fillg[q],
            decreases start - a,
        {
            child.push(fill[a]);
            a = a + 1;
        }
        let mut b: usize = start;
        while b < end
            invariant
                start <= b <= end <= 52,
                valid_deck(parent1@),
                child@.len() == b,
                segg == parent1@.subrange(start as int, end as int),
                segg.len() == end - start,
                forall|q: int| 0 <= q < start ==> child@[q].0 == fillg[q],
                forall|q: int| start <= q < b ==> child@[q].0 == segg[q - start],
            decreases end - b,
        {
            child.push(self_index(parent1, b));
            b = b + 1;
        }
        let fill_len = fill.len();
        let mut d: usize = start;
        while d < fill_len
            invariant
                start <= d <= fill_len,
                fill_len == fillg.len() == 52 - (end - start),
                start <= end <= 52,
                child@.len() == end + (d - start),
                fill@.map_values(|cd: Card| cd.0) == fillg,
                segg.len() == end - start,
                forall|q: int| 0 <= q < start ==> child@[q].0 == fillg[q],
                forall|q: int| start <= q < end ==> child@[q].0 == segg[q - start],
                forall|q: int| end <= q < child@.len() ==> child@[q].0 == fillg[q - (end - start)],
            decreases fill_len - d,
        {
            child.push(fill[d]);
            d = d + 1;
        }

        let r = Deck(child);
        proof {
            broadcast use vstd::multiset::group_multiset_axioms;
            let pa = fillg.take(start as int);
            let pb = fillg.skip(start as int);
            assert(r@.len() == 52);
            assert(r@ =~= (pa + segg) + pb);
            assert(fillg =~= pa + pb);
            vstd::seq_lib::lemma_multiset_commutative(pa + segg, pb);
            vstd::seq_lib::lemma_multiset_commutative(pa, segg);
            vstd::seq_lib::lemma_multiset_commutative(pa, pb);
            vstd::seq_lib::lemma_multiset_commutative(fillg, segg);
            lemma_fill_total(parent2@, segg);
            assert(r@.to_multiset() =~= (fillg + segg).to_multiset());
            assert(r@.to_multiset() == parent2@.to_multiset());
            lemma_same_multiset_valid(parent2@, r@);
            assert(r@ == spec_ox(parent1@, parent2@, start as int, end as int));
        }
        r
    }

    /// Two-point order crossover at positions drawn from the generator.
    pub fn crossover(parent1: &Deck, parent2: &Deck, rng: &mut oorandom::Rand32) -> (r: Deck)
        requires
            valid_deck(parent1@),
            valid_deck(parent2@),
        ensures
            valid_deck(r@),
    {
        let point1 = rand_range(rng, 0, 52) as usize;
        let point2 = rand_range(rng, 0, 52) as usize;
        let (start, end) = if point1 < point2 {
            (point1, point2)
        } else {
            (point2, point1)
        };
        Deck::crossover_at(parent1, parent2, start, end)
    }
}

/// The cards of the first `i` positions of `p1` that the mask selects.
pub open spec fn spec_masked(p1: Seq<u8>, mask: Seq<bool>, i: int) -> Seq<u8>
    decreases i,
{
    if i <= 0 {
        Seq::empty()
    } else if mask[i - 1] {
        spec_masked(p1, mask, i - 1).push(p1[i - 1])
    } else {
        spec_masked(p1, mask, i - 1)
    }
}

/// How many of the first `i` mask entries are set.
pub open spec fn num_true(mask: Seq<bool>, i: int) -> int
    decreases i,
{
    if i <= 0 {
        0
    } else {
        num_true(mask, i - 1) + if mask[i - 1] { 1int } else { 0 }
    }
}

/// The child of a uniform order crossover: positions selected by the mask
/// keep the first parent's card; the rest are filled with the second
/// parent's remaining cards in order.
pub open spec fn spec_ux(p1: Seq<u8>, p2: Seq<u8>, mask: Seq<bool>) -> Seq<u8> {
    let fill = spec_fill(p2, spec_masked(p1, mask, 52));
    Seq::new(52, |i: int| if mask[i] { p1[i] } else { fill[i - num_true(mask, i)] })
}

proof fn lemma_num_true_bounds(mask: Seq<bool>, i: int, j: int)
    requires
        0 <= i <= j,
    ensures
        num_true(mask, i) <= num_true(mask, j) <= num_true(mask, i) + (j - i),
    decreases j - i,
{
    if i < j {
        lemma_num_true_bounds(mask, i, j - 1);
    }
}

proof fn lemma_masked_len(p1: Seq<u8>, mask: Seq<bool>, i: int)
    requires
        0 <= i,
    ensures
        spec_masked(p1, mask, i).len() == num_true(mask, i),
    decreases i,
{
    if i > 0 {
        lemma_masked_len(p1, mask, i - 1);
    }
}

proof fn lemma_masked_count(p1: Seq<u8>, mask: Seq<bool>, i: int)
    requires
        0 <= i <= p1.len(),
    ensures
        forall|c: u8| #[trigger] spec_masked(p1, mask, i).to_multiset().count(c)
            <= p1.take(i).to_multiset().count(c),
    decreases i,
{
    broadcast use vstd::multiset::group_multiset_axioms;
    if i == 0 {
        assert forall|c: u8| #[trigger] spec_masked(p1, mask, 0).to_multiset().count(c)
            <= p1.take(0).to_multiset().count(c) by {
            assert(!spec_masked(p1, mask, 0).contains(c));
        };
    } else {
        lemma_masked_count(p1, mask, i - 1);
        assert(p1.take(i) =~= p1.take(i - 1).push(p1[i - 1]));
        assert(p1.take(i).to_multiset() == p1.take(i - 1).to_multiset().insert(p1[i - 1]));
        if mask[i - 1] {
            assert(spec_masked(p1, mask, i).to_multiset()
                == spec_masked(p1, mask, i - 1).to_multiset().insert(p1[i - 1]));
        }
    }
}

impl Deck {
    /// Uniform order crossover with an explicit mask: positions where the
    /// mask is set keep the first parent's card, the rest are filled with
    /// the second parent's other cards in order.  The child is always a
    /// full deck again.
    pub fn uniform_crossover_with_mask(parent1: &Deck, parent2: &Deck, mask: &Vec<bool>)
        -> (r: Deck)
        requires
            valid_deck(parent1@),
            valid_deck(parent2@),
            mask@.len() == 52,
        ensures
            r@ == spec_ux(parent1@, parent2@, mask@),
            valid_deck(r@),
    {
        let ghost keep = spec_masked(parent1@, mask@, 52);
        let ghost fillg = spec_fill(parent2@, keep);
        proof {
            lemma_masked_count(parent1@, mask@, 52);
            assert(parent1@.take(52) =~= parent1@);
            assert forall|c: u8| #[trigger] keep.to_multiset().count(c) <= 1 by {
                if c < 52 {
                    assert(parent1@.to_multiset().count(c) == 1);
                } else {
                    if keep.to_multiset().count(c) > 0 {
                        assert(parent1@.to_multiset().count(c) > 0);
                        assert(parent1@.contains(c));
                        let w = choose|w: int| 0 <= w < 52 && parent1@[w] == c;
                        assert(parent1@[w] < 52);
                    }
                }
            };
            assert forall|q: int| 0 <= q < keep.len() implies keep[q] < 52 by {
                assert(keep.contains(keep[q]));
                assert(keep.to_multiset().count(keep[q]) > 0);
                assert(parent1@.to_multiset().count(keep[q]) > 0);
                assert(parent1@.contains(keep[q]));
                let w = choose|w: int| 0 <= w < 52 && parent1@[w] == keep[q];
                assert(parent1@[w] < 52);
            };
            lemma_fill_total(parent2@, keep);
            lemma_masked_len(parent1@, mask@, 52);
        }

        // Mark which cards the mask keeps from parent1.
        let mut in_keep: Vec<bool> = Vec::new();
        let mut c: usize = 0;
        while c < 52
            invariant
                0 <= c <= 52,
                in_keep@.len() == c,
                forall|k: int| 0 <= k < c ==> in_keep@[k] == false,
            decreases 52 - c,
        {
            in_keep.push(false);
            c = c + 1;
        }
        let mut i: usize = 0;
        while i < 52
            invariant
                0 <= i <= 52,
                valid_deck(parent1@),
                mask@.len() == 52,
                in_keep@.len() == 52,
                forall|k: int| 0 <= k < 52 ==> (in_keep@[k] <==> spec_masked(
                    parent1@, mask@, i as int).contains(k as u8)),
            decreases 52 - i,
        {
            let ghost prev = spec_masked(parent1@, mask@, i as int);
            let ghost now = spec_masked(parent1@, mask@, i + 1);
            if mask[i] {
                let card = self_index(parent1, i);
                in_keep.set(card.0 as usize, true);
                proof {
                    assert(now == prev.push(parent1@[i as int]));
                    assert forall|k: int| 0 <= k < 52 implies
                        (in_keep@[k] <==> now.contains(k as u8)) by {
                        if in_keep@[k] {
                            if k == parent1@[i as int] {
                                assert(now[now.len() - 1] == k as u8);
                            } else {
                                assert(prev.contains(k as u8));
                                let w = choose|w: int| 0 <= w < prev.len() && prev[w] == k as u8;
                                assert(now[w] == k as u8);
                            }
                        } else {
                            if now.contains(k as u8) {
                                let w = choose|w: int| 0 <= w < now.len() && now[w] == k as u8;
                                assert(w < prev.len() ==> prev[w] == k as u8);
                            }
                        }
                    };
                }
            } else {
                proof {
                    assert(now == prev);
                }
            }
            i = i + 1;
        }

        // Collect parent2's cards that are not kept, in order.
        let mut fill: Vec<Card> = Vec::new();
        let mut k: usize = 0;
        while k < 52
            invariant
                0 <= k <= 52,
                valid_deck(parent2@),
                in_keep@.len() == 52,
                forall|q: int| 0 <= q < 52 ==> (in_keep@[q] <==> keep.contains(q as u8)),
                fill@.map_values(|cd: Card| cd.0) == spec_fill(parent2@.take(k as int), keep),
            decreases 52 - k,
        {
            let card = self_index(parent2, k);
            proof {
                let prev = parent2@.take(k as int);
                let now = parent2@.take(k + 1);
                assert(now.drop_last() =~= prev);
                assert(now.last() == parent2@[k as int]);
                assert(spec_fill(now, keep) == if keep.contains(parent2@[k as int]) {
                    spec_fill(prev, keep)
                } else {
                    spec_fill(prev, keep).push(parent2@[k as int])
                });
            }
            if !in_keep[card.0 as usize] {
                fill.push(card);
                proof {
                    assert(fill@.map_values(|cd: Card| cd.0) =~= spec_fill(
                        parent2@.take(k as int), keep).push(parent2@[k as int]));
                }
            }
            k = k + 1;
        }
        proof {
            assert(parent2@.take(52) =~= parent2@);
            assert(fill@.map_values(|cd: Card| cd.0) == fillg);
            assert(fill@.len() == fillg.len());
        }

        // Interleave: masked positions from parent1, the rest from the fill.
        let fill_len = fill.len();
        let mut child: Vec<Card> = Vec::new();
        let mut fi: usize = 0;
        let mut p: usize = 0;
        while p < 52
            invariant
                0 <= p <= 52,
                valid_deck(parent1@),
                mask@.len() == 52,
                child@.len() == p,
                fi == p - num_true(mask@, p as int),
                0 <= fi <= fill_len,
                fill_len == fillg.len() == 52 - keep.len(),
                keep.len() == num_true(mask@, 52),
                fill@.map_values(|cd: Card| cd.0) == fillg,
                child@.map_values(|cd: Card| cd.0).to_multiset()
                    == spec_masked(parent1@, mask@, p as int).to_multiset().add(
                        fillg.take(fi as int).to_multiset()),
                forall|q: int| 0 <= q < p ==> child@[q].0 == (if mask@[q] {
                    parent1@[q]
                } else {
                    fillg[q - num_true(mask@, q)]
                }),
            decreases 52 - p,
        {
            let ghost prevm = spec_masked(parent1@, mask@, p as int);
            let ghost prevc = child@.map_values(|cd: Card| cd.0);
            proof {
                lemma_num_true_bounds(mask@, p as int, p + 1);
            }
            if mask[p] {
                let card = self_index(parent1, p);
                child.push(card);
                proof {
                    broadcast use vstd::multiset::group_multiset_axioms;
                    assert(child@.map_values(|cd: Card| cd.0) =~= prevc.push(parent1@[p as int]));
                    assert(spec_masked(parent1@, mask@, p + 1)
                        == prevm.push(parent1@[p as int]));
                    assert(child@.map_values(|cd: Card| cd.0).to_multiset()
                        =~= spec_masked(parent1@, mask@, p + 1).to_multiset().add(
                            fillg.take(fi as int).to_multiset()));
                }
            } else {
                proof {
                    lemma_num_true_bounds(mask@, p + 1, 52);
                    assert(num_true(mask@, p + 1) == num_true(mask@, p as int));
                    assert(fi < fill_len);
                }
                let card = fill[fi];
                child.push(card);
                fi = fi + 1;
                proof {
                    broadcast use vstd::multiset::group_multiset_axioms;
                    assert(child@.map_values(|cd: Card| cd.0) =~= prevc.push(fillg[fi - 1]));
                    assert(fillg.take(fi as int) =~= fillg.take(fi - 1).push(fillg[fi - 1]));
                    assert(spec_masked(parent1@, mask@, p + 1) == prevm);
                    assert(child@.map_values(|cd: Card| cd.0).to_multiset()
                        =~= spec_masked(parent1@, mask@, p + 1).to_multiset().add(
                            fillg.take(fi as int).to_multiset()));
                }
            }
            p = p + 1;
        }

        let r = Deck(child);
        proof {
            broadcast use vstd::multiset::group_multiset_axioms;
            assert(fi == fill_len);
            assert(fillg.take(fi as int) =~= fillg);
            assert(r@.to_multiset() == keep.to_multiset().add(fillg.to_multiset()));
            vstd::seq_lib::lemma_multiset_commutative(fillg, keep);
            assert(r@.to_multiset() =~= (fillg + keep).to_multiset());
            assert(r@.to_multiset() == parent2@.to_multiset());
            lemma_same_multiset_valid(parent2@, r@);
            assert(r@ =~= spec_ux(parent1@, parent2@, mask@));
        }
        r
    }

    /// Uniform order crossover: each position keeps the first parent's card
    /// with even odds; holes are filled from the second parent in order.
    pub fn uniform_crossover(parent1: &Deck, parent2: &Deck, rng: &mut oorandom::Rand32)
        -> (r: Deck)
        requires
            valid_deck(parent1@),
            valid_deck(parent2@),
        ensures
            valid_deck(r@),
    {
        let mut mask: Vec<bool> = Vec::new();
        let mut i: usize = 0;
        while i < 52
            invariant
                0 <= i <= 52,
                mask@.len() == i,
            decreases 52 - i,
        {
            let coin = rand_range(rng, 0, 2);
            mask.push(coin == 0);
            i = i + 1;
        }
        Deck::uniform_crossover_with_mask(parent1, parent2, &mask)
    }
}

/// Reads the card at position `i` of a deck.
fn self_index(d: &Deck, i: usize) -> (r: Card)
    requires
        i < d@.len(),
    ensures
        r.0 == d@[i as int],
{
    d.0[i]
}

/// The card id that new-pack order places at position `i`.
pub open spec fn new_order_card(i: int) -> u8 {
    (i / 4 + 13 * (i % 4)) as u8
}

proof fn lemma_new_order_injective(i: int, j: int)
    requires
        0 <= i < 52,
        0 <= j < 52,
        i != j,
    ensures
        new_order_card(i) != new_order_card(j),
{
    vstd::arithmetic::div_mod::lemma_fundamental_div_mod(i, 4);
    vstd::arithmetic::div_mod::lemma_fundamental_div_mod(j, 4);
    let fi = i / 4 + 13 * (i % 4);
    let fj = j / 4 + 13 * (j % 4);
    vstd::arithmetic::div_mod::lemma_fundamental_div_mod_converse(fi, 13, i % 4, i / 4);
    vstd::arithmetic::div_mod::lemma_fundamental_div_mod_converse(fj, 13, j % 4, j / 4);
    if fi == fj {
        assert(i % 4 == j % 4);
        assert(i / 4 == j / 4);
        assert(i == j);
    }
}

proof fn lemma_new_order_valid(s: Seq<u8>)
    requires
        s.len() == 52,
        forall|i: int| 0 <= i < 52 ==> s[i] == #[trigger] new_order_card(i),
    ensures
        valid_deck(s),
{
    assert forall|i: int| 0 <= i < 52 implies s[i] < 52 by {
        vstd::arithmetic::div_mod::lemma_fundamental_div_mod(i, 4);
        assert(new_order_card(i) < 52);
    };
    assert(s.no_duplicates()) by {
        assert forall|i: int, j: int|
            0 <= i < s.len() && 0 <= j < s.len() && i != j implies s[i] != s[j] by {
            lemma_new_order_injective(i, j);
        };
    };
    s.lemma_multiset_has_no_duplicates();
    assert forall|c: u8| c < 52 implies #[trigger] s.to_multiset().count(c) == 1 by {
        let i = 4 * ((c as int) % 13) + (c as int) / 13;
        vstd::arithmetic::div_mod::lemma_fundamental_div_mod(c as int, 13);
        vstd::arithmetic::div_mod::lemma_fundamental_div_mod_converse(
            i, 4, (c as int) % 13, (c as int) / 13);
        assert(new_order_card(i) == c);
        assert(s[i] == c);
        assert(s.contains(c));
        assert(s.to_multiset().count(c) > 0);
    };
}

pub proof fn lemma_swap_seq_multiset(s: Seq<u8>, a: int, b: int)
    requires
        0 <= a < s.len(),
        0 <= b < s.len(),
    ensures
        s.update(a, s[b]).update(b, s[a]).to_multiset() == s.to_multiset(),
{
    broadcast use vstd::multiset::group_multiset_axioms;
    if a == b {
        assert(s.update(a, s[b]).update(b, s[a]) =~= s);
    } else {
        let s1 = s.update(a, s[b]);
        let s2 = s1.update(b, s[a]);
        vstd::seq_lib::to_multiset_update(s, a, s[b]);
        vstd::seq_lib::to_multiset_update(s1, b, s[a]);
        assert(s1[b] == s[b]);
        assert(s2.to_multiset() =~= s.to_multiset());
    }
}


/// Cutting at `k` and then at `52 - k` restores the original deck.
pub proof fn lemma_cut_round_trip(s: Seq<u8>, k: int)
    requires
        s.len() == 52,
        0 <= k <= 52,
    ensures
        (s.subrange(k, 52) + s.subrange(0, k)).subrange(52 - k, 52) + (s.subrange(k, 52)
            + s.subrange(0, k)).subrange(0, 52 - k) == s,
{
    let c1 = s.subrange(k, 52) + s.subrange(0, k);
    assert(c1.subrange(52 - k, 52) + c1.subrange(0, 52 - k) =~= s);
}

/// Cutting at position zero changes nothing.
pub proof fn lemma_cut_zero(s: Seq<u8>)
    requires
        s.len() == 52,
    ensures
        s.subrange(0, 52) + s.subrange(0, 0) == s,
{
    assert(s.subrange(0, 52) + s.subrange(0, 0) =~= s);
}
} // verus!
