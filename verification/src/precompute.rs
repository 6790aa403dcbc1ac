//! The evaluator table: scores for every seven-card hand, the nine-byte
//! on-disk record codec, and the in-memory lookup table.

use vstd::prelude::*;
use vstd::string::StringExecFns;
use std::collections::HashMap;
use crate::cards::Card;
use crate::hands::{
    Hand, Hands, ALL_HANDS, HAND_SIZE, hand_wf, spec_score7, spec_next_comb, first_comb,
    comb_wf,
};

verus! {

broadcast use vstd::std_specs::hash::group_hash_axioms;

/// A hand's score: the categorical rank (1..9) and the tie-break high
/// value (1..14), ordered lexicographically.
#[derive(Debug, Clone, Copy, Default, PartialEq, Eq, Structural, Hash)]
pub struct TableEntry {
    pub rank: u8,
    pub hi: u8,
}

impl TableEntry {
    /// An injective, order-preserving projection of the score to one
    /// integer: `rank * 16 + hi`.
    pub fn to_score(&self) -> (r: i32)
        ensures
            r == self.rank * 16 + self.hi,
    {
        (self.rank as i32) * 16 + (self.hi as i32)
    }
}

/// A scored hand: the persisted record of the evaluator table.
#[derive(Debug, Clone, Copy, PartialEq, Eq)]
pub struct Entry {
    pub hand: Hand,
    pub rank: u8,
    pub hi: u8,
}

impl Entry {
    /// A record occupies nine bytes: seven card ids, the rank, the high.
    pub fn size() -> (r: usize)
        ensures
            r == 9,
    {
        HAND_SIZE + 2
    }

    /// The score part of the record.
    pub fn to_table_entry(&self) -> (r: TableEntry)
        ensures
            r.rank == self.rank,
            r.hi == self.hi,
    {
        TableEntry { rank: self.rank, hi: self.hi }
    }
}

/// Size in bytes of the full evaluator table on disk.
pub fn buffer_size() -> (r: usize)
    ensures
        r == 9 * ALL_HANDS,
{
    Entry::size() * ALL_HANDS
}

/// The lookup key of a hand: its seven card ids packed base-64, low
/// position first.  Injective on well-formed hands since every id is
/// below 64.
pub open spec fn spec_hand_code(s: Seq<u8>) -> u64 {
    (s[0] + 64 * (s[1] + 64 * (s[2] + 64 * (s[3] + 64 * (s[4] + 64 * (s[5]
        + 64 * s[6])))))) as u64
}

impl Hand {
    /// Packs the seven card ids into the table key.
    pub fn code(&self) -> (r: u64)
        ensures
            r == spec_hand_code(self@),
    {
        let c6 = self.0[6].0 as u64;
        let c5 = self.0[5].0 as u64 + 64 * c6;
        let c4 = self.0[4].0 as u64 + 64 * c5;
        let c3 = self.0[3].0 as u64 + 64 * c4;
        let c2 = self.0[2].0 as u64 + 64 * c3;
        let c1 = self.0[1].0 as u64 + 64 * c2;
        self.0[0].0 as u64 + 64 * c1
    }
}

/// The in-memory evaluator table: hand key to score.
pub struct ScoreTable(HashMap<u64, TableEntry>);

impl View for ScoreTable {
    type V = Map<u64, TableEntry>;

    closed spec fn view(&self) -> Map<u64, TableEntry> {
        self.0@
    }
}

impl ScoreTable {
    /// The table holds the true score of every well-formed hand.  The
    /// oracle requires this of the table it is given; a table that was
    /// filled through `add_hand` for every hand satisfies it.
    pub open spec fn complete(self) -> bool {
        forall|s: Seq<u8>| hand_wf(s) ==> {
            &&& self@.contains_key(#[trigger] spec_hand_code(s))
            &&& (self@[spec_hand_code(s)].rank as int, self@[spec_hand_code(s)].hi as int)
                == spec_score7(s)
        }
    }

    /// An empty table.
    pub fn new() -> (r: ScoreTable)
        ensures
            r@ == Map::<u64, TableEntry>::empty(),
    {
        ScoreTable(HashMap::new())
    }

    pub fn len(&self) -> (r: usize)
        ensures
            r == self@.dom().len(),
    {
        self.0.len()
    }

    /// Scores the hand and adds the entry; used to build tables directly.
    pub fn add_hand(&mut self, hand: Hand)
        requires
            hand_wf(hand@),
        ensures
            final(self)@ == old(self)@.insert(spec_hand_code(hand@), TableEntry {
                rank: (spec_score7(hand@).0) as u8,
                hi: (spec_score7(hand@).1) as u8,
            }),
    {
        let e = hand.score();
        let code = hand.code();
        self.0.insert(code, TableEntry { rank: e.rank, hi: e.hi });
    }

    /// Adds a record as read from the table file, trusting its score.
    pub fn add_record(&mut self, e: &Entry)
        ensures
            final(self)@ == old(self)@.insert(spec_hand_code(e.hand@), TableEntry {
                rank: e.rank,
                hi: e.hi,
            }),
    {
        let code = e.hand.code();
        self.0.insert(code, TableEntry { rank: e.rank, hi: e.hi });
    }

    /// Looks the hand's score up.  Looking up a hand that is missing from
    /// the table is a fatal error; on a complete table the result is the
    /// hand's true score, exactly as `Hand::score` computes it.
    pub fn score(&self, hand: &Hand) -> (r: TableEntry)
        requires
            hand_wf(hand@),
            self@.contains_key(spec_hand_code(hand@)),
        ensures
            r == self@[spec_hand_code(hand@)],
            self.complete() ==> (r.rank as int, r.hi as int) == spec_score7(hand@),
    {
        let code = hand.code();
        match self.0.get(&code) {
            Some(e) => *e,
            None => vstd::pervasive::unreached(),
        }
    }
}

#[verifier::external_type_specification]
#[verifier::external_body]
pub struct ExBytes(bytes::Bytes);

#[verifier::external_type_specification]
#[verifier::external_body]
pub struct ExBytesMut(bytes::BytesMut);

/// The bytes an immutable buffer holds, in order.
pub uninterp spec fn bytes_data(b: bytes::Bytes) -> Seq<u8>;

/// The bytes a mutable buffer holds, in order.
pub uninterp spec fn bytes_mut_data(b: bytes::BytesMut) -> Seq<u8>;

/// Relies on `bytes::BytesMut::with_capacity`: a new buffer is empty.
#[verifier::external_body]
fn bytes_mut_with_capacity(cap: usize) -> (r: bytes::BytesMut)
    ensures
        bytes_mut_data(r) == Seq::<u8>::empty(),
{
    bytes::BytesMut::with_capacity(cap)
}

/// Relies on `bytes::BufMut::put_u8` on `BytesMut`: appends one byte,
/// growing the buffer; it cannot run out of room below `usize::MAX` bytes.
#[verifier::external_body]
fn put_u8(b: &mut bytes::BytesMut, v: u8)
    requires
        bytes_mut_data(*old(b)).len() < usize::MAX,
    ensures
        bytes_mut_data(*final(b)) == bytes_mut_data(*old(b)).push(v),
{
    bytes::BufMut::put_u8(b, v)
}

/// Relies on `bytes::BytesMut::freeze`: the contents carry over unchanged.
#[verifier::external_body]
fn bytes_freeze(b: bytes::BytesMut) -> (r: bytes::Bytes)
    ensures
        bytes_data(r) == bytes_mut_data(b),
{
    b.freeze()
}

/// Relies on `From<Vec<u8>> for bytes::Bytes`: the buffer holds exactly
/// the vector's bytes.
#[verifier::external_body]
fn bytes_from_vec(v: Vec<u8>) -> (r: bytes::Bytes)
    ensures
        bytes_data(r) == v@,
{
    bytes::Bytes::from(v)
}

/// Relies on `bytes::Buf::get_u8` on `Bytes`: removes and returns the
/// first byte; reading an empty buffer is a fatal error.
#[verifier::external_body]
fn get_u8(b: &mut bytes::Bytes) -> (r: u8)
    requires
        bytes_data(*old(b)).len() >= 1,
    ensures
        r == bytes_data(*old(b))[0],
        bytes_data(*final(b)) == bytes_data(*old(b)).drop_first(),
{
    bytes::Buf::get_u8(b)
}

/// The nine bytes of a record: the hand's card ids, the rank, the high.
pub open spec fn spec_entry_bytes(hand: Seq<u8>, rank: u8, hi: u8) -> Seq<u8> {
    hand + seq![rank, hi]
}

impl Entry {
    /// Appends the nine-byte record to the buffer.
    pub fn serialize(&self, buf: &mut bytes::BytesMut)
        requires
            bytes_mut_data(*old(buf)).len() + 9 <= usize::MAX,
        ensures
            bytes_mut_data(*final(buf)) == bytes_mut_data(*old(buf)) + spec_entry_bytes(
                self.hand@, self.rank, self.hi),
    {
        let ghost start = bytes_mut_data(*buf);
        put_u8(buf, self.hand.0[0].0);
        put_u8(buf, self.hand.0[1].0);
        put_u8(buf, self.hand.0[2].0);
        put_u8(buf, self.hand.0[3].0);
        put_u8(buf, self.hand.0[4].0);
        put_u8(buf, self.hand.0[5].0);
        put_u8(buf, self.hand.0[6].0);
        put_u8(buf, self.rank);
        put_u8(buf, self.hi);
        proof {
            assert(bytes_mut_data(*buf) =~= start + spec_entry_bytes(
                self.hand@, self.rank, self.hi));
        }
    }

    /// Reads the next nine-byte record off the front of the buffer.
    pub fn deserialize(buf: &mut bytes::Bytes) -> (r: Entry)
        requires
            bytes_data(*old(buf)).len() >= 9,
        ensures
            r.hand@ == bytes_data(*old(buf)).subrange(0, 7),
            r.rank == bytes_data(*old(buf))[7],
            r.hi == bytes_data(*old(buf))[8],
            bytes_data(*final(buf)) == bytes_data(*old(buf)).skip(9),
    {
        let ghost start = bytes_data(*buf);
        let c0 = get_u8(buf);
        let c1 = get_u8(buf);
        let c2 = get_u8(buf);
        let c3 = get_u8(buf);
        let c4 = get_u8(buf);
        let c5 = get_u8(buf);
        let c6 = get_u8(buf);
        let rank = get_u8(buf);
        let hi = get_u8(buf);
        let hand = Hand([Card(c0), Card(c1), Card(c2), Card(c3), Card(c4), Card(c5), Card(c6)]);
        proof {
            assert(hand@ =~= start.subrange(0, 7));
            assert(bytes_data(*buf) =~= start.skip(9));
        }
        Entry { hand, rank, hi }
    }
}

/// The table that loading `k` records of `data` builds: each record's
/// hand key maps to the record's score, later records overriding earlier
/// ones.
pub open spec fn spec_load(data: Seq<u8>, k: nat) -> Map<u64, TableEntry>
    decreases k,
{
    if k == 0 {
        Map::empty()
    } else {
        let i = (k - 1) as int;
        spec_load(data, (k - 1) as nat).insert(
            spec_hand_code(data.subrange(9 * i, 9 * i + 7)),
            TableEntry { rank: data[9 * i + 7], hi: data[9 * i + 8] })
    }
}

/// Parses the full evaluator table: exactly `C(52, 7)` nine-byte records.
/// The result maps each record's hand key to the record's score.
pub fn load_table(data: Vec<u8>) -> (r: ScoreTable)
    requires
        data@.len() == 9 * ALL_HANDS,
    ensures
        r@ == spec_load(data@, ALL_HANDS as nat),
{
    let ghost data0 = data@;
    let mut buf = bytes_from_vec(data);
    let mut table = ScoreTable::new();
    let mut i: usize = 0;
    while i < ALL_HANDS
        invariant
            0 <= i <= ALL_HANDS,
            data0.len() == 9 * ALL_HANDS,
            bytes_data(buf) == data0.skip(9 * (i as int)),
            table@ == spec_load(data0, i as nat),
        decreases ALL_HANDS - i,
    {
        let e = Entry::deserialize(&mut buf);
        proof {
            let off = 9 * (i as int);
            assert(data0.skip(off).subrange(0, 7) =~= data0.subrange(off, off + 7));
            assert(data0.skip(off)[7] == data0[off + 7]);
            assert(data0.skip(off)[8] == data0[off + 8]);
            assert(data0.skip(off).skip(9) =~= data0.skip(9 * (i + 1)));
        }
        table.add_record(&e);
        proof {
            assert(table@ == spec_load(data0, (i + 1) as nat));
        }
        i = i + 1;
    }
    table
}

/// The bytes the precompute pass emits from enumeration state `st` on,
/// with at most `fuel` records: each combination's record carries its
/// true score.
pub open spec fn spec_precompute_output(st: Option<Seq<u8>>, fuel: nat) -> Seq<u8>
    decreases fuel,
{
    if fuel == 0 {
        Seq::empty()
    } else {
        match st {
            Option::None => Seq::empty(),
            Option::Some(h) => spec_entry_bytes(
                h,
                spec_score7(h).0 as u8,
                spec_score7(h).1 as u8,
            ) + spec_precompute_output(spec_next_comb(h), (fuel - 1) as nat),
        }
    }
}

/// Scores every seven-card combination in enumeration order and emits
/// the nine-byte records into one buffer: the full evaluator table.
pub fn precompute_records() -> (r: bytes::Bytes)
    ensures
        bytes_data(r) == spec_precompute_output(
            Option::Some(first_comb()), ALL_HANDS as nat),
{
    let mut buf = bytes_mut_with_capacity(0);
    let mut hands = Hands::new();
    let mut i: usize = 0;
    while i < ALL_HANDS
        invariant
            0 <= i <= ALL_HANDS,
            hands.wf(),
            bytes_mut_data(buf).len() <= 9 * i,
            spec_precompute_output(Option::Some(first_comb()), ALL_HANDS as nat)
                == bytes_mut_data(buf) + spec_precompute_output(
                    hands.state_spec(), (ALL_HANDS - i) as nat),
        decreases ALL_HANDS - i,
    {
        let ghost st = hands.state_spec();
        let next = hands.next_hand();
        match next {
            None => {
                proof {
                    assert(spec_precompute_output(st, (ALL_HANDS - i) as nat)
                        == Seq::<u8>::empty());
                    assert(bytes_mut_data(buf) + Seq::<u8>::empty() =~= bytes_mut_data(buf));
                    assert(spec_precompute_output(hands.state_spec(), (ALL_HANDS - (i + 1)) as nat)
                        == Seq::<u8>::empty());
                    assert(bytes_mut_data(buf) + Seq::<u8>::empty() =~= bytes_mut_data(buf));
                }
            }
            Some(hand) => {
                let e = hand.score();
                let ghost before = bytes_mut_data(buf);
                e.serialize(&mut buf);
                proof {
                    let h = st.unwrap();
                    assert(spec_precompute_output(st, (ALL_HANDS - i) as nat)
                        == spec_entry_bytes(h, spec_score7(h).0 as u8, spec_score7(h).1 as u8)
                            + spec_precompute_output(spec_next_comb(h),
                                (ALL_HANDS - i - 1) as nat));
                    assert(before + (spec_entry_bytes(h, e.rank, e.hi)
                        + spec_precompute_output(hands.state_spec(), (ALL_HANDS - i - 1) as nat))
                        =~= (before + spec_entry_bytes(h, e.rank, e.hi))
                            + spec_precompute_output(hands.state_spec(),
                                (ALL_HANDS - i - 1) as nat));
                }
            }
        }
        i = i + 1;
    }
    proof {
        assert(spec_precompute_output(hands.state_spec(), 0nat) == Seq::<u8>::empty());
        assert(bytes_mut_data(buf) + Seq::<u8>::empty() =~= bytes_mut_data(buf));
    }
    bytes_freeze(buf)
}

pub open spec fn spec_digit_char(d: int) -> Seq<char> {
    if d == 0 {
        seq!['0']
    } else if d == 1 {
        seq!['1']
    } else if d == 2 {
        seq!['2']
    } else if d == 3 {
        seq!['3']
    } else if d == 4 {
        seq!['4']
    } else if d == 5 {
        seq!['5']
    } else if d == 6 {
        seq!['6']
    } else if d == 7 {
        seq!['7']
    } else if d == 8 {
        seq!['8']
    } else {
        seq!['9']
    }
}

/// The decimal digits of `n`, most significant first.
pub open spec fn spec_digits(n: nat) -> Seq<char>
    decreases n,
{
    if n < 10 {
        spec_digit_char(n as int)
    } else {
        spec_digits(n / 10) + spec_digit_char((n % 10) as int)
    }
}

/// Digit text with commas every three digits from the right.
pub open spec fn spec_grouped(s: Seq<char>) -> Seq<char>
    decreases s.len(),
{
    if s.len() <= 3 {
        s
    } else {
        spec_grouped(s.take(s.len() - 3)) + ","@ + s.skip(s.len() - 3)
    }
}

fn digit_str(d: usize) -> (r: &'static str)
    requires
        d <= 9,
    ensures
        r@ == spec_digit_char(d as int),
{
    proof {
        reveal_strlit("0");
        reveal_strlit("1");
        reveal_strlit("2");
        reveal_strlit("3");
        reveal_strlit("4");
        reveal_strlit("5");
        reveal_strlit("6");
        reveal_strlit("7");
        reveal_strlit("8");
        reveal_strlit("9");
    }
    let r: &'static str = if d == 0 {
        "0"
    } else if d == 1 {
        "1"
    } else if d == 2 {
        "2"
    } else if d == 3 {
        "3"
    } else if d == 4 {
        "4"
    } else if d == 5 {
        "5"
    } else if d == 6 {
        "6"
    } else if d == 7 {
        "7"
    } else if d == 8 {
        "8"
    } else {
        "9"
    };
    proof {
        assert(r@ =~= spec_digit_char(d as int));
    }
    r
}

fn digits_string(n: usize) -> (r: String)
    ensures
        r@ == spec_digits(n as nat),
    decreases n,
{
    if n < 10 {
        digit_str(n).to_owned()
    } else {
        let mut head = digits_string(n / 10);
        head.append(digit_str(n % 10));
        head
    }
}

proof fn lemma_digits_len(n: nat)
    ensures
        spec_digits(n).len() >= 1,
    decreases n,
{
    if n >= 10 {
        lemma_digits_len(n / 10);
    }
}

proof fn lemma_digits_split3(n: nat)
    requires
        n >= 1000,
    ensures
        spec_digits(n) == spec_digits(n / 1000) + spec_digit_char((n / 100 % 10) as int)
            + spec_digit_char((n / 10 % 10) as int) + spec_digit_char((n % 10) as int),
        spec_digits(n).len() >= 4,
        spec_digits(n).take(spec_digits(n).len() - 3) == spec_digits(n / 1000),
{
    vstd::arithmetic::div_mod::lemma_div_denominator(n as int, 10, 10);
    vstd::arithmetic::div_mod::lemma_div_denominator(n as int, 100, 10);
    assert(n / 10 / 10 == n / 100);
    assert(n / 100 / 10 == n / 1000);
    assert(n / 10 >= 10 && n / 100 >= 10);
    assert(spec_digits(n) == spec_digits(n / 10) + spec_digit_char((n % 10) as int));
    assert(spec_digits(n / 10) == spec_digits(n / 100) + spec_digit_char((n / 10 % 10) as int));
    assert(spec_digits(n / 100) == spec_digits(n / 1000) + spec_digit_char(
        (n / 100 % 10) as int));
    lemma_digits_len(n / 1000);
    let s = spec_digits(n);
    assert(s.take(s.len() - 3) =~= spec_digits(n / 1000));
}

/// Renders `n` in decimal with a comma between every group of three
/// digits.
pub fn format_number(n: usize) -> (r: String)
    ensures
        r@ == spec_grouped(spec_digits(n as nat)),
    decreases n,
{
    if n < 1000 {
        proof {
            if n >= 100 {
                vstd::arithmetic::div_mod::lemma_div_denominator(n as int, 10, 10);
                assert(n / 10 / 10 == n / 100);
                assert(spec_digits(n as nat) == spec_digits((n / 10) as nat)
                    + spec_digit_char((n % 10) as int));
                assert(spec_digits((n / 10) as nat) == spec_digits((n / 100) as nat)
                    + spec_digit_char((n / 10 % 10) as int));
                assert(spec_digits(n as nat).len() == 3);
            } else if n >= 10 {
                assert(spec_digits(n as nat) == spec_digits((n / 10) as nat)
                    + spec_digit_char((n % 10) as int));
                assert(spec_digits((n / 10) as nat) == spec_digit_char((n / 10) as int));
                assert(spec_digits(n as nat).len() == 2);
            }
            assert(spec_grouped(spec_digits(n as nat)) == spec_digits(n as nat));
        }
        digits_string(n)
    } else {
        let mut head = format_number(n / 1000);
        head.append(",");
        let m = n % 1000;
        head.append(digit_str(m / 100));
        head.append(digit_str(m / 10 % 10));
        head.append(digit_str(m % 10));
        proof {
            lemma_digits_split3(n as nat);
            let s = spec_digits(n as nat);
            assert(m / 100 == n / 100 % 10) by (nonlinear_arith)
                requires
                    m == n % 1000,
                    n >= 1000,
            {
            }
            assert(m / 10 % 10 == n / 10 % 10) by (nonlinear_arith)
                requires
                    m == n % 1000,
                    n >= 1000,
            {
            }
            assert(m % 10 == n % 10) by (nonlinear_arith)
                requires
                    m == n % 1000,
            {
            }
            assert(spec_grouped(s) == spec_grouped(s.take(s.len() - 3)) + ","@ + s.skip(
                s.len() - 3));
            assert(s.skip(s.len() - 3) =~= spec_digit_char((n / 100 % 10) as int)
                + spec_digit_char((n / 10 % 10) as int) + spec_digit_char((n % 10) as int)) by {
                assert(s == spec_digits((n / 1000) as nat) + spec_digit_char(
                    (n / 100 % 10) as int) + spec_digit_char((n / 10 % 10) as int)
                    + spec_digit_char((n % 10) as int));
                lemma_digits_len((n / 1000) as nat);
            };
            assert(head@ =~= spec_grouped(s));
        }
        head
    }
}
} // verus!
