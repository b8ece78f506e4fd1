use vstd::prelude::*;
use vstd::arithmetic::div_mod::{
    lemma_add_mod_noop, lemma_fundamental_div_mod_converse_mod, lemma_mod_twice,
    lemma_small_mod, lemma_sub_mod_noop,
};

verus! {

/// The three face ranks, in ascending order.
#[derive(Debug, Copy, Clone, PartialEq, Eq, Structural)]
pub enum FaceType {
    Jack,
    Queen,
    King,
}

/// A card rank: Ace (rank 1), a number card (ranks 2 through 10), a face
/// card (ranks 11 through 13), or the Joker, a sentinel outside the
/// thirteen-rank cycle (coerced to rank 14 when arithmetic demands it).
#[derive(Debug, Copy, Clone, PartialEq, Eq, Structural)]
pub enum Value {
    Ace,
    Number(i32),
    Face(FaceType),
    Joker,
}

/// The rank of a value as an integer: Ace is 1, number cards are their
/// number, Jack, Queen and King are 11, 12 and 13, and the Joker is
/// coerced to 14.
pub open spec fn rank_of(v: Value) -> int {
    match v {
        Value::Ace => 1,
        Value::Number(n) => n as int,
        Value::Face(FaceType::Jack) => 11,
        Value::Face(FaceType::Queen) => 12,
        Value::Face(FaceType::King) => 13,
        Value::Joker => 14,
    }
}

/// The value of a rank in 1..=14; ranks outside that range have no value
/// and are mapped to the Joker so that the function stays total.
pub open spec fn value_of_rank(r: int) -> Value {
    if r == 1 {
        Value::Ace
    } else if 2 <= r && r <= 10 {
        Value::Number(r as i32)
    } else if r == 11 {
        Value::Face(FaceType::Jack)
    } else if r == 12 {
        Value::Face(FaceType::Queen)
    } else if r == 13 {
        Value::Face(FaceType::King)
    } else {
        Value::Joker
    }
}

/// The rank that lies `n` steps clockwise around the thirteen-rank ring,
/// wrapping King back to Ace; negative `n` walks the ring backwards.
/// A Joker operand enters the ring at its coerced rank of 14.
pub open spec fn add_spec(v: Value, n: int) -> Value {
    value_of_rank(((rank_of(v) + n - 1) % 13) + 1)
}

/// Subtracting `n` steps is adding `-n` steps around the same ring.
pub open spec fn sub_spec(v: Value, n: int) -> Value {
    add_spec(v, -n)
}

impl Value {
    /// A value respects the data model: a number card carries a number
    /// between 2 and 10.
    pub open spec fn is_valid(self) -> bool {
        match self {
            Value::Number(n) => 2 <= n && n <= 10,
            _ => true,
        }
    }

    /// The rank of a value, as executable code. The Joker is coerced
    /// to rank 14; the caller must tolerate that.
    fn val_to_int(v: Value) -> (r: i32)
        requires
            v.is_valid(),
        ensures
            r as int == rank_of(v),
            1 <= r <= 14,
    {
        match v {
            Value::Ace => 1,
            Value::Number(n) => n,
            Value::Face(f) => match f {
                FaceType::Jack => 11,
                FaceType::Queen => 12,
                FaceType::King => 13,
            },
            Value::Joker => 14,
        }
    }

    /// The value of a rank between 1 and 14. A rank outside that range
    /// is an internal invariant violation and is excluded outright.
    pub fn int_to_val(n: i32) -> (r: Value)
        requires
            1 <= n <= 14,
        ensures
            r == value_of_rank(n as int),
            r.is_valid(),
    {
        if n == 1 {
            Value::Ace
        } else if n <= 10 {
            Value::Number(n)
        } else if n == 11 {
            Value::Face(FaceType::Jack)
        } else if n == 12 {
            Value::Face(FaceType::Queen)
        } else if n == 13 {
            Value::Face(FaceType::King)
        } else {
            Value::Joker
        }
    }

    /// A fresh enumerator over all fourteen values in ascending rank
    /// order, the Joker last.
    pub fn values() -> (it: ValueIter)
        ensures
            it.count == 0,
    {
        ValueIter { count: 0 }
    }

    /// The rank `other` steps clockwise around the thirteen-rank ring,
    /// wrapping King back to Ace; a negative `other` steps backwards.
    pub fn add(self, other: i32) -> (r: Value)
        requires
            self.is_valid(),
        ensures
            r == add_spec(self, other as int),
            r.is_valid(),
            r != Value::Joker,
    {
        let rank: i64 = Value::val_to_int(self) as i64;
        let steps: i64 = if other >= 0 {
            (other as i64) % 13
        } else {
            (13 - ((-(other as i64)) % 13)) % 13
        };
        let new_rank: i64 = (rank - 1 + steps) % 13 + 1;
        proof {
            lemma_steps_congruent(other as int, steps as int);
            lemma_shift_mod(rank as int, steps as int, other as int);
        }
        Value::int_to_val(new_rank as i32)
    }

    /// The rank `other` steps counter-clockwise around the ring, wrapping
    /// Ace back to King; a negative `other` steps forwards instead.
    pub fn sub(self, other: i32) -> (r: Value)
        requires
            self.is_valid(),
        ensures
            r == sub_spec(self, other as int),
            r.is_valid(),
            r != Value::Joker,
    {
        let rank: i64 = Value::val_to_int(self) as i64;
        let steps: i64 = if other >= 0 {
            (13 - ((other as i64) % 13)) % 13
        } else {
            (-(other as i64)) % 13
        };
        let new_rank: i64 = (rank - 1 + steps) % 13 + 1;
        proof {
            lemma_steps_congruent(-(other as int), steps as int);
            lemma_shift_mod(rank as int, steps as int, -(other as int));
        }
        Value::int_to_val(new_rank as i32)
    }
}

/// The normalised step count walks the ring to the same place as the raw
/// offset: both leave the same residue modulo 13.
proof fn lemma_steps_congruent(n: int, steps: int)
    requires
        0 <= steps < 13,
        steps == n % 13 || steps == (13 - ((-n) % 13)) % 13,
    ensures
        steps % 13 == n % 13,
{
    lemma_mod_twice(n, 13);
    if steps != n % 13 {
        let m: int = (-n) % 13;
        if m == 0 {
            lemma_small_mod(13nat, 13nat);
            lemma_small_mod(0nat, 13nat);
            assert((-n) == 13 * ((-n) / 13)) by {
                vstd::arithmetic::div_mod::lemma_fundamental_div_mod(-n, 13);
            };
            assert(n == 13 * (-((-n) / 13)));
            assert(n % 13 == 0) by {
                lemma_fundamental_div_mod_converse_mod(n, 13, -((-n) / 13), 0);
            };
        } else {
            assert(steps == 13 - m) by {
                lemma_small_mod((13 - m) as nat, 13nat);
            };
            lemma_sub_mod_noop(0, -n, 13);
            assert((0 - (-n)) % 13 == (0int % 13 - m) % 13);
            lemma_small_mod(0nat, 13nat);
            assert(n % 13 == (-m) % 13);
            assert((-m) % 13 == 13 - m) by {
                lemma_fundamental_div_mod_converse_mod(-m, 13, -1, 13 - m);
            };
        }
    }
}

/// Sliding a rank by congruent step counts lands on the same rank.
proof fn lemma_shift_mod(rank: int, steps: int, n: int)
    requires
        steps % 13 == n % 13,
        0 <= steps < 13,
    ensures
        (rank - 1 + steps) % 13 == (rank + n - 1) % 13,
{
    lemma_add_mod_noop(rank - 1, steps, 13);
    lemma_add_mod_noop(rank - 1, n, 13);
    lemma_mod_twice(rank - 1 + steps, 13);
    lemma_mod_twice(rank - 1 + n, 13);
}

/// Ranks 1 through 14 and values are in bijection: taking the rank of the
/// value of a rank gives the rank back, and ranks 1 through 13 give valid
/// non-Joker values.
pub proof fn lemma_rank_value_inverse(x: int)
    requires
        1 <= x <= 14,
    ensures
        rank_of(value_of_rank(x)) == x,
        value_of_rank(x).is_valid(),
        x <= 13 ==> value_of_rank(x) != Value::Joker,
{
}

/// Round trip around the ring: for every non-Joker value, adding an
/// offset and then subtracting it (or the reverse) restores the value.
pub proof fn lemma_add_sub_round_trip(v: Value, k: int)
    requires
        v.is_valid(),
        v != Value::Joker,
    ensures
        sub_spec(add_spec(v, k), k) == v,
        add_spec(sub_spec(v, k), k) == v,
{
    let r: int = rank_of(v);
    assert(1 <= r <= 13);
    lemma_round_trip_rank(r, k);
    lemma_round_trip_rank(r, -k);
    assert(value_of_rank(r) == v);
}

/// At the rank level: stepping forward by `k` and back by `k` returns any
/// rank in the thirteen-rank ring to itself.
proof fn lemma_round_trip_rank(r: int, k: int)
    requires
        1 <= r <= 13,
    ensures
        add_spec(add_spec(value_of_rank(r), k), -k) == value_of_rank(r),
{
    let v: Value = value_of_rank(r);
    lemma_rank_value_inverse(r);
    let r1: int = ((r + k - 1) % 13) + 1;
    vstd::arithmetic::div_mod::lemma_mod_bound(r + k - 1, 13);
    assert(1 <= r1 <= 13);
    lemma_rank_value_inverse(r1);
    assert(add_spec(v, k) == value_of_rank(r1));
    let r2: int = ((r1 - k - 1) % 13) + 1;
    assert(add_spec(value_of_rank(r1), -k) == value_of_rank(r2));
    assert(r2 == r) by {
        lemma_sub_mod_noop(r + k - 1, k, 13);
        lemma_mod_twice(r + k - 1, 13);
        assert(((r + k - 1) % 13 - k) % 13 == (r - 1) % 13);
        lemma_small_mod((r - 1) as nat, 13nat);
    };
}

/// An enumerator over the fourteen card values in ascending rank order;
/// `count` values have been yielded so far.
pub struct ValueIter {
    pub count: i32,
}

/// The fourteen card values in ascending rank order, the Joker last.
pub open spec fn all_values() -> Seq<Value> {
    seq![
        Value::Ace,
        Value::Number(2),
        Value::Number(3),
        Value::Number(4),
        Value::Number(5),
        Value::Number(6),
        Value::Number(7),
        Value::Number(8),
        Value::Number(9),
        Value::Number(10),
        Value::Face(FaceType::Jack),
        Value::Face(FaceType::Queen),
        Value::Face(FaceType::King),
        Value::Joker,
    ]
}

/// Position `i` of the enumeration holds the value of rank `i + 1`.
pub proof fn lemma_all_values_ranks(i: int)
    requires
        0 <= i < 14,
    ensures
        all_values()[i] == value_of_rank(i + 1),
        all_values()[i].is_valid(),
{
    lemma_rank_value_inverse(i + 1);
}

impl ValueIter {
    /// The next value in ascending rank order, or nothing once all
    /// fourteen have been yielded; an exhausted enumerator stays exhausted.
    pub fn next(&mut self) -> (r: Option<Value>)
        requires
            0 <= old(self).count,
        ensures
            old(self).count < 14 ==> {
                &&& final(self).count == old(self).count + 1
                &&& r == Some(all_values()[old(self).count as int])
            },
            old(self).count >= 14 ==> final(self).count == old(self).count && r is None,
    {
        if self.count < 14 {
            self.count = self.count + 1;
            let v = Value::int_to_val(self.count);
            proof {
                lemma_all_values_ranks(old(self).count as int);
            }
            Some(v)
        } else {
            None
        }
    }
}

/// A suit tag: the four standard suits, plus the two colour tags that
/// callers may attach to wild cards. The colour tags are never produced
/// by the suit enumerator.
#[derive(Debug, Copy, Clone, PartialEq, Eq, Structural)]
pub enum Suit {
    Clubs,
    Diamonds,
    Hearts,
    Spades,
    Red,
    Black,
}

/// The zone a card currently occupies.
#[derive(Debug, Copy, Clone, PartialEq, Eq, Structural)]
pub enum State {
    Hand,
    Deck,
    Play,
    Discard,
}

/// The four standard suits, in the fixed enumeration order.
pub open spec fn all_suits() -> Seq<Suit> {
    seq![Suit::Clubs, Suit::Diamonds, Suit::Hearts, Suit::Spades]
}

/// An enumerator over the four standard suits; `count` suits have been
/// yielded so far.
pub struct SuitIter {
    pub count: i32,
}

impl Suit {
    /// A fresh enumerator over exactly the four standard suits, in order
    /// Clubs, Diamonds, Hearts, Spades; Red and Black are never yielded.
    pub fn suits() -> (it: SuitIter)
        ensures
            it.count == 0,
    {
        SuitIter { count: 0 }
    }
}

impl SuitIter {
    /// The next standard suit, or nothing once all four have been
    /// yielded; an exhausted enumerator stays exhausted.
    pub fn next(&mut self) -> (r: Option<Suit>)
        requires
            0 <= old(self).count,
        ensures
            old(self).count < 4 ==> {
                &&& final(self).count == old(self).count + 1
                &&& r == Some(all_suits()[old(self).count as int])
            },
            old(self).count >= 4 ==> final(self).count == old(self).count && r is None,
    {
        if self.count >= 4 {
            return None;
        }
        let s = if self.count == 0 {
            Suit::Clubs
        } else if self.count == 1 {
            Suit::Diamonds
        } else if self.count == 2 {
            Suit::Hearts
        } else {
            Suit::Spades
        };
        self.count = self.count + 1;
        Some(s)
    }
}

/// A card: an immutable rank and suit identity, and the zone it
/// currently occupies.
#[derive(Debug, Copy, Clone, PartialEq, Eq, Structural)]
pub struct Card {
    pub value: Value,
    pub suit: Suit,
    pub state: State,
}

impl Card {
    /// A card with the given rank, suit and zone; any combination is
    /// legal, a Joker with any suit included.
    pub fn new(v: Value, s: Suit, st: State) -> (c: Card)
        ensures
            c == (Card { value: v, suit: s, state: st }),
    {
        Card { value: v, suit: s, state: st }
    }

    /// Whether the card currently occupies the given zone.
    pub fn has_state(&self, st: State) -> (r: bool)
        ensures
            r == (self.state == st),
    {
        self.state == st
    }
}

/// The fixed layout of a standard deck: 52 cards, position `i` holding
/// the value of rank `i % 13 + 1` in the suit numbered `i / 13`. Dealing
/// changes zones but never this layout.
pub open spec fn deck_layout(s: Seq<Card>) -> bool {
    &&& s.len() == 52
    &&& forall|i: int|
        0 <= i < 52 ==> (#[trigger] s[i]).value == all_values()[i % 13] && s[i].suit
            == all_suits()[i / 13]
}

/// An ordered collection of the 52 standard cards, one per pair of a
/// standard suit and a non-Joker value.
pub struct Deck {
    pub cards: Vec<Card>,
}

impl Deck {
    /// The standard 52-card deck: all thirteen ranks of Clubs, then of
    /// Diamonds, Hearts and Spades, ranks ascending Ace through King
    /// within each suit, every card starting in the deck zone. No Joker
    /// is generated.
    pub fn new() -> (d: Deck)
        ensures
            deck_layout(d.cards@),
            forall|i: int| 0 <= i < 52 ==> (#[trigger] d.cards@[i]).state == State::Deck,
    {
        let mut cards: Vec<Card> = Vec::new();
        let mut s_it = Suit::suits();
        while s_it.count < 4
            invariant
                0 <= s_it.count <= 4,
                cards@.len() == 13 * s_it.count,
                forall|i: int|
                    0 <= i < cards@.len() ==> (#[trigger] cards@[i]).value == all_values()[i % 13]
                        && cards@[i].suit == all_suits()[i / 13] && cards@[i].state == State::Deck,
            decreases 4 - s_it.count,
        {
            let row: i32 = s_it.count;
            let s = s_it.next().unwrap();
            let mut v_it = Value::values();
            while v_it.count < 13
                invariant
                    0 <= v_it.count <= 13,
                    s == all_suits()[row as int],
                    0 <= row < 4,
                    cards@.len() == 13 * row + v_it.count,
                    forall|i: int|
                        0 <= i < cards@.len() ==> (#[trigger] cards@[i]).value == all_values()[i
                            % 13] && cards@[i].suit == all_suits()[i / 13] && cards@[i].state
                            == State::Deck,
                decreases 13 - v_it.count,
            {
                let col: i32 = v_it.count;
                let v = v_it.next().unwrap();
                cards.push(Card::new(v, s, State::Deck));
                proof {
                    let i: int = 13 * row + col;
                    lemma_fundamental_div_mod_converse_mod(i, 13, row as int, col as int);
                    vstd::arithmetic::div_mod::lemma_fundamental_div_mod_converse_div(
                        i,
                        13,
                        row as int,
                        col as int,
                    );
                    assert(cards@[i].value == all_values()[i % 13]);
                    assert(cards@[i].suit == all_suits()[i / 13]);
                }
            }
        }
        Deck { cards }
    }

    /// The number of cards in the deck; 52 for every deck this module
    /// builds.
    pub fn deck_size(&self) -> (n: usize)
        ensures
            n == self.cards@.len(),
    {
        self.cards.len()
    }

    /// The card at a position in deck order; a position past the end is
    /// an internal invariant violation and is excluded outright.
    pub fn card_at(&self, index: usize) -> (c: &Card)
        requires
            index < self.cards@.len(),
        ensures
            *c == self.cards@[index as int],
    {
        &self.cards[index]
    }

    /// All cards in deck order, without mutating the deck.
    pub fn cards(&self) -> (cs: &Vec<Card>)
        ensures
            cs@ == self.cards@,
    {
        &self.cards
    }
}

/// No two positions of the sequence share both value and suit.
pub open spec fn distinct_pairs(s: Seq<Card>) -> bool {
    forall|i: int, j: int|
        0 <= i < s.len() && 0 <= j < s.len() && i != j ==> !((#[trigger] s[i]).value == (
        #[trigger] s[j]).value && s[i].suit == s[j].suit)
}

/// A standard deck layout holds no Joker, and no two positions share
/// both suit and value.
pub proof fn lemma_deck_distinct(s: Seq<Card>)
    requires
        deck_layout(s),
    ensures
        forall|i: int| 0 <= i < 52 ==> (#[trigger] s[i]).value != Value::Joker,
        distinct_pairs(s),
{
    assert forall|i: int| 0 <= i < 52 implies (#[trigger] s[i]).value != Value::Joker by {
        vstd::arithmetic::div_mod::lemma_mod_bound(i, 13);
        lemma_all_values_ranks(i % 13);
        lemma_rank_value_inverse(i % 13 + 1);
    }
    assert forall|i: int, j: int|
        0 <= i < 52 && 0 <= j < 52 && i != j implies !((#[trigger] s[i]).value == (
    #[trigger] s[j]).value && s[i].suit == s[j].suit) by {
        vstd::arithmetic::div_mod::lemma_fundamental_div_mod(i, 13);
        vstd::arithmetic::div_mod::lemma_fundamental_div_mod(j, 13);
        vstd::arithmetic::div_mod::lemma_mod_bound(i, 13);
        vstd::arithmetic::div_mod::lemma_mod_bound(j, 13);
        assert(i / 13 != j / 13 || i % 13 != j % 13);
        lemma_all_values_ranks(i % 13);
        lemma_all_values_ranks(j % 13);
        lemma_rank_value_inverse(i % 13 + 1);
        lemma_rank_value_inverse(j % 13 + 1);
    }
}

} // verus!
