use vstd::prelude::*;
use crate::cards::{distinct_pairs, Card, Deck, State};

verus! {

/// A participant at the table: an identity, the cards it has been dealt,
/// and a score counter that no rule of this module updates.
pub struct Player {
    pub id: i32,
    pub hand: Vec<Card>,
    pub score: i32,
}

impl Player {
    /// A player with the given identity, an empty hand and a zero score.
    pub fn new(id: i32) -> (p: Player)
        ensures
            p.id == id,
            p.hand@ == Seq::<Card>::empty(),
            p.score == 0,
    {
        Player { id, hand: Vec::new(), score: 0 }
    }
}

/// An ordered collection of players, fixed in membership once built.
pub struct Table {
    pub table: Vec<Player>,
}

/// Why a deal could not be carried out.
#[derive(Debug, Copy, Clone, PartialEq, Eq, Structural)]
pub enum DealError {
    /// Cards were requested but the table has no players.
    NoPlayers,
    /// Fewer cards remain in the deck zone than were requested.
    NotEnoughCards,
}

/// The number of cards a deal request asks for; a non-positive request
/// asks for none.
pub open spec fn to_deal(n: i32) -> int {
    if n > 0 {
        n as int
    } else {
        0
    }
}

/// How many cards in the sequence currently occupy the deck zone.
pub open spec fn deck_count(s: Seq<Card>) -> int
    decreases s.len(),
{
    if s.len() == 0 {
        0
    } else {
        deck_count(s.drop_last()) + if s.last().state == State::Deck {
            1int
        } else {
            0int
        }
    }
}

/// How many of the first `k` deal rounds fall to player `p` when rounds
/// rotate over `n` players: round `j` falls to player `j % n`.
pub open spec fn rr_count(p: int, k: int, n: int) -> int
    decreases k,
{
    if k <= 0 {
        0
    } else {
        rr_count(p, k - 1, n) + if (k - 1) % n == p {
            1int
        } else {
            0int
        }
    }
}

/// The number of cards held across all hands at the table.
pub open spec fn total_hand_len(t: Seq<Player>) -> int
    decreases t.len(),
{
    if t.len() == 0 {
        0
    } else {
        total_hand_len(t.drop_last()) + t.last().hand@.len()
    }
}

/// Dealing never reshapes the deck: it keeps the length, every card's
/// value and suit, and moves states only from the deck zone to a hand.
pub open spec fn deal_preserves(olds: Seq<Card>, news: Seq<Card>) -> bool {
    &&& news.len() == olds.len()
    &&& forall|i: int|
        0 <= i < olds.len() ==> {
            &&& (#[trigger] news[i]).value == olds[i].value
            &&& news[i].suit == olds[i].suit
            &&& (news[i].state == olds[i].state || (olds[i].state == State::Deck
                && news[i].state == State::Hand))
        }
}

/// After `k` rounds over `n` players, every player keeps identity, score
/// and previous hand, and has gained exactly its share of the rounds.
pub open spec fn hands_extended(oldt: Seq<Player>, newt: Seq<Player>, k: int, n: int) -> bool {
    &&& newt.len() == oldt.len()
    &&& forall|p: int|
        0 <= p < oldt.len() ==> {
            &&& (#[trigger] newt[p]).id == oldt[p].id
            &&& newt[p].score == oldt[p].score
            &&& oldt[p].hand@.is_prefix_of(newt[p].hand@)
            &&& newt[p].hand@.len() == oldt[p].hand@.len() + rr_count(p, k, n)
        }
}

/// Every newly dealt card sits in the hand zone and descends from a deck
/// position that held the deck zone before and holds the hand zone now.
pub open spec fn dealt_from(
    oldt: Seq<Player>,
    newt: Seq<Player>,
    olds: Seq<Card>,
    news: Seq<Card>,
) -> bool {
    forall|p: int, a: int|
        0 <= p < newt.len() && oldt[p].hand@.len() <= a < newt[p].hand@.len() ==> {
            &&& (#[trigger] newt[p].hand@[a]).state == State::Hand
            &&& exists|i: int|
                0 <= i < olds.len() && olds[i].state == State::Deck && (#[trigger] news[i]).state
                    == State::Hand && news[i].value == newt[p].hand@[a].value && news[i].suit
                    == newt[p].hand@[a].suit
        }
}

/// No card was dealt twice: any two newly dealt hand positions, in one
/// hand or across hands, hold cards that differ in value or suit.
pub open spec fn dealt_distinct(oldt: Seq<Player>, newt: Seq<Player>) -> bool {
    forall|p1: int, a1: int, p2: int, a2: int|
        0 <= p1 < newt.len() && oldt[p1].hand@.len() <= a1 < newt[p1].hand@.len() && 0 <= p2
            < newt.len() && oldt[p2].hand@.len() <= a2 < newt[p2].hand@.len() && (p1 != p2 || a1
            != a2) ==> !((#[trigger] newt[p1].hand@[a1]).value == (
        #[trigger] newt[p2].hand@[a2]).value && newt[p1].hand@[a1].suit == newt[p2].hand@[a2].suit)
}

/// Relies on rand::random_range over `0..n`: it panics only on an empty
/// range and otherwise returns a value drawn from the range, so below `n`.
#[verifier::external_body]
fn random_below(n: usize) -> (r: usize)
    requires
        n > 0,
    ensures
        r < n,
{
    rand::random_range(0..n)
}

/// A sequence of cards that all occupy the deck zone counts fully toward
/// the deck zone; a caller that builds a fresh deck learns from this that
/// every one of its cards is available to deal.
pub proof fn lemma_deck_count_all(s: Seq<Card>)
    requires
        forall|i: int| 0 <= i < s.len() ==> (#[trigger] s[i]).state == State::Deck,
    ensures
        deck_count(s) == s.len(),
    decreases s.len(),
{
    if s.len() > 0 {
        lemma_deck_count_all(s.drop_last());
    }
}

/// Replacing one card of the sequence shifts the deck-zone count by the
/// difference the replacement makes at that position.
proof fn lemma_deck_count_update(s: Seq<Card>, i: int, c: Card)
    requires
        0 <= i < s.len(),
    ensures
        deck_count(s.update(i, c)) == deck_count(s) - (if s[i].state == State::Deck {
            1int
        } else {
            0int
        }) + (if c.state == State::Deck {
            1int
        } else {
            0int
        }),
    decreases s.len(),
{
    let t = s.update(i, c);
    if i == s.len() - 1 {
        assert(t.drop_last() =~= s.drop_last());
        assert(t.last() == c);
    } else {
        assert(t.drop_last() =~= s.drop_last().update(i, c));
        assert(t.last() == s.last());
        lemma_deck_count_update(s.drop_last(), i, c);
    }
}

/// The deck-zone count of one more prefix position grows by whether that
/// position occupies the deck zone.
proof fn lemma_deck_count_take_step(s: Seq<Card>, i: int)
    requires
        0 <= i < s.len(),
    ensures
        deck_count(s.take(i + 1)) == deck_count(s.take(i)) + (if s[i].state == State::Deck {
            1int
        } else {
            0int
        }),
{
    assert(s.take(i + 1).drop_last() =~= s.take(i));
    assert(s.take(i + 1).last() == s[i]);
}

/// A table on which every hand is empty holds no cards at all; a caller
/// that builds a fresh table learns from this that its total hand count
/// starts at zero.
pub proof fn lemma_total_hand_empty(t: Seq<Player>)
    requires
        forall|p: int| 0 <= p < t.len() ==> (#[trigger] t[p]).hand@.len() == 0,
    ensures
        total_hand_len(t) == 0,
    decreases t.len(),
{
    if t.len() > 0 {
        lemma_total_hand_empty(t.drop_last());
    }
}

/// Replacing one player's entry shifts the total hand count by the
/// difference between the new and the old hand.
proof fn lemma_total_hand_update(t: Seq<Player>, p: int, q: Player)
    requires
        0 <= p < t.len(),
    ensures
        total_hand_len(t.update(p, q)) == total_hand_len(t) - t[p].hand@.len() + q.hand@.len(),
    decreases t.len(),
{
    let u = t.update(p, q);
    if p == t.len() - 1 {
        assert(u.drop_last() =~= t.drop_last());
        assert(u.last() == q);
    } else {
        assert(u.drop_last() =~= t.drop_last().update(p, q));
        assert(u.last() == t.last());
        lemma_total_hand_update(t.drop_last(), p, q);
    }
}

impl Table {
    /// A table of exactly `n` players with identities 0 through `n - 1`
    /// in ascending order, each with an empty hand and a zero score.
    /// A table of no players is legal; a negative count is excluded.
    pub fn new(n: i32) -> (t: Table)
        requires
            n >= 0,
        ensures
            t.table@.len() == n as int,
            forall|p: int|
                0 <= p < n as int ==> (#[trigger] t.table@[p]).id == p && t.table@[p].hand@.len()
                    == 0 && t.table@[p].score == 0,
    {
        let mut v: Vec<Player> = Vec::new();
        let mut i: i32 = 0;
        while i < n
            invariant
                0 <= i <= n,
                v@.len() == i as int,
                forall|p: int|
                    0 <= p < i as int ==> (#[trigger] v@[p]).id == p && v@[p].hand@.len() == 0
                        && v@[p].score == 0,
            decreases n - i,
        {
            v.push(Player::new(i));
            i = i + 1;
        }
        Table { table: v }
    }

    /// Deal `num_to_deal` cards from the deck to the players in rotation:
    /// each round draws one uniformly random card still in the deck zone,
    /// moves it to the hand zone, and appends it to the hand of the next
    /// player, cycling from the first player onwards. A non-positive
    /// request deals nothing. The deal is refused whole — nothing moves —
    /// when players are missing or when fewer cards occupy the deck zone
    /// than were requested.
    pub fn deal_deck(&mut self, deck: &mut Deck, num_to_deal: i32) -> (res: Result<
        (),
        DealError,
    >)
        ensures
            (res is Ok <==> to_deal(num_to_deal) == 0 || (old(self).table@.len() > 0 && to_deal(
                num_to_deal,
            ) <= deck_count(old(deck).cards@))),
            (res == Result::<(), DealError>::Err(DealError::NoPlayers) <==> to_deal(num_to_deal)
                > 0 && old(self).table@.len() == 0),
            (res == Result::<(), DealError>::Err(DealError::NotEnoughCards) <==> to_deal(
                num_to_deal,
            ) > 0 && old(self).table@.len() > 0 && to_deal(num_to_deal) > deck_count(
                old(deck).cards@,
            )),
            res is Err ==> *final(self) == *old(self) && *final(deck) == *old(deck),
            res is Ok ==> {
                let k = to_deal(num_to_deal);
                let n = old(self).table@.len() as int;
                &&& deal_preserves(old(deck).cards@, final(deck).cards@)
                &&& deck_count(final(deck).cards@) == deck_count(old(deck).cards@) - k
                &&& hands_extended(old(self).table@, final(self).table@, k, n)
                &&& total_hand_len(final(self).table@) == total_hand_len(old(self).table@) + k
                &&& dealt_from(
                    old(self).table@,
                    final(self).table@,
                    old(deck).cards@,
                    final(deck).cards@,
                )
                &&& (distinct_pairs(old(deck).cards@) ==> dealt_distinct(
                    old(self).table@,
                    final(self).table@,
                ))
            },
    {
        let ghost old_d = deck.cards@;
        let ghost old_t = self.table@;
        let n_players: usize = self.table.len();

        // The positions of the cards still in the deck zone.
        let mut eligible: Vec<usize> = Vec::new();
        let deck_size: usize = deck.deck_size();
        let mut i: usize = 0;
        while i < deck_size
            invariant
                deck.cards@ == old_d,
                self.table@ == old_t,
                deck_size == old_d.len(),
                i <= deck_size,
                eligible@.len() == deck_count(old_d.take(i as int)),
                forall|a: int|
                    0 <= a < eligible@.len() ==> (#[trigger] eligible@[a]) < i && old_d[eligible@[a] as int].state
                        == State::Deck,
                forall|a: int, b: int|
                    0 <= a < eligible@.len() && 0 <= b < eligible@.len() && a != b
                        ==> eligible@[a] != eligible@[b],
            decreases deck_size - i,
        {
            proof {
                lemma_deck_count_take_step(old_d, i as int);
            }
            if deck.card_at(i).has_state(State::Deck) {
                eligible.push(i);
            }
            i = i + 1;
        }
        proof {
            assert(old_d.take(old_d.len() as int) =~= old_d);
        }

        let k: usize = if num_to_deal > 0 {
            num_to_deal as usize
        } else {
            0
        };
        if k > 0 && n_players == 0 {
            return Err(DealError::NoPlayers);
        }
        if k > eligible.len() {
            return Err(DealError::NotEnoughCards);
        }

        let ghost c0 = deck_count(old_d);
        let ghost t0 = total_hand_len(old_t);

        // Each round draws uniformly among the positions still eligible,
        // which keeps the draw uniform over the deck-zone cards and keeps
        // the loop bounded even as the deck zone drains.
        let mut j: usize = 0;
        while j < k
            invariant
                j <= k,
                k as int <= c0,
                n_players == old_t.len(),
                n_players > 0 || k == 0,
                deal_preserves(old_d, deck.cards@),
                deck_count(deck.cards@) == c0 - j,
                eligible@.len() == c0 - j,
                forall|a: int|
                    0 <= a < eligible@.len() ==> (#[trigger] eligible@[a]) < old_d.len()
                        && deck.cards@[eligible@[a] as int].state == State::Deck,
                forall|a: int, b: int|
                    0 <= a < eligible@.len() && 0 <= b < eligible@.len() && a != b
                        ==> eligible@[a] != eligible@[b],
                hands_extended(old_t, self.table@, j as int, n_players as int),
                total_hand_len(self.table@) == t0 + j,
                dealt_from(old_t, self.table@, old_d, deck.cards@),
                distinct_pairs(old_d) ==> dealt_distinct(old_t, self.table@),
            decreases k - j,
        {
            let r: usize = random_below(eligible.len());
            let idx: usize = eligible[r];
            eligible.swap_remove(r);
            let c: Card = *deck.card_at(idx);
            let dealt: Card = Card::new(c.value, c.suit, State::Hand);
            let ghost mid_d = deck.cards@;
            let ghost mid_t = self.table@;
            deck.cards[idx] = dealt;
            proof {
                lemma_deck_count_update(mid_d, idx as int, dealt);
                assert(old_d[idx as int].state == State::Deck);
                assert forall|a: int|
                    0 <= a < eligible@.len() implies (#[trigger] eligible@[a]) < old_d.len()
                    && deck.cards@[eligible@[a] as int].state == State::Deck by {
                    assert(eligible@[a] != idx);
                }
            }
            let p: usize = j % n_players;
            self.table[p].hand.push(dealt);
            proof {
                lemma_total_hand_update(mid_t, p as int, self.table@[p as int]);
                let cur_t = self.table@;
                let cur_d = deck.cards@;
                let jn = j as int;
                let n = n_players as int;
                assert(cur_t == mid_t.update(p as int, cur_t[p as int]));
                assert(cur_t[p as int].hand@ == mid_t[p as int].hand@.push(dealt));
                // The hands grew by exactly this round's share of the rotation.
                assert forall|q: int| 0 <= q < old_t.len() implies {
                    &&& (#[trigger] cur_t[q]).id == old_t[q].id
                    &&& cur_t[q].score == old_t[q].score
                    &&& old_t[q].hand@.is_prefix_of(cur_t[q].hand@)
                    &&& cur_t[q].hand@.len() == old_t[q].hand@.len() + rr_count(q, jn + 1, n)
                } by {
                    assert(rr_count(q, jn + 1, n) == rr_count(q, jn, n) + if jn % n == q {
                        1int
                    } else {
                        0int
                    });
                    if q != p as int {
                        assert(cur_t[q] == mid_t[q]);
                    } else {
                        assert(old_t[q].hand@.is_prefix_of(mid_t[q].hand@));
                        assert(mid_t[q].hand@.is_prefix_of(cur_t[q].hand@));
                    }
                }
                assert(hands_extended(old_t, cur_t, jn + 1, n));
                // Every dealt card, the newest included, descends from a
                // deck position that moved from the deck zone to a hand.
                assert forall|pp: int, a: int|
                    0 <= pp < cur_t.len() && old_t[pp].hand@.len() <= a < cur_t[pp].hand@.len()
                    implies {
                    &&& (#[trigger] cur_t[pp].hand@[a]).state == State::Hand
                    &&& exists|w: int|
                        0 <= w < old_d.len() && old_d[w].state == State::Deck && (
                        #[trigger] cur_d[w]).state == State::Hand && cur_d[w].value
                            == cur_t[pp].hand@[a].value && cur_d[w].suit == cur_t[pp].hand@[a].suit
                } by {
                    if pp == p as int && a == mid_t[pp].hand@.len() {
                        assert(cur_t[pp].hand@[a] == dealt);
                        assert(cur_d[idx as int].state == State::Hand);
                        assert(cur_d[idx as int].value == dealt.value);
                        assert(cur_d[idx as int].suit == dealt.suit);
                    } else {
                        assert(cur_t[pp].hand@[a] == mid_t[pp].hand@[a]);
                        let w = choose|w: int|
                            0 <= w < old_d.len() && old_d[w].state == State::Deck && (
                            #[trigger] mid_d[w]).state == State::Hand && mid_d[w].value
                                == mid_t[pp].hand@[a].value && mid_d[w].suit
                                == mid_t[pp].hand@[a].suit;
                        assert(w != idx);
                        assert(cur_d[w] == mid_d[w]);
                    }
                }
                assert(dealt_from(old_t, cur_t, old_d, cur_d));
                // No card is dealt twice: the newest card still sat in the
                // deck zone a moment ago, while every earlier one had
                // already left it, so they come from different positions,
                // and different positions never share value and suit.
                if distinct_pairs(old_d) {
                    assert forall|p1: int, a1: int, p2: int, a2: int|
                        0 <= p1 < cur_t.len() && old_t[p1].hand@.len() <= a1
                            < cur_t[p1].hand@.len() && 0 <= p2 < cur_t.len()
                            && old_t[p2].hand@.len() <= a2 < cur_t[p2].hand@.len() && (p1 != p2
                            || a1 != a2) implies !((#[trigger] cur_t[p1].hand@[a1]).value == (
                        #[trigger] cur_t[p2].hand@[a2]).value && cur_t[p1].hand@[a1].suit
                        == cur_t[p2].hand@[a2].suit) by {
                        let new1 = p1 == p as int && a1 == mid_t[p1].hand@.len();
                        let new2 = p2 == p as int && a2 == mid_t[p2].hand@.len();
                        if new1 && new2 {
                            assert(false);
                        } else if !new1 && !new2 {
                            assert(cur_t[p1].hand@[a1] == mid_t[p1].hand@[a1]);
                            assert(cur_t[p2].hand@[a2] == mid_t[p2].hand@[a2]);
                        } else {
                            let po = if new1 { p2 } else { p1 };
                            let ao = if new1 { a2 } else { a1 };
                            assert(cur_t[po].hand@[ao] == mid_t[po].hand@[ao]);
                            let w = choose|w: int|
                                0 <= w < old_d.len() && old_d[w].state == State::Deck && (
                                #[trigger] mid_d[w]).state == State::Hand && mid_d[w].value
                                    == mid_t[po].hand@[ao].value && mid_d[w].suit
                                    == mid_t[po].hand@[ao].suit;
                            assert(w != idx);
                            assert(mid_d[w].value == old_d[w].value && mid_d[w].suit
                                == old_d[w].suit);
                            assert(dealt.value == old_d[idx as int].value && dealt.suit
                                == old_d[idx as int].suit);
                            assert(!(old_d[w].value == old_d[idx as int].value && old_d[w].suit
                                == old_d[idx as int].suit));
                        }
                    }
                }
            }
            j = j + 1;
        }
        Ok(())
    }
}

} // verus!
