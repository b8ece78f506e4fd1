use playing_cards::cards::{Deck, FaceType, State, Suit, Value};
use playing_cards::player::{DealError, Table};

#[test]
fn fresh_deck_has_52_distinct_cards_and_no_joker() {
    let deck = Deck::new();
    assert_eq!(deck.deck_size(), 52);
    let cards = deck.cards();
    for i in 0..cards.len() {
        assert_ne!(cards[i].value, Value::Joker);
        assert_ne!(cards[i].suit, Suit::Red);
        assert_ne!(cards[i].suit, Suit::Black);
        for j in 0..cards.len() {
            if i != j {
                assert!(cards[i].value != cards[j].value || cards[i].suit != cards[j].suit);
            }
        }
    }
}

#[test]
fn fresh_deck_is_in_suit_then_rank_order() {
    let deck = Deck::new();
    assert_eq!(deck.card_at(0).value, Value::Ace);
    assert_eq!(deck.card_at(0).suit, Suit::Clubs);
    assert_eq!(deck.card_at(12).value, Value::Face(FaceType::King));
    assert_eq!(deck.card_at(12).suit, Suit::Clubs);
    assert_eq!(deck.card_at(13).value, Value::Ace);
    assert_eq!(deck.card_at(13).suit, Suit::Diamonds);
    assert_eq!(deck.card_at(51).value, Value::Face(FaceType::King));
    assert_eq!(deck.card_at(51).suit, Suit::Spades);
}

#[test]
fn fresh_deck_cards_all_start_in_the_deck_zone() {
    let deck = Deck::new();
    for i in 0..deck.deck_size() {
        assert!(deck.card_at(i).has_state(State::Deck));
    }
}

#[test]
fn table_numbers_its_players_in_order() {
    let t = Table::new(5);
    assert_eq!(t.table.len(), 5);
    for (i, p) in t.table.iter().enumerate() {
        assert_eq!(p.id, i as i32);
        assert_eq!(p.hand.len(), 0);
        assert_eq!(p.score, 0);
    }
    let empty = Table::new(0);
    assert_eq!(empty.table.len(), 0);
}

#[test]
fn dealing_moves_exactly_the_requested_cards() {
    let mut deck = Deck::new();
    let mut t = Table::new(4);
    let res = t.deal_deck(&mut deck, 13);
    assert_eq!(res, Ok(()));

    let mut still_in_deck = 0;
    let mut moved_to_hand = 0;
    for i in 0..deck.deck_size() {
        let c = deck.card_at(i);
        if c.has_state(State::Deck) {
            still_in_deck += 1;
        } else {
            assert!(c.has_state(State::Hand));
            moved_to_hand += 1;
        }
    }
    assert_eq!(still_in_deck, 39);
    assert_eq!(moved_to_hand, 13);

    // Round robin from the first player: 13 cards over 4 players.
    assert_eq!(t.table[0].hand.len(), 4);
    assert_eq!(t.table[1].hand.len(), 3);
    assert_eq!(t.table[2].hand.len(), 3);
    assert_eq!(t.table[3].hand.len(), 3);

    // Every dealt card is in the hand zone, came from the deck, and no
    // card was dealt twice.
    let mut dealt: Vec<(Value, Suit)> = Vec::new();
    for p in &t.table {
        for c in &p.hand {
            assert!(c.has_state(State::Hand));
            assert!(!dealt.contains(&(c.value, c.suit)));
            dealt.push((c.value, c.suit));
        }
    }
    assert_eq!(dealt.len(), 13);
    for (v, s) in &dealt {
        let mut found = false;
        for i in 0..deck.deck_size() {
            let c = deck.card_at(i);
            if c.value == *v && c.suit == *s {
                assert!(c.has_state(State::Hand));
                found = true;
            }
        }
        assert!(found);
    }
}

#[test]
fn dealing_the_whole_deck_empties_the_deck_zone() {
    let mut deck = Deck::new();
    let mut t = Table::new(3);
    let res = t.deal_deck(&mut deck, 52);
    assert_eq!(res, Ok(()));
    for i in 0..deck.deck_size() {
        assert!(deck.card_at(i).has_state(State::Hand));
    }
    assert_eq!(t.table[0].hand.len(), 18);
    assert_eq!(t.table[1].hand.len(), 17);
    assert_eq!(t.table[2].hand.len(), 17);
    let res2 = t.deal_deck(&mut deck, 1);
    assert_eq!(res2, Err(DealError::NotEnoughCards));
}

#[test]
fn dealing_more_than_the_deck_zone_holds_is_refused_whole() {
    let mut deck = Deck::new();
    let mut t = Table::new(2);
    assert_eq!(t.deal_deck(&mut deck, 53), Err(DealError::NotEnoughCards));
    for i in 0..deck.deck_size() {
        assert!(deck.card_at(i).has_state(State::Deck));
    }
    assert_eq!(t.table[0].hand.len(), 0);
    assert_eq!(t.table[1].hand.len(), 0);
}

#[test]
fn dealing_to_an_empty_table_is_refused() {
    let mut deck = Deck::new();
    let mut t = Table::new(0);
    assert_eq!(t.deal_deck(&mut deck, 1), Err(DealError::NoPlayers));
    for i in 0..deck.deck_size() {
        assert!(deck.card_at(i).has_state(State::Deck));
    }
}

#[test]
fn a_non_positive_request_deals_nothing() {
    let mut deck = Deck::new();
    let mut t = Table::new(2);
    assert_eq!(t.deal_deck(&mut deck, 0), Ok(()));
    assert_eq!(t.deal_deck(&mut deck, -7), Ok(()));
    for i in 0..deck.deck_size() {
        assert!(deck.card_at(i).has_state(State::Deck));
    }
    assert_eq!(t.table[0].hand.len(), 0);
    assert_eq!(t.table[1].hand.len(), 0);
}

#[test]
fn successive_deals_drain_the_deck() {
    let mut deck = Deck::new();
    let mut t = Table::new(2);
    assert_eq!(t.deal_deck(&mut deck, 30), Ok(()));
    assert_eq!(t.deal_deck(&mut deck, 22), Ok(()));
    assert_eq!(t.table[0].hand.len(), 26);
    assert_eq!(t.table[1].hand.len(), 26);
    let mut dealt: Vec<(Value, Suit)> = Vec::new();
    for p in &t.table {
        for c in &p.hand {
            assert!(!dealt.contains(&(c.value, c.suit)));
            dealt.push((c.value, c.suit));
        }
    }
    assert_eq!(dealt.len(), 52);
}
