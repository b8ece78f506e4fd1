use playing_cards::cards::{Card, FaceType, State, Suit, Value};

#[test]
fn test_card_creation() {
    println!("***************inside of a test****************");
    println!("{:?}", Card::new(Value::Number(2), Suit::Spades, State::Deck));
    assert_eq!(true, true);
}

#[test]
fn test_value_addition() {
    assert_eq!(Value::Number(3).add(2), Value::Number(5));
    assert_eq!(Value::Number(10).add(1), Value::Face(FaceType::Jack));
    assert_eq!(Value::Number(10).add(5), Value::Number(2));
    assert_eq!(Value::Number(10).add(4), Value::Ace);
    assert_eq!(Value::Number(10).add(-1), Value::Number(9));
}

#[test]
fn test_value_subtraction() {
    assert_eq!(Value::Number(3).sub(1), Value::Number(2));
    assert_eq!(Value::Ace.sub(4), Value::Number(10));
    assert_eq!(Value::Face(FaceType::King).sub(14), Value::Face(FaceType::Queen));
}

#[test]
fn test_value_iterator() {
    let mut it = Value::values();
    while let Some(v) = it.next() {
        println!("{:?}", v);
    }
}

fn collect_values() -> Vec<Value> {
    let mut out: Vec<Value> = Vec::new();
    let mut it = Value::values();
    while let Some(v) = it.next() {
        out.push(v);
    }
    out
}

#[test]
fn values_yields_all_fourteen_in_order_and_restarts() {
    let expected = vec![
        Value::Ace,
        Value::Number(2),
        Value::Number(3),
        Value::Number(4),
        Value::Number(5),
        Value::Number(6),
        Value::Number(7),
        Value::Number(8),
        Value::Number(9),
        Value::Number(10),
        Value::Face(FaceType::Jack),
        Value::Face(FaceType::Queen),
        Value::Face(FaceType::King),
        Value::Joker,
    ];
    let first = collect_values();
    assert_eq!(first, expected);
    let second = collect_values();
    assert_eq!(second, expected);
    let mut it = Value::values();
    for _ in 0..14 {
        assert!(it.next().is_some());
    }
    assert!(it.next().is_none());
    assert!(it.next().is_none());
}

#[test]
fn suits_yields_the_four_standard_suits_in_order() {
    let expected = vec![Suit::Clubs, Suit::Diamonds, Suit::Hearts, Suit::Spades];
    for _ in 0..2 {
        let mut out: Vec<Suit> = Vec::new();
        let mut it = Suit::suits();
        while let Some(s) = it.next() {
            out.push(s);
        }
        assert_eq!(out, expected);
    }
}

#[test]
fn addition_wraps_a_full_cycle_backwards() {
    assert_eq!(Value::Number(10).add(-13), Value::Number(10));
}

#[test]
fn negative_subtraction_steps_forward() {
    assert_eq!(Value::Number(9).sub(-1), Value::Number(10));
}

#[test]
fn add_then_sub_round_trips_every_rank() {
    let mut it = Value::values();
    while let Some(v) = it.next() {
        if v == Value::Joker {
            continue;
        }
        for k in [-30i32, -13, -5, -1, 0, 1, 5, 12, 13, 26, 100] {
            assert_eq!(v.add(k).sub(k), v);
            assert_eq!(v.sub(k).add(k), v);
        }
    }
}

#[test]
fn joker_is_coerced_into_the_ring() {
    // Rank 14 enters the ring as 14 - 13 = 1, so the result is never a Joker.
    assert_eq!(Value::Joker.add(0), Value::Ace);
    assert_eq!(Value::Joker.add(1), Value::Number(2));
    assert_eq!(Value::Joker.sub(1), Value::Face(FaceType::King));
}

#[test]
fn int_to_val_covers_the_whole_range() {
    assert_eq!(Value::int_to_val(1), Value::Ace);
    assert_eq!(Value::int_to_val(7), Value::Number(7));
    assert_eq!(Value::int_to_val(11), Value::Face(FaceType::Jack));
    assert_eq!(Value::int_to_val(12), Value::Face(FaceType::Queen));
    assert_eq!(Value::int_to_val(13), Value::Face(FaceType::King));
    assert_eq!(Value::int_to_val(14), Value::Joker);
}

#[test]
fn card_reports_its_state() {
    let c = Card::new(Value::Ace, Suit::Hearts, State::Play);
    assert!(c.has_state(State::Play));
    assert!(!c.has_state(State::Deck));
    assert!(!c.has_state(State::Hand));
    assert!(!c.has_state(State::Discard));
}
