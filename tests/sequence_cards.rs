use machiavelli::Card::{Joker, RegularCard};
use machiavelli::Suit::{Club, Diamond, Heart, Spade};
use machiavelli::Sequence;
use rand::thread_rng;
#[test]
fn sequence_two_jokers() {
    let seq = Sequence::from_cards(&[
        Joker, 
        Joker
    ]);
    assert_eq!(seq.is_valid(), false);
}

#[test]
fn sequence_three_jokers() {
    let seq = Sequence::from_cards(&[
        Joker, 
        Joker, 
        Joker
    ]);
    assert_eq!(seq.is_valid(), true);
}

#[test]
fn sequence_same_suit_1() {
    let seq = Sequence::from_cards(&[
        RegularCard(Heart, 1), 
        RegularCard(Heart, 2), 
    ]);
    assert_eq!(seq.is_valid(), false);
}

#[test]
fn sequence_same_suit_2() {
    let seq = Sequence::from_cards(&[
        RegularCard(Club, 1), 
        RegularCard(Club, 2), 
        RegularCard(Club, 3), 
    ]);
    assert_eq!(seq.is_valid(), true);
}

#[test]
fn sequence_same_suit_3() {
    let seq = Sequence::from_cards(&[
        RegularCard(Club, 2), 
        RegularCard(Club, 3), 
        RegularCard(Club, 4), 
        RegularCard(Club, 5), 
    ]);
    assert_eq!(seq.is_valid(), true);
}

#[test]
fn sequence_same_suit_4() {
    let seq = Sequence::from_cards(&[
        RegularCard(Club, 2), 
        RegularCard(Club, 3), 
        RegularCard(Club, 5), 
        RegularCard(Club, 6), 
    ]);
    assert_eq!(seq.is_valid(), false);
}

#[test]
fn sequence_same_suit_5() {
    let seq = Sequence::from_cards(&[
        RegularCard(Club, 2), 
        RegularCard(Club, 3), 
        RegularCard(Club, 3), 
        RegularCard(Club, 4), 
    ]);
    assert_eq!(seq.is_valid(), false);
}

#[test]
fn sequence_same_suit_6() {
    let seq = Sequence::from_cards(&[
        RegularCard(Club, 12), 
        RegularCard(Club, 13), 
        RegularCard(Club, 1), 
    ]);
    assert_eq!(seq.is_valid(), true);
}

#[test]
fn sequence_same_suit_7() {
    let seq = Sequence::from_cards(&[
        RegularCard(Club, 13), 
        RegularCard(Club, 1), 
        RegularCard(Club, 2), 
    ]);
    assert_eq!(seq.is_valid(), false);
}

#[test]
fn sequence_same_suit_8() {
    let seq = Sequence::from_cards(&[
        RegularCard(Heart, 1), 
        RegularCard(Heart, 2), 
        RegularCard(Heart, 3), 
    ]);
    assert_eq!(seq.is_valid(), true);
}

#[test]
fn sequence_same_suit_9() {
    let seq = Sequence::from_cards(&[
        RegularCard(Heart, 2), 
        RegularCard(Heart, 3), 
        RegularCard(Heart, 4), 
        RegularCard(Heart, 5), 
    ]);
    assert_eq!(seq.is_valid(), true);
}

#[test]
fn sequence_same_suit_10() {
    let seq = Sequence::from_cards(&[
        RegularCard(Heart, 2), 
        RegularCard(Heart, 3), 
        RegularCard(Heart, 5), 
        RegularCard(Heart, 6), 
    ]);
    assert_eq!(seq.is_valid(), false);
}

#[test]
fn sequence_same_suit_11() {
    let seq = Sequence::from_cards(&[
        RegularCard(Heart, 2), 
        RegularCard(Heart, 3), 
        RegularCard(Heart, 3), 
        RegularCard(Heart, 4), 
    ]);
    assert_eq!(seq.is_valid(), false);
}

#[test]
fn sequence_same_suit_12() {
    let seq = Sequence::from_cards(&[
        RegularCard(Heart, 12), 
        RegularCard(Heart, 13), 
        RegularCard(Heart, 1), 
    ]);
    assert_eq!(seq.is_valid(), true);
}

#[test]
fn sequence_same_suit_13() {
    let seq = Sequence::from_cards(&[
        RegularCard(Heart, 13), 
        RegularCard(Heart, 1), 
        RegularCard(Heart, 2), 
    ]);
    assert_eq!(seq.is_valid(), false);
}

#[test]
fn sequence_same_suit_one_j_1() {
    let seq = Sequence::from_cards(&[
        RegularCard(Diamond, 2), 
        RegularCard(Diamond, 3), 
        Joker, 
        RegularCard(Diamond, 5), 
    ]);
    assert_eq!(seq.is_valid(), true);
}

#[test]
fn sequence_same_suit_one_j_2() {
    let seq = Sequence::from_cards(&[
        RegularCard(Diamond, 2), 
        RegularCard(Diamond, 3), 
        Joker, 
        RegularCard(Diamond, 6), 
    ]);
    assert_eq!(seq.is_valid(), false);
}

#[test]
fn sequence_same_suit_two_j_1() {
    let seq = Sequence::from_cards(&[
        Joker, 
        RegularCard(Diamond, 3), 
        Joker, 
        RegularCard(Diamond, 5), 
    ]);
    assert_eq!(seq.is_valid(), true);
}

#[test]
fn sequence_same_val_1() {
    let seq = Sequence::from_cards(&[
        RegularCard(Heart, 2), 
        RegularCard(Diamond, 2), 
        RegularCard(Spade, 2), 
    ]);
    assert_eq!(seq.is_valid(), true);
}

#[test]
fn sequence_same_val_2() {
    let seq = Sequence::from_cards(&[
        RegularCard(Heart, 2), 
        RegularCard(Diamond, 2), 
        RegularCard(Spade, 2), 
        RegularCard(Club, 2), 
    ]);
    assert_eq!(seq.is_valid(), true);
}

#[test]
fn sequence_same_val_3() {
    let seq = Sequence::from_cards(&[
        RegularCard(Heart, 2), 
        RegularCard(Spade, 2), 
        RegularCard(Spade, 2), 
    ]);
    assert_eq!(seq.is_valid(), false);
}

#[test]
fn sequence_same_val_one_j_1() {
    let seq = Sequence::from_cards(&[
        RegularCard(Heart, 2), 
        Joker, 
        RegularCard(Spade, 2), 
    ]);
    assert_eq!(seq.is_valid(), true);
}

#[test]
fn sequence_same_val_one_j_2() {
    let seq = Sequence::from_cards(&[
        RegularCard(Heart, 2), 
        Joker, 
        RegularCard(Heart, 2), 
    ]);
    assert_eq!(seq.is_valid(), false);
}

#[test]
fn sequence_same_val_two_j_1() {
    let seq = Sequence::from_cards(&[
        Joker, 
        Joker, 
        RegularCard(Spade, 2), 
    ]);
    assert_eq!(seq.is_valid(), true);
}

#[test]
fn sequence_same_val_two_j_2() {
    let seq = Sequence::from_cards(&[
        Joker, 
        RegularCard(Club, 2), 
        Joker, 
        RegularCard(Spade, 2), 
    ]);
    assert_eq!(seq.is_valid(), true);
}

#[test]
fn invalid_sequence_1() {
    let seq = Sequence::from_cards(&[
        RegularCard(Club, 2), 
        RegularCard(Spade, 2), 
    ]);
    assert_eq!(seq.is_valid(), false);
}

#[test]
fn invalid_sequence_2() {
    let seq = Sequence::from_cards(&[
        RegularCard(Club, 2), 
        RegularCard(Diamond, 3), 
        RegularCard(Heart, 2), 
    ]);
    assert_eq!(seq.is_valid(), false);
}

#[test]
fn build_deck_1() {
    let mut rng = thread_rng();
    let deck = Sequence::multi_deck(2, 2, &mut rng);
    assert_eq!(108, deck.number_cards());
}

#[test]
fn display_sequence_1() {
    let seq = Sequence::from_cards(&[
        RegularCard(Club, 2), 
        Joker,
        RegularCard(Diamond, 3), 
        RegularCard(Heart, 2), 
    ]);
    assert_eq!("2♣ ★ 3♦ 2♥ ".to_string(), seq.to_string());
}

#[test]
fn contains_joker_1() {
    let cards = Sequence::from_cards(&[
        Joker, 
        RegularCard(Heart, 1),
        RegularCard(Heart, 2),
        RegularCard(Heart, 3),
        RegularCard(Club, 11)
    ]);
    
    assert_eq!(true, cards.contains_joker());
}

#[test]
fn contains_joker_2() {
    let cards = Sequence::from_cards(&[
        RegularCard(Heart, 1),
        RegularCard(Heart, 2),
        RegularCard(Heart, 3),
        RegularCard(Club, 11)
    ]);
    
    assert_eq!(false, cards.contains_joker());
}
