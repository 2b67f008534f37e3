use machiavelli::input::{config_from_text, parse_positions, parse_unsigned};
use machiavelli::card::{value_card_by_rank, value_card_by_suit};
use machiavelli::game::{game_to_bytes, load_game};
use machiavelli::protocol::{
    rename_duplicate_names, split_blob, BlobReader, Opcode, ACK_BYTE, BUFFER_SIZE, MAX_N_BUFFERS,
};
use machiavelli::table::Table;
use machiavelli::text::{instructions_no_save, reset_style_string, situation_to_string};
use machiavelli::turn::{pick_a_card, Action, Reply, TurnEngine, TurnStatus};
use machiavelli::Card::{Joker, RegularCard};
use machiavelli::Suit::{Club, Diamond, Heart, Spade};
use machiavelli::{Card, Config, Sequence};
use rand::thread_rng;

fn full_deck_with_last(last: &[Card]) -> Sequence {
    let mut deck = Sequence::new();
    for val in 1..=13u8 {
        for suit in [Heart, Diamond, Club, Spade] {
            let c = RegularCard(suit, val);
            if !last.contains(&c) {
                deck.add_card(c);
            }
        }
    }
    for c in last.iter().rev() {
        deck.add_card(c.clone());
    }
    deck
}

#[test]
fn run_validity_depends_on_order() {
    let ordered = Sequence::from_cards(&[RegularCard(Club, 2), RegularCard(Club, 3), RegularCard(Club, 4)]);
    let shuffled = Sequence::from_cards(&[RegularCard(Club, 3), RegularCard(Club, 2), RegularCard(Club, 4)]);
    assert!(ordered.is_valid());
    assert!(!shuffled.is_valid());
}

#[test]
fn short_sequences_are_invalid() {
    assert!(!Sequence::new().is_valid());
    assert!(!Sequence::from_cards(&[Joker]).is_valid());
    assert!(!Sequence::from_cards(&[RegularCard(Heart, 5), RegularCard(Spade, 5)]).is_valid());
}

#[test]
fn run_wraps_once_after_king() {
    let seq = Sequence::from_cards(&[RegularCard(Spade, 12), RegularCard(Spade, 13), RegularCard(Spade, 1), RegularCard(Spade, 1)]);
    assert!(!seq.is_valid());
    let seq = Sequence::from_cards(&[RegularCard(Spade, 11), RegularCard(Spade, 12), Joker, RegularCard(Spade, 1)]);
    assert!(seq.is_valid());
}

#[test]
fn contains_counts_jokers() {
    let two = Sequence::from_cards(&[Joker, RegularCard(Heart, 4), Joker]);
    let one = Sequence::from_cards(&[Joker, RegularCard(Heart, 4)]);
    assert!(two.contains(&one));
    assert!(!one.contains(&two));
    assert!(one.contains(&Sequence::new()));
    assert!(!one.contains(&Sequence::from_cards(&[RegularCard(Heart, 5)])));
}

#[test]
fn merge_appends_in_reverse() {
    let mut a = Sequence::from_cards(&[Joker, RegularCard(Heart, 1)]);
    let b = Sequence::from_cards(&[RegularCard(Heart, 2), RegularCard(Heart, 3), RegularCard(Club, 11)]);
    a.merge(b);
    assert_eq!(
        a,
        Sequence::from_cards(&[Joker, RegularCard(Heart, 1), RegularCard(Club, 11), RegularCard(Heart, 3), RegularCard(Heart, 2)])
    );
}

#[test]
fn take_and_draw_cards() {
    let mut s = Sequence::from_cards(&[Joker, RegularCard(Heart, 1), RegularCard(Club, 11)]);
    assert_eq!(s.take_card(0), None);
    assert_eq!(s.take_card(4), None);
    assert_eq!(s.take_card(2), Some(RegularCard(Heart, 1)));
    assert_eq!(s.draw_card(), Some(RegularCard(Club, 11)));
    assert_eq!(s.draw_card(), Some(Joker));
    assert_eq!(s.draw_card(), None);
}

#[test]
fn sort_by_suit_and_rank() {
    let cards = [
        Joker,
        RegularCard(Heart, 1),
        RegularCard(Heart, 3),
        RegularCard(Club, 11),
        RegularCard(Club, 1),
        RegularCard(Heart, 2),
        RegularCard(Club, 3),
    ];
    let mut s = Sequence::from_cards(&cards);
    s.sort_by_suit();
    assert_eq!(
        s,
        Sequence::from_cards(&[
            RegularCard(Heart, 1),
            RegularCard(Heart, 2),
            RegularCard(Heart, 3),
            RegularCard(Club, 1),
            RegularCard(Club, 3),
            RegularCard(Club, 11),
            Joker
        ])
    );
    let mut s = Sequence::from_cards(&cards);
    s.sort_by_rank();
    assert_eq!(
        s,
        Sequence::from_cards(&[
            RegularCard(Heart, 1),
            RegularCard(Club, 1),
            RegularCard(Heart, 2),
            RegularCard(Heart, 3),
            RegularCard(Club, 3),
            RegularCard(Club, 11),
            Joker
        ])
    );
    assert_eq!(value_card_by_suit(&RegularCard(Club, 3)), 771);
    assert_eq!(value_card_by_rank(&RegularCard(Club, 3)), 27);
    assert_eq!(value_card_by_rank(&Joker), 65535);
}

#[test]
fn shuffled_deck_holds_every_card() {
    let mut rng = thread_rng();
    let mut deck = Sequence::multi_deck(3, 2, &mut rng);
    assert_eq!(deck.number_cards(), 162);
    let all = deck.to_vec();
    assert_eq!(all.iter().filter(|c| **c == Joker).count(), 6);
    assert_eq!(all.iter().filter(|c| **c == RegularCard(Spade, 13)).count(), 3);
    deck.sort_by_suit();
    assert_eq!(deck.take_card(1), Some(RegularCard(Heart, 1)));
}

#[test]
fn card_text() {
    assert_eq!(RegularCard(Spade, 10).to_string(), "10♠");
    assert_eq!(RegularCard(Heart, 1).to_string(), "A♥");
    assert_eq!(RegularCard(Diamond, 12).to_string(), "Q♦");
    assert_eq!(RegularCard(Club, 7).to_string(), "7♣");
    assert_eq!(Joker.to_string(), "★");
}

#[test]
fn card_bytes() {
    assert_eq!(RegularCard(Club, 12).to_bytes(), [3, 12]);
    assert_eq!(Joker.to_bytes(), [0, 0]);
    assert_eq!(Card::from_bytes(4, 13), Some(RegularCard(Spade, 13)));
    assert_eq!(Card::from_bytes(0, 9), Some(Joker));
    assert_eq!(Card::from_bytes(5, 1), None);
    let s = Sequence::from_cards(&[RegularCard(Heart, 2), Joker]);
    assert_eq!(s.to_bytes(), vec![1, 2, 0, 0]);
    assert_eq!(Sequence::from_bytes(&[1, 2, 0, 0]), Some(s));
    assert_eq!(Sequence::from_bytes(&[1, 2, 0]), None);
    assert_eq!(Sequence::from_bytes(&[9, 2]), None);
}

#[test]
fn config_bytes() {
    let config = Config { n_decks: 2, n_jokers: 4, n_cards_to_start: 13, custom_rule_jokers: false, n_players: 2 };
    assert_eq!(config.to_bytes(), vec![2, 4, 0, 13, 0, 2]);
    assert_eq!(Config::from_bytes(&[2, 4, 0, 13, 0, 2]), config);
}

#[test]
fn config_round_trip_extremes() {
    for (d, j, n, c, p) in [(1u8, 0u8, 0u16, false, 1u8), (255, 255, 65535, true, 255), (3, 7, 300, true, 4)] {
        let config = Config { n_decks: d, n_jokers: j, n_cards_to_start: n, custom_rule_jokers: c, n_players: p };
        assert_eq!(Config::from_bytes(&config.to_bytes()), config);
    }
    assert_eq!(Config { n_decks: 1, n_jokers: 0, n_cards_to_start: 300, custom_rule_jokers: true, n_players: 1 }.to_bytes(), vec![1, 0, 1, 44, 1, 1]);
}

#[test]
fn table_take_not_found_and_after_add() {
    let mut table = Table::new();
    assert!(table.take(1).is_none());
    let meld = Sequence::from_cards(&[RegularCard(Heart, 1), RegularCard(Heart, 2), RegularCard(Heart, 3)]);
    table.add(meld.clone());
    assert!(table.take(0).is_none());
    assert!(table.take(2).is_none());
    assert_eq!(table.number_sequences(), 1);
    assert_eq!(table.take(1), Some(meld));
    assert_eq!(table.number_sequences(), 0);
}

#[test]
fn table_bytes_and_text() {
    let mut table = Table::new();
    table.add(Sequence::from_cards(&[Joker, Joker, Joker]));
    table.add(Sequence::from_cards(&[RegularCard(Club, 2), RegularCard(Club, 3), RegularCard(Club, 4)]));
    let bytes = table.to_bytes();
    assert_eq!(bytes, vec![3, 0, 0, 0, 0, 0, 0, 3, 3, 2, 3, 3, 3, 4]);
    let back = Table::from_bytes(&bytes).unwrap();
    assert_eq!(back.to_string(), "1: ★ ★ ★ \n2: 2♣ 3♣ 4♣ \n");
    assert!(Table::from_bytes(&[3, 0, 0]).is_none());
    assert_eq!(Table::from_bytes(&[]).unwrap().number_sequences(), 0);
}

#[test]
fn game_round_trip() {
    let config = Config { n_decks: 1, n_jokers: 2, n_cards_to_start: 2, custom_rule_jokers: true, n_players: 3 };
    let hands = vec![
        Sequence::from_cards(&[RegularCard(Heart, 1), Joker]),
        Sequence::new(),
        Sequence::from_cards(&[RegularCard(Spade, 13)]),
    ];
    let names = vec!["Ann".to_string(), "Zoë".to_string(), "Bob".to_string()];
    let deck = Sequence::from_cards(&[RegularCard(Diamond, 9), RegularCard(Club, 10)]);
    let mut table = Table::new();
    let bytes = game_to_bytes(1, &table, &hands, &deck, &config, &names);
    let (c, p, t, h, d, n) = load_game(&bytes).ok().unwrap();
    assert_eq!((c, p, h, d, n), (config, 1, hands.clone(), deck.clone(), names.clone()));
    assert_eq!(t.number_sequences(), 0);

    table.add(Sequence::from_cards(&[Joker, Joker, Joker]));
    let bytes = game_to_bytes(2, &table, &hands, &deck, &config, &names);
    let (c, p, t, h, d, n) = load_game(&bytes).ok().unwrap();
    assert_eq!((c, p, h, d, n), (config, 2, hands, deck, names));
    assert_eq!(t.to_string(), "1: ★ ★ ★ \n");
}

#[test]
fn load_game_rejects_malformed_bytes() {
    assert!(load_game(&[1, 0, 0, 2, 0]).is_err());
    // one player, hand of one card with suit byte 7
    assert!(load_game(&[1, 0, 0, 1, 0, 1, 0, 0, 1, 7, 1, 0, 0, 0]).is_err());
    // one player, empty hand, a name that is not UTF-8
    assert!(load_game(&[1, 0, 0, 1, 0, 1, 0, 0, 0, 1, 0xff, 0, 0]).is_err());
    // the same with a valid name
    let (_, _, _, _, _, names) = load_game(&[1, 0, 0, 1, 0, 1, 0, 0, 0, 1, b'x', 0, 0]).ok().unwrap();
    assert_eq!(names, vec!["x".to_string()]);
}

#[test]
fn single_pick_per_turn() {
    let mut table = Table::new();
    let mut hand = Sequence::from_cards(&[RegularCard(Heart, 5), RegularCard(Club, 9)]);
    let mut deck = Sequence::from_cards(&[RegularCard(Spade, 2), RegularCard(Diamond, 7)]);
    let mut engine = TurnEngine::start(&hand, false);
    let r = engine.step(Action::PickCard, &mut table, &mut hand, &mut deck);
    assert!(matches!(r, Reply::Picked(RegularCard(Diamond, 7))));
    assert_eq!(r.text(), "You have picked a 7♦");
    assert_eq!(engine.status(), TurnStatus::Ended);
    assert_eq!(hand.number_cards(), 3);
    let r = engine.step(Action::PickCard, &mut table, &mut hand, &mut deck);
    assert!(matches!(r, Reply::TurnOver));
    assert_eq!(hand.number_cards(), 3);
    assert_eq!(deck.number_cards(), 1);
}

#[test]
fn pick_from_empty_deck() {
    let mut hand = Sequence::new();
    let mut deck = Sequence::new();
    assert!(pick_a_card(&mut hand, &mut deck).is_err());
    let mut table = Table::new();
    let mut engine = TurnEngine::start(&hand, false);
    let r = engine.step(Action::PickCard, &mut table, &mut hand, &mut deck);
    assert!(matches!(r, Reply::NoMoreCards));
    assert_eq!(r.text(), "No more card to draw!");
    assert_eq!(engine.status(), TurnStatus::Ended);
}

#[test]
fn joker_rule_blocks_pick_and_pass() {
    let mut table = Table::new();
    let mut hand = Sequence::from_cards(&[Joker, RegularCard(Club, 9)]);
    let mut deck = Sequence::from_cards(&[RegularCard(Spade, 2)]);
    let mut engine = TurnEngine::start(&hand, true);
    let r = engine.step(Action::PickCard, &mut table, &mut hand, &mut deck);
    assert!(matches!(r, Reply::JokersMustBePlayed));
    let r = engine.step(Action::EndTurn, &mut table, &mut hand, &mut deck);
    assert!(matches!(r, Reply::PassNeedsPlay));
    assert_eq!(engine.status(), TurnStatus::Acting);
}

#[test]
fn end_to_end_first_meld() {
    let config = Config { n_decks: 1, n_jokers: 0, n_cards_to_start: 7, custom_rule_jokers: false, n_players: 2 };
    let mut deck = full_deck_with_last(&[RegularCard(Heart, 1), RegularCard(Heart, 2), RegularCard(Heart, 3)]);
    assert_eq!(deck.number_cards(), 52);
    let mut hands = vec![Sequence::new(), Sequence::new()];
    for hand in hands.iter_mut() {
        for _ in 0..config.n_cards_to_start {
            pick_a_card(hand, &mut deck).ok().unwrap();
        }
    }
    assert_eq!(deck.number_cards(), 38);
    let mut table = Table::new();
    let mut hand = hands.remove(0);
    let mut engine = TurnEngine::start(&hand, config.custom_rule_jokers);
    let r = engine.step(Action::EndTurn, &mut table, &mut hand, &mut deck);
    assert!(matches!(r, Reply::PassNeedsPlay));
    let r = engine.step(Action::PlaySequence(vec![1, 2, 3]), &mut table, &mut hand, &mut deck);
    assert!(matches!(r, Reply::Played));
    assert_eq!(table.number_sequences(), 1);
    assert_eq!(hand.number_cards(), 4);
    let r = engine.step(Action::EndTurn, &mut table, &mut hand, &mut deck);
    assert!(matches!(r, Reply::TurnEnded));
    assert_eq!(engine.status(), TurnStatus::Ended);
}

#[test]
fn invalid_meld_goes_back_to_hand() {
    let mut table = Table::new();
    let mut hand = Sequence::from_cards(&[RegularCard(Heart, 1), RegularCard(Club, 2), RegularCard(Heart, 3), RegularCard(Spade, 9)]);
    let mut deck = Sequence::new();
    let mut engine = TurnEngine::start(&hand, false);
    let r = engine.step(Action::PlaySequence(vec![3, 1, 3, 0, 2, 9]), &mut table, &mut hand, &mut deck);
    match &r {
        Reply::InvalidSequence(s) => {
            assert_eq!(*s, Sequence::from_cards(&[RegularCard(Heart, 3), RegularCard(Heart, 1), RegularCard(Club, 2)]))
        }
        _ => panic!("expected an invalid meld"),
    }
    assert_eq!(r.text(), "3♥ A♥ 2♣  is not a valid sequence!");
    assert_eq!(table.number_sequences(), 0);
    assert_eq!(
        hand,
        Sequence::from_cards(&[RegularCard(Spade, 9), RegularCard(Club, 2), RegularCard(Heart, 1), RegularCard(Heart, 3)])
    );
    let r = engine.step(Action::SaveAndQuit, &mut table, &mut hand, &mut deck);
    assert!(matches!(r, Reply::SaveAndQuit));
    assert_eq!(engine.status(), TurnStatus::SaveRequested);
}

#[test]
fn taking_from_table_blocks_ending() {
    let mut table = Table::new();
    table.add(Sequence::from_cards(&[RegularCard(Club, 2), RegularCard(Club, 3), RegularCard(Club, 4)]));
    let mut hand = Sequence::from_cards(&[RegularCard(Spade, 9)]);
    let mut deck = Sequence::from_cards(&[Joker]);
    let mut engine = TurnEngine::start(&hand, false);
    let r = engine.step(Action::TakeFromTable(2), &mut table, &mut hand, &mut deck);
    assert!(matches!(r, Reply::NotOnTable));
    let r = engine.step(Action::TakeFromTable(1), &mut table, &mut hand, &mut deck);
    assert!(matches!(r, Reply::TakenFromTable));
    assert_eq!(hand.number_cards(), 4);
    assert!(matches!(engine.step(Action::EndTurn, &mut table, &mut hand, &mut deck), Reply::PassBeforePlayingTaken));
    assert!(matches!(engine.step(Action::PickCard, &mut table, &mut hand, &mut deck), Reply::PickBeforePlayingTaken));
    assert!(matches!(engine.step(Action::SaveAndQuit, &mut table, &mut hand, &mut deck), Reply::SaveBeforePlayingTaken));
    let r = engine.step(Action::PlaySequence(vec![4, 3, 2]), &mut table, &mut hand, &mut deck);
    assert!(matches!(r, Reply::Played));
    assert!(matches!(engine.step(Action::SortByRank, &mut table, &mut hand, &mut deck), Reply::Sorted));
    assert!(matches!(engine.step(Action::EndTurn, &mut table, &mut hand, &mut deck), Reply::PassNeedsPlay));
}

#[test]
fn blob_hello() {
    let (count, chunks) = split_blob(b"Hello").ok().unwrap();
    assert_eq!(count, 1);
    assert_eq!(chunks, vec![b"Hello".to_vec()]);
    let mut reader = BlobReader::new(count);
    assert!(!reader.is_complete());
    for c in &chunks {
        reader.push_chunk(c);
    }
    assert!(reader.is_complete());
    assert_eq!(reader.into_bytes(), b"Hello".to_vec());
    assert_eq!(ACK_BYTE, 0);
    assert_eq!(Opcode::Notify.to_byte(), 1);
    assert_eq!(Opcode::from_byte(3), Some(Opcode::PromptAndAwait));
    assert_eq!(Opcode::from_byte(5), None);
    assert!(Opcode::SilentAwait.awaits_reply());
    assert!(!Opcode::SilentAwait.carries_message());
}

#[test]
fn blob_sizes() {
    let payload: Vec<u8> = (0..120u32).map(|i| i as u8).collect();
    let (count, chunks) = split_blob(&payload).ok().unwrap();
    assert_eq!(count, 3);
    assert_eq!(chunks.iter().map(|c| c.len()).collect::<Vec<_>>(), vec![50, 50, 20]);
    let (count, chunks) = split_blob(&[]).ok().unwrap();
    assert_eq!((count, chunks.len()), (0, 0));
    let max = vec![7u8; MAX_N_BUFFERS * BUFFER_SIZE];
    assert_eq!(split_blob(&max).ok().unwrap().0, 255);
    let too_long = vec![7u8; MAX_N_BUFFERS * BUFFER_SIZE + 1];
    let err = split_blob(&too_long).err().unwrap();
    assert_eq!(err.message(), "Stream too long");
}

#[test]
fn duplicate_names_are_renamed() {
    let mut names = vec!["a".to_string(), "a".to_string(), "a_".to_string(), "b".to_string()];
    let renamed = rename_duplicate_names(&mut names);
    assert_eq!(renamed, vec![1, 2]);
    assert_eq!(names, vec!["a", "a_", "a__", "b"]);
    assert!(rename_duplicate_names(&mut names).is_empty());
}

#[test]
fn situation_and_instructions() {
    let mut table = Table::new();
    table.add(Sequence::from_cards(&[Joker, Joker, Joker]));
    let hand = Sequence::from_cards(&[RegularCard(Heart, 10)]);
    let deck = Sequence::from_cards(&[Joker; 12]);
    assert_eq!(
        situation_to_string(&table, &hand, &deck),
        "\nTable:\n1: ★ ★ ★ \n\nYour hand:\n10♥ \n\nRemaining cards in the deck: 12\n"
    );
    assert!(instructions_no_save().starts_with("e: End your turn\n"));
    assert_eq!(reset_style_string(), "\x1b[0m\x1b[30;47m\x1b[?25l");
}

#[test]
fn positions_line() {
    assert_eq!(parse_positions(b"3 1 x 12  +4 -2 99999999999"), vec![3, 1, 12, 4]);
    assert_eq!(parse_positions(b""), Vec::<usize>::new());
    assert_eq!(parse_positions(b"4294967295 4294967296"), vec![4294967295]);
}

#[test]
fn config_file_text() {
    let (config, save) = config_from_text(b"My game\n2\n4\n13\n1\n3\nsave.bin\n").unwrap();
    assert_eq!(config, Config { n_decks: 2, n_jokers: 4, n_cards_to_start: 13, custom_rule_jokers: true, n_players: 3 });
    assert_eq!(save, "save.bin");
    let (config, _) = config_from_text(b"x\n1\n0\n65535\n0\n2\nf").unwrap();
    assert_eq!(config.n_cards_to_start, 65535);
    assert!(!config.custom_rule_jokers);
    assert!(config_from_text(b"x\n1\n0\n7\n0\n2").is_none());
    assert!(config_from_text(b"x\n256\n0\n7\n0\n2\nf").is_none());
    assert!(config_from_text(b"x\n1\n0\n65536\n0\n2\nf").is_none());
    assert_eq!(parse_unsigned(b"255", 255), Some(255));
    assert_eq!(parse_unsigned(b"256", 255), None);
    assert_eq!(parse_unsigned(b"+", 255), None);
    assert_eq!(parse_unsigned(b"", 255), None);
    assert_eq!(parse_unsigned(b"007", 255), Some(7));
}

#[test]
fn deck_is_shuffled() {
    let mut rng = thread_rng();
    let deck = Sequence::multi_deck(1, 0, &mut rng);
    let mut ordered = Sequence::new();
    for val in 1..=13u8 {
        for suit in [Heart, Diamond, Club, Spade] {
            ordered.add_card(RegularCard(suit, val));
        }
    }
    assert_ne!(deck, ordered);
    let mut sorted = deck.clone();
    sorted.sort_by_rank();
    assert_eq!(sorted, ordered);
}
