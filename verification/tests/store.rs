use flashcards::deck::{serialize_cards, Card, EncodeError};
use flashcards::index::{format_index, parse_index};
use flashcards::naming::{default_deck_name, unique_deck_name};
use flashcards::deck::DeckMeta;
use flashcards::shuffle::shuffle_cards;
use flashcards::storage::{
    deck_key_text, demo_deck, index_key_text, DeckStorage, SaveError, StoreOp, DICT_NAME,
};

fn card(front: &str, back: &str) -> Card {
    Card { front: front.to_string(), back: back.to_string() }
}

fn pairs(cards: &[Card]) -> Vec<(String, String)> {
    cards.iter().map(|c| (c.front.clone(), c.back.clone())).collect()
}

fn listed(store: &DeckStorage) -> Vec<(String, u32)> {
    store.list_decks().iter().map(|m| (m.name.clone(), m.card_count)).collect()
}

fn ops(store: &mut DeckStorage) -> Vec<String> {
    store
        .take_writes()
        .iter()
        .map(|op| match op {
            StoreOp::Put { key, data } => format!("put {} {}", key, data.len()),
            StoreOp::Delete { key } => format!("delete {}", key),
            StoreOp::Sync => "sync".to_string(),
        })
        .collect()
}

#[test]
fn keys_and_dictionary_name() {
    assert_eq!(DICT_NAME, "flashcards");
    assert_eq!(index_key_text(), "_index");
    assert_eq!(deck_key_text("Foo"), "deck.Foo");
    assert_eq!(deck_key_text(""), "deck.");
}

#[test]
fn save_then_load_gives_the_cards_back() {
    let mut store = DeckStorage::new();
    let cards = vec![card("q1", "a1"), card("q2", "a2")];
    assert_eq!(store.save_deck("Foo", &cards), Ok(()));
    assert_eq!(pairs(&store.load_deck("Foo").unwrap()), pairs(&cards));
    assert_eq!(listed(&store), vec![("Foo".to_string(), 2)]);
    assert_eq!(store.get_card_count("Foo"), 2);
    assert!(store.has_index());
}

#[test]
fn delete_then_load_gives_nothing() {
    let mut store = DeckStorage::new();
    store.save_deck("Foo", &[card("q", "a")]).unwrap();
    store.save_deck("Bar", &[card("x", "y")]).unwrap();
    store.delete_deck("Foo");
    assert!(store.load_deck("Foo").is_none());
    assert_eq!(listed(&store), vec![("Bar".to_string(), 1)]);
    assert_eq!(pairs(&store.load_deck("Bar").unwrap()), vec![("x".to_string(), "y".to_string())]);
}

#[test]
fn saving_again_replaces_the_deck_and_keeps_its_place() {
    let mut store = DeckStorage::new();
    store.save_deck("A", &[card("1", "1")]).unwrap();
    store.save_deck("B", &[card("2", "2")]).unwrap();
    store.save_deck("A", &[card("3", "3"), card("4", "4")]).unwrap();
    assert_eq!(listed(&store), vec![("A".to_string(), 2), ("B".to_string(), 1)]);
    assert_eq!(pairs(&store.load_deck("A").unwrap()).len(), 2);
}

#[test]
fn the_journal_has_the_deck_before_the_index() {
    let mut store = DeckStorage::new();
    store.save_deck("A", &[card("1", "1")]).unwrap();
    assert_eq!(ops(&mut store), vec!["put deck.A 10", "sync", "put _index 1", "sync"]);
    assert_eq!(ops(&mut store), Vec::<String>::new());
    store.save_deck("A", &[card("1", "1")]).unwrap();
    assert_eq!(ops(&mut store), vec!["put deck.A 10", "sync"]);
    store.save_deck("B", &[]).unwrap();
    assert_eq!(ops(&mut store), vec!["put deck.B 4", "sync", "put _index 3", "sync"]);
    store.delete_deck("A");
    assert_eq!(ops(&mut store), vec!["delete deck.A", "put _index 1", "sync"]);
}

#[test]
fn deleting_what_is_not_there_does_nothing() {
    let mut store = DeckStorage::new();
    store.delete_deck("Nope");
    assert!(!store.has_index());
    assert_eq!(ops(&mut store), Vec::<String>::new());
    store.save_deck("A", &[card("1", "1")]).unwrap();
    store.take_writes();
    store.delete_deck("Nope");
    assert_eq!(listed(&store), vec![("A".to_string(), 1)]);
    assert_eq!(ops(&mut store), Vec::<String>::new());
}

#[test]
fn a_listed_deck_without_a_readable_count_counts_zero() {
    let mut store = DeckStorage::new();
    store.restore("_index", b"Gone\nShort\nOk".to_vec());
    store.restore("deck.Short", vec![1, 0]);
    store.restore("deck.Ok", vec![7, 1, 0, 0]);
    assert_eq!(
        listed(&store),
        vec![("Gone".to_string(), 0), ("Short".to_string(), 0), ("Ok".to_string(), 263)]
    );
    assert!(store.load_deck("Gone").is_none());
    assert!(store.load_deck("Short").is_none());
    assert!(store.load_deck("Ok").is_none());
    assert_eq!(ops(&mut store), Vec::<String>::new());
}

#[test]
fn an_index_that_is_not_text_lists_nothing() {
    let mut store = DeckStorage::new();
    store.restore("_index", vec![0xff, 0xfe]);
    assert!(store.has_index());
    assert_eq!(listed(&store), Vec::<(String, u32)>::new());
    assert_eq!(store.read_index(), Vec::<String>::new());
}

#[test]
fn restore_replaces_and_get_reads() {
    let mut store = DeckStorage::new();
    assert!(store.get("k").is_none());
    store.restore("k", vec![1]);
    store.restore("j", vec![2]);
    store.restore("k", vec![3]);
    assert_eq!(store.get("k"), Some(&vec![3]));
    assert_eq!(store.get("j"), Some(&vec![2]));
}

#[test]
fn a_deck_that_does_not_fit_is_refused_and_nothing_changes() {
    let mut store = DeckStorage::new();
    let long = "x".repeat(65536);
    assert_eq!(
        store.save_deck("Big", &[card(&long, "a")]),
        Err(SaveError::Encode(EncodeError::TextTooLong { index: 0 }))
    );
    assert!(!store.has_index());
    assert!(store.load_deck("Big").is_none());
    assert_eq!(ops(&mut store), Vec::<String>::new());
}

#[test]
fn a_new_store_gets_the_demo_deck_once() {
    let mut store = DeckStorage::new();
    store.ensure_demo_deck();
    assert_eq!(listed(&store), vec![("Xous Basics".to_string(), 8)]);
    let deck = store.load_deck("Xous Basics").unwrap();
    assert_eq!(deck.len(), 8);
    assert_eq!(deck[0].front, "What is Xous?");
    assert_eq!(
        deck[7].back,
        "Register rawkeys_id with GAM. Keys arrive as up to 4 chars packed in scalar message parameters."
    );
    assert_eq!(pairs(&deck), pairs(&demo_deck()));
    assert_eq!(
        store.get("deck.Xous Basics").unwrap(),
        &serialize_cards(&demo_deck()).unwrap()
    );
    store.delete_deck("Xous Basics");
    store.ensure_demo_deck();
    assert_eq!(listed(&store), Vec::<(String, u32)>::new());
    assert!(store.has_index());
}

#[test]
fn an_empty_index_is_an_index() {
    let mut store = DeckStorage::new();
    store.restore("_index", Vec::new());
    store.ensure_demo_deck();
    assert_eq!(listed(&store), Vec::<(String, u32)>::new());
}

#[test]
fn index_text_is_names_joined_by_line_feeds() {
    let names = vec!["A".to_string(), "B C".to_string(), "D".to_string()];
    assert_eq!(format_index(&names), "A\nB C\nD");
    assert_eq!(parse_index("A\nB C\nD"), names);
    assert_eq!(parse_index("\nA\n\nB C\nD\n"), names);
    assert_eq!(parse_index(""), Vec::<String>::new());
    assert_eq!(format_index(&[]), "");
    assert_eq!(format_index(&["A".to_string()]), "A");
}

fn meta(name: &str) -> DeckMeta {
    DeckMeta { name: name.to_string(), card_count: 0 }
}

#[test]
fn a_taken_name_gets_the_first_free_number() {
    let none: Vec<DeckMeta> = Vec::new();
    assert_eq!(unique_deck_name(&none, "Foo"), "Foo");
    assert_eq!(unique_deck_name(&[meta("Foo")], "Foo"), "Foo (2)");
    assert_eq!(unique_deck_name(&[meta("Foo"), meta("Foo (2)")], "Foo"), "Foo (3)");
    assert_eq!(unique_deck_name(&[meta("Foo"), meta("Foo (3)")], "Foo"), "Foo (2)");
    assert_eq!(unique_deck_name(&[meta("Foo (2)")], "Foo"), "Foo");
    let mut many = vec![meta("D")];
    for k in 2..12 {
        many.push(meta(&format!("D ({})", k)));
    }
    assert_eq!(unique_deck_name(&many, "D"), "D (12)");
}

#[test]
fn second_and_third_save_of_a_name_go_in_numbered() {
    let mut store = DeckStorage::new();
    for _ in 0..3 {
        let name = unique_deck_name(&store.list_decks(), "Foo");
        store.save_deck(&name, &[card("q", "a")]).unwrap();
    }
    assert_eq!(
        listed(&store),
        vec![("Foo".to_string(), 1), ("Foo (2)".to_string(), 1), ("Foo (3)".to_string(), 1)]
    );
}

#[test]
fn default_names_count_in_decimal() {
    assert_eq!(default_deck_name(1), "Imported 1");
    assert_eq!(default_deck_name(0), "Imported 0");
    assert_eq!(default_deck_name(10), "Imported 10");
    assert_eq!(default_deck_name(1234567890), "Imported 1234567890");
    assert_eq!(default_deck_name(u128::MAX), format!("Imported {}", u128::MAX));
}

fn reference_shuffle(items: &mut Vec<(String, String)>, seed: usize) {
    let len = items.len();
    if len <= 1 {
        return;
    }
    let mut rng = seed;
    for i in (1..len).rev() {
        rng = rng.wrapping_mul(1103515245).wrapping_add(12345);
        let j = rng % (i + 1);
        items.swap(i, j);
    }
}

#[test]
fn shuffle_reorders_and_keeps_every_card() {
    for seed in [0usize, 1, 42, 0xdead_beef, usize::MAX] {
        for len in [0usize, 1, 2, 3, 10, 57] {
            let mut cards: Vec<Card> =
                (0..len).map(|i| card(&format!("q{}", i), &format!("a{}", i % 3))).collect();
            let mut expect = pairs(&cards);
            reference_shuffle(&mut expect, seed);
            shuffle_cards(&mut cards, seed);
            assert_eq!(pairs(&cards), expect);
            let mut got = pairs(&cards);
            got.sort();
            expect.sort();
            assert_eq!(got, expect);
            assert_eq!(cards.len(), len);
        }
    }
}

#[test]
fn shuffle_moves_something() {
    let mut cards: Vec<Card> = (0..20).map(|i| card(&format!("{}", i), "x")).collect();
    let before = pairs(&cards);
    shuffle_cards(&mut cards, 7);
    assert_ne!(pairs(&cards), before);
}

#[test]
fn index_text_splits_at_line_feeds_only() {
    assert_eq!(parse_index("A\r\nB\r"), vec!["A\r".to_string(), "B\r".to_string()]);
    assert_eq!(parse_index("A\tB\n C "), vec!["A\tB".to_string(), " C ".to_string()]);
    let alphabet = ['a', 'b', '\n', '\r', ' ', '\u{e9}'];
    let mut rng: u64 = 99;
    for round in 0..2000 {
        let mut text = String::new();
        for _ in 0..(round % 25) {
            rng = rng.wrapping_mul(6364136223846793005).wrapping_add(1442695040888963407);
            text.push(alphabet[((rng >> 33) as usize) % alphabet.len()]);
        }
        let expect: Vec<String> =
            text.split('\n').filter(|l| !l.is_empty()).map(|l| l.to_string()).collect();
        assert_eq!(parse_index(&text), expect, "on {:?}", text);
        assert_eq!(parse_index(&format_index(&expect)), expect);
    }
}

#[test]
fn a_name_with_a_line_feed_is_refused_and_nothing_changes() {
    let mut store = DeckStorage::new();
    store.save_deck("a", &[card("q", "a")]).unwrap();
    store.take_writes();
    assert_eq!(store.save_deck("x\na", &[card("q", "a")]), Err(SaveError::NameHasLineFeed));
    assert_eq!(store.save_deck("\n", &[]), Err(SaveError::NameHasLineFeed));
    let long = "x".repeat(65536);
    assert_eq!(store.save_deck("x\na", &[card(&long, "a")]), Err(SaveError::NameHasLineFeed));
    assert_eq!(listed(&store), vec![("a".to_string(), 1)]);
    assert!(store.load_deck("x\na").is_none());
    assert_eq!(ops(&mut store), Vec::<String>::new());
    assert_eq!(store.save_deck("x\ra", &[card("q", "a")]), Ok(()));
    assert_eq!(listed(&store), vec![("a".to_string(), 1), ("x\ra".to_string(), 1)]);
}

#[test]
fn a_deck_without_a_name_is_stored_and_not_listed() {
    let mut store = DeckStorage::new();
    store.save_deck("a", &[card("q", "a")]).unwrap();
    assert_eq!(store.save_deck("", &[card("x", "y")]), Ok(()));
    assert_eq!(listed(&store), vec![("a".to_string(), 1)]);
    assert_eq!(store.load_deck("").unwrap().len(), 1);
}
