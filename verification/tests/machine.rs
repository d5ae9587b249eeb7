use flashcards::deck::Card;
use flashcards::import::{parse_tsv, ImportResult};
use flashcards::machine::{
    unpack_keys, visible_rows, Action, AppState, FlashcardApp, Screen, HELP_CARD_REVIEW, HELP_DECK_LIST,
    HELP_DECK_MENU, HELP_IMPORT_WAIT, KEY_DOWN, KEY_F1, KEY_F2, KEY_F3, KEY_F4, KEY_LEFT,
    KEY_RIGHT, KEY_UP,
};
use flashcards::storage::DeckStorage;

fn card(front: &str, back: &str) -> Card {
    Card { front: front.to_string(), back: back.to_string() }
}

fn fronts(app: &FlashcardApp) -> Vec<String> {
    app.cards().iter().map(|c| c.front.clone()).collect()
}

fn names(app: &FlashcardApp) -> Vec<String> {
    app.decks().iter().map(|d| d.name.clone()).collect()
}

fn is_redraw(a: &Action) -> bool {
    matches!(a, Action::Redraw)
}

fn is_idle(a: &Action) -> bool {
    matches!(a, Action::Idle)
}

/// A store with the decks A (3 cards), B (1 card) and C (no card).
fn three_decks() -> DeckStorage {
    let mut store = DeckStorage::new();
    store.save_deck("A", &[card("a1", "x"), card("a2", "y"), card("a3", "z")]).unwrap();
    store.save_deck("B", &[card("b1", "x")]).unwrap();
    store.save_deck("C", &[]).unwrap();
    store.take_writes();
    store
}

fn app_in_review() -> FlashcardApp {
    let mut app = FlashcardApp::new(three_decks(), 536);
    assert!(is_redraw(&app.handle_key('\r')));
    app
}

#[test]
fn a_new_store_starts_with_the_demo_deck() {
    let mut app = FlashcardApp::new(DeckStorage::new(), 536);
    assert_eq!(app.state(), AppState::DeckList);
    assert_eq!(names(&app), vec!["Xous Basics".to_string()]);
    assert_eq!(app.decks()[0].card_count, 8);
    assert_eq!(app.cursor(), 0);
    assert_eq!(app.scroll_offset(), 0);
    assert!(!app.menu_visible() && !app.help_visible() && !app.should_quit());
    assert_eq!(app.screen(), Screen::DeckList);
    assert_eq!(app.take_writes().len(), 4);
    assert_eq!(app.take_writes().len(), 0);
}

#[test]
fn a_store_with_an_index_starts_as_it_is() {
    let mut app = FlashcardApp::new(three_decks(), 536);
    assert_eq!(names(&app), vec!["A".to_string(), "B".to_string(), "C".to_string()]);
    assert_eq!(app.take_writes().len(), 0);
}

#[test]
fn rows_that_fit_a_screen() {
    assert_eq!(visible_rows(536), 15);
    assert_eq!(visible_rows(132), 1);
    assert_eq!(visible_rows(131), 0);
    assert_eq!(visible_rows(104), 0);
    assert_eq!(visible_rows(0), 0);
    assert_eq!(visible_rows(-500), 0);
    assert_eq!(visible_rows(isize::MAX), ((isize::MAX - 104) / 28) as usize);
}

#[test]
fn opening_a_deck_starts_review_at_the_first_card() {
    let mut app = FlashcardApp::new(three_decks(), 536);
    let action = app.handle_key('\r');
    assert!(is_redraw(&action));
    assert_eq!(app.state(), AppState::CardReview);
    assert_eq!(app.current_card(), 0);
    assert!(!app.showing_back());
    assert_eq!(app.current_deck_name(), "A");
    assert_eq!(fronts(&app), vec!["a1", "a2", "a3"]);
    assert_eq!(app.screen(), Screen::CardReview);
}

#[test]
fn opening_a_deck_that_cannot_be_read_does_nothing() {
    let mut store = three_decks();
    store.restore("deck.A", vec![9, 9]);
    let mut app = FlashcardApp::new(store, 536);
    assert!(is_idle(&app.handle_key('\n')));
    assert_eq!(app.state(), AppState::DeckList);
}

#[test]
fn a_deck_without_cards_is_not_opened() {
    let mut app = FlashcardApp::new(three_decks(), 536);
    app.handle_key('j');
    app.handle_key('j');
    assert_eq!(app.cursor(), 2);
    assert_eq!(app.selected_count(), 0);
    assert!(is_idle(&app.handle_key('\r')));
    assert!(is_idle(&app.handle_key('\n')));
    assert_eq!(app.state(), AppState::DeckList);
    assert_eq!(app.cards().len(), 0);
    assert_eq!(app.current_deck_name(), "");
    assert_eq!(app.screen(), Screen::DeckList);
}

#[test]
fn advance_at_the_last_card_does_nothing() {
    let mut app = app_in_review();
    assert!(is_redraw(&app.handle_key('n')));
    assert!(is_redraw(&app.handle_key(KEY_RIGHT)));
    assert_eq!(app.current_card(), 2);
    app.handle_key(' ');
    assert!(app.showing_back());
    assert!(is_idle(&app.handle_key('n')));
    assert!(is_idle(&app.handle_key(KEY_RIGHT)));
    assert_eq!(app.current_card(), 2);
    assert!(app.showing_back());
    assert!(is_redraw(&app.handle_key(KEY_F3)));
    assert_eq!(app.current_card(), 2);
    assert!(app.showing_back());
}

#[test]
fn moving_between_cards_hides_the_answer() {
    let mut app = app_in_review();
    app.handle_key(' ');
    assert!(app.showing_back());
    app.handle_key('n');
    assert_eq!(app.current_card(), 1);
    assert!(!app.showing_back());
    app.handle_key('\r');
    assert!(app.showing_back());
    assert!(is_redraw(&app.handle_key('p')));
    assert_eq!(app.current_card(), 0);
    assert!(!app.showing_back());
    assert!(is_idle(&app.handle_key(KEY_LEFT)));
    assert_eq!(app.current_card(), 0);
}

#[test]
fn flip_changes_the_side_only() {
    let mut app = app_in_review();
    app.handle_key('n');
    for key in [' ', '\r', '\n', KEY_F2] {
        let before = app.showing_back();
        assert!(is_redraw(&app.handle_key(key)));
        assert_eq!(app.showing_back(), !before);
        assert_eq!(app.current_card(), 1);
        assert_eq!(app.state(), AppState::CardReview);
        assert_eq!(fronts(&app), vec!["a1", "a2", "a3"]);
    }
}

#[test]
fn shuffle_keeps_the_cards_and_starts_over() {
    let mut app = app_in_review();
    app.handle_key('n');
    app.handle_key(' ');
    assert!(matches!(app.handle_key('s'), Action::Shuffle));
    assert_eq!(app.current_card(), 1);
    assert!(is_redraw(&app.shuffle_cards(12345)));
    assert_eq!(app.current_card(), 0);
    assert!(!app.showing_back());
    let mut got = fronts(&app);
    got.sort();
    assert_eq!(got, vec!["a1", "a2", "a3"]);
    assert_eq!(app.state(), AppState::CardReview);
    let stored: Vec<String> =
        app.storage().load_deck("A").unwrap().iter().map(|c| c.front.clone()).collect();
    assert_eq!(stored, vec!["a1", "a2", "a3"]);
}

#[test]
fn the_cursor_stays_in_the_list() {
    let mut app = FlashcardApp::new(three_decks(), 536);
    assert!(is_idle(&app.handle_key('k')));
    assert!(is_redraw(&app.handle_key('j')));
    assert!(is_redraw(&app.handle_key(KEY_DOWN)));
    assert_eq!(app.cursor(), 2);
    assert!(is_idle(&app.handle_key('j')));
    assert_eq!(app.cursor(), 2);
    assert!(is_redraw(&app.handle_key(KEY_UP)));
    assert_eq!(app.cursor(), 1);
}

#[test]
fn the_window_moves_no_more_than_it_must() {
    let mut store = DeckStorage::new();
    for i in 0..10 {
        store.save_deck(&format!("D{}", i), &[]).unwrap();
    }
    let mut app = FlashcardApp::new(store, 104 + 3 * 28);
    assert_eq!(app.visible_decks(), (0, 3));
    app.handle_key('j');
    app.handle_key('j');
    assert_eq!((app.cursor(), app.scroll_offset()), (2, 0));
    app.handle_key('j');
    assert_eq!((app.cursor(), app.scroll_offset()), (3, 1));
    app.handle_key('j');
    assert_eq!((app.cursor(), app.scroll_offset()), (4, 2));
    assert_eq!(app.visible_decks(), (2, 5));
    app.handle_key('k');
    assert_eq!((app.cursor(), app.scroll_offset()), (3, 2));
    app.handle_key('k');
    assert_eq!((app.cursor(), app.scroll_offset()), (2, 2));
    app.handle_key('k');
    assert_eq!((app.cursor(), app.scroll_offset()), (1, 1));
    for _ in 0..20 {
        app.handle_key('j');
    }
    assert_eq!((app.cursor(), app.scroll_offset()), (9, 7));
    assert_eq!(app.visible_decks(), (7, 10));
}

#[test]
fn quit_is_asked_for_in_the_deck_list_only() {
    let mut app = FlashcardApp::new(three_decks(), 536);
    assert!(is_idle(&app.handle_key('q')));
    assert!(app.should_quit());
    let mut app = FlashcardApp::new(three_decks(), 536);
    assert!(is_idle(&app.handle_key(KEY_F4)));
    assert!(app.should_quit());
    let mut app = app_in_review();
    assert!(is_redraw(&app.handle_key('q')));
    assert!(!app.should_quit());
    assert_eq!(app.state(), AppState::DeckList);
    let mut app = app_in_review();
    assert!(is_redraw(&app.handle_key(KEY_F4)));
    assert!(!app.should_quit());
    assert_eq!(app.state(), AppState::DeckList);
}

#[test]
fn the_menu_key_opens_and_closes_the_menu() {
    let mut app = FlashcardApp::new(three_decks(), 536);
    assert!(is_redraw(&app.handle_key(KEY_F1)));
    assert!(app.menu_visible());
    assert_eq!(app.screen(), Screen::Menu);
    assert_eq!(app.menu_items(), vec!["Help", "Import Deck (TCP)", "Manage Deck"]);
    assert_eq!(app.menu_len(), 3);
    assert!(is_idle(&app.handle_key('k')));
    assert!(is_redraw(&app.handle_key('j')));
    assert!(is_redraw(&app.handle_key(KEY_DOWN)));
    assert!(is_idle(&app.handle_key('j')));
    assert_eq!(app.menu_cursor(), 2);
    assert!(is_idle(&app.handle_key('q')));
    assert!(!app.should_quit());
    assert_eq!(app.cursor(), 0);
    assert!(is_redraw(&app.handle_key(KEY_F1)));
    assert!(!app.menu_visible());
    app.handle_key(KEY_F1);
    assert_eq!(app.menu_cursor(), 0);
    assert!(is_redraw(&app.handle_key(KEY_F4)));
    assert!(!app.menu_visible());
    assert!(!app.should_quit());
}

#[test]
fn the_help_page_closes_on_any_key() {
    let mut app = app_in_review();
    app.handle_key(KEY_F1);
    assert!(is_redraw(&app.handle_key('\r')));
    assert!(app.help_visible());
    assert!(!app.menu_visible());
    assert_eq!(app.screen(), Screen::Help);
    assert_eq!(app.help_text(), HELP_CARD_REVIEW);
    assert!(is_redraw(&app.handle_key('n')));
    assert!(!app.help_visible());
    assert_eq!(app.current_card(), 0);
    for key in [KEY_F1, KEY_F2, KEY_F3, KEY_F4, 'x'] {
        app.handle_key(KEY_F1);
        app.handle_key('\r');
        assert!(app.help_visible());
        assert!(is_redraw(&app.handle_key(key)));
        assert!(!app.help_visible());
        assert!(!app.menu_visible());
        assert_eq!(app.state(), AppState::CardReview);
        assert_eq!(app.current_card(), 0);
        assert!(!app.showing_back());
    }
}

#[test]
fn help_pages_read_as_written() {
    assert_eq!(
        HELP_DECK_LIST,
        "FLASHCARDS HELP\n\n\
         F1     Menu\n\
         F4     Quit\n\n\
         Up/Dn  Move cursor\n\
         Enter  Open deck\n\
         i      Import deck\n\
         m      Manage deck\n\
         q      Quit"
    );
    assert_eq!(
        HELP_CARD_REVIEW,
        "CARD REVIEW HELP\n\n\
         F1     Menu\n\
         F2     Flip card\n\
         F3     Next card\n\
         F4     Back to list\n\n\
         Space  Flip card\n\
         <-/->  Prev/Next\n\
         n/p    Next/Prev\n\
         s      Shuffle deck\n\
         q      Back to list"
    );
    assert_eq!(
        HELP_DECK_MENU,
        "DECK MENU HELP\n\n\
         F1     Menu\n\
         F4     Back to list\n\n\
         e      Export (TCP 7879)\n\
         d      Delete deck\n\
         y/n    Confirm/cancel\n\
         q      Back to list"
    );
    assert_eq!(
        HELP_IMPORT_WAIT,
        "IMPORT HELP\n\n\
         Waiting for TCP\n\
         connection on\n\
         port 7878.\n\n\
         Send TSV file\n\
         from computer."
    );
    let app = FlashcardApp::new(three_decks(), 536);
    assert_eq!(app.help_text(), HELP_DECK_LIST);
}

#[test]
fn the_review_menu_does_what_its_entries_say() {
    let mut app = app_in_review();
    app.handle_key(KEY_F1);
    assert_eq!(
        app.menu_items(),
        vec!["Help", "Flip Card", "Next Card", "Shuffle", "Back to List"]
    );
    app.handle_key('j');
    assert!(is_redraw(&app.handle_key('\r')));
    assert!(app.showing_back());
    assert!(!app.menu_visible());

    app.handle_key(KEY_F1);
    app.handle_key('j');
    app.handle_key('j');
    assert!(is_redraw(&app.handle_key('\n')));
    assert_eq!(app.current_card(), 1);
    assert!(!app.showing_back());

    app.handle_key(KEY_F1);
    for _ in 0..3 {
        app.handle_key('j');
    }
    assert!(matches!(app.handle_key('\r'), Action::Shuffle));
    assert!(!app.menu_visible());

    app.handle_key(KEY_F1);
    for _ in 0..9 {
        app.handle_key('j');
    }
    assert_eq!(app.menu_cursor(), 4);
    assert!(is_redraw(&app.handle_key('\r')));
    assert_eq!(app.state(), AppState::DeckList);
}

#[test]
fn the_function_keys_close_the_menu() {
    let mut app = app_in_review();
    app.handle_key(KEY_F1);
    assert!(is_redraw(&app.handle_key(KEY_F2)));
    assert!(!app.menu_visible());
    assert!(app.showing_back());
    app.handle_key(KEY_F1);
    assert!(is_redraw(&app.handle_key(KEY_F3)));
    assert!(!app.menu_visible());
    assert_eq!(app.current_card(), 1);
    let mut app = FlashcardApp::new(three_decks(), 536);
    app.handle_key(KEY_F1);
    assert!(is_redraw(&app.handle_key(KEY_F2)));
    assert!(!app.menu_visible());
    assert!(!app.showing_back());
}

#[test]
fn the_deck_menu_exports_and_deletes() {
    let mut app = FlashcardApp::new(three_decks(), 536);
    app.handle_key('j');
    assert!(is_redraw(&app.handle_key('m')));
    assert_eq!(app.state(), AppState::DeckMenu { confirm_delete: false });
    assert_eq!(app.current_deck_name(), "B");
    assert_eq!(app.selected_count(), 1);
    assert_eq!(app.screen(), Screen::DeckMenu { confirm_delete: false });
    assert_eq!(app.help_text(), HELP_DECK_MENU);
    match app.handle_key('e') {
        Action::Export { payload } => assert_eq!(payload, "#name:B\nb1\tx\n"),
        other => panic!("no export: {:?}", other),
    }
    assert!(is_idle(&app.handle_key('y')));
    assert!(is_redraw(&app.handle_key('d')));
    assert_eq!(app.state(), AppState::DeckMenu { confirm_delete: true });
    assert!(is_idle(&app.handle_key('e')));
    assert!(is_redraw(&app.handle_key('n')));
    assert_eq!(app.state(), AppState::DeckMenu { confirm_delete: false });
    app.handle_key('d');
    assert!(is_redraw(&app.handle_key('q')));
    assert_eq!(app.state(), AppState::DeckMenu { confirm_delete: false });
    app.handle_key('d');
    assert!(is_redraw(&app.handle_key('y')));
    assert_eq!(app.state(), AppState::DeckList);
    assert_eq!(names(&app), vec!["A".to_string(), "C".to_string()]);
    assert_eq!(app.cursor(), 1);
    assert!(app.storage().load_deck("B").is_none());
    assert_eq!(app.take_writes().len(), 3);
}

#[test]
fn deleting_the_last_deck_brings_the_cursor_back() {
    let mut app = FlashcardApp::new(three_decks(), 536);
    app.handle_key('j');
    app.handle_key('j');
    app.handle_key('m');
    app.handle_key('d');
    app.handle_key('y');
    assert_eq!(names(&app), vec!["A".to_string(), "B".to_string()]);
    assert_eq!(app.cursor(), 1);
    for _ in 0..2 {
        app.handle_key('m');
        app.handle_key('d');
        app.handle_key('y');
    }
    assert_eq!(names(&app), Vec::<String>::new());
    assert_eq!(app.cursor(), 0);
    assert_eq!(app.scroll_offset(), 0);
    assert!(is_idle(&app.handle_key('m')));
    assert!(is_idle(&app.handle_key('\r')));
    assert!(is_idle(&app.handle_key('j')));
    assert_eq!(app.selected_count(), 0);
    assert_eq!(app.visible_decks(), (0, 0));
}

#[test]
fn the_deck_menu_by_way_of_the_menu() {
    let mut app = FlashcardApp::new(three_decks(), 536);
    app.handle_key(KEY_F1);
    app.handle_key('j');
    app.handle_key('j');
    assert!(is_redraw(&app.handle_key('\r')));
    assert_eq!(app.state(), AppState::DeckMenu { confirm_delete: false });
    assert_eq!(app.current_deck_name(), "A");
    app.handle_key(KEY_F1);
    assert_eq!(
        app.menu_items(),
        vec!["Help", "Export (TCP)", "Delete Deck", "Back to List"]
    );
    app.handle_key('j');
    match app.handle_key('\r') {
        Action::Export { payload } => assert_eq!(payload, "#name:A\na1\tx\na2\ty\na3\tz\n"),
        other => panic!("no export: {:?}", other),
    }
    app.handle_key(KEY_F1);
    app.handle_key('j');
    app.handle_key('j');
    assert!(is_redraw(&app.handle_key('\r')));
    assert_eq!(app.state(), AppState::DeckMenu { confirm_delete: true });
    app.handle_key(KEY_F1);
    for _ in 0..3 {
        app.handle_key('j');
    }
    assert!(is_redraw(&app.handle_key('\r')));
    assert_eq!(app.state(), AppState::DeckList);
    app.handle_key('m');
    assert!(is_redraw(&app.handle_key(KEY_F4)));
    assert_eq!(app.state(), AppState::DeckList);
    assert!(!app.should_quit());
}

#[test]
fn an_import_is_saved_under_a_free_name() {
    let mut app = FlashcardApp::new(three_decks(), 536);
    assert!(matches!(app.handle_key('i'), Action::Import));
    assert_eq!(app.state(), AppState::ImportWait);
    assert_eq!(app.screen(), Screen::ImportWait);
    assert_eq!(app.help_text(), HELP_IMPORT_WAIT);
    assert!(is_idle(&app.handle_key(KEY_F4)));
    assert_eq!(app.state(), AppState::ImportWait);
    assert!(is_redraw(&app.do_import(parse_tsv("#name:A\nq\ta\n"))));
    assert_eq!(app.state(), AppState::DeckList);
    assert_eq!(names(&app), vec!["A", "B", "C", "A (2)"]);
    app.handle_key('i');
    app.do_import(parse_tsv("#name:A\nq\ta\n"));
    assert_eq!(names(&app), vec!["A", "B", "C", "A (2)", "A (3)"]);
    assert_eq!(app.storage().load_deck("A").unwrap().len(), 3);
    assert_eq!(app.storage().load_deck("A (3)").unwrap()[0].front, "q");
    app.handle_key('i');
    app.do_import(parse_tsv("q\ta\n"));
    assert_eq!(names(&app).last().unwrap(), "Imported 6");
    app.handle_key('i');
    assert!(is_redraw(&app.do_import(None)));
    assert_eq!(app.state(), AppState::DeckList);
    assert_eq!(names(&app).len(), 6);
}

#[test]
fn an_import_that_does_not_fit_is_dropped() {
    let mut app = FlashcardApp::new(three_decks(), 536);
    app.handle_key('i');
    let result =
        ImportResult { name: Some("Big".to_string()), cards: vec![card(&"x".repeat(70000), "a")] };
    assert!(is_redraw(&app.do_import(Some(result))));
    assert_eq!(app.state(), AppState::DeckList);
    assert_eq!(names(&app), vec!["A", "B", "C"]);
    assert_eq!(app.take_writes().len(), 0);
}

#[test]
fn import_by_way_of_the_menu_and_leaving_the_wait() {
    let mut app = FlashcardApp::new(three_decks(), 536);
    app.handle_key(KEY_F1);
    app.handle_key('j');
    assert!(matches!(app.handle_key('\r'), Action::Import));
    assert_eq!(app.state(), AppState::ImportWait);
    assert!(!app.menu_visible());
    app.handle_key(KEY_F1);
    assert_eq!(app.menu_items(), vec!["Help"]);
    assert!(is_idle(&app.handle_key('j')));
    app.handle_key(KEY_F1);
    assert!(is_idle(&app.handle_key('x')));
    assert!(is_redraw(&app.handle_key('q')));
    assert_eq!(app.state(), AppState::DeckList);
}

#[test]
fn other_keys_do_nothing() {
    let mut app = FlashcardApp::new(three_decks(), 536);
    assert!(is_idle(&app.handle_key('x')));
    assert!(is_idle(&app.handle_key('s')));
    let mut app = app_in_review();
    assert!(is_idle(&app.handle_key('x')));
    assert!(is_idle(&app.handle_key('i')));
    assert!(is_idle(&app.handle_key('m')));
    assert_eq!(app.state(), AppState::CardReview);
    app.handle_key('q');
    app.handle_key('m');
    assert!(is_idle(&app.handle_key('x')));
    assert!(is_idle(&app.handle_key('\r')));
}

#[test]
fn a_key_message_carries_up_to_four_keys() {
    assert_eq!(unpack_keys([0, 0, 0, 0]), Vec::<char>::new());
    assert_eq!(unpack_keys(['a' as usize, 0, 0, 0]), vec!['a']);
    assert_eq!(
        unpack_keys(['q' as usize, 0x2191, 0, '\r' as usize]),
        vec!['q', KEY_UP, '\r']
    );
    assert_eq!(unpack_keys([0x11, 0x12, 0x13, 0x14]), vec![KEY_F1, KEY_F2, KEY_F3, KEY_F4]);
    assert_eq!(unpack_keys([0xD800, 0x110000, 0x10FFFF, 0xDFFF]), vec!['\u{10FFFF}']);
    assert_eq!(unpack_keys([0xD7FF, 0xE000, 0, 0]), vec!['\u{D7FF}', '\u{E000}']);
}

#[test]
fn only_the_low_32_bits_of_a_key_word_count() {
    let high = (usize::MAX as u64 >> 32 << 32) as usize;
    assert_eq!(unpack_keys([high | 'z' as usize, high, 0, 0]), vec!['z']);
}

#[test]
fn an_import_under_a_name_with_a_line_feed_is_dropped() {
    let mut app = FlashcardApp::new(three_decks(), 536);
    app.handle_key('i');
    let result = ImportResult { name: Some("x\nA".to_string()), cards: vec![card("q", "a")] };
    assert!(is_redraw(&app.do_import(Some(result))));
    assert_eq!(app.state(), AppState::DeckList);
    assert_eq!(names(&app), vec!["A", "B", "C"]);
    assert_eq!(app.take_writes().len(), 0);
}

#[test]
fn a_store_taken_in_place_of_the_old_one_is_listed_afresh() {
    let mut app = FlashcardApp::new(three_decks(), 536);
    app.handle_key('j');
    app.handle_key('j');
    assert_eq!(app.cursor(), 2);
    let mut fresh = DeckStorage::new();
    fresh.save_deck("Only", &[card("q", "a")]).unwrap();
    fresh.take_writes();
    assert!(is_redraw(&app.reload(fresh)));
    assert_eq!(names(&app), vec!["Only"]);
    assert_eq!(app.cursor(), 0);
    assert_eq!(app.scroll_offset(), 0);
    assert_eq!(app.state(), AppState::DeckList);
    assert!(app.storage().load_deck("A").is_none());
    assert_eq!(app.take_writes().len(), 0);
    assert!(is_redraw(&app.reload(DeckStorage::new())));
    assert_eq!(names(&app), Vec::<String>::new());
    assert_eq!(app.cursor(), 0);
}
