//! The navigation state machine.
//!
//! One key at a time moves the application between the deck list, the
//! review of one deck, the menu of one deck and the wait for an import,
//! with a menu and a help page that lie over any of them. What the
//! machine cannot do itself (draw, wait for an import, send an export,
//! draw a seed) it asks for by the action it returns.

use crate::deck::{encodable, Card, CardText, DeckMeta, DeckMetaText, EncodeError};
use crate::import::{export_tsv, tsv_text, ImportResult, ImportText};
use crate::naming::{
    default_deck_name, default_name, lemma_unique_name_is_free, names_of, unique_deck_name,
    unique_name,
};
use crate::shuffle::{lemma_shuffled_permutes, shuffle_cards, shuffled};
use crate::storage::{
    delete_ops, deleted, demo_cards, demo_name, index_key, index_names,
    lemma_index_stays_distinct, lemma_save_keeps_names, listing,
    save_ops, saved, stored_deck, DeckStorage, SaveError, StoreOp, StoreOpText,
};
use crate::text::is_one_line;
use vstd::prelude::*;
use vstd::utf8::is_scalar;

verus! {

/// The key that opens and closes the menu.
pub const KEY_F1: char = '\u{11}';

/// The key that flips the card under review.
pub const KEY_F2: char = '\u{12}';

/// The key that moves on to the next card under review.
pub const KEY_F3: char = '\u{13}';

/// The key that goes back.
pub const KEY_F4: char = '\u{14}';

/// The arrow up key.
pub const KEY_UP: char = '\u{2191}';

/// The arrow down key.
pub const KEY_DOWN: char = '\u{2193}';

/// The arrow left key.
pub const KEY_LEFT: char = '\u{2190}';

/// The arrow right key.
pub const KEY_RIGHT: char = '\u{2192}';

/// Height of one row of the deck list, in pixels.
pub const ROW_HEIGHT: isize = 28;

/// Height of the screen that the deck list leaves to title and footer.
pub const LIST_MARGIN: isize = 104;

/// The help page of the deck list.
pub const HELP_DECK_LIST: &'static str =
    "FLASHCARDS HELP\n\nF1     Menu\nF4     Quit\n\nUp/Dn  Move cursor\nEnter  Open deck\ni      Import deck\nm      Manage deck\nq      Quit";

/// The help page of the review.
pub const HELP_CARD_REVIEW: &'static str =
    "CARD REVIEW HELP\n\nF1     Menu\nF2     Flip card\nF3     Next card\nF4     Back to list\n\nSpace  Flip card\n<-/->  Prev/Next\nn/p    Next/Prev\ns      Shuffle deck\nq      Back to list";

/// The help page of the deck menu.
pub const HELP_DECK_MENU: &'static str =
    "DECK MENU HELP\n\nF1     Menu\nF4     Back to list\n\ne      Export (TCP 7879)\nd      Delete deck\ny/n    Confirm/cancel\nq      Back to list";

/// The help page of the wait for an import.
pub const HELP_IMPORT_WAIT: &'static str =
    "IMPORT HELP\n\nWaiting for TCP\nconnection on\nport 7878.\n\nSend TSV file\nfrom computer.";

/// Where the application is.
#[derive(Clone, Copy, Debug, PartialEq, Eq, Structural)]
pub enum AppState {
    /// The list of decks.
    DeckList,
    /// The review of one deck, card by card.
    CardReview,
    /// The menu of one deck; `confirm_delete` while it asks whether to
    /// delete the deck.
    DeckMenu { confirm_delete: bool },
    /// The wait for an import.
    ImportWait,
}

/// What the machine asks of its driver after an event.
#[derive(Clone, Debug)]
pub enum Action {
    /// Nothing.
    Idle,
    /// Draw the screen.
    Redraw,
    /// Draw the screen, await one import, and hand what arrived to
    /// `do_import`.
    Import,
    /// Draw a seed and hand it to `shuffle_cards`.
    Shuffle,
    /// Send `payload` to the peer, then draw the screen.
    Export { payload: String },
}

/// The mathematical value of an action.
pub ghost enum ActionText {
    Idle,
    Redraw,
    Import,
    Shuffle,
    Export { payload: Seq<char> },
}

impl View for Action {
    type V = ActionText;

    open spec fn view(&self) -> ActionText {
        match self {
            Action::Idle => ActionText::Idle,
            Action::Redraw => ActionText::Redraw,
            Action::Import => ActionText::Import,
            Action::Shuffle => ActionText::Shuffle,
            Action::Export { payload } => ActionText::Export { payload: payload@ },
        }
    }
}

/// The mathematical value of the application.
pub ghost struct AppView {
    pub state: AppState,
    /// The deck list as last read from the store.
    pub decks: Seq<DeckMetaText>,
    /// The selected row of the deck list.
    pub cursor: usize,
    /// The first row of the deck list that is shown.
    pub scroll_offset: usize,
    /// The number of rows that the deck list can show.
    pub rows: usize,
    /// The deck under review or in the deck menu.
    pub current_deck_name: Seq<char>,
    /// The cards under review.
    pub cards: Seq<CardText>,
    /// The card shown.
    pub current_card: usize,
    /// Whether the answer is shown.
    pub showing_back: bool,
    pub menu_visible: bool,
    /// The selected row of the menu.
    pub menu_cursor: usize,
    pub help_visible: bool,
    /// Whether the application has been asked to end.
    pub should_quit: bool,
    /// The store's dictionary.
    pub dict: Map<Seq<char>, Seq<u8>>,
    /// The store's journal.
    pub journal: Seq<StoreOpText>,
}

/// The application after an event, with what it asks of its driver.
pub ghost struct Step {
    pub app: AppView,
    pub action: ActionText,
}

/// The number of rows of the deck list that fit a screen of the given
/// height.
pub open spec fn rows_for(height: isize) -> usize {
    if height >= LIST_MARGIN {
        ((height - LIST_MARGIN) / ROW_HEIGHT as int) as usize
    } else {
        0
    }
}

/// The first row shown once the window has followed the cursor: the
/// window moves only as far as it must to hold the cursor.
pub open spec fn scroll_for(cursor: usize, scroll_offset: usize, rows: usize) -> usize {
    if rows == 0 || cursor < scroll_offset {
        cursor
    } else if cursor - scroll_offset >= rows {
        (cursor - (rows - 1)) as usize
    } else {
        scroll_offset
    }
}

/// The number of entries of the menu in each state.
pub open spec fn menu_len(state: AppState) -> usize {
    match state {
        AppState::DeckList => 3,
        AppState::CardReview => 5,
        AppState::DeckMenu { .. } => 4,
        AppState::ImportWait => 1,
    }
}

/// The deck list read afresh from the store.
pub open spec fn refreshed(v: AppView) -> AppView {
    AppView { decks: listing(v.dict), ..v }
}

/// Back in the deck list, read afresh.
pub open spec fn to_deck_list(v: AppView) -> AppView {
    AppView { state: AppState::DeckList, ..refreshed(v) }
}

/// The window of the deck list moved to hold the cursor.
pub open spec fn scrolled(v: AppView) -> AppView {
    AppView { scroll_offset: scroll_for(v.cursor, v.scroll_offset, v.rows), ..v }
}

/// The answer shown or hidden, whichever it was not.
pub open spec fn flipped(v: AppView) -> AppView {
    AppView { showing_back: !v.showing_back, ..v }
}

/// Whether a card follows the one shown.
pub open spec fn has_next(v: AppView) -> bool {
    v.current_card < v.cards.len() && v.current_card + 1 < v.cards.len()
}

/// The next card, question first; the same where no card follows.
pub open spec fn advanced(v: AppView) -> AppView {
    if has_next(v) {
        AppView { current_card: (v.current_card + 1) as usize, showing_back: false, ..v }
    } else {
        v
    }
}

/// The deck menu of the selected deck; the same where none is selected.
pub open spec fn managing(v: AppView) -> AppView {
    if v.cursor < v.decks.len() {
        AppView {
            current_deck_name: v.decks[v.cursor as int].name,
            state: AppState::DeckMenu { confirm_delete: false },
            ..v
        }
    } else {
        v
    }
}

/// What asking for an export gives: the deck as text to send where the
/// store can read it, else only a redraw.
pub open spec fn export_action(v: AppView) -> ActionText {
    match stored_deck(v.dict, v.current_deck_name) {
        Some(cards) => ActionText::Export { payload: tsv_text(v.current_deck_name, cards) },
        None => ActionText::Redraw,
    }
}

/// What the screen is to show.
#[derive(Clone, Copy, Debug, PartialEq, Eq, Structural)]
pub enum Screen {
    /// The help page of the state.
    Help,
    /// The menu of the state.
    Menu,
    /// The deck list.
    DeckList,
    /// The card under review.
    CardReview,
    /// What it shows already: a review without a card to show.
    Unchanged,
    /// The deck menu.
    DeckMenu { confirm_delete: bool },
    /// The notice that an import is awaited.
    ImportWait,
}

/// What the screen is to show: the help page where it is open, else the
/// menu where it is open, else what belongs to the state.
pub open spec fn screen_of(v: AppView) -> Screen {
    if v.help_visible {
        Screen::Help
    } else if v.menu_visible {
        Screen::Menu
    } else {
        match v.state {
            AppState::DeckList => Screen::DeckList,
            AppState::CardReview => if v.current_card < v.cards.len() {
                Screen::CardReview
            } else {
                Screen::Unchanged
            },
            AppState::DeckMenu { confirm_delete } => Screen::DeckMenu { confirm_delete },
            AppState::ImportWait => Screen::ImportWait,
        }
    }
}

/// The entries of the menu in each state.
pub open spec fn menu_labels(state: AppState) -> Seq<Seq<char>> {
    match state {
        AppState::DeckList => seq!["Help"@, "Import Deck (TCP)"@, "Manage Deck"@],
        AppState::CardReview => seq![
            "Help"@,
            "Flip Card"@,
            "Next Card"@,
            "Shuffle"@,
            "Back to List"@,
        ],
        AppState::DeckMenu { .. } => seq![
            "Help"@,
            "Export (TCP)"@,
            "Delete Deck"@,
            "Back to List"@,
        ],
        AppState::ImportWait => seq!["Help"@],
    }
}

/// The help page of each state.
pub open spec fn help_for(state: AppState) -> Seq<char> {
    match state {
        AppState::DeckList => HELP_DECK_LIST@,
        AppState::CardReview => HELP_CARD_REVIEW@,
        AppState::DeckMenu { .. } => HELP_DECK_MENU@,
        AppState::ImportWait => HELP_IMPORT_WAIT@,
    }
}

/// The rows of the deck list that are shown: from the first row of the
/// window, as many as fit, as far as the list goes.
pub open spec fn visible_decks(v: AppView) -> (int, int) {
    let first = if v.scroll_offset <= v.decks.len() {
        v.scroll_offset as int
    } else {
        v.decks.len() as int
    };
    let last = if first + v.rows <= v.decks.len() {
        first + v.rows
    } else {
        v.decks.len() as int
    };
    (first, last)
}

/// The card count of the selected deck, 0 where none is selected.
pub open spec fn selected_count(v: AppView) -> u32 {
    if v.cursor < v.decks.len() {
        v.decks[v.cursor as int].card_count
    } else {
        0
    }
}

/// A step that changes the application and asks for a redraw.
pub open spec fn redraw(app: AppView) -> Step {
    Step { app, action: ActionText::Redraw }
}

/// A step that asks for nothing.
pub open spec fn idle(app: AppView) -> Step {
    Step { app, action: ActionText::Idle }
}

/// Whether the key confirms.
pub open spec fn is_enter(key: char) -> bool {
    key == '\r' || key == '\n'
}

/// The menu key: closes the help page where it is open, else opens or
/// closes the menu, with its first entry selected.
pub open spec fn toggle_menu_step(v: AppView) -> Step {
    if v.help_visible {
        redraw(AppView { help_visible: false, ..v })
    } else {
        redraw(AppView { menu_visible: !v.menu_visible, menu_cursor: 0, ..v })
    }
}

/// The flip key: closes the help page where it is open; else closes the
/// menu and, in review, flips the card.
pub open spec fn f2_step(v: AppView) -> Step {
    if v.help_visible {
        redraw(AppView { help_visible: false, ..v })
    } else {
        let closed = AppView { menu_visible: false, ..v };
        if v.state == AppState::CardReview {
            redraw(flipped(closed))
        } else {
            redraw(closed)
        }
    }
}

/// The next key: closes the help page where it is open; else closes the
/// menu and, in review, moves on to the next card.
pub open spec fn f3_step(v: AppView) -> Step {
    if v.help_visible {
        redraw(AppView { help_visible: false, ..v })
    } else {
        let closed = AppView { menu_visible: false, ..v };
        if v.state == AppState::CardReview {
            redraw(advanced(closed))
        } else {
            redraw(closed)
        }
    }
}

/// The back key: closes the help page or the menu where one is open;
/// else leaves review and deck menu for the deck list, asks to end in the
/// deck list, and does nothing while an import is awaited.
pub open spec fn f4_step(v: AppView) -> Step {
    if v.help_visible {
        redraw(AppView { help_visible: false, ..v })
    } else if v.menu_visible {
        redraw(AppView { menu_visible: false, ..v })
    } else {
        match v.state {
            AppState::CardReview => redraw(to_deck_list(v)),
            AppState::DeckMenu { .. } => redraw(to_deck_list(v)),
            AppState::DeckList => idle(AppView { should_quit: true, ..v }),
            AppState::ImportWait => idle(v),
        }
    }
}

/// The entry of the menu that is selected is carried out, and the menu
/// closes.
pub open spec fn menu_select_step(v: AppView) -> Step {
    let closed = AppView { menu_visible: false, ..v };
    let help = redraw(AppView { help_visible: true, ..closed });
    match v.state {
        AppState::DeckList => if v.menu_cursor == 0 {
            help
        } else if v.menu_cursor == 1 {
            Step { app: AppView { state: AppState::ImportWait, ..closed }, action: ActionText::Import }
        } else if v.menu_cursor == 2 {
            redraw(managing(closed))
        } else {
            redraw(closed)
        },
        AppState::CardReview => if v.menu_cursor == 0 {
            help
        } else if v.menu_cursor == 1 {
            redraw(flipped(closed))
        } else if v.menu_cursor == 2 {
            redraw(advanced(closed))
        } else if v.menu_cursor == 3 {
            Step { app: closed, action: ActionText::Shuffle }
        } else if v.menu_cursor == 4 {
            redraw(to_deck_list(closed))
        } else {
            redraw(closed)
        },
        AppState::DeckMenu { .. } => if v.menu_cursor == 0 {
            help
        } else if v.menu_cursor == 1 {
            Step { app: closed, action: export_action(closed) }
        } else if v.menu_cursor == 2 {
            redraw(AppView { state: AppState::DeckMenu { confirm_delete: true }, ..closed })
        } else if v.menu_cursor == 3 {
            redraw(to_deck_list(closed))
        } else {
            redraw(closed)
        },
        AppState::ImportWait => if v.menu_cursor == 0 {
            help
        } else {
            redraw(closed)
        },
    }
}

/// A key while the menu is open: up and down move the selection within
/// the menu, enter carries the selected entry out, other keys do nothing.
pub open spec fn menu_key_step(v: AppView, key: char) -> Step {
    if key == KEY_UP || key == 'k' {
        if v.menu_cursor > 0 {
            redraw(AppView { menu_cursor: (v.menu_cursor - 1) as usize, ..v })
        } else {
            idle(v)
        }
    } else if key == KEY_DOWN || key == 'j' {
        if v.menu_cursor < menu_len(v.state) - 1 {
            redraw(AppView { menu_cursor: (v.menu_cursor + 1) as usize, ..v })
        } else {
            idle(v)
        }
    } else if is_enter(key) {
        menu_select_step(v)
    } else {
        idle(v)
    }
}

/// A key in the deck list. Enter opens the selected deck where the store
/// can read it and it has a card; a deck without cards is not opened.
pub open spec fn deck_list_step(v: AppView, key: char) -> Step {
    if key == KEY_DOWN || key == 'j' {
        if v.cursor < v.decks.len() && v.cursor + 1 < v.decks.len() {
            redraw(scrolled(AppView { cursor: (v.cursor + 1) as usize, ..v }))
        } else {
            idle(v)
        }
    } else if key == KEY_UP || key == 'k' {
        if v.cursor > 0 {
            redraw(scrolled(AppView { cursor: (v.cursor - 1) as usize, ..v }))
        } else {
            idle(v)
        }
    } else if is_enter(key) {
        if v.cursor < v.decks.len() {
            let name = v.decks[v.cursor as int].name;
            match stored_deck(v.dict, name) {
                Some(cards) => if cards.len() > 0 {
                    redraw(
                        AppView {
                            current_deck_name: name,
                            cards,
                            current_card: 0,
                            showing_back: false,
                            state: AppState::CardReview,
                            ..v
                        },
                    )
                } else {
                    idle(v)
                },
                None => idle(v),
            }
        } else {
            idle(v)
        }
    } else if key == 'i' {
        Step { app: AppView { state: AppState::ImportWait, ..v }, action: ActionText::Import }
    } else if key == 'm' {
        if v.cursor < v.decks.len() {
            redraw(managing(v))
        } else {
            idle(v)
        }
    } else if key == 'q' {
        idle(AppView { should_quit: true, ..v })
    } else {
        idle(v)
    }
}

/// A key in review.
pub open spec fn card_review_step(v: AppView, key: char) -> Step {
    if key == KEY_RIGHT || key == 'n' {
        if has_next(v) {
            redraw(advanced(v))
        } else {
            idle(v)
        }
    } else if key == KEY_LEFT || key == 'p' {
        if v.current_card > 0 {
            redraw(AppView { current_card: (v.current_card - 1) as usize, showing_back: false, ..v })
        } else {
            idle(v)
        }
    } else if key == ' ' || is_enter(key) {
        redraw(flipped(v))
    } else if key == 's' {
        Step { app: v, action: ActionText::Shuffle }
    } else if key == 'q' {
        redraw(to_deck_list(v))
    } else {
        idle(v)
    }
}

/// The cursor of the deck list brought back into the list, and the
/// window with it.
pub open spec fn clamped(v: AppView) -> AppView {
    if v.decks.len() == 0 {
        scrolled(AppView { cursor: 0, scroll_offset: 0, ..v })
    } else if v.cursor >= v.decks.len() {
        scrolled(AppView { cursor: (v.decks.len() - 1) as usize, ..v })
    } else {
        scrolled(v)
    }
}

/// The current deck deleted from the store, and the application back in
/// the deck list.
pub open spec fn delete_step(v: AppView) -> Step {
    let gone = AppView {
        dict: deleted(v.dict, v.current_deck_name),
        journal: v.journal + delete_ops(v.dict, v.current_deck_name),
        ..v
    };
    redraw(clamped(to_deck_list(gone)))
}

/// A key in the deck menu.
pub open spec fn deck_menu_step(v: AppView, key: char, confirm_delete: bool) -> Step {
    if confirm_delete {
        if key == 'y' {
            delete_step(v)
        } else if key == 'n' || key == 'q' {
            redraw(AppView { state: AppState::DeckMenu { confirm_delete: false }, ..v })
        } else {
            idle(v)
        }
    } else {
        if key == 'e' {
            Step { app: v, action: export_action(v) }
        } else if key == 'd' {
            redraw(AppView { state: AppState::DeckMenu { confirm_delete: true }, ..v })
        } else if key == 'q' {
            redraw(to_deck_list(v))
        } else {
            idle(v)
        }
    }
}

/// One key. The four function keys come first, whatever is shown; then
/// an open help page takes any key to close; then an open menu takes the
/// key; else the key goes to the state the application is in.
pub open spec fn key_step(v: AppView, key: char) -> Step {
    if key == KEY_F1 {
        toggle_menu_step(v)
    } else if key == KEY_F4 {
        f4_step(v)
    } else if key == KEY_F2 {
        f2_step(v)
    } else if key == KEY_F3 {
        f3_step(v)
    } else if v.help_visible {
        redraw(AppView { help_visible: false, ..v })
    } else if v.menu_visible {
        menu_key_step(v, key)
    } else {
        match v.state {
            AppState::DeckList => deck_list_step(v, key),
            AppState::CardReview => card_review_step(v, key),
            AppState::DeckMenu { confirm_delete } => deck_menu_step(v, key, confirm_delete),
            AppState::ImportWait => if key == 'q' {
                redraw(to_deck_list(v))
            } else {
                idle(v)
            },
        }
    }
}

/// The cards in the order that the seed gives, the first of them shown,
/// question first.
pub open spec fn shuffle_step(v: AppView, seed: usize) -> Step {
    redraw(AppView { cards: shuffled(v.cards, seed), current_card: 0, showing_back: false, ..v })
}

/// The name under which an import is saved: the name it brought, or
/// `Imported N` for the `N`-th deck, made unique among the decks listed.
pub open spec fn import_name(v: AppView, result: ImportText) -> Seq<char> {
    let base = match result.name {
        Some(name) => name,
        None => default_name(v.decks.len() + 1),
    };
    unique_name(names_of(v.decks), base)
}

/// The end of the wait for an import: what arrived is saved under a name
/// that no listed deck has, unless the store refuses the name or the
/// deck, and the application is back in the deck list, whether anything
/// arrived or not.
pub open spec fn import_step(v: AppView, result: Option<ImportText>) -> Step {
    match result {
        Some(r) => if is_one_line(import_name(v, r)) && encodable(r.cards) {
            let name = import_name(v, r);
            redraw(
                to_deck_list(
                    AppView {
                        dict: saved(v.dict, name, r.cards),
                        journal: v.journal + save_ops(v.dict, name, r.cards),
                        ..v
                    },
                ),
            )
        } else {
            redraw(to_deck_list(v))
        },
        None => redraw(to_deck_list(v)),
    }
}

/// The store replaced by what the persistent dictionary holds: the deck
/// list is read afresh and the cursor brought back into it.
pub open spec fn reload_step(
    v: AppView,
    dict: Map<Seq<char>, Seq<u8>>,
    journal: Seq<StoreOpText>,
) -> Step {
    redraw(clamped(refreshed(AppView { dict, journal, ..v })))
}

/// The application as it starts on a store and a screen of the given
/// height: a store that never had an index gets its first deck, and the
/// deck list is shown from its top.
pub open spec fn start(
    dict: Map<Seq<char>, Seq<u8>>,
    journal: Seq<StoreOpText>,
    height: isize,
) -> AppView {
    let fresh = !dict.contains_key(index_key());
    let first_dict = if fresh {
        saved(dict, demo_name(), demo_cards())
    } else {
        dict
    };
    let first_journal = if fresh {
        journal + save_ops(dict, demo_name(), demo_cards())
    } else {
        journal
    };
    AppView {
        state: AppState::DeckList,
        decks: listing(first_dict),
        cursor: 0,
        scroll_offset: 0,
        rows: rows_for(height),
        current_deck_name: Seq::empty(),
        cards: Seq::empty(),
        current_card: 0,
        showing_back: false,
        menu_visible: false,
        menu_cursor: 0,
        help_visible: false,
        should_quit: false,
        dict: first_dict,
        journal: first_journal,
    }
}

/// The number of rows of the deck list that fit a screen of the given
/// height.
pub fn visible_rows(height: isize) -> (rows: usize)
    ensures
        rows == rows_for(height),
{
    if height >= LIST_MARGIN {
        ((height - LIST_MARGIN) / ROW_HEIGHT) as usize
    } else {
        0
    }
}

/// The flashcard application: the store, the deck list, the deck under
/// review, and what lies over them.
pub struct FlashcardApp {
    storage: DeckStorage,
    state: AppState,
    decks: Vec<DeckMeta>,
    cursor: usize,
    scroll_offset: usize,
    rows: usize,
    current_deck_name: String,
    cards: Vec<Card>,
    current_card: usize,
    showing_back: bool,
    menu_visible: bool,
    menu_cursor: usize,
    help_visible: bool,
    should_quit: bool,
}

impl View for FlashcardApp {
    type V = AppView;

    closed spec fn view(&self) -> AppView {
        AppView {
            state: self.state,
            decks: self.decks.deep_view(),
            cursor: self.cursor,
            scroll_offset: self.scroll_offset,
            rows: self.rows,
            current_deck_name: self.current_deck_name@,
            cards: self.cards.deep_view(),
            current_card: self.current_card,
            showing_back: self.showing_back,
            menu_visible: self.menu_visible,
            menu_cursor: self.menu_cursor,
            help_visible: self.help_visible,
            should_quit: self.should_quit,
            dict: self.storage.dict(),
            journal: self.storage.journal(),
        }
    }
}

impl FlashcardApp {
    /// Starts the application on `storage` and a screen of the given
    /// height.
    pub fn new(storage: DeckStorage, screen_height: isize) -> (app: FlashcardApp)
        ensures
            app@ == start(storage.dict(), storage.journal(), screen_height),
    {
        let mut storage = storage;
        storage.ensure_demo_deck();
        let decks = storage.list_decks();
        let cards: Vec<Card> = Vec::new();
        assert(cards.deep_view() =~= Seq::<CardText>::empty());
        FlashcardApp {
            storage,
            state: AppState::DeckList,
            decks,
            cursor: 0,
            scroll_offset: 0,
            rows: visible_rows(screen_height),
            current_deck_name: String::new(),
            cards,
            current_card: 0,
            showing_back: false,
            menu_visible: false,
            menu_cursor: 0,
            help_visible: false,
            should_quit: false,
        }
    }

    /// Where the application is.
    pub fn state(&self) -> (state: AppState)
        ensures
            state == self@.state,
    {
        self.state
    }

    /// The deck list as last read from the store.
    pub fn decks(&self) -> (decks: &Vec<DeckMeta>)
        ensures
            decks.deep_view() == self@.decks,
    {
        &self.decks
    }

    /// The selected row of the deck list.
    pub fn cursor(&self) -> (cursor: usize)
        ensures
            cursor == self@.cursor,
    {
        self.cursor
    }

    /// The first row of the deck list that is shown.
    pub fn scroll_offset(&self) -> (offset: usize)
        ensures
            offset == self@.scroll_offset,
    {
        self.scroll_offset
    }

    /// The deck under review or in the deck menu.
    pub fn current_deck_name(&self) -> (name: &str)
        ensures
            name@ == self@.current_deck_name,
    {
        self.current_deck_name.as_str()
    }

    /// The cards under review.
    pub fn cards(&self) -> (cards: &Vec<Card>)
        ensures
            cards.deep_view() == self@.cards,
    {
        &self.cards
    }

    /// The card shown.
    pub fn current_card(&self) -> (index: usize)
        ensures
            index == self@.current_card,
    {
        self.current_card
    }

    /// Whether the answer is shown.
    pub fn showing_back(&self) -> (b: bool)
        ensures
            b == self@.showing_back,
    {
        self.showing_back
    }

    /// Whether the menu is open.
    pub fn menu_visible(&self) -> (b: bool)
        ensures
            b == self@.menu_visible,
    {
        self.menu_visible
    }

    /// The selected row of the menu.
    pub fn menu_cursor(&self) -> (cursor: usize)
        ensures
            cursor == self@.menu_cursor,
    {
        self.menu_cursor
    }

    /// Whether the help page is open.
    pub fn help_visible(&self) -> (b: bool)
        ensures
            b == self@.help_visible,
    {
        self.help_visible
    }

    /// Whether the application has been asked to end.
    pub fn should_quit(&self) -> (b: bool)
        ensures
            b == self@.should_quit,
    {
        self.should_quit
    }

    /// The store.
    pub fn storage(&self) -> (storage: &DeckStorage)
        ensures
            storage.dict() == self@.dict,
            storage.journal() == self@.journal,
    {
        &self.storage
    }

    /// Hands over the store's journal and starts a new one.
    pub fn take_writes(&mut self) -> (writes: Vec<StoreOp>)
        ensures
            writes.deep_view() == old(self)@.journal,
            final(self)@ == (AppView { journal: Seq::empty(), ..old(self)@ }),
    {
        self.storage.take_writes()
    }

    /// Reads the deck list afresh from the store.
    pub fn refresh_deck_list(&mut self)
        ensures
            final(self)@ == refreshed(old(self)@),
    {
        self.decks = self.storage.list_decks();
    }

    /// Goes back to the deck list, read afresh.
    fn go_to_deck_list(&mut self)
        ensures
            final(self)@ == to_deck_list(old(self)@),
    {
        self.state = AppState::DeckList;
        self.refresh_deck_list();
    }

    /// Moves on to the next card, where one follows.
    fn advance(&mut self)
        ensures
            final(self)@ == advanced(old(self)@),
    {
        if self.current_card < self.cards.len() && self.current_card + 1 < self.cards.len() {
            self.current_card += 1;
            self.showing_back = false;
        }
    }

    /// Opens the deck menu of the selected deck, where one is selected.
    fn manage(&mut self)
        ensures
            final(self)@ == managing(old(self)@),
    {
        if self.cursor < self.decks.len() {
            self.current_deck_name = self.decks[self.cursor].name.clone();
            self.state = AppState::DeckMenu { confirm_delete: false };
        }
    }

    /// What asking for an export gives.
    fn export(&self) -> (action: Action)
        ensures
            action@ == export_action(self@),
    {
        match self.storage.load_deck(self.current_deck_name.as_str()) {
            Some(cards) => {
                let payload = export_tsv(self.current_deck_name.as_str(), cards.as_slice());
                Action::Export { payload }
            },
            None => Action::Redraw,
        }
    }

    /// The number of entries of the menu in the state the application is
    /// in.
    pub fn menu_len(&self) -> (len: usize)
        ensures
            len == menu_len(self@.state),
    {
        match self.state {
            AppState::DeckList => 3,
            AppState::CardReview => 5,
            AppState::DeckMenu { .. } => 4,
            AppState::ImportWait => 1,
        }
    }

    /// The menu key.
    pub fn toggle_menu(&mut self) -> (action: Action)
        ensures
            (Step { app: final(self)@, action: action@ }) == toggle_menu_step(old(self)@),
    {
        if self.help_visible {
            self.help_visible = false;
        } else {
            self.menu_visible = !self.menu_visible;
            self.menu_cursor = 0;
        }
        Action::Redraw
    }

    /// The flip key.
    pub fn handle_f2(&mut self) -> (action: Action)
        ensures
            (Step { app: final(self)@, action: action@ }) == f2_step(old(self)@),
    {
        if self.help_visible {
            self.help_visible = false;
            return Action::Redraw;
        }
        self.menu_visible = false;
        if self.state == AppState::CardReview {
            self.showing_back = !self.showing_back;
        }
        Action::Redraw
    }

    /// The next key.
    pub fn handle_f3(&mut self) -> (action: Action)
        ensures
            (Step { app: final(self)@, action: action@ }) == f3_step(old(self)@),
    {
        if self.help_visible {
            self.help_visible = false;
            return Action::Redraw;
        }
        self.menu_visible = false;
        if self.state == AppState::CardReview {
            self.advance();
        }
        Action::Redraw
    }

    /// The back key.
    pub fn handle_f4(&mut self) -> (action: Action)
        ensures
            (Step { app: final(self)@, action: action@ }) == f4_step(old(self)@),
    {
        if self.help_visible {
            self.help_visible = false;
            return Action::Redraw;
        }
        if self.menu_visible {
            self.menu_visible = false;
            return Action::Redraw;
        }
        match self.state {
            AppState::CardReview => {
                self.go_to_deck_list();
                Action::Redraw
            },
            AppState::DeckMenu { .. } => {
                self.go_to_deck_list();
                Action::Redraw
            },
            AppState::DeckList => {
                self.should_quit = true;
                Action::Idle
            },
            AppState::ImportWait => Action::Idle,
        }
    }

    /// Carries out the entry of the menu that is selected, and closes the
    /// menu.
    pub fn menu_select_item(&mut self) -> (action: Action)
        ensures
            (Step { app: final(self)@, action: action@ }) == menu_select_step(old(self)@),
    {
        self.menu_visible = false;
        let entry = self.menu_cursor;
        if entry == 0 {
            self.help_visible = true;
            return Action::Redraw;
        }
        match self.state {
            AppState::DeckList => {
                if entry == 1 {
                    self.state = AppState::ImportWait;
                    return Action::Import;
                } else if entry == 2 {
                    self.manage();
                }
                Action::Redraw
            },
            AppState::CardReview => {
                if entry == 1 {
                    self.showing_back = !self.showing_back;
                } else if entry == 2 {
                    self.advance();
                } else if entry == 3 {
                    return Action::Shuffle;
                } else if entry == 4 {
                    self.go_to_deck_list();
                }
                Action::Redraw
            },
            AppState::DeckMenu { .. } => {
                if entry == 1 {
                    return self.export();
                } else if entry == 2 {
                    self.state = AppState::DeckMenu { confirm_delete: true };
                } else if entry == 3 {
                    self.go_to_deck_list();
                }
                Action::Redraw
            },
            AppState::ImportWait => Action::Redraw,
        }
    }

    /// A key while the menu is open.
    fn handle_key_menu(&mut self, key: char) -> (action: Action)
        ensures
            (Step { app: final(self)@, action: action@ }) == menu_key_step(old(self)@, key),
    {
        if key == KEY_UP || key == 'k' {
            if self.menu_cursor > 0 {
                self.menu_cursor -= 1;
                return Action::Redraw;
            }
            Action::Idle
        } else if key == KEY_DOWN || key == 'j' {
            if self.menu_cursor < self.menu_len() - 1 {
                self.menu_cursor += 1;
                return Action::Redraw;
            }
            Action::Idle
        } else if key == '\r' || key == '\n' {
            self.menu_select_item()
        } else {
            Action::Idle
        }
    }

    /// A key in the deck list.
    pub fn handle_key_deck_list(&mut self, key: char) -> (action: Action)
        ensures
            (Step { app: final(self)@, action: action@ }) == deck_list_step(old(self)@, key),
    {
        if key == KEY_DOWN || key == 'j' {
            if self.cursor < self.decks.len() && self.cursor + 1 < self.decks.len() {
                self.cursor += 1;
                self.update_scroll();
                return Action::Redraw;
            }
            Action::Idle
        } else if key == KEY_UP || key == 'k' {
            if self.cursor > 0 {
                self.cursor -= 1;
                self.update_scroll();
                return Action::Redraw;
            }
            Action::Idle
        } else if key == '\r' || key == '\n' {
            if self.cursor < self.decks.len() {
                let name = self.decks[self.cursor].name.clone();
                match self.storage.load_deck(name.as_str()) {
                    Some(cards) => {
                        if cards.len() > 0 {
                            self.current_deck_name = name;
                            self.cards = cards;
                            self.current_card = 0;
                            self.showing_back = false;
                            self.state = AppState::CardReview;
                            return Action::Redraw;
                        }
                    },
                    None => {},
                }
            }
            Action::Idle
        } else if key == 'i' {
            self.state = AppState::ImportWait;
            Action::Import
        } else if key == 'm' {
            if self.cursor < self.decks.len() {
                self.manage();
                return Action::Redraw;
            }
            Action::Idle
        } else if key == 'q' {
            self.should_quit = true;
            Action::Idle
        } else {
            Action::Idle
        }
    }

    /// A key in review.
    pub fn handle_key_card_review(&mut self, key: char) -> (action: Action)
        ensures
            (Step { app: final(self)@, action: action@ }) == card_review_step(old(self)@, key),
    {
        if key == KEY_RIGHT || key == 'n' {
            if self.current_card < self.cards.len() && self.current_card + 1 < self.cards.len() {
                self.advance();
                return Action::Redraw;
            }
            Action::Idle
        } else if key == KEY_LEFT || key == 'p' {
            if self.current_card > 0 {
                self.current_card -= 1;
                self.showing_back = false;
                return Action::Redraw;
            }
            Action::Idle
        } else if key == ' ' || key == '\r' || key == '\n' {
            self.showing_back = !self.showing_back;
            Action::Redraw
        } else if key == 's' {
            Action::Shuffle
        } else if key == 'q' {
            self.go_to_deck_list();
            Action::Redraw
        } else {
            Action::Idle
        }
    }

    /// Brings the cursor of the deck list back into the list.
    fn clamp_cursor(&mut self)
        ensures
            final(self)@ == clamped(old(self)@),
    {
        if self.decks.len() == 0 {
            self.cursor = 0;
            self.scroll_offset = 0;
        } else if self.cursor >= self.decks.len() {
            self.cursor = self.decks.len() - 1;
        }
        self.update_scroll();
    }

    /// A key in the deck menu.
    pub fn handle_key_deck_menu(&mut self, key: char, confirm_delete: bool) -> (action: Action)
        ensures
            (Step { app: final(self)@, action: action@ }) == deck_menu_step(
                old(self)@,
                key,
                confirm_delete,
            ),
    {
        if confirm_delete {
            if key == 'y' {
                self.storage.delete_deck(self.current_deck_name.as_str());
                self.go_to_deck_list();
                self.clamp_cursor();
                Action::Redraw
            } else if key == 'n' || key == 'q' {
                self.state = AppState::DeckMenu { confirm_delete: false };
                Action::Redraw
            } else {
                Action::Idle
            }
        } else {
            if key == 'e' {
                self.export()
            } else if key == 'd' {
                self.state = AppState::DeckMenu { confirm_delete: true };
                Action::Redraw
            } else if key == 'q' {
                self.go_to_deck_list();
                Action::Redraw
            } else {
                Action::Idle
            }
        }
    }

    /// Takes one key and says what the driver has to do.
    pub fn handle_key(&mut self, key: char) -> (action: Action)
        ensures
            (Step { app: final(self)@, action: action@ }) == key_step(old(self)@, key),
    {
        if key == KEY_F1 {
            return self.toggle_menu();
        }
        if key == KEY_F4 {
            return self.handle_f4();
        }
        if key == KEY_F2 {
            return self.handle_f2();
        }
        if key == KEY_F3 {
            return self.handle_f3();
        }
        if self.help_visible {
            self.help_visible = false;
            return Action::Redraw;
        }
        if self.menu_visible {
            return self.handle_key_menu(key);
        }
        match self.state {
            AppState::DeckList => self.handle_key_deck_list(key),
            AppState::CardReview => self.handle_key_card_review(key),
            AppState::DeckMenu { confirm_delete } => self.handle_key_deck_menu(key, confirm_delete),
            AppState::ImportWait => {
                if key == 'q' {
                    self.go_to_deck_list();
                    return Action::Redraw;
                }
                Action::Idle
            },
        }
    }

    /// Puts the cards under review in the order that `seed` gives and
    /// shows the first of them, question first.
    pub fn shuffle_cards(&mut self, seed: usize) -> (action: Action)
        ensures
            (Step { app: final(self)@, action: action@ }) == shuffle_step(old(self)@, seed),
    {
        shuffle_cards(&mut self.cards, seed);
        self.current_card = 0;
        self.showing_back = false;
        Action::Redraw
    }

    /// Takes `storage` in place of the store, for when a write failed and
    /// the store no longer holds what the persistent dictionary holds.
    pub fn reload(&mut self, storage: DeckStorage) -> (action: Action)
        ensures
            (Step { app: final(self)@, action: action@ }) == reload_step(
                old(self)@,
                storage.dict(),
                storage.journal(),
            ),
    {
        self.storage = storage;
        self.refresh_deck_list();
        self.clamp_cursor();
        Action::Redraw
    }

    /// Ends the wait for an import with what arrived, if anything did.
    pub fn do_import(&mut self, result: Option<ImportResult>) -> (action: Action)
        ensures
            (Step { app: final(self)@, action: action@ }) == import_step(
                old(self)@,
                match result {
                    Some(r) => Some(r@),
                    None => None,
                },
            ),
    {
        match result {
            Some(r) => {
                let base = match r.name {
                    Some(name) => name,
                    None => {
                        let count = self.decks.len();
                        default_deck_name(count as u128 + 1)
                    },
                };
                let name = unique_deck_name(self.decks.as_slice(), base.as_str());
                let cards = r.cards.as_slice();
                assert(cards.deep_view() =~= r.cards.deep_view());
                let res = self.storage.save_deck(name.as_str(), cards);
                proof {
                    if let Err(e) = res {
                        match e {
                            SaveError::NameHasLineFeed => {},
                            SaveError::Encode(EncodeError::TooManyCards) => {},
                            SaveError::Encode(EncodeError::TextTooLong { index }) => {},
                        }
                    }
                }
            },
            None => {},
        }
        self.go_to_deck_list();
        Action::Redraw
    }

    /// What the screen is to show.
    pub fn screen(&self) -> (screen: Screen)
        ensures
            screen == screen_of(self@),
    {
        if self.help_visible {
            Screen::Help
        } else if self.menu_visible {
            Screen::Menu
        } else {
            match self.state {
                AppState::DeckList => Screen::DeckList,
                AppState::CardReview => {
                    if self.current_card < self.cards.len() {
                        Screen::CardReview
                    } else {
                        Screen::Unchanged
                    }
                },
                AppState::DeckMenu { confirm_delete } => Screen::DeckMenu { confirm_delete },
                AppState::ImportWait => Screen::ImportWait,
            }
        }
    }

    /// The entries of the menu in the state the application is in.
    pub fn menu_items(&self) -> (items: Vec<&'static str>)
        ensures
            items.deep_view() == menu_labels(self@.state),
            items@.len() == menu_len(self@.state),
    {
        let mut items: Vec<&'static str> = Vec::new();
        items.push("Help");
        match self.state {
            AppState::DeckList => {
                items.push("Import Deck (TCP)");
                items.push("Manage Deck");
            },
            AppState::CardReview => {
                items.push("Flip Card");
                items.push("Next Card");
                items.push("Shuffle");
                items.push("Back to List");
            },
            AppState::DeckMenu { .. } => {
                items.push("Export (TCP)");
                items.push("Delete Deck");
                items.push("Back to List");
            },
            AppState::ImportWait => {},
        }
        assert(items.deep_view() =~= menu_labels(self@.state));
        items
    }

    /// The help page of the state the application is in.
    pub fn help_text(&self) -> (text: &'static str)
        ensures
            text@ == help_for(self@.state),
    {
        match self.state {
            AppState::DeckList => HELP_DECK_LIST,
            AppState::CardReview => HELP_CARD_REVIEW,
            AppState::DeckMenu { .. } => HELP_DECK_MENU,
            AppState::ImportWait => HELP_IMPORT_WAIT,
        }
    }

    /// The rows of the deck list that are shown: the first, and the one
    /// after the last.
    pub fn visible_decks(&self) -> (range: (usize, usize))
        ensures
            (range.0 as int, range.1 as int) == visible_decks(self@),
            range.0 <= range.1 <= self@.decks.len(),
    {
        let len = self.decks.len();
        let first = if self.scroll_offset <= len {
            self.scroll_offset
        } else {
            len
        };
        let last = if self.rows <= len - first {
            first + self.rows
        } else {
            len
        };
        (first, last)
    }

    /// The card count of the selected deck, 0 where none is selected.
    pub fn selected_count(&self) -> (count: u32)
        ensures
            count == selected_count(self@),
    {
        if self.cursor < self.decks.len() {
            self.decks[self.cursor].card_count
        } else {
            0
        }
    }

    /// Moves the window of the deck list so that it holds the cursor.
    pub fn update_scroll(&mut self)
        ensures
            final(self)@ == scrolled(old(self)@),
    {
        if self.rows == 0 || self.cursor < self.scroll_offset {
            self.scroll_offset = self.cursor;
        } else if self.cursor - self.scroll_offset >= self.rows {
            self.scroll_offset = self.cursor - (self.rows - 1);
        }
    }
}

/// What holds of the application at all times: the deck list is what
/// the store lists, the cursor is in the list and in its window, and in
/// review the card shown is one of the cards under review.
pub open spec fn consistent(v: AppView) -> bool {
    &&& v.decks == listing(v.dict)
    &&& (v.cursor < v.decks.len() || v.cursor == 0)
    &&& (v.rows > 0 ==> v.scroll_offset <= v.cursor < v.scroll_offset + v.rows)
    &&& (v.state == AppState::CardReview ==> v.current_card < v.cards.len())
}

/// The application starts consistent.
pub proof fn lemma_start_consistent(
    dict: Map<Seq<char>, Seq<u8>>,
    journal: Seq<StoreOpText>,
    height: isize,
)
    ensures
        consistent(start(dict, journal, height)),
{
}

/// A key leaves a consistent application consistent.
pub proof fn lemma_key_keeps_consistent(v: AppView, key: char)
    requires
        consistent(v),
    ensures
        consistent(key_step(v, key).app),
{
}

/// A shuffle leaves a consistent application consistent.
pub proof fn lemma_shuffle_keeps_consistent(v: AppView, seed: usize)
    requires
        consistent(v),
    ensures
        consistent(shuffle_step(v, seed).app),
{
    lemma_shuffled_permutes(v.cards, seed);
}

/// The end of an import leaves a consistent application consistent.
pub proof fn lemma_import_keeps_consistent(v: AppView, result: Option<ImportText>)
    requires
        consistent(v),
    ensures
        consistent(import_step(v, result).app),
{
    if let Some(r) = result {
        lemma_save_keeps_names(v.dict, import_name(v, r), r.cards);
    }
}

/// Taking a store in place of the old one leaves a consistent
/// application consistent.
pub proof fn lemma_reload_keeps_consistent(
    v: AppView,
    dict: Map<Seq<char>, Seq<u8>>,
    journal: Seq<StoreOpText>,
)
    requires
        consistent(v),
    ensures
        consistent(reload_step(v, dict, journal).app),
{
}

/// In a consistent application there is always something to show.
pub proof fn lemma_consistent_has_screen(v: AppView)
    requires
        consistent(v),
    ensures
        screen_of(v) != Screen::Unchanged,
{
}

/// No name stands twice in the index: no key, no import and no shuffle
/// makes it so.
pub proof fn lemma_steps_keep_names_distinct(
    v: AppView,
    key: char,
    result: Option<ImportText>,
    seed: usize,
)
    requires
        index_names(v.dict).no_duplicates(),
    ensures
        index_names(key_step(v, key).app.dict).no_duplicates(),
        index_names(import_step(v, result).app.dict).no_duplicates(),
        index_names(shuffle_step(v, seed).app.dict).no_duplicates(),
{
    lemma_index_stays_distinct(v.dict, v.current_deck_name, Seq::empty());
    if let Some(r) = result {
        lemma_index_stays_distinct(v.dict, import_name(v, r), r.cards);
    }
}

/// While the menu is open, one of its entries is selected.
pub open spec fn menu_in_range(v: AppView) -> bool {
    v.menu_visible ==> v.menu_cursor < menu_len(v.state)
}

/// The menu opens with an entry selected, and no key moves the selection
/// out of the menu.
pub proof fn lemma_key_keeps_menu_in_range(v: AppView, key: char)
    requires
        menu_in_range(v),
    ensures
        menu_in_range(key_step(v, key).app),
        menu_in_range(toggle_menu_step(AppView { menu_visible: false, ..v }).app),
{
}

/// The end of the wait for an import leaves the selection in the menu.
pub proof fn lemma_import_keeps_menu_in_range(v: AppView, result: Option<ImportText>)
    requires
        v.state == AppState::ImportWait,
        menu_in_range(v),
    ensures
        menu_in_range(import_step(v, result).app),
{
}

/// Opening the selected deck from the deck list starts its review at the
/// first card, question first, provided the deck has a card.
pub proof fn lemma_open_deck(v: AppView, key: char, cards: Seq<CardText>)
    requires
        v.state == AppState::DeckList,
        !v.help_visible,
        !v.menu_visible,
        is_enter(key),
        v.cursor < v.decks.len(),
        stored_deck(v.dict, v.decks[v.cursor as int].name) == Some(cards),
        cards.len() >= 1,
    ensures
        key_step(v, key) == redraw(
            AppView {
                state: AppState::CardReview,
                current_deck_name: v.decks[v.cursor as int].name,
                cards,
                current_card: 0,
                showing_back: false,
                ..v
            },
        ),
{
}

/// A deck without cards is not opened: the review is entered only with
/// a card to show.
pub proof fn lemma_empty_deck_stays_closed(v: AppView, key: char)
    requires
        v.state == AppState::DeckList,
        !v.help_visible,
        !v.menu_visible,
        is_enter(key),
        v.cursor < v.decks.len(),
        stored_deck(v.dict, v.decks[v.cursor as int].name) == Some(Seq::<CardText>::empty()),
    ensures
        key_step(v, key) == idle(v),
{
}

/// At the last card, moving on does nothing.
pub proof fn lemma_advance_at_last(v: AppView, key: char)
    requires
        v.state == AppState::CardReview,
        !v.help_visible,
        !v.menu_visible,
        key == KEY_RIGHT || key == 'n' || key == KEY_F3,
        v.current_card + 1 >= v.cards.len(),
    ensures
        key_step(v, key).app == v,
{
}

/// Before the last card, moving on shows the next card, question first,
/// and changes nothing else.
pub proof fn lemma_advance(v: AppView, key: char)
    requires
        v.state == AppState::CardReview,
        !v.help_visible,
        !v.menu_visible,
        key == KEY_RIGHT || key == 'n' || key == KEY_F3,
        v.current_card + 1 < v.cards.len(),
    ensures
        key_step(v, key) == redraw(
            AppView { current_card: (v.current_card + 1) as usize, showing_back: false, ..v },
        ),
{
}

/// Flipping a card changes which side is shown and nothing else.
pub proof fn lemma_flip(v: AppView, key: char)
    requires
        v.state == AppState::CardReview,
        !v.help_visible,
        !v.menu_visible,
        key == ' ' || is_enter(key) || key == KEY_F2,
    ensures
        key_step(v, key) == redraw(AppView { showing_back: !v.showing_back, ..v }),
{
}

/// A shuffle keeps the multiset of cards, shows the first card, question
/// first, and changes nothing else.
pub proof fn lemma_shuffle(v: AppView, seed: usize)
    ensures
        shuffle_step(v, seed).app.cards.to_multiset() == v.cards.to_multiset(),
        shuffle_step(v, seed).app.cards.len() == v.cards.len(),
        shuffle_step(v, seed).app == (AppView {
            cards: shuffle_step(v, seed).app.cards,
            current_card: 0,
            showing_back: false,
            ..v
        }),
{
    lemma_shuffled_permutes(v.cards, seed);
}

/// An import is saved under a name that no listed deck has.
pub proof fn lemma_import_name_is_free(v: AppView, result: ImportText)
    ensures
        !names_of(v.decks).contains(import_name(v, result)),
{
    let base = match result.name {
        Some(name) => name,
        None => default_name(v.decks.len() + 1),
    };
    lemma_unique_name_is_free(names_of(v.decks), base);
}

/// Whatever the keys, the wait for an import ends in the deck list, read
/// afresh.
pub proof fn lemma_import_ends_in_deck_list(v: AppView, result: Option<ImportText>)
    ensures
        import_step(v, result).app.state == AppState::DeckList,
        import_step(v, result).app.decks == listing(import_step(v, result).app.dict),
        import_step(v, result).action == ActionText::Redraw,
{
}

/// `char::from_u32` of std: the character with the given number, where
/// there is one. Trusted: that the numbers of characters are the Unicode
/// scalar values, and that the character given has the number asked for.
#[verifier::external_body]
fn char_from_u32(code: u32) -> (c: Option<char>)
    ensures
        c is Some <==> is_scalar(code),
        c matches Some(ch) ==> ch as u32 == code,
{
    char::from_u32(code)
}

/// The key that a word of a key message stands for: the character whose
/// number is in the low 32 bits of the word. Words that hold zero or no
/// character's number stand for no key.
pub open spec fn key_of(word: usize) -> Option<char> {
    let code = (word as int % 0x1_0000_0000) as u32;
    if code != 0 && is_scalar(code) {
        Some(code as char)
    } else {
        None
    }
}

/// The keys that the first `n` words of a key message stand for, in
/// order.
pub open spec fn keys_of(words: Seq<usize>, n: int) -> Seq<char>
    decreases n,
{
    if n <= 0 {
        Seq::empty()
    } else {
        match key_of(words[n - 1]) {
            Some(key) => keys_of(words, n - 1).push(key),
            None => keys_of(words, n - 1),
        }
    }
}

/// The keys that a key message of four words carries, in order.
pub fn unpack_keys(words: [usize; 4]) -> (keys: Vec<char>)
    ensures
        keys@ == keys_of(words@, 4),
{
    let mut keys: Vec<char> = Vec::new();
    let mut i: usize = 0;
    while i < 4
        invariant
            i <= 4,
            keys@ == keys_of(words@, i as int),
        decreases 4 - i,
    {
        let code = ((words[i] as u64) % 0x1_0000_0000) as u32;
        if code != 0 {
            match char_from_u32(code) {
                Some(key) => {
                    assert(key == code as char) by {
                        vstd::utf8::char_u32_cast(key, code);
                    }
                    keys.push(key);
                },
                None => {},
            }
        }
        i += 1;
    }
    keys
}

} // verus!
