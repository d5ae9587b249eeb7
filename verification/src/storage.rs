//! The deck store.
//!
//! Decks live in one dictionary of byte strings: the key `deck.<name>`
//! holds a deck in the binary format, and the key `_index` holds the names
//! of the decks, one per line. The store works on a copy of that
//! dictionary held in memory and records every write in a journal, in the
//! order in which the persistent dictionary has to see them.

use crate::deck::{
    decode_deck, deserialize_cards, encodable, encode_deck, encode_error, from_le_u32,
    lemma_encoded_count, lemma_roundtrip, lemma_utf8_len_bound, serialize_cards,
    string_from_utf8, Card, CardText, DeckMeta, DeckMetaText, EncodeError,
};
use crate::index::{
    format_index, is_name, join_names, lemma_split_gives_names, lemma_split_join,
    lemma_split_join_push, parse_index, split_names,
};
use crate::text::{has_line_feed, is_one_line, same_text};
use vstd::prelude::*;
use vstd::string::{StrSliceExecFns, StringExecFns, StringSliceAdditionalSpecFns};
use vstd::utf8::{
    decode_utf8, encode_utf8, encode_utf8_decode_utf8, encode_utf8_valid_utf8, valid_utf8,
};

verus! {

/// Name of the dictionary that holds the decks.
pub const DICT_NAME: &'static str = "flashcards";

/// The key that holds the index.
pub open spec fn index_key() -> Seq<char> {
    seq!['_', 'i', 'n', 'd', 'e', 'x']
}

/// The key that holds the deck called `name`.
pub open spec fn deck_key(name: Seq<char>) -> Seq<char> {
    seq!['d', 'e', 'c', 'k', '.'] + name
}

/// The names that the index of `dict` lists, in order: none where there
/// is no index or it is not text.
pub open spec fn index_names(dict: Map<Seq<char>, Seq<u8>>) -> Seq<Seq<char>> {
    if dict.contains_key(index_key()) && valid_utf8(dict[index_key()]) {
        split_names(decode_utf8(dict[index_key()]), 0)
    } else {
        Seq::empty()
    }
}

/// The stored form of an index that lists `names`.
pub open spec fn index_blob(names: Seq<Seq<char>>) -> Seq<u8> {
    encode_utf8(join_names(names))
}

/// The card count that the stored form of the deck `name` announces: 0
/// where there is none or it is shorter than the count.
pub open spec fn stored_count(dict: Map<Seq<char>, Seq<u8>>, name: Seq<char>) -> u32 {
    let key = deck_key(name);
    if dict.contains_key(key) && dict[key].len() >= 4 {
        from_le_u32(dict[key][0], dict[key][1], dict[key][2], dict[key][3]) as u32
    } else {
        0
    }
}

/// The deck stored as `name`, where there is one and it can be read.
pub open spec fn stored_deck(dict: Map<Seq<char>, Seq<u8>>, name: Seq<char>) -> Option<
    Seq<CardText>,
> {
    let key = deck_key(name);
    if dict.contains_key(key) {
        decode_deck(dict[key])
    } else {
        None
    }
}

/// The summaries of the decks that the index lists, in its order.
pub open spec fn listing(dict: Map<Seq<char>, Seq<u8>>) -> Seq<DeckMetaText> {
    Seq::new(
        index_names(dict).len(),
        |i: int|
            DeckMetaText {
                name: index_names(dict)[i],
                card_count: stored_count(dict, index_names(dict)[i]),
            },
    )
}

/// The key that holds the index.
pub fn index_key_text() -> (key: &'static str)
    ensures
        key@ == index_key(),
{
    proof {
        reveal_strlit("_index");
    }
    let key = "_index";
    assert(key@ =~= index_key());
    key
}

/// The key that holds the deck called `name`.
pub fn deck_key_text(name: &str) -> (key: String)
    ensures
        key@ == deck_key(name@),
{
    proof {
        reveal_strlit("deck.");
    }
    let mut key = String::from_str("deck.");
    assert(key@ =~= seq!['d', 'e', 'c', 'k', '.']);
    key.append(name);
    key
}

/// Why a deck cannot be saved.
#[derive(Clone, Copy, Debug, PartialEq, Eq, Structural)]
pub enum SaveError {
    /// The name holds a line feed: the index, which has one name on each
    /// line, cannot list it.
    NameHasLineFeed,
    /// The binary format cannot hold the deck.
    Encode(EncodeError),
}

/// The error that stops `cards` from being saved as `name`: the name
/// first, then the deck.
pub open spec fn save_error(name: Seq<char>, cards: Seq<CardText>, e: SaveError) -> bool {
    match e {
        SaveError::NameHasLineFeed => !is_one_line(name),
        SaveError::Encode(why) => is_one_line(name) && encode_error(cards, why),
    }
}

/// `names` without every occurrence of `name`.
pub open spec fn without_name(names: Seq<Seq<char>>, name: Seq<char>) -> Seq<Seq<char>>
    decreases names.len(),
{
    if names.len() == 0 {
        Seq::empty()
    } else if names.last() == name {
        without_name(names.drop_last(), name)
    } else {
        without_name(names.drop_last(), name).push(names.last())
    }
}

/// The dictionary after the deck `cards` was saved as `name`: the deck's
/// stored form replaces what was stored under the name, and the name
/// joins the end of the index unless the index lists it already.
pub open spec fn saved(dict: Map<Seq<char>, Seq<u8>>, name: Seq<char>, cards: Seq<CardText>) -> Map<
    Seq<char>,
    Seq<u8>,
> {
    let with_deck = dict.insert(deck_key(name), encode_deck(cards));
    if index_names(dict).contains(name) {
        with_deck
    } else {
        with_deck.insert(index_key(), index_blob(index_names(dict).push(name)))
    }
}

/// The writes of a save, in order: the deck first, then the index where
/// it changes.
pub open spec fn save_ops(dict: Map<Seq<char>, Seq<u8>>, name: Seq<char>, cards: Seq<CardText>) -> Seq<
    StoreOpText,
> {
    let deck = write_ops(deck_key(name), encode_deck(cards));
    if index_names(dict).contains(name) {
        deck
    } else {
        deck + write_ops(index_key(), index_blob(index_names(dict).push(name)))
    }
}

/// The dictionary after the deck `name` was deleted: its stored form is
/// gone, and so is the name from the index. Nothing changes where neither
/// was there.
pub open spec fn deleted(dict: Map<Seq<char>, Seq<u8>>, name: Seq<char>) -> Map<
    Seq<char>,
    Seq<u8>,
> {
    let without_deck = dict.remove(deck_key(name));
    if index_names(dict).contains(name) {
        without_deck.insert(index_key(), index_blob(without_name(index_names(dict), name)))
    } else {
        without_deck
    }
}

/// The writes of a delete, in order: the deck where there is one, the
/// index where it changes, and one flush where anything was written.
pub open spec fn delete_ops(dict: Map<Seq<char>, Seq<u8>>, name: Seq<char>) -> Seq<StoreOpText> {
    let stored = dict.contains_key(deck_key(name));
    let listed = index_names(dict).contains(name);
    let deck = if stored {
        seq![StoreOpText::Delete { key: deck_key(name) }]
    } else {
        Seq::empty()
    };
    let index = if listed {
        seq![
            StoreOpText::Put {
                key: index_key(),
                data: index_blob(without_name(index_names(dict), name)),
            },
        ]
    } else {
        Seq::empty()
    };
    let flush = if stored || listed {
        seq![StoreOpText::Sync]
    } else {
        Seq::empty()
    };
    deck + index + flush
}

/// Whether `names` holds `name`.
fn has_name(names: &Vec<String>, name: &str) -> (found: bool)
    ensures
        found == names.deep_view().contains(name@),
{
    let mut i: usize = 0;
    while i < names.len()
        invariant
            i <= names@.len(),
            forall|j: int| 0 <= j < i ==> names.deep_view()[j] != name@,
        decreases names@.len() - i,
    {
        if same_text(names[i].as_str(), name) {
            assert(names.deep_view()[i as int] == name@);
            return true;
        }
        i += 1;
    }
    false
}

/// `names` without every occurrence of `name`.
fn drop_name(names: &Vec<String>, name: &str) -> (kept: Vec<String>)
    ensures
        kept.deep_view() == without_name(names.deep_view(), name@),
{
    let ghost all = names.deep_view();
    let mut kept: Vec<String> = Vec::new();
    let mut i: usize = 0;
    assert(all.take(0) =~= Seq::<Seq<char>>::empty());
    assert(kept.deep_view() =~= Seq::<Seq<char>>::empty());
    while i < names.len()
        invariant
            i <= names@.len(),
            all == names.deep_view(),
            kept.deep_view() == without_name(all.take(i as int), name@),
        decreases names@.len() - i,
    {
        let ghost before = kept.deep_view();
        let ghost next = all.take(i as int + 1);
        assert(next.drop_last() =~= all.take(i as int));
        assert(next.last() == names@[i as int]@);
        if !same_text(names[i].as_str(), name) {
            let copy = names[i].clone();
            kept.push(copy);
            assert(kept.deep_view() =~= before.push(names@[i as int]@));
        }
        i += 1;
    }
    assert(all.take(names@.len() as int) =~= all);
    kept
}

/// The name of the deck that a new store starts with.
pub open spec fn demo_name() -> Seq<char> {
    "Xous Basics"@
}

/// The cards of the deck that a new store starts with.
pub open spec fn demo_cards() -> Seq<CardText> {
    seq![
        CardText { front: "What is Xous?"@, back: "A microkernel OS for the Precursor, using message-passing IPC between servers."@ },
        CardText { front: "What is the Precursor display?"@, back: "336x536 pixels, 1-bit (black and white only). No grayscale or color."@ },
        CardText { front: "What is the PDDB?"@, back: "Plausibly Deniable Database. Encrypted key-value storage organized as basis > dictionary > key."@ },
        CardText { front: "How do apps draw to screen?"@, back: "Through the GAM (Graphics Abstraction Manager) service, which manages canvases and trust levels."@ },
        CardText { front: "What CPU does Precursor use?"@, back: "100MHz VexRISC-V RV32IMAC. Single core, no FPU."@ },
        CardText { front: "How does IPC work in Xous?"@, back: "Message passing. Scalar messages (4 usizes) or memory messages (buffer transfer). No shared memory."@ },
        CardText { front: "What is a Server ID (SID)?"@, back: "A unique address for a process's message queue. Obtained by registering a name with xous-names."@ },
        CardText { front: "How do apps handle input?"@, back: "Register rawkeys_id with GAM. Keys arrive as up to 4 chars packed in scalar message parameters."@ },
    ]
}

/// The deck that a new store starts with.
pub fn demo_deck() -> (deck: Vec<Card>)
    ensures
        deck.deep_view() == demo_cards(),
{
    let mut deck: Vec<Card> = Vec::new();
    deck.push(Card { front: String::from_str("What is Xous?"), back: String::from_str("A microkernel OS for the Precursor, using message-passing IPC between servers.") });
    deck.push(Card { front: String::from_str("What is the Precursor display?"), back: String::from_str("336x536 pixels, 1-bit (black and white only). No grayscale or color.") });
    deck.push(Card { front: String::from_str("What is the PDDB?"), back: String::from_str("Plausibly Deniable Database. Encrypted key-value storage organized as basis > dictionary > key.") });
    deck.push(Card { front: String::from_str("How do apps draw to screen?"), back: String::from_str("Through the GAM (Graphics Abstraction Manager) service, which manages canvases and trust levels.") });
    deck.push(Card { front: String::from_str("What CPU does Precursor use?"), back: String::from_str("100MHz VexRISC-V RV32IMAC. Single core, no FPU.") });
    deck.push(Card { front: String::from_str("How does IPC work in Xous?"), back: String::from_str("Message passing. Scalar messages (4 usizes) or memory messages (buffer transfer). No shared memory.") });
    deck.push(Card { front: String::from_str("What is a Server ID (SID)?"), back: String::from_str("A unique address for a process's message queue. Obtained by registering a name with xous-names.") });
    deck.push(Card { front: String::from_str("How do apps handle input?"), back: String::from_str("Register rawkeys_id with GAM. Keys arrive as up to 4 chars packed in scalar message parameters.") });
    assert(deck.deep_view() =~= demo_cards());
    deck
}

/// The binary format can hold the deck that a new store starts with.
pub proof fn lemma_demo_encodable()
    ensures
        encodable(demo_cards()),
{
    reveal_strlit("What is Xous?");
    lemma_utf8_len_bound("What is Xous?"@);
    reveal_strlit("A microkernel OS for the Precursor, using message-passing IPC between servers.");
    lemma_utf8_len_bound("A microkernel OS for the Precursor, using message-passing IPC between servers."@);
    reveal_strlit("What is the Precursor display?");
    lemma_utf8_len_bound("What is the Precursor display?"@);
    reveal_strlit("336x536 pixels, 1-bit (black and white only). No grayscale or color.");
    lemma_utf8_len_bound("336x536 pixels, 1-bit (black and white only). No grayscale or color."@);
    reveal_strlit("What is the PDDB?");
    lemma_utf8_len_bound("What is the PDDB?"@);
    reveal_strlit("Plausibly Deniable Database. Encrypted key-value storage organized as basis > dictionary > key.");
    lemma_utf8_len_bound("Plausibly Deniable Database. Encrypted key-value storage organized as basis > dictionary > key."@);
    reveal_strlit("How do apps draw to screen?");
    lemma_utf8_len_bound("How do apps draw to screen?"@);
    reveal_strlit("Through the GAM (Graphics Abstraction Manager) service, which manages canvases and trust levels.");
    lemma_utf8_len_bound("Through the GAM (Graphics Abstraction Manager) service, which manages canvases and trust levels."@);
    reveal_strlit("What CPU does Precursor use?");
    lemma_utf8_len_bound("What CPU does Precursor use?"@);
    reveal_strlit("100MHz VexRISC-V RV32IMAC. Single core, no FPU.");
    lemma_utf8_len_bound("100MHz VexRISC-V RV32IMAC. Single core, no FPU."@);
    reveal_strlit("How does IPC work in Xous?");
    lemma_utf8_len_bound("How does IPC work in Xous?"@);
    reveal_strlit("Message passing. Scalar messages (4 usizes) or memory messages (buffer transfer). No shared memory.");
    lemma_utf8_len_bound("Message passing. Scalar messages (4 usizes) or memory messages (buffer transfer). No shared memory."@);
    reveal_strlit("What is a Server ID (SID)?");
    lemma_utf8_len_bound("What is a Server ID (SID)?"@);
    reveal_strlit("A unique address for a process's message queue. Obtained by registering a name with xous-names.");
    lemma_utf8_len_bound("A unique address for a process's message queue. Obtained by registering a name with xous-names."@);
    reveal_strlit("How do apps handle input?");
    lemma_utf8_len_bound("How do apps handle input?"@);
    reveal_strlit("Register rawkeys_id with GAM. Keys arrive as up to 4 chars packed in scalar message parameters.");
    lemma_utf8_len_bound("Register rawkeys_id with GAM. Keys arrive as up to 4 chars packed in scalar message parameters."@);
}

/// The name of the deck that a new store starts with is on one line.
pub proof fn lemma_demo_name_one_line()
    ensures
        is_one_line(demo_name()),
{
    reveal_strlit("Xous Basics");
    let name = demo_name();
    assert forall|i: int| 0 <= i < name.len() implies name[i] != '\n' by {
        assert(name.len() == 11);
        assert(name[0] == 'X' && name[1] == 'o' && name[2] == 'u' && name[3] == 's' && name[4]
            == ' ' && name[5] == 'B' && name[6] == 'a' && name[7] == 's' && name[8] == 'i'
            && name[9] == 'c' && name[10] == 's');
    }
}

/// One write to the persistent dictionary.
#[derive(Clone, Debug)]
pub enum StoreOp {
    /// Replace what `key` holds by `data`.
    Put { key: String, data: Vec<u8> },
    /// Remove `key`.
    Delete { key: String },
    /// Make the writes so far durable.
    Sync,
}

/// The mathematical value of a write.
pub ghost enum StoreOpText {
    Put { key: Seq<char>, data: Seq<u8> },
    Delete { key: Seq<char> },
    Sync,
}

impl View for StoreOp {
    type V = StoreOpText;

    open spec fn view(&self) -> StoreOpText {
        match self {
            StoreOp::Put { key, data } => StoreOpText::Put { key: key@, data: data@ },
            StoreOp::Delete { key } => StoreOpText::Delete { key: key@ },
            StoreOp::Sync => StoreOpText::Sync,
        }
    }
}

impl DeepView for StoreOp {
    type V = StoreOpText;

    open spec fn deep_view(&self) -> StoreOpText {
        self@
    }
}

/// A key of the dictionary with what it holds.
struct Entry {
    key: String,
    data: Vec<u8>,
}

/// What the first entry under `key` holds.
spec fn lookup(entries: Seq<Entry>, key: Seq<char>) -> Option<Seq<u8>>
    decreases entries.len(),
{
    if entries.len() == 0 {
        None
    } else if entries[0].key@ == key {
        Some(entries[0].data@)
    } else {
        lookup(entries.drop_first(), key)
    }
}

/// `lookup` finds the first entry under the key, and nothing exactly where
/// no entry is under it.
proof fn lemma_lookup(entries: Seq<Entry>, key: Seq<char>)
    ensures
        lookup(entries, key) is None <==> forall|i: int|
            0 <= i < entries.len() ==> (#[trigger] entries[i]).key@ != key,
        forall|i: int|
            0 <= i < entries.len() && entries[i].key@ == key && (forall|j: int|
                0 <= j < i ==> (#[trigger] entries[j]).key@ != key) ==> lookup(entries, key)
                == Some(entries[i].data@),
    decreases entries.len(),
{
    if entries.len() > 0 {
        let rest = entries.drop_first();
        lemma_lookup(rest, key);
        if entries[0].key@ != key {
            assert forall|i: int| 0 <= i < entries.len() && lookup(entries, key) is None implies (
            #[trigger] entries[i]).key@ != key by {
                if i > 0 {
                    assert(rest[i - 1] == entries[i]);
                }
            }
            assert forall|i: int|
                0 <= i < entries.len() && entries[i].key@ == key && (forall|j: int|
                    0 <= j < i ==> (#[trigger] entries[j]).key@ != key) implies lookup(
                entries,
                key,
            ) == Some(entries[i].data@) by {
                assert(rest[i - 1] == entries[i]);
                assert forall|j: int| 0 <= j < i - 1 implies (#[trigger] rest[j]).key@ != key by {
                    assert(rest[j] == entries[j + 1]);
                }
            }
            if forall|i: int| 0 <= i < entries.len() ==> (#[trigger] entries[i]).key@ != key {
                assert forall|i: int| 0 <= i < rest.len() implies (#[trigger] rest[i]).key@
                    != key by {
                    assert(rest[i] == entries[i + 1]);
                }
            }
        }
    }
}

/// Dropping an entry leaves every other key as it was.
proof fn lemma_lookup_remove(entries: Seq<Entry>, at: int, key: Seq<char>)
    requires
        0 <= at < entries.len(),
        entries[at].key@ != key,
    ensures
        lookup(entries.remove(at), key) == lookup(entries, key),
    decreases entries.len(),
{
    let after = entries.remove(at);
    if at == 0 {
        assert(after =~= entries.drop_first());
    } else {
        assert(after[0] == entries[0]);
        assert(after.drop_first() =~= entries.drop_first().remove(at - 1));
        if entries[0].key@ != key {
            lemma_lookup_remove(entries.drop_first(), at - 1, key);
        }
    }
}

/// The deck store: the dictionary and the journal of writes not yet
/// handed on.
pub struct DeckStorage {
    entries: Vec<Entry>,
    journal: Vec<StoreOp>,
}

impl DeckStorage {
    /// What the dictionary holds under each key.
    pub closed spec fn dict(&self) -> Map<Seq<char>, Seq<u8>> {
        Map::new(
            |k: Seq<char>| lookup(self.entries@, k) is Some,
            |k: Seq<char>| lookup(self.entries@, k)->0,
        )
    }

    /// The writes made since the journal was last taken, oldest first.
    pub closed spec fn journal(&self) -> Seq<StoreOpText> {
        self.journal.deep_view()
    }

    /// An empty store.
    pub fn new() -> (store: DeckStorage)
        ensures
            store.dict() == Map::<Seq<char>, Seq<u8>>::empty(),
            store.journal() == Seq::<StoreOpText>::empty(),
    {
        let store = DeckStorage { entries: Vec::new(), journal: Vec::new() };
        assert(store.dict() =~= Map::<Seq<char>, Seq<u8>>::empty());
        assert(store.journal() =~= Seq::<StoreOpText>::empty());
        store
    }

    /// Index of the first entry under `key`.
    fn position(&self, key: &str) -> (res: Option<usize>)
        ensures
            match res {
                Some(i) => {
                    &&& i < self.entries@.len()
                    &&& self.entries@[i as int].key@ == key@
                    &&& lookup(self.entries@, key@) == Some(self.entries@[i as int].data@)
                    &&& forall|j: int| 0 <= j < i ==> (#[trigger] self.entries@[j]).key@ != key@
                },
                None => lookup(self.entries@, key@) is None,
            },
    {
        let mut i: usize = 0;
        while i < self.entries.len()
            invariant
                i <= self.entries@.len(),
                forall|j: int| 0 <= j < i ==> (#[trigger] self.entries@[j]).key@ != key@,
            decreases self.entries@.len() - i,
        {
            if same_text(self.entries[i].key.as_str(), key) {
                proof {
                    lemma_lookup(self.entries@, key@);
                }
                return Some(i);
            }
            i += 1;
        }
        proof {
            lemma_lookup(self.entries@, key@);
        }
        None
    }

    /// What the dictionary holds under `key`.
    pub fn get(&self, key: &str) -> (res: Option<&Vec<u8>>)
        ensures
            match res {
                Some(data) => self.dict().contains_key(key@) && self.dict()[key@] == data@,
                None => !self.dict().contains_key(key@),
            },
    {
        match self.position(key) {
            Some(i) => Some(&self.entries[i].data),
            None => None,
        }
    }

    /// Sets what `key` holds, without recording a write.
    fn put(&mut self, key: &str, data: Vec<u8>)
        ensures
            final(self).dict() == old(self).dict().insert(key@, data@),
            final(self).journal() == old(self).journal(),
    {
        let ghost before = self.entries@;
        let ghost value = data@;
        let entry = Entry { key: String::from_str(key), data };
        match self.position(key) {
            Some(i) => {
                self.entries.set(i, entry);
            },
            None => {
                self.entries.push(entry);
                assert(self.entries@.drop_last() =~= before);
            },
        }
        proof {
            let after = self.entries@;
            assert forall|k: Seq<char>| #[trigger]
                lookup(after, k) == (if k == key@ {
                    Some(value)
                } else {
                    lookup(before, k)
                }) by {
                lemma_put(before, after, key@, value, k);
            }
            assert(self.dict() =~= old(self).dict().insert(key@, data@));
        }
    }

    /// Removes `key`, without recording a write. Says whether the
    /// dictionary held it.
    fn remove(&mut self, key: &str) -> (found: bool)
        ensures
            found == old(self).dict().contains_key(key@),
            final(self).dict() == old(self).dict().remove(key@),
            final(self).journal() == old(self).journal(),
    {
        let ghost before = self.entries@;
        let mut found = false;
        let mut i: usize = 0;
        while i < self.entries.len()
            invariant
                i <= self.entries@.len(),
                before == old(self).entries@,
                self.journal == old(self).journal,
                forall|j: int| 0 <= j < i ==> (#[trigger] self.entries@[j]).key@ != key@,
                forall|k: Seq<char>|
                    k != key@ ==> #[trigger] lookup(self.entries@, k) == lookup(before, k),
                lookup(before, key@) is Some <==> found || lookup(self.entries@, key@) is Some,
            decreases self.entries@.len() - i,
        {
            if same_text(self.entries[i].key.as_str(), key) {
                let ghost cur = self.entries@;
                proof {
                    lemma_lookup(cur, key@);
                    assert forall|k: Seq<char>| k != key@ implies #[trigger] lookup(
                        cur.remove(i as int),
                        k,
                    ) == lookup(before, k) by {
                        lemma_lookup_remove(cur, i as int, k);
                    }
                }
                self.entries.remove(i);
                found = true;
            } else {
                i += 1;
            }
        }
        proof {
            lemma_lookup(self.entries@, key@);
            assert(self.dict() =~= old(self).dict().remove(key@));
        }
        found
    }

    /// Puts into the dictionary an entry read from the persistent one.
    /// Nothing is recorded: the entry is there already.
    pub fn restore(&mut self, key: &str, data: Vec<u8>)
        ensures
            final(self).dict() == old(self).dict().insert(key@, data@),
            final(self).journal() == old(self).journal(),
    {
        self.put(key, data);
    }

    /// Hands over the journal and starts a new one. The writes are to be
    /// carried out in the order given.
    pub fn take_writes(&mut self) -> (writes: Vec<StoreOp>)
        ensures
            writes.deep_view() == old(self).journal(),
            final(self).journal() == Seq::<StoreOpText>::empty(),
            final(self).dict() == old(self).dict(),
    {
        let mut writes: Vec<StoreOp> = Vec::new();
        std::mem::swap(&mut writes, &mut self.journal);
        assert(self.journal.deep_view() =~= Seq::<StoreOpText>::empty());
        writes
    }

    /// Records one write.
    fn record(&mut self, op: StoreOp)
        ensures
            final(self).journal() == old(self).journal().push(op@),
            final(self).dict() == old(self).dict(),
    {
        self.journal.push(op);
        assert(self.journal.deep_view() =~= old(self).journal.deep_view().push(op@));
    }

    /// Writes `data` under `key` and makes it durable.
    fn write(&mut self, key: &str, data: Vec<u8>)
        ensures
            final(self).dict() == old(self).dict().insert(key@, data@),
            final(self).journal() == old(self).journal() + write_ops(key@, data@),
    {
        let copy = data.clone();
        assert(copy@ =~= data@);
        self.put(key, data);
        self.record(StoreOp::Put { key: String::from_str(key), data: copy });
        self.record(StoreOp::Sync);
        assert(self.journal() =~= old(self).journal() + write_ops(key@, data@));
    }

    /// Whether the index exists, be it empty.
    pub fn has_index(&self) -> (b: bool)
        ensures
            b == self.dict().contains_key(index_key()),
    {
        self.get(index_key_text()).is_some()
    }

    /// The names that the index lists.
    pub fn read_index(&self) -> (names: Vec<String>)
        ensures
            names.deep_view() == index_names(self.dict()),
    {
        match self.get(index_key_text()) {
            Some(data) => {
                let copy = data.clone();
                assert(copy@ =~= data@);
                match string_from_utf8(copy) {
                    Some(text) => parse_index(text.as_str()),
                    None => {
                        let names: Vec<String> = Vec::new();
                        assert(names.deep_view() =~= Seq::<Seq<char>>::empty());
                        names
                    },
                }
            },
            None => {
                let names: Vec<String> = Vec::new();
                assert(names.deep_view() =~= Seq::<Seq<char>>::empty());
                names
            },
        }
    }

    /// Replaces the index by one that lists `names`.
    fn write_index(&mut self, names: &[String])
        ensures
            final(self).dict() == old(self).dict().insert(
                index_key(),
                index_blob(names.deep_view()),
            ),
            final(self).journal() == old(self).journal() + write_ops(
                index_key(),
                index_blob(names.deep_view()),
            ),
    {
        let text = format_index(names);
        let data = text.as_str().as_bytes_vec();
        self.write(index_key_text(), data);
    }

    /// The card count that the stored form of the deck `name` announces.
    pub fn get_card_count(&self, name: &str) -> (count: u32)
        ensures
            count == stored_count(self.dict(), name@),
    {
        let key = deck_key_text(name);
        match self.get(key.as_str()) {
            Some(data) => {
                if data.len() >= 4 {
                    data[0] as u32 + 256 * (data[1] as u32) + 65536 * (data[2] as u32) + 16777216
                        * (data[3] as u32)
                } else {
                    0
                }
            },
            None => 0,
        }
    }

    /// The deck stored as `name`, or nothing where there is none or it
    /// cannot be read.
    pub fn load_deck(&self, name: &str) -> (res: Option<Vec<Card>>)
        ensures
            match res {
                Some(cards) => stored_deck(self.dict(), name@) == Some(cards.deep_view()),
                None => stored_deck(self.dict(), name@) is None,
            },
    {
        let key = deck_key_text(name);
        match self.get(key.as_str()) {
            Some(data) => deserialize_cards(data.as_slice()),
            None => None,
        }
    }

    /// The summaries of the decks that the index lists, in its order. The
    /// count of each is read off the start of its stored form; the cards
    /// are not read.
    pub fn list_decks(&self) -> (metas: Vec<DeckMeta>)
        ensures
            metas.deep_view() == listing(self.dict()),
    {
        let names = self.read_index();
        let ghost all = names.deep_view();
        let mut metas: Vec<DeckMeta> = Vec::new();
        let mut i: usize = 0;
        while i < names.len()
            invariant
                i <= names@.len(),
                all == index_names(self.dict()),
                names.deep_view() == all,
                metas@.len() == i,
                forall|j: int| 0 <= j < i ==> (#[trigger] metas@[j])@ == listing(self.dict())[j],
            decreases names@.len() - i,
        {
            let card_count = self.get_card_count(names[i].as_str());
            let name = names[i].clone();
            assert(name@ == all[i as int]);
            metas.push(DeckMeta { name, card_count });
            i += 1;
        }
        assert(metas.deep_view() =~= listing(self.dict()));
        metas
    }

    /// Saves `cards` as the deck `name`.
    ///
    /// The deck is written first and made durable, then the index where
    /// the name is new to it. A name with a line feed and a deck that the
    /// binary format cannot hold are refused, and nothing changes.
    pub fn save_deck(&mut self, name: &str, cards: &[Card]) -> (res: Result<(), SaveError>)
        ensures
            match res {
                Ok(_) => {
                    &&& is_one_line(name@)
                    &&& encodable(cards.deep_view())
                    &&& final(self).dict() == saved(old(self).dict(), name@, cards.deep_view())
                    &&& final(self).journal() == old(self).journal() + save_ops(
                        old(self).dict(),
                        name@,
                        cards.deep_view(),
                    )
                },
                Err(e) => {
                    &&& save_error(name@, cards.deep_view(), e)
                    &&& final(self).dict() == old(self).dict()
                    &&& final(self).journal() == old(self).journal()
                },
            },
    {
        if has_line_feed(name) {
            return Err(SaveError::NameHasLineFeed);
        }
        let data = match serialize_cards(cards) {
            Ok(data) => data,
            Err(e) => {
                return Err(SaveError::Encode(e));
            },
        };
        let key = deck_key_text(name);
        proof {
            lemma_keys_differ(name@);
        }
        self.write(key.as_str(), data);
        let mut names = self.read_index();
        assert(names.deep_view() == index_names(old(self).dict()));
        if !has_name(&names, name) {
            let ghost before = names.deep_view();
            names.push(String::from_str(name));
            assert(names.deep_view() =~= before.push(name@));
            let all = names.as_slice();
            assert(all.deep_view() =~= names.deep_view());
            self.write_index(all);
            assert(self.journal() =~= old(self).journal() + save_ops(
                old(self).dict(),
                name@,
                cards.deep_view(),
            ));
        }
        Ok(())
    }

    /// Deletes the deck `name`: its stored form and its line of the index.
    /// Where neither is there, nothing happens.
    pub fn delete_deck(&mut self, name: &str)
        ensures
            final(self).dict() == deleted(old(self).dict(), name@),
            final(self).journal() == old(self).journal() + delete_ops(old(self).dict(), name@),
    {
        let key = deck_key_text(name);
        proof {
            lemma_keys_differ(name@);
        }
        let stored = self.remove(key.as_str());
        if stored {
            self.record(StoreOp::Delete { key });
        }
        let names = self.read_index();
        assert(names.deep_view() == index_names(old(self).dict()));
        let listed = has_name(&names, name);
        if listed {
            let kept = drop_name(&names, name);
            let rest = kept.as_slice();
            assert(rest.deep_view() =~= kept.deep_view());
            let text = format_index(rest);
            let data = text.as_str().as_bytes_vec();
            let copy = data.clone();
            assert(copy@ =~= data@);
            self.put(index_key_text(), data);
            self.record(StoreOp::Put { key: String::from_str(index_key_text()), data: copy });
        }
        if stored || listed {
            self.record(StoreOp::Sync);
        }
        assert(self.journal() =~= old(self).journal() + delete_ops(old(self).dict(), name@));
    }

    /// Gives a store that has never had an index its first deck. A store
    /// with an index, be it empty, is left as it is.
    pub fn ensure_demo_deck(&mut self)
        ensures
            final(self).dict() == (if old(self).dict().contains_key(index_key()) {
                old(self).dict()
            } else {
                saved(old(self).dict(), demo_name(), demo_cards())
            }),
            final(self).journal() == (if old(self).dict().contains_key(index_key()) {
                old(self).journal()
            } else {
                old(self).journal() + save_ops(old(self).dict(), demo_name(), demo_cards())
            }),
    {
        if self.has_index() {
            return ;
        }
        let deck = demo_deck();
        let cards = deck.as_slice();
        proof {
            lemma_demo_encodable();
            lemma_demo_name_one_line();
            assert(cards.deep_view() =~= deck.deep_view());
        }
        let res = self.save_deck("Xous Basics", cards);
        proof {
            if let Err(e) = res {
                match e {
                    SaveError::NameHasLineFeed => {},
                    SaveError::Encode(EncodeError::TooManyCards) => {},
                    SaveError::Encode(EncodeError::TextTooLong { index }) => {},
                }
            }
        }
    }
}

/// No deck is stored under the key of the index.
pub proof fn lemma_keys_differ(name: Seq<char>)
    ensures
        deck_key(name) != index_key(),
{
    assert(deck_key(name)[0] == 'd');
    assert(index_key()[0] == '_');
}

/// The writes that replace what `key` holds and make that durable.
pub open spec fn write_ops(key: Seq<char>, data: Seq<u8>) -> Seq<StoreOpText> {
    seq![StoreOpText::Put { key, data }, StoreOpText::Sync]
}

/// Replacing the first entry under a key, or adding one where there was
/// none, changes what that key holds and nothing else.
proof fn lemma_put(
    before: Seq<Entry>,
    after: Seq<Entry>,
    key: Seq<char>,
    value: Seq<u8>,
    k: Seq<char>,
)
    requires
        after.len() > 0,
        ({
            ||| (lookup(before, key) is None && after.drop_last() == before && after.last().key@
                == key && after.last().data@ == value)
            ||| (exists|i: int|
                0 <= i < before.len() && before[i].key@ == key && (forall|j: int|
                    0 <= j < i ==> (#[trigger] before[j]).key@ != key) && after.len()
                    == before.len() && after[i].key@ == key && after[i].data@ == value && (
                forall|j: int| 0 <= j < before.len() && j != i ==> #[trigger] after[j] == before[j]))
        }),
    ensures
        lookup(after, k) == (if k == key {
            Some(value)
        } else {
            lookup(before, k)
        }),
    decreases after.len(),
{
    lemma_lookup(before, key);
    if before.len() == 0 {
        assert(after.drop_first() =~= Seq::<Entry>::empty());
    } else if lookup(before, key) is None {
        assert(after[0] == after.drop_last()[0]);
        assert(before[0].key@ != key);
        if before[0].key@ != k {
            let b2 = before.drop_first();
            let a2 = after.drop_first();
            lemma_lookup(b2, key);
            assert(a2.drop_last() =~= b2);
            assert(a2.last() == after.last());
            assert forall|i: int| 0 <= i < b2.len() implies (#[trigger] b2[i]).key@ != key by {
                assert(b2[i] == before[i + 1]);
            }
            lemma_put(b2, a2, key, value, k);
        }
    } else {
        let i = choose|i: int|
            0 <= i < before.len() && before[i].key@ == key && (forall|j: int|
                0 <= j < i ==> (#[trigger] before[j]).key@ != key) && after.len() == before.len()
                && after[i].key@ == key && after[i].data@ == value && (forall|j: int|
                0 <= j < before.len() && j != i ==> #[trigger] after[j] == before[j]);
        if i == 0 {
            assert(after.drop_first() =~= before.drop_first()) by {
                assert forall|j: int| 0 <= j < before.len() - 1 implies after.drop_first()[j]
                    == before.drop_first()[j] by {
                    assert(after[j + 1] == before[j + 1]);
                }
            }
        } else {
            assert(after[0] == before[0]);
            if before[0].key@ != k {
                let b2 = before.drop_first();
                let a2 = after.drop_first();
                assert(b2[i - 1] == before[i]);
                assert(a2[i - 1] == after[i]);
                assert forall|j: int| 0 <= j < i - 1 implies (#[trigger] b2[j]).key@ != key by {
                    assert(b2[j] == before[j + 1]);
                }
                assert forall|j: int| 0 <= j < b2.len() && j != i - 1 implies #[trigger] a2[j]
                    == b2[j] by {
                    assert(after[j + 1] == before[j + 1]);
                }
                lemma_put(b2, a2, key, value, k);
            }
        }
    }
}

/// What is left after a name was taken out comes from the names there
/// were, in their order, and does not hold that name.
pub proof fn lemma_without_name(names: Seq<Seq<char>>, name: Seq<char>)
    ensures
        !without_name(names, name).contains(name),
        forall|n: Seq<char>| #[trigger]
            without_name(names, name).contains(n) <==> names.contains(n) && n != name,
    decreases names.len(),
{
    let kept = without_name(names, name);
    if names.len() > 0 {
        let front = names.drop_last();
        let last = names.last();
        lemma_without_name(front, name);
        let kept_front = without_name(front, name);
        assert forall|n: Seq<char>| #[trigger] kept.contains(n) <==> names.contains(n) && n
            != name by {
            if kept.contains(n) {
                let i = choose|i: int| 0 <= i < kept.len() && kept[i] == n;
                if last != name && i == kept.len() - 1 {
                    assert(names[names.len() - 1] == n);
                } else {
                    assert(kept_front[i] == n);
                    assert(kept_front.contains(n));
                    let j = choose|j: int| 0 <= j < front.len() && front[j] == n;
                    assert(names[j] == n);
                }
            }
            if names.contains(n) && n != name {
                let j = choose|j: int| 0 <= j < names.len() && names[j] == n;
                if j == names.len() - 1 {
                    assert(kept[kept.len() - 1] == n);
                } else {
                    assert(front[j] == n);
                    assert(kept_front.contains(n));
                    let i = choose|i: int| 0 <= i < kept_front.len() && kept_front[i] == n;
                    assert(kept[i] == n);
                }
            }
        }
    }
}

/// The names that the index lists once it was replaced by one written
/// for `names`, each of which is a name.
pub proof fn lemma_index_written(dict: Map<Seq<char>, Seq<u8>>, names: Seq<Seq<char>>)
    requires
        forall|i: int| 0 <= i < names.len() ==> is_name(#[trigger] names[i]),
    ensures
        index_names(dict.insert(index_key(), index_blob(names))) == names,
{
    encode_utf8_valid_utf8(join_names(names));
    encode_utf8_decode_utf8(join_names(names));
    lemma_split_join(names);
}

/// Every name that an index lists is a name.
pub proof fn lemma_index_names(dict: Map<Seq<char>, Seq<u8>>)
    ensures
        forall|i: int|
            0 <= i < index_names(dict).len() ==> is_name(#[trigger] index_names(dict)[i]),
{
    if dict.contains_key(index_key()) && valid_utf8(dict[index_key()]) {
        lemma_split_gives_names(decode_utf8(dict[index_key()]), 0);
    }
}

/// A deck that was saved is the deck that loading its name gives.
pub proof fn lemma_save_then_load(
    dict: Map<Seq<char>, Seq<u8>>,
    name: Seq<char>,
    cards: Seq<CardText>,
)
    requires
        encodable(cards),
    ensures
        stored_deck(saved(dict, name, cards), name) == Some(cards),
        stored_count(saved(dict, name, cards), name) == cards.len(),
{
    lemma_keys_differ(name);
    lemma_roundtrip(cards);
    lemma_encoded_count(cards);
    assert(saved(dict, name, cards)[deck_key(name)] == encode_deck(cards));
}

/// Saving a deck leaves the decks stored under other names as they were.
pub proof fn lemma_save_keeps_others(
    dict: Map<Seq<char>, Seq<u8>>,
    name: Seq<char>,
    cards: Seq<CardText>,
    other: Seq<char>,
)
    requires
        other != name,
    ensures
        stored_deck(saved(dict, name, cards), other) == stored_deck(dict, other),
        stored_count(saved(dict, name, cards), other) == stored_count(dict, other),
{
    lemma_keys_differ(other);
    assert(deck_key(other) != deck_key(name)) by {
        if deck_key(other) == deck_key(name) {
            assert(deck_key(other).skip(5) =~= other);
            assert(deck_key(name).skip(5) =~= name);
        }
    }
}

/// Saving under a name lists the name once: a name that the index held
/// stays where it was, and a new one joins the end.
pub proof fn lemma_save_lists(dict: Map<Seq<char>, Seq<u8>>, name: Seq<char>, cards: Seq<CardText>)
    requires
        is_name(name),
    ensures
        index_names(saved(dict, name, cards)) == (if index_names(dict).contains(name) {
            index_names(dict)
        } else {
            index_names(dict).push(name)
        }),
{
    lemma_keys_differ(name);
    let names = index_names(dict);
    if !names.contains(name) {
        lemma_index_names(dict);
        let with_deck = dict.insert(deck_key(name), encode_deck(cards));
        lemma_index_written(with_deck, names.push(name));
    }
}

/// Saving never takes a name off the index: the names it listed stay,
/// in their order, and what the new name adds comes after them. A name
/// on one line adds itself where it is not empty, and nothing where it
/// is.
pub proof fn lemma_save_keeps_names(
    dict: Map<Seq<char>, Seq<u8>>,
    name: Seq<char>,
    cards: Seq<CardText>,
)
    ensures
        index_names(saved(dict, name, cards)) == (if index_names(dict).contains(name) {
            index_names(dict)
        } else {
            index_names(dict) + split_names(name, 0)
        }),
        index_names(saved(dict, name, cards)).len() >= index_names(dict).len(),
        is_one_line(name) ==> split_names(name, 0) == (if name.len() == 0 {
            Seq::<Seq<char>>::empty()
        } else {
            seq![name]
        }),
{
    lemma_keys_differ(name);
    let names = index_names(dict);
    if !names.contains(name) {
        lemma_index_names(dict);
        encode_utf8_valid_utf8(join_names(names.push(name)));
        encode_utf8_decode_utf8(join_names(names.push(name)));
        lemma_split_join_push(names, name);
    }
    if is_one_line(name) && name.len() > 0 {
        lemma_split_join(seq![name]);
    }
}

/// After a deck was deleted, loading its name gives nothing and the index
/// does not list it.
pub proof fn lemma_delete_then_load(dict: Map<Seq<char>, Seq<u8>>, name: Seq<char>)
    ensures
        stored_deck(deleted(dict, name), name) is None,
        !index_names(deleted(dict, name)).contains(name),
        forall|i: int|
            0 <= i < listing(deleted(dict, name)).len() ==> (#[trigger] listing(
                deleted(dict, name),
            )[i]).name != name,
{
    lemma_keys_differ(name);
    let names = index_names(dict);
    lemma_without_name(names, name);
    if names.contains(name) {
        let kept = without_name(names, name);
        lemma_index_names(dict);
        assert forall|i: int| 0 <= i < kept.len() implies is_name(#[trigger] kept[i]) by {
            assert(kept.contains(kept[i]));
            let j = choose|j: int| 0 <= j < names.len() && names[j] == kept[i];
        }
        lemma_index_written(dict.remove(deck_key(name)), kept);
    }
    let after = index_names(deleted(dict, name));
    assert forall|i: int| 0 <= i < listing(deleted(dict, name)).len() implies (#[trigger] listing(
        deleted(dict, name),
    )[i]).name != name by {
        assert(after.contains(after[i]));
    }
}

/// Deleting a deck that is neither stored nor listed changes nothing and
/// writes nothing.
pub proof fn lemma_delete_absent(dict: Map<Seq<char>, Seq<u8>>, name: Seq<char>)
    requires
        !dict.contains_key(deck_key(name)),
        !index_names(dict).contains(name),
    ensures
        deleted(dict, name) == dict,
        delete_ops(dict, name) == Seq::<StoreOpText>::empty(),
{
    assert(dict.remove(deck_key(name)) =~= dict);
    assert(delete_ops(dict, name) =~= Seq::<StoreOpText>::empty());
}

/// Taking a name out of names that are all different leaves names that
/// are all different.
pub proof fn lemma_without_name_distinct(names: Seq<Seq<char>>, name: Seq<char>)
    requires
        names.no_duplicates(),
    ensures
        without_name(names, name).no_duplicates(),
    decreases names.len(),
{
    if names.len() > 0 {
        let front = names.drop_last();
        let last = names.last();
        assert(front.no_duplicates()) by {
            assert forall|i: int, j: int| 0 <= i < front.len() && 0 <= j < front.len() && i
                != j implies front[i] != front[j] by {
                assert(front[i] == names[i] && front[j] == names[j]);
            }
        }
        lemma_without_name_distinct(front, name);
        lemma_without_name(front, name);
        if last != name {
            let kept = without_name(front, name);
            assert(!kept.contains(last)) by {
                if kept.contains(last) {
                    assert(front.contains(last));
                    let i = choose|i: int| 0 <= i < front.len() && front[i] == last;
                    assert(names[i] == names[names.len() - 1]);
                }
            }
            assert forall|i: int, j: int|
                0 <= i < kept.push(last).len() && 0 <= j < kept.push(last).len() && i
                    != j implies kept.push(last)[i] != kept.push(last)[j] by {
                if i < kept.len() {
                    assert(kept.contains(kept[i]));
                }
                if j < kept.len() {
                    assert(kept.contains(kept[j]));
                }
            }
        }
    }
}

/// No name stands twice in the index: saving under a name that is on
/// one line, the only kind the store takes, and deleting keep it so.
pub proof fn lemma_index_stays_distinct(
    dict: Map<Seq<char>, Seq<u8>>,
    name: Seq<char>,
    cards: Seq<CardText>,
)
    requires
        index_names(dict).no_duplicates(),
    ensures
        is_one_line(name) ==> index_names(saved(dict, name, cards)).no_duplicates(),
        index_names(deleted(dict, name)).no_duplicates(),
{
    let names = index_names(dict);
    lemma_keys_differ(name);
    lemma_index_names(dict);
    if is_one_line(name) && name.len() == 0 {
        lemma_save_keeps_names(dict, name, cards);
        assert(names + split_names(name, 0) =~= names);
    }
    if is_name(name) {
        lemma_save_lists(dict, name, cards);
        if !names.contains(name) {
            let all = names.push(name);
            assert forall|i: int, j: int| 0 <= i < all.len() && 0 <= j < all.len() && i
                != j implies all[i] != all[j] by {
                if i < names.len() {
                    assert(names.contains(names[i]));
                }
                if j < names.len() {
                    assert(names.contains(names[j]));
                }
            }
        }
    }
    if names.contains(name) {
        let kept = without_name(names, name);
        lemma_without_name(names, name);
        lemma_without_name_distinct(names, name);
        assert forall|i: int| 0 <= i < kept.len() implies is_name(#[trigger] kept[i]) by {
            assert(kept.contains(kept[i]));
            let j = choose|j: int| 0 <= j < names.len() && names[j] == kept[i];
        }
        lemma_index_written(dict.remove(deck_key(name)), kept);
    }
}

} // verus!
