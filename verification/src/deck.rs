//! Cards and the binary deck format.
//!
//! A stored deck is a 32-bit little-endian card count followed, for each
//! card, by the front and then the back text. Each text is a 16-bit
//! little-endian byte length followed by that many bytes of UTF-8.

use vstd::prelude::*;
use vstd::utf8::*;

verus! {

/// Largest number of UTF-8 bytes a card text may have in the binary format.
pub const MAX_TEXT_BYTES: usize = 65535;

/// A flashcard: a question and its answer.
#[derive(Clone, Debug)]
pub struct Card {
    pub front: String,
    pub back: String,
}

/// A deck's name with the number of cards its stored form declares.
#[derive(Clone, Debug)]
pub struct DeckMeta {
    pub name: String,
    pub card_count: u32,
}

/// The mathematical value of a card: its two texts as character sequences.
pub ghost struct CardText {
    pub front: Seq<char>,
    pub back: Seq<char>,
}

/// The mathematical value of a deck summary.
pub ghost struct DeckMetaText {
    pub name: Seq<char>,
    pub card_count: u32,
}

impl View for Card {
    type V = CardText;

    open spec fn view(&self) -> CardText {
        CardText { front: self.front@, back: self.back@ }
    }
}

impl DeepView for Card {
    type V = CardText;

    open spec fn deep_view(&self) -> CardText {
        self@
    }
}

impl View for DeckMeta {
    type V = DeckMetaText;

    open spec fn view(&self) -> DeckMetaText {
        DeckMetaText { name: self.name@, card_count: self.card_count }
    }
}

impl DeepView for DeckMeta {
    type V = DeckMetaText;

    open spec fn deep_view(&self) -> DeckMetaText {
        self@
    }
}

/// Why a deck cannot be written in the binary format.
#[derive(Clone, Copy, Debug, PartialEq, Eq, Structural)]
pub enum EncodeError {
    /// The deck has more cards than a 32-bit count can hold.
    TooManyCards,
    /// The card at `index` has a text longer than `MAX_TEXT_BYTES` bytes.
    TextTooLong { index: usize },
}

/// The two bytes of `n` as a 16-bit little-endian number.
pub open spec fn le_u16(n: int) -> Seq<u8> {
    seq![(n % 256) as u8, (n / 256 % 256) as u8]
}

/// The four bytes of `n` as a 32-bit little-endian number.
pub open spec fn le_u32(n: int) -> Seq<u8> {
    seq![
        (n % 256) as u8,
        (n / 256 % 256) as u8,
        (n / 65536 % 256) as u8,
        (n / 16777216 % 256) as u8,
    ]
}

/// The number that two little-endian bytes stand for.
pub open spec fn from_le_u16(b0: u8, b1: u8) -> int {
    b0 as int + 256 * (b1 as int)
}

/// The number that four little-endian bytes stand for.
pub open spec fn from_le_u32(b0: u8, b1: u8, b2: u8, b3: u8) -> int {
    b0 as int + 256 * (b1 as int) + 65536 * (b2 as int) + 16777216 * (b3 as int)
}

/// Number of bytes `text` takes as UTF-8.
pub open spec fn utf8_len(text: Seq<char>) -> nat {
    encode_utf8(text).len()
}

/// A text in the binary format: its byte length, then its UTF-8 bytes.
pub open spec fn encode_text(text: Seq<char>) -> Seq<u8> {
    le_u16(utf8_len(text) as int) + encode_utf8(text)
}

/// A card in the binary format: the front text, then the back text.
pub open spec fn encode_card(card: CardText) -> Seq<u8> {
    encode_text(card.front) + encode_text(card.back)
}

/// The cards of a deck in the binary format, one after another.
pub open spec fn encode_cards(cards: Seq<CardText>) -> Seq<u8>
    decreases cards.len(),
{
    if cards.len() == 0 {
        Seq::empty()
    } else {
        encode_cards(cards.drop_last()) + encode_card(cards.last())
    }
}

/// A deck in the binary format: the card count, then the cards.
pub open spec fn encode_deck(cards: Seq<CardText>) -> Seq<u8> {
    le_u32(cards.len() as int) + encode_cards(cards)
}

/// Both texts of the card fit a 16-bit byte length.
pub open spec fn card_fits(card: CardText) -> bool {
    utf8_len(card.front) <= MAX_TEXT_BYTES && utf8_len(card.back) <= MAX_TEXT_BYTES
}

/// The deck can be written in the binary format without loss.
pub open spec fn encodable(cards: Seq<CardText>) -> bool {
    &&& cards.len() <= u32::MAX
    &&& forall|i: int| 0 <= i < cards.len() ==> card_fits(#[trigger] cards[i])
}

/// Size in bytes of the cards of a deck in the binary format.
pub open spec fn cards_size(cards: Seq<CardText>) -> nat
    decreases cards.len(),
{
    if cards.len() == 0 {
        0
    } else {
        cards_size(cards.drop_last()) + 2 + utf8_len(cards.last().front) + 2 + utf8_len(
            cards.last().back,
        )
    }
}

/// Reads one text at `pos`: the text and the position after it, or `None`
/// where the length field or the bytes it announces pass the end of the
/// buffer, or the bytes are not UTF-8.
pub open spec fn decode_text(bytes: Seq<u8>, pos: int) -> Option<(Seq<char>, int)> {
    if pos < 0 || pos + 2 > bytes.len() {
        None
    } else {
        let n = from_le_u16(bytes[pos], bytes[pos + 1]);
        let raw = bytes.subrange(pos + 2, pos + 2 + n);
        if pos + 2 + n > bytes.len() || !valid_utf8(raw) {
            None
        } else {
            Some((decode_utf8(raw), pos + 2 + n))
        }
    }
}

/// Reads one card at `pos`: the card and the position after it.
pub open spec fn decode_card(bytes: Seq<u8>, pos: int) -> Option<(CardText, int)> {
    match decode_text(bytes, pos) {
        None => None,
        Some((front, mid)) => match decode_text(bytes, mid) {
            None => None,
            Some((back, end)) => Some((CardText { front, back }, end)),
        },
    }
}

/// Reads `count` cards starting at `pos`.
pub open spec fn decode_cards(bytes: Seq<u8>, pos: int, count: nat) -> Option<Seq<CardText>>
    decreases count,
{
    if count == 0 {
        Some(Seq::empty())
    } else {
        match decode_card(bytes, pos) {
            None => None,
            Some((card, next)) => match decode_cards(bytes, next, (count - 1) as nat) {
                None => None,
                Some(rest) => Some(seq![card] + rest),
            },
        }
    }
}

/// The deck that `bytes` holds. Bytes after the last announced card are
/// not looked at.
pub open spec fn decode_deck(bytes: Seq<u8>) -> Option<Seq<CardText>> {
    if bytes.len() < 4 {
        None
    } else {
        decode_cards(bytes, 4, from_le_u32(bytes[0], bytes[1], bytes[2], bytes[3]) as nat)
    }
}

/// The error, if any, that stops `cards` from being written: too many
/// cards, else the first card with a text that is too long.
pub open spec fn encode_error(cards: Seq<CardText>, e: EncodeError) -> bool {
    match e {
        EncodeError::TooManyCards => cards.len() > u32::MAX,
        EncodeError::TextTooLong { index } => {
            &&& cards.len() <= u32::MAX
            &&& index < cards.len()
            &&& !card_fits(cards[index as int])
            &&& forall|j: int| 0 <= j < index ==> card_fits(#[trigger] cards[j])
        },
    }
}

/// Appends the binary form of `text` to `buf`.
fn push_text(buf: &mut Vec<u8>, text: &str)
    requires
        utf8_len(text@) <= MAX_TEXT_BYTES,
    ensures
        final(buf)@ == old(buf)@ + encode_text(text@),
{
    let bytes = text.as_bytes();
    let n = bytes.len();
    buf.push((n % 256) as u8);
    buf.push((n / 256) as u8);
    let ghost mid = buf@;
    buf.extend_from_slice(bytes);
    assert(mid == old(buf)@ + le_u16(n as int));
    assert(buf@ =~= mid + bytes@);
}

/// Writes a deck in the binary format.
///
/// Succeeds exactly on the decks that the format can hold; otherwise says
/// what is in the way and writes nothing.
pub fn serialize_cards(cards: &[Card]) -> (res: Result<Vec<u8>, EncodeError>)
    ensures
        match res {
            Ok(bytes) => {
                &&& encodable(cards.deep_view())
                &&& bytes@ == encode_deck(cards.deep_view())
                &&& bytes@.len() == 4 + cards_size(cards.deep_view())
            },
            Err(e) => encode_error(cards.deep_view(), e),
        },
{
    let ghost deck = cards.deep_view();
    let count = cards.len();
    if count > u32::MAX as usize {
        return Err(EncodeError::TooManyCards);
    }
    let mut buf: Vec<u8> = Vec::new();
    buf.push((count % 256) as u8);
    buf.push((count / 256 % 256) as u8);
    buf.push((count / 65536 % 256) as u8);
    buf.push((count / 16777216 % 256) as u8);
    assert(buf@ =~= le_u32(count as int));
    let mut i: usize = 0;
    while i < count
        invariant
            deck == cards.deep_view(),
            count == cards.len(),
            count <= u32::MAX,
            i <= count,
            buf@ == le_u32(count as int) + encode_cards(deck.take(i as int)),
            buf@.len() == 4 + cards_size(deck.take(i as int)),
            forall|j: int| 0 <= j < i ==> card_fits(#[trigger] deck[j]),
        decreases count - i,
    {
        let card = &cards[i];
        assert(deck[i as int] == card@);
        if card.front.as_str().as_bytes().len() > MAX_TEXT_BYTES
            || card.back.as_str().as_bytes().len() > MAX_TEXT_BYTES {
            return Err(EncodeError::TextTooLong { index: i });
        }
        let ghost before = buf@;
        push_text(&mut buf, card.front.as_str());
        push_text(&mut buf, card.back.as_str());
        proof {
            let next = deck.take(i as int + 1);
            assert(next.drop_last() =~= deck.take(i as int));
            assert(next.last() == deck[i as int]);
            assert(buf@ =~= before + encode_card(deck[i as int]));
        }
        i += 1;
    }
    assert(deck.take(count as int) =~= deck);
    Ok(buf)
}

/// `String::from_utf8` of std: the bytes as a string where they are
/// well-formed UTF-8, and nothing where they are not. Trusted: that the
/// call accepts exactly the well-formed sequences and that the string it
/// gives holds the characters they encode.
#[verifier::external_body]
pub(crate) fn string_from_utf8(bytes: Vec<u8>) -> (res: Option<String>)
    ensures
        res is Some <==> valid_utf8(bytes@),
        res matches Some(text) ==> text@ == decode_utf8(bytes@),
{
    match String::from_utf8(bytes) {
        Ok(text) => Some(text),
        Err(_) => None,
    }
}

/// Reads one text of the binary format at `pos`.
fn read_text(data: &[u8], pos: usize) -> (res: Option<(String, usize)>)
    ensures
        match res {
            Some((text, next)) => decode_text(data@, pos as int) == Some((text@, next as int)),
            None => decode_text(data@, pos as int) is None,
        },
{
    let len = data.len();
    if len < 2 || pos > len - 2 {
        return None;
    }
    let n: usize = data[pos] as usize + 256 * (data[pos + 1] as usize);
    let start = pos + 2;
    if n > len - start {
        return None;
    }
    let raw = vstd::slice::slice_to_vec(vstd::slice::slice_subrange(data, start, start + n));
    match string_from_utf8(raw) {
        Some(text) => Some((text, start + n)),
        None => None,
    }
}

/// Reads a deck in the binary format.
///
/// Gives nothing where the buffer is shorter than the count field, where a
/// length field or the bytes it announces pass the end of the buffer, or
/// where a text is not UTF-8. Bytes after the last card are ignored.
pub fn deserialize_cards(data: &[u8]) -> (res: Option<Vec<Card>>)
    ensures
        match res {
            Some(cards) => decode_deck(data@) == Some(cards.deep_view()),
            None => decode_deck(data@) is None,
        },
{
    if data.len() < 4 {
        return None;
    }
    let count: u64 = data[0] as u64 + 256 * (data[1] as u64) + 65536 * (data[2] as u64) + 16777216
        * (data[3] as u64);
    let mut cards: Vec<Card> = Vec::new();
    let mut pos: usize = 4;
    let mut done: u64 = 0;
    while done < count
        invariant
            done <= count,
            cards@.len() == done,
            decode_deck(data@) == decode_cards(data@, 4, count as nat),
            decode_rest(cards.deep_view(), decode_cards(data@, pos as int, (count - done) as nat))
                == decode_deck(data@),
        decreases count - done,
    {
        let ghost acc = cards.deep_view();
        let ghost here = pos as int;
        let front = match read_text(data, pos) {
            Some((text, next)) => {
                pos = next;
                text
            },
            None => {
                return None;
            },
        };
        let back = match read_text(data, pos) {
            Some((text, next)) => {
                pos = next;
                text
            },
            None => {
                return None;
            },
        };
        let card = Card { front, back };
        proof {
            let left = (count - done) as nat;
            let rest = decode_cards(data@, pos as int, (left - 1) as nat);
            assert(decode_card(data@, here) == Some((card@, pos as int)));
            assert(acc.push(card@) =~= acc + seq![card@]);
            assert(cards.deep_view().push(card@) =~= acc.push(card@)) by {
                assert(cards.deep_view() =~= acc);
            }
            if rest is Some {
                assert(acc + (seq![card@] + rest->0) =~= acc.push(card@) + rest->0);
            }
        }
        cards.push(card);
        assert(cards.deep_view() =~= acc.push(card@));
        done += 1;
    }
    assert(cards.deep_view() + Seq::<CardText>::empty() =~= cards.deep_view());
    Some(cards)
}

/// What a decoder that has read `acc` gives once the remaining cards have
/// been read as `rest`.
pub open spec fn decode_rest(acc: Seq<CardText>, rest: Option<Seq<CardText>>) -> Option<
    Seq<CardText>,
> {
    match rest {
        Some(tail) => Some(acc + tail),
        None => None,
    }
}

/// The stored form of a deck starts with the number of its cards.
pub proof fn lemma_encoded_count(cards: Seq<CardText>)
    requires
        cards.len() <= u32::MAX,
    ensures
        encode_deck(cards).len() >= 4,
        from_le_u32(
            encode_deck(cards)[0],
            encode_deck(cards)[1],
            encode_deck(cards)[2],
            encode_deck(cards)[3],
        ) == cards.len(),
{
    let n = cards.len() as int;
    let head = le_u32(n);
    let bytes = encode_deck(cards);
    assert(bytes[0] == head[0] && bytes[1] == head[1] && bytes[2] == head[2] && bytes[3]
        == head[3]);
    assert(from_le_u32(head[0], head[1], head[2], head[3]) == n);
}

/// A text takes at most four bytes for each of its characters.
pub proof fn lemma_utf8_len_bound(text: Seq<char>)
    ensures
        utf8_len(text) <= 4 * text.len(),
    decreases text.len(),
{
    if text.len() > 0 {
        lemma_utf8_len_bound(text.drop_first());
    }
}

/// The cards of a deck are written front to back: the first card's bytes
/// come before those of the cards after it.
pub proof fn lemma_encode_cards_front(card: CardText, rest: Seq<CardText>)
    ensures
        encode_cards(seq![card] + rest) == encode_card(card) + encode_cards(rest),
    decreases rest.len(),
{
    let all = seq![card] + rest;
    if rest.len() == 0 {
        assert(all.drop_last() =~= Seq::<CardText>::empty());
        assert(encode_cards(all.drop_last()) =~= Seq::<u8>::empty());
        assert(encode_cards(all) =~= encode_card(card));
        assert(encode_card(card) + encode_cards(rest) =~= encode_card(card));
    } else {
        lemma_encode_cards_front(card, rest.drop_last());
        assert(all.drop_last() =~= seq![card] + rest.drop_last());
        assert(all.last() == rest.last());
        assert(encode_cards(all) =~= encode_card(card) + (encode_cards(rest.drop_last())
            + encode_card(rest.last())));
    }
}

/// A text that fits is read back from wherever its binary form stands.
pub proof fn lemma_decode_text_at(bytes: Seq<u8>, pos: int, text: Seq<char>)
    requires
        0 <= pos,
        pos + encode_text(text).len() <= bytes.len(),
        bytes.subrange(pos, pos + encode_text(text).len()) == encode_text(text),
        utf8_len(text) <= MAX_TEXT_BYTES,
    ensures
        decode_text(bytes, pos) == Some((text, pos + 2 + utf8_len(text))),
{
    let n = utf8_len(text) as int;
    let enc = encode_text(text);
    assert(enc.len() == 2 + n);
    assert(bytes[pos] == enc[0]);
    assert(bytes[pos + 1] == enc[1]);
    assert(from_le_u16(enc[0], enc[1]) == n);
    let raw = bytes.subrange(pos + 2, pos + 2 + n);
    assert(raw =~= encode_utf8(text)) by {
        assert forall|i: int| 0 <= i < n implies raw[i] == encode_utf8(text)[i] by {
            assert(bytes[pos + 2 + i] == enc[2 + i]);
        }
    }
    encode_utf8_valid_utf8(text);
    encode_utf8_decode_utf8(text);
}

/// A card that fits is read back from wherever its binary form stands.
pub proof fn lemma_decode_card_at(bytes: Seq<u8>, pos: int, card: CardText)
    requires
        0 <= pos,
        pos + encode_card(card).len() <= bytes.len(),
        bytes.subrange(pos, pos + encode_card(card).len()) == encode_card(card),
        card_fits(card),
    ensures
        decode_card(bytes, pos) == Some((card, pos + encode_card(card).len())),
{
    let enc = encode_card(card);
    let front = encode_text(card.front);
    let back = encode_text(card.back);
    let mid = pos + front.len();
    assert(bytes.subrange(pos, mid) =~= front) by {
        assert forall|i: int| 0 <= i < front.len() implies bytes[pos + i] == front[i] by {
            assert(bytes[pos + i] == enc[i]);
        }
    }
    assert(bytes.subrange(mid, mid + back.len()) =~= back) by {
        assert forall|i: int| 0 <= i < back.len() implies bytes[mid + i] == back[i] by {
            assert(bytes[pos + (front.len() + i)] == enc[front.len() + i]);
        }
    }
    lemma_decode_text_at(bytes, pos, card.front);
    lemma_decode_text_at(bytes, mid, card.back);
}

/// Cards that fit are read back from wherever their binary form stands.
pub proof fn lemma_decode_cards_at(bytes: Seq<u8>, pos: int, cards: Seq<CardText>)
    requires
        0 <= pos,
        pos + encode_cards(cards).len() <= bytes.len(),
        bytes.subrange(pos, pos + encode_cards(cards).len()) == encode_cards(cards),
        forall|i: int| 0 <= i < cards.len() ==> card_fits(#[trigger] cards[i]),
    ensures
        decode_cards(bytes, pos, cards.len()) == Some(cards),
    decreases cards.len(),
{
    if cards.len() == 0 {
        assert(cards =~= Seq::<CardText>::empty());
    } else {
        let card = cards[0];
        let rest = cards.drop_first();
        assert(cards =~= seq![card] + rest);
        lemma_encode_cards_front(card, rest);
        let enc = encode_cards(cards);
        let head = encode_card(card);
        let next = pos + head.len();
        assert(bytes.subrange(pos, next) =~= head) by {
            assert forall|i: int| 0 <= i < head.len() implies bytes[pos + i] == head[i] by {
                assert(bytes[pos + i] == enc[i]);
            }
        }
        let tail = encode_cards(rest);
        assert(bytes.subrange(next, next + tail.len()) =~= tail) by {
            assert forall|i: int| 0 <= i < tail.len() implies bytes[next + i] == tail[i] by {
                assert(bytes[pos + (head.len() + i)] == enc[head.len() + i]);
            }
        }
        assert(card_fits(card));
        assert forall|i: int| 0 <= i < rest.len() implies card_fits(#[trigger] rest[i]) by {
            assert(rest[i] == cards[i + 1]);
        }
        lemma_decode_card_at(bytes, pos, card);
        lemma_decode_cards_at(bytes, next, rest);
    }
}

/// Reading back what was written gives the deck that was written, whatever
/// bytes follow it: for every deck the format can hold,
/// `decode(encode(cards) + tail) == cards`.
pub proof fn lemma_decode_encode(cards: Seq<CardText>, tail: Seq<u8>)
    requires
        encodable(cards),
    ensures
        decode_deck(encode_deck(cards) + tail) == Some(cards),
{
    let bytes = encode_deck(cards) + tail;
    let n = cards.len() as int;
    let head = le_u32(n);
    let body = encode_cards(cards);
    assert(bytes[0] == head[0] && bytes[1] == head[1] && bytes[2] == head[2] && bytes[3]
        == head[3]);
    assert(from_le_u32(head[0], head[1], head[2], head[3]) == n);
    assert(bytes.subrange(4, 4 + body.len() as int) =~= body);
    lemma_decode_cards_at(bytes, 4, cards);
}

/// Writing a deck and reading it back gives the same deck.
pub proof fn lemma_roundtrip(cards: Seq<CardText>)
    requires
        encodable(cards),
    ensures
        decode_deck(encode_deck(cards)) == Some(cards),
{
    lemma_decode_encode(cards, Seq::empty());
    assert(encode_deck(cards) + Seq::<u8>::empty() =~= encode_deck(cards));
}

/// Fewer than four bytes hold no deck.
pub proof fn lemma_decode_short(bytes: Seq<u8>)
    requires
        bytes.len() < 4,
    ensures
        decode_deck(bytes) is None,
{
}

/// A length field that passes the end of the buffer, or announces more
/// bytes than the buffer has left, ends the reading: the deck holds at
/// least one card that cannot be read, so there is no deck.
pub proof fn lemma_decode_out_of_range(bytes: Seq<u8>, pos: int, count: nat)
    requires
        count > 0,
        pos + 2 > bytes.len() || pos + 2 + from_le_u16(bytes[pos], bytes[pos + 1]) > bytes.len(),
    ensures
        decode_text(bytes, pos) is None,
        decode_card(bytes, pos) is None,
        decode_cards(bytes, pos, count) is None,
{
}

/// A text cut short cannot be read: where the buffer ends before the
/// text's binary form does, and holds its beginning, nothing is read.
proof fn lemma_text_cut(bytes: Seq<u8>, pos: int, text: Seq<char>)
    requires
        0 <= pos <= bytes.len(),
        utf8_len(text) <= MAX_TEXT_BYTES,
        bytes.len() < pos + encode_text(text).len(),
        forall|i: int| pos <= i < bytes.len() ==> bytes[i] == encode_text(text)[i - pos],
    ensures
        decode_text(bytes, pos) is None,
{
    let n = utf8_len(text) as int;
    let enc = encode_text(text);
    assert(enc.len() == 2 + n);
    if pos + 2 <= bytes.len() {
        assert(bytes[pos] == enc[0]);
        assert(bytes[pos + 1] == enc[1]);
        assert(from_le_u16(enc[0], enc[1]) == n);
    }
}

/// A card cut short cannot be read.
proof fn lemma_card_cut(bytes: Seq<u8>, pos: int, card: CardText)
    requires
        0 <= pos <= bytes.len(),
        card_fits(card),
        bytes.len() < pos + encode_card(card).len(),
        forall|i: int| pos <= i < bytes.len() ==> bytes[i] == encode_card(card)[i - pos],
    ensures
        decode_card(bytes, pos) is None,
{
    let enc = encode_card(card);
    let front = encode_text(card.front);
    let back = encode_text(card.back);
    let mid = pos + front.len();
    if bytes.len() < mid {
        assert forall|i: int| pos <= i < bytes.len() implies bytes[i] == front[i - pos] by {
            assert(bytes[i] == enc[i - pos]);
        }
        lemma_text_cut(bytes, pos, card.front);
    } else {
        assert(bytes.subrange(pos, mid) =~= front) by {
            assert forall|i: int| 0 <= i < front.len() implies bytes[pos + i] == front[i] by {
                assert(bytes[pos + i] == enc[pos + i - pos]);
            }
        }
        lemma_decode_text_at(bytes, pos, card.front);
        assert forall|i: int| mid <= i < bytes.len() implies bytes[i] == back[i - mid] by {
            assert(bytes[i] == enc[i - pos]);
        }
        lemma_text_cut(bytes, mid, card.back);
    }
}

/// A deck cut short cannot be read: where the buffer ends before the
/// cards' binary form does, and holds its beginning, no deck is read.
proof fn lemma_cards_cut(bytes: Seq<u8>, pos: int, cards: Seq<CardText>)
    requires
        0 <= pos <= bytes.len(),
        forall|i: int| 0 <= i < cards.len() ==> card_fits(#[trigger] cards[i]),
        bytes.len() < pos + encode_cards(cards).len(),
        forall|i: int| pos <= i < bytes.len() ==> bytes[i] == encode_cards(cards)[i - pos],
    ensures
        decode_cards(bytes, pos, cards.len()) is None,
    decreases cards.len(),
{
    if cards.len() == 0 {
        assert(encode_cards(cards).len() == 0);
    } else {
        let card = cards[0];
        let rest = cards.drop_first();
        assert(cards =~= seq![card] + rest);
        lemma_encode_cards_front(card, rest);
        let enc = encode_cards(cards);
        let head = encode_card(card);
        let tail = encode_cards(rest);
        let next = pos + head.len();
        assert(card_fits(card));
        assert(enc == head + tail);
        if bytes.len() < next {
            assert forall|i: int| pos <= i < bytes.len() implies bytes[i] == head[i - pos] by {
                assert(bytes[i] == enc[i - pos]);
            }
            lemma_card_cut(bytes, pos, card);
        } else {
            assert(bytes.subrange(pos, next) =~= head) by {
                assert forall|i: int| 0 <= i < head.len() implies bytes[pos + i] == head[i] by {
                    assert(bytes[pos + i] == enc[pos + i - pos]);
                }
            }
            lemma_decode_card_at(bytes, pos, card);
            assert forall|i: int| 0 <= i < rest.len() implies card_fits(#[trigger] rest[i]) by {
                assert(rest[i] == cards[i + 1]);
            }
            assert forall|i: int| next <= i < bytes.len() implies bytes[i] == tail[i - next] by {
                assert(bytes[i] == enc[i - pos]);
                assert(enc[i - pos] == tail[i - pos - head.len()]);
            }
            lemma_cards_cut(bytes, next, rest);
        }
    }
}

/// What is left of a written deck after its end was cut off holds no
/// deck, wherever the cut falls.
pub proof fn lemma_decode_truncated(cards: Seq<CardText>, keep: int)
    requires
        encodable(cards),
        0 <= keep < encode_deck(cards).len(),
    ensures
        decode_deck(encode_deck(cards).take(keep)) is None,
{
    let full = encode_deck(cards);
    let bytes = full.take(keep);
    if keep >= 4 {
        lemma_encoded_count(cards);
        assert(bytes[0] == full[0] && bytes[1] == full[1] && bytes[2] == full[2] && bytes[3]
            == full[3]);
        assert forall|i: int| 4 <= i < bytes.len() implies bytes[i] == encode_cards(cards)[i
            - 4] by {
            assert(bytes[i] == full[i]);
        }
        lemma_cards_cut(bytes, 4, cards);
    }
}

} // verus!
