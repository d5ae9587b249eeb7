use flashcards::deck::{deserialize_cards, serialize_cards, Card, EncodeError};

fn card(front: &str, back: &str) -> Card {
    Card { front: front.to_string(), back: back.to_string() }
}

fn pairs(cards: &[Card]) -> Vec<(String, String)> {
    cards.iter().map(|c| (c.front.clone(), c.back.clone())).collect()
}

#[test]
fn empty_deck_is_four_zero_bytes() {
    assert_eq!(serialize_cards(&[]).unwrap(), vec![0u8, 0, 0, 0]);
    assert_eq!(deserialize_cards(&[0, 0, 0, 0]).unwrap().len(), 0);
}

#[test]
fn one_card_has_the_exact_layout() {
    let bytes = serialize_cards(&[card("ab", "c")]).unwrap();
    assert_eq!(bytes, vec![1, 0, 0, 0, 2, 0, b'a', b'b', 1, 0, b'c']);
}

#[test]
fn roundtrip_keeps_the_cards() {
    let deck = vec![card("What is 2+2?", "4"), card("héllo", "wörld ✓"), card("", "")];
    let bytes = serialize_cards(&deck).unwrap();
    let size: usize = 4 + deck.iter().map(|c| 4 + c.front.len() + c.back.len()).sum::<usize>();
    assert_eq!(bytes.len(), size);
    let back = deserialize_cards(&bytes).unwrap();
    assert_eq!(pairs(&back), pairs(&deck));
}

#[test]
fn short_buffers_hold_no_deck() {
    assert!(deserialize_cards(&[]).is_none());
    assert!(deserialize_cards(&[1]).is_none());
    assert!(deserialize_cards(&[1, 0, 0]).is_none());
}

#[test]
fn truncated_buffers_hold_no_deck() {
    let bytes = serialize_cards(&[card("front", "back"), card("x", "y")]).unwrap();
    for cut in 0..bytes.len() {
        assert!(deserialize_cards(&bytes[..cut]).is_none(), "cut at {}", cut);
    }
}

#[test]
fn length_past_the_end_holds_no_deck() {
    assert!(deserialize_cards(&[1, 0, 0, 0, 5, 0, b'a']).is_none());
    assert!(deserialize_cards(&[1, 0, 0, 0, 1, 0, b'a', 0xff, 0xff]).is_none());
    assert!(deserialize_cards(&[0xff, 0xff, 0xff, 0xff]).is_none());
}

#[test]
fn invalid_utf8_holds_no_deck() {
    assert!(deserialize_cards(&[1, 0, 0, 0, 1, 0, 0xff, 1, 0, b'a']).is_none());
    assert!(deserialize_cards(&[1, 0, 0, 0, 1, 0, b'a', 2, 0, 0xc3, 0x28]).is_none());
}

#[test]
fn bytes_after_the_last_card_are_ignored() {
    let mut bytes = serialize_cards(&[card("a", "b")]).unwrap();
    bytes.extend_from_slice(&[9, 9, 9]);
    assert_eq!(pairs(&deserialize_cards(&bytes).unwrap()), pairs(&[card("a", "b")]));
}

#[test]
fn text_of_65535_bytes_is_kept_and_one_more_is_refused() {
    let longest = "x".repeat(65535);
    let deck = vec![card(&longest, "b")];
    let bytes = serialize_cards(&deck).unwrap();
    assert_eq!(&bytes[4..6], &[0xff, 0xff]);
    assert_eq!(pairs(&deserialize_cards(&bytes).unwrap()), pairs(&deck));

    let too_long = "x".repeat(65536);
    let deck = vec![card("ok", "ok"), card("a", &too_long)];
    assert_eq!(serialize_cards(&deck), Err(EncodeError::TextTooLong { index: 1 }));
}

#[test]
fn multi_byte_length_is_little_endian() {
    let text = "y".repeat(0x0102);
    let bytes = serialize_cards(&[card(&text, "z")]).unwrap();
    assert_eq!(&bytes[4..6], &[0x02, 0x01]);
}

fn one_front(raw: &[u8]) -> Option<String> {
    let mut bytes = vec![1, 0, 0, 0, raw.len() as u8, 0];
    bytes.extend_from_slice(raw);
    bytes.extend_from_slice(&[0, 0]);
    deserialize_cards(&bytes).map(|cards| cards[0].front.clone())
}

#[test]
fn only_well_formed_utf8_is_text() {
    assert_eq!(one_front(&[0x41]), Some("A".to_string()));
    assert_eq!(one_front(&[0xc3, 0xa9]), Some("\u{e9}".to_string()));
    assert_eq!(one_front(&[0xe2, 0x9c, 0x93]), Some("\u{2713}".to_string()));
    assert_eq!(one_front(&[0xf4, 0x8f, 0xbf, 0xbf]), Some("\u{10ffff}".to_string()));
    assert_eq!(one_front(&[0xed, 0x9f, 0xbf]), Some("\u{d7ff}".to_string()));
    assert_eq!(one_front(&[0xc0, 0x80]), None);
    assert_eq!(one_front(&[0xc1, 0xbf]), None);
    assert_eq!(one_front(&[0xe0, 0x80, 0x80]), None);
    assert_eq!(one_front(&[0xed, 0xa0, 0x80]), None);
    assert_eq!(one_front(&[0xf0, 0x80, 0x80, 0x80]), None);
    assert_eq!(one_front(&[0xf4, 0x90, 0x80, 0x80]), None);
    assert_eq!(one_front(&[0xf8, 0x88, 0x80, 0x80]), None);
    assert_eq!(one_front(&[0x80]), None);
    assert_eq!(one_front(&[0xe2, 0x9c]), None);
}

#[test]
fn a_count_larger_than_the_cards_held_gives_nothing() {
    let mut bytes = serialize_cards(&[card("a", "b")]).unwrap();
    bytes[0] = 2;
    assert!(deserialize_cards(&bytes).is_none());
    bytes[0] = 0;
    assert_eq!(deserialize_cards(&bytes).unwrap().len(), 0);
}
