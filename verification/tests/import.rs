use flashcards::deck::Card;
use flashcards::import::{
    export_tsv, import_bytes, listen_port, next_read, parse_tsv, ReadStep, EXPORT_PORT,
    LISTEN_PORT, MAX_CARDS, MAX_IMPORT_BYTES,
};
use flashcards::text::{is_whitespace, same_text, to_chars};

fn pairs(cards: &[Card]) -> Vec<(String, String)> {
    cards.iter().map(|c| (c.front.clone(), c.back.clone())).collect()
}

fn pair(front: &str, back: &str) -> (String, String) {
    (front.to_string(), back.to_string())
}

#[test]
fn name_and_two_cards() {
    let r = parse_tsv("#name:Foo\na\tb\nc\td\n").unwrap();
    assert_eq!(r.name, Some("Foo".to_string()));
    assert_eq!(pairs(&r.cards), vec![pair("a", "b"), pair("c", "d")]);
}

#[test]
fn text_without_tabs_gives_nothing() {
    assert!(parse_tsv("no tabs here\nstill none\n").is_none());
    assert!(parse_tsv("").is_none());
    assert!(parse_tsv("\n\n\n").is_none());
    assert!(parse_tsv("#name:Only a name\n").is_none());
}

#[test]
fn six_hundred_lines_keep_the_first_five_hundred() {
    let mut text = String::new();
    for i in 0..600 {
        text.push_str(&format!("front {}\tback {}\n", i, i));
    }
    let r = parse_tsv(&text).unwrap();
    assert_eq!(r.cards.len(), 500);
    assert_eq!(MAX_CARDS, 500);
    for i in 0..500 {
        assert_eq!(r.cards[i].front, format!("front {}", i));
        assert_eq!(r.cards[i].back, format!("back {}", i));
    }
    assert_eq!(r.name, None);
}

#[test]
fn a_first_name_after_the_cap_counts_until_the_next_card() {
    let mut text = String::new();
    for i in 0..500 {
        text.push_str(&format!("f{}\tb{}\n", i, i));
    }
    text.push_str("#name:Late\n");
    text.push_str("one\tmore\n");
    text.push_str("#name:Too late\n");
    let r = parse_tsv(&text).unwrap();
    assert_eq!(r.cards.len(), 500);
    assert_eq!(r.name, Some("Late".to_string()));
}

#[test]
fn comments_blank_lines_and_junk_are_passed_over() {
    let text = "# a comment\n\n   \n#name:  My Deck  \nnot a card\n  q1 \t a1  \r\n\tno front\nno back\t\n#x\ty\nq2\ta2\twith tab";
    let r = parse_tsv(text).unwrap();
    assert_eq!(r.name, Some("My Deck".to_string()));
    assert_eq!(pairs(&r.cards), vec![pair("q1", "a1"), pair("q2", "a2\twith tab")]);
}

#[test]
fn the_first_name_line_names_the_deck() {
    let r = parse_tsv("#name:A\n#name:B\nx\ty\n").unwrap();
    assert_eq!(r.name, Some("A".to_string()));
    assert_eq!(pairs(&r.cards), vec![pair("x", "y")]);
    let r = parse_tsv("#name:A\nx\ty\n#name:B\n").unwrap();
    assert_eq!(r.name, Some("A".to_string()));
    let r = parse_tsv("# note\nx\ty\n#name:Late\n#name:Later\n").unwrap();
    assert_eq!(r.name, Some("Late".to_string()));
    let r = parse_tsv("#name:\n#name:B\nx\ty\n").unwrap();
    assert_eq!(r.name, Some(String::new()));
}

fn reference_parse(data: &str) -> Option<(Option<String>, Vec<(String, String)>)> {
    let mut name = None;
    let mut cards = Vec::new();
    for line in data.lines() {
        let line = line.trim();
        if line.is_empty() {
            continue;
        }
        if let Some(n) = line.strip_prefix("#name:") {
            if name.is_none() {
                name = Some(n.trim().to_string());
            }
            continue;
        }
        if line.starts_with('#') {
            continue;
        }
        if let Some((front, back)) = line.split_once('\t') {
            let front = front.trim();
            let back = back.trim();
            if !front.is_empty() && !back.is_empty() {
                if cards.len() >= 500 {
                    break;
                }
                cards.push((front.to_string(), back.to_string()));
            }
        }
    }
    if cards.is_empty() {
        None
    } else {
        Some((name, cards))
    }
}

#[test]
fn agrees_with_the_std_string_functions() {
    let samples = [
        "a\tb",
        "a\tb\r\n",
        "\r\na\tb\r",
        "#name:x\r\n\u{a0}q\u{3000}\t\u{2003}a\u{85}\n",
        "#name\ta\n#name:\t\n \t \nq\t\ta\n",
        "a\u{b}\tb\u{c}\n\u{1680}c\td\u{2028}e\tf\u{2029}\n",
        "é\tü\n日本\t語\n",
        "x\ty\n\n\n#name: n \n",
        "#NAME:x\nq\ta\n",
        "  #name:indented\nq\ta",
    ];
    for s in samples {
        let got = parse_tsv(s).map(|r| (r.name.clone(), pairs(&r.cards)));
        assert_eq!(got, reference_parse(s), "on {:?}", s);
    }
}

#[test]
fn white_space_is_what_std_calls_white_space() {
    let mut c = 0u32;
    while c <= 0x10ffff {
        if let Some(ch) = char::from_u32(c) {
            assert_eq!(is_whitespace(ch), ch.is_whitespace(), "U+{:04X}", c);
        }
        c += 1;
    }
}

#[test]
fn texts_are_read_and_compared_by_their_characters() {
    let s = "héllo ✓ wörld";
    let chars = to_chars(s);
    assert_eq!(chars, s.chars().collect::<Vec<char>>());
    assert!(same_text("abc", "abc"));
    assert!(!same_text("abc", "abd"));
    assert!(!same_text("abc", "ab"));
}

#[test]
fn ports_and_limits() {
    assert_eq!(listen_port(), 7878);
    assert_eq!(LISTEN_PORT, 7878);
    assert_eq!(EXPORT_PORT, 7879);
    assert_eq!(MAX_IMPORT_BYTES, 65536);
}

#[test]
fn import_of_bytes() {
    assert!(import_bytes(&[]).is_none());
    let r = import_bytes(b"#name:Net\nq\ta\n").unwrap();
    assert_eq!(r.name, Some("Net".to_string()));
    assert_eq!(pairs(&r.cards), vec![pair("q", "a")]);
    let r = import_bytes(b"q\xff\ta\n").unwrap();
    assert_eq!(pairs(&r.cards), vec![pair("q\u{fffd}", "a")]);
    assert!(import_bytes(b"nothing useful").is_none());
}

#[test]
fn import_looks_at_the_first_65536_bytes_only() {
    let mut bytes = vec![b'\n'; 65536];
    bytes.extend_from_slice(b"q\ta\n");
    assert!(import_bytes(&bytes).is_none());
    let mut bytes = vec![b'\n'; 65532];
    bytes.extend_from_slice(b"q\tabcdef\n");
    let r = import_bytes(&bytes).unwrap();
    assert_eq!(pairs(&r.cards), vec![pair("q", "ab")]);
}

#[test]
fn reading_stops_at_the_budget() {
    assert_eq!(next_read(0, None), ReadStep::Done { total: 0 });
    assert_eq!(next_read(10, None), ReadStep::Done { total: 10 });
    assert_eq!(next_read(10, Some(0)), ReadStep::Done { total: 10 });
    assert_eq!(next_read(10, Some(5)), ReadStep::More { total: 15 });
    assert_eq!(next_read(65530, Some(5)), ReadStep::More { total: 65535 });
    assert_eq!(next_read(65530, Some(6)), ReadStep::Done { total: 65536 });
    assert_eq!(next_read(65530, Some(usize::MAX)), ReadStep::Done { total: 65536 });
    assert_eq!(next_read(usize::MAX, Some(1)), ReadStep::Done { total: 65536 });
}

#[test]
fn export_writes_what_import_reads() {
    let cards = vec![
        Card { front: "q1".to_string(), back: "a1".to_string() },
        Card { front: "q2".to_string(), back: "a 2".to_string() },
    ];
    let text = export_tsv("My Deck", &cards);
    assert_eq!(text, "#name:My Deck\nq1\ta1\nq2\ta 2\n");
    let r = parse_tsv(&text).unwrap();
    assert_eq!(r.name, Some("My Deck".to_string()));
    assert_eq!(pairs(&r.cards), pairs(&cards));
    assert_eq!(export_tsv("Empty", &[]), "#name:Empty\n");
}

#[test]
fn agrees_with_the_std_string_functions_on_generated_text() {
    let alphabet: Vec<char> = vec![
        'a', 'b', '#', 'n', 'm', 'e', ':', '\t', '\n', '\r', ' ', '\u{a0}', '\u{85}', '\u{2028}',
        '\u{3000}', '\u{b}', '\u{c}', '\u{e9}', '\u{1f600}', '\u{200b}',
    ];
    let mut rng: u64 = 0x2545f4914f6cdd1d;
    for round in 0..3000 {
        let len = (round % 40) + 1;
        let mut text = String::new();
        if round % 3 == 0 {
            text.push_str("#name:");
        }
        for _ in 0..len {
            rng = rng.wrapping_mul(6364136223846793005).wrapping_add(1442695040888963407);
            text.push(alphabet[((rng >> 33) as usize) % alphabet.len()]);
        }
        let got = parse_tsv(&text).map(|r| (r.name.clone(), pairs(&r.cards)));
        assert_eq!(got, reference_parse(&text), "on {:?}", text);
    }
}
