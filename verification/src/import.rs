//! The text exchange format for decks.
//!
//! A deck travels as lines of text. The first line `#name:<deck name>`
//! names the deck, any other line that starts with `#` is a comment, and
//! a line `<front><TAB><back>` is a card. Blank lines and lines that are
//! none of these are passed over.

use crate::deck::{Card, CardText};
use crate::text::{
    find_from, find_in_range, is_space, lemma_find_from, lemma_find_in_part, lemma_find_is,
    lemma_trim_nothing, push_char, starts_with, to_chars, to_text, trim, trim_range,
};
use vstd::prelude::*;
use vstd::string::StringExecFns;
use vstd::utf8::{decode_utf8, valid_utf8};

verus! {

/// Most bytes one import may carry.
pub const MAX_IMPORT_BYTES: usize = 65536;

/// Most cards one import may yield.
pub const MAX_CARDS: usize = 500;

/// Port on which an import is awaited.
pub const LISTEN_PORT: u16 = 7878;

/// Port to which an export is sent.
pub const EXPORT_PORT: u16 = 7879;

/// What a text yielded: the deck's name, where the text gave one, and at
/// least one card.
#[derive(Clone, Debug)]
pub struct ImportResult {
    pub name: Option<String>,
    pub cards: Vec<Card>,
}

/// The mathematical value of an import.
pub ghost struct ImportText {
    pub name: Option<Seq<char>>,
    pub cards: Seq<CardText>,
}

impl View for ImportResult {
    type V = ImportText;

    open spec fn view(&self) -> ImportText {
        ImportText {
            name: name_view(self.name),
            cards: self.cards.deep_view(),
        }
    }
}

/// The port on which an import is awaited.
pub fn listen_port() -> (port: u16)
    ensures
        port == LISTEN_PORT,
{
    LISTEN_PORT
}

/// The marker that opens the line naming the deck.
pub open spec fn name_marker() -> Seq<char> {
    seq!['#', 'n', 'a', 'm', 'e', ':']
}

/// What one line of the text says.
pub ghost enum Line {
    /// Blank, a comment, or not a card: passed over.
    Skip,
    /// The deck's name.
    Name(Seq<char>),
    /// A card.
    Entry(CardText),
}

/// Reads one line. White space around the line, the name and either side
/// of a card does not count; a card is split at the first tab of the line
/// and needs text on both sides.
pub open spec fn read_line(raw: Seq<char>) -> Line {
    let line = trim(raw);
    if line.len() == 0 {
        Line::Skip
    } else if starts_with(line, name_marker()) {
        Line::Name(trim(line.skip(name_marker().len() as int)))
    } else if line[0] == '#' {
        Line::Skip
    } else {
        let tab = find_from(line, '\t', 0);
        let front = trim(line.take(tab));
        let back = trim(line.skip(tab + 1));
        if tab >= line.len() || front.len() == 0 || back.len() == 0 {
            Line::Skip
        } else {
            Line::Entry(CardText { front, back })
        }
    }
}

/// What has been gathered from the lines read so far. `full` is set by
/// the first card that arrives after `limit` cards were kept: reading
/// stops there.
pub ghost struct Gathered {
    pub name: Option<Seq<char>>,
    pub cards: Seq<CardText>,
    pub full: bool,
}

/// Takes one line into account, keeping at most `limit` cards. The first
/// naming line names the deck; a naming line after it counts as a comment.
pub open spec fn take_line(got: Gathered, line: Line, limit: nat) -> Gathered {
    match line {
        Line::Skip => got,
        Line::Name(name) => if got.name is None {
            Gathered { name: Some(name), ..got }
        } else {
            got
        },
        Line::Entry(card) => if got.cards.len() >= limit {
            Gathered { full: true, ..got }
        } else {
            Gathered { cards: got.cards.push(card), ..got }
        },
    }
}

/// Reads the lines of `text` from position `from` on. Lines end at a line
/// feed; the last line needs none.
pub open spec fn gather(text: Seq<char>, from: int, got: Gathered, limit: nat) -> Gathered
    decreases text.len() + 1 - from,
    via gather_decreases
{
    if got.full || from < 0 || from >= text.len() {
        got
    } else {
        let end = find_from(text, '\n', from);
        gather(text, end + 1, take_line(got, read_line(text.subrange(from, end)), limit), limit)
    }
}

#[via_fn]
proof fn gather_decreases(text: Seq<char>, from: int, got: Gathered, limit: nat) {
    if 0 <= from < text.len() {
        lemma_find_from(text, '\n', from);
    }
}

/// Nothing gathered yet.
pub open spec fn nothing() -> Gathered {
    Gathered { name: None, cards: Seq::empty(), full: false }
}

/// The deck that `text` describes, keeping at most `limit` cards: the
/// cards of its card lines in order, under the name of the first naming
/// line read. A text without a card describes no deck.
pub open spec fn parse_text(text: Seq<char>, limit: nat) -> Option<ImportText> {
    let got = gather(text, 0, nothing(), limit);
    if got.cards.len() == 0 {
        None
    } else {
        Some(ImportText { name: got.name, cards: got.cards })
    }
}

/// One line as read by the parser.
enum TsvLine {
    Skip,
    Name(String),
    Entry(Card),
}

impl View for TsvLine {
    type V = Line;

    closed spec fn view(&self) -> Line {
        match self {
            TsvLine::Skip => Line::Skip,
            TsvLine::Name(name) => Line::Name(name@),
            TsvLine::Entry(card) => Line::Entry(card@),
        }
    }
}

/// Whether `chars[from..to]` begins with the name marker.
fn has_name_marker(chars: &[char], from: usize, to: usize) -> (b: bool)
    requires
        from <= to <= chars@.len(),
    ensures
        b == starts_with(chars@.subrange(from as int, to as int), name_marker()),
{
    let ghost line = chars@.subrange(from as int, to as int);
    if to - from < 6 {
        return false;
    }
    let b = chars[from] == '#' && chars[from + 1] == 'n' && chars[from + 2] == 'a' && chars[from
        + 3] == 'm' && chars[from + 4] == 'e' && chars[from + 5] == ':';
    proof {
        let head = line.take(6);
        if b {
            assert(head =~= name_marker());
        } else {
            assert(head[0] == line[0] && head[1] == line[1] && head[2] == line[2] && head[3]
                == line[3] && head[4] == line[4] && head[5] == line[5]);
        }
    }
    b
}

/// Reads the line `chars[from..end]`.
fn parse_line(chars: &[char], from: usize, end: usize) -> (line: TsvLine)
    requires
        from <= end <= chars@.len(),
    ensures
        line@ == read_line(chars@.subrange(from as int, end as int)),
{
    let (a, b) = trim_range(chars, from, end);
    let ghost text = chars@.subrange(a as int, b as int);
    if a == b {
        return TsvLine::Skip;
    }
    if has_name_marker(chars, a, b) {
        let (x, y) = trim_range(chars, a + 6, b);
        assert(text.skip(6) =~= chars@.subrange(a as int + 6, b as int));
        return TsvLine::Name(to_text(chars, x, y));
    }
    if chars[a] == '#' {
        return TsvLine::Skip;
    }
    let tab = find_in_range(chars, '\t', a, b);
    proof {
        lemma_find_in_part(chars@, '\t', a as int, b as int, a as int);
    }
    if tab >= b {
        return TsvLine::Skip;
    }
    let (fa, fb) = trim_range(chars, a, tab);
    let (ba, bb) = trim_range(chars, tab + 1, b);
    assert(text.take(tab - a) =~= chars@.subrange(a as int, tab as int));
    assert(text.skip(tab - a + 1) =~= chars@.subrange(tab as int + 1, b as int));
    if fa == fb || ba == bb {
        return TsvLine::Skip;
    }
    let front = to_text(chars, fa, fb);
    let back = to_text(chars, ba, bb);
    TsvLine::Entry(Card { front, back })
}

/// Reads a deck from text.
///
/// Gives the deck that the text describes, with at most `MAX_CARDS` cards,
/// and nothing where the text holds no card.
pub fn parse_tsv(data: &str) -> (res: Option<ImportResult>)
    ensures
        match res {
            Some(r) => parse_text(data@, MAX_CARDS as nat) == Some(r@),
            None => parse_text(data@, MAX_CARDS as nat) is None,
        },
        res matches Some(r) ==> 1 <= r.cards@.len() <= MAX_CARDS,
{
    let chars = to_chars(data);
    let n = chars.len();
    let mut name: Option<String> = None;
    let mut cards: Vec<Card> = Vec::new();
    let mut full = false;
    let mut from: usize = 0;
    let ghost text = data@;
    let ghost limit = MAX_CARDS as nat;
    assert(cards.deep_view() =~= Seq::<CardText>::empty());
    while !full && from < n
        invariant
            chars@ == text,
            n == text.len(),
            from <= n,
            cards@.len() <= MAX_CARDS,
            limit == MAX_CARDS,
            gather(text, 0, nothing(), limit) == gather(
                text,
                from as int,
                Gathered { name: name_view(name), cards: cards.deep_view(), full },
                limit,
            ),
        decreases n - from,
    {
        let end = find_in_range(chars.as_slice(), '\n', from, n);
        assert(text.take(n as int) =~= text);
        let ghost got = Gathered { name: name_view(name), cards: cards.deep_view(), full };
        let ghost old_cards = cards.deep_view();
        let line = parse_line(chars.as_slice(), from, end);
        match line {
            TsvLine::Skip => {},
            TsvLine::Name(n) => {
                if name.is_none() {
                    name = Some(n);
                }
            },
            TsvLine::Entry(card) => {
                if cards.len() >= MAX_CARDS {
                    full = true;
                } else {
                    let ghost c = card@;
                    cards.push(card);
                    assert(cards.deep_view() =~= old_cards.push(c));
                }
            },
        }
        let ghost next = Gathered { name: name_view(name), cards: cards.deep_view(), full };
        proof {
            assert(cards.deep_view() =~= old_cards || cards.deep_view() =~= old_cards.push(
                line@->Entry_0,
            ));
            assert(next == take_line(got, line@, limit));
            assert(gather(text, from as int, got, limit) == gather(
                text,
                end as int + 1,
                next,
                limit,
            ));
            if end >= n {
                assert(gather(text, end as int + 1, next, limit) == next);
                assert(gather(text, n as int, next, limit) == next);
            }
        }
        if end < n {
            from = end + 1;
        } else {
            from = n;
        }
    }
    if cards.len() == 0 {
        None
    } else {
        Some(ImportResult { name, cards })
    }
}

/// The characters of a name that may be absent.
pub open spec fn name_view(name: Option<String>) -> Option<Seq<char>> {
    match name {
        Some(n) => Some(n@),
        None => None,
    }
}

/// The text that `String::from_utf8_lossy` makes of `bytes`.
pub uninterp spec fn lossy_text(bytes: Seq<u8>) -> Seq<char>;

/// `String::from_utf8_lossy` of std: the bytes as text, with each
/// ill-formed stretch replaced by U+FFFD. Trusted: that the text depends
/// on the bytes alone, and that well-formed UTF-8 comes out as the
/// characters it encodes.
#[verifier::external_body]
fn text_from_utf8_lossy(bytes: &[u8]) -> (text: String)
    ensures
        text@ == lossy_text(bytes@),
        valid_utf8(bytes@) ==> text@ == decode_utf8(bytes@),
{
    String::from_utf8_lossy(bytes).into_owned()
}

/// The part of what arrived that an import looks at: the first
/// `MAX_IMPORT_BYTES` bytes.
pub open spec fn received(bytes: Seq<u8>) -> Seq<u8> {
    if bytes.len() > MAX_IMPORT_BYTES {
        bytes.take(MAX_IMPORT_BYTES as int)
    } else {
        bytes
    }
}

/// Reads a deck from the bytes that arrived.
///
/// Nothing arrived, nothing imported. Otherwise the first
/// `MAX_IMPORT_BYTES` bytes are taken as text, ill-formed stretches
/// replaced, and read as `parse_tsv` reads text.
pub fn import_bytes(bytes: &[u8]) -> (res: Option<ImportResult>)
    ensures
        bytes@.len() == 0 ==> res is None,
        bytes@.len() > 0 ==> match res {
            Some(r) => parse_text(lossy_text(received(bytes@)), MAX_CARDS as nat) == Some(r@),
            None => parse_text(lossy_text(received(bytes@)), MAX_CARDS as nat) is None,
        },
        res matches Some(r) ==> 1 <= r.cards@.len() <= MAX_CARDS,
{
    let len = bytes.len();
    if len == 0 {
        return None;
    }
    let part = if len > MAX_IMPORT_BYTES {
        vstd::slice::slice_subrange(bytes, 0, MAX_IMPORT_BYTES)
    } else {
        bytes
    };
    assert(part@ =~= received(bytes@));
    let text = text_from_utf8_lossy(part);
    parse_tsv(text.as_str())
}

/// What to do after one attempt to read from the peer.
#[derive(Clone, Copy, Debug, PartialEq, Eq, Structural)]
pub enum ReadStep {
    /// Read again; `total` bytes have arrived.
    More { total: usize },
    /// Stop; `total` bytes have arrived.
    Done { total: usize },
}

/// The step after an attempt to read, `total` bytes having arrived
/// before it. `outcome` is the number of bytes the attempt brought, or
/// nothing where it failed or timed out. Reading stops when the attempt
/// failed, when the peer has closed, and when `MAX_IMPORT_BYTES` bytes
/// have arrived, beyond which nothing is counted.
pub open spec fn read_step(total: usize, outcome: Option<usize>) -> ReadStep {
    match outcome {
        None => ReadStep::Done { total },
        Some(n) => if n == 0 {
            ReadStep::Done { total }
        } else if total + n >= MAX_IMPORT_BYTES {
            ReadStep::Done { total: MAX_IMPORT_BYTES }
        } else {
            ReadStep::More { total: (total + n) as usize }
        },
    }
}

/// Decides what to do after one attempt to read from the peer.
pub fn next_read(total: usize, outcome: Option<usize>) -> (step: ReadStep)
    ensures
        step == read_step(total, outcome),
{
    match outcome {
        None => ReadStep::Done { total },
        Some(n) => {
            if n == 0 {
                ReadStep::Done { total }
            } else if total >= MAX_IMPORT_BYTES || n >= MAX_IMPORT_BYTES - total {
                ReadStep::Done { total: MAX_IMPORT_BYTES }
            } else {
                ReadStep::More { total: total + n }
            }
        },
    }
}

/// One card as a line of text.
pub open spec fn tsv_line(card: CardText) -> Seq<char> {
    card.front + seq!['\t'] + card.back + seq!['\n']
}

/// Cards as lines of text.
pub open spec fn tsv_lines(cards: Seq<CardText>) -> Seq<char>
    decreases cards.len(),
{
    if cards.len() == 0 {
        Seq::empty()
    } else {
        tsv_lines(cards.drop_last()) + tsv_line(cards.last())
    }
}

/// A deck as text: the line that names it, then one line for each card.
pub open spec fn tsv_text(name: Seq<char>, cards: Seq<CardText>) -> Seq<char> {
    name_marker() + name + seq!['\n'] + tsv_lines(cards)
}

/// Writes a deck as text, for sending.
pub fn export_tsv(name: &str, cards: &[Card]) -> (text: String)
    ensures
        text@ == tsv_text(name@, cards.deep_view()),
{
    proof {
        reveal_strlit("#name:");
    }
    let ghost deck = cards.deep_view();
    let mut text = String::from_str("#name:");
    assert(text@ =~= name_marker());
    text.append(name);
    push_char(&mut text, '\n');
    let ghost head = text@;
    assert(head =~= name_marker() + name@ + seq!['\n']);
    assert(deck.take(0) =~= Seq::<CardText>::empty());
    assert(head + Seq::<char>::empty() =~= head);
    let mut i: usize = 0;
    while i < cards.len()
        invariant
            i <= cards@.len(),
            deck == cards.deep_view(),
            text@ == head + tsv_lines(deck.take(i as int)),
        decreases cards@.len() - i,
    {
        let ghost before = text@;
        let ghost next = deck.take(i as int + 1);
        assert(next.drop_last() =~= deck.take(i as int));
        assert(next.last() == cards@[i as int]@);
        text.append(cards[i].front.as_str());
        push_char(&mut text, '\t');
        text.append(cards[i].back.as_str());
        push_char(&mut text, '\n');
        assert(text@ =~= before + tsv_line(cards@[i as int]@));
        assert(head + tsv_lines(deck.take(i as int)) + tsv_line(cards@[i as int]@) =~= head
            + tsv_lines(next));
        i += 1;
    }
    assert(deck.take(cards@.len() as int) =~= deck);
    text
}

/// Once the deck has its name, no line read after changes it: the first
/// naming line names the deck.
pub proof fn lemma_name_kept(text: Seq<char>, from: int, got: Gathered, limit: nat)
    requires
        got.name is Some,
    ensures
        gather(text, from, got, limit).name == got.name,
    decreases text.len() + 1 - from,
{
    if !got.full && 0 <= from < text.len() {
        let end = find_from(text, '\n', from);
        lemma_find_from(text, '\n', from);
        lemma_name_kept(
            text,
            end + 1,
            take_line(got, read_line(text.subrange(from, end)), limit),
            limit,
        );
    }
}

/// The cards of all the card lines of `text` from position `from` on.
pub open spec fn entries(text: Seq<char>, from: int) -> Seq<CardText>
    decreases text.len() + 1 - from,
    via entries_decreases
{
    if from < 0 || from >= text.len() {
        Seq::empty()
    } else {
        let end = find_from(text, '\n', from);
        let rest = entries(text, end + 1);
        match read_line(text.subrange(from, end)) {
            Line::Entry(card) => seq![card] + rest,
            _ => rest,
        }
    }
}

#[via_fn]
proof fn entries_decreases(text: Seq<char>, from: int) {
    if 0 <= from < text.len() {
        lemma_find_from(text, '\n', from);
    }
}

/// The first `n` of `s`, or all of `s` where it has no more.
pub open spec fn first_of<E>(s: Seq<E>, n: nat) -> Seq<E> {
    if n >= s.len() {
        s
    } else {
        s.take(n as int)
    }
}

/// Reading keeps the cards it had and adds those of the card lines in
/// order, until it has `limit` of them.
pub proof fn lemma_gather_cards(text: Seq<char>, from: int, got: Gathered, limit: nat)
    requires
        got.cards.len() <= limit,
        got.full ==> got.cards.len() == limit,
    ensures
        gather(text, from, got, limit).cards == first_of(got.cards + entries(text, from), limit),
    decreases text.len() + 1 - from,
{
    if got.full || from < 0 || from >= text.len() {
        if got.full {
            assert((got.cards + entries(text, from)).take(limit as int) =~= got.cards);
        } else {
            assert(got.cards + entries(text, from) =~= got.cards);
        }
    } else {
        let end = find_from(text, '\n', from);
        lemma_find_from(text, '\n', from);
        let line = read_line(text.subrange(from, end));
        let next = take_line(got, line, limit);
        let rest = entries(text, end + 1);
        lemma_gather_cards(text, end + 1, next, limit);
        match line {
            Line::Entry(card) => {
                if got.cards.len() >= limit {
                    assert((got.cards + (seq![card] + rest)).take(limit as int) =~= got.cards);
                    assert((got.cards + rest).take(limit as int) =~= got.cards);
                } else {
                    assert(got.cards.push(card) + rest =~= got.cards + (seq![card] + rest));
                }
            },
            _ => {},
        }
    }
}

/// Of the cards that a text holds, the first `limit` are kept, in order,
/// and no others.
pub proof fn lemma_parse_keeps_first(text: Seq<char>, limit: nat)
    ensures
        parse_text(text, limit) matches Some(r) ==> r.cards == first_of(entries(text, 0), limit)
            && 1 <= r.cards.len() <= limit,
        parse_text(text, limit) is None <==> entries(text, 0).len() == 0 || limit == 0,
{
    lemma_gather_cards(text, 0, nothing(), limit);
    assert(nothing().cards + entries(text, 0) =~= entries(text, 0));
}

/// A text without white space at either end; an empty text is one.
pub open spec fn is_trimmed(s: Seq<char>) -> bool {
    s.len() > 0 ==> !is_space(s[0]) && !is_space(s.last())
}

/// A name that a text can carry: on one line, without white space at
/// either end.
pub open spec fn is_plain_name(name: Seq<char>) -> bool {
    is_trimmed(name) && !name.contains('\n')
}

/// A card that a text can carry: both sides on one line, not empty and
/// without white space at either end, and a front without a tab that
/// does not start with `#`.
pub open spec fn is_plain_card(card: CardText) -> bool {
    &&& card.front.len() > 0
    &&& card.back.len() > 0
    &&& is_trimmed(card.front)
    &&& is_trimmed(card.back)
    &&& !card.front.contains('\n')
    &&& !card.back.contains('\n')
    &&& !card.front.contains('\t')
    &&& card.front[0] != '#'
}

/// The line that names a deck reads as that name.
proof fn lemma_read_name_line(name: Seq<char>)
    requires
        is_plain_name(name),
    ensures
        read_line(name_marker() + name) == Line::Name(name),
{
    let line = name_marker() + name;
    assert(line[0] == '#');
    assert(line.last() == if name.len() > 0 {
        name.last()
    } else {
        ':'
    });
    lemma_trim_nothing(line);
    assert(line.take(6) =~= name_marker());
    assert(line.skip(6) =~= name);
    lemma_trim_nothing(name);
}

/// The line of a card reads as that card.
proof fn lemma_read_card_line(card: CardText)
    requires
        is_plain_card(card),
    ensures
        read_line(card.front + seq!['\t'] + card.back) == Line::Entry(card),
{
    let line = card.front + seq!['\t'] + card.back;
    let tab = card.front.len() as int;
    assert(line[0] == card.front[0]);
    assert(line.last() == card.back.last());
    lemma_trim_nothing(line);
    assert(!starts_with(line, name_marker())) by {
        if starts_with(line, name_marker()) {
            assert(line.take(6)[0] == '#');
        }
    }
    assert(line[tab] == '\t');
    assert forall|i: int| 0 <= i < tab implies line[i] != '\t' by {
        if line[i] == '\t' {
            assert(card.front[i] == '\t');
        }
    }
    lemma_find_is(line, '\t', 0, tab);
    assert(line.take(tab) =~= card.front);
    assert(line.skip(tab + 1) =~= card.back);
    lemma_trim_nothing(card.front);
    lemma_trim_nothing(card.back);
}

/// Reading from a position on does not depend on what stands before it.
proof fn lemma_gather_shift(head: Seq<char>, tail: Seq<char>, from: int, got: Gathered, limit: nat)
    requires
        0 <= from <= tail.len(),
    ensures
        gather(head + tail, head.len() + from, got, limit) == gather(tail, from, got, limit),
    decreases tail.len() - from,
{
    let text = head + tail;
    let at = head.len() as int + from;
    if !got.full && from < tail.len() {
        lemma_find_from(tail, '\n', from);
        let end_tail = find_from(tail, '\n', from);
        let end = head.len() + end_tail;
        assert forall|i: int| at <= i < end implies text[i] != '\n' by {
            assert(text[i] == tail[i - head.len()]);
        }
        if end < text.len() {
            assert(text[end] == tail[end_tail]);
        }
        lemma_find_is(text, '\n', at, end);
        assert(text.subrange(at, end) =~= tail.subrange(from, end_tail));
        let next = take_line(got, read_line(tail.subrange(from, end_tail)), limit);
        if end_tail < tail.len() {
            lemma_gather_shift(head, tail, end_tail + 1, next, limit);
        }
    }
}

/// Text that follows whole lines is read after them, with what they
/// gave.
proof fn lemma_gather_lines(head: Seq<char>, tail: Seq<char>, from: int, got: Gathered, limit: nat)
    requires
        0 <= from <= head.len(),
        head.len() > 0 ==> head.last() == '\n',
    ensures
        gather(head + tail, from, got, limit) == gather(
            head + tail,
            head.len() as int,
            gather(head, from, got, limit),
            limit,
        ),
    decreases head.len() - from,
{
    let text = head + tail;
    if !got.full && from < head.len() {
        lemma_find_from(head, '\n', from);
        let end = find_from(head, '\n', from);
        assert(end < head.len()) by {
            if end == head.len() {
                assert(head[head.len() - 1] == '\n');
            }
        }
        assert forall|i: int| from <= i < end implies text[i] != '\n' by {
            assert(text[i] == head[i]);
        }
        assert(text[end] == head[end]);
        lemma_find_is(text, '\n', from, end);
        assert(text.subrange(from, end) =~= head.subrange(from, end));
        let next = take_line(got, read_line(head.subrange(from, end)), limit);
        lemma_gather_lines(head, tail, end + 1, next, limit);
    }
}

/// One line read on its own.
proof fn lemma_gather_one(line: Seq<char>, got: Gathered, limit: nat)
    requires
        !line.contains('\n'),
        !got.full,
    ensures
        gather(line + seq!['\n'], 0, got, limit) == take_line(got, read_line(line), limit),
{
    let text = line + seq!['\n'];
    let end = line.len() as int;
    assert(text[end] == '\n');
    assert forall|i: int| 0 <= i < end implies text[i] != '\n' by {
        if text[i] == '\n' {
            assert(line[i] == '\n');
        }
    }
    lemma_find_is(text, '\n', 0, end);
    assert(text.subrange(0, end) =~= line);
    let next = take_line(got, read_line(line), limit);
    assert(gather(text, end + 1, next, limit) == next);
}

/// What reading gives of a text followed by one more line.
proof fn lemma_gather_append(head: Seq<char>, line: Seq<char>, limit: nat)
    requires
        head.len() > 0 ==> head.last() == '\n',
        !line.contains('\n'),
        !gather(head, 0, nothing(), limit).full,
    ensures
        gather(head + (line + seq!['\n']), 0, nothing(), limit) == take_line(
            gather(head, 0, nothing(), limit),
            read_line(line),
            limit,
        ),
{
    let tail = line + seq!['\n'];
    let got = gather(head, 0, nothing(), limit);
    lemma_gather_lines(head, tail, 0, nothing(), limit);
    lemma_gather_shift(head, tail, 0, got, limit);
    lemma_gather_one(line, got, limit);
}

/// What reading gives of a deck written as text: its name and its
/// cards.
proof fn lemma_gather_tsv(name: Seq<char>, cards: Seq<CardText>, limit: nat)
    requires
        is_plain_name(name),
        forall|i: int| 0 <= i < cards.len() ==> is_plain_card(#[trigger] cards[i]),
        cards.len() <= limit,
    ensures
        gather(tsv_text(name, cards), 0, nothing(), limit) == (Gathered {
            name: Some(name),
            cards,
            full: false,
        }),
        tsv_text(name, cards).last() == '\n',
    decreases cards.len(),
{
    let header = name_marker() + name;
    if cards.len() == 0 {
        assert(!header.contains('\n')) by {
            if header.contains('\n') {
                let i = choose|i: int| 0 <= i < header.len() && header[i] == '\n';
                if i >= 6 {
                    assert(name[i - 6] == '\n');
                }
            }
        }
        lemma_gather_one(header, nothing(), limit);
        lemma_read_name_line(name);
        assert(tsv_text(name, cards) =~= header + seq!['\n']);
        assert(cards =~= Seq::<CardText>::empty());
    } else {
        let front = cards.drop_last();
        let card = cards.last();
        let line = card.front + seq!['\t'] + card.back;
        assert forall|i: int| 0 <= i < front.len() implies is_plain_card(#[trigger] front[i]) by {
            assert(front[i] == cards[i]);
        }
        lemma_gather_tsv(name, front, limit);
        assert(is_plain_card(card));
        assert(!line.contains('\n')) by {
            if line.contains('\n') {
                let i = choose|i: int| 0 <= i < line.len() && line[i] == '\n';
                if i < card.front.len() {
                    assert(card.front[i] == '\n');
                } else if i > card.front.len() {
                    assert(card.back[i - card.front.len() - 1] == '\n');
                }
            }
        }
        lemma_gather_append(tsv_text(name, front), line, limit);
        lemma_read_card_line(card);
        assert(tsv_text(name, cards) =~= tsv_text(name, front) + (line + seq!['\n']));
        assert(front.push(card) =~= cards);
    }
}

/// A deck written as text reads back as the same deck under the same
/// name, provided that name and cards are plain and the cards no more
/// than the limit.
pub proof fn lemma_parse_export(name: Seq<char>, cards: Seq<CardText>, limit: nat)
    requires
        is_plain_name(name),
        forall|i: int| 0 <= i < cards.len() ==> is_plain_card(#[trigger] cards[i]),
        1 <= cards.len() <= limit,
    ensures
        parse_text(tsv_text(name, cards), limit) == Some(ImportText { name: Some(name), cards }),
{
    lemma_gather_tsv(name, cards, limit);
}

} // verus!
