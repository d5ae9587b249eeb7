//! The text of the deck index: the names of the decks, joined by line
//! feeds.

use crate::text::{find_from, find_in_range, lemma_find_from, push_char, to_chars, to_text};
use vstd::prelude::*;
use vstd::string::StringExecFns;

verus! {

/// A name that the index can hold: not empty and on one line.
pub open spec fn is_name(name: Seq<char>) -> bool {
    name.len() > 0 && !name.contains('\n')
}

/// The names in `text` from position `from` on: the non-empty stretches
/// between line feeds, in order.
pub open spec fn split_names(text: Seq<char>, from: int) -> Seq<Seq<char>>
    decreases text.len() + 1 - from,
    via split_names_decreases
{
    if from < 0 || from >= text.len() {
        Seq::empty()
    } else {
        let end = find_from(text, '\n', from);
        let rest = split_names(text, end + 1);
        if end > from {
            seq![text.subrange(from, end)] + rest
        } else {
            rest
        }
    }
}

#[via_fn]
proof fn split_names_decreases(text: Seq<char>, from: int) {
    if 0 <= from < text.len() {
        lemma_find_from(text, '\n', from);
    }
}

/// The names joined by line feeds.
pub open spec fn join_names(names: Seq<Seq<char>>) -> Seq<char>
    decreases names.len(),
{
    if names.len() == 0 {
        Seq::empty()
    } else if names.len() == 1 {
        names[0]
    } else {
        join_names(names.drop_last()) + seq!['\n'] + names.last()
    }
}

/// The names that an index text lists.
pub fn parse_index(text: &str) -> (names: Vec<String>)
    ensures
        names.deep_view() == split_names(text@, 0),
{
    let chars = to_chars(text);
    let n = chars.len();
    let mut names: Vec<String> = Vec::new();
    let mut from: usize = 0;
    assert(names.deep_view() =~= Seq::<Seq<char>>::empty());
    while from < n
        invariant
            chars@ == text@,
            n == chars@.len(),
            from <= n,
            split_names(text@, 0) == names.deep_view() + split_names(text@, from as int),
        decreases n - from,
    {
        let end = find_in_range(chars.as_slice(), '\n', from, n);
        assert(text@.take(n as int) =~= text@);
        let ghost before = names.deep_view();
        let ghost rest = split_names(text@, end as int + 1);
        if end > from {
            let name = to_text(chars.as_slice(), from, end);
            names.push(name);
            assert(names.deep_view() =~= before.push(text@.subrange(from as int, end as int)));
            assert(before + (seq![text@.subrange(from as int, end as int)] + rest)
                =~= names.deep_view() + rest);
        }
        if end < n {
            from = end + 1;
        } else {
            assert(rest =~= Seq::<Seq<char>>::empty());
            assert(split_names(text@, n as int) =~= Seq::<Seq<char>>::empty());
            from = n;
        }
    }
    assert(names.deep_view() + Seq::<Seq<char>>::empty() =~= names.deep_view());
    names
}

/// The index text that lists `names`.
pub fn format_index(names: &[String]) -> (text: String)
    ensures
        text@ == join_names(names.deep_view()),
{
    let ghost all = names.deep_view();
    let mut text = String::new();
    let mut i: usize = 0;
    assert(all.take(0) =~= Seq::<Seq<char>>::empty());
    while i < names.len()
        invariant
            i <= names@.len(),
            all == names.deep_view(),
            text@ == join_names(all.take(i as int)),
        decreases names@.len() - i,
    {
        let ghost done = all.take(i as int);
        let ghost next = all.take(i as int + 1);
        assert(next.drop_last() =~= done);
        assert(next.last() == names@[i as int]@);
        if i > 0 {
            push_char(&mut text, '\n');
        }
        text.append(names[i].as_str());
        proof {
            if i == 0 {
                assert(Seq::<char>::empty() + names@[0]@ =~= names@[0]@);
            }
        }
        i += 1;
    }
    assert(all.take(names@.len() as int) =~= all);
    text
}

/// Whatever an index text lists is a name.
pub proof fn lemma_split_gives_names(text: Seq<char>, from: int)
    ensures
        forall|i: int|
            0 <= i < split_names(text, from).len() ==> is_name(#[trigger] split_names(text, from)[i]),
    decreases text.len() + 1 - from,
{
    if 0 <= from < text.len() {
        let end = find_from(text, '\n', from);
        lemma_find_from(text, '\n', from);
        lemma_split_gives_names(text, end + 1);
        let rest = split_names(text, end + 1);
        if end > from {
            let name = text.subrange(from, end);
            assert(!name.contains('\n')) by {
                if name.contains('\n') {
                    let k = choose|k: int| 0 <= k < name.len() && name[k] == '\n';
                    assert(text[from + k] == '\n');
                }
            }
            assert forall|i: int| 0 <= i < split_names(text, from).len() implies is_name(
                #[trigger] split_names(text, from)[i],
            ) by {
                if i > 0 {
                    assert(split_names(text, from)[i] == rest[i - 1]);
                }
            }
        }
    }
}

/// What a text lists from a position on does not depend on what stands
/// before that position.
proof fn lemma_split_shift(head: Seq<char>, tail: Seq<char>, from: int)
    requires
        0 <= from <= tail.len(),
    ensures
        split_names(head + tail, head.len() + from) == split_names(tail, from),
    decreases tail.len() - from,
{
    let text = head + tail;
    let at = head.len() as int + from;
    if from < tail.len() {
        lemma_find_from(text, '\n', at);
        lemma_find_from(tail, '\n', from);
        let end = find_from(text, '\n', at);
        let end_tail = find_from(tail, '\n', from);
        assert(end == head.len() + end_tail) by {
            if end < head.len() + end_tail {
                assert(tail[end - head.len()] == text[end]);
            }
            if head.len() + end_tail < end {
                assert(tail[end_tail] == text[head.len() + end_tail]);
            }
        }
        assert(text.subrange(at, end) =~= tail.subrange(from, end_tail));
        if end_tail < tail.len() {
            lemma_split_shift(head, tail, end_tail + 1);
        } else {
            assert(split_names(text, end + 1) =~= Seq::<Seq<char>>::empty());
            assert(split_names(tail, end_tail + 1) =~= Seq::<Seq<char>>::empty());
        }
    }
}

/// A text made of two parts with a line feed between them lists what the
/// first part lists, then what the second lists.
pub proof fn lemma_split_concat(head: Seq<char>, tail: Seq<char>, from: int)
    requires
        0 <= from <= head.len(),
    ensures
        split_names(head + seq!['\n'] + tail, from) == split_names(head, from) + split_names(
            tail,
            0,
        ),
    decreases head.len() - from,
{
    let text = head + seq!['\n'] + tail;
    lemma_split_shift(head + seq!['\n'], tail, 0);
    lemma_find_from(text, '\n', from);
    let end = find_from(text, '\n', from);
    assert(text[head.len() as int] == '\n');
    if from == head.len() {
        assert(split_names(head, from) =~= Seq::<Seq<char>>::empty());
        assert(Seq::<Seq<char>>::empty() + split_names(tail, 0) =~= split_names(tail, 0));
    } else {
        lemma_find_from(head, '\n', from);
        let end_head = find_from(head, '\n', from);
        assert(end == end_head) by {
            if end < end_head {
                assert(head[end] == text[end]);
            }
            if end_head < end {
                assert(head[end_head] == text[end_head]);
            }
        }
        assert(text.subrange(from, end) =~= head.subrange(from, end));
        if end < head.len() {
            lemma_split_concat(head, tail, end + 1);
        } else {
            assert(split_names(head, end + 1) =~= Seq::<Seq<char>>::empty());
            assert(Seq::<Seq<char>>::empty() + split_names(tail, 0) =~= split_names(tail, 0));
        }
        let rest = split_names(head, end + 1);
        if end > from {
            assert(seq![head.subrange(from, end)] + (rest + split_names(tail, 0)) =~= (seq![
                head.subrange(from, end),
            ] + rest) + split_names(tail, 0));
        }
    }
}

/// A single name is the one name that its own text lists.
proof fn lemma_split_one(name: Seq<char>)
    requires
        is_name(name),
    ensures
        split_names(name, 0) == seq![name],
{
    lemma_find_from(name, '\n', 0);
    let end = find_from(name, '\n', 0);
    if end < name.len() {
        assert(name.contains('\n'));
    }
    assert(name.subrange(0, end) =~= name);
    assert(split_names(name, end + 1) =~= Seq::<Seq<char>>::empty());
    assert(seq![name] + Seq::<Seq<char>>::empty() =~= seq![name]);
}

/// Reading back an index that was written gives the names that were
/// written, provided each of them is a name.
pub proof fn lemma_split_join(names: Seq<Seq<char>>)
    requires
        forall|i: int| 0 <= i < names.len() ==> is_name(#[trigger] names[i]),
    ensures
        split_names(join_names(names), 0) == names,
    decreases names.len(),
{
    if names.len() == 0 {
        assert(names =~= Seq::<Seq<char>>::empty());
    } else if names.len() == 1 {
        lemma_split_one(names[0]);
        assert(names =~= seq![names[0]]);
    } else {
        let front = names.drop_last();
        assert forall|i: int| 0 <= i < front.len() implies is_name(#[trigger] front[i]) by {
            assert(front[i] == names[i]);
        }
        lemma_split_join(front);
        lemma_split_concat(join_names(front), names.last(), 0);
        lemma_split_one(names.last());
        assert(front + seq![names.last()] =~= names);
    }
}

/// An index written for names and one more text lists the names, then
/// what that text lists.
pub proof fn lemma_split_join_push(names: Seq<Seq<char>>, last: Seq<char>)
    requires
        forall|i: int| 0 <= i < names.len() ==> is_name(#[trigger] names[i]),
    ensures
        split_names(join_names(names.push(last)), 0) == names + split_names(last, 0),
{
    let all = names.push(last);
    assert(all.drop_last() =~= names);
    if names.len() == 0 {
        assert(names + split_names(last, 0) =~= split_names(last, 0));
    } else {
        lemma_split_join(names);
        lemma_split_concat(join_names(names), last, 0);
    }
}

} // verus!
