//! Names for imported decks: a default where the text gave none, and a
//! numbered variant where the name is taken.

use crate::deck::{DeckMeta, DeckMetaText};
use crate::text::{push_char, same_text};
use vstd::prelude::*;
use vstd::relations::injective_on;
use vstd::set_lib::{lemma_int_range, lemma_len_subset, lemma_map_size, set_int_range};
use vstd::string::StringExecFns;

verus! {

/// The character for one decimal digit.
pub open spec fn digit(d: nat) -> char {
    seq!['0', '1', '2', '3', '4', '5', '6', '7', '8', '9'][d as int]
}

/// `n` in decimal, without leading zeros.
pub open spec fn decimal(n: nat) -> Seq<char>
    decreases n,
{
    if n < 10 {
        seq![digit(n)]
    } else {
        decimal(n / 10).push(digit(n % 10))
    }
}

/// The name given to the `n`-th deck that arrives without one.
pub open spec fn default_name(n: nat) -> Seq<char> {
    seq!['I', 'm', 'p', 'o', 'r', 't', 'e', 'd', ' '] + decimal(n)
}

/// `base` with the number `k` behind it in round brackets.
pub open spec fn numbered(base: Seq<char>, k: nat) -> Seq<char> {
    base + seq![' ', '('] + decimal(k) + seq![')']
}

/// The names of the decks listed.
pub open spec fn names_of(decks: Seq<DeckMetaText>) -> Seq<Seq<char>> {
    Seq::new(decks.len(), |i: int| decks[i].name)
}

/// Whether `name` is the name under which a deck called `base` goes in
/// beside the decks `taken`: `base` itself where it is free, else `base`
/// with the least number from 2 on that gives a free name.
pub open spec fn is_unique_name(taken: Seq<Seq<char>>, base: Seq<char>, name: Seq<char>) -> bool {
    if !taken.contains(base) {
        name == base
    } else {
        exists|k: nat|
            {
                &&& 2 <= k
                &&& name == #[trigger] numbered(base, k)
                &&& !taken.contains(name)
                &&& forall|m: nat| 2 <= m < k ==> taken.contains(#[trigger] numbered(base, m))
            }
    }
}

/// The name under which a deck called `base` goes in beside the decks
/// whose names are `taken`.
pub open spec fn unique_name(taken: Seq<Seq<char>>, base: Seq<char>) -> Seq<char> {
    choose|name: Seq<char>| is_unique_name(taken, base, name)
}

/// Writes the digit `d`.
fn digit_char(d: u8) -> (c: char)
    requires
        d < 10,
    ensures
        c == digit(d as nat),
{
    if d == 0 {
        '0'
    } else if d == 1 {
        '1'
    } else if d == 2 {
        '2'
    } else if d == 3 {
        '3'
    } else if d == 4 {
        '4'
    } else if d == 5 {
        '5'
    } else if d == 6 {
        '6'
    } else if d == 7 {
        '7'
    } else if d == 8 {
        '8'
    } else {
        '9'
    }
}

/// Appends `n` in decimal to `text`.
fn push_decimal(text: &mut String, n: u128)
    ensures
        final(text)@ == old(text)@ + decimal(n as nat),
    decreases n,
{
    if n >= 10 {
        push_decimal(text, n / 10);
    }
    push_char(text, digit_char((n % 10) as u8));
    proof {
        if n < 10 {
            assert(old(text)@.push(digit(n as nat)) =~= old(text)@ + decimal(n as nat));
        } else {
            assert((old(text)@ + decimal((n / 10) as nat)).push(digit((n % 10) as nat)) =~= old(
                text,
            )@ + decimal(n as nat));
        }
    }
}

/// The name for the `n`-th deck that arrives without one.
pub fn default_deck_name(n: u128) -> (name: String)
    ensures
        name@ == default_name(n as nat),
{
    proof {
        reveal_strlit("Imported ");
    }
    let mut name = String::from_str("Imported ");
    assert(name@ =~= seq!['I', 'm', 'p', 'o', 'r', 't', 'e', 'd', ' ']);
    push_decimal(&mut name, n);
    name
}

/// `base` with the number `k` behind it in round brackets.
fn numbered_name(base: &str, k: u128) -> (name: String)
    ensures
        name@ == numbered(base@, k as nat),
{
    let mut name = String::from_str(base);
    push_char(&mut name, ' ');
    push_char(&mut name, '(');
    assert(name@ =~= base@ + seq![' ', '(']);
    push_decimal(&mut name, k);
    push_char(&mut name, ')');
    assert(name@ =~= numbered(base@, k as nat));
    name
}

/// Whether one of `decks` is called `name`.
fn is_taken(decks: &[DeckMeta], name: &str) -> (taken: bool)
    ensures
        taken == names_of(decks.deep_view()).contains(name@),
{
    let ghost names = names_of(decks.deep_view());
    let mut i: usize = 0;
    while i < decks.len()
        invariant
            i <= decks@.len(),
            names == names_of(decks.deep_view()),
            forall|j: int| 0 <= j < i ==> names[j] != name@,
        decreases decks@.len() - i,
    {
        if same_text(decks[i].name.as_str(), name) {
            assert(names[i as int] == name@);
            return true;
        }
        i += 1;
    }
    false
}

/// The number that decimal digits stand for.
pub open spec fn decimal_value(digits: Seq<char>) -> nat
    decreases digits.len(),
{
    if digits.len() == 0 {
        0
    } else {
        decimal_value(digits.drop_last()) * 10 + (digits.last() as nat - '0' as nat) as nat
    }
}

/// Reading a number written in decimal gives the number.
pub proof fn lemma_decimal_value(n: nat)
    ensures
        decimal_value(decimal(n)) == n,
    decreases n,
{
    assert(forall|d: nat| d < 10 ==> #[trigger] digit(d) as nat == '0' as nat + d);
    if n < 10 {
        assert(decimal(n).drop_last() =~= Seq::<char>::empty());
        assert(decimal_value(decimal(n).drop_last()) == 0);
    } else {
        lemma_decimal_value(n / 10);
        assert(decimal(n).drop_last() =~= decimal(n / 10));
    }
}

/// Different numbers give different numbered names.
pub proof fn lemma_numbered_differ(base: Seq<char>, a: nat, b: nat)
    requires
        a != b,
    ensures
        numbered(base, a) != numbered(base, b),
{
    let x = numbered(base, a);
    let y = numbered(base, b);
    if x == y {
        let from = base.len() as int + 2;
        assert(x.subrange(from, x.len() - 1) =~= decimal(a));
        assert(y.subrange(from, y.len() - 1) =~= decimal(b));
        lemma_decimal_value(a);
        lemma_decimal_value(b);
    }
}

/// Where every number from 2 up to, but not including, `k` has its
/// numbered name among `taken`, there are at least `k - 2` names.
pub proof fn lemma_taken_bound(taken: Seq<Seq<char>>, base: Seq<char>, k: nat)
    requires
        2 <= k,
        forall|m: nat| 2 <= m < k ==> taken.contains(#[trigger] numbered(base, m)),
    ensures
        k - 2 <= taken.len(),
{
    let range = set_int_range(2, k as int);
    let name_of = |m: int| numbered(base, m as nat);
    let names = range.map(name_of);
    lemma_int_range(2, k as int);
    assert(injective_on(name_of, range)) by {
        assert forall|a: int, b: int|
            range.contains(a) && range.contains(b) && #[trigger] name_of(a) == #[trigger] name_of(
                b,
            ) implies a == b by {
            if a != b {
                lemma_numbered_differ(base, a as nat, b as nat);
            }
        }
    }
    lemma_map_size(range, names, name_of);
    assert(names.subset_of(taken.to_set())) by {
        assert forall|n: Seq<char>| names.contains(n) implies taken.to_set().contains(n) by {
            let m = choose|m: int| range.contains(m) && name_of(m) == n;
            assert(taken.contains(numbered(base, m as nat)));
        }
    }
    taken.lemma_cardinality_of_set();
    vstd::seq_lib::seq_to_set_is_finite(taken);
    lemma_len_subset(names, taken.to_set());
}

/// There is one name only under which a deck goes in.
pub proof fn lemma_unique_name(taken: Seq<Seq<char>>, base: Seq<char>, name: Seq<char>)
    requires
        is_unique_name(taken, base, name),
    ensures
        name == unique_name(taken, base),
{
    let other = unique_name(taken, base);
    assert(is_unique_name(taken, base, other));
    if taken.contains(base) {
        let k = choose|k: nat|
            {
                &&& 2 <= k
                &&& name == #[trigger] numbered(base, k)
                &&& !taken.contains(name)
                &&& forall|m: nat| 2 <= m < k ==> taken.contains(#[trigger] numbered(base, m))
            };
        let j = choose|j: nat|
            {
                &&& 2 <= j
                &&& other == #[trigger] numbered(base, j)
                &&& !taken.contains(other)
                &&& forall|m: nat| 2 <= m < j ==> taken.contains(#[trigger] numbered(base, m))
            };
        if k < j {
            assert(taken.contains(numbered(base, k)));
        }
        if j < k {
            assert(taken.contains(numbered(base, j)));
        }
    }
}

/// The name under which a deck called `base` goes in beside `decks`
/// without taking the place of any: `base` where none has it, else `base`
/// with ` (2)`, ` (3)` and so on behind it, the first that none has.
pub fn unique_deck_name(decks: &[DeckMeta], base: &str) -> (name: String)
    ensures
        is_unique_name(names_of(decks.deep_view()), base@, name@),
        name@ == unique_name(names_of(decks.deep_view()), base@),
        !names_of(decks.deep_view()).contains(name@),
{
    let ghost taken = names_of(decks.deep_view());
    if !is_taken(decks, base) {
        let name = String::from_str(base);
        proof {
            lemma_unique_name(taken, base@, name@);
        }
        return name;
    }
    let count = decks.len();
    let mut k: u128 = 2;
    loop
        invariant
            taken == names_of(decks.deep_view()),
            taken.len() == count,
            taken.contains(base@),
            2 <= k <= taken.len() + 2,
            forall|m: nat| 2 <= m < k ==> taken.contains(#[trigger] numbered(base@, m)),
        decreases taken.len() + 2 - k,
    {
        let name = numbered_name(base, k);
        if !is_taken(decks, name.as_str()) {
            proof {
                assert(name@ == numbered(base@, k as nat));
                lemma_unique_name(taken, base@, name@);
            }
            return name;
        }
        proof {
            assert forall|m: nat| 2 <= m < k + 1 implies taken.contains(
                #[trigger] numbered(base@, m),
            ) by {
                if m == k {
                    assert(numbered(base@, m) == name@);
                }
            }
            lemma_taken_bound(taken, base@, (k + 1) as nat);
        }
        k += 1;
    }
}

/// The least number from `k` on whose numbered name is free, given that
/// those from 2 up to `k` are taken.
proof fn lemma_first_free(taken: Seq<Seq<char>>, base: Seq<char>, k: nat) -> (free: nat)
    requires
        2 <= k,
        forall|m: nat| 2 <= m < k ==> taken.contains(#[trigger] numbered(base, m)),
    ensures
        k <= free,
        !taken.contains(numbered(base, free)),
        forall|m: nat| 2 <= m < free ==> taken.contains(#[trigger] numbered(base, m)),
    decreases taken.len() + 2 - k,
{
    if taken.contains(numbered(base, k)) {
        lemma_taken_bound(taken, base, k + 1);
        lemma_first_free(taken, base, k + 1)
    } else {
        k
    }
}

/// A deck always finds a name, and the name it finds is free: no deck
/// takes the place of another by its name.
pub proof fn lemma_unique_name_is_free(taken: Seq<Seq<char>>, base: Seq<char>)
    ensures
        is_unique_name(taken, base, unique_name(taken, base)),
        !taken.contains(unique_name(taken, base)),
{
    if taken.contains(base) {
        let k = lemma_first_free(taken, base, 2);
        assert(is_unique_name(taken, base, numbered(base, k)));
    } else {
        assert(is_unique_name(taken, base, base));
    }
}

/// A name that no deck has is kept as it is.
pub proof fn lemma_unique_name_kept(taken: Seq<Seq<char>>, base: Seq<char>)
    requires
        !taken.contains(base),
    ensures
        unique_name(taken, base) == base,
{
    lemma_unique_name(taken, base, base);
}

/// A name that a deck has gets the least number from 2 on that makes it
/// free: ` (2)` at the first collision, ` (3)` at the next.
pub proof fn lemma_unique_name_numbered(taken: Seq<Seq<char>>, base: Seq<char>, k: nat)
    requires
        taken.contains(base),
        2 <= k,
        !taken.contains(numbered(base, k)),
        forall|m: nat| 2 <= m < k ==> taken.contains(#[trigger] numbered(base, m)),
    ensures
        unique_name(taken, base) == numbered(base, k),
{
    lemma_unique_name(taken, base, numbered(base, k));
}

} // verus!
