//! Small helpers over strings and lists of strings.

use vstd::hash_set::StringHashSet;
use vstd::prelude::*;

verus! {

/// The texts of a list of strings.
pub open spec fn string_views(strings: Seq<String>) -> Seq<Seq<char>> {
    strings.map_values(|s: String| s@)
}

/// Whether two strings hold the same text.
pub fn same_text(a: &str, b: &str) -> (same: bool)
    ensures
        same == (a@ == b@),
{
    a.to_owned() == b.to_owned()
}

/// A copy of a list of strings.
pub fn clone_strings(strings: &Vec<String>) -> (copy: Vec<String>)
    ensures
        string_views(copy@) == string_views(strings@),
{
    let mut copy: Vec<String> = Vec::new();
    let mut i: usize = 0;
    while i < strings.len()
        invariant
            i <= strings@.len(),
            copy@.len() == i,
            forall|j: int| 0 <= j < i ==> copy@[j]@ == strings@[j]@,
        decreases strings@.len() - i,
    {
        copy.push(strings[i].clone());
        i += 1;
    }
    assert(string_views(copy@) =~= string_views(strings@));
    copy
}

/// Whether a list of strings holds a text.
pub fn contains_text(strings: &Vec<String>, text: &str) -> (found: bool)
    ensures
        found == string_views(strings@).contains(text@),
{
    let wanted = text.to_owned();
    let mut i: usize = 0;
    while i < strings.len()
        invariant
            i <= strings@.len(),
            wanted@ == text@,
            forall|j: int| 0 <= j < i ==> string_views(strings@)[j] != text@,
        decreases strings@.len() - i,
    {
        if strings[i] == wanted {
            assert(string_views(strings@)[i as int] == text@);
            return true;
        }
        i += 1;
    }
    false
}

/// The bytes of a slice, copied.
pub fn copy_bytes(bytes: &[u8]) -> (copy: Vec<u8>)
    ensures
        copy@ == bytes@,
{
    let mut copy: Vec<u8> = Vec::new();
    let mut i: usize = 0;
    while i < bytes.len()
        invariant
            i <= bytes@.len(),
            copy@ == bytes@.subrange(0, i as int),
        decreases bytes@.len() - i,
    {
        copy.push(bytes[i]);
        assert(copy@ =~= bytes@.subrange(0, i + 1));
        i += 1;
    }
    assert(bytes@.subrange(0, bytes@.len() as int) =~= bytes@);
    copy
}


/// The characters of a text.
pub fn chars_of(text: &str) -> (chars: Vec<char>)
    ensures
        chars@ == text@,
{
    let mut chars: Vec<char> = Vec::new();
    for c in it: text.chars()
        invariant
            it.seq() == text@,
            chars@ == text@.subrange(0, it.index() as int),
    {
        chars.push(c);
        assert(chars@ =~= text@.subrange(0, it.index() + 1));
    }
    assert(text@.subrange(0, text@.len() as int) =~= text@);
    chars
}


/// Appends one character with `String::push`.
#[verifier::external_body]
pub(crate) fn push_char(text: &mut String, c: char)
    ensures
        final(text)@ == old(text)@.push(c),
{
    text.push(c)
}

/// The characters of `chars` from `from` up to `to`, as a string.
pub fn text_between(chars: &Vec<char>, from: usize, to: usize) -> (text: String)
    requires
        from <= to <= chars@.len(),
    ensures
        text@ == chars@.subrange(from as int, to as int),
{
    let mut text = String::new();
    let mut i: usize = from;
    while i < to
        invariant
            from <= i <= to <= chars@.len(),
            text@ == chars@.subrange(from as int, i as int),
        decreases to - i,
    {
        push_char(&mut text, chars[i]);
        assert(text@ =~= chars@.subrange(from as int, i + 1));
        i += 1;
    }
    text
}

/// The character that stands for a digit.
pub open spec fn digit_char(digit: nat) -> char {
    if digit == 0 {
        '0'
    } else if digit == 1 {
        '1'
    } else if digit == 2 {
        '2'
    } else if digit == 3 {
        '3'
    } else if digit == 4 {
        '4'
    } else if digit == 5 {
        '5'
    } else if digit == 6 {
        '6'
    } else if digit == 7 {
        '7'
    } else if digit == 8 {
        '8'
    } else {
        '9'
    }
}

/// A number written in decimal digits.
pub open spec fn decimal_text(number: nat) -> Seq<char>
    decreases number,
{
    if number < 10 {
        seq![digit_char(number)]
    } else {
        decimal_text(number / 10).push(digit_char(number % 10))
    }
}

fn digit_of(digit: u64) -> (c: char)
    requires
        digit < 10,
    ensures
        c == digit_char(digit as nat),
{
    if digit == 0 {
        '0'
    } else if digit == 1 {
        '1'
    } else if digit == 2 {
        '2'
    } else if digit == 3 {
        '3'
    } else if digit == 4 {
        '4'
    } else if digit == 5 {
        '5'
    } else if digit == 6 {
        '6'
    } else if digit == 7 {
        '7'
    } else if digit == 8 {
        '8'
    } else {
        '9'
    }
}

/// Writes a number in decimal digits.
pub fn decimal(number: u64) -> (text: String)
    ensures
        text@ == decimal_text(number as nat),
    decreases number,
{
    if number < 10 {
        let mut text = String::new();
        push_char(&mut text, digit_of(number));
        assert(text@ =~= seq![digit_char(number as nat)]);
        text
    } else {
        let mut text = decimal(number / 10);
        push_char(&mut text, digit_of(number % 10));
        text
    }
}

/// The last place of a character in a text.
pub open spec fn last_place(text: Seq<char>, c: char) -> Option<int>
    decreases text.len(),
{
    if text.len() == 0 {
        None
    } else if text.last() == c {
        Some(text.len() - 1)
    } else {
        last_place(text.drop_last(), c)
    }
}

/// Finds the last place of a character among characters.
pub fn find_last(chars: &Vec<char>, c: char) -> (place: Option<usize>)
    ensures
        match place {
            Some(i) => last_place(chars@, c) == Some(i as int) && i < chars@.len(),
            None => last_place(chars@, c) is None,
        },
{
    let mut i: usize = chars.len();
    assert(chars@.take(i as int) =~= chars@);
    while i > 0
        invariant
            i <= chars@.len(),
            last_place(chars@, c) == last_place(chars@.take(i as int), c),
        decreases i,
    {
        let ghost front = chars@.take(i as int);
        assert(front.last() == chars@[i - 1]);
        assert(front.drop_last() =~= chars@.take(i - 1));
        if chars[i - 1] == c {
            return Some(i - 1);
        }
        i -= 1;
    }
    None
}

/// The set of the texts of a list of strings.
pub(crate) fn text_set(strings: &Vec<String>) -> (set: StringHashSet)
    ensures
        holds_all(set@, string_views(strings@)),
{
    let mut set = StringHashSet::new();
    let mut i: usize = 0;
    assert(string_views(strings@).take(0) =~= Seq::<Seq<char>>::empty());
    while i < strings.len()
        invariant
            i <= strings@.len(),
            holds_all(set@, string_views(strings@).take(i as int)),
        decreases strings@.len() - i,
    {
        let ghost had = set@;
        let ghost sofar = string_views(strings@).take(i as int);
        set.insert(strings[i].clone());
        proof {
            lemma_holds_one_more(had, sofar, strings@[i as int]@);
            assert(string_views(strings@).take(i + 1) =~= sofar.push(strings@[i as int]@));
        }
        i += 1;
    }
    assert(string_views(strings@).take(strings@.len() as int) =~= string_views(strings@));
    set
}

/// Whether a set holds the items of a list and nothing else.
pub open spec fn holds_all(set: Set<Seq<char>>, list: Seq<Seq<char>>) -> bool {
    forall|x: Seq<char>| set.contains(x) <==> list.contains(x)
}

/// A set that holds a list holds, with one more item, the list with that
/// item at its end.
pub proof fn lemma_holds_one_more(set: Set<Seq<char>>, list: Seq<Seq<char>>, item: Seq<char>)
    requires
        holds_all(set, list),
    ensures
        holds_all(set.insert(item), list.push(item)),
{
    let longer = list.push(item);
    assert forall|x: Seq<char>| set.insert(item).contains(x) <==> longer.contains(x) by {
        if list.contains(x) {
            let k = choose|k: int| 0 <= k < list.len() && list[k] == x;
            assert(longer[k] == x);
        }
        if x == item {
            assert(longer[list.len() as int] == x);
        }
        if longer.contains(x) {
            let k = choose|k: int| 0 <= k < longer.len() && longer[k] == x;
            if k < list.len() {
                assert(list[k] == x);
            }
        }
    }
}

} // verus!
