//! A naive full-text search: texts are cut into lower-case tokens without
//! diacritics, and every short piece of a token is a key under which the
//! resource can be found.

use crate::common::{IdFrec, ResourceId, ResourceStoreError};
use crate::index::{
    frec_views, has_id, matching_rows, merged, option_view, position, Index, RowModel,
};
use crate::scorer::now_micros;
use crate::strings::{
    chars_of, holds_all, lemma_holds_one_more, push_char, string_views, text_between,
};
use vstd::hash_set::StringHashSet;
use vstd::prelude::*;

verus! {

/// The letter that stands for a letter with a diacritic; any other
/// character stands for itself. The sharp s is not handled here: it becomes
/// two letters.
pub open spec fn fold_letter(c: char) -> char {
    match c {
        'À' | 'Á' | 'Â' | 'Ã' | 'Ä' | 'Å' | 'Æ' => 'A',
        'Þ' => 'B',
        'Ç' | 'Č' => 'C',
        'Ď' | 'Ð' => 'D',
        'Ě' | 'È' | 'É' | 'Ê' | 'Ë' => 'E',
        'Ƒ' => 'F',
        'Ì' | 'Í' | 'Î' | 'Ï' => 'I',
        'Ň' | 'Ñ' => 'N',
        'Ò' | 'Ó' | 'Ô' | 'Õ' | 'Ö' | 'Ø' => 'O',
        'Ř' => 'R',
        'Š' => 'S',
        'Ť' => 'T',
        'Ů' | 'Ù' | 'Ú' | 'Û' | 'Ü' => 'U',
        'Ý' => 'Y',
        'Ž' => 'Z',
        'à' | 'á' | 'â' | 'ã' | 'ä' | 'å' | 'æ' => 'a',
        'þ' => 'b',
        'ç' | 'č' => 'c',
        'ď' | 'ð' => 'd',
        'ě' | 'è' | 'é' | 'ê' | 'ë' => 'e',
        'ƒ' => 'f',
        'ì' | 'í' | 'î' | 'ï' => 'i',
        'ñ' | 'ň' => 'n',
        'ò' | 'ó' | 'ô' | 'õ' | 'ö' | 'ø' => 'o',
        'ř' => 'r',
        'š' => 's',
        'ť' => 't',
        'ů' | 'ù' | 'ú' | 'û' | 'ü' => 'u',
        'ý' | 'ÿ' => 'y',
        'ž' => 'z',
        _ => c,
    }
}

/// What a character becomes when diacritics are removed.
pub open spec fn fold_char(c: char) -> Seq<char> {
    if c == 'ß' {
        seq!['s', 's']
    } else {
        seq![fold_letter(c)]
    }
}

/// A text without its diacritics.
pub open spec fn folded(text: Seq<char>) -> Seq<char>
    decreases text.len(),
{
    if text.len() == 0 {
        Seq::empty()
    } else {
        folded(text.drop_last()) + fold_char(text.last())
    }
}

fn fold_letter_of(c: char) -> (letter: char)
    ensures
        letter == fold_letter(c),
{
    match c {
        'À' | 'Á' | 'Â' | 'Ã' | 'Ä' | 'Å' | 'Æ' => 'A',
        'Þ' => 'B',
        'Ç' | 'Č' => 'C',
        'Ď' | 'Ð' => 'D',
        'Ě' | 'È' | 'É' | 'Ê' | 'Ë' => 'E',
        'Ƒ' => 'F',
        'Ì' | 'Í' | 'Î' | 'Ï' => 'I',
        'Ň' | 'Ñ' => 'N',
        'Ò' | 'Ó' | 'Ô' | 'Õ' | 'Ö' | 'Ø' => 'O',
        'Ř' => 'R',
        'Š' => 'S',
        'Ť' => 'T',
        'Ů' | 'Ù' | 'Ú' | 'Û' | 'Ü' => 'U',
        'Ý' => 'Y',
        'Ž' => 'Z',
        'à' | 'á' | 'â' | 'ã' | 'ä' | 'å' | 'æ' => 'a',
        'þ' => 'b',
        'ç' | 'č' => 'c',
        'ď' | 'ð' => 'd',
        'ě' | 'è' | 'é' | 'ê' | 'ë' => 'e',
        'ƒ' => 'f',
        'ì' | 'í' | 'î' | 'ï' => 'i',
        'ñ' | 'ň' => 'n',
        'ò' | 'ó' | 'ô' | 'õ' | 'ö' | 'ø' => 'o',
        'ř' => 'r',
        'š' => 's',
        'ť' => 't',
        'ů' | 'ù' | 'ú' | 'û' | 'ü' => 'u',
        'ý' | 'ÿ' => 'y',
        'ž' => 'z',
        _ => c,
    }
}

/// Whether a character has the Unicode property `White_Space`: the
/// controls from the tabulation to the carriage return, the space, the next
/// line, the no-break space, the Ogham space mark, the spaces from the en
/// quad to the hair space, the line and the paragraph separator, the narrow
/// no-break space, the medium mathematical space and the ideographic space.
pub open spec fn is_space(c: char) -> bool {
    let code = c as u32;
    ||| 0x0009 <= code <= 0x000D
    ||| code == 0x0020
    ||| code == 0x0085
    ||| code == 0x00A0
    ||| code == 0x1680
    ||| 0x2000 <= code <= 0x200A
    ||| code == 0x2028
    ||| code == 0x2029
    ||| code == 0x202F
    ||| code == 0x205F
    ||| code == 0x3000
}

/// Whether a character has the Unicode property `White_Space`.
pub fn is_space_char(c: char) -> (space: bool)
    ensures
        space == is_space(c),
{
    let code = c as u32;
    (0x0009 <= code && code <= 0x000D) || code == 0x0020 || code == 0x0085 || code == 0x00A0
        || code == 0x1680 || (0x2000 <= code && code <= 0x200A) || code == 0x2028 || code == 0x2029
        || code == 0x202F || code == 0x205F || code == 0x3000
}

/// What `str::to_lowercase` makes of a text: its lower-case form by the
/// Unicode rules.
pub uninterp spec fn lowercase(text: Seq<char>) -> Seq<char>;

pub assume_specification[ str::to_lowercase ](text: &str) -> (lower: String)
    ensures
        lower@ == lowercase(text@),
;

/// Removes the diacritics of a text.
pub fn remove_diacritics(input: &str) -> (output: String)
    ensures
        output@ == folded(input@),
{
    let chars = chars_of(input);
    let mut output = String::new();
    let n = chars.len();
    let mut i: usize = 0;
    while i < n
        invariant
            n == input@.len(),
            chars@ == input@,
            i <= n,
            output@ == folded(input@.subrange(0, i as int)),
        decreases n - i,
    {
        let c = chars[i];
        proof {
            assert(input@.subrange(0, i + 1).drop_last() =~= input@.subrange(0, i as int));
        }
        if c == 'ß' {
            push_char(&mut output, 's');
            push_char(&mut output, 's');
            assert(output@ =~= folded(input@.subrange(0, i as int)) + seq!['s', 's']);
        } else {
            push_char(&mut output, fold_letter_of(c));
            assert(output@ =~= folded(input@.subrange(0, i as int)) + seq![fold_letter(c)]);
        }
        i += 1;
    }
    assert(input@.subrange(0, n as int) =~= input@);
    output
}

/// The number of characters before the first space of a text.
pub open spec fn word_len(text: Seq<char>) -> nat
    decreases text.len(),
{
    if text.len() == 0 || is_space(text[0]) {
        0
    } else {
        1 + word_len(text.drop_first())
    }
}

/// The tokens of a text: its longest runs of characters without a space,
/// in their order.
pub open spec fn tokens(text: Seq<char>) -> Seq<Seq<char>>
    decreases text.len(),
    via tokens_decreases
{
    if text.len() == 0 {
        Seq::empty()
    } else if is_space(text[0]) {
        tokens(text.drop_first())
    } else {
        seq![text.take(word_len(text) as int)] + tokens(text.skip(word_len(text) as int))
    }
}

#[via_fn]
proof fn tokens_decreases(text: Seq<char>) {
    lemma_word_len_bound(text);
}

/// Whether a text holds nothing but spaces.
pub open spec fn is_blank(text: Seq<char>) -> bool {
    forall|i: int| 0 <= i < text.len() ==> is_space(#[trigger] text[i])
}

/// The first word of a text is no longer than the text, and is not empty
/// if the text starts with a character that is no space.
pub proof fn lemma_word_len_bound(text: Seq<char>)
    ensures
        word_len(text) <= text.len(),
        text.len() > 0 && !is_space(text[0]) ==> word_len(text) > 0,
    decreases text.len(),
{
    if text.len() > 0 && !is_space(text[0]) {
        lemma_word_len_bound(text.drop_first());
    }
}

/// A text has no token exactly when it is blank.
pub proof fn lemma_tokens_of_blank(text: Seq<char>)
    ensures
        tokens(text).len() == 0 <==> is_blank(text),
    decreases text.len(),
{
    if text.len() > 0 {
        if is_space(text[0]) {
            let rest = text.drop_first();
            lemma_tokens_of_blank(rest);
            if is_blank(rest) {
                assert forall|i: int| 0 <= i < text.len() implies is_space(#[trigger] text[i]) by {
                    if i > 0 {
                        assert(text[i] == rest[i - 1]);
                    }
                }
            }
            if is_blank(text) {
                assert forall|i: int| 0 <= i < rest.len() implies is_space(#[trigger] rest[i]) by {
                    assert(rest[i] == text[i + 1]);
                }
            }
        }
    }
}

/// Whether a text holds nothing but spaces.
pub fn blank(text: &str) -> (blank: bool)
    ensures
        blank == is_blank(text@),
{
    let chars = chars_of(text);
    let mut i: usize = 0;
    while i < chars.len()
        invariant
            chars@ == text@,
            i <= chars@.len(),
            forall|j: int| 0 <= j < i ==> is_space(#[trigger] text@[j]),
        decreases chars@.len() - i,
    {
        if !is_space_char(chars[i]) {
            return false;
        }
        i += 1;
    }
    true
}

/// The tokens of a text as it stands: nothing is lowered or folded.
pub fn split_tokens(text: &str) -> (words: Vec<String>)
    ensures
        string_views(words@) == tokens(text@),
{
    let chars = chars_of(text);
    let n = chars.len();
    let mut words: Vec<String> = Vec::new();
    let mut i: usize = 0;
    assert(text@.subrange(0, n as int) =~= text@);
    assert(string_views(words@) + tokens(text@.subrange(0, n as int)) =~= tokens(text@));
    while i < n
        invariant
            chars@ == text@,
            n == text@.len(),
            i <= n,
            string_views(words@) + tokens(text@.subrange(i as int, n as int)) == tokens(text@),
        decreases n - i,
    {
        let ghost rest = text@.subrange(i as int, n as int);
        if is_space_char(chars[i]) {
            assert(rest.drop_first() =~= text@.subrange(i + 1, n as int));
            i += 1;
        } else {
            let mut j: usize = i + 1;
            assert(rest.drop_first() =~= text@.subrange(i + 1, n as int));
            while j < n && !is_space_char(chars[j])
                invariant
                    chars@ == text@,
                    n == text@.len(),
                    i < j <= n,
                    word_len(rest) == (j - i) + word_len(text@.subrange(j as int, n as int)),
                decreases n - j,
            {
                assert(text@.subrange(j as int, n as int).drop_first() =~= text@.subrange(
                    j + 1,
                    n as int,
                ));
                j += 1;
            }
            assert(word_len(rest) == j - i);
            let word = text_between(&chars, i, j);
            let ghost before = string_views(words@);
            words.push(word);
            proof {
                assert(rest.take(j - i) =~= text@.subrange(i as int, j as int));
                assert(rest.skip(j - i) =~= text@.subrange(j as int, n as int));
                assert(string_views(words@) =~= before.push(word@));
                assert(string_views(words@) + tokens(text@.subrange(j as int, n as int))
                    =~= before + tokens(rest));
            }
            i = j;
        }
    }
    assert(string_views(words@) + tokens(text@.subrange(n as int, n as int)) =~= string_views(
        words@,
    ));
    words
}

/// The tokens under which a text is indexed and looked up: the tokens of
/// the text in lower case, without diacritics.
pub open spec fn search_tokens(text: Seq<char>) -> Seq<Seq<char>> {
    tokens(lowercase(folded(text)))
}

/// Cuts a text into lower-case tokens without diacritics.
pub fn preprocess_text(text: &str) -> (words: Vec<String>)
    ensures
        string_views(words@) == search_tokens(text@),
{
    let lowered = remove_diacritics(text).as_str().to_lowercase();
    split_tokens(lowered.as_str())
}


/// The pieces of `len` characters of a token, from left to right.
pub open spec fn pieces_of_len(token: Seq<char>, len: int) -> Seq<Seq<char>> {
    Seq::new((token.len() - len + 1) as nat, |pos: int| token.subrange(pos, pos + len))
}

/// The pieces of a token of 1 up to `len` characters, the shorter first.
pub open spec fn pieces_upto(token: Seq<char>, len: nat) -> Seq<Seq<char>>
    decreases len,
{
    if len == 0 {
        Seq::empty()
    } else {
        pieces_upto(token, (len - 1) as nat) + pieces_of_len(token, len as int)
    }
}

/// The longest piece that is cut from a token.
pub open spec fn piece_limit(token: Seq<char>, max: nat) -> nat {
    if token.len() < max {
        token.len()
    } else {
        max
    }
}

/// The pieces of a token of at most `max` characters.
pub open spec fn token_pieces(token: Seq<char>, max: nat) -> Seq<Seq<char>> {
    pieces_upto(token, piece_limit(token, max))
}

/// The pieces of the tokens of a text, token after token.
pub open spec fn text_pieces(tokens: Seq<Seq<char>>, max: nat) -> Seq<Seq<char>>
    decreases tokens.len(),
{
    if tokens.len() == 0 {
        Seq::empty()
    } else {
        text_pieces(tokens.drop_last(), max) + token_pieces(tokens.last(), max)
    }
}

/// A list without the repetitions of its items: each item stands where it
/// first occurs.
pub open spec fn distinct(items: Seq<Seq<char>>) -> Seq<Seq<char>>
    decreases items.len(),
{
    if items.len() == 0 {
        Seq::empty()
    } else if distinct(items.drop_last()).contains(items.last()) {
        distinct(items.drop_last())
    } else {
        distinct(items.drop_last()).push(items.last())
    }
}

/// The n-grams of a text: the distinct pieces of at most `max` characters
/// of its tokens.
pub open spec fn ngrams_of(text: Seq<char>, max: nat) -> Seq<Seq<char>> {
    distinct(text_pieces(search_tokens(text), max))
}

/// A list without repetitions holds what the list holds, once.
pub proof fn lemma_distinct(items: Seq<Seq<char>>)
    ensures
        distinct(items).no_duplicates(),
        forall|x: Seq<char>| distinct(items).contains(x) <==> items.contains(x),
    decreases items.len(),
{
    if items.len() > 0 {
        let front = items.drop_last();
        let last = items.last();
        lemma_distinct(front);
        let d = distinct(front);
        assert forall|x: Seq<char>| distinct(items).contains(x) <==> items.contains(x) by {
            if items.contains(x) {
                let i = choose|i: int| 0 <= i < items.len() && items[i] == x;
                if i < front.len() {
                    assert(front[i] == x);
                    assert(front.contains(x));
                    assert(d.contains(x));
                    let k = choose|k: int| 0 <= k < d.len() && d[k] == x;
                    assert(distinct(items)[k] == x);
                } else {
                    assert(x == last);
                    if !d.contains(last) {
                        assert(distinct(items)[d.len() as int] == last);
                    }
                }
            }
            if distinct(items).contains(x) {
                let k = choose|k: int| 0 <= k < distinct(items).len() && distinct(items)[k] == x;
                if k < d.len() {
                    assert(d[k] == x);
                    assert(front.contains(x));
                    let i = choose|i: int| 0 <= i < front.len() && front[i] == x;
                    assert(items[i] == x);
                } else {
                    assert(items[items.len() - 1] == x);
                }
            }
        }
    }
}

/// The pieces of a token up to a length hold every piece of the token that
/// is no longer.
pub proof fn lemma_pieces_upto_hold(token: Seq<char>, limit: nat, pos: int, len: int)
    requires
        1 <= len <= limit <= token.len(),
        0 <= pos,
        pos + len <= token.len(),
    ensures
        pieces_upto(token, limit).contains(token.subrange(pos, pos + len)),
    decreases limit,
{
    let all = pieces_upto(token, limit);
    let front = pieces_upto(token, (limit - 1) as nat);
    if len == limit {
        assert(all[front.len() + pos] == pieces_of_len(token, len)[pos]);
    } else {
        lemma_pieces_upto_hold(token, (limit - 1) as nat, pos, len);
        let k = choose|k: int| 0 <= k < front.len() && front[k] == token.subrange(pos, pos + len);
        assert(all[k] == front[k]);
    }
}

/// The pieces of the tokens of a text hold the pieces of each token.
pub proof fn lemma_text_pieces_hold(tokens: Seq<Seq<char>>, max: nat, which: int, piece: Seq<char>)
    requires
        0 <= which < tokens.len(),
        token_pieces(tokens[which], max).contains(piece),
    ensures
        text_pieces(tokens, max).contains(piece),
    decreases tokens.len(),
{
    let all = text_pieces(tokens, max);
    let front = text_pieces(tokens.drop_last(), max);
    if which == tokens.len() - 1 {
        let own = token_pieces(tokens.last(), max);
        let k = choose|k: int| 0 <= k < own.len() && own[k] == piece;
        assert(all[front.len() + k] == piece);
    } else {
        assert(tokens.drop_last()[which] == tokens[which]);
        lemma_text_pieces_hold(tokens.drop_last(), max, which, piece);
        let k = choose|k: int| 0 <= k < front.len() && front[k] == piece;
        assert(all[k] == piece);
    }
}

/// Every piece of at most `max` characters of a token of a text is one of
/// the n-grams of the text.
pub proof fn lemma_ngrams_hold_short_pieces(text: Seq<char>, max: nat, which: int, pos: int, len: int)
    requires
        0 <= which < search_tokens(text).len(),
        1 <= len <= max,
        0 <= pos,
        pos + len <= search_tokens(text)[which].len(),
    ensures
        ngrams_of(text, max).contains(search_tokens(text)[which].subrange(pos, pos + len)),
{
    let tokens = search_tokens(text);
    let token = tokens[which];
    let piece = token.subrange(pos, pos + len);
    lemma_pieces_upto_hold(token, piece_limit(token, max), pos, len);
    lemma_text_pieces_hold(tokens, max, which, piece);
    lemma_distinct(text_pieces(tokens, max));
}

/// What a token is looked up by: its first `max` characters.
pub open spec fn lookup_key(token: Seq<char>, max: nat) -> Seq<char> {
    if token.len() > max {
        token.take(max as int)
    } else {
        token
    }
}

/// A token is cut short only to be looked up: the n-grams of a text come
/// from its whole tokens, and the key of each of its tokens is among them.
pub proof fn lemma_lookup_key_is_ngram(text: Seq<char>, max: nat, which: int)
    requires
        0 <= which < search_tokens(text).len(),
        max >= 1,
        search_tokens(text)[which].len() >= 1,
    ensures
        ngrams_of(text, max).contains(lookup_key(search_tokens(text)[which], max)),
{
    let token = search_tokens(text)[which];
    let len = piece_limit(token, max) as int;
    lemma_ngrams_hold_short_pieces(text, max, which, 0, len);
    assert(token.subrange(0, len) =~= lookup_key(token, max));
}

/// The distinct pieces of at most `max_substring_len` characters of some
/// tokens: the pieces of the first token first, the shorter before the
/// longer, and those of one length from left to right.
pub fn ngrams_of_tokens(words: &Vec<String>, max_substring_len: usize) -> (grams: Vec<String>)
    ensures
        string_views(grams@) == distinct(
            text_pieces(string_views(words@), max_substring_len as nat),
        ),
{
    let ghost tokens = string_views(words@);
    let ghost max = max_substring_len as nat;
    let mut grams: Vec<String> = Vec::new();
    let mut seen = StringHashSet::new();
    let ghost mut done: Seq<Seq<char>> = Seq::empty();
    let mut t: usize = 0;
    assert(tokens.subrange(0, 0) =~= Seq::<Seq<char>>::empty());
    while t < words.len()
        invariant
            t <= words@.len(),
            string_views(words@) == tokens,
            max == max_substring_len as nat,
            done == text_pieces(tokens.subrange(0, t as int), max),
            string_views(grams@) == distinct(done),
            holds_all(seen@, string_views(grams@)),
        decreases words@.len() - t,
    {
        let chars = chars_of(words[t].as_str());
        let ghost token = tokens[t as int];
        assert(chars@ == token);
        let n = chars.len();
        let limit = if n < max_substring_len {
            n
        } else {
            max_substring_len
        };
        let ghost base = done;
        let mut shorter: usize = 0;
        assert(base + pieces_upto(token, 0) =~= base);
        while shorter < limit
            invariant
                shorter <= limit <= n,
                limit == piece_limit(token, max),
                n == token.len(),
                chars@ == token,
                done == base + pieces_upto(token, shorter as nat),
                string_views(grams@) == distinct(done),
                holds_all(seen@, string_views(grams@)),
            decreases limit - shorter,
        {
            let len: usize = shorter + 1;
            let ghost start = done;
            let mut pos: usize = 0;
            assert(start + pieces_of_len(token, len as int).subrange(0, 0) =~= start);
            while pos <= n - len
                invariant
                    1 <= len <= n,
                    pos + len <= n + 1,
                    n == token.len(),
                    chars@ == token,
                    done == start + pieces_of_len(token, len as int).subrange(0, pos as int),
                    string_views(grams@) == distinct(done),
                    holds_all(seen@, string_views(grams@)),
                decreases n + 1 - pos,
            {
                let piece = text_between(&chars, pos, pos + len);
                let known = seen.contains(piece.as_str());
                proof {
                    let row = pieces_of_len(token, len as int);
                    assert(row[pos as int] == piece@);
                    assert(start + row.subrange(0, pos + 1) =~= done.push(piece@));
                    assert(done.push(piece@).drop_last() =~= done);
                    done = done.push(piece@);
                }
                if !known {
                    let ghost before = string_views(grams@);
                    let ghost had = seen@;
                    seen.insert(piece.clone());
                    grams.push(piece);
                    proof {
                        assert(string_views(grams@) =~= before.push(piece@));
                        lemma_holds_one_more(had, before, piece@);
                    }
                }
                pos += 1;
            }
            proof {
                let row = pieces_of_len(token, len as int);
                assert(row.subrange(0, pos as int) =~= row);
                assert(start + row =~= base + pieces_upto(token, len as nat));
            }
            shorter += 1;
        }
        proof {
            let upto = tokens.subrange(0, t + 1);
            assert(upto.drop_last() =~= tokens.subrange(0, t as int));
            assert(upto.last() == token);
        }
        t += 1;
    }
    assert(tokens.subrange(0, words@.len() as int) =~= tokens);
    grams
}

/// Returns the list of pieces that will match the given text: the distinct
/// pieces of at most `max_substring_len` characters of its tokens.
pub fn ngrams(text: &str, max_substring_len: usize) -> (grams: Vec<String>)
    ensures
        string_views(grams@) == ngrams_of(text@, max_substring_len as nat),
{
    let words = preprocess_text(text);
    ngrams_of_tokens(&words, max_substring_len)
}


/// The keys by which some tokens are looked up.
pub open spec fn token_keys(tokens: Seq<Seq<char>>, max: nat) -> Seq<Seq<char>> {
    tokens.map_values(|token: Seq<char>| lookup_key(token, max))
}

/// The keys by which the tokens of a query are looked up.
pub open spec fn lookup_keys(text: Seq<char>, max: nat) -> Seq<Seq<char>> {
    token_keys(search_tokens(text), max)
}

/// The keys by which some tokens are looked up: each token, cut after
/// `max_substring_len` characters.
pub fn keys_of_tokens(words: &Vec<String>, max_substring_len: usize) -> (keys: Vec<String>)
    ensures
        string_views(keys@) == token_keys(string_views(words@), max_substring_len as nat),
{
    let mut keys: Vec<String> = Vec::new();
    let mut i: usize = 0;
    while i < words.len()
        invariant
            i <= words@.len(),
            keys@.len() == i,
            forall|j: int|
                0 <= j < i ==> (#[trigger] keys@[j])@ == lookup_key(
                    words@[j]@,
                    max_substring_len as nat,
                ),
        decreases words@.len() - i,
    {
        let chars = chars_of(words[i].as_str());
        if chars.len() > max_substring_len {
            keys.push(text_between(&chars, 0, max_substring_len));
        } else {
            keys.push(words[i].clone());
        }
        i += 1;
    }
    assert(string_views(keys@) =~= token_keys(string_views(words@), max_substring_len as nat));
    keys
}

/// The rows of an index after a text was indexed for the resource at a
/// place.
pub open spec fn rows_with_text(rows: Seq<RowModel>, place: int, text: Seq<char>, max: nat) -> Seq<
    RowModel,
> {
    rows.update(
        place,
        RowModel { ngrams: merged(rows[place].ngrams, ngrams_of(text, max)), ..rows[place] },
    )
}

/// What a search finds in an index at the instant `now`: the resources
/// that have the key of each token of the query among their n-grams and,
/// if one is asked for, a tag, by frecency, the highest first.
pub open spec fn search_result(
    rows: Seq<RowModel>,
    text: Seq<char>,
    tag: Option<Seq<char>>,
    max: nat,
    now: i64,
) -> Seq<(Seq<char>, u32)> {
    matching_rows(rows, lookup_keys(text, max), tag, now)
}

/// The text of an optional string.
pub open spec fn tag_view(tag: Option<String>) -> Option<Seq<char>> {
    match tag {
        Some(t) => Some(t@),
        None => None,
    }
}

/// The full-text search over an index.
pub struct Fts {
    max_substring_len: usize,
}

impl Fts {
    /// The length of the longest piece that is indexed.
    pub closed spec fn max_len(&self) -> nat {
        self.max_substring_len as nat
    }

    pub fn new(max_substring_len: usize) -> (fts: Self)
        ensures
            fts.max_len() == max_substring_len,
    {
        Fts { max_substring_len }
    }

    /// Indexes a text for a resource: the n-grams of the text that the
    /// resource does not have yet join its n-grams.
    pub fn add_text(&self, id: &ResourceId, text: &str, tx: &mut Index) -> (done: Result<
        (),
        ResourceStoreError,
    >)
        requires
            old(tx).wf(),
        ensures
            final(tx).wf(),
            match done {
                Ok(_) => has_id(old(tx)@, id@) && final(tx)@ == rows_with_text(
                    old(tx)@,
                    position(old(tx)@, id@),
                    text@,
                    self.max_len(),
                ),
                Err(error) => !has_id(old(tx)@, id@) && error is NoSuchResource && final(tx)@
                    == old(tx)@,
            },
    {
        match tx.find(id) {
            Some(place) => {
                let grams = ngrams(text, self.max_substring_len);
                tx.add_ngrams(place, &grams);
                Ok(())
            },
            None => Err(ResourceStoreError::NoSuchResource),
        }
    }

    /// The keys by which the tokens of a query are looked up: each token,
    /// cut after the longest length that is indexed.
    pub fn query_keys(&self, text: &str) -> (keys: Vec<String>)
        ensures
            string_views(keys@) == lookup_keys(text@, self.max_len()),
    {
        let words = preprocess_text(text);
        keys_of_tokens(&words, self.max_substring_len)
    }

    /// The resources that match every token of a query and, if one is
    /// given, a tag, by frecency as seen at `now`, the highest first.
    pub fn search_at(&self, text: &str, tag: Option<&str>, index: &Index, now: i64) -> (found: Vec<
        IdFrec,
    >)
        ensures
            frec_views(found@) == search_result(
                index@,
                text@,
                option_view(tag),
                self.max_len(),
                now,
            ),
    {
        let keys = self.query_keys(text);
        index.search(&keys, tag, now)
    }

    /// The resources that match every token of a query and, if one is
    /// given, a tag, by frecency as seen at the time of the call, the
    /// highest first.
    pub fn search(&self, text: &str, tag: Option<String>, index: &Index) -> (found: Result<
        Vec<IdFrec>,
        ResourceStoreError,
    >)
        ensures
            found matches Ok(pairs) && exists|now: i64|
                frec_views(pairs@) == #[trigger] search_result(
                    index@,
                    text@,
                    tag_view(tag),
                    self.max_len(),
                    now,
                ),
    {
        let now = now_micros();
        let pairs = match &tag {
            Some(t) => self.search_at(text, Some(t.as_str()), index, now),
            None => self.search_at(text, None, index, now),
        };
        assert(frec_views(pairs@) == search_result(
            index@,
            text@,
            tag_view(tag),
            self.max_len(),
            now,
        ));
        Ok(pairs)
    }
}

} // verus!
