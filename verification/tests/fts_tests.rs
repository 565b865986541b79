use costaeres::fts::{
    blank, is_space_char, keys_of_tokens, ngrams, ngrams_of_tokens, preprocess_text, remove_diacritics,
    split_tokens, Fts,
};

#[test]
fn find_ngrams() {
    let res = ngrams("Hello World", 3);
    assert_eq!(res.len(), 21);

    let res = ngrams("https://en.wikipedia.org/wiki/Freediving", 10);
    assert_eq!(res.len(), 325);

    let res = ngrams("0", 5);
    println!("{:?}", res);
    assert_eq!(res.len(), 1);

    let res = ngrams("child #17", 5);
    println!("{:?}", res);
    assert_eq!(res.len(), 21);
}

#[test]
fn ngrams_come_in_order_of_first_occurrence() {
    let res = ngrams("ab ba", 2);
    assert_eq!(res, vec!["a", "b", "ab", "ba"]);
}

#[test]
fn ngrams_of_blank_text_are_none() {
    assert!(ngrams("", 5).is_empty());
    assert!(ngrams(" \t\n", 5).is_empty());
    assert!(ngrams("abc", 0).is_empty());
}

#[test]
fn ngrams_are_cut_by_characters() {
    // Three characters of two bytes each.
    let res = ngrams("\u{3b1}\u{3b2}\u{3b3}", 2);
    assert_eq!(
        res,
        vec!["\u{3b1}", "\u{3b2}", "\u{3b3}", "\u{3b1}\u{3b2}", "\u{3b2}\u{3b3}"]
    );
}

#[test]
fn diacritics_are_removed() {
    assert_eq!(remove_diacritics("Ébène Straße Ça"), "Ebene Strasse Ca");
    assert_eq!(remove_diacritics("plain"), "plain");
    assert_eq!(remove_diacritics("ÀÞÇĎĚƑÌŇÒŘŠŤŮÝŽ"), "ABCDEFINORSTUYZ");
    assert_eq!(remove_diacritics("àþçďěƒìñòřšťůýÿž"), "abcdefinorstuyyz");
}

#[test]
fn text_is_lowered_and_split() {
    assert_eq!(preprocess_text("  Hello   Wörld\tÉtÉ "), vec!["hello", "world", "ete"]);
    assert!(preprocess_text("   ").is_empty());
}

#[test]
fn blank_texts() {
    assert!(blank(""));
    assert!(blank(" \u{a0}\t"));
    assert!(!blank(" a "));
}

#[test]
fn ngrams_of_given_tokens() {
    let words = vec!["abc".to_owned(), "bc".to_owned()];
    assert_eq!(ngrams_of_tokens(&words, 2), vec!["a", "b", "c", "ab", "bc"]);
    assert_eq!(ngrams_of_tokens(&words, 3), vec!["a", "b", "c", "ab", "bc", "abc"]);
    assert_eq!(ngrams_of_tokens(&words, 1), vec!["a", "b", "c"]);
    assert!(ngrams_of_tokens(&words, 0).is_empty());
    assert!(ngrams_of_tokens(&Vec::new(), 5).is_empty());
}

#[test]
fn ngrams_of_tokens_take_the_tokens_as_they_are() {
    // Nothing is lowered, folded or split here.
    let words = vec!["A b".to_owned(), "É".to_owned()];
    assert_eq!(
        ngrams_of_tokens(&words, 2),
        vec!["A", " ", "b", "A ", " b", "É"]
    );
}

#[test]
fn ngrams_are_those_of_the_tokens() {
    let text = "Hello Wörld, hello!";
    assert_eq!(ngrams(text, 4), ngrams_of_tokens(&preprocess_text(text), 4));
}

/// The code points with the property `White_Space`.
fn in_white_space(code: u32) -> bool {
    matches!(
        code,
        0x0009..=0x000D
            | 0x0020
            | 0x0085
            | 0x00A0
            | 0x1680
            | 0x2000..=0x200A
            | 0x2028
            | 0x2029
            | 0x202F
            | 0x205F
            | 0x3000
    )
}

#[test]
fn spaces_are_the_white_space_of_unicode() {
    let mut spaces = 0;
    for code in 0..=0x10FFFFu32 {
        if let Some(c) = char::from_u32(code) {
            let mut text = String::new();
            text.push(c);
            assert_eq!(blank(&text), in_white_space(code), "U+{:04X}", code);
            assert_eq!(blank(&text), c.is_whitespace(), "U+{:04X}", code);
            assert_eq!(is_space_char(c), c.is_whitespace(), "U+{:04X}", code);
            if in_white_space(code) {
                spaces += 1;
            }
        }
    }
    assert_eq!(spaces, 25);
}

#[test]
fn tokens_end_at_every_kind_of_space() {
    assert_eq!(
        preprocess_text("a\u{a0}b\u{2003}c\u{3000}d\u{85}e\u{2028}f"),
        vec!["a", "b", "c", "d", "e", "f"]
    );
    // A zero-width space and a separator of files are no spaces.
    assert_eq!(preprocess_text("a\u{200b}b"), vec!["a\u{200b}b"]);
    assert_eq!(preprocess_text("a\u{1c}b"), vec!["a\u{1c}b"]);
}

#[test]
fn texts_are_split_as_they_stand() {
    assert_eq!(split_tokens("a b"), vec!["a", "b"]);
    assert_eq!(split_tokens("  Hello\t\tWÖRLD \n"), vec!["Hello", "WÖRLD"]);
    assert!(split_tokens("").is_empty());
    assert!(split_tokens(" \u{3000} ").is_empty());
    assert_eq!(split_tokens("one"), vec!["one"]);
}

#[test]
fn keys_are_tokens_cut_short() {
    let words = vec!["abcdefgh".to_owned(), "abc".to_owned(), "abcde".to_owned()];
    assert_eq!(keys_of_tokens(&words, 5), vec!["abcde", "abc", "abcde"]);
    assert_eq!(keys_of_tokens(&words, 2), vec!["ab", "ab", "ab"]);
    assert_eq!(keys_of_tokens(&words, 0), vec!["", "", ""]);
    assert!(keys_of_tokens(&Vec::new(), 5).is_empty());
    // Characters are counted, not bytes.
    let greek = vec!["\u{3b1}\u{3b2}\u{3b3}".to_owned()];
    assert_eq!(keys_of_tokens(&greek, 2), vec!["\u{3b1}\u{3b2}"]);
}

#[test]
fn query_keys_are_those_of_the_tokens() {
    let fts = Fts::new(5);
    let text = "Freediving in Zürich";
    assert_eq!(fts.query_keys(text), keys_of_tokens(&preprocess_text(text), 5));
    assert_eq!(fts.query_keys(text), vec!["freed", "in", "zuric"]);
}
