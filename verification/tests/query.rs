use tree_worm::query::{
    build_fuzzy_queries, classify, fuzzy_queries, quoted_phrase, text_of, trim, CharClass,
};

fn queries(text: &str) -> (String, String) {
    build_fuzzy_queries(text)
}

fn pair(every: &str, any: &str) -> (String, String) {
    (every.to_string(), any.to_string())
}

#[test]
fn two_words_are_joined_both_ways() {
    assert_eq!(
        queries("auth middleware"),
        pair("auth* AND middleware*", "auth* OR middleware*")
    );
    assert_eq!(queries("a b c"), pair("a* AND b* AND c*", "a* OR b* OR c*"));
}

#[test]
fn one_word_asks_the_same_twice() {
    assert_eq!(queries("calculateTotal"), pair("calculateTotal*", "calculateTotal*"));
}

#[test]
fn no_words_give_empty_queries() {
    assert_eq!(queries(""), pair("", ""));
    assert_eq!(queries("  \t\n "), pair("", ""));
    assert_eq!(queries("!? \"' *"), pair("", ""));
}

#[test]
fn special_characters_are_left_out_of_words() {
    assert_eq!(queries("foo(bar) \"baz\""), pair("foobar* AND baz*", "foobar* OR baz*"));
    assert_eq!(queries("my_func* - x"), pair("my_func* AND x*", "my_func* OR x*"));
    assert_eq!(queries("\u{e9}t\u{e9}\u{a0}\u{65e5}1"), pair(
        "\u{e9}t\u{e9}* AND \u{65e5}1*",
        "\u{e9}t\u{e9}* OR \u{65e5}1*"
    ));
}

#[test]
fn characters_are_classified() {
    let found = classify("a_ 1-\u{3000}");
    assert_eq!(
        found,
        vec![
            ('a', CharClass::Word),
            ('_', CharClass::Word),
            (' ', CharClass::Space),
            ('1', CharClass::Word),
            ('-', CharClass::Other),
            ('\u{3000}', CharClass::Space),
        ]
    );
}

#[test]
fn queries_follow_the_classes_that_are_given() {
    let query = [
        ('x', CharClass::Other),
        ('y', CharClass::Word),
        ('z', CharClass::Space),
        (' ', CharClass::Word),
    ];
    assert_eq!(fuzzy_queries(&query), pair("y* AND  *", "y* OR  *"));
}

#[test]
fn white_space_around_a_query_is_trimmed() {
    assert_eq!(text_of(&trim(&classify(" \t auth  x \n"))), "auth  x");
    assert_eq!(text_of(&trim(&classify("auth"))), "auth");
    assert_eq!(text_of(&trim(&classify(" \n "))), "");
}

#[test]
fn phrases_are_quoted() {
    assert_eq!(quoted_phrase("Middleware"), "\"Middleware\"");
    assert_eq!(quoted_phrase("say \"hi\""), "\"say \"\"hi\"\"\"");
    assert_eq!(quoted_phrase(""), "\"\"");
}

#[test]
fn white_space_is_that_of_unicode() {
    let mut found = vec![];
    for code in 0..=0x10ffff {
        if let Some(c) = char::from_u32(code) {
            if classify(&c.to_string())[0].1 == CharClass::Space {
                found.push(code);
            }
        }
    }
    let mut expected: Vec<u32> = (0x9..=0xd).collect();
    expected.extend([0x20, 0x85, 0xa0, 0x1680]);
    expected.extend(0x2000..=0x200a);
    expected.extend([0x2028, 0x2029, 0x202f, 0x205f, 0x3000]);
    assert_eq!(expected.len(), 25);
    assert_eq!(found, expected);
}

#[test]
fn words_of_joined_texts_are_those_of_both() {
    assert_eq!(queries("a-1 b"), pair("a1* AND b*", "a1* OR b*"));
    assert_eq!(queries(" c\t"), pair("c*", "c*"));
    assert_eq!(queries("a-1 b\n c\t"), pair("a1* AND b* AND c*", "a1* OR b* OR c*"));
    assert_eq!(queries("- c"), pair("c*", "c*"));
}
