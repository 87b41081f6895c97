//! Full-text queries: turns what a user types into the queries that the search index takes.

use vstd::prelude::*;

use crate::text;

verus! {

/// What a character of a query counts as.
#[derive(Debug, Clone, Copy, PartialEq, Eq, Structural)]
pub enum CharClass {
    /// White space: separates words.
    Space,
    /// A letter, a digit or an underscore: part of a word.
    Word,
    /// Anything else: left out of words.
    Other,
}

/// A character with its class.
pub type Classified = (char, CharClass);

/// Whether a character has the Unicode property `White_Space`.
pub open spec fn is_white_space(c: char) -> bool {
    ||| '\u{9}' <= c <= '\u{d}'
    ||| c == ' '
    ||| c == '\u{85}'
    ||| c == '\u{a0}'
    ||| c == '\u{1680}'
    ||| '\u{2000}' <= c <= '\u{200a}'
    ||| c == '\u{2028}'
    ||| c == '\u{2029}'
    ||| c == '\u{202f}'
    ||| c == '\u{205f}'
    ||| c == '\u{3000}'
}

/// Whether `char::is_alphanumeric` holds of a character.
pub uninterp spec fn char_is_alphanumeric(c: char) -> bool;

/// `char::is_whitespace`: whether the character has the Unicode property `White_Space`, which
/// the Unicode Character Database gives to the characters of `is_white_space`.
pub assume_specification[ char::is_whitespace ](c: char) -> (whitespace: bool)
    ensures
        whitespace == is_white_space(c),
;

/// `char::is_alphanumeric`: whether Unicode counts the character as alphabetic or numeric.
pub assume_specification[ char::is_alphanumeric ](c: char) -> (alphanumeric: bool)
    ensures
        alphanumeric == char_is_alphanumeric(c),
;

/// The class of a character.
pub open spec fn class_of(c: char) -> CharClass {
    if is_white_space(c) {
        CharClass::Space
    } else if char_is_alphanumeric(c) || c == '_' {
        CharClass::Word
    } else {
        CharClass::Other
    }
}

/// The characters of a text, with their classes.
pub open spec fn classes_of(text: Seq<char>) -> Seq<Classified> {
    text.map_values(|c: char| (c, class_of(c)))
}

/// The characters without their classes.
pub open spec fn chars_only(query: Seq<Classified>) -> Seq<char> {
    query.map_values(|c: Classified| c.0)
}

/// A query without the white space before it.
pub open spec fn without_leading_space(query: Seq<Classified>) -> Seq<Classified>
    decreases query.len(),
{
    if query.len() > 0 && query.first().1 is Space {
        without_leading_space(query.drop_first())
    } else {
        query
    }
}

/// A query without the white space after it.
pub open spec fn without_trailing_space(query: Seq<Classified>) -> Seq<Classified>
    decreases query.len(),
{
    if query.len() > 0 && query.last().1 is Space {
        without_trailing_space(query.drop_last())
    } else {
        query
    }
}

/// A query without the white space around it.
pub open spec fn trimmed(query: Seq<Classified>) -> Seq<Classified> {
    without_trailing_space(without_leading_space(query))
}

/// The word that a query ends in: the word characters after the last white space.
pub open spec fn last_word(query: Seq<Classified>) -> Seq<char>
    decreases query.len(),
{
    if query.len() == 0 {
        Seq::empty()
    } else {
        match query.last().1 {
            CharClass::Space => Seq::empty(),
            CharClass::Word => last_word(query.drop_last()).push(query.last().0),
            CharClass::Other => last_word(query.drop_last()),
        }
    }
}

/// The words of a query that white space follows. Between two pieces of white space there is
/// one word, made of the word characters there, or none if there are none.
pub open spec fn closed_words(query: Seq<Classified>) -> Seq<Seq<char>>
    decreases query.len(),
{
    if query.len() == 0 {
        Seq::empty()
    } else if query.last().1 is Space && last_word(query.drop_last()).len() > 0 {
        closed_words(query.drop_last()).push(last_word(query.drop_last()))
    } else {
        closed_words(query.drop_last())
    }
}

/// The words of a query.
pub open spec fn words(query: Seq<Classified>) -> Seq<Seq<char>> {
    if last_word(query).len() > 0 {
        closed_words(query).push(last_word(query))
    } else {
        closed_words(query)
    }
}

/// The terms of a query: each of its words, as a prefix to match.
pub open spec fn terms(query: Seq<Classified>) -> Seq<Seq<char>> {
    words(query).map_values(|word: Seq<char>| word.push('*'))
}

/// Texts, one after the other, with a separator between them.
pub open spec fn joined(parts: Seq<Seq<char>>, separator: Seq<char>) -> Seq<char>
    decreases parts.len(),
{
    if parts.len() == 0 {
        Seq::empty()
    } else if parts.len() == 1 {
        parts[0]
    } else {
        joined(parts.drop_last(), separator) + separator + parts.last()
    }
}

/// The query that every word has to match.
pub open spec fn and_query(query: Seq<Classified>) -> Seq<char> {
    joined(terms(query), " AND "@)
}

/// The query that any word has to match.
pub open spec fn or_query(query: Seq<Classified>) -> Seq<char> {
    joined(terms(query), " OR "@)
}

/// The characters of a text, with their classes.
pub fn classify(text: &str) -> (query: Vec<Classified>)
    ensures
        query@ == classes_of(text@),
{
    let chars = text::chars_of(text);
    let mut query: Vec<Classified> = Vec::new();
    let mut i: usize = 0;
    while i < chars.len()
        invariant
            0 <= i <= chars.len(),
            chars@ == text@,
            query@ == classes_of(text@.take(i as int)),
        decreases chars.len() - i,
    {
        let c = chars[i];
        let class = if c.is_whitespace() {
            CharClass::Space
        } else if c.is_alphanumeric() || c == '_' {
            CharClass::Word
        } else {
            CharClass::Other
        };
        query.push((c, class));
        assert(query@ =~= classes_of(text@.take(i as int + 1)));
        i += 1;
    }
    assert(text@.take(i as int) =~= text@);
    query
}

/// Removes the white space around a query.
pub fn trim(query: &[Classified]) -> (rest: Vec<Classified>)
    ensures
        rest@ == trimmed(query@),
{
    let mut start: usize = 0;
    assert(query@.subrange(0, query@.len() as int) =~= query@);
    while start < query.len() && query[start].1 == CharClass::Space
        invariant
            0 <= start <= query.len(),
            without_leading_space(query@.subrange(start as int, query@.len() as int))
                == without_leading_space(query@),
        decreases query.len() - start,
    {
        assert(query@.subrange(start as int, query@.len() as int).drop_first() =~= query@.subrange(
            start as int + 1,
            query@.len() as int,
        ));
        start += 1;
    }
    let ghost rest_of_query = query@.subrange(start as int, query@.len() as int);
    let mut end: usize = query.len();
    while start < end && query[end - 1].1 == CharClass::Space
        invariant
            start <= end <= query.len(),
            without_trailing_space(query@.subrange(start as int, end as int))
                == without_trailing_space(rest_of_query),
        decreases end,
    {
        assert(query@.subrange(start as int, end as int).drop_last() =~= query@.subrange(
            start as int,
            end as int - 1,
        ));
        end -= 1;
    }
    let mut rest: Vec<Classified> = Vec::new();
    let mut i: usize = start;
    while i < end
        invariant
            start <= i <= end <= query.len(),
            rest@ == query@.subrange(start as int, i as int),
        decreases end - i,
    {
        rest.push(query[i]);
        assert(query@.subrange(start as int, i as int + 1) =~= query@.subrange(
            start as int,
            i as int,
        ).push(query@[i as int]));
        i += 1;
    }
    rest
}

/// The text of a query.
pub fn text_of(query: &[Classified]) -> (text: String)
    ensures
        text@ == chars_only(query@),
{
    let mut text = String::new();
    let mut i: usize = 0;
    assert(text@ =~= chars_only(query@.take(0)));
    while i < query.len()
        invariant
            0 <= i <= query.len(),
            text@ == chars_only(query@.take(i as int)),
        decreases query.len() - i,
    {
        text.push(query[i].0);
        assert(text@ =~= chars_only(query@.take(i as int + 1)));
        i += 1;
    }
    assert(query@.take(i as int) =~= query@);
    text
}

/// The words of a query, each as a prefix to match.
fn query_terms(query: &[Classified]) -> (found: Vec<String>)
    ensures
        found.len() == terms(query@).len(),
        forall|i: int| 0 <= i < found.len() ==> (#[trigger] found[i])@ == terms(query@)[i],
{
    let mut found: Vec<String> = Vec::new();
    let mut word = String::new();
    let mut i: usize = 0;
    while i < query.len()
        invariant
            0 <= i <= query.len(),
            word@ == last_word(query@.take(i as int)),
            found.len() == closed_words(query@.take(i as int)).len(),
            forall|k: int|
                0 <= k < found.len() ==> (#[trigger] found[k])@ == closed_words(
                    query@.take(i as int),
                )[k].push('*'),
        decreases query.len() - i,
    {
        let (c, class) = query[i];
        assert(query@.take(i as int + 1).drop_last() =~= query@.take(i as int));
        match class {
            CharClass::Space => {
                if !word.as_str().is_empty() {
                    word.push('*');
                    found.push(word);
                    word = String::new();
                }
            },
            CharClass::Word => {
                word.push(c);
            },
            CharClass::Other => {},
        }
        i += 1;
    }
    assert(query@.take(i as int) =~= query@);
    if !word.as_str().is_empty() {
        word.push('*');
        found.push(word);
    }
    found
}

/// Joins texts with a separator between them.
fn join(parts: &Vec<String>, separator: &str) -> (text: String)
    ensures
        text@ == joined(parts@.map_values(|part: String| part@), separator@),
{
    let ghost views = parts@.map_values(|part: String| part@);
    let mut text = String::new();
    let mut i: usize = 0;
    while i < parts.len()
        invariant
            0 <= i <= parts.len(),
            views == parts@.map_values(|part: String| part@),
            text@ == joined(views.take(i as int), separator@),
        decreases parts.len() - i,
    {
        if i > 0 {
            text.append(separator);
        }
        text.append(parts[i].as_str());
        assert(views.take(i as int + 1).drop_last() =~= views.take(i as int));
        assert(text@ =~= joined(views.take(i as int + 1), separator@));
        i += 1;
    }
    assert(views.take(i as int) =~= views);
    text
}

/// The queries for the words of a query: one that every word has to match, and one that any
/// word has to match. Both are empty where there are no words.
pub fn fuzzy_queries(query: &[Classified]) -> (queries: (String, String))
    ensures
        queries.0@ == and_query(query@),
        queries.1@ == or_query(query@),
{
    let found = query_terms(query);
    assert(found@.map_values(|part: String| part@) =~= terms(query@));
    (join(&found, " AND "), join(&found, " OR "))
}

/// The queries for what a user typed: `auth middleware` gives `auth* AND middleware*` and
/// `auth* OR middleware*`.
pub fn build_fuzzy_queries(query: &str) -> (queries: (String, String))
    ensures
        queries.0@ == and_query(classes_of(query@)),
        queries.1@ == or_query(classes_of(query@)),
{
    let classified = classify(query);
    fuzzy_queries(classified.as_slice())
}

/// A text with every double quote doubled.
pub open spec fn quotes_doubled(text: Seq<char>) -> Seq<char>
    decreases text.len(),
{
    if text.len() == 0 {
        Seq::empty()
    } else if text.first() == '"' {
        seq!['"', '"'] + quotes_doubled(text.drop_first())
    } else {
        seq![text.first()] + quotes_doubled(text.drop_first())
    }
}

/// A text as a quoted phrase.
pub open spec fn phrase_of(text: Seq<char>) -> Seq<char> {
    seq!['"'] + quotes_doubled(text) + seq!['"']
}

/// Quotes a text, so that the search index takes it as one phrase.
pub fn quoted_phrase(text: &str) -> (phrase: String)
    ensures
        phrase@ == phrase_of(text@),
{
    let chars = text::chars_of(text);
    let mut phrase = String::new();
    phrase.push('"');
    let mut i: usize = 0;
    assert(text@.skip(0) =~= text@);
    assert(phrase@ =~= seq!['"']);
    while i < chars.len()
        invariant
            0 <= i <= chars.len(),
            chars@ == text@,
            phrase@ + quotes_doubled(text@.skip(i as int)) == seq!['"'] + quotes_doubled(text@),
        decreases chars.len() - i,
    {
        let c = chars[i];
        let ghost before = phrase@;
        if c == '"' {
            phrase.push('"');
        }
        phrase.push(c);
        assert(text@.skip(i as int).drop_first() =~= text@.skip(i as int + 1));
        assert(phrase@ + quotes_doubled(text@.skip(i as int + 1)) =~= before + quotes_doubled(
            text@.skip(i as int),
        ));
        i += 1;
    }
    assert(phrase@ + quotes_doubled(text@.skip(i as int)) =~= phrase@);
    phrase.push('"');
    assert(phrase@ =~= phrase_of(text@));
    phrase
}

// Laws of queries

/// Where a quoted string ends that is read from position `at` on, inside the quotes: at the
/// first quote that no second one follows.
pub open spec fn string_end(text: Seq<char>, at: int) -> int
    decreases text.len() - at,
{
    if at >= text.len() {
        text.len() as int
    } else if text[at] != '"' {
        string_end(text, at + 1)
    } else if at + 1 < text.len() && text[at + 1] == '"' {
        string_end(text, at + 2)
    } else {
        at
    }
}

/// What a quoted string holds that is read from position `at` on, inside the quotes: its
/// characters, where two quotes stand for one.
pub open spec fn string_content(text: Seq<char>, at: int) -> Seq<char>
    decreases text.len() - at,
{
    if at >= text.len() {
        Seq::empty()
    } else if text[at] != '"' {
        seq![text[at]] + string_content(text, at + 1)
    } else if at + 1 < text.len() && text[at + 1] == '"' {
        seq!['"'] + string_content(text, at + 2)
    } else {
        Seq::empty()
    }
}

proof fn lemma_string_read(before: Seq<char>, text: Seq<char>)
    ensures
        string_end(before + quotes_doubled(text) + seq!['"'], before.len() as int) == before.len()
            + quotes_doubled(text).len(),
        string_content(before + quotes_doubled(text) + seq!['"'], before.len() as int) == text,
    decreases text.len(),
{
    let whole = before + quotes_doubled(text) + seq!['"'];
    let at = before.len() as int;
    if text.len() == 0 {
        assert(whole =~= before + seq!['"']);
        assert(text =~= Seq::empty());
    } else {
        let rest = text.drop_first();
        let head = if text.first() == '"' {
            seq!['"', '"']
        } else {
            seq![text.first()]
        };
        lemma_string_read(before + head, rest);
        assert(whole =~= (before + head) + quotes_doubled(rest) + seq!['"']);
        assert(whole[at] == text.first());
        if text.first() == '"' {
            assert(whole[at + 1] == '"');
        }
        assert(text =~= seq![text.first()] + rest);
    }
}

/// A quoted phrase is one string: it opens with a quote, its string ends with its last
/// character and no sooner, whatever the text holds, and the string holds that text.
pub proof fn law_phrase_holds_its_text(text: Seq<char>)
    ensures
        phrase_of(text).first() == '"',
        string_end(phrase_of(text), 1) == phrase_of(text).len() - 1,
        string_content(phrase_of(text), 1) == text,
{
    lemma_string_read(seq!['"'], text);
}

/// Whether every character is a word character of the query.
pub open spec fn made_of(text: Seq<char>, query: Seq<Classified>) -> bool {
    forall|i: int| 0 <= i < text.len() ==> query.contains((#[trigger] text[i], CharClass::Word))
}

proof fn lemma_made_of_more(text: Seq<char>, query: Seq<Classified>, more: Seq<Classified>)
    requires
        made_of(text, query),
        query == more.drop_last(),
        more.len() > 0,
    ensures
        made_of(text, more),
{
    assert forall|i: int| 0 <= i < text.len() implies more.contains(
        (#[trigger] text[i], CharClass::Word),
    ) by {
        let k = choose|k: int|
            0 <= k < query.len() && query[k] == (text[i], CharClass::Word);
        assert(more[k] == query[k]);
    }
}

proof fn lemma_words(query: Seq<Classified>)
    ensures
        made_of(last_word(query), query),
        forall|i: int|
            0 <= i < closed_words(query).len() ==> (#[trigger] closed_words(query)[i]).len() > 0
                && made_of(closed_words(query)[i], query),
    decreases query.len(),
{
    if query.len() > 0 {
        let rest = query.drop_last();
        lemma_words(rest);
        lemma_made_of_more(last_word(rest), rest, query);
        assert(query[query.len() - 1] == query.last());
        assert forall|i: int| 0 <= i < last_word(query).len() implies query.contains(
            (#[trigger] last_word(query)[i], CharClass::Word),
        ) by {
            if i < last_word(rest).len() {
                assert(query.contains((last_word(rest)[i], CharClass::Word)));
            }
        }
        assert forall|i: int| 0 <= i < closed_words(query).len() implies (
        #[trigger] closed_words(query)[i]).len() > 0 && made_of(closed_words(query)[i], query) by {
            if i < closed_words(rest).len() {
                assert(closed_words(query)[i] == closed_words(rest)[i]);
                lemma_made_of_more(closed_words(rest)[i], rest, query);
            }
        }
    }
}

/// Every term of a query is a word of it followed by a star, and every word is a letter, digit
/// or underscore of the query or more of them: no character to which the search index gives a
/// meaning of its own gets through.
pub proof fn law_terms_are_words(query: Seq<Classified>, i: int)
    requires
        0 <= i < terms(query).len(),
    ensures
        terms(query)[i] == words(query)[i].push('*'),
        words(query)[i].len() > 0,
        made_of(words(query)[i], query),
{
    lemma_words(query);
    if i < closed_words(query).len() {
        assert(words(query)[i] == closed_words(query)[i]);
    }
}

pub(crate) proof fn lemma_joined_empty(parts: Seq<Seq<char>>, separator: Seq<char>)
    requires
        forall|i: int| 0 <= i < parts.len() ==> (#[trigger] parts[i]).len() > 0,
    ensures
        joined(parts, separator).len() == 0 <==> parts.len() == 0,
{
}

/// The two queries are empty together: where the query has no words.
pub proof fn law_queries_are_empty_without_words(query: Seq<Classified>)
    ensures
        and_query(query).len() == 0 <==> words(query).len() == 0,
        or_query(query).len() == 0 <==> words(query).len() == 0,
{
    assert forall|i: int| 0 <= i < terms(query).len() implies (
    #[trigger] terms(query)[i]).len() > 0 by {
        law_terms_are_words(query, i);
    }
    lemma_joined_empty(terms(query), " AND "@);
    lemma_joined_empty(terms(query), " OR "@);
}

/// A trimmed query holds characters of the query alone.
pub(crate) proof fn lemma_trimmed_part(query: Seq<Classified>)
    ensures
        forall|i: int| 0 <= i < trimmed(query).len() ==> query.contains(#[trigger] trimmed(query)[i]),
{
    let rest = without_leading_space(query);
    lemma_without_leading_space_part(query);
    lemma_without_trailing_space_part(rest);
    assert forall|i: int| 0 <= i < trimmed(query).len() implies query.contains(
        #[trigger] trimmed(query)[i],
    ) by {
        let k = choose|k: int| 0 <= k < rest.len() && rest[k] == trimmed(query)[i];
        assert(query.contains(rest[k]));
    }
}

proof fn lemma_without_leading_space_part(query: Seq<Classified>)
    ensures
        forall|i: int|
            0 <= i < without_leading_space(query).len() ==> query.contains(
                #[trigger] without_leading_space(query)[i],
            ),
    decreases query.len(),
{
    if query.len() > 0 && query.first().1 is Space {
        let rest = query.drop_first();
        lemma_without_leading_space_part(rest);
        assert forall|i: int| 0 <= i < without_leading_space(query).len() implies query.contains(
            #[trigger] without_leading_space(query)[i],
        ) by {
            let found = without_leading_space(rest)[i];
            let k = choose|k: int| 0 <= k < rest.len() && rest[k] == found;
            assert(query[k + 1] == found);
        }
    }
}

proof fn lemma_without_trailing_space_part(query: Seq<Classified>)
    ensures
        forall|i: int|
            0 <= i < without_trailing_space(query).len() ==> query.contains(
                #[trigger] without_trailing_space(query)[i],
            ),
    decreases query.len(),
{
    if query.len() > 0 && query.last().1 is Space {
        let rest = query.drop_last();
        lemma_without_trailing_space_part(rest);
        assert forall|i: int| 0 <= i < without_trailing_space(query).len() implies query.contains(
            #[trigger] without_trailing_space(query)[i],
        ) by {
            let found = without_trailing_space(rest)[i];
            let k = choose|k: int| 0 <= k < rest.len() && rest[k] == found;
            assert(query[k] == found);
        }
    }
}

/// A query without word characters has no words.
pub(crate) proof fn lemma_no_words(query: Seq<Classified>)
    requires
        forall|i: int| 0 <= i < query.len() ==> !((#[trigger] query[i]).1 is Word),
    ensures
        words(query).len() == 0,
{
    lemma_words(query);
    if last_word(query).len() > 0 {
        assert(query.contains((last_word(query)[0], CharClass::Word)));
    }
    if closed_words(query).len() > 0 {
        let word = closed_words(query)[0];
        assert(query.contains((word[0], CharClass::Word)));
    }
}

/// A query of one word is the same whether every word or any word has to match.
pub proof fn law_one_word_asks_the_same(query: Seq<Classified>)
    requires
        words(query).len() == 1,
    ensures
        and_query(query) == or_query(query),
        and_query(query) == words(query)[0].push('*'),
{
}

proof fn lemma_words_of_joined_queries(left: Seq<Classified>, c: char, right: Seq<Classified>)
    ensures
        ({
            let whole = left + seq![(c, CharClass::Space)] + right;
            &&& last_word(whole) == last_word(right)
            &&& closed_words(whole) == words(left) + closed_words(right)
        }),
    decreases right.len(),
{
    let start = left + seq![(c, CharClass::Space)];
    let whole = start + right;
    if right.len() == 0 {
        assert(whole =~= start);
        assert(start.drop_last() =~= left);
        assert(closed_words(whole) =~= words(left) + closed_words(right));
    } else {
        assert(whole.drop_last() =~= start + right.drop_last());
        lemma_words_of_joined_queries(left, c, right.drop_last());
        assert(closed_words(whole) =~= words(left) + closed_words(right));
    }
}

/// The words of two queries with white space between them are the words of the one, then those
/// of the other.
pub proof fn law_words_of_joined_queries(
    left: Seq<Classified>,
    c: char,
    right: Seq<Classified>,
)
    ensures
        words(left + seq![(c, CharClass::Space)] + right) == words(left) + words(right),
        terms(left + seq![(c, CharClass::Space)] + right) == terms(left) + terms(right),
{
    let whole = left + seq![(c, CharClass::Space)] + right;
    lemma_words_of_joined_queries(left, c, right);
    assert(words(whole) =~= words(left) + words(right));
    assert(terms(whole) =~= terms(left) + terms(right));
}

/// Every character of a text counts as white space, as part of a word or as neither: letters,
/// digits and underscores are parts of words.
pub proof fn law_characters_are_classified(text: Seq<char>, i: int)
    requires
        0 <= i < text.len(),
    ensures
        classes_of(text).len() == text.len(),
        classes_of(text)[i].0 == text[i],
        classes_of(text)[i].1 is Space <==> is_white_space(text[i]),
        classes_of(text)[i].1 is Word <==> !is_white_space(text[i]) && (char_is_alphanumeric(
            text[i],
        ) || text[i] == '_'),
        chars_only(classes_of(text)) == text,
{
    assert(chars_only(classes_of(text)) =~= text);
}

/// The text of a query is that of its characters.
pub proof fn law_text_of_a_query(query: Seq<Classified>, i: int)
    requires
        0 <= i < query.len(),
    ensures
        chars_only(query).len() == query.len(),
        chars_only(query)[i] == query[i].0,
{
}

/// Trimming a query takes white space alone off its ends, and all that stands there. The law
/// gives the part that is left.
pub proof fn law_trimming_takes_off_white_space(query: Seq<Classified>) -> (part: (int, int))
    ensures
        0 <= part.0 <= part.1 <= query.len(),
        trimmed(query) == query.subrange(part.0, part.1),
        forall|i: int| 0 <= i < part.0 ==> (#[trigger] query[i]).1 is Space,
        forall|i: int| part.1 <= i < query.len() ==> (#[trigger] query[i]).1 is Space,
        trimmed(query).len() > 0 ==> !(trimmed(query).first().1 is Space) && !(trimmed(
            query,
        ).last().1 is Space),
{
    let rest = without_leading_space(query);
    let start = lemma_leading_space(query);
    let end = lemma_trailing_space(rest);
    assert(trimmed(query) =~= query.subrange(start, start + end));
    assert forall|i: int| start + end <= i < query.len() implies (#[trigger] query[i]).1 is Space by {
        assert(rest[i - start] == query[i]);
    }
    (start, start + end)
}

proof fn lemma_leading_space(query: Seq<Classified>) -> (start: int)
    ensures
        0 <= start <= query.len(),
        without_leading_space(query) == query.subrange(start, query.len() as int),
        forall|i: int| 0 <= i < start ==> (#[trigger] query[i]).1 is Space,
        start < query.len() ==> !(query[start].1 is Space),
    decreases query.len(),
{
    if query.len() > 0 && query.first().1 is Space {
        let rest = query.drop_first();
        let start = lemma_leading_space(rest);
        assert(rest.subrange(start, rest.len() as int) =~= query.subrange(
            start + 1,
            query.len() as int,
        ));
        assert forall|i: int| 0 <= i < start + 1 implies (#[trigger] query[i]).1 is Space by {
            if i > 0 {
                assert(rest[i - 1] == query[i]);
            }
        }
        start + 1
    } else {
        assert(query.subrange(0, query.len() as int) =~= query);
        0
    }
}

proof fn lemma_trailing_space(query: Seq<Classified>) -> (end: int)
    ensures
        0 <= end <= query.len(),
        without_trailing_space(query) == query.subrange(0, end),
        forall|i: int| end <= i < query.len() ==> (#[trigger] query[i]).1 is Space,
        end > 0 ==> !(query[end - 1].1 is Space),
    decreases query.len(),
{
    if query.len() > 0 && query.last().1 is Space {
        let rest = query.drop_last();
        let end = lemma_trailing_space(rest);
        assert(rest.subrange(0, end) =~= query.subrange(0, end));
        assert forall|i: int| end <= i < query.len() implies (#[trigger] query[i]).1 is Space by {
            if i < rest.len() {
                assert(rest[i] == query[i]);
            }
        }
        end
    } else {
        assert(query.subrange(0, query.len() as int) =~= query);
        query.len() as int
    }
}

/// A query without white space is one word, made of all its word characters in order, or none if
/// it has none.
pub proof fn law_query_without_white_space_is_one_word(query: Seq<Classified>)
    requires
        forall|i: int| 0 <= i < query.len() ==> !((#[trigger] query[i]).1 is Space),
    ensures
        ({
            let word = query.filter(|c: Classified| c.1 is Word).map_values(|c: Classified| c.0);
            words(query) == if word.len() == 0 {
                Seq::<Seq<char>>::empty()
            } else {
                seq![word]
            }
        }),
{
    lemma_one_word(query);
}

proof fn lemma_one_word(query: Seq<Classified>)
    requires
        forall|i: int| 0 <= i < query.len() ==> !((#[trigger] query[i]).1 is Space),
    ensures
        closed_words(query) == Seq::<Seq<char>>::empty(),
        last_word(query) == query.filter(|c: Classified| c.1 is Word).map_values(
            |c: Classified| c.0,
        ),
    decreases query.len(),
{
    reveal(Seq::filter);
    let is_word = |c: Classified| c.1 is Word;
    if query.len() > 0 {
        let rest = query.drop_last();
        assert forall|i: int| 0 <= i < rest.len() implies !((#[trigger] rest[i]).1 is Space) by {
            assert(rest[i] == query[i]);
        }
        lemma_one_word(rest);
        assert(query[query.len() - 1] == query.last());
    }
    assert(last_word(query) =~= query.filter(is_word).map_values(|c: Classified| c.0));
}

/// Joining texts: nothing gives nothing, one text gives that text, and a further text is added
/// behind the separator.
pub proof fn law_joining_adds_each_part(
    parts: Seq<Seq<char>>,
    part: Seq<char>,
    separator: Seq<char>,
)
    ensures
        joined(Seq::empty(), separator) == Seq::<char>::empty(),
        joined(seq![part], separator) == part,
        parts.len() > 0 ==> joined(parts.push(part), separator) == joined(parts, separator)
            + separator + part,
{
    assert(parts.push(part).drop_last() =~= parts);
}

/// Joining two lists of texts is joining each of them, with the separator between.
pub proof fn law_joining_lists(
    left: Seq<Seq<char>>,
    right: Seq<Seq<char>>,
    separator: Seq<char>,
)
    requires
        left.len() > 0,
        right.len() > 0,
    ensures
        joined(left + right, separator) == joined(left, separator) + separator + joined(
            right,
            separator,
        ),
    decreases right.len(),
{
    let rest = right.drop_last();
    assert((left + right) =~= (left + rest).push(right.last()));
    law_joining_adds_each_part(left + rest, right.last(), separator);
    if rest.len() == 0 {
        assert(left + rest =~= left);
        assert(right =~= seq![right.last()]);
    } else {
        law_joining_lists(left, rest, separator);
        assert(right =~= rest.push(right.last()));
        law_joining_adds_each_part(rest, right.last(), separator);
    }
    assert(joined(left + right, separator) =~= joined(left, separator) + separator + joined(
        right,
        separator,
    ));
}

/// Every word is asked for: the queries for two texts with white space between them are the
/// queries for the one and for the other, joined by `AND` and by `OR`, and where one of the
/// texts has no words, they are those for the other.
pub proof fn law_queries_of_joined_texts(left: Seq<Classified>, c: char, right: Seq<Classified>)
    ensures
        ({
            let whole = left + seq![(c, CharClass::Space)] + right;
            &&& words(left).len() > 0 && words(right).len() > 0 ==> {
                &&& and_query(whole) == and_query(left) + " AND "@ + and_query(right)
                &&& or_query(whole) == or_query(left) + " OR "@ + or_query(right)
            }
            &&& words(left).len() == 0 ==> and_query(whole) == and_query(right) && or_query(whole)
                == or_query(right)
            &&& words(right).len() == 0 ==> and_query(whole) == and_query(left) && or_query(whole)
                == or_query(left)
        }),
{
    law_words_of_joined_queries(left, c, right);
    if words(left).len() > 0 && words(right).len() > 0 {
        law_joining_lists(terms(left), terms(right), " AND "@);
        law_joining_lists(terms(left), terms(right), " OR "@);
    }
    if words(left).len() == 0 {
        assert(terms(left) + terms(right) =~= terms(right));
    }
    if words(right).len() == 0 {
        assert(terms(left) + terms(right) =~= terms(left));
    }
}

/// The queries for a text without white space are its word characters, in order, and a star, or
/// empty where it has none.
pub proof fn law_queries_of_one_word(query: Seq<Classified>)
    requires
        forall|i: int| 0 <= i < query.len() ==> !((#[trigger] query[i]).1 is Space),
    ensures
        ({
            let word = query.filter(|c: Classified| c.1 is Word).map_values(|c: Classified| c.0);
            let asked = if word.len() == 0 {
                Seq::empty()
            } else {
                word.push('*')
            };
            and_query(query) == asked && or_query(query) == asked
        }),
{
    law_query_without_white_space_is_one_word(query);
    law_queries_are_empty_without_words(query);
    if words(query).len() == 1 {
        law_one_word_asks_the_same(query);
    }
}

/// Every word of a query stands in both queries, with a star behind it.
pub proof fn law_every_word_is_asked_for(query: Seq<Classified>, i: int)
    requires
        0 <= i < words(query).len(),
    ensures
        stands_in(words(query)[i].push('*'), and_query(query)),
        stands_in(words(query)[i].push('*'), or_query(query)),
{
    assert(terms(query)[i] == words(query)[i].push('*'));
    lemma_part_stands_in(terms(query), " AND "@, i);
    lemma_part_stands_in(terms(query), " OR "@, i);
}

/// Whether a text stands somewhere in another.
pub open spec fn stands_in(part: Seq<char>, whole: Seq<char>) -> bool {
    exists|start: int|
        0 <= start <= whole.len() - part.len() && #[trigger] whole.subrange(
            start,
            start + part.len(),
        ) == part
}

proof fn lemma_part_stands_in(parts: Seq<Seq<char>>, separator: Seq<char>, i: int)
    requires
        0 <= i < parts.len(),
    ensures
        stands_in(parts[i], joined(parts, separator)),
    decreases parts.len(),
{
    let whole = joined(parts, separator);
    let part = parts[i];
    if parts.len() == 1 {
        let start: int = 0;
        assert(whole.subrange(start, start + part.len()) =~= part);
    } else {
        let rest = joined(parts.drop_last(), separator);
        if i == parts.len() - 1 {
            let start: int = (rest.len() + separator.len()) as int;
            assert(whole.subrange(start, start + part.len()) =~= part);
        } else {
            lemma_part_stands_in(parts.drop_last(), separator, i);
            let start = choose|start: int|
                0 <= start <= rest.len() - part.len() && #[trigger] rest.subrange(
                    start,
                    start + part.len(),
                ) == part;
            assert(whole.subrange(start, start + part.len()) =~= rest.subrange(
                start,
                start + part.len(),
            ));
        }
    }
}

/// A phrase keeps every character of its text in order: a quote is doubled, any other character
/// stays as it is, and a quote stands at each end.
pub proof fn law_phrase_keeps_every_character(text: Seq<char>, more: Seq<char>)
    ensures
        quotes_doubled(text + more) == quotes_doubled(text) + quotes_doubled(more),
        !text.contains('"') ==> quotes_doubled(text) == text,
        quotes_doubled(seq!['"']) == seq!['"', '"'],
        phrase_of(text) == seq!['"'] + quotes_doubled(text) + seq!['"'],
    decreases text.len(),
{
    reveal_with_fuel(quotes_doubled, 2);
    assert(seq!['"'].drop_first() =~= Seq::empty());
    assert(quotes_doubled(seq!['"']) =~= seq!['"', '"']);
    if text.len() == 0 {
        assert(text + more =~= more);
        assert(quotes_doubled(text + more) =~= quotes_doubled(text) + quotes_doubled(more));
        assert(text =~= Seq::empty());
    } else {
        let rest = text.drop_first();
        law_phrase_keeps_every_character(rest, more);
        assert((text + more).drop_first() =~= rest + more);
        assert(quotes_doubled(text + more) =~= quotes_doubled(text) + quotes_doubled(more));
        if !text.contains('"') {
            assert(text.contains(text[0]));
            assert(!rest.contains('"')) by {
                if rest.contains('"') {
                    let i = choose|i: int| 0 <= i < rest.len() && rest[i] == '"';
                    assert(text[i + 1] == '"');
                }
            }
            assert(quotes_doubled(text) =~= text);
        }
    }
}

} // verus!
