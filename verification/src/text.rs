//! Operations on text.

use vstd::prelude::*;
use vstd::utf8;

verus! {

/// `String::push`: appends a character.
pub assume_specification[ String::push ](s: &mut String, c: char)
    ensures
        final(s)@ == old(s)@.push(c),
;

/// Whether two texts are the same.
pub(crate) fn same_text(a: &str, b: &str) -> (same: bool)
    ensures
        same == (a@ == b@),
{
    let left = a.as_bytes();
    let right = b.as_bytes();
    proof {
        utf8::encode_utf8_decode_utf8(a@);
        utf8::encode_utf8_decode_utf8(b@);
    }
    if left.len() != right.len() {
        return false;
    }
    let mut i: usize = 0;
    while i < left.len()
        invariant
            0 <= i <= left.len(),
            left.len() == right.len(),
            left@ == utf8::encode_utf8(a@),
            right@ == utf8::encode_utf8(b@),
            forall|k: int| 0 <= k < i ==> left[k] == right[k],
        decreases left.len() - i,
    {
        if left[i] != right[i] {
            return false;
        }
        i += 1;
    }
    assert(left@ =~= right@);
    true
}

/// The characters of a text.
pub(crate) fn chars_of(text: &str) -> (chars: Vec<char>)
    ensures
        chars@ == text@,
{
    let mut chars: Vec<char> = Vec::new();
    for c in it: text.chars()
        invariant
            chars@ == it.seq().take(it.index()),
            it.seq() == text@,
    {
        chars.push(c);
        assert(it.seq().take(it.index() + 1) =~= it.seq().take(it.index()).push(c));
    }
    assert(chars@ =~= text@);
    chars
}

/// Whether a text ends with a suffix.
pub(crate) fn ends_with(text: &str, suffix: &str) -> (found: bool)
    ensures
        found == suffix@.is_suffix_of(text@),
{
    let all = chars_of(text);
    let tail = chars_of(suffix);
    if all.len() < tail.len() {
        return false;
    }
    let start: usize = all.len() - tail.len();
    let mut i: usize = 0;
    while i < tail.len()
        invariant
            0 <= i <= tail.len(),
            start == all.len() - tail.len(),
            all@ == text@,
            tail@ == suffix@,
            forall|k: int| 0 <= k < i ==> tail[k] == all[start + k],
        decreases tail.len() - i,
    {
        if all[start + i] != tail[i] {
            assert(text@.subrange(start as int, text@.len() as int)[i as int] != suffix@[i as int]);
            return false;
        }
        i += 1;
    }
    assert(text@.subrange(start as int, text@.len() as int) =~= suffix@);
    true
}

/// `text` without the leading characters that are `unwanted`.
pub open spec fn without_leading(text: Seq<char>, unwanted: char) -> Seq<char>
    decreases text.len(),
{
    if text.len() > 0 && text.first() == unwanted {
        without_leading(text.drop_first(), unwanted)
    } else {
        text
    }
}

/// `text` without the trailing characters that are `unwanted`.
pub open spec fn without_trailing(text: Seq<char>, unwanted: char) -> Seq<char>
    decreases text.len(),
{
    if text.len() > 0 && text.last() == unwanted {
        without_trailing(text.drop_last(), unwanted)
    } else {
        text
    }
}

/// `text` without the leading and trailing characters that are `unwanted`.
pub open spec fn trimmed_of(text: Seq<char>, unwanted: char) -> Seq<char> {
    without_trailing(without_leading(text, unwanted), unwanted)
}

/// A trimmed text neither starts nor ends with the unwanted character.
pub(crate) proof fn lemma_trimmed_of(text: Seq<char>, unwanted: char)
    ensures
        trimmed_of(text, unwanted).len() > 0 ==> trimmed_of(text, unwanted).first() != unwanted
            && trimmed_of(text, unwanted).last() != unwanted,
{
    lemma_without_leading(text, unwanted);
    lemma_without_trailing(without_leading(text, unwanted), unwanted);
}

proof fn lemma_without_leading(text: Seq<char>, unwanted: char)
    ensures
        without_leading(text, unwanted).len() > 0 ==> without_leading(text, unwanted).first()
            != unwanted,
    decreases text.len(),
{
    if text.len() > 0 && text.first() == unwanted {
        lemma_without_leading(text.drop_first(), unwanted);
    }
}

proof fn lemma_without_trailing(text: Seq<char>, unwanted: char)
    ensures
        without_trailing(text, unwanted).len() > 0 ==> {
            &&& without_trailing(text, unwanted).last() != unwanted
            &&& without_trailing(text, unwanted).first() == text.first()
        },
    decreases text.len(),
{
    if text.len() > 0 && text.last() == unwanted {
        lemma_without_trailing(text.drop_last(), unwanted);
    }
}

/// Removes a character from both ends of a text, as often as it stands there.
pub(crate) fn trim_char(text: &str, unwanted: char) -> (trimmed: String)
    ensures
        trimmed@ == trimmed_of(text@, unwanted),
{
    let chars = chars_of(text);
    let mut start: usize = 0;
    assert(text@.subrange(0, text@.len() as int) =~= text@);
    while start < chars.len() && chars[start] == unwanted
        invariant
            0 <= start <= chars.len(),
            chars@ == text@,
            without_leading(text@.subrange(start as int, text@.len() as int), unwanted)
                == without_leading(text@, unwanted),
        decreases chars.len() - start,
    {
        assert(text@.subrange(start as int, text@.len() as int).drop_first() =~= text@.subrange(
            start as int + 1,
            text@.len() as int,
        ));
        start += 1;
    }
    let ghost rest = text@.subrange(start as int, text@.len() as int);
    let mut end: usize = chars.len();
    while start < end && chars[end - 1] == unwanted
        invariant
            start <= end <= chars.len(),
            chars@ == text@,
            without_trailing(text@.subrange(start as int, end as int), unwanted)
                == without_trailing(rest, unwanted),
        decreases end,
    {
        assert(text@.subrange(start as int, end as int).drop_last() =~= text@.subrange(
            start as int,
            end as int - 1,
        ));
        end -= 1;
    }
    let mut trimmed = String::new();
    let mut i: usize = start;
    while i < end
        invariant
            start <= i <= end <= chars.len(),
            chars@ == text@,
            trimmed@ == text@.subrange(start as int, i as int),
        decreases end - i,
    {
        trimmed.push(chars[i]);
        assert(text@.subrange(start as int, i as int + 1) =~= text@.subrange(
            start as int,
            i as int,
        ).push(text@[i as int]));
        i += 1;
    }
    trimmed
}

/// The number of line breaks in a text.
pub open spec fn line_breaks(text: Seq<char>) -> nat
    decreases text.len(),
{
    if text.len() == 0 {
        0
    } else if text.first() == '\n' {
        line_breaks(text.drop_first()) + 1
    } else {
        line_breaks(text.drop_first())
    }
}

/// The number of line feeds among some bytes.
pub open spec fn line_feeds(bytes: Seq<u8>) -> nat
    decreases bytes.len(),
{
    if bytes.len() == 0 {
        0
    } else if bytes.last() == 10 {
        line_feeds(bytes.drop_last()) + 1
    } else {
        line_feeds(bytes.drop_last())
    }
}

pub(crate) proof fn lemma_line_feeds_bound(bytes: Seq<u8>)
    ensures
        line_feeds(bytes) <= bytes.len(),
    decreases bytes.len(),
{
    if bytes.len() > 0 {
        lemma_line_feeds_bound(bytes.drop_last());
    }
}

pub(crate) proof fn lemma_line_feeds_sum(left: Seq<u8>, right: Seq<u8>)
    ensures
        line_feeds(left + right) == line_feeds(left) + line_feeds(right),
    decreases right.len(),
{
    if right.len() == 0 {
        assert(left + right =~= left);
    } else {
        assert((left + right).drop_last() =~= left + right.drop_last());
        lemma_line_feeds_sum(left, right.drop_last());
    }
}

/// Bytes without a line feed have none.
proof fn lemma_no_line_feeds(bytes: Seq<u8>)
    requires
        forall|i: int| 0 <= i < bytes.len() ==> #[trigger] bytes[i] != 10,
    ensures
        line_feeds(bytes) == 0,
    decreases bytes.len(),
{
    if bytes.len() > 0 {
        assert forall|i: int| 0 <= i < bytes.drop_last().len() implies #[trigger] bytes.drop_last()[i]
            != 10 by {
            assert(bytes.drop_last()[i] == bytes[i]);
        }
        lemma_no_line_feeds(bytes.drop_last());
    }
}

/// A line feed is encoded as one byte, and that byte is part of no other encoding.
proof fn lemma_line_feeds_of_char(c: char)
    ensures
        line_feeds(utf8::encode_scalar(c as u32)) == if c == '\n' {
            1nat
        } else {
            0
        },
{
    let code = c as u32;
    let bytes = utf8::encode_scalar(code);
    utf8::char_is_scalar(c);
    if utf8::has_width_1_encoding(code) {
        assert((code & 0x7F) as u8 == 10 <==> code == 10) by (bit_vector)
            requires
                code <= 0x7F,
        ;
        assert(bytes =~= seq![(code & 0x7F) as u8]);
        assert(bytes.drop_last() =~= Seq::empty());
        assert(line_feeds(bytes.drop_last()) == 0);
        assert(bytes.last() == (code & 0x7F) as u8);
        assert(c == '\n' <==> code == 10);
    } else {
        assert forall|i: int| 0 <= i < bytes.len() implies #[trigger] bytes[i] != 10 by {
            assert(0xC0 | ((code >> 6) & 0x1F) as u8 != 10) by (bit_vector);
            assert(0xE0 | ((code >> 12) & 0x0F) as u8 != 10) by (bit_vector);
            assert(0xF0 | ((code >> 18) & 0x7) as u8 != 10) by (bit_vector);
            assert(0x80 | (code & 0x3F) as u8 != 10) by (bit_vector);
            assert(0x80 | ((code >> 6) & 0x3F) as u8 != 10) by (bit_vector);
            assert(0x80 | ((code >> 12) & 0x3F) as u8 != 10) by (bit_vector);
        }
        lemma_no_line_feeds(bytes);
    }
}

/// The line breaks of a text are the line feeds of its encoding.
pub(crate) proof fn lemma_line_feeds_of_text(text: Seq<char>)
    ensures
        line_feeds(utf8::encode_utf8(text)) == line_breaks(text),
    decreases text.len(),
{
    if text.len() > 0 {
        lemma_line_feeds_of_text(text.drop_first());
        lemma_line_feeds_of_char(text[0]);
        lemma_line_feeds_sum(
            utf8::encode_scalar(text[0] as u32),
            utf8::encode_utf8(text.drop_first()),
        );
    }
}

// Laws of text

/// Whether `core` is what is left of a text from which a character was taken off both ends, as
/// often as it stood there.
pub open spec fn is_stripped(text: Seq<char>, core: Seq<char>, unwanted: char) -> bool {
    exists|start: int, end: int|
        {
            &&& 0 <= start <= end <= text.len()
            &&& core == #[trigger] text.subrange(start, end)
            &&& forall|i: int| 0 <= i < start ==> text[i] == unwanted
            &&& forall|i: int| end <= i < text.len() ==> text[i] == unwanted
            &&& core.len() > 0 ==> core.first() != unwanted && core.last() != unwanted
        }
}

/// Trimming a text leaves its core: what is taken off is the unwanted character alone, and the
/// core neither starts nor ends with it.
pub proof fn law_trimming_leaves_the_core(text: Seq<char>, unwanted: char)
    ensures
        is_stripped(text, trimmed_of(text, unwanted), unwanted),
{
    lemma_trimmed_of(text, unwanted);
    let rest = without_leading(text, unwanted);
    let start = lemma_leading_part(text, unwanted);
    let end = lemma_trailing_part(rest, unwanted);
    assert(trimmed_of(text, unwanted) =~= text.subrange(start, start + end));
    assert forall|i: int| start + end <= i < text.len() implies text[i] == unwanted by {
        assert(rest[i - start] == text[i]);
    }
}

/// Trimming leaves a text as it is where the unwanted character stands at neither end, and takes
/// one such character off each end of it where it does.
pub proof fn law_trimming_takes_off_quotes(text: Seq<char>, quote: char)
    requires
        !text.contains(quote),
    ensures
        trimmed_of(text, quote) == text,
        trimmed_of(seq![quote] + text + seq![quote], quote) == text,
{
    if text.len() > 0 {
        assert(text.contains(text[0]));
        assert(text.contains(text[text.len() - 1]));
    }
    let quoted = seq![quote] + text + seq![quote];
    reveal_with_fuel(without_leading, 3);
    reveal_with_fuel(without_trailing, 3);
    assert(quoted.drop_first() =~= text + seq![quote]);
    if text.len() == 0 {
        assert(text =~= Seq::empty());
        assert(quoted.drop_first() =~= seq![quote]);
        assert(quoted.drop_first().drop_first() =~= Seq::empty());
    } else {
        assert((text + seq![quote]).first() == text[0]);
        assert((text + seq![quote]).drop_last() =~= text);
    }
}

proof fn lemma_leading_part(text: Seq<char>, unwanted: char) -> (start: int)
    ensures
        0 <= start <= text.len(),
        without_leading(text, unwanted) == text.subrange(start, text.len() as int),
        forall|i: int| 0 <= i < start ==> text[i] == unwanted,
    decreases text.len(),
{
    if text.len() > 0 && text.first() == unwanted {
        let rest = text.drop_first();
        let start = lemma_leading_part(rest, unwanted);
        assert(rest.subrange(start, rest.len() as int) =~= text.subrange(
            start + 1,
            text.len() as int,
        ));
        assert forall|i: int| 0 <= i < start + 1 implies text[i] == unwanted by {
            if i > 0 {
                assert(rest[i - 1] == text[i]);
            }
        }
        start + 1
    } else {
        assert(text.subrange(0, text.len() as int) =~= text);
        0
    }
}

proof fn lemma_trailing_part(text: Seq<char>, unwanted: char) -> (end: int)
    ensures
        0 <= end <= text.len(),
        without_trailing(text, unwanted) == text.subrange(0, end),
        forall|i: int| end <= i < text.len() ==> text[i] == unwanted,
    decreases text.len(),
{
    if text.len() > 0 && text.last() == unwanted {
        let rest = text.drop_last();
        let end = lemma_trailing_part(rest, unwanted);
        assert(rest.subrange(0, end) =~= text.subrange(0, end));
        assert forall|i: int| end <= i < text.len() implies text[i] == unwanted by {
            if i < rest.len() {
                assert(rest[i] == text[i]);
            }
        }
        end
    } else {
        assert(text.subrange(0, text.len() as int) =~= text);
        text.len() as int
    }
}

/// The line breaks of a text are its characters that are line feeds, each counted once.
pub proof fn law_line_breaks_are_counted(text: Seq<char>, more: Seq<char>, c: char)
    ensures
        line_breaks(text + more) == line_breaks(text) + line_breaks(more),
        line_breaks(seq![c]) == if c == '\n' {
            1nat
        } else {
            0
        },
        line_breaks(Seq::empty()) == 0,
    decreases text.len(),
{
    reveal_with_fuel(line_breaks, 2);
    assert(seq![c].drop_first() =~= Seq::empty());
    if text.len() == 0 {
        assert(text + more =~= more);
    } else {
        assert((text + more).drop_first() =~= text.drop_first() + more);
        law_line_breaks_are_counted(text.drop_first(), more, c);
    }
}

} // verus!
