//! Display width of text, and truncation to a width.

use crate::text::{chars_of, is_control, Text};
use vstd::prelude::*;

verus! {

/// Mark of what is left out.
pub const ELLIPSIS: char = '\u{2026}';

/// The columns that `unicode_width` gives a text.
pub uninterp spec fn str_width(text: Seq<char>) -> usize;

/// The columns that `unicode_width` gives a character.
pub uninterp spec fn char_width(c: char) -> Option<usize>;

/// The mark of what is left out, as a text.
pub open spec fn ellipsis() -> Text {
    seq![ELLIPSIS]
}

/// The printable ASCII characters and the ellipsis.
pub open spec fn plain_char(c: char) -> bool {
    0x20 <= c as int <= 0x7e || c == ELLIPSIS
}

/// A text of plain characters.
pub open spec fn plain(text: Text) -> bool {
    forall|i: int| 0 <= i < text.len() ==> plain_char(#[trigger] text[i])
}

/// `unicode_width::UnicodeWidthStr::width` returns the displayed width of a text in columns, a
/// function of the text alone. Each character of a plain text is one column wide.
#[verifier::external_body]
pub(crate) fn display_width(text: &str) -> (width: usize)
    ensures
        width == str_width(text@),
        plain(text@) ==> width == text@.len(),
{
    unicode_width::UnicodeWidthStr::width(text)
}

/// `unicode_width::UnicodeWidthChar::width` returns the displayed width of a character in
/// columns, a function of the character alone, and none exactly for control characters. A plain
/// character is one column wide.
#[verifier::external_body]
pub(crate) fn display_width_of_char(c: char) -> (width: Option<usize>)
    ensures
        width == char_width(c),
        width is None <==> is_control(c),
        plain_char(c) ==> width == Some(1usize),
{
    unicode_width::UnicodeWidthChar::width(c)
}

/// The columns that a character counts for when a text is cut. Control characters count for none.
pub open spec fn char_columns(c: char) -> usize {
    match char_width(c) {
        Some(width) => width,
        None => 0,
    }
}

/// A way to measure text: the columns of a text, and those that a character counts for when a text
/// is cut.
pub struct Measure {
    pub text: spec_fn(Text) -> usize,
    pub char: spec_fn(char) -> usize,
}

/// Text measured as it is displayed.
pub open spec fn displayed() -> Measure {
    Measure { text: |text: Text| str_width(text), char: |c: char| char_columns(c) }
}

/// Text measured by the number of its characters.
pub open spec fn counted() -> Measure {
    Measure { text: |text: Text| text.len() as usize, char: |c: char| 1usize }
}

/// How many leading items of `widths` take up no more than `budget` in all.
pub open spec fn kept_count(widths: Seq<usize>, budget: int) -> nat
    decreases widths.len(),
{
    if widths.len() == 0 || widths[0] > budget {
        0
    } else {
        1 + kept_count(widths.drop_first(), budget - widths[0])
    }
}

/// A text of `total` columns brought to at most `width`: as it is where it fits, and otherwise its
/// longest beginning that leaves a column for the ellipsis, and the ellipsis.
pub open spec fn truncated_measured(
    text: Text,
    total: int,
    char_widths: Seq<usize>,
    width: int,
) -> Text {
    if total <= width {
        text
    } else if width <= 0 {
        Seq::empty()
    } else if width == 1 {
        ellipsis()
    } else {
        text.take(kept_count(char_widths, width - 1) as int).push(ELLIPSIS)
    }
}

impl Measure {
    /// The columns of each character of a text.
    pub open spec fn columns_of(self, text: Text) -> Seq<usize> {
        text.map_values(self.char)
    }

    /// A text brought to at most `width` columns.
    pub open spec fn truncated(self, text: Text, width: int) -> Text {
        truncated_measured(text, (self.text)(text) as int, self.columns_of(text), width)
    }
}

/// There are no more leading items than items.
pub proof fn lemma_kept_count(widths: Seq<usize>, budget: int)
    ensures
        kept_count(widths, budget) <= widths.len(),
    decreases widths.len(),
{
    if widths.len() > 0 && widths[0] <= budget {
        lemma_kept_count(widths.drop_first(), budget - widths[0]);
    }
}

/// Of items of one column each as many are kept as there are columns.
proof fn lemma_kept_ones(widths: Seq<usize>, budget: int)
    requires
        budget >= 0,
        forall|i: int| 0 <= i < widths.len() ==> #[trigger] widths[i] == 1,
    ensures
        kept_count(widths, budget) == if widths.len() <= budget {
            widths.len() as int
        } else {
            budget
        },
    decreases widths.len(),
{
    if widths.len() > 0 && budget > 0 {
        lemma_kept_ones(widths.drop_first(), budget - 1);
    }
}

/// Where each character is one column, a text that is cut has as many characters as columns. It is
/// the text itself, or a beginning of it with the ellipsis behind.
pub proof fn law_cut_text_fits(text: Text, width: int)
    requires
        text.len() <= usize::MAX,
        width >= 0,
    ensures
        ({
            let cut = counted().truncated(text, width);
            &&& cut.len() <= width
            &&& text.len() <= width ==> cut == text
            &&& text.len() > width ==> cut.len() == width
            &&& text.len() > width > 0 ==> cut.last() == ELLIPSIS && cut.drop_last()
                == text.take(cut.len() - 1)
        }),
{
    let widths = counted().columns_of(text);
    lemma_kept_count(widths, width - 1);
    if text.len() > width {
        if width >= 2 {
            lemma_kept_ones(widths, width - 1);
            let cut = counted().truncated(text, width);
            assert(cut.drop_last() =~= text.take(cut.len() - 1));
        } else if width == 1 {
            assert(ellipsis().drop_last() =~= text.take(0));
        }
    }
}

/// The columns that the first `count` characters of a text count for.
pub open spec fn total_columns(m: Measure, text: Text, count: int) -> int
    decreases count,
{
    if count <= 0 {
        0
    } else {
        total_columns(m, text, count - 1) + (m.char)(text[count - 1])
    }
}

/// Where a text is cut: a text that fits is not. Otherwise as many characters are kept as leave one
/// column, and the ellipsis takes that. A row of one column holds the ellipsis alone, and a row of
/// none holds nothing.
pub proof fn law_where_text_is_cut(m: Measure, text: Text, width: int, count: int)
    requires
        0 <= count <= text.len(),
        total_columns(m, text, count) <= width - 1,
        count < text.len() ==> total_columns(m, text, count + 1) > width - 1,
    ensures
        (m.text)(text) <= width ==> m.truncated(text, width) == text,
        (m.text)(text) > width && width >= 2 ==> m.truncated(text, width) == text.take(count).push(
            '\u{2026}',
        ),
        (m.text)(text) > width && width == 1 ==> m.truncated(text, width) == seq!['\u{2026}'],
{
    lemma_kept_columns(m, text, width - 1, 0, count);
    assert(m.columns_of(text).skip(0) =~= m.columns_of(text));
}

/// As many characters are kept as have room.
proof fn lemma_kept_columns(m: Measure, text: Text, budget: int, from: int, count: int)
    requires
        0 <= from <= count <= text.len(),
        total_columns(m, text, count) <= budget,
        count < text.len() ==> total_columns(m, text, count + 1) > budget,
    ensures
        kept_count(
            m.columns_of(text).skip(from),
            budget - total_columns(m, text, from),
        ) == count - from,
    decreases count - from,
{
    let rest = m.columns_of(text).skip(from);
    if from < text.len() {
        assert(rest[0] == (m.char)(text[from]));
        assert(total_columns(m, text, from + 1) == total_columns(m, text, from) + (m.char)(
            text[from],
        ));
    }
    if from < count {
        lemma_total_grows(m, text, from + 1, count);
        assert(rest.drop_first() =~= m.columns_of(text).skip(from + 1));
        lemma_kept_columns(m, text, budget, from + 1, count);
    }
}

/// More characters count for no fewer columns.
proof fn lemma_total_grows(m: Measure, text: Text, from: int, to: int)
    requires
        0 <= from <= to,
    ensures
        total_columns(m, text, from) <= total_columns(m, text, to),
    decreases to - from,
{
    if from < to {
        lemma_total_grows(m, text, from, to - 1);
    }
}

/// Without columns nothing is shown of a text that has some. Displayed text has the columns that
/// `unicode_width` gives it, and a character that has no width counts for none.
pub proof fn law_measures(m: Measure, text: Text, width: int, c: char)
    ensures
        (m.text)(text) > width && width <= 0 ==> m.truncated(text, width).len() == 0,
        (displayed().text)(text) == str_width(text),
        (displayed().char)(c) == match char_width(c) {
            Some(columns) => columns,
            None => 0,
        },
        text.len() <= usize::MAX ==> (counted().text)(text) == text.len(),
        (counted().char)(c) == 1,
{
}

/// The string that holds the ellipsis.
pub fn ellipsis_string() -> (text: String)
    ensures
        text@ == ellipsis(),
{
    let mut text = String::new();
    text.push(ELLIPSIS);
    proof {
        assert(text@ =~= ellipsis());
    }
    text
}

/// Brings a text of `total` columns to at most `width`, given the columns of its characters.
pub fn truncate_measured(
    text: &str,
    total: usize,
    char_widths: &Vec<usize>,
    width: usize,
) -> (r: String)
    requires
        char_widths@.len() == text@.len(),
    ensures
        r@ == truncated_measured(text@, total as int, char_widths@, width as int),
{
    if total <= width {
        return text.to_owned();
    }
    if width == 0 {
        return String::new();
    }
    if width == 1 {
        return ellipsis_string();
    }
    let chars = chars_of(text);
    let mut out = String::new();
    let mut left: usize = width - 1;
    let mut i: usize = 0;
    let ghost widths = char_widths@;
    proof {
        assert(widths.skip(0) =~= widths);
        assert(text@.take(0) =~= Seq::empty());
    }
    while i < chars.len() && char_widths[i] <= left
        invariant
            chars@ == text@,
            widths == char_widths@,
            widths.len() == text@.len(),
            i <= chars@.len(),
            out@ == text@.take(i as int),
            kept_count(widths, width - 1) == i + kept_count(widths.skip(i as int), left as int),
        decreases chars.len() - i,
    {
        proof {
            assert(widths.skip(i as int).drop_first() =~= widths.skip(i + 1));
            assert(text@.take(i + 1) =~= text@.take(i as int).push(text@[i as int]));
        }
        out.push(chars[i]);
        left = left - char_widths[i];
        i += 1;
    }
    out.push(ELLIPSIS);
    out
}

/// The columns that each character of a text counts for.
fn char_columns_of(text: &str) -> (widths: Vec<usize>)
    ensures
        widths@ == displayed().columns_of(text@),
        plain(text@) ==> widths@ == counted().columns_of(text@),
{
    let chars = chars_of(text);
    let mut widths: Vec<usize> = Vec::new();
    for i in 0..chars.len()
        invariant
            chars@ == text@,
            widths@ =~= displayed().columns_of(text@).take(i as int),
            plain(text@) ==> widths@ =~= counted().columns_of(text@).take(i as int),
    {
        let columns: usize = match display_width_of_char(chars[i]) {
            Some(width) => width,
            None => 0,
        };
        widths.push(columns);
    }
    widths
}

/// Brings a text to at most `width` columns.
pub fn truncate_to(text: &str, width: usize) -> (r: String)
    ensures
        r@ == displayed().truncated(text@, width as int),
        plain(text@) ==> plain(r@) && r@ == counted().truncated(text@, width as int),
{
    let total = display_width(text);
    let char_widths = char_columns_of(text);
    proof {
        lemma_kept_count(char_widths@, width - 1);
    }
    truncate_measured(text, total, &char_widths, width)
}

} // verus!
