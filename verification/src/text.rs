//! Text: equality and order of strings, and the name normalization built on them.

use vstd::prelude::*;

verus! {

/// What a string holds.
pub type Text = Seq<char>;

/// The text behind an optional string slice.
pub open spec fn text_of(text: Option<&str>) -> Option<Text> {
    match text {
        Some(text) => Some(text@),
        None => None,
    }
}

/// Lexicographic order by code point, which is the order of the UTF-8 bytes.
pub open spec fn precedes(left: Text, right: Text) -> bool
    decreases left.len(),
{
    if right.len() == 0 {
        false
    } else if left.len() == 0 {
        true
    } else if left[0] != right[0] {
        left[0] as int <= right[0] as int
    } else {
        precedes(left.drop_first(), right.drop_first())
    }
}

/// No text precedes itself.
pub proof fn lemma_precedes_irreflexive(text: Text)
    ensures
        !precedes(text, text),
    decreases text.len(),
{
    if text.len() > 0 {
        lemma_precedes_irreflexive(text.drop_first());
    }
}

/// `precedes` is transitive.
pub proof fn lemma_precedes_transitive(a: Text, b: Text, c: Text)
    requires
        precedes(a, b),
        precedes(b, c),
    ensures
        precedes(a, c),
    decreases a.len(),
{
    if a.len() > 0 && a[0] == b[0] && b[0] == c[0] {
        lemma_precedes_transitive(a.drop_first(), b.drop_first(), c.drop_first());
    }
}

/// Of two different texts one precedes the other.
pub proof fn lemma_precedes_total(a: Text, b: Text)
    ensures
        a == b || precedes(a, b) || precedes(b, a),
    decreases a.len(),
{
    if a.len() == 0 || b.len() == 0 {
        if a.len() == b.len() {
            assert(a =~= b);
        }
    } else if a[0] == b[0] {
        lemma_precedes_total(a.drop_first(), b.drop_first());
        if a.drop_first() == b.drop_first() {
            assert(a =~= seq![a[0]] + a.drop_first());
            assert(b =~= seq![b[0]] + b.drop_first());
        }
    }
}

/// Whether two strings hold the same text.
pub fn same(left: &str, right: &str) -> (r: bool)
    ensures
        r == (left@ == right@),
{
    let a = left.as_bytes();
    let b = right.as_bytes();
    proof {
        vstd::utf8::encode_utf8_decode_utf8(left@);
        vstd::utf8::encode_utf8_decode_utf8(right@);
    }
    if a.len() != b.len() {
        return false;
    }
    for i in 0..a.len()
        invariant
            a@ == vstd::utf8::encode_utf8(left@),
            b@ == vstd::utf8::encode_utf8(right@),
            a@.len() == b@.len(),
            forall|j: int| 0 <= j < i ==> a@[j] == b@[j],
    {
        if a[i] != b[i] {
            return false;
        }
    }
    proof {
        assert(a@ =~= b@);
    }
    true
}

/// The characters of a string.
pub fn chars_of(text: &str) -> (chars: Vec<char>)
    ensures
        chars@ == text@,
{
    let mut chars: Vec<char> = Vec::new();
    for c in it: text.chars()
        invariant
            it.seq() == text@,
            chars@ == text@.take(it.index()),
    {
        proof {
            assert(text@.take(it.index() + 1) =~= text@.take(it.index()).push(c));
        }
        chars.push(c);
    }
    proof {
        assert(text@.take(text@.len() as int) =~= text@);
    }
    chars
}

/// Whether the text of one string comes before that of another.
pub fn before(left: &str, right: &str) -> (r: bool)
    ensures
        r == precedes(left@, right@),
{
    let a = chars_of(left);
    let b = chars_of(right);
    let mut i: usize = 0;
    proof {
        assert(left@.skip(0) =~= left@);
        assert(right@.skip(0) =~= right@);
    }
    while i < a.len() && i < b.len()
        invariant
            a@ == left@,
            b@ == right@,
            i <= a.len(),
            i <= b.len(),
            precedes(left@, right@) == precedes(left@.skip(i as int), right@.skip(i as int)),
        decreases a.len() - i,
    {
        if a[i] != b[i] {
            return a[i] < b[i];
        }
        proof {
            assert(left@.skip(i as int).drop_first() =~= left@.skip(i + 1));
            assert(right@.skip(i as int).drop_first() =~= right@.skip(i + 1));
        }
        i += 1;
    }
    i < b.len()
}

/// `String::push` appends one character to the end of the string.
pub assume_specification[ String::push ](text: &mut String, c: char)
    ensures
        final(text)@ == old(text)@.push(c),
;

/// The string that holds the characters `from..to`.
pub fn string_of(chars: &Vec<char>, from: usize, to: usize) -> (text: String)
    requires
        from <= to <= chars@.len(),
    ensures
        text@ == chars@.subrange(from as int, to as int),
{
    let mut text = String::new();
    for i in from..to
        invariant
            from <= to <= chars@.len(),
            text@ =~= chars@.subrange(from as int, i as int),
    {
        text.push(chars[i]);
    }
    text
}

/// The Unicode property `White_Space`.
pub open spec fn is_white_space(c: char) -> bool {
    let code = c as int;
    ||| 0x9 <= code <= 0xd
    ||| code == 0x20
    ||| code == 0x85
    ||| code == 0xa0
    ||| code == 0x1680
    ||| 0x2000 <= code <= 0x200a
    ||| code == 0x2028
    ||| code == 0x2029
    ||| code == 0x202f
    ||| code == 0x205f
    ||| code == 0x3000
}

/// Whether a character has the Unicode property `White_Space`.
pub fn white_space(c: char) -> (r: bool)
    ensures
        r == is_white_space(c),
{
    let code: u32 = c as u32;
    (0x9 <= code && code <= 0xd) || code == 0x20 || code == 0x85 || code == 0xa0 || code == 0x1680
        || (0x2000 <= code && code <= 0x200a) || code == 0x2028 || code == 0x2029 || code == 0x202f
        || code == 0x205f || code == 0x3000
}

/// The blank characters: the ASCII ones from tab to carriage return and the space, the next line,
/// the spaces that do not break, and the Ogham, typographic, mathematical and ideographic spaces with
/// the two separators of lines and paragraphs.
pub proof fn law_blank_characters(c: char)
    ensures
        is_white_space(c) <==> (c == '\t' || c == '\n' || c == '\u{b}' || c == '\u{c}'
            || c == '\r' || c == ' ' || c == '\u{85}' || c == '\u{a0}' || c == '\u{1680}'
            || c == '\u{2000}' || c == '\u{2001}' || c == '\u{2002}' || c == '\u{2003}'
            || c == '\u{2004}' || c == '\u{2005}' || c == '\u{2006}' || c == '\u{2007}'
            || c == '\u{2008}' || c == '\u{2009}' || c == '\u{200a}' || c == '\u{2028}'
            || c == '\u{2029}' || c == '\u{202f}' || c == '\u{205f}' || c == '\u{3000}'),
{
}

/// The Unicode category `Cc`: the control codes.
pub open spec fn is_control(c: char) -> bool {
    c as int <= 0x1f || 0x7f <= c as int <= 0x9f
}

/// The control characters are those before the space and those from delete up to, but without, the
/// space that does not break: no letter, digit, punctuation mark or other space is one.
pub proof fn law_control_characters(c: char)
    ensures
        is_control(c) <==> !((' ' as int <= c as int <= '~' as int) || '\u{a0}' as int <= c as int),
{
}

/// Whether a character is a control code.
pub fn control(c: char) -> (r: bool)
    ensures
        r == is_control(c),
{
    let code: u32 = c as u32;
    code <= 0x1f || (0x7f <= code && code <= 0x9f)
}

/// A text without its leading white space.
pub open spec fn trim_start(text: Text) -> Text
    decreases text.len(),
{
    if text.len() > 0 && is_white_space(text[0]) {
        trim_start(text.drop_first())
    } else {
        text
    }
}

/// A text without its trailing white space.
pub open spec fn trim_end(text: Text) -> Text
    decreases text.len(),
{
    if text.len() > 0 && is_white_space(text.last()) {
        trim_end(text.drop_last())
    } else {
        text
    }
}

/// A text without its leading and trailing white space.
pub open spec fn trim(text: Text) -> Text {
    trim_end(trim_start(text))
}

/// Where the text lies once white space is taken off both ends.
pub fn trim_bounds(chars: &Vec<char>) -> (r: (usize, usize))
    ensures
        r.0 <= r.1 <= chars@.len(),
        chars@.subrange(r.0 as int, r.1 as int) == trim(chars@),
{
    let mut from: usize = 0;
    proof {
        assert(chars@.skip(0) =~= chars@);
    }
    while from < chars.len() && white_space(chars[from])
        invariant
            from <= chars@.len(),
            trim_start(chars@) == trim_start(chars@.skip(from as int)),
        decreases chars.len() - from,
    {
        proof {
            assert(chars@.skip(from as int).drop_first() =~= chars@.skip(from + 1));
        }
        from += 1;
    }
    let mut to: usize = chars.len();
    proof {
        assert(chars@.skip(from as int) =~= chars@.subrange(from as int, to as int));
    }
    while from < to && white_space(chars[to - 1])
        invariant
            from <= to <= chars@.len(),
            trim(chars@) == trim_end(chars@.subrange(from as int, to as int)),
        decreases to,
    {
        proof {
            assert(chars@.subrange(from as int, to as int).drop_last() =~= chars@.subrange(
                from as int,
                to - 1,
            ));
        }
        to -= 1;
    }
    (from, to)
}

/// Longest name that the server keeps as a token value, in characters.
pub const MAX_CONTEXT_NAME_LEN: usize = 80;

/// At most the first `limit` characters of a text.
pub open spec fn at_most(text: Text, limit: nat) -> Text {
    if text.len() <= limit {
        text
    } else {
        text.take(limit as int)
    }
}

/// The form in which a name is kept: trimmed, without control characters, cut to the longest
/// length, and trimmed again. A name of which nothing is left has no such form.
pub open spec fn normalized(raw: Text) -> Option<Text> {
    let kept = at_most(
        trim(raw).filter(|c: char| !is_control(c)),
        MAX_CONTEXT_NAME_LEN as nat,
    );
    if trim(kept).len() == 0 {
        None
    } else {
        Some(trim(kept))
    }
}

/// Brings a name into the form in which it is kept.
pub fn normalize(raw: &str) -> (r: Option<String>)
    ensures
        r.deep_view() == normalized(raw@),
{
    let chars = chars_of(raw);
    let (from, to) = trim_bounds(&chars);
    let ghost trimmed = trim(raw@);
    let ghost visible = |c: char| !is_control(c);
    let mut kept: Vec<char> = Vec::new();
    proof {
        reveal(Seq::filter);
        assert(trimmed.take(0).filter(visible) =~= Seq::empty());
    }
    for i in from..to
        invariant
            from <= to <= chars@.len(),
            trimmed == chars@.subrange(from as int, to as int),
            visible == (|c: char| !is_control(c)),
            kept@ == at_most(trimmed.take(i - from).filter(visible), MAX_CONTEXT_NAME_LEN as nat),
    {
        let c = chars[i];
        proof {
            reveal(Seq::filter);
            let next = trimmed.take(i - from + 1);
            assert(next.drop_last() =~= trimmed.take(i - from));
            assert(next.last() == c);
        }
        let ghost so_far = trimmed.take(i - from).filter(visible);
        if !control(c) && kept.len() < MAX_CONTEXT_NAME_LEN {
            kept.push(c);
        }
        proof {
            if !is_control(c) && so_far.len() >= MAX_CONTEXT_NAME_LEN {
                assert(so_far.push(c).take(MAX_CONTEXT_NAME_LEN as int) =~= so_far.take(
                    MAX_CONTEXT_NAME_LEN as int,
                ));
            }
        }
    }
    proof {
        assert(trimmed.take(to - from) =~= trimmed);
    }
    let (first, last) = trim_bounds(&kept);
    if first == last {
        None
    } else {
        Some(string_of(&kept, first, last))
    }
}

/// Taking off leading white space keeps an end of the text, which does not start with white space.
proof fn lemma_trim_start(text: Text) -> (from: int)
    ensures
        0 <= from <= text.len(),
        trim_start(text) == text.skip(from),
        from < text.len() ==> !is_white_space(text[from]),
        forall|i: int| 0 <= i < from ==> is_white_space(#[trigger] text[i]),
        text.len() > 0 && !is_white_space(text[0]) ==> from == 0,
    decreases text.len(),
{
    if text.len() > 0 && is_white_space(text[0]) {
        let from = lemma_trim_start(text.drop_first());
        assert(text.drop_first().skip(from) =~= text.skip(from + 1));
        assert forall|i: int| 0 <= i < from + 1 implies is_white_space(#[trigger] text[i]) by {
            if i > 0 {
                assert(text.drop_first()[i - 1] == text[i]);
            }
        }
        from + 1
    } else {
        assert(text.skip(0) =~= text);
        0
    }
}

/// Taking off trailing white space keeps a beginning of the text, which does not end with white
/// space.
proof fn lemma_trim_end(text: Text) -> (to: int)
    ensures
        0 <= to <= text.len(),
        trim_end(text) == text.take(to),
        to > 0 ==> !is_white_space(text[to - 1]),
        forall|i: int| to <= i < text.len() ==> is_white_space(#[trigger] text[i]),
        text.len() > 0 && !is_white_space(text.last()) ==> to == text.len(),
    decreases text.len(),
{
    if text.len() > 0 && is_white_space(text.last()) {
        let to = lemma_trim_end(text.drop_last());
        assert(text.drop_last().take(to) =~= text.take(to));
        assert forall|i: int| to <= i < text.len() implies is_white_space(#[trigger] text[i]) by {
            if i < text.len() - 1 {
                assert(text.drop_last()[i] == text[i]);
            }
        }
        to
    } else {
        assert(text.take(text.len() as int) =~= text);
        text.len() as int
    }
}

/// A trimmed text is a part of the text that white space neither starts nor ends. A text that is
/// such already stays as it is.
proof fn lemma_trim(text: Text) -> (bounds: (int, int))
    ensures
        0 <= bounds.0 <= bounds.1 <= text.len(),
        trim(text) == text.subrange(bounds.0, bounds.1),
        bounds.0 < bounds.1 ==> !is_white_space(text[bounds.0]) && !is_white_space(
            text[bounds.1 - 1],
        ),
        forall|i: int|
            0 <= i < bounds.0 || bounds.1 <= i < text.len() ==> is_white_space(#[trigger] text[i]),
        text.len() > 0 && !is_white_space(text[0]) && !is_white_space(text.last()) ==> trim(text)
            == text,
{
    let from = lemma_trim_start(text);
    let rest = text.skip(from);
    let to = lemma_trim_end(rest);
    assert(rest.take(to) =~= text.subrange(from, from + to));
    assert forall|i: int| 0 <= i < from || from + to <= i < text.len() implies is_white_space(
        #[trigger] text[i],
    ) by {
        if i >= from {
            assert(rest[i - from] == text[i]);
        }
    }
    if text.len() > 0 && !is_white_space(text[0]) && !is_white_space(text.last()) {
        assert(text.subrange(0, text.len() as int) =~= text);
    }
    (from, from + to)
}

/// A text with white space around `from..to`, and none at its ends, is trimmed to that part.
proof fn lemma_trim_part(text: Text, from: int, to: int)
    requires
        0 <= from < to <= text.len(),
        forall|i: int| 0 <= i < from || to <= i < text.len() ==> is_white_space(#[trigger] text[i]),
        !is_white_space(text[from]),
        !is_white_space(text[to - 1]),
    ensures
        trim(text) == text.subrange(from, to),
{
    let bounds = lemma_trim(text);
    if bounds.0 == bounds.1 {
        assert(from < bounds.0 || bounds.1 <= from);
    }
}

/// A text of white space is trimmed to nothing.
proof fn lemma_trim_blank(text: Text)
    requires
        forall|i: int| 0 <= i < text.len() ==> is_white_space(#[trigger] text[i]),
    ensures
        trim(text).len() == 0,
{
    let bounds = lemma_trim(text);
}

/// The kept form of a name: of what white space surrounds, the characters that are no control
/// characters, at most the first eighty of them, and of those what white space surrounds.
pub proof fn law_kept_form(raw: Text, first: int, last: int, from: int, to: int)
    requires
        0 <= first < last <= raw.len(),
        forall|i: int|
            0 <= i < first || last <= i < raw.len() ==> is_white_space(#[trigger] raw[i]),
        !is_white_space(raw[first]),
        !is_white_space(raw[last - 1]),
        ({
            let visible = raw.subrange(first, last).filter(|c: char| !is_control(c));
            &&& 0 <= from < to <= visible.len()
            &&& to <= 80
            &&& forall|i: int|
                0 <= i < from || (to <= i < visible.len() && i < 80) ==> is_white_space(
                    #[trigger] visible[i],
                )
            &&& !is_white_space(visible[from])
            &&& !is_white_space(visible[to - 1])
        }),
    ensures
        normalized(raw) == Some(
            raw.subrange(first, last).filter(|c: char| !is_control(c)).subrange(from, to),
        ),
{
    lemma_trim_part(raw, first, last);
    let visible = raw.subrange(first, last).filter(|c: char| !is_control(c));
    let kept = at_most(visible, MAX_CONTEXT_NAME_LEN as nat);
    assert forall|i: int| 0 <= i < from || to <= i < kept.len() implies is_white_space(
        #[trigger] kept[i],
    ) by {
        assert(kept[i] == visible[i]);
    }
    lemma_trim_part(kept, from, to);
    assert(kept.subrange(from, to) =~= visible.subrange(from, to));
}

/// A name of which only white space is left, or nothing, has no kept form.
pub proof fn law_no_kept_form(raw: Text, first: int, last: int)
    requires
        0 <= first <= last <= raw.len(),
        forall|i: int|
            0 <= i < first || last <= i < raw.len() ==> is_white_space(#[trigger] raw[i]),
        first < last ==> !is_white_space(raw[first]) && !is_white_space(raw[last - 1]),
        ({
            let visible = raw.subrange(first, last).filter(|c: char| !is_control(c));
            forall|i: int|
                0 <= i < visible.len() && i < 80 ==> is_white_space(#[trigger] visible[i])
        }),
    ensures
        normalized(raw) is None,
{
    let visible = |c: char| !is_control(c);
    if first < last {
        lemma_trim_part(raw, first, last);
        let shown = raw.subrange(first, last).filter(visible);
        let kept = at_most(shown, MAX_CONTEXT_NAME_LEN as nat);
        assert forall|i: int| 0 <= i < kept.len() implies is_white_space(#[trigger] kept[i]) by {
            assert(kept[i] == shown[i]);
        }
        lemma_trim_blank(kept);
    } else {
        lemma_trim_blank(raw);
        reveal(Seq::filter);
        assert(trim(raw) =~= Seq::empty());
        lemma_trim_blank(Seq::empty());
    }
}

/// Texts are in alphabetical order by code point: the first character that differs decides, and
/// where none does, the shorter text comes first.
pub proof fn law_alphabetical_order(a: Text, b: Text, k: int)
    requires
        0 <= k <= a.len(),
        k <= b.len(),
        forall|i: int| 0 <= i < k ==> a[i] == b[i],
        k < a.len() && k < b.len() ==> a[k] != b[k],
    ensures
        k == a.len() ==> (precedes(a, b) <==> k < b.len()),
        k == b.len() ==> !precedes(a, b),
        k < a.len() && k < b.len() ==> (precedes(a, b) <==> (a[k] as int) < (b[k] as int)),
    decreases k,
{
    if k > 0 {
        let x = a.drop_first();
        let y = b.drop_first();
        assert(a[0] == b[0]);
        assert forall|i: int| 0 <= i < k - 1 implies x[i] == y[i] by {
            assert(a[i + 1] == b[i + 1]);
        }
        law_alphabetical_order(x, y, k - 1);
    }
}

/// A string slice holds its text, and none holds none.
pub proof fn law_text_of(text: &str)
    ensures
        text_of(Some(text)) == Some(text@),
        text_of(None) is None,
{
}

/// A name that is kept is neither empty nor too long, holds no control characters, and has no
/// white space around it.
pub proof fn law_kept_names_are_clean(raw: Text)
    ensures
        normalized(raw) matches Some(name) ==> {
            &&& 0 < name.len() <= MAX_CONTEXT_NAME_LEN
            &&& !is_white_space(name[0]) && !is_white_space(name.last())
            &&& forall|i: int| 0 <= i < name.len() ==> !is_control(#[trigger] name[i])
        },
{
    let visible = |c: char| !is_control(c);
    let filtered = trim(raw).filter(visible);
    let kept = at_most(filtered, MAX_CONTEXT_NAME_LEN as nat);
    assert forall|i: int| 0 <= i < kept.len() implies !is_control(#[trigger] kept[i]) by {
        trim(raw).lemma_filter_pred(visible, i);
        assert(kept[i] == filtered[i]);
    }
    let bounds = lemma_trim(kept);
}

/// A name in the form in which it is kept is kept as it is.
pub proof fn law_kept_names_are_stable(raw: Text)
    ensures
        normalized(raw) matches Some(name) ==> normalized(name) == Some(name),
{
    if let Some(name) = normalized(raw) {
        law_kept_names_are_clean(raw);
        let visible = |c: char| !is_control(c);
        let bounds = lemma_trim(name);
        lemma_filter_all(name, visible);
    }
}

/// A test that every character meets leaves the text as it is.
proof fn lemma_filter_all(text: Text, test: spec_fn(char) -> bool)
    requires
        forall|i: int| 0 <= i < text.len() ==> test(#[trigger] text[i]),
    ensures
        text.filter(test) == text,
    decreases text.len(),
{
    reveal(Seq::filter);
    if text.len() > 0 {
        lemma_filter_all(text.drop_last(), test);
        assert(text.drop_last().push(text.last()) =~= text);
    }
}

} // verus!
