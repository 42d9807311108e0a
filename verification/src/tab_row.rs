//! Layout of the tab row in a given number of columns.

use crate::text::Text;
use crate::width::{
    counted, display_width, displayed, ellipsis, ellipsis_string, plain, truncate_to, Measure,
};
use crate::width::law_cut_text_fits;
use vstd::prelude::*;

verus! {

/// Widest label kept for inactive tabs when the row does not fit.
pub const COMPACT_TAB_WIDTH: usize = 5;

/// One rendered cell of the tab row. A cell without a tab marks tabs that are left out.
#[derive(Clone, Debug, PartialEq, Eq)]
pub struct TabCell {
    pub tab: Option<usize>,
    pub text: String,
    pub x: u16,
}

/// What a [`TabCell`] holds.
pub struct CellText {
    pub tab: Option<int>,
    pub text: Text,
    pub x: int,
}

impl DeepView for TabCell {
    type V = CellText;

    open spec fn deep_view(&self) -> CellText {
        CellText {
            tab: match self.tab {
                Some(tab) => Some(tab as int),
                None => None,
            },
            text: self.text@,
            x: self.x as int,
        }
    }
}

/// The columns that the tabs `from..to` take up, each with a blank behind it.
pub open spec fn span(widths: Seq<usize>, from: int, to: int) -> int
    decreases to - from,
{
    if from >= to {
        0
    } else {
        span(widths, from, to - 1) + widths[to - 1] + 1
    }
}

/// The tabs `from..to`, with one blank between any two, fit in the row.
pub open spec fn fits(widths: Seq<usize>, from: int, to: int, width: int) -> bool {
    span(widths, from, to) - 1 <= width
}

/// The tabs that are left of `from..to` when the one farthest from the active tab is dropped, the
/// right one of two equally far ones, until the rest fits or only the active tab is left.
pub open spec fn window(
    widths: Seq<usize>,
    active: int,
    width: int,
    from: int,
    to: int,
) -> (int, int)
    decreases to - from,
{
    if to - from <= 1 || fits(widths, from, to, width) {
        (from, to)
    } else if active - from > to - 1 - active {
        window(widths, active, width, from + 1, to)
    } else {
        window(widths, active, width, from, to - 1)
    }
}

/// How many sides of the row have tabs left out, with `from..to` of `count` tabs in it.
pub open spec fn marker_count(from: int, to: int, count: int) -> int {
    (if from > 0 {
        1int
    } else {
        0int
    }) + (if to < count {
        1int
    } else {
        0int
    })
}

/// The columns to which the active tab is cut so that the markers find room beside `from..to`, if
/// it has to be. At least one column is left.
pub open spec fn squeezed(
    widths: Seq<usize>,
    active: int,
    width: int,
    from: int,
    to: int,
) -> Option<int> {
    let wanted = 2 * marker_count(from, to, widths.len() as int);
    let used = span(widths, from, to) - 1;
    let room = if used < width {
        width - used
    } else {
        0
    };
    if room < wanted {
        let left = widths[active] - (wanted - room);
        Some(
            if left < 1 {
                1
            } else {
                left
            },
        )
    } else {
        None
    }
}

/// Up to where the tabs from `from` can be placed one after the other, the first one at `x`.
pub open spec fn placed_end(
    widths: Seq<usize>,
    from: int,
    to: int,
    x: int,
    width: int,
) -> int
    decreases to - from,
{
    if from >= to || x + widths[from] > width {
        from
    } else {
        placed_end(widths, from + 1, to, x + widths[from] + 1, width)
    }
}

/// A mark of tabs that are left out.
pub open spec fn marker_cell(x: int) -> CellText {
    CellText { tab: None, text: ellipsis(), x }
}

/// The cells of the tabs `from..to`, the first one at `x`.
pub open spec fn tab_cells(
    texts: Seq<Text>,
    widths: Seq<usize>,
    from: int,
    to: int,
    x: int,
) -> Seq<CellText> {
    Seq::new(
        (to - from) as nat,
        |i: int|
            CellText {
                tab: Some(from + i),
                text: texts[from + i],
                x: x + span(widths, from, from + i),
            },
    )
}

/// Where the first tab stands: behind the left marker, where there is one.
pub open spec fn first_x(marked: bool) -> int {
    if marked {
        2
    } else {
        0
    }
}

/// A row with as many of the tabs `from..to` as can be placed: a marker on the left if asked for,
/// the tabs, and a marker on the right if tabs are missing there and a column is free for it.
pub open spec fn placed(
    texts: Seq<Text>,
    widths: Seq<usize>,
    from: int,
    to: int,
    marked: bool,
    width: int,
) -> Seq<CellText> {
    let x = first_x(marked);
    let end = placed_end(widths, from, to, x, width);
    let after = x + span(widths, from, end);
    (if marked {
        seq![marker_cell(0)]
    } else {
        seq![]
    }) + tab_cells(texts, widths, from, end, x) + (if end < texts.len() && after < width {
        seq![marker_cell(after)]
    } else {
        seq![]
    })
}

/// The columns of each text.
pub open spec fn widths_of(m: Measure, texts: Seq<Text>) -> Seq<usize> {
    texts.map_values(|text: Text| (m.text)(text))
}

/// The labels with the inactive ones cut to the compact width.
pub open spec fn compacted(m: Measure, labels: Seq<Text>, active: int) -> Seq<Text> {
    labels.map(
        |i: int, label: Text|
            if i != active && (m.text)(label) > COMPACT_TAB_WIDTH {
                m.truncated(label, COMPACT_TAB_WIDTH as int)
            } else {
                label
            },
    )
}

/// The labels as they are where the whole row fits, and otherwise compacted.
pub open spec fn shrunk(m: Measure, labels: Seq<Text>, active: int, width: int) -> Seq<Text> {
    if fits(widths_of(m, labels), 0, labels.len() as int, width) {
        labels
    } else {
        compacted(m, labels, active)
    }
}

/// The texts with the active one cut to give room to the markers beside `from..to`.
pub open spec fn squeezed_texts(
    m: Measure,
    texts: Seq<Text>,
    active: int,
    width: int,
    from: int,
    to: int,
) -> Seq<Text> {
    match squeezed(widths_of(m, texts), active, width, from, to) {
        Some(columns) => texts.update(active, m.truncated(texts[active], columns)),
        None => texts,
    }
}

/// The tabs `from..to` fit in the row together with the markers of the sides that are left out.
pub open spec fn roomy(widths: Seq<usize>, from: int, to: int, width: int) -> bool {
    span(widths, from, to) - 1 + 2 * marker_count(from, to, widths.len() as int) <= width
}

/// The tabs that are left of `from..to` when more are dropped, in the order of [`window`], until
/// the markers find room too or only the active tab is left.
pub open spec fn marked_window(
    m: Measure,
    texts: Seq<Text>,
    active: int,
    width: int,
    from: int,
    to: int,
) -> (int, int)
    decreases to - from,
{
    if to - from <= 1 || roomy(
        widths_of(m, squeezed_texts(m, texts, active, width, from, to)),
        from,
        to,
        width,
    ) {
        (from, to)
    } else if active - from > to - 1 - active {
        marked_window(m, texts, active, width, from + 1, to)
    } else {
        marked_window(m, texts, active, width, from, to - 1)
    }
}

/// The tabs that fit side by side.
pub open spec fn first_tabs(m: Measure, labels: Seq<Text>, active: int, width: int) -> (int, int) {
    window(widths_of(m, shrunk(m, labels, active, width)), active, width, 0, labels.len() as int)
}

/// The texts of the tabs, with the active one cut to give room to markers beside the tabs that fit
/// side by side.
pub open spec fn first_texts(m: Measure, labels: Seq<Text>, active: int, width: int) -> Seq<Text> {
    let (from, to) = first_tabs(m, labels, active, width);
    squeezed_texts(m, shrunk(m, labels, active, width), active, width, from, to)
}

/// The tabs that fit side by side with their markers.
pub open spec fn shown_tabs(m: Measure, labels: Seq<Text>, active: int, width: int) -> (int, int) {
    let (from, to) = first_tabs(m, labels, active, width);
    marked_window(m, shrunk(m, labels, active, width), active, width, from, to)
}

/// The texts of the tabs, with the active one cut to give room to markers beside those that fit with
/// them.
pub open spec fn row_texts(m: Measure, labels: Seq<Text>, active: int, width: int) -> Seq<Text> {
    let (from, to) = shown_tabs(m, labels, active, width);
    squeezed_texts(m, shrunk(m, labels, active, width), active, width, from, to)
}

/// The distance of a tab from the active one.
pub open spec fn distance(active: int, tab: int) -> int {
    if tab < active {
        active - tab
    } else {
        tab - active
    }
}

/// None of the tabs `from..to` outside `left..right` is nearer to the active tab than one inside.
pub open spec fn nearest(active: int, from: int, to: int, left: int, right: int) -> bool {
    forall|kept: int, dropped: int|
        left <= kept < right && (from <= dropped < left || right <= dropped < to)
            ==> #[trigger] distance(active, dropped) >= #[trigger] distance(active, kept)
}

/// Up to where the tabs `from..to` are placed, behind a marker where tabs are left out before them.
pub open spec fn reached(widths: Seq<usize>, from: int, to: int, width: int) -> int {
    placed_end(widths, from, to, first_x(from > 0), width)
}

/// Placed one after the other, the tabs `from..to` reach beyond the active one, and none that is
/// left out is nearer to it than one that is placed.
pub open spec fn centred(widths: Seq<usize>, active: int, width: int, from: int, to: int) -> bool {
    let end = reached(widths, from, to, width);
    active < end && nearest(active, 0, widths.len() as int, from, end)
}

/// The tabs `from..to` can be placed one after the other as they are: around the active tab, and
/// with a marker for each side that is left out.
pub open spec fn settled(widths: Seq<usize>, active: int, width: int, from: int, to: int) -> bool {
    let end = reached(widths, from, to, width);
    centred(widths, active, width, from, to) && (end < widths.len() ==> first_x(from > 0) + span(
        widths,
        from,
        end,
    ) < width)
}

/// The row has columns for one of the active tab and for a marker on each side that it has tabs on.
pub open spec fn wide_enough(count: int, active: int, width: int) -> bool {
    width >= 1 + 2 * marker_count(active, active + 1, count)
}

/// A text brought to at most `width` columns as they are measured.
pub open spec fn fitted(m: Measure, text: Text, width: int) -> Text {
    if (m.text)(m.truncated(text, width)) <= width {
        m.truncated(text, width)
    } else {
        ellipsis()
    }
}

/// Whether a row of the active tab alone has a marker on its left: the tab keeps a column.
pub open spec fn narrow_marked(active: int, width: int) -> bool {
    active > 0 && width >= 3
}

/// The columns of the active tab in a row of its own. A marker on its right leaves it at least one.
pub open spec fn narrow_columns(count: int, active: int, width: int) -> int {
    let room = width - first_x(narrow_marked(active, width));
    if active + 1 < count && room >= 3 {
        room - 2
    } else {
        room
    }
}

/// The texts of the tabs, with the active one brought to the columns that it has alone.
pub open spec fn narrow_texts(m: Measure, labels: Seq<Text>, active: int, width: int) -> Seq<Text> {
    labels.update(
        active,
        fitted(m, labels[active], narrow_columns(labels.len() as int, active, width)),
    )
}

/// A row of the active tab alone, with the markers that leave it at least one column.
pub open spec fn narrow_row(m: Measure, labels: Seq<Text>, active: int, width: int) -> Seq<CellText> {
    let texts = narrow_texts(m, labels, active, width);
    placed(
        texts,
        widths_of(m, texts),
        active,
        active + 1,
        narrow_marked(active, width),
        width,
    )
}

/// The tabs that fit side by side, placed as far as the markers leave room.
pub open spec fn first_row(m: Measure, labels: Seq<Text>, active: int, width: int) -> Seq<CellText> {
    let texts = first_texts(m, labels, active, width);
    let (from, to) = first_tabs(m, labels, active, width);
    placed(texts, widths_of(m, texts), from, to, from > 0, width)
}

/// The tabs that fit side by side with their markers, placed.
pub open spec fn marked_row(m: Measure, labels: Seq<Text>, active: int, width: int) -> Seq<CellText> {
    let texts = row_texts(m, labels, active, width);
    let (from, to) = shown_tabs(m, labels, active, width);
    placed(texts, widths_of(m, texts), from, to, from > 0, width)
}

/// The tab row of `labels` with tab `active` in front, in `width` columns. Where the tabs that fit
/// side by side cannot be placed with their markers, further ones drop until they can. If that
/// leaves the active tab without room, it is cut to what the markers leave of the row. A row that is
/// too short for that shows the tabs that fit if it can, without the markers that do not.
pub open spec fn row(m: Measure, labels: Seq<Text>, active: int, width: int) -> Seq<CellText> {
    let (start, end) = first_tabs(m, labels, active, width);
    let first = widths_of(m, first_texts(m, labels, active, width));
    let (from, to) = shown_tabs(m, labels, active, width);
    if settled(first, active, width, start, end) {
        first_row(m, labels, active, width)
    } else if roomy(widths_of(m, row_texts(m, labels, active, width)), from, to, width) {
        marked_row(m, labels, active, width)
    } else if !wide_enough(labels.len() as int, active, width) && centred(
        first,
        active,
        width,
        start,
        end,
    ) {
        first_row(m, labels, active, width)
    } else {
        narrow_row(m, labels, active, width)
    }
}

/// The tab that counts as active: the last one where `active` lies beyond it.
pub open spec fn active_tab(labels: Seq<Text>, active: int) -> int {
    if active < labels.len() {
        active
    } else {
        labels.len() - 1
    }
}

/// The tab row, which is empty without tabs or columns.
pub open spec fn tab_row(m: Measure, labels: Seq<Text>, active: int, width: int) -> Seq<CellText> {
    if labels.len() == 0 || width <= 0 {
        Seq::empty()
    } else {
        row(m, labels, active_tab(labels, active), width)
    }
}

/// Tabs take up no negative columns, and more tabs take up more.
pub proof fn lemma_span_grows(widths: Seq<usize>, from: int, mid: int, to: int)
    requires
        from <= mid <= to,
    ensures
        0 <= span(widths, from, mid) <= span(widths, from, to),
        from < to ==> span(widths, from, to) >= 1,
    decreases to - from,
{
    if from < to {
        if mid < to {
            lemma_span_grows(widths, from, mid, to - 1);
        } else {
            lemma_span_grows(widths, from, to - 1, to - 1);
        }
    }
}

/// The columns from a tab on, with the first tab apart.
proof fn lemma_span_first(widths: Seq<usize>, from: int, to: int)
    requires
        from < to,
    ensures
        span(widths, from, to) == widths[from] + 1 + span(widths, from + 1, to),
    decreases to - from,
{
    if from + 1 < to {
        lemma_span_first(widths, from, to - 1);
    } else {
        assert(span(widths, from, from) == 0);
        assert(span(widths, from + 1, to) == 0);
    }
}

/// The columns that the tabs `from..to` take up, cut off at the largest number.
fn span_of(widths: &Vec<usize>, from: usize, to: usize) -> (r: usize)
    requires
        from <= to <= widths@.len(),
    ensures
        r as int == if span(widths@, from as int, to as int) <= usize::MAX {
            span(widths@, from as int, to as int)
        } else {
            usize::MAX as int
        },
{
    let mut r: usize = 0;
    for i in from..to
        invariant
            from <= to <= widths@.len(),
            r as int == if span(widths@, from as int, i as int) <= usize::MAX {
                span(widths@, from as int, i as int)
            } else {
                usize::MAX as int
            },
    {
        proof {
            lemma_span_grows(widths@, from as int, i as int, i as int);
        }
        r = r.saturating_add(widths[i]).saturating_add(1);
    }
    r
}

/// Which tabs stay, given the columns of each.
pub fn visible_window(widths: &Vec<usize>, active: usize, width: u16) -> (r: (usize, usize))
    requires
        active < widths@.len(),
    ensures
        r.0 <= active < r.1 <= widths@.len(),
        (r.0 as int, r.1 as int) == window(
            widths@,
            active as int,
            width as int,
            0,
            widths@.len() as int,
        ),
{
    let mut from: usize = 0;
    let mut to: usize = widths.len();
    while to - from > 1 && span_of(widths, from, to) > width as usize + 1
        invariant
            from <= active < to <= widths@.len(),
            window(widths@, active as int, width as int, from as int, to as int) == window(
                widths@,
                active as int,
                width as int,
                0,
                widths@.len() as int,
            ),
        decreases to - from,
    {
        if active - from > to - 1 - active {
            from += 1;
        } else {
            to -= 1;
        }
    }
    (from, to)
}

/// To how many columns the active tab is cut to give room to the markers, if it has to be.
pub fn squeeze(
    widths: &Vec<usize>,
    active: usize,
    width: u16,
    from: usize,
    to: usize,
) -> (r: Option<usize>)
    requires
        from <= active < to <= widths@.len(),
    ensures
        match r {
            Some(columns) => squeezed(
                widths@,
                active as int,
                width as int,
                from as int,
                to as int,
            ) == Some(columns as int) && columns >= 1,
            None => squeezed(widths@, active as int, width as int, from as int, to as int) is None,
        },
{
    let wanted: usize = marker_columns(widths.len(), from, to);
    proof {
        lemma_span_grows(widths@, from as int, to as int, to as int);
    }
    let used: usize = span_of(widths, from, to) - 1;
    let room: usize = (width as usize).saturating_sub(used);
    if room < wanted {
        let left: usize = widths[active].saturating_sub(wanted - room);
        Some(
            if left < 1 {
                1
            } else {
                left
            },
        )
    } else {
        None
    }
}

/// Whether the tabs `from..to` fit in the row together with the markers of what is left out.
pub fn has_room(widths: &Vec<usize>, from: usize, to: usize, width: u16) -> (r: bool)
    requires
        from < to <= widths@.len(),
    ensures
        r == roomy(widths@, from as int, to as int, width as int),
{
    let markers: usize = marker_columns(widths.len(), from, to);
    proof {
        lemma_span_grows(widths@, from as int, to as int, to as int);
    }
    span_of(widths, from, to).saturating_add(markers) <= width as usize + 1
}

/// Up to where the tabs `from..to` are placed, behind a marker where tabs are left out before them,
/// and the column behind the last one and its blank.
fn reach(widths: &Vec<usize>, from: usize, to: usize, width: u16) -> (r: (usize, usize))
    requires
        from <= to <= widths@.len(),
    ensures
        from <= r.0 <= to,
        r.0 == reached(widths@, from as int, to as int, width as int),
        r.1 == first_x(from > 0) + span(widths@, from as int, r.0 as int),
{
    let mut x: usize = if from > 0 {
        2
    } else {
        0
    };
    let mut i: usize = from;
    while i < to && x <= width as usize && widths[i] <= width as usize - x
        invariant
            from <= i <= to <= widths@.len(),
            x as int == first_x(from > 0) + span(widths@, from as int, i as int),
            x <= width as usize + 2,
            reached(widths@, from as int, to as int, width as int) == placed_end(
                widths@,
                i as int,
                to as int,
                x as int,
                width as int,
            ),
        decreases to - i,
    {
        x = x + widths[i] + 1;
        i += 1;
    }
    (i, x)
}

/// Whether the tabs `from..to`, placed one after the other, reach beyond the active one, and none
/// that is left out is nearer to it than one that is placed.
pub fn is_centred(widths: &Vec<usize>, active: usize, width: u16, from: usize, to: usize) -> (r: bool)
    requires
        from <= active < to <= widths@.len(),
    ensures
        r == centred(widths@, active as int, width as int, from as int, to as int),
{
    let (end, _) = reach(widths, from, to, width);
    proof {
        if active < end {
            lemma_nearest(
                active as int,
                widths@.len() as int,
                from as int,
                end as int,
            );
        }
    }
    active < end && (from == 0 || active - from + 1 >= end - 1 - active) && (end == widths.len()
        || end - active >= active - from)
}

/// Whether the tabs `from..to` can be placed as they are: around the active tab, and with a marker
/// for each side that is left out.
pub fn is_settled(widths: &Vec<usize>, active: usize, width: u16, from: usize, to: usize) -> (r: bool)
    requires
        from <= active < to <= widths@.len(),
    ensures
        r == settled(widths@, active as int, width as int, from as int, to as int),
{
    let (end, after) = reach(widths, from, to, width);
    is_centred(widths, active, width, from, to) && (end == widths.len() || after < width as usize)
}

/// The columns of the markers beside the tabs `from..to` of `count`, with a blank for each.
fn marker_columns(count: usize, from: usize, to: usize) -> (r: usize)
    ensures
        r == 2 * marker_count(from as int, to as int, count as int),
{
    let left: usize = if from > 0 {
        2
    } else {
        0
    };
    let right: usize = if to < count {
        2
    } else {
        0
    };
    left + right
}

/// Places as many of the tabs `from..to` as fit, with markers for what is left out.
pub fn place(
    texts: &Vec<String>,
    widths: &Vec<usize>,
    from: usize,
    to: usize,
    marked: bool,
    width: u16,
) -> (r: Vec<TabCell>)
    requires
        texts@.len() == widths@.len(),
        from <= to <= widths@.len(),
    ensures
        r.deep_view() == placed(
            texts.deep_view(),
            widths@,
            from as int,
            to as int,
            marked,
            width as int,
        ),
{
    let ghost views = texts.deep_view();
    let ghost start = first_x(marked);
    let ghost lead: Seq<CellText> = if marked {
        seq![marker_cell(0)]
    } else {
        seq![]
    };
    let mut cells: Vec<TabCell> = Vec::new();
    let mut x: usize = 0;
    if marked {
        cells.push(TabCell { tab: None, text: ellipsis_string(), x: 0 });
        x = 2;
    }
    proof {
        assert(cells.deep_view() =~= lead);
        assert(tab_cells(views, widths@, from as int, from as int, start) =~= Seq::empty());
    }
    let mut i: usize = from;
    while i < to && x <= width as usize && widths[i] <= width as usize - x
        invariant
            from <= i <= to <= widths@.len(),
            texts@.len() == widths@.len(),
            views == texts.deep_view(),
            start == first_x(marked),
            x as int == start + span(widths@, from as int, i as int),
            x <= width as usize + 2,
            cells.deep_view() == lead + tab_cells(views, widths@, from as int, i as int, start),
            placed_end(widths@, from as int, to as int, start, width as int) == placed_end(
                widths@,
                i as int,
                to as int,
                x as int,
                width as int,
            ),
        decreases to - i,
    {
        let ghost before = cells.deep_view();
        let cell = TabCell { tab: Some(i), text: texts[i].clone(), x: x as u16 };
        cells.push(cell);
        proof {
            assert(cells.deep_view() =~= before.push(cell.deep_view()));
            assert(tab_cells(views, widths@, from as int, i + 1, start) =~= tab_cells(
                views,
                widths@,
                from as int,
                i as int,
                start,
            ).push(cell.deep_view()));
        }
        x = x + widths[i] + 1;
        i += 1;
    }
    if i < texts.len() && x < width as usize {
        let ghost before = cells.deep_view();
        let cell = TabCell { tab: None, text: ellipsis_string(), x: x as u16 };
        cells.push(cell);
        proof {
            assert(cells.deep_view() =~= before.push(cell.deep_view()));
            assert(cell.deep_view() == marker_cell(x as int));
        }
    }
    proof {
        assert(placed_end(widths@, from as int, to as int, start, width as int) == i);
        assert(cells.deep_view() =~= placed(
            views,
            widths@,
            from as int,
            to as int,
            marked,
            width as int,
        ));
    }
    cells
}

/// The row starts at its first column, every cell lies within it, and one blank separates it from
/// the next.
pub open spec fn tidy(m: Measure, cells: Seq<CellText>, width: int) -> bool {
    &&& cells.len() > 0 ==> cells[0].x == 0
    &&& forall|i: int|
        #![trigger cells[i]]
        0 <= i < cells.len() ==> 0 <= cells[i].x && cells[i].x + (m.text)(cells[i].text) <= width
    &&& forall|i: int, j: int|
        #![trigger cells[i], cells[j]]
        0 <= i && j == i + 1 && j < cells.len() ==> cells[j].x == cells[i].x + (m.text)(
            cells[i].text,
        ) + 1
}

/// The row has a cell for a tab.
pub open spec fn shows(cells: Seq<CellText>, tab: int) -> bool {
    exists|i: int| 0 <= i < cells.len() && (#[trigger] cells[i]).tab == Some(tab)
}

/// Tabs are placed up to some place of the window, and each of them ends within the row.
pub proof fn lemma_placed_end(widths: Seq<usize>, from: int, to: int, x: int, width: int)
    requires
        from <= to,
    ensures
        from <= placed_end(widths, from, to, x, width) <= to,
        forall|k: int|
            from <= k < placed_end(widths, from, to, x, width) ==> x + #[trigger] span(
                widths,
                from,
                k,
            ) + widths[k] <= width,
    decreases to - from,
{
    let end = placed_end(widths, from, to, x, width);
    if from < to && x + widths[from] <= width {
        lemma_placed_end(widths, from + 1, to, x + widths[from] + 1, width);
        assert forall|k: int| from <= k < end implies x + #[trigger] span(widths, from, k)
            + widths[k] <= width by {
            if from < k {
                lemma_span_first(widths, from, k);
                assert(x + widths[from] + 1 + span(widths, from + 1, k) + widths[k] <= width);
            }
        }
    }
}

/// A tab of the window that ends within the row is placed.
pub proof fn lemma_placed_reaches(widths: Seq<usize>, from: int, to: int, x: int, width: int, k: int)
    requires
        from <= k < to,
        x + span(widths, from, k) + widths[k] <= width,
    ensures
        placed_end(widths, from, to, x, width) > k,
    decreases to - from,
{
    lemma_span_grows(widths, from, from, k);
    if from < k {
        lemma_span_first(widths, from, k);
        lemma_span_grows(widths, from + 1, from + 1, k);
        lemma_placed_reaches(widths, from + 1, to, x + widths[from] + 1, width, k);
    } else {
        lemma_placed_end(widths, from + 1, to, x + widths[from] + 1, width);
    }
}

/// A placed row is tidy.
proof fn lemma_placed_tidy(m: Measure, texts: Seq<Text>, from: int, to: int, marked: bool, width: int)
    requires
        (m.text)(ellipsis()) == 1,
        0 <= from <= to <= texts.len(),
        width >= 1,
    ensures
        tidy(m, placed(texts, widths_of(m, texts), from, to, marked, width), width),
{
    let widths = widths_of(m, texts);
    let x = first_x(marked);
    let end = placed_end(widths, from, to, x, width);
    let cells = placed(texts, widths, from, to, marked, width);
    let lead: int = if marked {
        1
    } else {
        0
    };
    lemma_placed_end(widths, from, to, x, width);
    assert(span(widths, from, from) == 0);
    assert forall|i: int|
        #![trigger cells[i]]
        0 <= i < cells.len() implies 0 <= cells[i].x && cells[i].x + (m.text)(cells[i].text)
        <= width by {
        if lead <= i < lead + (end - from) {
            let k = from + (i - lead);
            assert(cells[i] == tab_cells(texts, widths, from, end, x)[i - lead]);
            assert(widths[k] == (m.text)(texts[k]));
            assert(x + span(widths, from, k) + widths[k] <= width);
            lemma_span_grows(widths, from, from, k);
        } else {
            lemma_span_grows(widths, from, from, end);
        }
    }
    assert forall|i: int, j: int|
        #![trigger cells[i], cells[j]]
        0 <= i && j == i + 1 && j < cells.len() implies cells[j].x == cells[i].x + (m.text)(
        cells[i].text,
    ) + 1 by {
        if i >= lead {
            let k = from + (i - lead);
            assert(cells[i] == tab_cells(texts, widths, from, end, x)[i - lead]);
            assert(widths[k] == (m.text)(texts[k]));
            assert(span(widths, from, k + 1) == span(widths, from, k) + widths[k] + 1);
            if j < lead + (end - from) {
                assert(cells[j] == tab_cells(texts, widths, from, end, x)[j - lead]);
            }
        } else {
            assert(span(widths, from, from) == 0);
            if j < lead + (end - from) {
                assert(cells[j] == tab_cells(texts, widths, from, end, x)[j - lead]);
            }
        }
    }
}

/// A placed row shows exactly the tabs up to where it got.
pub proof fn lemma_placed_shows(
    texts: Seq<Text>,
    widths: Seq<usize>,
    from: int,
    to: int,
    marked: bool,
    width: int,
    tab: int,
)
    requires
        0 <= from <= to <= texts.len(),
    ensures
        shows(placed(texts, widths, from, to, marked, width), tab) <==> from <= tab < placed_end(
            widths,
            from,
            to,
            first_x(marked),
            width,
        ),
{
    let x = first_x(marked);
    let end = placed_end(widths, from, to, x, width);
    let cells = placed(texts, widths, from, to, marked, width);
    let lead: int = if marked {
        1
    } else {
        0
    };
    lemma_placed_end(widths, from, to, x, width);
    if from <= tab < end {
        let i = lead + (tab - from);
        assert(cells[i] == tab_cells(texts, widths, from, end, x)[tab - from]);
        assert(cells[i].tab == Some(tab));
    }
    if shows(cells, tab) {
        let i = choose|i: int| 0 <= i < cells.len() && (#[trigger] cells[i]).tab == Some(tab);
        assert(lead <= i < lead + (end - from));
        assert(cells[i] == tab_cells(texts, widths, from, end, x)[i - lead]);
    }
}

/// The window is a part of the row around the active tab.
pub proof fn lemma_window(widths: Seq<usize>, active: int, width: int, from: int, to: int)
    requires
        from <= active < to,
    ensures
        ({
            let (left, right) = window(widths, active, width, from, to);
            &&& from <= left <= active < right <= to
            &&& right - left <= 1 || fits(widths, left, right, width)
        }),
    decreases to - from,
{
    if to - from <= 1 || fits(widths, from, to, width) {
    } else if active - from > to - 1 - active {
        lemma_window(widths, active, width, from + 1, to);
    } else {
        lemma_window(widths, active, width, from, to - 1);
    }
}

/// The tabs `left..right` of `count` are the nearest ones exactly when the next one on either side is
/// no nearer than the last one on the other.
pub proof fn lemma_nearest(active: int, count: int, left: int, right: int)
    requires
        0 <= left <= active < right <= count,
    ensures
        nearest(active, 0, count, left, right) <==> (left == 0 || active - left + 1 >= right - 1
            - active) && (right == count || right - active >= active - left),
{
    if nearest(active, 0, count, left, right) {
        if left > 0 {
            assert(distance(active, left - 1) >= distance(active, right - 1));
        }
        if right < count {
            assert(distance(active, right) >= distance(active, left));
        }
    }
}

/// The window keeps the nearest tabs.
proof fn lemma_window_nearest(widths: Seq<usize>, active: int, width: int, from: int, to: int)
    requires
        from <= active < to,
    ensures
        ({
            let (left, right) = window(widths, active, width, from, to);
            nearest(active, from, to, left, right)
        }),
    decreases to - from,
{
    lemma_window(widths, active, width, from, to);
    if to - from <= 1 || fits(widths, from, to, width) {
    } else if active - from > to - 1 - active {
        lemma_window(widths, active, width, from + 1, to);
        lemma_window_nearest(widths, active, width, from + 1, to);
    } else {
        lemma_window(widths, active, width, from, to - 1);
        lemma_window_nearest(widths, active, width, from, to - 1);
    }
}

/// The window with room for its markers is a part of the row around the active tab, and keeps the
/// nearest tabs.
proof fn lemma_marked_window(
    m: Measure,
    texts: Seq<Text>,
    active: int,
    width: int,
    from: int,
    to: int,
)
    requires
        from <= active < to,
    ensures
        ({
            let (left, right) = marked_window(m, texts, active, width, from, to);
            let widths = widths_of(m, squeezed_texts(m, texts, active, width, left, right));
            &&& from <= left <= active < right <= to
            &&& right - left <= 1 || roomy(widths, left, right, width)
            &&& nearest(active, from, to, left, right)
        }),
    decreases to - from,
{
    if to - from <= 1 || roomy(
        widths_of(m, squeezed_texts(m, texts, active, width, from, to)),
        from,
        to,
        width,
    ) {
    } else if active - from > to - 1 - active {
        lemma_marked_window(m, texts, active, width, from + 1, to);
    } else {
        lemma_marked_window(m, texts, active, width, from, to - 1);
    }
}

/// The tabs that rows are made of, and their texts.
pub proof fn lemma_row_texts(m: Measure, labels: Seq<Text>, active: int, width: int)
    requires
        0 <= active < labels.len(),
    ensures
        shrunk(m, labels, active, width).len() == labels.len(),
        first_texts(m, labels, active, width).len() == labels.len(),
        row_texts(m, labels, active, width).len() == labels.len(),
        ({
            let (start, end) = first_tabs(m, labels, active, width);
            0 <= start <= active < end <= labels.len()
        }),
        ({
            let (from, to) = shown_tabs(m, labels, active, width);
            let widths = widths_of(m, row_texts(m, labels, active, width));
            &&& 0 <= from <= active < to <= labels.len()
            &&& to - from <= 1 || roomy(widths, from, to, width)
            &&& nearest(active, 0, labels.len() as int, from, to)
        }),
{
    let texts = shrunk(m, labels, active, width);
    let widths = widths_of(m, texts);
    let count = labels.len() as int;
    let (from, to) = window(widths, active, width, 0, count);
    lemma_window(widths, active, width, 0, count);
    lemma_window_nearest(widths, active, width, 0, count);
    lemma_marked_window(m, texts, active, width, from, to);
}

/// All tabs of a row with room for its markers are placed.
pub proof fn lemma_roomy(widths: Seq<usize>, width: int, from: int, to: int)
    requires
        0 <= from < to <= widths.len(),
        roomy(widths, from, to, width),
    ensures
        reached(widths, from, to, width) == to,
{
    let x = first_x(from > 0);
    assert(span(widths, from, to) == span(widths, from, to - 1) + widths[to - 1] + 1);
    lemma_placed_reaches(widths, from, to, x, width, to - 1);
    lemma_placed_end(widths, from, to, x, width);
}

/// The narrow row shows the active tab and no other.
pub proof fn lemma_narrow_row(m: Measure, labels: Seq<Text>, active: int, width: int)
    requires
        (m.text)(ellipsis()) == 1,
        0 <= active < labels.len(),
        width >= 1,
    ensures
        tidy(m, narrow_row(m, labels, active, width), width),
        forall|tab: int| #[trigger]
            shows(narrow_row(m, labels, active, width), tab) <==> tab == active,
        ({
            let widths = widths_of(m, narrow_texts(m, labels, active, width));
            let x = first_x(narrow_marked(active, width));
            &&& widths[active] <= narrow_columns(labels.len() as int, active, width)
            &&& placed_end(widths, active, active + 1, x, width) == active + 1
        }),
{
    let marked = narrow_marked(active, width);
    let texts = narrow_texts(m, labels, active, width);
    let widths = widths_of(m, texts);
    assert(widths[active] == (m.text)(texts[active]));
    assert(span(widths, active, active) == 0);
    lemma_placed_reaches(widths, active, active + 1, first_x(marked), width, active);
    lemma_placed_end(widths, active, active + 1, first_x(marked), width);
    assert forall|tab: int| #[trigger]
        shows(narrow_row(m, labels, active, width), tab) <==> tab == active by {
        lemma_placed_shows(texts, widths, active, active + 1, marked, width, tab);
    }
    lemma_placed_tidy(m, texts, active, active + 1, marked, width);
}

/// What a row is placed from: the texts, the tabs `from..to`, and whether it has a left marker.
pub open spec fn row_parts(m: Measure, labels: Seq<Text>, active: int, width: int) -> (
    Seq<Text>,
    int,
    int,
    bool,
) {
    let (start, end) = first_tabs(m, labels, active, width);
    let first = first_texts(m, labels, active, width);
    let (from, to) = shown_tabs(m, labels, active, width);
    let texts = row_texts(m, labels, active, width);
    if settled(widths_of(m, first), active, width, start, end) {
        (first, start, end, start > 0)
    } else if roomy(widths_of(m, texts), from, to, width) {
        (texts, from, to, from > 0)
    } else if !wide_enough(labels.len() as int, active, width) && centred(
        widths_of(m, first),
        active,
        width,
        start,
        end,
    ) {
        (first, start, end, start > 0)
    } else {
        (
            narrow_texts(m, labels, active, width),
            active,
            active + 1,
            narrow_marked(active, width),
        )
    }
}

/// A row is placed from its parts, reaches beyond the active tab, and shows the nearest tabs.
pub proof fn lemma_row(m: Measure, labels: Seq<Text>, active: int, width: int) -> (end: int)
    requires
        (m.text)(ellipsis()) == 1,
        0 <= active < labels.len(),
        width >= 1,
    ensures
        ({
            let (texts, from, to, marked) = row_parts(m, labels, active, width);
            let widths = widths_of(m, texts);
            let cells = row(m, labels, active, width);
            let count = labels.len() as int;
            &&& texts.len() == count
            &&& cells == placed(texts, widths, from, to, marked, width)
            &&& end == placed_end(widths, from, to, first_x(marked), width)
            &&& 0 <= from <= active < end <= to <= count
            &&& nearest(active, 0, count, from, end)
            &&& from > 0 && width >= 3 ==> marked
            &&& end < count && wide_enough(count, active, width) ==> first_x(marked) + span(
                widths,
                from,
                end,
            ) < width
            &&& forall|tab: int| #[trigger] shows(cells, tab) <==> from <= tab < end
        }),
{
    let (texts, from, to, marked) = row_parts(m, labels, active, width);
    let widths = widths_of(m, texts);
    let cells = row(m, labels, active, width);
    let count = labels.len() as int;
    let end = placed_end(widths, from, to, first_x(marked), width);
    let first = widths_of(m, first_texts(m, labels, active, width));
    let firsts = first_tabs(m, labels, active, width);
    let marked_widths = widths_of(m, row_texts(m, labels, active, width));
    let shown = shown_tabs(m, labels, active, width);
    lemma_row_texts(m, labels, active, width);
    lemma_placed_end(widths, from, to, first_x(marked), width);
    if settled(first, active, width, firsts.0, firsts.1) {
    } else if roomy(marked_widths, shown.0, shown.1, width) {
        lemma_roomy(marked_widths, width, shown.0, shown.1);
    } else if !wide_enough(count, active, width) && centred(
        first,
        active,
        width,
        firsts.0,
        firsts.1,
    ) {
    } else {
        lemma_narrow_row(m, labels, active, width);
        assert(span(widths, active, active) == 0);
        assert(span(widths, active, active + 1) == widths[active] + 1);
    }
    assert forall|tab: int| #[trigger] shows(cells, tab) <==> from <= tab < end by {
        lemma_placed_shows(texts, widths, from, to, marked, width, tab);
    }
    end
}

/// Tabs are dropped by their distance from the active tab: none that is dropped is nearer than one
/// that is shown.
pub proof fn law_tabs_drop_by_distance(
    m: Measure,
    labels: Seq<Text>,
    active: int,
    width: int,
    kept: int,
    dropped: int,
)
    requires
        (m.text)(ellipsis()) == 1,
        0 <= active,
        0 <= kept < labels.len(),
        0 <= dropped < labels.len(),
        shows(tab_row(m, labels, active, width), kept),
        !shows(tab_row(m, labels, active, width), dropped),
    ensures
        distance(active_tab(labels, active), dropped) >= distance(
            active_tab(labels, active),
            kept,
        ),
{
    if width > 0 {
        let tab = active_tab(labels, active);
        let end = lemma_row(m, labels, tab, width);
    }
}

/// Every cell of a tab row lies within its columns, with one blank between any two neighbours.
pub proof fn law_tab_row_is_tidy(m: Measure, labels: Seq<Text>, active: int, width: int)
    requires
        (m.text)(ellipsis()) == 1,
        0 <= active,
    ensures
        tidy(m, tab_row(m, labels, active, width), width),
{
    if labels.len() > 0 && width > 0 {
        let tab = active_tab(labels, active);
        let end = lemma_row(m, labels, tab, width);
        let (texts, from, to, marked) = row_parts(m, labels, tab, width);
        lemma_placed_tidy(m, texts, from, to, marked, width);
    }
}

/// The active tab is never hidden.
pub proof fn law_active_tab_is_shown(m: Measure, labels: Seq<Text>, active: int, width: int)
    requires
        (m.text)(ellipsis()) == 1,
        0 <= active,
        labels.len() > 0,
        width > 0,
    ensures
        shows(tab_row(m, labels, active, width), active_tab(labels, active)),
{
    let end = lemma_row(m, labels, active_tab(labels, active), width);
}

/// The cell is a mark of tabs that are left out.
pub open spec fn marks(cell: CellText) -> bool {
    cell.tab is None && cell.text == ellipsis()
}

/// Each side of the row with tabs left out has its marker, where the row has columns for one of the
/// active tab and for a marker on each side that it has tabs on. The left marker needs three columns
/// in any case.
pub open spec fn sides_marked(cells: Seq<CellText>, count: int, active: int, width: int) -> bool {
    &&& !shows(cells, 0) && width >= 3 ==> marks(cells[0])
    &&& !shows(cells, count - 1) && wide_enough(count, active, width) ==> marks(cells.last())
}

/// Dropped sides are marked.
///
/// A row that is too short for a column of the active tab beside the markers cannot mark them all.
pub proof fn law_dropped_sides_are_marked(m: Measure, labels: Seq<Text>, active: int, width: int)
    requires
        (m.text)(ellipsis()) == 1,
        0 <= active,
        labels.len() > 0,
        width > 0,
    ensures
        sides_marked(
            tab_row(m, labels, active, width),
            labels.len() as int,
            active_tab(labels, active),
            width,
        ),
{
    let end = lemma_row(m, labels, active_tab(labels, active), width);
}

/// Where all labels fit side by side, the row shows each of them in full.
pub proof fn law_fitting_row_is_complete(m: Measure, labels: Seq<Text>, active: int, width: int)
    requires
        0 <= active,
        labels.len() > 0,
        width > 0,
        fits(widths_of(m, labels), 0, labels.len() as int, width),
    ensures
        tab_row(m, labels, active, width) == tab_cells(
            labels,
            widths_of(m, labels),
            0,
            labels.len() as int,
            0,
        ),
{
    let tab = active_tab(labels, active);
    let count = labels.len() as int;
    let widths = widths_of(m, labels);
    assert(shrunk(m, labels, tab, width) == labels);
    assert(squeezed(widths, tab, width, 0, count) is None);
    assert(squeezed_texts(m, labels, tab, width, 0, count) == labels);
    assert(first_tabs(m, labels, tab, width) == (0int, count));
    assert(first_texts(m, labels, tab, width) == labels);
    assert(span(widths, 0, tab + 1) == span(widths, 0, tab) + widths[tab] + 1);
    lemma_span_grows(widths, 0, tab + 1, count);
    lemma_placed_reaches(widths, 0, count, 0, width, count - 1);
    lemma_placed_end(widths, 0, count, 0, width);
    assert(tab_row(m, labels, active, width) =~= tab_cells(labels, widths, 0, count, 0));
}

/// Where not all labels fit side by side, the inactive tabs are no wider than the compact width.
pub proof fn law_inactive_tabs_shrink(labels: Seq<Text>, active: int, width: int, i: int)
    requires
        0 <= active,
        forall|k: int| 0 <= k < labels.len() ==> (#[trigger] labels[k]).len() <= usize::MAX,
        !fits(widths_of(counted(), labels), 0, labels.len() as int, width),
        0 <= i < tab_row(counted(), labels, active, width).len(),
    ensures
        ({
            let cell = tab_row(counted(), labels, active, width)[i];
            cell.tab matches Some(tab) ==> tab == active_tab(labels, active) || cell.text.len()
                <= COMPACT_TAB_WIDTH
        }),
{
    let m = counted();
    let tab = active_tab(labels, active);
    let cells = tab_row(m, labels, active, width);
    let (texts, from, to, marked) = row_parts(m, labels, tab, width);
    let end = lemma_row(m, labels, tab, width);
    if let Some(k) = cells[i].tab {
        let x = first_x(marked);
        let lead: int = if marked {
            1
        } else {
            0
        };
        assert(lead <= i < lead + (end - from));
        assert(cells[i] == tab_cells(texts, widths_of(m, texts), from, end, x)[i - lead]);
        assert(cells[i].text == texts[k]);
        if k != tab {
            assert(texts[k] == compacted(m, labels, tab)[k]);
            law_cut_text_fits(labels[k], COMPACT_TAB_WIDTH as int);
        }
    }
}

/// Each text is plain.
pub open spec fn all_plain(texts: Seq<Text>) -> bool {
    forall|i: int| 0 <= i < texts.len() ==> plain(#[trigger] texts[i])
}

/// The columns of each text.
fn measure(texts: &Vec<String>) -> (widths: Vec<usize>)
    ensures
        widths@ == widths_of(displayed(), texts.deep_view()),
        all_plain(texts.deep_view()) ==> widths@ == widths_of(counted(), texts.deep_view()),
{
    let mut widths: Vec<usize> = Vec::new();
    let ghost views = texts.deep_view();
    for i in 0..texts.len()
        invariant
            views == texts.deep_view(),
            widths@ =~= widths_of(displayed(), views).take(i as int),
            all_plain(views) ==> widths@ =~= widths_of(counted(), views).take(i as int),
    {
        proof {
            assert(views[i as int] == texts@[i as int]@);
        }
        widths.push(display_width(texts[i].as_str()));
    }
    widths
}

/// Cuts the inactive labels to the compact width.
fn compact(texts: &mut Vec<String>, widths: &Vec<usize>, active: usize)
    requires
        widths@ == widths_of(displayed(), old(texts).deep_view()),
        all_plain(old(texts).deep_view()) ==> widths@ == widths_of(
            counted(),
            old(texts).deep_view(),
        ),
    ensures
        final(texts).deep_view() == compacted(
            displayed(),
            old(texts).deep_view(),
            active as int,
        ),
        all_plain(old(texts).deep_view()) ==> all_plain(final(texts).deep_view()),
        all_plain(old(texts).deep_view()) ==> compacted(
            counted(),
            old(texts).deep_view(),
            active as int,
        ) == final(texts).deep_view(),
{
    let ghost labels = texts.deep_view();
    let ghost short = compacted(displayed(), labels, active as int);
    let ghost short_counted = compacted(counted(), labels, active as int);
    for i in 0..widths.len()
        invariant
            widths@ == widths_of(displayed(), labels),
            all_plain(labels) ==> widths@ == widths_of(counted(), labels),
            short == compacted(displayed(), labels, active as int),
            short_counted == compacted(counted(), labels, active as int),
            texts@.len() == labels.len(),
            forall|j: int|
                0 <= j < labels.len() ==> #[trigger] texts.deep_view()[j] == if j < i {
                    short[j]
                } else {
                    labels[j]
                },
            all_plain(labels) ==> all_plain(short.take(i as int)) && short.take(i as int)
                == short_counted.take(i as int),
    {
        proof {
            assert(texts.deep_view()[i as int] == labels[i as int]);
            if all_plain(labels) {
                assert(plain(labels[i as int]));
                assert(widths_of(counted(), labels)[i as int] == widths@[i as int]);
            }
        }
        if i != active && widths[i] > COMPACT_TAB_WIDTH {
            let text = truncate_to(texts[i].as_str(), COMPACT_TAB_WIDTH);
            let ghost before = texts.deep_view();
            texts.set(i, text);
            proof {
                assert(texts.deep_view() =~= before.update(i as int, text@));
                assert(short[i as int] == text@);
            }
        }
        proof {
            if all_plain(labels) {
                assert(short[i as int] == short_counted[i as int]);
                assert(plain(short[i as int]));
            }
            assert(short.take(i + 1) =~= short.take(i as int).push(short[i as int]));
            assert(short_counted.take(i + 1) =~= short_counted.take(i as int).push(
                short_counted[i as int],
            ));
        }
    }
    proof {
        assert(texts.deep_view() =~= short);
        assert(short.take(short.len() as int) =~= short);
        assert(short_counted.take(short.len() as int) =~= short_counted);
    }
}

/// Brings a text to at most `width` columns as they are measured.
fn fit(text: &str, width: usize) -> (r: String)
    ensures
        r@ == fitted(displayed(), text@, width as int),
        plain(text@) ==> plain(r@) && r@ == fitted(counted(), text@, width as int),
{
    let short = truncate_to(text, width);
    if display_width(short.as_str()) <= width {
        short
    } else {
        ellipsis_string()
    }
}

/// The strings of the labels.
fn owned(labels: &[&str]) -> (texts: Vec<String>)
    ensures
        texts@.len() == labels@.len(),
        texts.deep_view() == labels.deep_view(),
{
    let mut texts: Vec<String> = Vec::new();
    for i in 0..labels.len()
        invariant
            texts@.len() == i,
            texts.deep_view() =~= labels.deep_view().take(i as int),
    {
        let ghost before = texts.deep_view();
        texts.push(labels[i].to_owned());
        proof {
            assert(texts.deep_view() =~= before.push(labels@[i as int]@));
        }
    }
    texts
}

/// The same strings once more.
fn owned_texts(texts: &Vec<String>) -> (r: Vec<String>)
    ensures
        r@.len() == texts@.len(),
        r.deep_view() == texts.deep_view(),
{
    let mut r: Vec<String> = Vec::new();
    for i in 0..texts.len()
        invariant
            r@.len() == i,
            r.deep_view() =~= texts.deep_view().take(i as int),
    {
        let ghost before = r.deep_view();
        r.push(texts[i].clone());
        proof {
            assert(r.deep_view() =~= before.push(texts@[i as int]@));
        }
    }
    r
}

/// Cuts the active tab to give room to the markers beside `from..to`.
fn squeeze_active(
    texts: &Vec<String>,
    widths: &Vec<usize>,
    active: usize,
    width: u16,
    from: usize,
    to: usize,
) -> (r: String)
    requires
        from <= active < to <= texts@.len(),
        widths@ == widths_of(displayed(), texts.deep_view()),
        all_plain(texts.deep_view()) ==> widths@ == widths_of(counted(), texts.deep_view()),
    ensures
        texts.deep_view().update(active as int, r@) == squeezed_texts(
            displayed(),
            texts.deep_view(),
            active as int,
            width as int,
            from as int,
            to as int,
        ),
        all_plain(texts.deep_view()) ==> plain(r@) && texts.deep_view().update(active as int, r@)
            == squeezed_texts(
            counted(),
            texts.deep_view(),
            active as int,
            width as int,
            from as int,
            to as int,
        ),
{
    let ghost views = texts.deep_view();
    proof {
        assert(views[active as int] == texts@[active as int]@);
        assert(views.update(active as int, views[active as int]) =~= views);
    }
    match squeeze(widths, active, width, from, to) {
        Some(columns) => truncate_to(texts[active].as_str(), columns),
        None => texts[active].clone(),
    }
}

/// The tabs `from..to` stay of `start..end`, with `text` for the active one.
spec fn stays(
    m: Measure,
    texts: Seq<Text>,
    active: int,
    width: int,
    start: int,
    end: int,
    stay: (int, int),
    text: Text,
) -> bool {
    &&& stay == marked_window(m, texts, active, width, start, end)
    &&& texts.update(active, text) == squeezed_texts(m, texts, active, width, stay.0, stay.1)
}

/// Another text has its own columns, and the others keep theirs.
proof fn lemma_update_widths(m: Measure, texts: Seq<Text>, i: int, text: Text)
    requires
        0 <= i < texts.len(),
    ensures
        widths_of(m, texts.update(i, text)) == widths_of(m, texts).update(i, (m.text)(text)),
{
    assert(widths_of(m, texts.update(i, text)) =~= widths_of(m, texts).update(i, (m.text)(text)));
}

/// Drops tabs of `start..end` until the markers find room beside the rest. Returns the tabs that
/// stay, and the text of the active one.
fn settle(
    texts: &Vec<String>,
    widths: &Vec<usize>,
    active: usize,
    width: u16,
    start: usize,
    end: usize,
) -> (r: (usize, usize, String))
    requires
        start <= active < end <= texts@.len(),
        widths@ == widths_of(displayed(), texts.deep_view()),
        all_plain(texts.deep_view()) ==> widths@ == widths_of(counted(), texts.deep_view()),
    ensures
        r.0 <= active < r.1 <= texts@.len(),
        stays(
            displayed(),
            texts.deep_view(),
            active as int,
            width as int,
            start as int,
            end as int,
            (r.0 as int, r.1 as int),
            r.2@,
        ),
        all_plain(texts.deep_view()) ==> plain(r.2@) && stays(
            counted(),
            texts.deep_view(),
            active as int,
            width as int,
            start as int,
            end as int,
            (r.0 as int, r.1 as int),
            r.2@,
        ),
{
    let ghost views = texts.deep_view();
    let ghost a = active as int;
    let ghost w = width as int;
    let mut from: usize = start;
    let mut to: usize = end;
    let mut text = squeeze_active(texts, widths, active, width, from, to);
    let mut row_widths = measure(texts);
    row_widths.set(active, display_width(text.as_str()));
    proof {
        lemma_update_widths(displayed(), views, a, text@);
        lemma_update_widths(counted(), views, a, text@);
    }
    while to - from > 1 && !has_room(&row_widths, from, to, width)
        invariant
            start <= from <= active < to <= end <= texts@.len(),
            views == texts.deep_view(),
            a == active as int,
            w == width as int,
            widths@ == widths_of(displayed(), views),
            all_plain(views) ==> widths@ == widths_of(counted(), views),
            row_widths@ == widths_of(displayed(), views.update(a, text@)),
            all_plain(views) ==> row_widths@ == widths_of(counted(), views.update(a, text@)),
            views.update(a, text@) == squeezed_texts(
                displayed(),
                views,
                a,
                w,
                from as int,
                to as int,
            ),
            all_plain(views) ==> plain(text@) && views.update(a, text@) == squeezed_texts(
                counted(),
                views,
                a,
                w,
                from as int,
                to as int,
            ),
            marked_window(displayed(), views, a, w, start as int, end as int) == marked_window(
                displayed(),
                views,
                a,
                w,
                from as int,
                to as int,
            ),
            all_plain(views) ==> marked_window(counted(), views, a, w, start as int, end as int)
                == marked_window(counted(), views, a, w, from as int, to as int),
        decreases to - from,
    {
        if active - from > to - 1 - active {
            from += 1;
        } else {
            to -= 1;
        }
        text = squeeze_active(texts, widths, active, width, from, to);
        row_widths.set(active, display_width(text.as_str()));
        proof {
            lemma_update_widths(displayed(), views, a, text@);
            lemma_update_widths(counted(), views, a, text@);
            assert(row_widths@ =~= widths@.update(a, row_widths@[a]));
        }
    }
    (from, to, text)
}

/// The columns of a marker.
fn marker_width() -> (width: usize)
    ensures
        width == (displayed().text)(ellipsis()),
        width == 1,
{
    let marker = ellipsis_string();
    display_width(marker.as_str())
}

/// Lays out the active tab alone.
fn layout_narrow(labels: &[&str], active: usize, width: u16) -> (r: Vec<TabCell>)
    requires
        active < labels@.len(),
    ensures
        r.deep_view() == narrow_row(
            displayed(),
            labels.deep_view(),
            active as int,
            width as int,
        ),
        all_plain(labels.deep_view()) ==> r.deep_view() == narrow_row(
            counted(),
            labels.deep_view(),
            active as int,
            width as int,
        ),
{
    let marked = active > 0 && width >= 3;
    let room: usize = if marked {
        width as usize - 2
    } else {
        width as usize
    };
    let columns: usize = if active < labels.len() - 1 && room >= 3 {
        room - 2
    } else {
        room
    };
    let ghost views = labels.deep_view();
    let mut texts = owned(labels);
    let text = fit(labels[active], columns);
    texts.set(active, text);
    proof {
        assert(views[active as int] == labels@[active as int]@);
        assert(texts.deep_view() =~= views.update(active as int, text@));
    }
    let widths = measure(&texts);
    place(&texts, &widths, active, active + 1, marked, width)
}

/// The labels as they are where the whole row fits, and otherwise with the inactive ones cut.
fn shrink(labels: &[&str], active: usize, width: u16) -> (texts: Vec<String>)
    requires
        active < labels@.len(),
    ensures
        texts.deep_view() == shrunk(
            displayed(),
            labels.deep_view(),
            active as int,
            width as int,
        ),
        all_plain(labels.deep_view()) ==> all_plain(texts.deep_view()) && texts.deep_view()
            == shrunk(counted(), labels.deep_view(), active as int, width as int),
{
    let mut texts = owned(labels);
    let widths = measure(&texts);
    if span_of(&widths, 0, widths.len()) > width as usize + 1 {
        compact(&mut texts, &widths, active);
    }
    texts
}

/// Lays out at least one label in at least one column.
fn layout_row(labels: &[&str], active: usize, width: u16) -> (r: Vec<TabCell>)
    requires
        active < labels@.len(),
    ensures
        r.deep_view() == row(displayed(), labels.deep_view(), active as int, width as int),
        all_plain(labels.deep_view()) ==> r.deep_view() == row(
            counted(),
            labels.deep_view(),
            active as int,
            width as int,
        ),
{
    let ghost views = labels.deep_view();
    let ghost a = active as int;
    let ghost w = width as int;
    let mut texts = shrink(labels, active, width);
    let ghost short = texts.deep_view();
    let short_widths = measure(&texts);
    let (start, end) = visible_window(&short_widths, active, width);
    let first_text = squeeze_active(&texts, &short_widths, active, width, start, end);
    let (from, to, text) = settle(&texts, &short_widths, active, width, start, end);
    proof {
        lemma_row_texts(displayed(), views, a, w);
        assert(first_tabs(displayed(), views, a, w) == (start as int, end as int));
        assert(shown_tabs(displayed(), views, a, w) == (from as int, to as int));
        assert(all_plain(views) ==> first_tabs(counted(), views, a, w) == (
            start as int,
            end as int,
        ) && shown_tabs(counted(), views, a, w) == (from as int, to as int));
        assert(short.update(a, first_text@) == first_texts(displayed(), views, a, w));
        assert(short.update(a, text@) == row_texts(displayed(), views, a, w));
        assert(all_plain(views) ==> short.update(a, first_text@) == first_texts(
            counted(),
            views,
            a,
            w,
        ) && short.update(a, text@) == row_texts(counted(), views, a, w));
    }
    texts.set(active, text);
    proof {
        assert(texts.deep_view() =~= short.update(a, text@));
    }
    let widths = measure(&texts);
    let roomy_row = has_room(&widths, from, to, width);
    let mut first_row = owned_texts(&texts);
    let ghost copied = first_row.deep_view();
    first_row.set(active, first_text);
    proof {
        assert(first_row.deep_view() =~= copied.update(a, first_text@));
        assert(first_row.deep_view() =~= short.update(a, first_text@));
    }
    let first_widths = measure(&first_row);
    let short_row = (width as usize) < 1 + marker_columns(labels.len(), active, active + 1);
    if is_settled(&first_widths, active, width, start, end) || (!roomy_row && short_row
        && is_centred(&first_widths, active, width, start, end)) {
        place(&first_row, &first_widths, start, end, start > 0, width)
    } else if roomy_row {
        place(&texts, &widths, from, to, from > 0, width)
    } else {
        layout_narrow(labels, active, width)
    }
}

/// Lays out tab labels in `width` columns, with one blank between tabs. The active tab is never
/// hidden. The others shrink to the compact width, then drop by distance from the active tab.
/// Dropped sides are marked with an ellipsis, where the columns beside one of the active tab allow
/// it.
pub fn layout_tab_row(labels: &[&str], active: usize, width: u16) -> (r: Vec<TabCell>)
    ensures
        r.deep_view() == tab_row(
            displayed(),
            labels.deep_view(),
            active as int,
            width as int,
        ),
        all_plain(labels.deep_view()) ==> r.deep_view() == tab_row(
            counted(),
            labels.deep_view(),
            active as int,
            width as int,
        ),
        tidy(displayed(), r.deep_view(), width as int),
        labels@.len() > 0 && width > 0 ==> shows(
            r.deep_view(),
            active_tab(labels.deep_view(), active as int),
        ),
        labels@.len() > 0 && width > 0 ==> sides_marked(
            r.deep_view(),
            labels@.len() as int,
            active_tab(labels.deep_view(), active as int),
            width as int,
        ),
{
    let ghost views = labels.deep_view();
    if labels.len() == 0 || width == 0 {
        let cells: Vec<TabCell> = Vec::new();
        proof {
            assert(cells.deep_view() =~= Seq::empty());
        }
        return cells;
    }
    // What is proved of the row rests on a marker of one column.
    marker_width();
    proof {
        law_tab_row_is_tidy(displayed(), views, active as int, width as int);
        law_active_tab_is_shown(displayed(), views, active as int, width as int);
        law_dropped_sides_are_marked(displayed(), views, active as int, width as int);
    }
    let tab: usize = if active < labels.len() {
        active
    } else {
        labels.len() - 1
    };
    layout_row(labels, tab, width)
}

} // verus!
