//! What a tab row shows, and what it leaves out for want of room.

use crate::tab_row::{
    centred, compacted, distance, first_row, first_tabs, first_texts, first_x, fits, marked_window,
    marker_count, narrow_columns, narrow_marked, narrow_texts, placed, placed_end, reached, roomy,
    row_parts, row_texts, settled, shown_tabs, shows, shrunk, span, squeezed, squeezed_texts,
    tab_cells, tab_row, wide_enough, widths_of, window, CellText,
};
use crate::tab_row::{
    law_fitting_row_is_complete, lemma_narrow_row, lemma_placed_end, lemma_placed_reaches,
    lemma_placed_shows, lemma_roomy, lemma_row, lemma_row_texts, lemma_span_grows, lemma_window,
};
use crate::text::Text;
use crate::width::{counted, ellipsis, law_cut_text_fits, Measure};
use vstd::prelude::*;

verus! {

/// The columns of a tab in a row that does not fit, where each character is one column: an inactive
/// label takes up at most five.
pub open spec fn columns(labels: Seq<Text>, active: int, tab: int) -> int {
    if tab == active || labels[tab].len() <= 5 {
        labels[tab].len() as int
    } else {
        5
    }
}

/// The columns of the tabs `from..to` side by side, with one blank between any two.
pub open spec fn side_by_side(labels: Seq<Text>, active: int, from: int, to: int) -> int
    decreases to - from,
{
    if from >= to {
        -1
    } else {
        side_by_side(labels, active, from, to - 1) + 1 + columns(labels, active, to - 1)
    }
}

/// The columns of the markers beside the tabs `from..to` of `count`, each with its blank.
pub open spec fn due(count: int, from: int, to: int) -> int {
    (if from > 0 {
        2int
    } else {
        0int
    }) + (if to < count {
        2int
    } else {
        0int
    })
}

/// The tabs `from..to` with the nearest one of the others, the left one of two equally near ones.
pub open spec fn one_more(active: int, count: int, from: int, to: int) -> (int, int) {
    if from > 0 && (to == count || active - from + 1 <= to - active) {
        (from - 1, to)
    } else {
        (from, to + 1)
    }
}

/// No label is longer than a machine word can count.
pub open spec fn countable(labels: Seq<Text>) -> bool {
    forall|i: int| 0 <= i < labels.len() ==> (#[trigger] labels[i]).len() <= usize::MAX
}

/// The tabs `from..to` are those that are left when the farthest ones are dropped one by one, the
/// right one of two equally far ones first.
pub open spec fn ranked(active: int, count: int, from: int, to: int) -> bool {
    &&& from > 0 ==> active - from + 1 > to - 1 - active
    &&& to < count ==> to - active >= active - from
}

/// The columns of the compacted labels.
proof fn lemma_columns(labels: Seq<Text>, active: int)
    requires
        countable(labels),
    ensures
        ({
            let texts = compacted(counted(), labels, active);
            let widths = widths_of(counted(), texts);
            &&& texts.len() == labels.len() && widths.len() == labels.len()
            &&& forall|i: int|
                0 <= i < labels.len() ==> #[trigger] widths[i] == columns(labels, active, i)
            &&& forall|i: int| 0 <= i < labels.len() ==> (#[trigger] texts[i]).len() == widths[i]
        }),
{
    let texts = compacted(counted(), labels, active);
    let widths = widths_of(counted(), texts);
    assert forall|i: int| 0 <= i < labels.len() implies #[trigger] widths[i] == columns(
        labels,
        active,
        i,
    ) && texts[i].len() == widths[i] by {
        law_cut_text_fits(labels[i], 5);
    }
}

/// The columns of tabs side by side, by the columns of each.
proof fn lemma_side_by_side(
    labels: Seq<Text>,
    active: int,
    widths: Seq<usize>,
    from: int,
    to: int,
)
    requires
        0 <= from <= to <= widths.len(),
        widths.len() == labels.len(),
        forall|i: int|
            0 <= i < labels.len() ==> #[trigger] widths[i] == columns(labels, active, i),
    ensures
        side_by_side(labels, active, from, to) == span(widths, from, to) - 1,
    decreases to - from,
{
    if from < to {
        lemma_side_by_side(labels, active, widths, from, to - 1);
    }
}

/// Narrower tabs take up no more columns.
proof fn lemma_span_le(narrow: Seq<usize>, wide: Seq<usize>, from: int, to: int)
    requires
        0 <= from <= to <= wide.len(),
        narrow.len() == wide.len(),
        forall|i: int| 0 <= i < wide.len() ==> #[trigger] narrow[i] <= wide[i],
    ensures
        span(narrow, from, to) <= span(wide, from, to),
    decreases to - from,
{
    if from < to {
        lemma_span_le(narrow, wide, from, to - 1);
        assert(narrow[to - 1] <= wide[to - 1]);
    }
}

/// Cutting the active tab leaves the others as they are, and it no wider.
proof fn lemma_squeezed(texts: Seq<Text>, active: int, width: int, from: int, to: int)
    requires
        countable(texts),
        0 <= from <= active < to <= texts.len(),
    ensures
        ({
            let cut = squeezed_texts(counted(), texts, active, width, from, to);
            let widths = widths_of(counted(), texts);
            let cut_widths = widths_of(counted(), cut);
            &&& cut.len() == texts.len()
            &&& forall|i: int| 0 <= i < texts.len() && i != active ==> #[trigger] cut[i] == texts[i]
            &&& forall|i: int| 0 <= i < texts.len() ==> #[trigger] cut_widths[i] <= widths[i]
            &&& forall|i: int|
                0 <= i < texts.len() && i != active ==> #[trigger] cut_widths[i] == widths[i]
            &&& cut_widths[active] == cut[active].len()
            &&& match squeezed(widths, active, width, from, to) {
                Some(left) => left >= 1 && cut[active].len() == if texts[active].len() <= left {
                    texts[active].len() as int
                } else {
                    left
                },
                None => cut[active] == texts[active],
            }
        }),
{
    let widths = widths_of(counted(), texts);
    assert(widths[active] == texts[active].len());
    if let Some(left) = squeezed(widths, active, width, from, to) {
        law_cut_text_fits(texts[active], left);
    }
}

/// The window keeps what is left when the farthest tabs are dropped one by one. One more tab would
/// not fit.
pub proof fn lemma_window_next(
    widths: Seq<usize>,
    active: int,
    width: int,
    count: int,
    from: int,
    to: int,
)
    requires
        0 <= from <= active < to <= count,
        ranked(active, count, from, to),
    ensures
        ({
            let (left, right) = window(widths, active, width, from, to);
            let (a, b) = one_more(active, count, left, right);
            &&& from <= left <= active < right <= to
            &&& ranked(active, count, left, right)
            &&& (left, right) != (from, to) ==> from <= a && b <= to && !fits(widths, a, b, width)
        }),
    decreases to - from,
{
    if to - from <= 1 || fits(widths, from, to, width) {
    } else if active - from > to - 1 - active {
        lemma_window_next(widths, active, width, count, from + 1, to);
    } else {
        lemma_window_next(widths, active, width, count, from, to - 1);
    }
}

/// The same of the window with room for its markers. One more tab would leave them none.
proof fn lemma_marked_window_next(
    m: Measure,
    texts: Seq<Text>,
    active: int,
    width: int,
    count: int,
    from: int,
    to: int,
)
    requires
        0 <= from <= active < to <= count,
        ranked(active, count, from, to),
    ensures
        ({
            let (left, right) = marked_window(m, texts, active, width, from, to);
            let (a, b) = one_more(active, count, left, right);
            &&& from <= left <= active < right <= to
            &&& ranked(active, count, left, right)
            &&& (left, right) != (from, to) ==> from <= a && b <= to && !roomy(
                widths_of(m, squeezed_texts(m, texts, active, width, a, b)),
                a,
                b,
                width,
            )
        }),
    decreases to - from,
{
    if to - from <= 1 || roomy(
        widths_of(m, squeezed_texts(m, texts, active, width, from, to)),
        from,
        to,
        width,
    ) {
    } else if active - from > to - 1 - active {
        lemma_marked_window_next(m, texts, active, width, count, from + 1, to);
    } else {
        lemma_marked_window_next(m, texts, active, width, count, from, to - 1);
    }
}

/// A row that leaves out tabs is made of the compacted labels.
proof fn lemma_compacted(labels: Seq<Text>, active: int, width: int)
    requires
        countable(labels),
        0 <= active < labels.len(),
        width >= 1,
        !fits(widths_of(counted(), labels), 0, labels.len() as int, width),
    ensures
        ({
            let texts = compacted(counted(), labels, active);
            let count = labels.len() as int;
            let (start, end) = first_tabs(counted(), labels, active, width);
            let (from, to) = shown_tabs(counted(), labels, active, width);
            &&& shrunk(counted(), labels, active, width) == texts
            &&& countable(texts)
            &&& (start, end) == window(widths_of(counted(), texts), active, width, 0, count)
            &&& (from, to) == marked_window(counted(), texts, active, width, start, end)
            &&& 0 <= start <= active < end <= count && ranked(active, count, start, end)
            &&& start <= from <= active < to <= end && ranked(active, count, from, to)
        }),
{
    lemma_columns(labels, active);
    let texts = compacted(counted(), labels, active);
    let count = labels.len() as int;
    let (start, end) = first_tabs(counted(), labels, active, width);
    assert(countable(texts)) by {
        assert forall|i: int| 0 <= i < texts.len() implies (#[trigger] texts[i]).len()
            <= usize::MAX by {
            assert(widths_of(counted(), texts)[i] == texts[i].len());
        }
    }
    lemma_window_next(widths_of(counted(), texts), active, width, count, 0, count);
    lemma_marked_window_next(counted(), texts, active, width, count, start, end);
}

/// The tabs that a row shows where it leaves out some, and that it shows all otherwise.
proof fn lemma_shown_range(labels: Seq<Text>, active: int, width: int) -> (range: (int, int))
    requires
        countable(labels),
        0 <= active < labels.len(),
        width >= 1,
    ensures
        ({
            let cells = tab_row(counted(), labels, active, width);
            let (texts, from, to, marked) = row_parts(counted(), labels, active, width);
            let count = labels.len() as int;
            &&& 0 <= range.0 <= active < range.1 <= count
            &&& forall|tab: int| #[trigger] shows(cells, tab) <==> range.0 <= tab < range.1
            &&& range.0 == from
            &&& range.1 == placed_end(
                widths_of(counted(), texts),
                from,
                to,
                first_x(marked),
                width,
            )
            &&& range != (0int, count) ==> !fits(widths_of(counted(), labels), 0, count, width)
        }),
{
    let m = counted();
    let count = labels.len() as int;
    let cells = tab_row(m, labels, active, width);
    let end = lemma_row(m, labels, active, width);
    let (texts, from, to, marked) = row_parts(m, labels, active, width);
    if fits(widths_of(m, labels), 0, count, width) {
        law_fitting_row_is_complete(m, labels, active, width);
        assert(cells[0].tab == Some(0int));
        assert(cells[count - 1].tab == Some(count - 1));
        assert(shows(cells, 0) && shows(cells, count - 1));
    }
    (from, end)
}

/// One tab more than `from..to` is too wide for the row with the markers then due.
pub open spec fn crowded(labels: Seq<Text>, active: int, width: int, from: int, to: int) -> bool {
    let count = labels.len() as int;
    let (a, b) = one_more(active, count, from, to);
    (from, to) != (0int, count) ==> 0 <= a && b <= count && side_by_side(labels, active, a, b)
        + due(count, a, b) > width
}

/// One tab more than those that fit side by side does not fit, nor does one more than was placed of
/// them.
proof fn lemma_first_crowded(labels: Seq<Text>, active: int, width: int)
    requires
        countable(labels),
        0 <= active < labels.len(),
        width >= 1,
        !fits(widths_of(counted(), labels), 0, labels.len() as int, width),
    ensures
        ({
            let (start, end) = first_tabs(counted(), labels, active, width);
            let first = widths_of(counted(), first_texts(counted(), labels, active, width));
            let last = reached(first, start, end, width);
            &&& crowded(labels, active, width, start, end)
            &&& active < last <= end ==> crowded(labels, active, width, start, last)
        }),
{
    let m = counted();
    let count = labels.len() as int;
    let texts = compacted(m, labels, active);
    let widths = widths_of(m, texts);
    let (start, end) = first_tabs(m, labels, active, width);
    let first = widths_of(m, first_texts(m, labels, active, width));
    let last = reached(first, start, end, width);
    lemma_columns(labels, active);
    lemma_compacted(labels, active, width);
    lemma_window_next(widths, active, width, count, 0, count);
    if (start, end) != (0int, count) {
        let (a, b) = one_more(active, count, start, end);
        lemma_side_by_side(labels, active, widths, a, b);
    }
    if active < last < end {
        lemma_squeezed(texts, active, width, start, end);
        assert(one_more(active, count, start, last) == (start, last + 1));
        lemma_not_placed(first, start, end, width);
        lemma_span_le(first, widths, start, last + 1);
        lemma_side_by_side(labels, active, widths, start, last + 1);
    }
}

/// One tab more than those that fit with their markers does not fit with them.
proof fn lemma_marked_crowded(labels: Seq<Text>, active: int, width: int)
    requires
        countable(labels),
        0 <= active < labels.len(),
        width >= 1,
        !fits(widths_of(counted(), labels), 0, labels.len() as int, width),
    ensures
        ({
            let (from, to) = shown_tabs(counted(), labels, active, width);
            crowded(labels, active, width, from, to)
        }),
{
    let m = counted();
    let count = labels.len() as int;
    let texts = compacted(m, labels, active);
    let widths = widths_of(m, texts);
    let (start, end) = first_tabs(m, labels, active, width);
    let (from, to) = shown_tabs(m, labels, active, width);
    lemma_columns(labels, active);
    lemma_compacted(labels, active, width);
    if (from, to) == (start, end) {
        lemma_first_crowded(labels, active, width);
    } else {
        let (a, b) = one_more(active, count, from, to);
        lemma_marked_window_next(m, texts, active, width, count, start, end);
        lemma_squeezed(texts, active, width, a, b);
        let cut = widths_of(m, squeezed_texts(m, texts, active, width, a, b));
        lemma_span_le(cut, widths, a, b);
        lemma_side_by_side(labels, active, widths, a, b);
    }
}

/// A tab is dropped only for want of room. Where each character is one column and a row leaves out
/// tabs, those that it shows and the nearest one of the others, side by side with the markers that
/// are then due, are wider than the row.
pub proof fn law_tabs_drop_for_want_of_room(labels: Seq<Text>, active: int, width: int) -> (range: (
    int,
    int,
))
    requires
        countable(labels),
        0 <= active < labels.len(),
        width >= 1,
    ensures
        ({
            let cells = tab_row(counted(), labels, active, width);
            let count = labels.len() as int;
            let (a, b) = one_more(active, count, range.0, range.1);
            &&& 0 <= range.0 <= active < range.1 <= count
            &&& forall|tab: int| #[trigger] shows(cells, tab) <==> range.0 <= tab < range.1
            &&& range != (0int, count) ==> 0 <= a && b <= count && side_by_side(
                labels,
                active,
                a,
                b,
            ) + due(count, a, b) > width
        }),
{
    let m = counted();
    let count = labels.len() as int;
    let range = lemma_shown_range(labels, active, width);
    if range != (0int, count) {
        lemma_first_crowded(labels, active, width);
        lemma_marked_crowded(labels, active, width);
        lemma_row_cases(labels, active, width);
    }
    range
}

/// A row shows the tabs that fit side by side as far as they were placed, or those that fit with
/// their markers.
proof fn lemma_row_cases(labels: Seq<Text>, active: int, width: int)
    requires
        countable(labels),
        0 <= active < labels.len(),
        width >= 1,
    ensures
        ({
            let m = counted();
            let (texts, from, to, marked) = row_parts(m, labels, active, width);
            let last = placed_end(widths_of(m, texts), from, to, first_x(marked), width);
            let (start, end) = first_tabs(m, labels, active, width);
            let first = widths_of(m, first_texts(m, labels, active, width));
            ||| (from, last) == (start, reached(first, start, end, width)) && active < last <= end
            ||| (from, last) == shown_tabs(m, labels, active, width)
        }),
{
    let m = counted();
    let count = labels.len() as int;
    let (start, end) = first_tabs(m, labels, active, width);
    let (from, to) = shown_tabs(m, labels, active, width);
    let first = widths_of(m, first_texts(m, labels, active, width));
    let widths = widths_of(m, row_texts(m, labels, active, width));
    lemma_row_texts(m, labels, active, width);
    lemma_placed_end(first, start, end, first_x(start > 0), width);
    if settled(first, active, width, start, end) {
    } else if roomy(widths, from, to, width) {
        lemma_roomy(widths, width, from, to);
    } else if !wide_enough(count, active, width) && centred(first, active, width, start, end) {
    } else {
        lemma_narrow_row(m, labels, active, width);
    }
}

/// The tab at which placing stops does not fit behind the others.
proof fn lemma_not_placed(widths: Seq<usize>, from: int, to: int, width: int)
    requires
        0 <= from <= to <= widths.len(),
        reached(widths, from, to, width) < to,
    ensures
        ({
            let end = reached(widths, from, to, width);
            &&& from <= end
            &&& first_x(from > 0) + span(widths, from, end + 1) - 1 > width
        }),
{
    let x = first_x(from > 0);
    let end = reached(widths, from, to, width);
    lemma_placed_end(widths, from, to, x, width);
    assert(span(widths, from, end + 1) == span(widths, from, end) + widths[end] + 1);
    if x + span(widths, from, end) + widths[end] <= width {
        lemma_placed_reaches(widths, from, to, x, width, end);
    }
}

// ---- which tabs ----
/// Of two tabs that are equally far from the active one the right one is dropped first, and of
/// others the farther one.
pub proof fn law_farthest_tabs_drop_first(
    m: Measure,
    labels: Seq<Text>,
    active: int,
    width: int,
    kept: int,
    dropped: int,
)
    requires
        (m.text)(ellipsis()) == 1,
        0 <= active < labels.len(),
        0 <= kept < labels.len(),
        0 <= dropped < labels.len(),
        shows(tab_row(m, labels, active, width), kept),
        !shows(tab_row(m, labels, active, width), dropped),
    ensures
        distance(active, dropped) > distance(active, kept) || (distance(active, dropped)
            == distance(active, kept) && dropped > kept),
{
    if width > 0 {
        let count = labels.len() as int;
        let texts = shrunk(m, labels, active, width);
        let widths = widths_of(m, texts);
        let (start, end) = first_tabs(m, labels, active, width);
        let last = lemma_row(m, labels, active, width);
        lemma_row_texts(m, labels, active, width);
        lemma_window_next(widths, active, width, count, 0, count);
        lemma_marked_window_next(m, texts, active, width, count, start, end);
        let (row_texts, from, to, marked) = row_parts(m, labels, active, width);
        assert(from == active && to == active + 1 || ranked(active, count, from, to));
    }
}

/// A row shows neighbouring tabs in their order, one cell for each. A cell without a tab holds the
/// ellipsis, and stands at an end of the row where tabs are left out.
pub proof fn law_cells_in_order(m: Measure, labels: Seq<Text>, active: int, width: int) -> (range: (
    int,
    int,
))
    requires
        (m.text)(ellipsis()) == 1,
        0 <= active < labels.len(),
        width >= 1,
    ensures
        ({
            let cells = tab_row(m, labels, active, width);
            let count = labels.len() as int;
            &&& 0 <= range.0 <= active < range.1 <= count
            &&& forall|tab: int| #[trigger] shows(cells, tab) <==> range.0 <= tab < range.1
            &&& cells.len() > 0
            &&& cells[0].tab is None ==> range.0 > 0
            &&& cells.last().tab is None ==> range.1 < count
            &&& forall|i: int|
                0 < i < cells.len() - 1 ==> (#[trigger] cells[i]).tab is Some
            &&& forall|i: int|
                0 <= i < cells.len() && (#[trigger] cells[i]).tab is None ==> cells[i].text
                    == seq!['\u{2026}']
            &&& forall|i: int, j: int|
                0 <= i && j == i + 1 && j < cells.len() && (#[trigger] cells[i]).tab is Some && (
                #[trigger] cells[j]).tab is Some ==> cells[j].tab->0 == cells[i].tab->0 + 1
            &&& cells.len() == (range.1 - range.0) + (if cells[0].tab is None {
                1int
            } else {
                0int
            }) + (if cells.last().tab is None {
                1int
            } else {
                0int
            })
        }),
{
    let (texts, from, to, marked) = row_parts(m, labels, active, width);
    let end = lemma_row(m, labels, active, width);
    let widths = widths_of(m, texts);
    let cells = tab_row(m, labels, active, width);
    let x = first_x(marked);
    let inner = tab_cells(texts, widths, from, end, x);
    let lead: int = if marked {
        1
    } else {
        0
    };
    assert(forall|i: int|
        0 <= i < end - from ==> #[trigger] cells[i + lead] == inner[i]);
    assert forall|i: int| lead <= i < lead + (end - from) implies (#[trigger] cells[i]).tab == Some(
        from + (i - lead),
    ) by {
        assert(cells[(i - lead) + lead] == inner[i - lead]);
    }
    assert(ellipsis() =~= seq!['\u{2026}']);
    (from, end)
}

/// Each inactive tab is shown with its label, cut to five columns where not all labels fit side by
/// side and it has more. The active one is shown with its label, or with a part of it that is cut
/// to some columns, or with the ellipsis alone.
pub proof fn law_cells_show_their_labels(
    m: Measure,
    labels: Seq<Text>,
    active: int,
    width: int,
    i: int,
)
    requires
        (m.text)(ellipsis()) == 1,
        0 <= active < labels.len(),
        width >= 1,
        0 <= i < tab_row(m, labels, active, width).len(),
    ensures
        ({
            let cell = tab_row(m, labels, active, width)[i];
            let all_fit = fits(widths_of(m, labels), 0, labels.len() as int, width);
            cell.tab matches Some(tab) ==> {
                &&& 0 <= tab < labels.len()
                &&& tab != active ==> cell.text == if all_fit || (m.text)(labels[tab]) <= 5 {
                    labels[tab]
                } else {
                    m.truncated(labels[tab], 5)
                }
                &&& tab == active ==> cell.text == labels[tab] || cell.text == ellipsis() || exists|
                    left: int,
                |
                    left >= 1 && cell.text == #[trigger] m.truncated(labels[tab], left)
            }
        }),
{
    let (texts, from, to, marked) = row_parts(m, labels, active, width);
    let end = lemma_row(m, labels, active, width);
    let widths = widths_of(m, texts);
    let cells = tab_row(m, labels, active, width);
    let x = first_x(marked);
    let inner = tab_cells(texts, widths, from, end, x);
    let lead: int = if marked {
        1
    } else {
        0
    };
    lemma_row_texts(m, labels, active, width);
    if let Some(tab) = cells[i].tab {
        assert(lead <= i < lead + (end - from));
        assert(cells[i] == inner[i - lead]);
        assert(cells[i].text == texts[tab]);
        let count = labels.len() as int;
        let first = first_tabs(m, labels, active, width);
        let shown = shown_tabs(m, labels, active, width);
        let short = shrunk(m, labels, active, width);
        assert(short[active] == labels[active]);
        if tab != active {
            assert(texts == first_texts(m, labels, active, width) || texts == row_texts(
                m,
                labels,
                active,
                width,
            ));
            assert(texts[tab] == short[tab]);
        } else {
            let narrow = narrow_columns(count, active, width);
            assert(narrow >= 1);
            let first_cut = m.truncated(
                labels[active],
                squeezed(widths_of(m, short), active, width, first.0, first.1)->0,
            );
            let shown_cut = m.truncated(
                labels[active],
                squeezed(widths_of(m, short), active, width, shown.0, shown.1)->0,
            );
            let narrow_cut = m.truncated(labels[active], narrow);
            assert(texts[active] == labels[active] || texts[active] == first_cut || texts[active]
                == shown_cut || texts[active] == narrow_cut || texts[active] == ellipsis());
        }
    }
}

// ---- how wide ----
/// The columns of the labels `from..to` side by side in full.
pub open spec fn in_full(labels: Seq<Text>, from: int, to: int) -> int
    decreases to - from,
{
    if from >= to {
        -1
    } else {
        in_full(labels, from, to - 1) + 1 + labels[to - 1].len()
    }
}

/// The columns of labels in full.
proof fn lemma_in_full(labels: Seq<Text>, from: int, to: int)
    requires
        countable(labels),
        0 <= from <= to <= labels.len(),
    ensures
        in_full(labels, from, to) == span(widths_of(counted(), labels), from, to) - 1,
    decreases to - from,
{
    if from < to {
        lemma_in_full(labels, from, to - 1);
        assert(widths_of(counted(), labels)[to - 1] == labels[to - 1].len());
    }
}

/// More tabs take up more columns on either side.
proof fn lemma_span_part(widths: Seq<usize>, from: int, to: int, left: int, right: int)
    requires
        from <= left <= right <= to,
    ensures
        span(widths, left, right) <= span(widths, from, to),
    decreases (to - right) + (left - from),
{
    if right < to {
        lemma_span_part(widths, from, to - 1, left, right);
        lemma_span_grows(widths, from, to - 1, to);
    } else if from < left {
        lemma_span_first_le(widths, from, to);
        lemma_span_part(widths, from + 1, to, left, right);
    }
}

/// One tab more on the left takes up more columns.
proof fn lemma_span_first_le(widths: Seq<usize>, from: int, to: int)
    requires
        from < to,
    ensures
        span(widths, from + 1, to) <= span(widths, from, to),
    decreases to - from,
{
    if from + 1 < to {
        lemma_span_first_le(widths, from, to - 1);
    } else {
        assert(span(widths, from, from) == 0);
        assert(span(widths, from + 1, to) == 0);
    }
}

/// The tabs `from..to` are the most that fit side by side when the farthest ones are dropped.
pub open spec fn most_that_fit(
    labels: Seq<Text>,
    active: int,
    width: int,
    from: int,
    to: int,
) -> bool {
    let count = labels.len() as int;
    let (a, b) = one_more(active, count, from, to);
    &&& 0 <= from <= active < to <= count
    &&& ranked(active, count, from, to)
    &&& in_full(labels, 0, count) > width
    &&& from + 1 == to || side_by_side(labels, active, from, to) <= width
    &&& (from, to) != (0int, count) ==> side_by_side(labels, active, a, b) > width
}

/// Dropping the farthest tabs stops at those.
proof fn lemma_window_is(
    widths: Seq<usize>,
    active: int,
    width: int,
    count: int,
    lo: int,
    hi: int,
    from: int,
    to: int,
)
    requires
        0 <= lo <= from <= active < to <= hi <= count,
        ranked(active, count, lo, hi),
        ranked(active, count, from, to),
        from + 1 == to || fits(widths, from, to, width),
        (from, to) != (0int, count) ==> ({
            let (a, b) = one_more(active, count, from, to);
            !fits(widths, a, b, width)
        }),
    ensures
        window(widths, active, width, lo, hi) == (from, to),
    decreases hi - lo,
{
    if (lo, hi) != (from, to) {
        let (a, b) = one_more(active, count, from, to);
        assert(lo <= a && b <= hi);
        lemma_span_part(widths, lo, hi, a, b);
        if active - lo > hi - 1 - active {
            lemma_window_is(widths, active, width, count, lo + 1, hi, from, to);
        } else {
            lemma_window_is(widths, active, width, count, lo, hi - 1, from, to);
        }
    }
}

/// The tabs that fit side by side, by their columns, and their texts.
proof fn lemma_first_is(labels: Seq<Text>, active: int, width: int, from: int, to: int)
    requires
        countable(labels),
        width >= 1,
        most_that_fit(labels, active, width, from, to),
    ensures
        ({
            let m = counted();
            let texts = compacted(m, labels, active);
            &&& first_tabs(m, labels, active, width) == (from, to)
            &&& shrunk(m, labels, active, width) == texts
            &&& countable(texts)
            &&& texts[active] == labels[active]
            &&& first_texts(m, labels, active, width) == squeezed_texts(
                m,
                texts,
                active,
                width,
                from,
                to,
            )
            &&& widths_of(m, texts)[active] == labels[active].len()
            &&& span(widths_of(m, texts), from, to) - 1 == side_by_side(labels, active, from, to)
        }),
{
    let m = counted();
    let count = labels.len() as int;
    let texts = compacted(m, labels, active);
    let widths = widths_of(m, texts);
    lemma_in_full(labels, 0, count);
    lemma_columns(labels, active);
    lemma_compacted(labels, active, width);
    lemma_side_by_side(labels, active, widths, from, to);
    if (from, to) != (0int, count) {
        let (a, b) = one_more(active, count, from, to);
        lemma_side_by_side(labels, active, widths, a, b);
    }
    lemma_window_is(widths, active, width, count, 0, count, from, to);
}

/// Replacing the width of one tab changes the columns of all by as much.
proof fn lemma_span_update(
    widths: Seq<usize>,
    other: Seq<usize>,
    tab: int,
    from: int,
    to: int,
)
    requires
        0 <= from <= to <= widths.len(),
        other.len() == widths.len(),
        0 <= tab < widths.len(),
        forall|i: int| 0 <= i < widths.len() && i != tab ==> #[trigger] other[i] == widths[i],
    ensures
        span(other, from, to) - span(widths, from, to) == if from <= tab < to {
            other[tab] - widths[tab]
        } else {
            0
        },
    decreases to - from,
{
    if from < to {
        lemma_span_update(widths, other, tab, from, to - 1);
    }
}

/// A row of the most tabs that fit side by side, where they and their markers have room once the
/// active one is cut as far as it has to be: it shows exactly those.
proof fn lemma_first_row(labels: Seq<Text>, active: int, width: int, from: int, to: int)
    requires
        countable(labels),
        width >= 1,
        most_that_fit(labels, active, width, from, to),
        side_by_side(labels, active, from, to) <= width,
        roomy(
            widths_of(counted(), first_texts(counted(), labels, active, width)),
            from,
            to,
            width,
        ),
    ensures
        ({
            let m = counted();
            let texts = first_texts(m, labels, active, width);
            let widths = widths_of(m, texts);
            let cells = tab_row(m, labels, active, width);
            &&& cells == placed(texts, widths, from, to, from > 0, width)
            &&& placed_end(widths, from, to, first_x(from > 0), width) == to
            &&& texts.len() == labels.len()
        }),
{
    let m = counted();
    let count = labels.len() as int;
    let widths = widths_of(m, first_texts(m, labels, active, width));
    lemma_first_is(labels, active, width, from, to);
    lemma_row_texts(m, labels, active, width);
    lemma_roomy(widths, width, from, to);
    lemma_ranked_nearest(active, count, from, to);
}

/// The tabs that are left when the farthest ones are dropped are the nearest ones.
proof fn lemma_ranked_nearest(active: int, count: int, from: int, to: int)
    requires
        0 <= from <= active < to <= count,
        ranked(active, count, from, to),
    ensures
        crate::tab_row::nearest(active, 0, count, from, to),
{
}

/// A row shows exactly the tabs `from..to`, with `length` characters of the active one, and marks
/// each side on which others are left out.
pub open spec fn row_of(
    labels: Seq<Text>,
    active: int,
    width: int,
    from: int,
    to: int,
    length: int,
) -> bool {
    let cells = tab_row(counted(), labels, active, width);
    &&& forall|tab: int| #[trigger] shows(cells, tab) <==> from <= tab < to
    &&& forall|i: int|
        0 <= i < cells.len() && (#[trigger] cells[i]).tab == Some(active) ==> cells[i].text.len()
            == length && (length == labels[active].len() ==> cells[i].text == labels[active])
    &&& from > 0 ==> cells[0].tab is None
    &&& to < labels.len() ==> cells.last().tab is None
}

/// Where the most tabs that fit side by side also have room for their markers, the row shows exactly
/// those, with the label of the active one in full.
pub proof fn law_row_with_room_for_its_markers(
    labels: Seq<Text>,
    active: int,
    width: int,
    from: int,
    to: int,
)
    requires
        countable(labels),
        width >= 1,
        most_that_fit(labels, active, width, from, to),
        side_by_side(labels, active, from, to) + due(labels.len() as int, from, to) <= width,
    ensures
        row_of(labels, active, width, from, to, labels[active].len() as int),
{
    let m = counted();
    let texts = compacted(m, labels, active);
    lemma_first_is(labels, active, width, from, to);
    assert(squeezed(widths_of(m, texts), active, width, from, to) is None);
    lemma_first_row(labels, active, width, from, to);
    lemma_row_of(labels, active, width, from, to);
}

/// Where the most tabs that fit side by side leave their markers too little room, and the active one
/// can be cut by the missing columns, the row shows exactly those, with the active one cut by exactly
/// as much.
pub proof fn law_active_tab_gives_the_missing_columns(
    labels: Seq<Text>,
    active: int,
    width: int,
    from: int,
    to: int,
)
    requires
        countable(labels),
        width >= 1,
        most_that_fit(labels, active, width, from, to),
        side_by_side(labels, active, from, to) <= width,
        side_by_side(labels, active, from, to) + due(labels.len() as int, from, to) > width,
        labels[active].len() - (side_by_side(labels, active, from, to) + due(
            labels.len() as int,
            from,
            to,
        ) - width) >= 1,
    ensures
        row_of(
            labels,
            active,
            width,
            from,
            to,
            labels[active].len() - (side_by_side(labels, active, from, to) + due(
                labels.len() as int,
                from,
                to,
            ) - width),
        ),
{
    let m = counted();
    let count = labels.len() as int;
    let texts = compacted(m, labels, active);
    let widths = widths_of(m, texts);
    let missing = side_by_side(labels, active, from, to) + due(count, from, to) - width;
    lemma_first_is(labels, active, width, from, to);
    lemma_columns(labels, active);
    assert(due(count, from, to) == 2 * marker_count(from, to, count));
    assert(squeezed(widths, active, width, from, to) == Some(labels[active].len() - missing));
    lemma_squeezed(texts, active, width, from, to);
    let cut = widths_of(m, first_texts(m, labels, active, width));
    lemma_span_update(widths, cut, active, from, to);
    lemma_first_row(labels, active, width, from, to);
    lemma_row_of(labels, active, width, from, to);
}

/// The cells of a row of the most tabs that fit side by side.
proof fn lemma_row_of(labels: Seq<Text>, active: int, width: int, from: int, to: int)
    requires
        countable(labels),
        width >= 1,
        most_that_fit(labels, active, width, from, to),
        side_by_side(labels, active, from, to) <= width,
        roomy(
            widths_of(counted(), first_texts(counted(), labels, active, width)),
            from,
            to,
            width,
        ),
    ensures
        ({
            let cells = tab_row(counted(), labels, active, width);
            let text = first_texts(counted(), labels, active, width)[active];
            &&& forall|tab: int| #[trigger] shows(cells, tab) <==> from <= tab < to
            &&& forall|i: int|
                0 <= i < cells.len() && (#[trigger] cells[i]).tab == Some(active) ==> cells[i].text
                    == text
            &&& from > 0 ==> cells[0].tab is None
            &&& to < labels.len() ==> cells.last().tab is None
        }),
{
    let m = counted();
    let texts = first_texts(m, labels, active, width);
    let widths = widths_of(m, texts);
    let cells = tab_row(m, labels, active, width);
    let x = first_x(from > 0);
    let lead: int = if from > 0 {
        1
    } else {
        0
    };
    lemma_first_row(labels, active, width, from, to);
    assert forall|tab: int| #[trigger] shows(cells, tab) <==> from <= tab < to by {
        lemma_placed_shows(texts, widths, from, to, from > 0, width, tab);
    }
    assert forall|i: int|
        0 <= i < cells.len() && (#[trigger] cells[i]).tab == Some(active) implies cells[i].text
        == texts[active] by {
        assert(lead <= i < lead + (to - from));
        assert(cells[i] == tab_cells(texts, widths, from, to, x)[i - lead]);
    }
}

/// Where the active tab fits beside no other one and is too wide for the row with its markers, the
/// row shows it alone, with its markers, cut to what they leave.
pub proof fn law_wide_active_tab_stands_alone(labels: Seq<Text>, active: int, width: int)
    requires
        countable(labels),
        0 <= active < labels.len(),
        most_that_fit(labels, active, width, active, active + 1),
        labels[active].len() + due(labels.len() as int, active, active + 1) > width,
        1 + due(labels.len() as int, active, active + 1) <= width,
    ensures
        row_of(
            labels,
            active,
            width,
            active,
            active + 1,
            width - due(labels.len() as int, active, active + 1),
        ),
{
    let m = counted();
    let count = labels.len() as int;
    let markers = due(count, active, active + 1);
    assert(side_by_side(labels, active, active, active) == -1);
    assert(side_by_side(labels, active, active, active + 1) == labels[active].len());
    if labels[active].len() <= width {
        law_active_tab_gives_the_missing_columns(labels, active, width, active, active + 1);
    } else {
        let texts = compacted(m, labels, active);
        let widths = widths_of(m, texts);
        let first = widths_of(m, first_texts(m, labels, active, width));
        lemma_first_is(labels, active, width, active, active + 1);
        lemma_compacted(labels, active, width);
        lemma_columns(labels, active);
        lemma_squeezed(texts, active, width, active, active + 1);
        assert(span(first, active, active) == 0);
        assert(span(widths, active, active) == 0);
        assert(span(first, active, active + 1) == first[active] + 1);
        assert(shown_tabs(m, labels, active, width) == (active, active + 1));
        lemma_placed_end(first, active, active + 1, first_x(active > 0), width);
        assert(!settled(first, active, width, active, active + 1));
        assert(tab_row(m, labels, active, width) == crate::tab_row::narrow_row(
            m,
            labels,
            active,
            width,
        ));
        lemma_narrow(labels, active, width);
    }
}

/// The row of the active tab alone.
proof fn lemma_narrow(labels: Seq<Text>, active: int, width: int)
    requires
        countable(labels),
        0 <= active < labels.len(),
        labels[active].len() > width,
        1 + due(labels.len() as int, active, active + 1) <= width,
    ensures
        ({
            let cells = crate::tab_row::narrow_row(counted(), labels, active, width);
            let length = width - due(labels.len() as int, active, active + 1);
            &&& forall|tab: int| #[trigger] shows(cells, tab) <==> active <= tab < active + 1
            &&& forall|i: int|
                0 <= i < cells.len() && (#[trigger] cells[i]).tab == Some(active)
                    ==> cells[i].text.len() == length
            &&& active > 0 ==> cells[0].tab is None
            &&& active + 1 < labels.len() ==> cells.last().tab is None
        }),
{
    let m = counted();
    let count = labels.len() as int;
    let cells = crate::tab_row::narrow_row(m, labels, active, width);
    let texts = narrow_texts(m, labels, active, width);
    let widths = widths_of(m, texts);
    let marked = narrow_marked(active, width);
    let x = first_x(marked);
    let lead: int = if marked {
        1
    } else {
        0
    };
    let length = narrow_columns(count, active, width);
    lemma_narrow_row(m, labels, active, width);
    law_cut_text_fits(labels[active], length);
    assert(length == width - due(count, active, active + 1));
    assert(texts[active].len() == length);
    assert(widths[active] == length);
    assert(span(widths, active, active) == 0);
    assert(span(widths, active, active + 1) == widths[active] + 1);
    assert forall|i: int|
        0 <= i < cells.len() && (#[trigger] cells[i]).tab == Some(active) implies cells[i].text.len()
        == length by {
        assert(lead <= i < lead + 1);
        assert(cells[i] == tab_cells(texts, widths, active, active + 1, x)[i - lead]);
    }
}

/// The last cell of a row ends in its last column.
pub open spec fn full(cells: Seq<CellText>, width: int) -> bool {
    cells.last().x + cells.last().text.len() == width
}

/// Tabs that fit side by side take up the whole row with their markers once the active one is cut to
/// more than one column.
proof fn lemma_cut_exact(texts: Seq<Text>, active: int, width: int, from: int, to: int)
    requires
        countable(texts),
        0 <= from <= active < to <= texts.len(),
        span(widths_of(counted(), texts), from, to) - 1 <= width,
    ensures
        ({
            let widths = widths_of(counted(), texts);
            let cut = squeezed_texts(counted(), texts, active, width, from, to);
            let cut_widths = widths_of(counted(), cut);
            ||| cut[active] == texts[active]
            ||| cut[active] == ellipsis()
            ||| span(cut_widths, from, to) - 1 + 2 * marker_count(from, to, texts.len() as int)
                == width
        }),
{
    let widths = widths_of(counted(), texts);
    let cut = squeezed_texts(counted(), texts, active, width, from, to);
    let cut_widths = widths_of(counted(), cut);
    lemma_squeezed(texts, active, width, from, to);
    lemma_span_update(widths, cut_widths, active, from, to);
    assert(widths[active] == texts[active].len());
    if let Some(left) = squeezed(widths, active, width, from, to) {
        law_cut_text_fits(texts[active], left);
    }
}

/// A placed row ends in its last column where its tabs and markers take up all of it, or where its
/// last tab does.
proof fn lemma_placed_full(
    texts: Seq<Text>,
    from: int,
    to: int,
    marked: bool,
    width: int,
)
    requires
        countable(texts),
        0 <= from < to <= texts.len(),
        ({
            let widths = widths_of(counted(), texts);
            let x = first_x(marked);
            &&& placed_end(widths, from, to, x, width) == to
            &&& if to < texts.len() {
                x + span(widths, from, to) + 1 == width || x + span(widths, from, to) - 1 == width
            } else {
                x + span(widths, from, to) - 1 == width
            }
        }),
    ensures
        full(placed(texts, widths_of(counted(), texts), from, to, marked, width), width),
{
    let widths = widths_of(counted(), texts);
    let x = first_x(marked);
    let cells = placed(texts, widths, from, to, marked, width);
    assert(span(widths, from, to) == span(widths, from, to - 1) + widths[to - 1] + 1);
    assert(widths[to - 1] == texts[to - 1].len());
    if !(to < texts.len() && x + span(widths, from, to) < width) {
        assert(cells.last() == tab_cells(texts, widths, from, to, x)[to - 1 - from]);
    }
}

/// The active tab is cut no more than it has to be, where each character is one column: it is shown
/// with its label, or the row is full, or all that is left of it is the ellipsis.
pub proof fn law_active_tab_is_cut_as_far_as_needed(
    labels: Seq<Text>,
    active: int,
    width: int,
    i: int,
)
    requires
        countable(labels),
        0 <= active < labels.len(),
        width >= 1,
        0 <= i < tab_row(counted(), labels, active, width).len(),
        tab_row(counted(), labels, active, width)[i].tab == Some(active),
    ensures
        ({
            let cells = tab_row(counted(), labels, active, width);
            ||| cells[i].text == labels[active]
            ||| cells[i].text == seq!['\u{2026}']
            ||| full(cells, width)
        }),
{
    let m = counted();
    let count = labels.len() as int;
    let cells = tab_row(m, labels, active, width);
    let (texts, from, to, marked) = row_parts(m, labels, active, width);
    let end = lemma_row(m, labels, active, width);
    let widths = widths_of(m, texts);
    let lead: int = if marked {
        1
    } else {
        0
    };
    assert(lead <= i < lead + (end - from));
    assert(cells[i] == tab_cells(texts, widths, from, end, first_x(marked))[i - lead]);
    assert(cells[i].text == texts[active]);
    assert(ellipsis() =~= seq!['\u{2026}']);
    if fits(widths_of(m, labels), 0, count, width) {
        law_fitting_row_is_complete(m, labels, active, width);
    } else {
        lemma_compacted(labels, active, width);
        lemma_columns(labels, active);
        lemma_cut_rows(labels, active, width);
    }
}

/// The same of a row that leaves out tabs or cuts inactive ones.
proof fn lemma_cut_rows(labels: Seq<Text>, active: int, width: int)
    requires
        countable(labels),
        0 <= active < labels.len(),
        width >= 1,
        !fits(widths_of(counted(), labels), 0, labels.len() as int, width),
    ensures
        ({
            let (texts, from, to, marked) = row_parts(counted(), labels, active, width);
            ||| texts[active] == labels[active]
            ||| texts[active] == ellipsis()
            ||| full(tab_row(counted(), labels, active, width), width)
        }),
{
    let m = counted();
    let count = labels.len() as int;
    let short = compacted(m, labels, active);
    let (start, end) = first_tabs(m, labels, active, width);
    let (from, to) = shown_tabs(m, labels, active, width);
    let first = first_texts(m, labels, active, width);
    let texts = row_texts(m, labels, active, width);
    let first_widths = widths_of(m, first);
    let widths = widths_of(m, texts);
    lemma_columns(labels, active);
    lemma_compacted(labels, active, width);
    lemma_row_texts(m, labels, active, width);
    lemma_squeezed(short, active, width, start, end);
    lemma_squeezed(short, active, width, from, to);
    assert(countable(first)) by {
        assert forall|k: int| 0 <= k < first.len() implies (#[trigger] first[k]).len()
            <= usize::MAX by {
            if k != active {
                assert(first[k] == short[k]);
            }
        }
    }
    assert(countable(texts)) by {
        assert forall|k: int| 0 <= k < texts.len() implies (#[trigger] texts[k]).len()
            <= usize::MAX by {
            if k != active {
                assert(texts[k] == short[k]);
            }
        }
    }
    if settled(first_widths, active, width, start, end) {
        lemma_first_cut(labels, active, width);
    } else if roomy(widths, from, to, width) {
        lemma_roomy(widths, width, from, to);
        lemma_window(widths_of(m, short), active, width, 0, count);
        if span(widths_of(m, short), from, to) - 1 <= width {
            lemma_cut_exact(short, active, width, from, to);
            if span(widths, from, to) - 1 + 2 * marker_count(from, to, count) == width {
                lemma_placed_full(texts, from, to, from > 0, width);
            }
        } else {
            lemma_span_part(widths_of(m, short), start, end, from, to);
            lemma_span_update(widths_of(m, short), widths, active, from, to);
        }
    } else if !wide_enough(count, active, width) && centred(
        first_widths,
        active,
        width,
        start,
        end,
    ) {
        lemma_first_cut(labels, active, width);
    } else {
        lemma_narrow_cut(labels, active, width);
    }
}

/// The same of the row of the active tab alone.
proof fn lemma_narrow_cut(labels: Seq<Text>, active: int, width: int)
    requires
        countable(labels),
        0 <= active < labels.len(),
        width >= 1,
    ensures
        ({
            let texts = narrow_texts(counted(), labels, active, width);
            ||| texts[active] == labels[active]
            ||| full(crate::tab_row::narrow_row(counted(), labels, active, width), width)
        }),
{
    let m = counted();
    let count = labels.len() as int;
    let texts = narrow_texts(m, labels, active, width);
    let widths = widths_of(m, texts);
    let length = narrow_columns(count, active, width);
    lemma_narrow_row(m, labels, active, width);
    law_cut_text_fits(labels[active], length);
    assert(widths[active] == texts[active].len());
    assert(span(widths, active, active) == 0);
    assert(span(widths, active, active + 1) == widths[active] + 1);
    assert(countable(texts)) by {
        assert forall|k: int| 0 <= k < texts.len() implies (#[trigger] texts[k]).len()
            <= usize::MAX by {
            if k != active {
                assert(texts[k] == labels[k]);
            }
        }
    }
    if labels[active].len() > length {
        lemma_placed_full(texts, active, active + 1, narrow_marked(active, width), width);
    }
}

/// The same of the tabs that fit side by side, placed as far as the markers leave room.
proof fn lemma_first_cut(labels: Seq<Text>, active: int, width: int)
    requires
        countable(labels),
        0 <= active < labels.len(),
        width >= 1,
        !fits(widths_of(counted(), labels), 0, labels.len() as int, width),
        ({
            let (start, end) = first_tabs(counted(), labels, active, width);
            let first = widths_of(counted(), first_texts(counted(), labels, active, width));
            ||| settled(first, active, width, start, end)
            ||| !wide_enough(labels.len() as int, active, width) && centred(
                first,
                active,
                width,
                start,
                end,
            )
        }),
        countable(first_texts(counted(), labels, active, width)),
    ensures
        ({
            let texts = first_texts(counted(), labels, active, width);
            ||| texts[active] == labels[active]
            ||| texts[active] == ellipsis()
            ||| full(first_row(counted(), labels, active, width), width)
        }),
{
    let m = counted();
    let count = labels.len() as int;
    let short = compacted(m, labels, active);
    let widths = widths_of(m, short);
    let (start, end) = first_tabs(m, labels, active, width);
    let texts = first_texts(m, labels, active, width);
    let cut = widths_of(m, texts);
    lemma_columns(labels, active);
    lemma_compacted(labels, active, width);
    lemma_row_texts(m, labels, active, width);
    lemma_window(widths, active, width, 0, count);
    lemma_squeezed(short, active, width, start, end);
    lemma_span_update(widths, cut, active, start, end);
    if span(widths, start, end) - 1 <= width {
        lemma_cut_exact(short, active, width, start, end);
        if span(cut, start, end) - 1 + 2 * marker_count(start, end, count) == width {
            lemma_roomy(cut, width, start, end);
            lemma_placed_full(texts, start, end, start > 0, width);
        }
    } else {
        assert(start == active && end == active + 1);
        assert(span(cut, active, active) == 0);
        assert(span(widths, active, active) == 0);
        assert(span(cut, active, active + 1) == cut[active] + 1);
        lemma_placed_end(cut, start, end, first_x(start > 0), width);
        if let Some(left) = squeezed(widths, active, width, start, end) {
            law_cut_text_fits(short[active], left);
            if left > 1 {
                lemma_placed_full(texts, start, end, start > 0, width);
            }
        }
    }
}

// ---- rows whose active tab cannot give enough ----
/// The columns of the tabs `from..to` side by side, with `cut` columns for the active one.
pub open spec fn side_by_side_cut(
    labels: Seq<Text>,
    active: int,
    cut: int,
    from: int,
    to: int,
) -> int
    decreases to - from,
{
    if from >= to {
        -1
    } else {
        side_by_side_cut(labels, active, cut, from, to - 1) + 1 + if to - 1 == active {
            cut
        } else {
            columns(labels, active, to - 1)
        }
    }
}

/// What is left of the active tab at least: one column, or nothing of an empty label.
pub open spec fn least(labels: Seq<Text>, active: int) -> int {
    if labels[active].len() == 0 {
        0
    } else {
        1
    }
}

/// The columns before the first of the tabs from `from`: those of a marker and its blank, where tabs
/// are left out before it.
pub open spec fn lead(from: int) -> int {
    if from > 0 {
        2
    } else {
        0
    }
}

/// Of the tabs `from..to`, with `cut` columns for the active one, `last` is the first that does not
/// fit behind the marker and the tabs before it, if there is one.
pub open spec fn fits_up_to(
    labels: Seq<Text>,
    active: int,
    cut: int,
    width: int,
    from: int,
    to: int,
    last: int,
) -> bool {
    &&& from <= last <= to
    &&& from < last ==> lead(from) + side_by_side_cut(labels, active, cut, from, last) <= width
    &&& last < to ==> lead(from) + side_by_side_cut(labels, active, cut, from, last + 1) > width
}

/// The tabs `from..last` show the active one, and the nearest ones with it.
pub open spec fn around_active(active: int, count: int, from: int, last: int) -> bool {
    active < last && (last < count ==> last - active >= active - from)
}

/// A marker finds room behind the tabs `from..last`, if it has to.
pub open spec fn end_marked(
    labels: Seq<Text>,
    active: int,
    cut: int,
    width: int,
    from: int,
    last: int,
) -> bool {
    last < labels.len() ==> lead(from) + side_by_side_cut(labels, active, cut, from, last) + 2
        <= width
}

/// The columns that the active tab would have to give so that the tabs `from..to` and their markers
/// have room.
pub open spec fn missing(labels: Seq<Text>, active: int, width: int, from: int, to: int) -> int {
    side_by_side(labels, active, from, to) + due(labels.len() as int, from, to) - width
}

/// The active tab can give the missing columns.
pub open spec fn can_give(
    labels: Seq<Text>,
    active: int,
    width: int,
    from: int,
    to: int,
) -> bool {
    missing(labels, active, width, from, to) <= labels[active].len() - least(labels, active)
}

/// The columns of tabs with the active one cut.
proof fn lemma_side_by_side_cut(
    labels: Seq<Text>,
    active: int,
    cut: int,
    widths: Seq<usize>,
    from: int,
    to: int,
)
    requires
        0 <= from <= to <= widths.len(),
        widths.len() == labels.len(),
        forall|i: int|
            0 <= i < labels.len() && i != active ==> #[trigger] widths[i] == columns(
                labels,
                active,
                i,
            ),
        0 <= active < labels.len(),
        widths[active] == cut,
    ensures
        side_by_side_cut(labels, active, cut, from, to) == span(widths, from, to) - 1,
    decreases to - from,
{
    if from < to {
        lemma_side_by_side_cut(labels, active, cut, widths, from, to - 1);
    }
}

/// Up to where tabs are placed, by their columns.
proof fn lemma_reached_is(
    labels: Seq<Text>,
    active: int,
    cut: int,
    widths: Seq<usize>,
    width: int,
    from: int,
    to: int,
    last: int,
)
    requires
        0 <= from <= to <= widths.len(),
        widths.len() == labels.len(),
        forall|i: int|
            0 <= i < labels.len() && i != active ==> #[trigger] widths[i] == columns(
                labels,
                active,
                i,
            ),
        0 <= active < labels.len(),
        widths[active] == cut,
        fits_up_to(labels, active, cut, width, from, to, last),
    ensures
        reached(widths, from, to, width) == last,
{
    let x = first_x(from > 0);
    let end = reached(widths, from, to, width);
    lemma_placed_end(widths, from, to, x, width);
    lemma_side_by_side_cut(labels, active, cut, widths, from, last);
    if end > last {
        lemma_side_by_side_cut(labels, active, cut, widths, from, last + 1);
        assert(x + span(widths, from, last) + widths[last] <= width);
    } else if end < last {
        lemma_not_placed(widths, from, to, width);
        lemma_span_grows(widths, from, end + 1, last);
    }
}

/// The texts of the most tabs that fit side by side, where the active one cannot give the missing
/// columns: what is left of it is one column.
proof fn lemma_least_cut(labels: Seq<Text>, active: int, width: int, from: int, to: int)
    requires
        countable(labels),
        0 <= active < labels.len(),
        0 <= from <= active < to <= labels.len(),
        side_by_side(labels, active, from, to) <= width,
        missing(labels, active, width, from, to) > 0,
        !can_give(labels, active, width, from, to),
    ensures
        ({
            let texts = squeezed_texts(
                counted(),
                compacted(counted(), labels, active),
                active,
                width,
                from,
                to,
            );
            let widths = widths_of(counted(), texts);
            &&& texts.len() == labels.len()
            &&& widths[active] == least(labels, active)
            &&& texts[active].len() == least(labels, active)
            &&& forall|i: int|
                0 <= i < labels.len() && i != active ==> #[trigger] widths[i] == columns(
                    labels,
                    active,
                    i,
                )
        }),
{
    let m = counted();
    let count = labels.len() as int;
    let short = compacted(m, labels, active);
    let widths = widths_of(m, short);
    lemma_columns(labels, active);
    assert(countable(short)) by {
        assert forall|i: int| 0 <= i < short.len() implies (#[trigger] short[i]).len()
            <= usize::MAX by {
            assert(widths[i] == short[i].len());
        }
    }
    assert(short[active] == labels[active]);
    lemma_side_by_side(labels, active, widths, from, to);
    assert(due(count, from, to) == 2 * marker_count(from, to, count));
    lemma_squeezed(short, active, width, from, to);
}

/// Where the active tab cannot give the columns that the markers miss, it is cut to one, and the most
/// tabs that fit side by side are placed as far as they then fit. If that shows the nearest tabs and
/// leaves the right marker its room, the row shows exactly those.
pub proof fn law_row_of_what_could_be_placed(
    labels: Seq<Text>,
    active: int,
    width: int,
    from: int,
    to: int,
    last: int,
)
    requires
        countable(labels),
        width >= 1,
        most_that_fit(labels, active, width, from, to),
        side_by_side(labels, active, from, to) <= width,
        !can_give(labels, active, width, from, to),
        missing(labels, active, width, from, to) > 0,
        fits_up_to(labels, active, least(labels, active), width, from, to, last),
        around_active(active, labels.len() as int, from, last),
        end_marked(labels, active, least(labels, active), width, from, last),
    ensures
        ({
            let cells = tab_row(counted(), labels, active, width);
            &&& forall|tab: int| #[trigger] shows(cells, tab) <==> from <= tab < last
            &&& forall|i: int|
                0 <= i < cells.len() && (#[trigger] cells[i]).tab == Some(active)
                    ==> cells[i].text.len() == least(labels, active)
        }),
{
    let m = counted();
    let count = labels.len() as int;
    let cut = least(labels, active);
    let texts = first_texts(m, labels, active, width);
    let widths = widths_of(m, texts);
    lemma_first_is(labels, active, width, from, to);
    lemma_least_cut(labels, active, width, from, to);
    lemma_reached_is(labels, active, cut, widths, width, from, to, last);
    lemma_side_by_side_cut(labels, active, cut, widths, from, last);
    lemma_ranked_nearest(active, count, from, last);
    assert(settled(widths, active, width, from, to));
    lemma_cells_of_first(labels, active, width, from, to);
}

/// The cells of the tabs that fit side by side, where the row is made of them.
proof fn lemma_cells_of_first(labels: Seq<Text>, active: int, width: int, from: int, to: int)
    requires
        countable(labels),
        0 <= active < labels.len(),
        width >= 1,
        first_tabs(counted(), labels, active, width) == (from, to),
        tab_row(counted(), labels, active, width) == first_row(counted(), labels, active, width),
    ensures
        ({
            let cells = tab_row(counted(), labels, active, width);
            let texts = first_texts(counted(), labels, active, width);
            let last = reached(widths_of(counted(), texts), from, to, width);
            &&& forall|tab: int| #[trigger] shows(cells, tab) <==> from <= tab < last
            &&& forall|i: int|
                0 <= i < cells.len() && (#[trigger] cells[i]).tab == Some(active) ==> cells[i].text
                    == texts[active]
        }),
{
    let m = counted();
    let cells = tab_row(m, labels, active, width);
    let texts = first_texts(m, labels, active, width);
    let widths = widths_of(m, texts);
    let x = first_x(from > 0);
    let end = reached(widths, from, to, width);
    let front: int = if from > 0 {
        1
    } else {
        0
    };
    lemma_row_texts(m, labels, active, width);
    lemma_placed_end(widths, from, to, x, width);
    assert forall|tab: int| #[trigger] shows(cells, tab) <==> from <= tab < end by {
        lemma_placed_shows(texts, widths, from, to, from > 0, width, tab);
    }
    assert forall|i: int|
        0 <= i < cells.len() && (#[trigger] cells[i]).tab == Some(active) implies cells[i].text
        == texts[active] by {
        assert(front <= i < front + (end - from));
        assert(cells[i] == tab_cells(texts, widths, from, end, x)[i - front]);
    }
}

/// Tabs with their markers have room exactly where the active one can give what they miss.
proof fn lemma_roomy_is(labels: Seq<Text>, active: int, width: int, from: int, to: int)
    requires
        countable(labels),
        0 <= from <= active < to <= labels.len(),
        side_by_side(labels, active, from, to) <= width,
    ensures
        ({
            let texts = squeezed_texts(
                counted(),
                compacted(counted(), labels, active),
                active,
                width,
                from,
                to,
            );
            let widths = widths_of(counted(), texts);
            let gap = missing(labels, active, width, from, to);
            &&& roomy(widths, from, to, width) <==> can_give(labels, active, width, from, to)
            &&& can_give(labels, active, width, from, to) ==> texts[active].len()
                == labels[active].len() - (if gap > 0 {
                gap
            } else {
                0
            }) && (gap <= 0 ==> texts[active] == labels[active])
        }),
{
    let m = counted();
    let count = labels.len() as int;
    let short = compacted(m, labels, active);
    let widths = widths_of(m, short);
    lemma_columns(labels, active);
    assert(countable(short)) by {
        assert forall|i: int| 0 <= i < short.len() implies (#[trigger] short[i]).len()
            <= usize::MAX by {
            assert(widths[i] == short[i].len());
        }
    }
    assert(short[active] == labels[active]);
    lemma_side_by_side(labels, active, widths, from, to);
    assert(due(count, from, to) == 2 * marker_count(from, to, count));
    lemma_squeezed(short, active, width, from, to);
    let cut = widths_of(m, squeezed_texts(m, short, active, width, from, to));
    lemma_span_update(widths, cut, active, from, to);
}

/// Dropping tabs for their markers stops at the most for which the active one can give the rest.
proof fn lemma_marked_window_is(
    labels: Seq<Text>,
    active: int,
    width: int,
    lo: int,
    hi: int,
    from: int,
    to: int,
)
    requires
        countable(labels),
        0 <= lo <= from <= active < to <= hi <= labels.len(),
        ranked(active, labels.len() as int, lo, hi),
        ranked(active, labels.len() as int, from, to),
        side_by_side(labels, active, lo, hi) <= width,
        can_give(labels, active, width, from, to),
        forall|a: int, b: int|
            lo <= a <= from && to <= b <= hi && (a, b) != (from, to) && ranked(
                active,
                labels.len() as int,
                a,
                b,
            ) ==> !#[trigger] can_give(labels, active, width, a, b),
    ensures
        marked_window(
            counted(),
            compacted(counted(), labels, active),
            active,
            width,
            lo,
            hi,
        ) == (from, to),
    decreases hi - lo,
{
    let count = labels.len() as int;
    let short = compacted(counted(), labels, active);
    let widths = widths_of(counted(), short);
    lemma_roomy_is(labels, active, width, lo, hi);
    if (lo, hi) != (from, to) {
        lemma_columns(labels, active);
        lemma_side_by_side(labels, active, widths, lo, hi);
        if active - lo > hi - 1 - active {
            lemma_side_by_side(labels, active, widths, lo + 1, hi);
            lemma_span_part(widths, lo, hi, lo + 1, hi);
            lemma_marked_window_is(labels, active, width, lo + 1, hi, from, to);
        } else {
            lemma_side_by_side(labels, active, widths, lo, hi - 1);
            lemma_span_part(widths, lo, hi, lo, hi - 1);
            lemma_marked_window_is(labels, active, width, lo, hi - 1, from, to);
        }
    }
}

/// Where the most tabs that fit side by side cannot be placed with their markers, the farthest ones
/// drop until the active one can give what the markers miss. The row shows exactly the tabs that are
/// left, with the active one cut by what is missing.
pub proof fn law_row_after_further_tabs_drop(
    labels: Seq<Text>,
    active: int,
    width: int,
    start: int,
    end: int,
    last: int,
    from: int,
    to: int,
)
    requires
        countable(labels),
        width >= 1,
        most_that_fit(labels, active, width, start, end),
        side_by_side(labels, active, start, end) <= width,
        !can_give(labels, active, width, start, end),
        missing(labels, active, width, start, end) > 0,
        fits_up_to(labels, active, least(labels, active), width, start, end, last),
        !around_active(active, labels.len() as int, start, last) || !end_marked(
            labels,
            active,
            least(labels, active),
            width,
            start,
            last,
        ),
        start <= from <= active < to <= end,
        ranked(active, labels.len() as int, from, to),
        can_give(labels, active, width, from, to),
        forall|a: int, b: int|
            start <= a <= from && to <= b <= end && (a, b) != (from, to) && ranked(
                active,
                labels.len() as int,
                a,
                b,
            ) ==> !#[trigger] can_give(labels, active, width, a, b),
    ensures
        ({
            let cells = tab_row(counted(), labels, active, width);
            let gap = missing(labels, active, width, from, to);
            let length = labels[active].len() - if gap > 0 {
                gap
            } else {
                0
            };
            &&& forall|tab: int| #[trigger] shows(cells, tab) <==> from <= tab < to
            &&& forall|i: int|
                0 <= i < cells.len() && (#[trigger] cells[i]).tab == Some(active)
                    ==> cells[i].text.len() == length && (gap <= 0 ==> cells[i].text
                    == labels[active])
        }),
{
    let m = counted();
    let count = labels.len() as int;
    let least_cut = least(labels, active);
    let short = compacted(m, labels, active);
    let first = widths_of(m, first_texts(m, labels, active, width));
    lemma_first_is(labels, active, width, start, end);
    lemma_columns(labels, active);
    lemma_least_cut(labels, active, width, start, end);
    lemma_reached_is(labels, active, least_cut, first, width, start, end, last);
    lemma_side_by_side_cut(labels, active, least_cut, first, start, last);
    if active < last {
        crate::tab_row::lemma_nearest(active, count, start, last);
    }
    assert(!settled(first, active, width, start, end));
    lemma_marked_window_is(labels, active, width, start, end, from, to);
    lemma_side_by_side(labels, active, widths_of(m, short), start, end);
    lemma_side_by_side(labels, active, widths_of(m, short), from, to);
    lemma_span_part(widths_of(m, short), start, end, from, to);
    lemma_roomy_is(labels, active, width, from, to);
    let texts = row_texts(m, labels, active, width);
    let widths = widths_of(m, texts);
    let cells = tab_row(m, labels, active, width);
    assert(shown_tabs(m, labels, active, width) == (from, to));
    lemma_row_texts(m, labels, active, width);
    lemma_roomy(widths, width, from, to);
    assert(cells == placed(texts, widths, from, to, from > 0, width));
    let x = first_x(from > 0);
    let front: int = if from > 0 {
        1
    } else {
        0
    };
    assert forall|tab: int| #[trigger] shows(cells, tab) <==> from <= tab < to by {
        lemma_placed_shows(texts, widths, from, to, from > 0, width, tab);
    }
    assert forall|i: int|
        0 <= i < cells.len() && (#[trigger] cells[i]).tab == Some(active) implies cells[i].text
        == texts[active] by {
        assert(front <= i < front + (to - from));
        assert(cells[i] == tab_cells(texts, widths, from, to, x)[i - front]);
    }
}

// ---- rows too short for the markers ----
/// The row shows exactly the tabs `from..to`, with `length` characters of the active one.
pub open spec fn row_shows(
    labels: Seq<Text>,
    active: int,
    width: int,
    from: int,
    to: int,
    length: int,
) -> bool {
    let cells = tab_row(counted(), labels, active, width);
    &&& forall|tab: int| #[trigger] shows(cells, tab) <==> from <= tab < to
    &&& forall|i: int|
        0 <= i < cells.len() && (#[trigger] cells[i]).tab == Some(active) ==> cells[i].text.len()
            == length
}

/// What a row too short for the markers leaves an active tab alone: all of it but for the left
/// marker, where that finds room.
pub open spec fn alone(labels: Seq<Text>, active: int, width: int) -> int {
    let left = width - if active > 0 && width >= 3 {
        2int
    } else {
        0int
    };
    if labels[active].len() <= left {
        labels[active].len() as int
    } else {
        left
    }
}

/// The cells of the row of the active tab alone, in a row too short for the markers.
proof fn lemma_short_narrow(labels: Seq<Text>, active: int, width: int)
    requires
        countable(labels),
        0 <= active < labels.len(),
        1 <= width < 1 + due(labels.len() as int, active, active + 1),
        tab_row(counted(), labels, active, width) == crate::tab_row::narrow_row(
            counted(),
            labels,
            active,
            width,
        ),
    ensures
        row_shows(labels, active, width, active, active + 1, alone(labels, active, width)),
{
    let m = counted();
    let count = labels.len() as int;
    let cells = crate::tab_row::narrow_row(m, labels, active, width);
    let texts = narrow_texts(m, labels, active, width);
    let widths = widths_of(m, texts);
    let marked = narrow_marked(active, width);
    let front: int = if marked {
        1
    } else {
        0
    };
    let length = narrow_columns(count, active, width);
    lemma_narrow_row(m, labels, active, width);
    law_cut_text_fits(labels[active], length);
    assert(texts[active].len() == alone(labels, active, width));
    assert forall|i: int|
        0 <= i < cells.len() && (#[trigger] cells[i]).tab == Some(active) implies cells[i].text
        == texts[active] by {
        assert(front <= i < front + 1);
        assert(cells[i] == tab_cells(
            texts,
            widths,
            active,
            active + 1,
            first_x(marked),
        )[i - front]);
    }
}

/// A row too short for one column of the active tab and its markers, where nothing fits with them,
/// shows the tabs that fit side by side as far as they can be placed with the active one cut to one
/// column. If that hides the active tab or nearer ones, the row shows the active tab alone.
pub proof fn law_short_row(
    labels: Seq<Text>,
    active: int,
    width: int,
    from: int,
    to: int,
    last: int,
)
    requires
        countable(labels),
        1 <= width < 1 + due(labels.len() as int, active, active + 1),
        most_that_fit(labels, active, width, from, to),
        side_by_side(labels, active, from, to) <= width,
        missing(labels, active, width, from, to) > 0,
        fits_up_to(labels, active, least(labels, active), width, from, to, last),
        !end_marked(labels, active, least(labels, active), width, from, last) || !around_active(
            active,
            labels.len() as int,
            from,
            last,
        ),
        forall|a: int, b: int|
            from <= a <= active < b <= to && ranked(active, labels.len() as int, a, b)
                ==> !#[trigger] can_give(labels, active, width, a, b),
    ensures
        if around_active(active, labels.len() as int, from, last) {
            row_shows(labels, active, width, from, last, least(labels, active))
        } else {
            row_shows(labels, active, width, active, active + 1, alone(labels, active, width))
        },
{
    let m = counted();
    let count = labels.len() as int;
    let cut = least(labels, active);
    let short = compacted(m, labels, active);
    let widths = widths_of(m, short);
    let first = widths_of(m, first_texts(m, labels, active, width));
    let (f, t) = shown_tabs(m, labels, active, width);
    assert(!can_give(labels, active, width, from, to));
    lemma_first_is(labels, active, width, from, to);
    lemma_columns(labels, active);
    lemma_least_cut(labels, active, width, from, to);
    lemma_reached_is(labels, active, cut, first, width, from, to, last);
    lemma_side_by_side_cut(labels, active, cut, first, from, last);
    if active < last {
        crate::tab_row::lemma_nearest(active, count, from, last);
    }
    assert(!settled(first, active, width, from, to));
    lemma_marked_window_next(m, short, active, width, count, from, to);
    lemma_side_by_side(labels, active, widths, from, to);
    lemma_side_by_side(labels, active, widths, f, t);
    lemma_span_part(widths, from, to, f, t);
    assert(!can_give(labels, active, width, f, t));
    lemma_roomy_is(labels, active, width, f, t);
    assert(!wide_enough(count, active, width));
    if around_active(active, count, from, last) {
        lemma_cells_of_first(labels, active, width, from, to);
    } else {
        lemma_short_narrow(labels, active, width);
    }
}

/// A row too short for one column of the active tab and its markers, with an active label that is
/// wider than the row, shows that tab alone. It gives the columns of the markers where that leaves it
/// one and brings it into the row. Otherwise it takes up what the row leaves it.
pub proof fn law_short_row_of_a_wide_tab(labels: Seq<Text>, active: int, width: int)
    requires
        countable(labels),
        0 <= active < labels.len(),
        1 <= width < 1 + due(labels.len() as int, active, active + 1),
        most_that_fit(labels, active, width, active, active + 1),
        labels[active].len() > width,
    ensures
        ({
            let given = labels[active].len() - due(labels.len() as int, active, active + 1);
            let cut = if given < 1 {
                1
            } else {
                given
            };
            row_shows(
                labels,
                active,
                width,
                active,
                active + 1,
                if lead(active) + cut <= width {
                    cut
                } else {
                    alone(labels, active, width)
                },
            )
        }),
{
    let m = counted();
    let count = labels.len() as int;
    let texts = compacted(m, labels, active);
    let widths = widths_of(m, texts);
    let first_texts = first_texts(m, labels, active, width);
    let first = widths_of(m, first_texts);
    let given = labels[active].len() - due(count, active, active + 1);
    let cut = if given < 1 {
        1
    } else {
        given
    };
    lemma_first_is(labels, active, width, active, active + 1);
    lemma_compacted(labels, active, width);
    lemma_columns(labels, active);
    lemma_squeezed(texts, active, width, active, active + 1);
    assert(span(first, active, active) == 0);
    assert(span(widths, active, active) == 0);
    assert(span(widths, active, active + 1) == widths[active] + 1);
    assert(span(first, active, active + 1) == first[active] + 1);
    assert(due(count, active, active + 1) == 2 * marker_count(active, active + 1, count));
    assert(squeezed(widths, active, width, active, active + 1) == Some(cut));
    assert(first[active] == cut);
    assert(shown_tabs(m, labels, active, width) == (active, active + 1));
    lemma_placed_end(first, active, active + 1, first_x(active > 0), width);
    lemma_ranked_nearest(active, count, active, active + 1);
    if lead(active) + cut <= width {
        lemma_placed_reaches(first, active, active + 1, first_x(active > 0), width, active);
        assert(centred(first, active, width, active, active + 1));
        lemma_cells_of_first(labels, active, width, active, active + 1);
    } else {
        assert(!centred(first, active, width, active, active + 1));
        lemma_short_narrow(labels, active, width);
    }
}

/// An index behind the last tab stands for the last tab, and there is no row without labels or
/// columns.
pub proof fn law_rows_at_the_edges(m: Measure, labels: Seq<Text>, active: int, width: int)
    requires
        0 <= active,
    ensures
        labels.len() == 0 || width <= 0 ==> tab_row(m, labels, active, width).len() == 0,
        labels.len() > 0 && active >= labels.len() ==> tab_row(m, labels, active, width) == tab_row(
            m,
            labels,
            labels.len() - 1,
            width,
        ),
{
}

} // verus!
