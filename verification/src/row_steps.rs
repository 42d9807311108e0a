//! What each step of laying out a tab row does, for tabs of any widths.

use crate::row_laws::{due, lemma_window_next, one_more, ranked};
use crate::tab_row::{
    centred, first_tabs, first_texts, first_x, lemma_nearest, lemma_placed_end, lemma_placed_reaches,
    lemma_window, narrow_texts, placed, placed_end, roomy, settled, shrunk, span, squeezed, tab_cells,
    widths_of, window, CellText,
};
use crate::text::Text;
use crate::width::{ellipsis, Measure};
use vstd::prelude::*;

verus! {

/// The columns of the tabs `from..to` side by side, with one blank between any two.
pub open spec fn taken(widths: Seq<usize>, from: int, to: int) -> int
    decreases to - from,
{
    if from >= to {
        -1
    } else {
        taken(widths, from, to - 1) + 1 + widths[to - 1]
    }
}

/// Side by side, tabs have no blank behind the last one.
proof fn lemma_taken(widths: Seq<usize>, from: int, to: int)
    ensures
        taken(widths, from, to) == span(widths, from, to) - 1,
    decreases to - from,
{
    if from < to {
        lemma_taken(widths, from, to - 1);
    }
}

/// The tabs that stay lie around the active one. They fit in the row, or the active tab stays alone.
/// Where a tab is dropped, the nearest one of the dropped ones would not fit beside them, so none is
/// dropped without need; of two that are equally far, the right one goes first.
pub proof fn law_which_tabs_stay(widths: Seq<usize>, active: int, width: int)
    requires
        0 <= active < widths.len(),
    ensures
        ({
            let count = widths.len() as int;
            let (from, to) = window(widths, active, width, 0, count);
            let (a, b) = one_more(active, count, from, to);
            &&& 0 <= from <= active < to <= count
            &&& from + 1 == to || taken(widths, from, to) <= width
            &&& ranked(active, count, from, to)
            &&& (from, to) != (0int, count) ==> 0 <= a && b <= count && taken(widths, a, b) > width
        }),
{
    let count = widths.len() as int;
    let (from, to) = window(widths, active, width, 0, count);
    let (a, b) = one_more(active, count, from, to);
    lemma_window(widths, active, width, 0, count);
    lemma_window_next(widths, active, width, count, 0, count);
    lemma_taken(widths, from, to);
    lemma_taken(widths, a, b);
}

/// A row has room for the markers exactly if the tabs and two columns for each side that is left out
/// are no wider than it.
pub proof fn law_room_for_the_markers(widths: Seq<usize>, from: int, to: int, width: int)
    ensures
        roomy(widths, from, to, width) <==> taken(widths, from, to) + due(
            widths.len() as int,
            from,
            to,
        ) <= width,
{
    lemma_taken(widths, from, to);
}

/// The active tab is cut exactly if a side is left out and its marker has no room. It gives the
/// columns that are missing for the markers, but keeps one.
pub proof fn law_columns_of_the_active_tab(
    widths: Seq<usize>,
    active: int,
    width: int,
    from: int,
    to: int,
)
    requires
        0 <= from <= active < to <= widths.len(),
    ensures
        ({
            let tabs = taken(widths, from, to);
            let markers = due(widths.len() as int, from, to);
            let missing = if tabs <= width {
                tabs + markers - width
            } else {
                markers
            };
            &&& missing <= 0 ==> squeezed(widths, active, width, from, to) is None
            &&& missing > 0 && widths[active] > missing ==> squeezed(widths, active, width, from, to)
                == Some(widths[active] - missing)
            &&& missing > 0 && widths[active] <= missing ==> squeezed(
                widths,
                active,
                width,
                from,
                to,
            ) == Some(1int)
        }),
{
    lemma_taken(widths, from, to);
}

/// Tabs are placed one after the other for as long as they end within the row.
pub proof fn law_how_far_tabs_are_placed(
    widths: Seq<usize>,
    from: int,
    to: int,
    x: int,
    width: int,
    tab: int,
)
    requires
        0 <= from <= tab < to <= widths.len(),
    ensures
        from <= placed_end(widths, from, to, x, width) <= to,
        tab < placed_end(widths, from, to, x, width) <==> x + taken(widths, from, tab + 1) <= width,
{
    let end = placed_end(widths, from, to, x, width);
    lemma_placed_end(widths, from, to, x, width);
    lemma_taken(widths, from, tab);
    lemma_taken(widths, from, tab + 1);
    if x + taken(widths, from, tab + 1) <= width {
        lemma_placed_reaches(widths, from, to, x, width, tab);
    }
}

/// Tabs lie around the active one as far as they are placed if they reach beyond it and the next tab
/// on either side is no nearer than the last one on the other. They are settled if a column is then
/// free for the marker of what is missing behind them.
pub proof fn law_tabs_around_the_active_one(
    widths: Seq<usize>,
    active: int,
    width: int,
    from: int,
    to: int,
)
    requires
        0 <= from <= active < to <= widths.len(),
    ensures
        ({
            let count = widths.len() as int;
            let lead: int = if from > 0 {
                2
            } else {
                0
            };
            let end = placed_end(widths, from, to, lead, width);
            &&& centred(widths, active, width, from, to) <==> active < end && (from == 0 || end - 1
                - active <= active - from + 1) && (end == count || active - from <= end - active)
            &&& settled(widths, active, width, from, to) <==> centred(
                widths,
                active,
                width,
                from,
                to,
            ) && (end == count || lead + taken(widths, from, end) + 1 < width)
        }),
{
    let end = placed_end(widths, from, to, first_x(from > 0), width);
    lemma_placed_end(widths, from, to, first_x(from > 0), width);
    lemma_taken(widths, from, end);
    if active < end {
        lemma_nearest(active, widths.len() as int, from, end);
    }
}

/// A row that is placed starts with the ellipsis if a marker is asked for. Each tab follows with its
/// text, one blank behind the cell before it, and a last ellipsis if tabs are missing and a column is
/// free for it.
pub proof fn law_placed_cells(
    texts: Seq<Text>,
    widths: Seq<usize>,
    from: int,
    to: int,
    marked: bool,
    width: int,
)
    requires
        texts.len() == widths.len(),
        0 <= from <= to <= widths.len(),
    ensures
        ({
            let x: int = if marked {
                2
            } else {
                0
            };
            let lead: int = if marked {
                1
            } else {
                0
            };
            let cells = placed(texts, widths, from, to, marked, width);
            let end = placed_end(widths, from, to, x, width);
            let after = x + taken(widths, from, end) + 1;
            let more = end < texts.len() && after < width;
            &&& marked ==> cells[0] == (CellText { tab: None, text: seq!['\u{2026}'], x: 0 })
            &&& forall|tab: int|
                from <= tab < end ==> #[trigger] cells[tab - from + lead] == (CellText {
                    tab: Some(tab),
                    text: texts[tab],
                    x: x + taken(widths, from, tab) + 1,
                })
            &&& cells.len() == lead + (end - from) + (if more {
                1int
            } else {
                0int
            })
            &&& more ==> cells.last() == (CellText {
                tab: None,
                text: seq!['\u{2026}'],
                x: after,
            })
        }),
{
    let x = first_x(marked);
    let lead: int = if marked {
        1
    } else {
        0
    };
    let cells = placed(texts, widths, from, to, marked, width);
    let end = placed_end(widths, from, to, x, width);
    let inner = tab_cells(texts, widths, from, end, x);
    lemma_placed_end(widths, from, to, x, width);
    lemma_taken(widths, from, end);
    assert(ellipsis() =~= seq!['\u{2026}']);
    assert forall|tab: int| from <= tab < end implies #[trigger] cells[tab - from + lead] == (
    CellText { tab: Some(tab), text: texts[tab], x: x + taken(widths, from, tab) + 1 }) by {
        lemma_taken(widths, from, tab);
        assert(cells[tab - from + lead] == inner[tab - from]);
    }
}

/// The layout starts from the labels where all of them fit side by side, and otherwise from the
/// labels with each inactive one of more than five columns cut to five. However text is measured, the
/// tabs that stay are told by the columns of those texts, and only the active text is cut again.
pub proof fn law_texts_of_a_row(
    m: Measure,
    labels: Seq<Text>,
    texts: Seq<Text>,
    full: Seq<usize>,
    widths: Seq<usize>,
    active: int,
    width: int,
)
    requires
        0 <= active < labels.len(),
        texts.len() == labels.len(),
        full.len() == labels.len(),
        widths.len() == labels.len(),
        forall|i: int| 0 <= i < labels.len() ==> #[trigger] full[i] == (m.text)(labels[i]),
        forall|i: int| 0 <= i < labels.len() ==> #[trigger] widths[i] == (m.text)(texts[i]),
        forall|i: int|
            0 <= i < labels.len() ==> #[trigger] texts[i] == if i == active || full[i] <= 5 || taken(
                full,
                0,
                labels.len() as int,
            ) <= width {
                labels[i]
            } else {
                m.truncated(labels[i], 5)
            },
    ensures
        ({
            let count = labels.len() as int;
            let (from, to) = first_tabs(m, labels, active, width);
            let first = first_texts(m, labels, active, width);
            &&& shrunk(m, labels, active, width) == texts
            &&& (from, to) == window(widths, active, width, 0, count)
            &&& first.len() == count
            &&& forall|i: int| 0 <= i < count && i != active ==> #[trigger] first[i] == texts[i]
            &&& first[active] == match squeezed(widths, active, width, from, to) {
                Some(left) => m.truncated(labels[active], left),
                None => labels[active],
            }
        }),
{
    let count = labels.len() as int;
    lemma_taken(full, 0, count);
    assert(widths_of(m, labels) =~= full);
    assert(shrunk(m, labels, active, width) =~= texts);
    assert(widths_of(m, texts) =~= widths);
}

/// A row of the active tab alone leaves two columns to the marker of each side that has tabs, the left
/// one first, if the tab keeps a column. The tab is cut to the rest, and a text that is still too wide
/// gives way to the ellipsis. The other texts are not touched.
pub proof fn law_text_of_a_lone_tab(m: Measure, labels: Seq<Text>, active: int, width: int)
    requires
        0 <= active < labels.len(),
        width >= 1,
    ensures
        ({
            let count = labels.len() as int;
            let left: int = if active > 0 && width >= 3 {
                2
            } else {
                0
            };
            let right: int = if active + 1 < count && width - left >= 3 {
                2
            } else {
                0
            };
            let columns = width - left - right;
            let cut = m.truncated(labels[active], columns);
            let texts = narrow_texts(m, labels, active, width);
            &&& columns >= 1
            &&& texts.len() == count
            &&& forall|i: int| 0 <= i < count && i != active ==> #[trigger] texts[i] == labels[i]
            &&& (m.text)(cut) <= columns ==> texts[active] == cut
            &&& (m.text)(cut) > columns ==> texts[active] == seq!['\u{2026}']
        }),
{
    assert(ellipsis() =~= seq!['\u{2026}']);
}

} // verus!
