//! The tab row: which cells are drawn, and where.

use context_tabs::tab_row::{
    has_room, is_centred, is_settled, layout_tab_row, place, squeeze, visible_window,
};
use context_tabs::width::{truncate_measured, truncate_to};
use unicode_width::{UnicodeWidthChar, UnicodeWidthStr};

fn layout(labels: &[&str], active: usize, width: u16) -> Vec<(Option<usize>, String, u16)> {
    layout_tab_row(labels, active, width)
        .into_iter()
        .map(|cell| (cell.tab, cell.text, cell.x))
        .collect()
}

fn display_width(text: &str) -> usize {
    UnicodeWidthStr::width(text)
}

#[test]
fn tab_row_fits_wide_and_truncates_narrow() {
    let labels = ["+", "default", "kund", "privat", "all"];
    assert_eq!(
        layout(&labels, 1, 40),
        [
            (Some(0), "+".to_owned(), 0),
            (Some(1), "default".to_owned(), 2),
            (Some(2), "kund".to_owned(), 10),
            (Some(3), "privat".to_owned(), 15),
            (Some(4), "all".to_owned(), 22),
        ]
    );
    // 17 cells: inactive labels shrink first, then the farthest tabs drop.
    let narrow = layout(&labels, 3, 17);
    assert!(narrow
        .iter()
        .any(|(tab, text, _)| *tab == Some(3) && text == "privat"));
    assert!(narrow
        .iter()
        .all(|(_, text, x)| usize::from(*x) + display_width(text) <= 17));
    assert!(narrow.iter().any(|(tab, _, _)| tab.is_none()));
    // The active tab survives even when nothing else fits.
    let tiny = layout(&labels, 2, 4);
    assert!(tiny.iter().any(|(tab, _, _)| *tab == Some(2)));
    assert!(tiny
        .iter()
        .all(|(_, text, x)| usize::from(*x) + display_width(text) <= 4));
    assert!(layout(&labels, 0, 0).is_empty());
}

#[test]
fn narrow_rows_mark_what_they_leave_out() {
    let labels = ["+", "default", "kund", "privat", "all"];
    assert_eq!(
        layout(&labels, 3, 17),
        [
            (None, "\u{2026}".to_owned(), 0),
            (Some(2), "kund".to_owned(), 2),
            (Some(3), "privat".to_owned(), 7),
            (Some(4), "all".to_owned(), 14),
        ]
    );
    assert_eq!(
        layout(&labels, 2, 4),
        [
            (None, "\u{2026}".to_owned(), 0),
            (Some(2), "\u{2026}".to_owned(), 2),
        ]
    );
    // The farthest tab drops first, and of two equally far ones the right one.
    assert_eq!(
        layout(&labels, 1, 12),
        [
            (Some(0), "+".to_owned(), 0),
            (Some(1), "default".to_owned(), 2),
            (None, "\u{2026}".to_owned(), 10),
        ]
    );
    // An index behind the last tab stands for the last tab.
    assert_eq!(layout(&labels, 9, 17), layout(&labels, 4, 17));
    assert!(layout(&[], 0, 17).is_empty());
}

#[test]
fn inactive_tabs_shrink_before_any_is_dropped() {
    assert_eq!(
        layout(&["alphabet", "kundleveransen", "beta"], 1, 26),
        [
            (Some(0), "alph\u{2026}".to_owned(), 0),
            (Some(1), "kundleveransen".to_owned(), 6),
            (Some(2), "beta".to_owned(), 21),
        ]
    );
}

#[test]
fn active_tab_gives_room_to_the_markers() {
    assert_eq!(
        layout(&["one", "kundleveransen", "two"], 1, 16),
        [
            (None, "\u{2026}".to_owned(), 0),
            (Some(1), "kundleveran\u{2026}".to_owned(), 2),
            (None, "\u{2026}".to_owned(), 15),
        ]
    );
}

#[test]
fn active_tab_is_never_hidden() {
    assert_eq!(layout(&["privat"], 0, 3), [(Some(0), "pr\u{2026}".to_owned(), 0)]);
    let labels = ["+", "default", "kundleveransen", "privat", "all"];
    assert_eq!(layout(&labels, 2, 1), [(Some(2), "\u{2026}".to_owned(), 0)]);
    assert_eq!(layout(&labels, 2, 2), [(Some(2), "k\u{2026}".to_owned(), 0)]);
    let mixed = ["+", "\u{65e5}\u{672c}\u{8a9e}", "e\u{301}t\u{e9}", "", "a\u{7}b", "\u{1f600}"];
    for labels in [&labels[..], &mixed[..]] {
        for active in 0..labels.len() {
            for width in 1..60 {
                let cells = layout(labels, active, width);
                assert!(cells.iter().any(|(tab, _, _)| *tab == Some(active)));
                let mut next = 0;
                for (_, text, x) in &cells {
                    assert_eq!(usize::from(*x), next);
                    assert!(next + display_width(text) <= usize::from(width));
                    next += display_width(text) + 1;
                }
                let shown = cells.iter().filter_map(|(tab, _, _)| *tab).collect::<Vec<_>>();
                let (first, last) = (shown[0], shown[shown.len() - 1]);
                let left = first > 0;
                let right = last + 1 < labels.len();
                let wanted = 1 + 2 * (u16::from(active > 0) + u16::from(active + 1 < labels.len()));
                if left && width >= 3 {
                    assert_eq!(cells[0], (None, "\u{2026}".to_owned(), 0));
                }
                if right && width >= wanted {
                    let cell = &cells[cells.len() - 1];
                    assert_eq!((cell.0, cell.1.as_str()), (None, "\u{2026}"));
                }
                // No tab that is left out is nearer than one that is shown.
                for kept in &shown {
                    for dropped in (0..first).chain(last + 1..labels.len()) {
                        assert!(dropped.abs_diff(active) >= kept.abs_diff(active));
                    }
                }
            }
        }
    }
}

#[test]
fn wide_characters_take_two_columns() {
    assert_eq!(
        layout(&["+", "\u{65e5}\u{672c}\u{8a9e}\u{6587}\u{5b57}", "all"], 0, 10),
        [
            (Some(0), "+".to_owned(), 0),
            (Some(1), "\u{65e5}\u{672c}\u{2026}".to_owned(), 2),
            (None, "\u{2026}".to_owned(), 8),
        ]
    );
    assert_eq!(
        layout(&["\u{65e5}\u{672c}", "all"], 0, 8),
        [
            (Some(0), "\u{65e5}\u{672c}".to_owned(), 0),
            (Some(1), "all".to_owned(), 5),
        ]
    );
}

#[test]
fn texts_are_cut_with_an_ellipsis() {
    assert_eq!(truncate_to("kund", 4), "kund");
    assert_eq!(truncate_to("kund", 9), "kund");
    assert_eq!(truncate_to("kund", 3), "ku\u{2026}");
    assert_eq!(truncate_to("kund", 1), "\u{2026}");
    assert_eq!(truncate_to("kund", 0), "");
    assert_eq!(truncate_to("", 0), "");
    // A character that would not leave a column for the ellipsis is left out.
    assert_eq!(truncate_to("\u{65e5}\u{672c}\u{8a9e}", 4), "\u{65e5}\u{2026}");
    assert_eq!(truncate_to("\u{65e5}\u{672c}\u{8a9e}", 5), "\u{65e5}\u{672c}\u{2026}");
    // Control characters and combining marks count for nothing.
    assert_eq!(truncate_to("a\u{7}bcdef", 3), "a\u{7}b\u{2026}");
    assert_eq!(truncate_to("e\u{301}abcd", 3), "e\u{301}a\u{2026}");
}

#[test]
fn plain_characters_are_one_column_wide() {
    for code in 0x20..=0x7eu8 {
        let text = char::from(code).to_string().repeat(3);
        assert_eq!(truncate_to(&text, 3), text);
        assert_eq!(truncate_to(&text, 2), format!("{}\u{2026}", char::from(code)));
    }
    assert_eq!(truncate_to("\u{2026}\u{2026}", 2), "\u{2026}\u{2026}");
    let mut plain = (0x20..=0x7eu8).map(char::from).collect::<Vec<_>>();
    plain.push('\u{2026}');
    assert_eq!(display_width(&plain.iter().collect::<String>()), 96);
    for &a in &plain {
        assert_eq!(UnicodeWidthChar::width(a), Some(1));
        for &b in &plain {
            for &c in &plain {
                assert_eq!(display_width(&[a, b, c].iter().collect::<String>()), 3);
            }
        }
    }
}

#[test]
fn control_characters_have_no_width() {
    for code in 0..=0x10ffffu32 {
        if let Some(c) = char::from_u32(code) {
            assert_eq!(UnicodeWidthChar::width(c).is_none(), c.is_control());
        }
    }
}

#[test]
fn measured_parts_of_the_layout() {
    // Columns 1, 7, 4, 6 and 3, with tab 2 active.
    let widths = vec![1, 7, 4, 6, 3];
    assert_eq!(visible_window(&widths, 2, 25), (0, 5));
    assert_eq!(visible_window(&widths, 2, 24), (0, 4));
    assert_eq!(visible_window(&widths, 2, 18), (1, 3));
    assert_eq!(visible_window(&widths, 2, 11), (2, 3));
    assert_eq!(squeeze(&widths, 2, 25, 0, 5), None);
    assert_eq!(squeeze(&widths, 2, 8, 2, 3), None);
    assert_eq!(squeeze(&widths, 2, 7, 2, 3), Some(3));
    assert_eq!(squeeze(&widths, 2, 1, 2, 3), Some(1));
    assert_eq!(squeeze(&widths, 4, 4, 4, 5), Some(2));
    assert_eq!(truncate_measured("abc", 6, &vec![2, 2, 2], 5), "ab\u{2026}");
    assert_eq!(truncate_measured("abc", 6, &vec![2, 2, 2], 4), "a\u{2026}");
    // Widths that cannot be summed up do not fit.
    assert_eq!(visible_window(&vec![usize::MAX, usize::MAX, 3], 2, 9), (2, 3));
    // Tab 2 takes up 4 columns, and each marker 2.
    assert!(has_room(&widths, 2, 3, 8));
    assert!(!has_room(&widths, 2, 3, 7));
    assert!(has_room(&widths, 0, 5, 25));
    assert!(!has_room(&widths, 0, 4, 22));
    // Tabs that find no room are left out on the right, where they have to be the farthest ones.
    assert!(is_settled(&widths, 2, 25, 0, 5));
    assert!(is_settled(&widths, 2, 8, 2, 3));
    assert!(!is_settled(&widths, 2, 7, 2, 3));
    assert!(is_centred(&widths, 2, 7, 2, 3));
    assert!(!is_centred(&widths, 2, 5, 2, 3));
    assert!(is_settled(&vec![5, 2, 1, 4, 5], 2, 10, 1, 4));
    assert!(!is_centred(&vec![1, 1, 1, 4], 2, 6, 0, 4));
    let texts = vec!["ab".to_owned(), "cd".to_owned(), "ef".to_owned()];
    let cells = place(&texts, &vec![2, 2, 2], 0, 3, false, 7)
        .into_iter()
        .map(|cell| (cell.tab, cell.x))
        .collect::<Vec<_>>();
    assert_eq!(cells, [(Some(0), 0), (Some(1), 3), (None, 6)]);
}

#[test]
fn tabs_that_the_left_marker_pushes_out_are_marked() {
    assert_eq!(
        layout(&["aaaaa", "b", "x", "ccccc"], 2, 9),
        [
            (None, "\u{2026}".to_owned(), 0),
            (Some(1), "b".to_owned(), 2),
            (Some(2), "x".to_owned(), 4),
            (None, "\u{2026}".to_owned(), 6),
        ]
    );
}

#[test]
fn further_tabs_drop_where_the_markers_find_no_room() {
    let labels = ["+", "default", "kund", "privat", "all"];
    let row = |text: &str, tab: usize| {
        [(Some(tab), text.to_owned(), 0), (None, "\u{2026}".to_owned(), 2)]
    };
    assert_eq!(layout(&labels, 0, 7), row("+", 0));
    assert_eq!(layout(&labels, 0, 8), row("+", 0));
    assert_eq!(
        layout(&labels, 0, 9),
        [
            (Some(0), "+".to_owned(), 0),
            (Some(1), "defa\u{2026}".to_owned(), 2),
            (None, "\u{2026}".to_owned(), 8),
        ]
    );
    // A row that is too short for one column and the markers shows the active tab.
    assert_eq!(layout(&labels, 0, 3), row("+", 0));
    assert_eq!(layout(&labels, 0, 2), [(Some(0), "+".to_owned(), 0)]);
    assert_eq!(
        layout(&labels, 2, 5),
        [
            (None, "\u{2026}".to_owned(), 0),
            (Some(2), "\u{2026}".to_owned(), 2),
            (None, "\u{2026}".to_owned(), 4),
        ]
    );
}

#[test]
fn rows_that_are_marked_as_they_are_placed_stay() {
    assert_eq!(
        layout(&["aaaaa", "bb", "xx", "cccc", "ddddd"], 2, 10),
        [
            (None, "\u{2026}".to_owned(), 0),
            (Some(1), "bb".to_owned(), 2),
            (Some(2), "\u{2026}".to_owned(), 5),
            (None, "\u{2026}".to_owned(), 7),
        ]
    );
    // No row of three columns can show the active tab and mark both sides.
    assert_eq!(
        layout(&["a", "b", "c"], 1, 3),
        [(Some(0), "a".to_owned(), 0), (Some(1), "b".to_owned(), 2)]
    );
}
