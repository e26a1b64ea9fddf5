//! The part of the row list that fits the table, kept around the selection.

use vstd::prelude::*;
use crate::rows::DisplayRow;

verus! {

/// Columns taken by the fixed-width columns, the spacing and the borders.
pub const FIXED_COLUMNS: u16 = 52;

/// The least width of the id column.
pub const MIN_ID_WIDTH: u16 = 10;

/// Lines of the table area that hold no row: the borders and the header.
pub const TABLE_FRAME: u16 = 3;

/// Lines among the rows that hold no data: two dividers and the totals.
pub const TABLE_CHROME: usize = 3;

/// The width left for the id column in an area of the given width.
pub open spec fn id_width(area_width: int) -> int {
    if area_width - FIXED_COLUMNS > MIN_ID_WIDTH {
        area_width - FIXED_COLUMNS
    } else {
        MIN_ID_WIDTH as int
    }
}

/// The row lines of a table area of the given height, at least one.
pub open spec fn row_lines(height: int) -> int {
    if height - TABLE_FRAME > 1 {
        height - TABLE_FRAME
    } else {
        1
    }
}

/// The selected index brought into `0 .. len`, for a list that is not empty.
pub open spec fn clamped(selected: Option<usize>, len: int) -> int {
    let index = match selected {
        Some(index) => index as int,
        None => 0,
    };
    if index < len - 1 {
        index
    } else {
        len - 1
    }
}

/// The rows that `visible_rows` lines can hold once one line is set aside.
pub open spec fn capacity(visible_rows: int) -> int {
    if visible_rows >= 1 {
        visible_rows - 1
    } else {
        0
    }
}

/// The range `start .. end` of rows to show: empty without rows or capacity;
/// else it starts at the first row, or as little below it as shows the
/// selection on its last line, and ends a full page later or with the list.
pub open spec fn window(len: int, selected: Option<usize>, visible_rows: int) -> (int, int) {
    let page = capacity(visible_rows);
    if len == 0 || page == 0 {
        (0, 0)
    } else {
        let at = clamped(selected, len);
        let start = if at >= page {
            at + 1 - page
        } else {
            0
        };
        let end = if start + page < len {
            start + page
        } else {
            len
        };
        (start, end)
    }
}

/// Where there are rows and room for one of them, the window holds the
/// selection, lies inside the list, is no longer than a page and a full page
/// where the list allows, and is scrolled only as far as shows the selection
/// on its last line.
pub proof fn law_window_holds_selection(len: int, selected: Option<usize>, visible_rows: int)
    requires
        len > 0,
        visible_rows >= 2,
    ensures
        ({
            let (start, end) = window(len, selected, visible_rows);
            let at = clamped(selected, len);
            &&& 0 <= start <= at < end <= len
            &&& selected matches Some(index) ==> (index < len ==> start <= index < end)
            &&& end - start <= capacity(visible_rows)
            &&& len >= capacity(visible_rows) ==> end - start == capacity(visible_rows)
            &&& start == 0 || at == end - 1
        }),
{
}

/// What the table shows: the rows `start .. end`, and the line of the selection
/// among the lines below the header, where the selection is shown.
#[derive(Clone, Copy, Debug, PartialEq, Eq, Structural)]
pub struct TableWindow {
    pub start: usize,
    pub end: usize,
    pub highlighted: Option<usize>,
}

/// The window of a table area of the given height over `len` rows.
pub open spec fn table_window_of(len: int, selected: Option<usize>, height: int) -> TableWindow {
    let range = window(len, selected, row_lines(height) - TABLE_CHROME);
    TableWindow {
        start: range.0 as usize,
        end: range.1 as usize,
        highlighted: match selected {
            Some(index) => if range.0 <= index < range.1 {
                Some((index - range.0 + 1) as usize)
            } else {
                None
            },
            None => None,
        },
    }
}

/// The width of the id column in an area of the given width.
pub fn id_column_width(area_width: u16) -> (width: usize)
    ensures
        width == id_width(area_width as int),
{
    let available: u16 = if area_width > FIXED_COLUMNS {
        area_width - FIXED_COLUMNS
    } else {
        0
    };
    if available > MIN_ID_WIDTH {
        available as usize
    } else {
        MIN_ID_WIDTH as usize
    }
}

/// The row lines of a table area of the given height, at least one.
pub fn visible_row_count(height: u16) -> (rows: usize)
    ensures
        rows == row_lines(height as int),
{
    let available: u16 = if height > TABLE_FRAME {
        height - TABLE_FRAME
    } else {
        0
    };
    if available > 1 {
        available as usize
    } else {
        1
    }
}

/// The range of rows to show in `visible_rows` lines, one of which is set
/// aside. The range holds the selection, scrolls no further than that needs,
/// and is a full page wherever the list is long enough.
pub fn visible_range(items: &[DisplayRow], selected: Option<usize>, visible_rows: usize) -> (range: (usize, usize))
    ensures
        (range.0 as int, range.1 as int) == window(items@.len() as int, selected, visible_rows as int),
        range.0 <= range.1 <= items@.len(),
        range.1 - range.0 <= capacity(visible_rows as int),
        items@.len() >= capacity(visible_rows as int) ==> range.1 - range.0 == capacity(visible_rows as int),
        items@.len() > 0 && visible_rows >= 2 ==> range.0 <= clamped(selected, items@.len() as int) < range.1,
        selected matches Some(index) ==> (index < items@.len() && visible_rows >= 2 ==> range.0 <= index
            < range.1),
{
    let len = items.len();
    if len == 0 {
        return (0, 0);
    }
    let max_items: usize = if visible_rows >= 1 {
        visible_rows - 1
    } else {
        0
    };
    if max_items == 0 {
        return (0, 0);
    }
    let wanted: usize = match selected {
        Some(index) => index,
        None => 0,
    };
    let at: usize = if wanted < len - 1 {
        wanted
    } else {
        len - 1
    };
    let start: usize = if at >= max_items {
        at + 1 - max_items
    } else {
        0
    };
    let end: usize = if max_items < len - start {
        start + max_items
    } else {
        len
    };
    (start, end)
}

/// The window of a table area of the given height: the rows to show between
/// the dividers, and the line to highlight.
pub fn table_window(items: &[DisplayRow], selected: Option<usize>, height: u16) -> (shown: TableWindow)
    ensures
        shown == table_window_of(items@.len() as int, selected, height as int),
        shown.start <= shown.end <= items@.len(),
        selected matches Some(index) ==> (index < items@.len() && height >= 8 ==> shown.start <= index
            < shown.end && shown.highlighted == Some((index - shown.start + 1) as usize)),
{
    let visible_rows = visible_row_count(height);
    let content_rows: usize = if visible_rows > TABLE_CHROME {
        visible_rows - TABLE_CHROME
    } else {
        0
    };
    let (start, end) = visible_range(items, selected, content_rows);
    let highlighted = match selected {
        Some(index) => if index >= start && index < end {
            Some(index - start + 1)
        } else {
            None
        },
        None => None,
    };
    TableWindow { start, end, highlighted }
}

} // verus!
