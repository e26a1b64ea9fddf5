//! What the table shows beside the rows: shortened ids, column headers and
//! the totals.

use vstd::prelude::*;
use crate::rows::average;
use crate::rows::SortField;
use crate::session::App;
use crate::stats::bandwidth_in;
use crate::stats::lemma_sums_of_prefix;
use crate::stats::requests_in;
use crate::stats::totals_fit;
use crate::stats::Group;
use crate::stats::PathStats;
use crate::stats::StatView;
use crate::text::char_at;
use crate::text::string_of;
use crate::text::to_chars;

verus! {

/// The first `count` characters of a text, or all of it where it is shorter.
pub open spec fn left(value: Seq<char>, count: int) -> Seq<char> {
    if count < value.len() {
        value.take(count)
    } else {
        value
    }
}

/// A text of `bytes` bytes cut to a column of `width`: unchanged where its
/// bytes fit, else cut to `width` characters, the last three of them dots
/// where the width is more than three.
pub open spec fn shortened(value: Seq<char>, bytes: int, width: int) -> Seq<char> {
    if bytes <= width {
        value
    } else if width <= 3 {
        left(value, width)
    } else {
        left(value, width - 3) + "..."@
    }
}

/// Whether two characters are the same but for the case of an ASCII letter.
pub open spec fn same_letter(a: char, b: char) -> bool {
    ||| a == b
    ||| 'A' <= a <= 'Z' && 'a' <= b <= 'z' && a as int + 32 == b as int
    ||| 'a' <= a <= 'z' && 'A' <= b <= 'Z' && b as int + 32 == a as int
}

/// The place of the first character of `label` that is the shortcut, but for
/// case; `label.len()` where there is none.
pub open spec fn shortcut_at(label: Seq<char>, shortcut: char) -> int
    decreases label.len(),
{
    if label.len() == 0 {
        0
    } else if same_letter(label[0], shortcut) {
        0
    } else {
        1 + shortcut_at(label.drop_first(), shortcut)
    }
}

/// One character of a column header.
#[derive(Clone, Copy, Debug, PartialEq, Eq, Structural)]
pub struct HeaderChar {
    pub ch: char,
    pub underlined: bool,
}

/// The mark of the sort direction on the header of the sorted column.
#[derive(Clone, Copy, Debug, PartialEq, Eq, Structural)]
pub enum SortArrow {
    Up,
    Down,
}

/// A column header: its characters, the shortcut underlined, and the mark of
/// the sort direction where the column is the sorted one.
#[derive(Clone, Debug)]
pub struct HeaderLine {
    pub chars: Vec<HeaderChar>,
    pub arrow: Option<SortArrow>,
}

/// The totals line of the table.
#[derive(Clone, Debug)]
pub struct TotalsRow {
    pub label: String,
    pub requests: u64,
    pub average: u64,
    pub bandwidth: u64,
}

/// The shortcut stands at place `i` of the label.
proof fn lemma_shortcut_at(label: Seq<char>, shortcut: char, i: int)
    requires
        0 <= i <= label.len(),
        i < label.len() ==> same_letter(label[i], shortcut),
        forall|j: int| 0 <= j < i ==> !same_letter(#[trigger] label[j], shortcut),
    ensures
        shortcut_at(label, shortcut) == i,
    decreases label.len(),
{
    if label.len() > 0 && i > 0 {
        assert(!same_letter(label[0], shortcut));
        let rest = label.drop_first();
        assert forall|j: int| 0 <= j < i - 1 implies !same_letter(#[trigger] rest[j], shortcut) by {
            assert(rest[j] == label[j + 1]);
        }
        lemma_shortcut_at(rest, shortcut, i - 1);
    }
}

/// Whether two characters are the same but for the case of an ASCII letter.
fn is_same_letter(a: char, b: char) -> (same: bool)
    ensures
        same == same_letter(a, b),
{
    if a == b {
        true
    } else if a >= 'A' && a <= 'Z' && b >= 'a' && b <= 'z' {
        a as u32 + 32 == b as u32
    } else if a >= 'a' && a <= 'z' && b >= 'A' && b <= 'Z' {
        b as u32 + 32 == a as u32
    } else {
        false
    }
}

/// The first `count` characters of a text, or all of it where it is shorter.
pub fn take_left(value: &str, count: usize) -> (taken: String)
    ensures
        taken@ == left(value@, count as int),
{
    let chars = to_chars(value);
    let end = if count < chars.len() {
        count
    } else {
        chars.len()
    };
    proof {
        assert(chars@.subrange(0, end as int) =~= left(value@, count as int));
    }
    string_of(&chars, 0, end)
}

/// A text cut to a column of `width`: unchanged where its bytes fit, else cut
/// to `width` characters, the last three of them dots where the width is more
/// than three.
pub fn truncate_with_ellipsis(value: &str, width: usize) -> (shown: String)
    ensures
        shown@ == shortened(value@, value.len() as int, width as int),
{
    if value.len() <= width {
        return value.to_owned();
    }
    if width <= 3 {
        return take_left(value, width);
    }
    let mut shown = take_left(value, width - 3);
    shown.append("...");
    shown
}

/// An id as the id column of the given width shows it.
pub fn format_id_display(value: &str, width: usize) -> (shown: String)
    ensures
        shown@ == shortened(value@, value.len() as int, width as int),
{
    truncate_with_ellipsis(value, width)
}

/// The header of the column of `field`: the characters of the label, the
/// first one that is the shortcut underlined, and the mark of the direction
/// where the session is sorted by the field.
pub fn header_line(label: &str, shortcut: char, app: &App, field: SortField) -> (line: HeaderLine)
    ensures
        line.chars@.len() == label@.len(),
        forall|i: int|
            0 <= i < label@.len() ==> (#[trigger] line.chars[i]).ch == label@[i] && line.chars[i].underlined
                == (i == shortcut_at(label@, shortcut)),
        line.arrow == if app@.sort_field != field {
            None
        } else if app@.descending {
            Some(SortArrow::Down)
        } else {
            Some(SortArrow::Up)
        },
{
    let chars = to_chars(label);
    let mut spans: Vec<HeaderChar> = Vec::new();
    let mut at: usize = chars.len();
    let mut i: usize = 0;
    while i < chars.len()
        invariant
            i <= chars.len(),
            chars@ == label@,
            spans.len() == i,
            at < chars.len() ==> at < i && same_letter(chars[at as int], shortcut),
            at <= chars.len(),
            forall|j: int| 0 <= j < i && j < at ==> !same_letter(#[trigger] chars[j], shortcut),
            forall|j: int|
                0 <= j < i ==> (#[trigger] spans[j]).ch == chars[j] && spans[j].underlined == (j == at),
        decreases chars.len() - i,
    {
        let ch = char_at(&chars, i);
        let underlined = at == chars.len() && is_same_letter(ch, shortcut);
        if underlined {
            at = i;
        }
        spans.push(HeaderChar { ch, underlined });
        i += 1;
    }
    proof {
        lemma_shortcut_at(chars@, shortcut, at as int);
    }
    let arrow = if app.sort_field() == field {
        if app.descending() {
            Some(SortArrow::Down)
        } else {
            Some(SortArrow::Up)
        }
    } else {
        None
    };
    HeaderLine { chars: spans, arrow }
}

/// The totals over all paths: requests, bandwidth and bandwidth per request,
/// under the label `TOTAL` as the id column of the given width shows it.
pub fn totals_row(items: &Vec<PathStats>, id_width: usize) -> (totals: TotalsRow)
    requires
        totals_fit(items.deep_view()),
    ensures
        totals.requests == requests_in(items.deep_view(), Group::All),
        totals.bandwidth == bandwidth_in(items.deep_view(), Group::All),
        totals.average == average(totals.bandwidth as nat, totals.requests as nat),
        totals.label@ == shortened("TOTAL"@, "TOTAL".len() as int, id_width as int),
{
    let ghost all = items.deep_view();
    let mut total_requests: u64 = 0;
    let mut total_bandwidth: u64 = 0;
    let mut i: usize = 0;
    proof {
        assert(all.take(0) =~= Seq::<StatView>::empty());
    }
    while i < items.len()
        invariant
            i <= items.len(),
            all == items.deep_view(),
            totals_fit(all),
            total_requests == requests_in(all.take(i as int), Group::All),
            total_bandwidth == bandwidth_in(all.take(i as int), Group::All),
        decreases items.len() - i,
    {
        proof {
            assert(all.take(i + 1).drop_last() =~= all.take(i as int));
            assert(all.take(i + 1).last() == items[i as int]@);
            lemma_sums_of_prefix(all, i + 1, Group::All);
        }
        total_requests = total_requests + items[i].request_count;
        total_bandwidth = total_bandwidth + items[i].bandwidth_sum;
        i += 1;
    }
    proof {
        assert(all.take(i as int) =~= all);
    }
    let avg_req = if total_requests == 0 {
        0
    } else {
        total_bandwidth / total_requests
    };
    TotalsRow {
        label: format_id_display("TOTAL", id_width),
        requests: total_requests,
        average: avg_req,
        bandwidth: total_bandwidth,
    }
}

} // verus!
