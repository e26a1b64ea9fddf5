//! Display rows and their sorting.

use vstd::prelude::*;
use crate::order::KeyView;
use crate::order::SortKey;
use crate::paths::RequestType;
use crate::sort::arrange;
use crate::sort::as_ints;
use crate::sort::keys_ordered;
use crate::sort::lemma_arrange_keeps_items;
use crate::sort::lemma_reversed_keys;
use crate::sort::lemma_reversed_order;
use crate::sort::lemma_stable_order;
use crate::sort::sorted_indices;
use crate::sort::stable_order;
use crate::text::to_chars;

verus! {

/// The column that rows are sorted by.
#[derive(Clone, Copy, Debug, PartialEq, Eq, Structural)]
pub enum SortField {
    Path,
    Ext,
    Requests,
    AvgRequestSize,
    Bandwidth,
}

/// The two views of the statistics.
#[derive(Clone, Copy, Debug, PartialEq, Eq, Structural)]
pub enum ViewMode {
    Path,
    Type,
}

/// One line of the table.
#[derive(Debug, Clone)]
pub struct DisplayRow {
    pub label: String,
    pub ext: String,
    pub request_count: u64,
    pub bandwidth_sum: u64,
    pub req_type: RequestType,
    pub open_url: Option<String>,
    pub is_group: bool,
}

/// The mathematical value of a `DisplayRow`.
pub struct RowView {
    pub label: Seq<char>,
    pub ext: Seq<char>,
    pub request_count: nat,
    pub bandwidth_sum: nat,
    pub req_type: RequestType,
    pub open_url: Option<Seq<char>>,
    pub is_group: bool,
}

impl View for DisplayRow {
    type V = RowView;

    open spec fn view(&self) -> RowView {
        RowView {
            label: self.label@,
            ext: self.ext@,
            request_count: self.request_count as nat,
            bandwidth_sum: self.bandwidth_sum as nat,
            req_type: self.req_type,
            open_url: match self.open_url {
                Some(url) => Some(url@),
                None => None,
            },
            is_group: self.is_group,
        }
    }
}

impl DeepView for DisplayRow {
    type V = RowView;

    open spec fn deep_view(&self) -> RowView {
        self@
    }
}

/// Bandwidth per request, `0` where there was no request.
pub open spec fn average(bandwidth: nat, requests: nat) -> nat {
    if requests == 0 {
        0
    } else {
        bandwidth / requests
    }
}

/// The key of a row under a sort field. By path, query rows rank first and the
/// label decides among the rest.
pub open spec fn row_key(row: RowView, field: SortField) -> KeyView {
    match field {
        SortField::Path => KeyView {
            rank: if row.req_type == RequestType::Query {
                0
            } else {
                1
            },
            text: row.label,
            number: 0,
        },
        SortField::Ext => KeyView { rank: 0, text: row.ext, number: 0 },
        SortField::Requests => KeyView { rank: 0, text: Seq::empty(), number: row.request_count },
        SortField::AvgRequestSize => KeyView {
            rank: 0,
            text: Seq::empty(),
            number: average(row.bandwidth_sum, row.request_count),
        },
        SortField::Bandwidth => KeyView { rank: 0, text: Seq::empty(), number: row.bandwidth_sum },
    }
}

/// The keys of a list of rows.
pub open spec fn row_keys(rows: Seq<RowView>, field: SortField) -> Seq<KeyView> {
    Seq::new(rows.len(), |i: int| row_key(rows[i], field))
}

/// The rows in the order of their keys; rows with the same key keep their order.
pub open spec fn sorted_rows(rows: Seq<RowView>, field: SortField, descending: bool) -> Seq<RowView> {
    arrange(rows, stable_order(row_keys(rows, field), descending))
}

/// Sorting keeps the rows, each as often as before; it puts their keys in the
/// chosen direction; and rows of the same key stay in the order they had.
pub proof fn law_sorted_rows(rows: Seq<RowView>, field: SortField, descending: bool)
    ensures
        sorted_rows(rows, field, descending).len() == rows.len(),
        sorted_rows(rows, field, descending).to_multiset() == rows.to_multiset(),
        keys_ordered(row_keys(sorted_rows(rows, field, descending), field), descending),
        forall|a: int, b: int|
            #![trigger sorted_rows(rows, field, descending)[a], sorted_rows(rows, field, descending)[b]]
            0 <= a < b < rows.len() ==> {
                let order = stable_order(row_keys(rows, field), descending);
                &&& 0 <= order[a] < rows.len()
                &&& 0 <= order[b] < rows.len()
                &&& sorted_rows(rows, field, descending)[a] == rows[order[a]]
                &&& sorted_rows(rows, field, descending)[b] == rows[order[b]]
                &&& row_key(rows[order[a]], field) == row_key(rows[order[b]], field) ==> order[a] < order[b]
            },
{
    let keys = row_keys(rows, field);
    let order = stable_order(keys, descending);
    let sorted = sorted_rows(rows, field, descending);
    lemma_stable_order(keys, descending);
    lemma_arrange_keeps_items(rows, keys, descending);
    assert forall|a: int| 0 <= a < order.len() implies 0 <= #[trigger] order[a] < rows.len() by {
        assert(order.contains(order[a]));
    }
    assert(row_keys(sorted, field) =~= arrange(keys, order));
    assert forall|a: int, b: int| 0 <= a < b < rows.len() implies {
        &&& 0 <= order[a] < rows.len()
        &&& 0 <= order[b] < rows.len()
        &&& #[trigger] sorted[a] == rows[order[a]]
        &&& #[trigger] sorted[b] == rows[order[b]]
        &&& row_key(rows[order[a]], field) == row_key(rows[order[b]], field) ==> order[a] < order[b]
    } by {
        assert(0 <= order[a] < rows.len());
        assert(0 <= order[b] < rows.len());
    }
}

/// The keys of an ascending sort, read backwards, are the keys of the
/// descending sort: the two directions differ only in the order of rows that
/// the field does not tell apart.
pub proof fn law_sort_directions_mirror_keys(rows: Seq<RowView>, field: SortField)
    ensures
        row_keys(sorted_rows(rows, field, false).reverse(), field) == row_keys(
            sorted_rows(rows, field, true),
            field,
        ),
{
    let keys = row_keys(rows, field);
    let up = stable_order(keys, false);
    let down = stable_order(keys, true);
    lemma_stable_order(keys, false);
    lemma_stable_order(keys, true);
    lemma_reversed_keys(keys);
    assert forall|a: int| 0 <= a < up.len() implies 0 <= #[trigger] up[a] < rows.len() by {
        assert(up.contains(up[a]));
    }
    assert forall|a: int| 0 <= a < down.len() implies 0 <= #[trigger] down[a] < rows.len() by {
        assert(down.contains(down[a]));
    }
    assert(row_keys(sorted_rows(rows, field, false).reverse(), field) =~= arrange(keys, up).reverse());
    assert(row_keys(sorted_rows(rows, field, true), field) =~= arrange(keys, down));
}

/// Where the field tells all rows apart, the ascending sort read backwards is
/// the descending sort.
pub proof fn law_sort_directions_mirror(rows: Seq<RowView>, field: SortField)
    requires
        forall|i: int, j: int|
            0 <= i < j < rows.len() ==> row_key(#[trigger] rows[i], field) != row_key(
                #[trigger] rows[j],
                field,
            ),
    ensures
        sorted_rows(rows, field, false).reverse() == sorted_rows(rows, field, true),
{
    let keys = row_keys(rows, field);
    assert forall|i: int, j: int| 0 <= i < j < keys.len() implies #[trigger] keys[i] != #[trigger] keys[j] by {
        assert(row_key(rows[i], field) != row_key(rows[j], field));
    }
    lemma_reversed_order(keys);
    lemma_stable_order(keys, false);
    assert(sorted_rows(rows, field, false).reverse() =~= arrange(rows, stable_order(keys, false).reverse()));
}

impl DisplayRow {
    /// Bandwidth per request, `0` where there was no request.
    pub fn avg_size(&self) -> (avg: u64)
        ensures
            avg == average(self@.bandwidth_sum, self@.request_count),
    {
        if self.request_count == 0 {
            0
        } else {
            self.bandwidth_sum / self.request_count
        }
    }

    /// The key of the row under a sort field.
    pub fn sort_key(&self, field: SortField) -> (key: SortKey)
        ensures
            key@ == row_key(self@, field),
    {
        match field {
            SortField::Path => SortKey {
                rank: match self.req_type {
                    RequestType::Query => 0,
                    _ => 1,
                },
                text: to_chars(self.label.as_str()),
                number: 0,
            },
            SortField::Ext => SortKey { rank: 0, text: to_chars(self.ext.as_str()), number: 0 },
            SortField::Requests => SortKey { rank: 0, text: Vec::new(), number: self.request_count },
            SortField::AvgRequestSize => SortKey { rank: 0, text: Vec::new(), number: self.avg_size() },
            SortField::Bandwidth => SortKey { rank: 0, text: Vec::new(), number: self.bandwidth_sum },
        }
    }

    /// A copy of the row.
    pub fn duplicate(&self) -> (copy: DisplayRow)
        ensures
            copy@ == self@,
    {
        DisplayRow {
            label: self.label.clone(),
            ext: self.ext.clone(),
            request_count: self.request_count,
            bandwidth_sum: self.bandwidth_sum,
            req_type: self.req_type,
            open_url: match &self.open_url {
                Some(url) => Some(url.clone()),
                None => None,
            },
            is_group: self.is_group,
        }
    }
}

/// Sorts the rows by a field, ascending or descending. The sort is stable: rows
/// that the field does not tell apart keep their order.
pub fn sort_display_rows(rows: &mut Vec<DisplayRow>, field: SortField, descending: bool)
    ensures
        final(rows).deep_view() == sorted_rows(old(rows).deep_view(), field, descending),
{
    let ghost before = rows.deep_view();
    let mut keys: Vec<SortKey> = Vec::new();
    let mut i: usize = 0;
    while i < rows.len()
        invariant
            i <= rows.len(),
            rows.deep_view() == before,
            keys.len() == i,
            forall|k: int| 0 <= k < i ==> (#[trigger] keys[k])@ == row_key(before[k], field),
        decreases rows.len() - i,
    {
        let key = rows[i].sort_key(field);
        proof {
            assert(before[i as int] == rows[i as int]@);
        }
        keys.push(key);
        i += 1;
    }
    proof {
        assert(keys.deep_view() =~= row_keys(before, field));
    }
    let order = sorted_indices(&keys, descending);
    let ghost spec_order = stable_order(row_keys(before, field), descending);
    let mut sorted: Vec<DisplayRow> = Vec::new();
    let mut k: usize = 0;
    while k < order.len()
        invariant
            k <= order.len(),
            order.len() == rows.len(),
            rows.deep_view() == before,
            as_ints(order@) == spec_order,
            forall|m: int| 0 <= m < order.len() ==> #[trigger] order[m] < rows.len(),
            sorted.len() == k,
            forall|m: int| 0 <= m < k ==> (#[trigger] sorted[m])@ == before[spec_order[m]],
        decreases order.len() - k,
    {
        let at = order[k];
        proof {
            assert(as_ints(order@)[k as int] == at);
            assert(before[at as int] == rows[at as int]@);
        }
        sorted.push(rows[at].duplicate());
        k += 1;
    }
    proof {
        assert(spec_order.len() == order.len());
        assert(sorted.deep_view() =~= sorted_rows(before, field, descending));
    }
    *rows = sorted;
}

} // verus!
