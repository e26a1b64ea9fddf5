//! The two views of the statistics: one row per path, or one group per request
//! type with a row per file extension under the image and file groups.

use vstd::prelude::*;
use crate::order::text_standing;
use crate::order::Standing;
use crate::paths::asset_extension;
use crate::paths::asset_id;
use crate::paths::asset_id_and_ext;
use crate::paths::classify;
use crate::paths::detect_request_type;
use crate::paths::dotted;
use crate::paths::group_name;
use crate::paths::type_label;
use crate::paths::RequestType;
use crate::rows::law_sorted_rows;
use crate::rows::sort_display_rows;
use crate::rows::sorted_rows;
use crate::rows::DisplayRow;
use crate::rows::RowView;
use crate::rows::SortField;
use crate::rows::ViewMode;
use crate::stats::bandwidth_in;
use crate::stats::bucket_of;
use crate::stats::in_group;
use crate::stats::law_types_make_up_totals;
use crate::stats::lemma_sums_of_prefix;
use crate::stats::members_in;
use crate::stats::requests_in;
use crate::stats::sample_in;
use crate::stats::totals_fit;
use crate::stats::Group;
use crate::stats::PathStats;
use crate::stats::StatView;
use crate::sums::lemma_sum_of_permutation;
use crate::sums::sum_of;
use crate::text::find_name;
use crate::text::to_chars;
use crate::text::views;

verus! {

/// The row of one path in the flat view.
pub open spec fn flat_row(stat: StatView) -> RowView {
    let kind = classify(stat.path);
    RowView {
        label: asset_id(stat.path, kind),
        ext: dotted(asset_extension(stat.path, kind)),
        request_count: stat.request_count,
        bandwidth_sum: stat.bandwidth_sum,
        req_type: kind,
        open_url: Some(stat.sample_url),
        is_group: false,
    }
}

/// The flat view before sorting: one row per path, in the order of the paths.
pub open spec fn flat_rows(stats: Seq<StatView>) -> Seq<RowView> {
    Seq::new(stats.len(), |i: int| flat_row(stats[i]))
}

/// The header row of a type's group.
pub open spec fn header_row(stats: Seq<StatView>, kind: RequestType) -> RowView {
    RowView {
        label: group_name(kind),
        ext: Seq::empty(),
        request_count: requests_in(stats, Group::OfType(kind)),
        bandwidth_sum: bandwidth_in(stats, Group::OfType(kind)),
        req_type: kind,
        open_url: None,
        is_group: true,
    }
}

/// The header of a type, where a path of that type exists.
pub open spec fn header_if_present(stats: Seq<StatView>, kind: RequestType) -> Seq<RowView> {
    if members_in(stats, Group::OfType(kind)) > 0 {
        seq![header_row(stats, kind)]
    } else {
        Seq::empty()
    }
}

/// The headers of the types that occur, in the order image, file, query, other.
pub open spec fn header_rows(stats: Seq<StatView>) -> Seq<RowView> {
    header_if_present(stats, RequestType::Image) + header_if_present(stats, RequestType::File)
        + header_if_present(stats, RequestType::Query) + header_if_present(
        stats,
        RequestType::Other,
    )
}

/// The extension groups of a type, each once, in the order in which the paths
/// first show them.
pub open spec fn buckets(stats: Seq<StatView>, kind: RequestType) -> Seq<Seq<char>>
    decreases stats.len(),
{
    if stats.len() == 0 {
        Seq::empty()
    } else {
        let before = buckets(stats.drop_last(), kind);
        let bucket = bucket_of(stats.last().path, kind);
        if classify(stats.last().path) == kind && !before.contains(bucket) {
            before.push(bucket)
        } else {
            before
        }
    }
}

/// The label of an extension row.
pub open spec fn bucket_label(bucket: Seq<char>) -> Seq<char> {
    if bucket == "no ext"@ {
        "  (no ext)"@
    } else {
        "  "@
    }
}

/// The extension text of an extension row.
pub open spec fn bucket_ext(bucket: Seq<char>) -> Seq<char> {
    if bucket == "no ext"@ {
        "(none)"@
    } else {
        seq!['.'] + bucket
    }
}

/// The row of one extension group of a type.
pub open spec fn extension_row(stats: Seq<StatView>, kind: RequestType, bucket: Seq<char>) -> RowView {
    RowView {
        label: bucket_label(bucket),
        ext: bucket_ext(bucket),
        request_count: requests_in(stats, Group::OfBucket(kind, bucket)),
        bandwidth_sum: bandwidth_in(stats, Group::OfBucket(kind, bucket)),
        req_type: kind,
        open_url: Some(sample_in(stats, Group::OfBucket(kind, bucket))),
        is_group: false,
    }
}

/// The extension rows of a type before sorting.
pub open spec fn extension_rows(stats: Seq<StatView>, kind: RequestType) -> Seq<RowView> {
    let names = buckets(stats, kind);
    Seq::new(names.len(), |k: int| extension_row(stats, kind, names[k]))
}

/// The sorted rows under the header of a type: extension rows for images and
/// files, none for the other types.
pub open spec fn children(
    stats: Seq<StatView>,
    kind: RequestType,
    field: SortField,
    descending: bool,
) -> Seq<RowView> {
    if kind.has_extension_rows() {
        sorted_rows(extension_rows(stats, kind), field, descending)
    } else {
        Seq::empty()
    }
}

/// Each header followed by its children.
pub open spec fn with_children(
    headers: Seq<RowView>,
    stats: Seq<StatView>,
    field: SortField,
    descending: bool,
) -> Seq<RowView>
    decreases headers.len(),
{
    if headers.len() == 0 {
        Seq::empty()
    } else {
        with_children(headers.drop_last(), stats, field, descending).push(headers.last())
            + children(stats, headers.last().req_type, field, descending)
    }
}

/// The grouped view: the headers sorted among themselves, each followed by its
/// extension rows sorted among themselves.
pub open spec fn type_rows(stats: Seq<StatView>, field: SortField, descending: bool) -> Seq<RowView> {
    with_children(sorted_rows(header_rows(stats), field, descending), stats, field, descending)
}

/// The rows of a view.
pub open spec fn display_rows(
    stats: Seq<StatView>,
    view_mode: ViewMode,
    field: SortField,
    descending: bool,
) -> Seq<RowView> {
    match view_mode {
        ViewMode::Path => sorted_rows(flat_rows(stats), field, descending),
        ViewMode::Type => type_rows(stats, field, descending),
    }
}

/// A group that no path has shown has nothing counted for it.
pub proof fn lemma_unseen_bucket(stats: Seq<StatView>, kind: RequestType, bucket: Seq<char>)
    requires
        !buckets(stats, kind).contains(bucket),
    ensures
        members_in(stats, Group::OfBucket(kind, bucket)) == 0,
        requests_in(stats, Group::OfBucket(kind, bucket)) == 0,
        bandwidth_in(stats, Group::OfBucket(kind, bucket)) == 0,
    decreases stats.len(),
{
    if stats.len() > 0 {
        let before = buckets(stats.drop_last(), kind);
        let now = buckets(stats, kind);
        if before.contains(bucket) {
            let k = choose|k: int| 0 <= k < before.len() && before[k] == bucket;
            assert(now[k] == bucket);
        }
        lemma_unseen_bucket(stats.drop_last(), kind, bucket);
        if in_group(stats.last(), Group::OfBucket(kind, bucket)) {
            assert(now == before.push(bucket));
            assert(now[before.len() as int] == bucket);
        }
    }
}

/// The requests that the rows show: of all rows, or of the group headers alone.
pub open spec fn shown_requests(rows: Seq<RowView>, headers_only: bool) -> nat
    decreases rows.len(),
{
    if rows.len() == 0 {
        0
    } else {
        shown_requests(rows.drop_last(), headers_only) + if rows.last().is_group || !headers_only {
            rows.last().request_count
        } else {
            0nat
        }
    }
}

/// The bandwidth that the rows show: of all rows, or of the group headers alone.
pub open spec fn shown_bandwidth(rows: Seq<RowView>, headers_only: bool) -> nat
    decreases rows.len(),
{
    if rows.len() == 0 {
        0
    } else {
        shown_bandwidth(rows.drop_last(), headers_only) + if rows.last().is_group || !headers_only {
            rows.last().bandwidth_sum
        } else {
            0nat
        }
    }
}

/// What a row adds to the requests shown.
pub open spec fn shown_requests_weight(headers_only: bool) -> spec_fn(RowView) -> nat {
    |row: RowView|
        if row.is_group || !headers_only {
            row.request_count
        } else {
            0nat
        }
}

/// What a row adds to the bandwidth shown.
pub open spec fn shown_bandwidth_weight(headers_only: bool) -> spec_fn(RowView) -> nat {
    |row: RowView|
        if row.is_group || !headers_only {
            row.bandwidth_sum
        } else {
            0nat
        }
}

/// What the rows show does not depend on their order.
pub proof fn lemma_shown_ignores_order(a: Seq<RowView>, b: Seq<RowView>, headers_only: bool)
    requires
        a.to_multiset() == b.to_multiset(),
    ensures
        shown_requests(a, headers_only) == shown_requests(b, headers_only),
        shown_bandwidth(a, headers_only) == shown_bandwidth(b, headers_only),
{
    lemma_shown_as_sums(a, headers_only);
    lemma_shown_as_sums(b, headers_only);
    lemma_sum_of_permutation(a, b, shown_requests_weight(headers_only));
    lemma_sum_of_permutation(a, b, shown_bandwidth_weight(headers_only));
}

/// What the rows show is the sum of what each row adds.
proof fn lemma_shown_as_sums(rows: Seq<RowView>, headers_only: bool)
    ensures
        shown_requests(rows, headers_only) == sum_of(rows, shown_requests_weight(headers_only)),
        shown_bandwidth(rows, headers_only) == sum_of(rows, shown_bandwidth_weight(headers_only)),
    decreases rows.len(),
{
    if rows.len() > 0 {
        lemma_shown_as_sums(rows.drop_last(), headers_only);
    }
}

/// One list after another shows what the two show together.
proof fn lemma_shown_of_concat(a: Seq<RowView>, b: Seq<RowView>, headers_only: bool)
    ensures
        shown_requests(a + b, headers_only) == shown_requests(a, headers_only) + shown_requests(
            b,
            headers_only,
        ),
        shown_bandwidth(a + b, headers_only) == shown_bandwidth(a, headers_only) + shown_bandwidth(
            b,
            headers_only,
        ),
    decreases b.len(),
{
    if b.len() == 0 {
        assert(a + b =~= a);
    } else {
        lemma_shown_of_concat(a, b.drop_last(), headers_only);
        assert((a + b).drop_last() =~= a + b.drop_last());
    }
}

/// Rows that are no headers add nothing to what the headers show.
proof fn lemma_no_headers_show_nothing(rows: Seq<RowView>)
    requires
        forall|i: int| 0 <= i < rows.len() ==> !(#[trigger] rows[i]).is_group,
    ensures
        shown_requests(rows, true) == 0,
        shown_bandwidth(rows, true) == 0,
    decreases rows.len(),
{
    if rows.len() > 0 {
        assert forall|i: int| 0 <= i < rows.drop_last().len() implies !(#[trigger] rows.drop_last()[i]).is_group by {
            assert(!rows[i].is_group);
        }
        lemma_no_headers_show_nothing(rows.drop_last());
        assert(!rows[rows.len() - 1].is_group);
    }
}

/// A group without paths has nothing counted for it.
proof fn lemma_empty_group(stats: Seq<StatView>, group: Group)
    requires
        members_in(stats, group) == 0,
    ensures
        requests_in(stats, group) == 0,
        bandwidth_in(stats, group) == 0,
    decreases stats.len(),
{
    if stats.len() > 0 {
        lemma_empty_group(stats.drop_last(), group);
    }
}

/// The flat view shows every path once: in every sort, its rows add up to the
/// totals over all paths.
pub proof fn law_flat_rows_add_up(stats: Seq<StatView>, field: SortField, descending: bool)
    ensures
        shown_requests(display_rows(stats, ViewMode::Path, field, descending), false) == requests_in(
            stats,
            Group::All,
        ),
        shown_bandwidth(display_rows(stats, ViewMode::Path, field, descending), false)
            == bandwidth_in(stats, Group::All),
    decreases stats.len(),
{
    law_sorted_rows(flat_rows(stats), field, descending);
    lemma_shown_ignores_order(sorted_rows(flat_rows(stats), field, descending), flat_rows(stats), false);
    if stats.len() > 0 {
        law_flat_rows_add_up(stats.drop_last(), field, descending);
        law_sorted_rows(flat_rows(stats.drop_last()), field, descending);
        lemma_shown_ignores_order(
            sorted_rows(flat_rows(stats.drop_last()), field, descending),
            flat_rows(stats.drop_last()),
            false,
        );
        assert(flat_rows(stats).drop_last() =~= flat_rows(stats.drop_last()));
    }
}

/// The headers alone show as much as the headers with their children.
proof fn lemma_children_add_nothing(
    headers: Seq<RowView>,
    stats: Seq<StatView>,
    field: SortField,
    descending: bool,
)
    ensures
        shown_requests(with_children(headers, stats, field, descending), true) == shown_requests(
            headers,
            true,
        ),
        shown_bandwidth(with_children(headers, stats, field, descending), true) == shown_bandwidth(
            headers,
            true,
        ),
    decreases headers.len(),
{
    if headers.len() > 0 {
        let kind = headers.last().req_type;
        let before = with_children(headers.drop_last(), stats, field, descending);
        let kids = children(stats, kind, field, descending);
        lemma_children_add_nothing(headers.drop_last(), stats, field, descending);
        if kind.has_extension_rows() {
            law_sorted_rows(extension_rows(stats, kind), field, descending);
            lemma_no_headers_show_nothing(extension_rows(stats, kind));
            lemma_shown_ignores_order(kids, extension_rows(stats, kind), true);
        }
        lemma_shown_of_concat(before.push(headers.last()), kids, true);
        assert(before.push(headers.last()).drop_last() =~= before);
    }
}

/// The grouped view counts every path under one header: in every sort, its
/// headers add up to the totals over all paths.
pub proof fn law_headers_add_up(stats: Seq<StatView>, field: SortField, descending: bool)
    ensures
        shown_requests(display_rows(stats, ViewMode::Type, field, descending), true) == requests_in(
            stats,
            Group::All,
        ),
        shown_bandwidth(display_rows(stats, ViewMode::Type, field, descending), true) == bandwidth_in(
            stats,
            Group::All,
        ),
{
    let headers = header_rows(stats);
    let sorted = sorted_rows(headers, field, descending);
    lemma_children_add_nothing(sorted, stats, field, descending);
    law_sorted_rows(headers, field, descending);
    lemma_shown_ignores_order(sorted, headers, true);
    let images = header_if_present(stats, RequestType::Image);
    let files = header_if_present(stats, RequestType::File);
    let queries = header_if_present(stats, RequestType::Query);
    let others = header_if_present(stats, RequestType::Other);
    lemma_shown_of_concat(images + files + queries, others, true);
    lemma_shown_of_concat(images + files, queries, true);
    lemma_shown_of_concat(images, files, true);
    lemma_header_shows_its_type(stats, RequestType::Image);
    lemma_header_shows_its_type(stats, RequestType::File);
    lemma_header_shows_its_type(stats, RequestType::Query);
    lemma_header_shows_its_type(stats, RequestType::Other);
    law_types_make_up_totals(stats);
}

/// The header of a type, where it is present, shows what is counted for the
/// type; where it is absent, nothing is counted for the type.
proof fn lemma_header_shows_its_type(stats: Seq<StatView>, kind: RequestType)
    ensures
        shown_requests(header_if_present(stats, kind), true) == requests_in(stats, Group::OfType(kind)),
        shown_bandwidth(header_if_present(stats, kind), true) == bandwidth_in(
            stats,
            Group::OfType(kind),
        ),
{
    let header = header_if_present(stats, kind);
    if members_in(stats, Group::OfType(kind)) > 0 {
        assert(header.drop_last() =~= Seq::<RowView>::empty());
        assert(header.last() == header_row(stats, kind));
        assert(shown_requests(header.drop_last(), true) == 0);
        assert(shown_bandwidth(header.drop_last(), true) == 0);
    } else {
        lemma_empty_group(stats, Group::OfType(kind));
    }
}

/// A group that the paths have shown holds a path.
proof fn lemma_seen_bucket(stats: Seq<StatView>, kind: RequestType, bucket: Seq<char>)
    requires
        buckets(stats, kind).contains(bucket),
    ensures
        members_in(stats, Group::OfBucket(kind, bucket)) > 0,
    decreases stats.len(),
{
    if stats.len() > 0 {
        let before = buckets(stats.drop_last(), kind);
        let now = buckets(stats, kind);
        if before.contains(bucket) {
            lemma_seen_bucket(stats.drop_last(), kind, bucket);
        } else {
            let k = choose|k: int| 0 <= k < now.len() && now[k] == bucket;
            if k < before.len() {
                assert(before[k] == bucket);
            }
        }
    }
}

/// No extension group is listed twice.
proof fn lemma_buckets_distinct(stats: Seq<StatView>, kind: RequestType)
    ensures
        forall|a: int, b: int|
            0 <= a < b < buckets(stats, kind).len() ==> #[trigger] buckets(stats, kind)[a]
                != #[trigger] buckets(stats, kind)[b],
    decreases stats.len(),
{
    if stats.len() > 0 {
        let before = buckets(stats.drop_last(), kind);
        let now = buckets(stats, kind);
        lemma_buckets_distinct(stats.drop_last(), kind);
        assert forall|a: int, b: int| 0 <= a < b < now.len() implies #[trigger] now[a] != #[trigger] now[b] by {
            if b < before.len() {
                assert(before[a] != before[b]);
            } else {
                assert(before.contains(before[a]));
            }
        }
    }
}

/// Replacing one row changes what all rows show by the difference of the two.
proof fn lemma_shown_after_update(rows: Seq<RowView>, k: int, row: RowView)
    requires
        0 <= k < rows.len(),
    ensures
        shown_requests(rows.update(k, row), false) + rows[k].request_count == shown_requests(rows, false)
            + row.request_count,
        shown_bandwidth(rows.update(k, row), false) + rows[k].bandwidth_sum == shown_bandwidth(
            rows,
            false,
        ) + row.bandwidth_sum,
    decreases rows.len(),
{
    let changed = rows.update(k, row);
    if k == rows.len() - 1 {
        assert(changed.drop_last() =~= rows.drop_last());
    } else {
        lemma_shown_after_update(rows.drop_last(), k, row);
        assert(changed.drop_last() =~= rows.drop_last().update(k, row));
    }
}

/// Every path of a type falls in one extension group: the extension rows of the
/// type add up to what is counted for the type.
pub proof fn law_extension_rows_add_up(stats: Seq<StatView>, kind: RequestType)
    ensures
        shown_requests(extension_rows(stats, kind), false) == requests_in(stats, Group::OfType(kind)),
        shown_bandwidth(extension_rows(stats, kind), false) == bandwidth_in(stats, Group::OfType(kind)),
    decreases stats.len(),
{
    let now = extension_rows(stats, kind);
    if stats.len() == 0 {
        assert(now =~= Seq::<RowView>::empty());
    } else {
        let init = stats.drop_last();
        let last = stats.last();
        let before = extension_rows(init, kind);
        let old_names = buckets(init, kind);
        let bucket = bucket_of(last.path, kind);
        law_extension_rows_add_up(init, kind);
        lemma_buckets_distinct(init, kind);
        assert forall|m: int| 0 <= m < old_names.len() implies members_in(
            init,
            Group::OfBucket(kind, #[trigger] old_names[m]),
        ) > 0 by {
            assert(old_names.contains(old_names[m]));
            lemma_seen_bucket(init, kind, old_names[m]);
        }
        if classify(last.path) != kind {
            assert(now =~= before);
        } else if old_names.contains(bucket) {
            let k = choose|k: int| 0 <= k < old_names.len() && old_names[k] == bucket;
            let row = extension_row(stats, kind, bucket);
            assert(now =~= before.update(k, row)) by {
                assert forall|m: int| 0 <= m < now.len() implies now[m] == before.update(k, row)[m] by {
                    if m < k {
                        assert(old_names[m] != old_names[k]);
                    } else if m > k {
                        assert(old_names[k] != old_names[m]);
                    }
                }
            }
            lemma_shown_after_update(before, k, row);
        } else {
            let row = extension_row(stats, kind, bucket);
            lemma_unseen_bucket(init, kind, bucket);
            assert(now =~= before.push(row)) by {
                assert forall|m: int| 0 <= m < before.len() implies now[m] == before[m] by {
                    assert(old_names.contains(old_names[m]));
                }
            }
            assert(now.drop_last() =~= before);
        }
    }
}

/// In every sort, the rows under the header of images or files add up to the
/// header.
pub proof fn law_children_add_up(stats: Seq<StatView>, kind: RequestType, field: SortField, descending: bool)
    requires
        kind.has_extension_rows(),
    ensures
        shown_requests(children(stats, kind, field, descending), false) == header_row(
            stats,
            kind,
        ).request_count,
        shown_bandwidth(children(stats, kind, field, descending), false) == header_row(
            stats,
            kind,
        ).bandwidth_sum,
{
    law_extension_rows_add_up(stats, kind);
    law_sorted_rows(extension_rows(stats, kind), field, descending);
    lemma_shown_ignores_order(children(stats, kind, field, descending), extension_rows(stats, kind), false);
}

/// The row of one path in the flat view.
fn flat_row_of(item: &PathStats) -> (row: DisplayRow)
    ensures
        row@ == flat_row(item@),
{
    let req_type = detect_request_type(item.path.as_str());
    let (id, ext) = asset_id_and_ext(item.path.as_str(), req_type);
    DisplayRow {
        label: id,
        ext,
        request_count: item.request_count,
        bandwidth_sum: item.bandwidth_sum,
        req_type,
        open_url: Some(item.sample_url.clone()),
        is_group: false,
    }
}

/// The type of each path.
fn classify_all(base_items: &Vec<PathStats>) -> (kinds: Vec<RequestType>)
    ensures
        kinds.len() == base_items.len(),
        forall|i: int| 0 <= i < kinds.len() ==> #[trigger] kinds[i] == classify(base_items[i]@.path),
{
    let mut kinds: Vec<RequestType> = Vec::new();
    let mut i: usize = 0;
    while i < base_items.len()
        invariant
            i <= base_items.len(),
            kinds.len() == i,
            forall|k: int| 0 <= k < i ==> #[trigger] kinds[k] == classify(base_items[k]@.path),
        decreases base_items.len() - i,
    {
        kinds.push(detect_request_type(base_items[i].path.as_str()));
        i += 1;
    }
    kinds
}

/// The header row of a type, where a path of that type exists.
fn header_of(base_items: &Vec<PathStats>, kinds: &Vec<RequestType>, kind: RequestType) -> (header: Option<DisplayRow>)
    requires
        totals_fit(base_items.deep_view()),
        kinds.len() == base_items.len(),
        forall|i: int| 0 <= i < kinds.len() ==> #[trigger] kinds[i] == classify(base_items[i]@.path),
    ensures
        match header {
            Some(row) => header_if_present(base_items.deep_view(), kind) == seq![row@],
            None => header_if_present(base_items.deep_view(), kind) == Seq::<RowView>::empty(),
        },
{
    let ghost all = base_items.deep_view();
    let ghost group = Group::OfType(kind);
    let mut present = false;
    let mut requests: u64 = 0;
    let mut bandwidth: u64 = 0;
    let mut i: usize = 0;
    proof {
        assert(all.take(0) =~= Seq::<StatView>::empty());
    }
    while i < base_items.len()
        invariant
            i <= base_items.len(),
            all == base_items.deep_view(),
            group == Group::OfType(kind),
            totals_fit(all),
            kinds.len() == base_items.len(),
            forall|k: int| 0 <= k < kinds.len() ==> #[trigger] kinds[k] == classify(base_items[k]@.path),
            present == (members_in(all.take(i as int), group) > 0),
            requests == requests_in(all.take(i as int), group),
            bandwidth == bandwidth_in(all.take(i as int), group),
        decreases base_items.len() - i,
    {
        proof {
            assert(all.take(i + 1).drop_last() =~= all.take(i as int));
            assert(all.take(i + 1).last() == base_items[i as int]@);
            lemma_sums_of_prefix(all, i + 1, group);
        }
        if kinds[i] == kind {
            present = true;
            requests = requests + base_items[i].request_count;
            bandwidth = bandwidth + base_items[i].bandwidth_sum;
        }
        i += 1;
    }
    proof {
        assert(all.take(i as int) =~= all);
    }
    if present {
        Some(
            DisplayRow {
                label: type_label(kind).to_owned(),
                ext: String::new(),
                request_count: requests,
                bandwidth_sum: bandwidth,
                req_type: kind,
                open_url: None,
                is_group: true,
            },
        )
    } else {
        None
    }
}

/// The extension group of a path of the given type.
fn bucket_name(path: &str, kind: RequestType) -> (name: Vec<char>)
    ensures
        name@ == bucket_of(path@, kind),
{
    let (_, shown) = asset_id_and_ext(path, kind);
    let chars = to_chars(shown.as_str());
    if chars.len() == 0 {
        to_chars("no ext")
    } else {
        let mut name: Vec<char> = Vec::new();
        let mut i: usize = 1;
        while i < chars.len()
            invariant
                1 <= i <= chars.len(),
                name@ == chars@.subrange(1, i as int),
            decreases chars.len() - i,
        {
            name.push(chars[i]);
            i += 1;
        }
        proof {
            let ext = asset_extension(path@, kind);
            assert(chars@ == seq!['.'] + ext);
            assert(chars@.subrange(1, chars.len() as int) =~= ext);
        }
        name
    }
}

/// The row of an extension group with the given counts.
fn bucket_row(name: &Vec<char>, kind: RequestType, requests: u64, bandwidth: u64, sample: &String) -> (row: DisplayRow)
    ensures
        row@ == (RowView {
            label: bucket_label(name@),
            ext: bucket_ext(name@),
            request_count: requests as nat,
            bandwidth_sum: bandwidth as nat,
            req_type: kind,
            open_url: Some(sample@),
            is_group: false,
        }),
{
    let none = to_chars("no ext");
    let is_none = match text_standing(name, &none) {
        Standing::Same => true,
        _ => false,
    };
    let (label, ext) = if is_none {
        ("  (no ext)".to_owned(), "(none)".to_owned())
    } else {
        let mut ext = String::new();
        proof {
            reveal_strlit(".");
            assert("."@ =~= seq!['.']);
        }
        ext.append(".");
        let text = crate::text::string_of(name, 0, name.len());
        proof {
            assert(name@.subrange(0, name.len() as int) =~= name@);
        }
        ext.append(text.as_str());
        ("  ".to_owned(), ext)
    };
    DisplayRow {
        label,
        ext,
        request_count: requests,
        bandwidth_sum: bandwidth,
        req_type: kind,
        open_url: Some(sample.clone()),
        is_group: false,
    }
}

/// The extension rows of a type, in the order in which the paths first show
/// their extensions.
fn extension_rows_of(base_items: &Vec<PathStats>, kinds: &Vec<RequestType>, kind: RequestType) -> (rows: Vec<DisplayRow>)
    requires
        totals_fit(base_items.deep_view()),
        kinds.len() == base_items.len(),
        forall|i: int| 0 <= i < kinds.len() ==> #[trigger] kinds[i] == classify(base_items[i]@.path),
    ensures
        rows.deep_view() == extension_rows(base_items.deep_view(), kind),
{
    let ghost all = base_items.deep_view();
    let mut names: Vec<Vec<char>> = Vec::new();
    let mut requests: Vec<u64> = Vec::new();
    let mut bandwidths: Vec<u64> = Vec::new();
    let mut samples: Vec<String> = Vec::new();
    let mut i: usize = 0;
    proof {
        assert(all.take(0) =~= Seq::<StatView>::empty());
        assert(views(names@) =~= buckets(all.take(0), kind));
    }
    while i < base_items.len()
        invariant
            i <= base_items.len(),
            all == base_items.deep_view(),
            totals_fit(all),
            kinds.len() == base_items.len(),
            forall|k: int| 0 <= k < kinds.len() ==> #[trigger] kinds[k] == classify(base_items[k]@.path),
            views(names@) == buckets(all.take(i as int), kind),
            requests.len() == names.len(),
            bandwidths.len() == names.len(),
            samples.len() == names.len(),
            forall|a: int, b: int| 0 <= a < b < names.len() ==> (#[trigger] names[a])@ != (#[trigger] names[b])@,
            forall|m: int|
                0 <= m < names.len() ==> {
                    let group = Group::OfBucket(kind, (#[trigger] names[m])@);
                    &&& members_in(all.take(i as int), group) > 0
                    &&& requests[m] == requests_in(all.take(i as int), group)
                    &&& bandwidths[m] == bandwidth_in(all.take(i as int), group)
                    &&& samples[m]@ == sample_in(all.take(i as int), group)
                },
        decreases base_items.len() - i,
    {
        let ghost before = all.take(i as int);
        let ghost after = all.take(i + 1);
        let ghost old_names = names@;
        proof {
            assert(after.drop_last() =~= before);
            assert(after.last() == base_items[i as int]@);
        }
        if kinds[i] == kind {
            let item = &base_items[i];
            let name = bucket_name(item.path.as_str(), kind);
            match find_name(&names, &name) {
                Some(k) => {
                    proof {
                        lemma_sums_of_prefix(all, i + 1, Group::OfBucket(kind, name@));
                        assert(views(names@)[k as int] == name@);
                        assert(buckets(before, kind).contains(name@));
                    }
                    let sum_requests = requests[k] + item.request_count;
                    let sum_bandwidth = bandwidths[k] + item.bandwidth_sum;
                    requests.set(k, sum_requests);
                    bandwidths.set(k, sum_bandwidth);
                    proof {
                        assert forall|m: int| 0 <= m < names.len() implies {
                            let group = Group::OfBucket(kind, (#[trigger] names[m])@);
                            &&& members_in(after, group) > 0
                            &&& requests[m] == requests_in(after, group)
                            &&& bandwidths[m] == bandwidth_in(after, group)
                            &&& samples[m]@ == sample_in(after, group)
                        } by {
                            if m != k {
                                if m < k {
                                    assert(names[m]@ != names[k as int]@);
                                } else {
                                    assert(names[k as int]@ != names[m]@);
                                }
                            }
                        }
                    }
                },
                None => {
                    proof {
                        lemma_unseen_bucket(before, kind, name@);
                        lemma_sums_of_prefix(all, i + 1, Group::OfBucket(kind, name@));
                    }
                    names.push(name);
                    requests.push(item.request_count);
                    bandwidths.push(item.bandwidth_sum);
                    samples.push(item.sample_url.clone());
                    proof {
                        assert(views(names@) =~= views(old_names).push(name@));
                        assert forall|a: int, b: int| 0 <= a < b < names.len() implies (#[trigger] names[a])@ != (
                        #[trigger] names[b])@ by {
                            if b == old_names.len() {
                                assert(views(old_names)[a] == old_names[a]@);
                                assert(views(old_names).contains(old_names[a]@));
                            } else {
                                assert(old_names[a]@ != old_names[b]@);
                            }
                        }
                        assert forall|m: int| 0 <= m < names.len() implies {
                            let group = Group::OfBucket(kind, (#[trigger] names[m])@);
                            &&& members_in(after, group) > 0
                            &&& requests[m] == requests_in(after, group)
                            &&& bandwidths[m] == bandwidth_in(after, group)
                            &&& samples[m]@ == sample_in(after, group)
                        } by {
                            if m < old_names.len() {
                                assert(names[m] == old_names[m]);
                                assert(views(old_names)[m] == old_names[m]@);
                                assert(views(old_names).contains(old_names[m]@));
                            }
                        }
                    }
                },
            }
        } else {
            proof {
                assert forall|m: int| 0 <= m < names.len() implies {
                    let group = Group::OfBucket(kind, (#[trigger] names[m])@);
                    &&& members_in(after, group) > 0
                    &&& requests[m] == requests_in(after, group)
                    &&& bandwidths[m] == bandwidth_in(after, group)
                    &&& samples[m]@ == sample_in(after, group)
                } by {}
            }
        }
        i += 1;
    }
    proof {
        assert(all.take(i as int) =~= all);
    }
    let mut rows: Vec<DisplayRow> = Vec::new();
    let mut k: usize = 0;
    while k < names.len()
        invariant
            k <= names.len(),
            views(names@) == buckets(all, kind),
            requests.len() == names.len(),
            bandwidths.len() == names.len(),
            samples.len() == names.len(),
            forall|m: int|
                0 <= m < names.len() ==> {
                    let group = Group::OfBucket(kind, (#[trigger] names[m])@);
                    &&& requests[m] == requests_in(all, group)
                    &&& bandwidths[m] == bandwidth_in(all, group)
                    &&& samples[m]@ == sample_in(all, group)
                },
            rows.len() == k,
            forall|m: int| 0 <= m < k ==> (#[trigger] rows[m])@ == extension_row(all, kind, names[m]@),
        decreases names.len() - k,
    {
        let row = bucket_row(&names[k], kind, requests[k], bandwidths[k], &samples[k]);
        rows.push(row);
        k += 1;
    }
    proof {
        assert forall|m: int| 0 <= m < names.len() implies buckets(all, kind)[m] == names[m]@ by {
            assert(views(names@)[m] == names[m]@);
        }
        assert(rows.deep_view() =~= extension_rows(all, kind));
    }
    rows
}

/// Adds the header of a type to the list, where a path of that type exists.
fn push_header(headers: &mut Vec<DisplayRow>, base_items: &Vec<PathStats>, kinds: &Vec<RequestType>, kind: RequestType)
    requires
        totals_fit(base_items.deep_view()),
        kinds.len() == base_items.len(),
        forall|i: int| 0 <= i < kinds.len() ==> #[trigger] kinds[i] == classify(base_items[i]@.path),
    ensures
        final(headers).deep_view() == old(headers).deep_view() + header_if_present(
            base_items.deep_view(),
            kind,
        ),
{
    let ghost before = headers.deep_view();
    match header_of(base_items, kinds, kind) {
        Some(row) => {
            headers.push(row);
            proof {
                assert(headers.deep_view() =~= before + seq![row@]);
            }
        },
        None => {
            proof {
                assert(headers.deep_view() =~= before + Seq::<RowView>::empty());
            }
        },
    }
}

/// The grouped view: one header per request type that occurs, sorted among
/// themselves, each image and file header followed by its extension rows,
/// sorted among themselves.
pub fn build_type_rows(base_items: &Vec<PathStats>, field: SortField, descending: bool) -> (rows: Vec<DisplayRow>)
    requires
        totals_fit(base_items.deep_view()),
    ensures
        rows.deep_view() == type_rows(base_items.deep_view(), field, descending),
{
    let ghost all = base_items.deep_view();
    let kinds = classify_all(base_items);
    let mut type_rows: Vec<DisplayRow> = Vec::new();
    proof {
        assert(type_rows.deep_view() =~= Seq::<RowView>::empty());
    }
    push_header(&mut type_rows, base_items, &kinds, RequestType::Image);
    push_header(&mut type_rows, base_items, &kinds, RequestType::File);
    push_header(&mut type_rows, base_items, &kinds, RequestType::Query);
    push_header(&mut type_rows, base_items, &kinds, RequestType::Other);
    proof {
        assert(type_rows.deep_view() =~= header_rows(all));
    }
    sort_display_rows(&mut type_rows, field, descending);
    let ghost headers = type_rows.deep_view();

    let mut rows: Vec<DisplayRow> = Vec::new();
    let mut h: usize = 0;
    proof {
        assert(headers.take(0) =~= Seq::<RowView>::empty());
        assert(rows.deep_view() =~= Seq::<RowView>::empty());
    }
    while h < type_rows.len()
        invariant
            h <= type_rows.len(),
            all == base_items.deep_view(),
            totals_fit(all),
            kinds.len() == base_items.len(),
            forall|i: int| 0 <= i < kinds.len() ==> #[trigger] kinds[i] == classify(base_items[i]@.path),
            headers == type_rows.deep_view(),
            rows.deep_view() == with_children(headers.take(h as int), all, field, descending),
        decreases type_rows.len() - h,
    {
        let ghost done = rows.deep_view();
        let req_type = type_rows[h].req_type;
        proof {
            assert(headers.take(h + 1).drop_last() =~= headers.take(h as int));
            assert(headers.take(h + 1).last() == type_rows[h as int]@);
        }
        rows.push(type_rows[h].duplicate());
        let ghost with_header = rows.deep_view();
        proof {
            assert(with_header =~= done.push(type_rows[h as int]@));
        }
        if req_type.groups_extensions() {
            let mut ext_rows = extension_rows_of(base_items, &kinds, req_type);
            sort_display_rows(&mut ext_rows, field, descending);
            let ghost kids = ext_rows.deep_view();
            let mut e: usize = 0;
            while e < ext_rows.len()
                invariant
                    e <= ext_rows.len(),
                    kids == ext_rows.deep_view(),
                    rows.deep_view() == with_header + kids.take(e as int),
                decreases ext_rows.len() - e,
            {
                let ghost so_far = rows.deep_view();
                rows.push(ext_rows[e].duplicate());
                proof {
                    assert(kids.take(e + 1) =~= kids.take(e as int).push(ext_rows[e as int]@));
                    assert(rows.deep_view() =~= so_far.push(ext_rows[e as int]@));
                }
                e += 1;
            }
            proof {
                assert(kids.take(e as int) =~= kids);
            }
        } else {
            proof {
                assert(with_header + Seq::<RowView>::empty() =~= with_header);
            }
        }
        h += 1;
    }
    proof {
        assert(headers.take(h as int) =~= headers);
    }
    rows
}

/// The rows of a view, sorted by a field: one row per path in the flat view,
/// groups with their extension rows in the grouped view.
pub fn build_display_rows(
    base_items: &Vec<PathStats>,
    view_mode: ViewMode,
    field: SortField,
    descending: bool,
) -> (rows: Vec<DisplayRow>)
    requires
        view_mode == ViewMode::Type ==> totals_fit(base_items.deep_view()),
    ensures
        rows.deep_view() == display_rows(base_items.deep_view(), view_mode, field, descending),
{
    match view_mode {
        ViewMode::Path => {
            let mut rows: Vec<DisplayRow> = Vec::new();
            let mut i: usize = 0;
            while i < base_items.len()
                invariant
                    i <= base_items.len(),
                    rows.len() == i,
                    forall|k: int| 0 <= k < i ==> (#[trigger] rows[k])@ == flat_row(base_items[k]@),
                decreases base_items.len() - i,
            {
                rows.push(flat_row_of(&base_items[i]));
                i += 1;
            }
            proof {
                assert(rows.deep_view() =~= flat_rows(base_items.deep_view()));
            }
            sort_display_rows(&mut rows, field, descending);
            rows
        },
        ViewMode::Type => build_type_rows(base_items, field, descending),
    }
}

} // verus!
