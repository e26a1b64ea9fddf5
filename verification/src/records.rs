//! Log records and their aggregation into per-path statistics.

use vstd::prelude::*;
use crate::index::NameIndex;
use crate::stats::lemma_totals_after_update;
use crate::stats::bandwidth_in;
use crate::stats::requests_in;
use crate::stats::Group;
use crate::stats::PathStats;
use crate::sums::lemma_sum_of_permutation;
use crate::sums::sum_of;
use crate::stats::StatView;
use crate::text::to_chars;

verus! {

/// What one log line says of a request: the path of its URL, the URL, and the
/// sizes of request and response where the line gives them.
#[derive(Debug, Clone)]
pub struct Record {
    pub path: String,
    pub url: String,
    pub request_size: Option<u64>,
    pub response_size: Option<u64>,
}

/// The mathematical value of a `Record`.
pub struct RecordView {
    pub path: Seq<char>,
    pub url: Seq<char>,
    pub request_size: Option<u64>,
    pub response_size: Option<u64>,
}

impl View for Record {
    type V = RecordView;

    open spec fn view(&self) -> RecordView {
        RecordView {
            path: self.path@,
            url: self.url@,
            request_size: self.request_size,
            response_size: self.response_size,
        }
    }
}

impl DeepView for Record {
    type V = RecordView;

    open spec fn deep_view(&self) -> RecordView {
        self@
    }
}

/// What a size adds to a sum: its value, or nothing where it is not known.
pub open spec fn size_of(size: Option<u64>) -> nat {
    match size {
        Some(bytes) => bytes as nat,
        None => 0,
    }
}

/// The number of records of a path.
pub open spec fn hits(records: Seq<RecordView>, path: Seq<char>) -> nat
    decreases records.len(),
{
    if records.len() == 0 {
        0
    } else {
        hits(records.drop_last(), path) + if records.last().path == path {
            1nat
        } else {
            0nat
        }
    }
}

/// The sum of the known request sizes of the records of a path.
pub open spec fn request_bytes(records: Seq<RecordView>, path: Seq<char>) -> nat
    decreases records.len(),
{
    if records.len() == 0 {
        0
    } else {
        request_bytes(records.drop_last(), path) + if records.last().path == path {
            size_of(records.last().request_size)
        } else {
            0nat
        }
    }
}

/// The sum of the known response sizes of the records of a path.
pub open spec fn response_bytes(records: Seq<RecordView>, path: Seq<char>) -> nat
    decreases records.len(),
{
    if records.len() == 0 {
        0
    } else {
        response_bytes(records.drop_last(), path) + if records.last().path == path {
            size_of(records.last().response_size)
        } else {
            0nat
        }
    }
}

/// The URL of the first record of a path.
pub open spec fn first_url(records: Seq<RecordView>, path: Seq<char>) -> Seq<char>
    decreases records.len(),
{
    if records.len() == 0 {
        Seq::empty()
    } else if hits(records.drop_last(), path) > 0 {
        first_url(records.drop_last(), path)
    } else if records.last().path == path {
        records.last().url
    } else {
        Seq::empty()
    }
}

/// The paths of the records, each once, in the order in which they first occur.
pub open spec fn seen_paths(records: Seq<RecordView>) -> Seq<Seq<char>>
    decreases records.len(),
{
    if records.len() == 0 {
        Seq::empty()
    } else {
        let before = seen_paths(records.drop_last());
        if before.contains(records.last().path) {
            before
        } else {
            before.push(records.last().path)
        }
    }
}

/// The statistics of a path: the number of its records, the sums of their
/// known sizes, and the URL of the first of them.
pub open spec fn stat_of(records: Seq<RecordView>, path: Seq<char>) -> StatView {
    StatView {
        path,
        sample_url: first_url(records, path),
        request_count: hits(records, path),
        request_size_sum: request_bytes(records, path),
        bandwidth_sum: response_bytes(records, path),
    }
}

/// The statistics of the records: one entry per path, in the order in which
/// the paths first occur.
pub open spec fn aggregated(records: Seq<RecordView>) -> Seq<StatView> {
    let paths = seen_paths(records);
    Seq::new(paths.len(), |k: int| stat_of(records, paths[k]))
}

/// The sum of the known request sizes of all records.
pub open spec fn all_request_bytes(records: Seq<RecordView>) -> nat
    decreases records.len(),
{
    if records.len() == 0 {
        0
    } else {
        all_request_bytes(records.drop_last()) + size_of(records.last().request_size)
    }
}

/// The sum of the known response sizes of all records.
pub open spec fn all_response_bytes(records: Seq<RecordView>) -> nat
    decreases records.len(),
{
    if records.len() == 0 {
        0
    } else {
        all_response_bytes(records.drop_last()) + size_of(records.last().response_size)
    }
}

/// Whether the sums over all records can be held in a `u64`.
pub open spec fn sizes_fit(records: Seq<RecordView>) -> bool {
    all_request_bytes(records) <= u64::MAX && all_response_bytes(records) <= u64::MAX
}

/// What is counted for a path among the first `i` records does not exceed what
/// is counted for all records.
pub proof fn lemma_path_sums_bounded(records: Seq<RecordView>, i: int, path: Seq<char>)
    requires
        0 <= i <= records.len(),
    ensures
        hits(records.take(i), path) <= i,
        request_bytes(records.take(i), path) <= all_request_bytes(records),
        response_bytes(records.take(i), path) <= all_response_bytes(records),
    decreases records.len(),
{
    if records.len() == 0 {
        assert(records.take(i) =~= records);
    } else if i == records.len() {
        assert(records.take(i) =~= records);
        lemma_path_sums_bounded(records.drop_last(), i - 1, path);
        assert(records.drop_last().take(i - 1) =~= records.drop_last());
    } else {
        lemma_path_sums_bounded(records.drop_last(), i, path);
        assert(records.drop_last().take(i) =~= records.take(i));
    }
}

/// The sums over all of the first `i` records do not exceed those over all
/// records.
pub proof fn lemma_all_sums_bounded(records: Seq<RecordView>, i: int)
    requires
        0 <= i <= records.len(),
    ensures
        all_request_bytes(records.take(i)) <= all_request_bytes(records),
        all_response_bytes(records.take(i)) <= all_response_bytes(records),
    decreases records.len(),
{
    if records.len() == 0 || i == records.len() {
        assert(records.take(i) =~= records);
    } else {
        lemma_all_sums_bounded(records.drop_last(), i);
        assert(records.drop_last().take(i) =~= records.take(i));
    }
}

/// A path is listed exactly where a record has it.
pub proof fn lemma_seen_paths(records: Seq<RecordView>, path: Seq<char>)
    ensures
        seen_paths(records).contains(path) <==> hits(records, path) > 0,
        !seen_paths(records).contains(path) ==> request_bytes(records, path) == 0 && response_bytes(
            records,
            path,
        ) == 0,
    decreases records.len(),
{
    if records.len() > 0 {
        let before = seen_paths(records.drop_last());
        let now = seen_paths(records);
        lemma_seen_paths(records.drop_last(), path);
        if before.contains(path) {
            let k = choose|k: int| 0 <= k < before.len() && before[k] == path;
            assert(now[k] == path);
        }
        if records.last().path == path && !before.contains(path) {
            assert(now[before.len() as int] == path);
        }
        if now.contains(path) && !before.contains(path) {
            let k = choose|k: int| 0 <= k < now.len() && now[k] == path;
            if k < before.len() {
                assert(before[k] == path);
            }
        }
    }
}

/// What a record adds to the number of records of a path.
pub open spec fn hit_weight(path: Seq<char>) -> spec_fn(RecordView) -> nat {
    |record: RecordView|
        if record.path == path {
            1nat
        } else {
            0nat
        }
}

/// What a record adds to the request bytes of a path.
pub open spec fn request_weight(path: Seq<char>) -> spec_fn(RecordView) -> nat {
    |record: RecordView|
        if record.path == path {
            size_of(record.request_size)
        } else {
            0nat
        }
}

/// What a record adds to the response bytes of a path.
pub open spec fn response_weight(path: Seq<char>) -> spec_fn(RecordView) -> nat {
    |record: RecordView|
        if record.path == path {
            size_of(record.response_size)
        } else {
            0nat
        }
}

/// What is counted for a path is the sum of what each record adds to it.
pub proof fn lemma_path_sums(records: Seq<RecordView>, path: Seq<char>)
    ensures
        hits(records, path) == sum_of(records, hit_weight(path)),
        request_bytes(records, path) == sum_of(records, request_weight(path)),
        response_bytes(records, path) == sum_of(records, response_weight(path)),
    decreases records.len(),
{
    if records.len() > 0 {
        lemma_path_sums(records.drop_last(), path);
    }
}

/// Aggregation does not depend on the order of the records: two lists that
/// hold the same records, each as often, give every path the same count and
/// the same sums, and list the same paths.
pub proof fn law_aggregation_ignores_order(a: Seq<RecordView>, b: Seq<RecordView>, path: Seq<char>)
    requires
        a.to_multiset() == b.to_multiset(),
    ensures
        stat_of(a, path).request_count == stat_of(b, path).request_count,
        stat_of(a, path).request_size_sum == stat_of(b, path).request_size_sum,
        stat_of(a, path).bandwidth_sum == stat_of(b, path).bandwidth_sum,
        seen_paths(a).contains(path) <==> seen_paths(b).contains(path),
{
    lemma_path_sums(a, path);
    lemma_path_sums(b, path);
    lemma_sum_of_permutation(a, b, hit_weight(path));
    lemma_sum_of_permutation(a, b, request_weight(path));
    lemma_sum_of_permutation(a, b, response_weight(path));
    lemma_seen_paths(a, path);
    lemma_seen_paths(b, path);
}

/// No path is listed twice.
pub proof fn lemma_seen_paths_distinct(records: Seq<RecordView>)
    ensures
        forall|a: int, b: int|
            0 <= a < b < seen_paths(records).len() ==> #[trigger] seen_paths(records)[a]
                != #[trigger] seen_paths(records)[b],
    decreases records.len(),
{
    if records.len() > 0 {
        let before = seen_paths(records.drop_last());
        let now = seen_paths(records);
        lemma_seen_paths_distinct(records.drop_last());
        assert forall|a: int, b: int| 0 <= a < b < now.len() implies #[trigger] now[a] != #[trigger] now[b] by {
            if b < before.len() {
                assert(before[a] != before[b]);
            } else {
                assert(before.contains(before[a]));
            }
        }
    }
}

/// Every record counts for one path: the statistics add up to the number of
/// the records and to the sum of their response sizes.
pub proof fn law_aggregation_conserves(records: Seq<RecordView>)
    ensures
        requests_in(aggregated(records), Group::All) == records.len(),
        bandwidth_in(aggregated(records), Group::All) == all_response_bytes(records),
    decreases records.len(),
{
    if records.len() == 0 {
        assert(aggregated(records) =~= Seq::<StatView>::empty());
    } else {
        let init = records.drop_last();
        let last = records.last();
        let before = aggregated(init);
        let now = aggregated(records);
        let old_paths = seen_paths(init);
        law_aggregation_conserves(init);
        lemma_seen_paths(init, last.path);
        lemma_seen_paths_distinct(init);
        if old_paths.contains(last.path) {
            let k = choose|k: int| 0 <= k < old_paths.len() && old_paths[k] == last.path;
            let entry = stat_of(records, last.path);
            assert(now =~= before.update(k, entry)) by {
                assert forall|m: int| 0 <= m < now.len() implies now[m] == before.update(k, entry)[m] by {
                    if m < k {
                        assert(old_paths[m] != old_paths[k]);
                    } else if m > k {
                        assert(old_paths[k] != old_paths[m]);
                    }
                }
            }
            lemma_totals_after_update(before, k, entry);
        } else {
            let entry = stat_of(records, last.path);
            assert(now =~= before.push(entry)) by {
                assert forall|m: int| 0 <= m < before.len() implies now[m] == before[m] by {
                    assert(old_paths.contains(old_paths[m]));
                }
            }
            assert(now.drop_last() =~= before);
        }
    }
}

/// Whether the sums over all records can be held in a `u64`.
pub fn records_fit(records: &Vec<Record>) -> (ok: bool)
    ensures
        ok == sizes_fit(records.deep_view()),
{
    let ghost all = records.deep_view();
    let mut requests: u64 = 0;
    let mut responses: u64 = 0;
    let mut i: usize = 0;
    proof {
        assert(all.take(0) =~= Seq::<RecordView>::empty());
    }
    while i < records.len()
        invariant
            i <= records.len(),
            all == records.deep_view(),
            requests == all_request_bytes(all.take(i as int)),
            responses == all_response_bytes(all.take(i as int)),
        decreases records.len() - i,
    {
        proof {
            assert(all.take(i + 1).drop_last() =~= all.take(i as int));
            assert(all.take(i + 1).last() == records[i as int]@);
            lemma_all_sums_bounded(all, i + 1);
        }
        let request = match records[i].request_size {
            Some(bytes) => bytes,
            None => 0,
        };
        let response = match records[i].response_size {
            Some(bytes) => bytes,
            None => 0,
        };
        match requests.checked_add(request) {
            Some(sum) => {
                requests = sum;
            },
            None => {
                return false;
            },
        }
        match responses.checked_add(response) {
            Some(sum) => {
                responses = sum;
            },
            None => {
                return false;
            },
        }
        i += 1;
    }
    proof {
        assert(all.take(i as int) =~= all);
    }
    true
}

/// Folds the records into statistics per path. Each record counts once for its
/// path; a size that is not known adds nothing; the sample URL of a path is
/// that of its first record. The entries stand in the order in which their
/// paths first occur, and no path has two of them.
pub fn aggregate(records: &Vec<Record>) -> (stats: Vec<PathStats>)
    requires
        sizes_fit(records.deep_view()),
    ensures
        stats.deep_view() == aggregated(records.deep_view()),
        forall|a: int, b: int|
            0 <= a < b < stats.len() ==> (#[trigger] stats[a])@.path != (#[trigger] stats[b])@.path,
{
    let ghost all = records.deep_view();
    let mut index = NameIndex::new();
    let mut names: Vec<String> = Vec::new();
    let mut urls: Vec<String> = Vec::new();
    let mut counts: Vec<u64> = Vec::new();
    let mut requests: Vec<u64> = Vec::new();
    let mut responses: Vec<u64> = Vec::new();
    let mut i: usize = 0;
    proof {
        assert(all.take(0) =~= Seq::<RecordView>::empty());
    }
    while i < records.len()
        invariant
            i <= records.len(),
            all == records.deep_view(),
            sizes_fit(all),
            index.wf(),
            index.names() == seen_paths(all.take(i as int)),
            names.len() == index.names().len(),
            urls.len() == names.len(),
            counts.len() == names.len(),
            requests.len() == names.len(),
            responses.len() == names.len(),
            forall|m: int|
                0 <= m < names.len() ==> {
                    let path = #[trigger] index.names()[m];
                    &&& names[m]@ == path
                    &&& urls[m]@ == first_url(all.take(i as int), path)
                    &&& counts[m] == hits(all.take(i as int), path)
                    &&& requests[m] == request_bytes(all.take(i as int), path)
                    &&& responses[m] == response_bytes(all.take(i as int), path)
                },
        decreases records.len() - i,
    {
        let ghost before = all.take(i as int);
        let ghost after = all.take(i + 1);
        let ghost old_paths = index.names();
        let record = &records[i];
        let path = to_chars(record.path.as_str());
        let request = match record.request_size {
            Some(bytes) => bytes,
            None => 0,
        };
        let response = match record.response_size {
            Some(bytes) => bytes,
            None => 0,
        };
        proof {
            assert(after.drop_last() =~= before);
            assert(after.last() == records[i as int]@);
            lemma_path_sums_bounded(all, i + 1, path@);
            lemma_seen_paths(before, path@);
            lemma_seen_paths_distinct(before);
            assert forall|m: int| 0 <= m < old_paths.len() implies hits(before, #[trigger] old_paths[m]) > 0 by {
                assert(old_paths.contains(old_paths[m]));
                lemma_seen_paths(before, old_paths[m]);
            }
        }
        match index.find(&path) {
            Some(k) => {
                proof {
                    assert(old_paths.contains(old_paths[k as int]));
                }
                let count = counts[k] + 1;
                let request_sum = requests[k] + request;
                let response_sum = responses[k] + response;
                counts.set(k, count);
                requests.set(k, request_sum);
                responses.set(k, response_sum);
                proof {
                    assert forall|m: int| 0 <= m < names.len() implies {
                        let path = #[trigger] index.names()[m];
                        &&& names[m]@ == path
                        &&& urls[m]@ == first_url(after, path)
                        &&& counts[m] == hits(after, path)
                        &&& requests[m] == request_bytes(after, path)
                        &&& responses[m] == response_bytes(after, path)
                    } by {
                        assert(hits(before, old_paths[m]) > 0);
                        if m < k {
                            assert(old_paths[m] != old_paths[k as int]);
                        } else if m > k {
                            assert(old_paths[k as int] != old_paths[m]);
                        }
                    }
                }
            },
            None => {
                index.push(path);
                names.push(record.path.clone());
                urls.push(record.url.clone());
                counts.push(1);
                requests.push(request);
                responses.push(response);
                proof {
                    assert forall|m: int| 0 <= m < names.len() implies {
                        let path = #[trigger] index.names()[m];
                        &&& names[m]@ == path
                        &&& urls[m]@ == first_url(after, path)
                        &&& counts[m] == hits(after, path)
                        &&& requests[m] == request_bytes(after, path)
                        &&& responses[m] == response_bytes(after, path)
                    } by {
                        if m < old_paths.len() {
                            assert(index.names()[m] == old_paths[m]);
                            assert(old_paths.contains(old_paths[m]));
                            assert(hits(before, old_paths[m]) > 0);
                        }
                    }
                }
            },
        }
        i += 1;
    }
    proof {
        assert(all.take(i as int) =~= all);
    }
    let ghost paths = index.names();
    let mut stats: Vec<PathStats> = Vec::new();
    let mut k: usize = 0;
    while k < names.len()
        invariant
            k <= names.len(),
            paths == seen_paths(all),
            names.len() == paths.len(),
            urls.len() == names.len(),
            counts.len() == names.len(),
            requests.len() == names.len(),
            responses.len() == names.len(),
            forall|m: int|
                0 <= m < names.len() ==> {
                    let path = #[trigger] paths[m];
                    &&& names[m]@ == path
                    &&& urls[m]@ == first_url(all, path)
                    &&& counts[m] == hits(all, path)
                    &&& requests[m] == request_bytes(all, path)
                    &&& responses[m] == response_bytes(all, path)
                },
            stats.len() == k,
            forall|m: int| 0 <= m < k ==> (#[trigger] stats[m])@ == stat_of(all, paths[m]),
        decreases names.len() - k,
    {
        proof {
            assert(names[k as int]@ == paths[k as int]);
        }
        stats.push(
            PathStats {
                path: names[k].clone(),
                sample_url: urls[k].clone(),
                request_count: counts[k],
                request_size_sum: requests[k],
                bandwidth_sum: responses[k],
            },
        );
        k += 1;
    }
    proof {
        assert(stats.deep_view() =~= aggregated(all));
        lemma_seen_paths_distinct(all);
        assert forall|a: int, b: int| 0 <= a < b < stats.len() implies (#[trigger] stats[a])@.path != (
        #[trigger] stats[b])@.path by {
            assert(seen_paths(all)[a] != seen_paths(all)[b]);
        }
    }
    stats
}

} // verus!
