//! Per-path statistics and the sums taken over them.

use vstd::prelude::*;
use crate::paths::asset_extension;
use crate::paths::classify;
use crate::paths::RequestType;
use crate::sums::lemma_sum_of_permutation;
use crate::sums::sum_of;

verus! {

/// What was counted for one path.
#[derive(Debug, Clone)]
pub struct PathStats {
    pub path: String,
    pub sample_url: String,
    pub request_count: u64,
    pub request_size_sum: u64,
    pub bandwidth_sum: u64,
}

/// The mathematical value of a `PathStats`.
pub struct StatView {
    pub path: Seq<char>,
    pub sample_url: Seq<char>,
    pub request_count: nat,
    pub request_size_sum: nat,
    pub bandwidth_sum: nat,
}

impl View for PathStats {
    type V = StatView;

    open spec fn view(&self) -> StatView {
        StatView {
            path: self.path@,
            sample_url: self.sample_url@,
            request_count: self.request_count as nat,
            request_size_sum: self.request_size_sum as nat,
            bandwidth_sum: self.bandwidth_sum as nat,
        }
    }
}

impl DeepView for PathStats {
    type V = StatView;

    open spec fn deep_view(&self) -> StatView {
        self@
    }
}

/// A selection of paths: all of them, those of a type, or those of a type that
/// end in an extension.
pub enum Group {
    All,
    OfType(RequestType),
    OfBucket(RequestType, Seq<char>),
}

/// The extension group that a path of the given type falls in; paths without an
/// extension fall in the group `no ext`.
pub open spec fn bucket_of(path: Seq<char>, kind: RequestType) -> Seq<char> {
    let ext = asset_extension(path, kind);
    if ext.len() == 0 {
        "no ext"@
    } else {
        ext
    }
}

/// Whether a path's statistics belong to a group.
pub open spec fn in_group(stat: StatView, group: Group) -> bool {
    match group {
        Group::All => true,
        Group::OfType(kind) => classify(stat.path) == kind,
        Group::OfBucket(kind, bucket) => classify(stat.path) == kind && bucket_of(stat.path, kind)
            == bucket,
    }
}

/// How many of the paths belong to the group.
pub open spec fn members_in(stats: Seq<StatView>, group: Group) -> nat
    decreases stats.len(),
{
    if stats.len() == 0 {
        0
    } else {
        members_in(stats.drop_last(), group) + if in_group(stats.last(), group) {
            1nat
        } else {
            0nat
        }
    }
}

/// The requests counted for the paths of the group.
pub open spec fn requests_in(stats: Seq<StatView>, group: Group) -> nat
    decreases stats.len(),
{
    if stats.len() == 0 {
        0
    } else {
        requests_in(stats.drop_last(), group) + if in_group(stats.last(), group) {
            stats.last().request_count
        } else {
            0nat
        }
    }
}

/// The bandwidth counted for the paths of the group.
pub open spec fn bandwidth_in(stats: Seq<StatView>, group: Group) -> nat
    decreases stats.len(),
{
    if stats.len() == 0 {
        0
    } else {
        bandwidth_in(stats.drop_last(), group) + if in_group(stats.last(), group) {
            stats.last().bandwidth_sum
        } else {
            0nat
        }
    }
}

/// The sample URL of the first path of the group.
pub open spec fn sample_in(stats: Seq<StatView>, group: Group) -> Seq<char>
    decreases stats.len(),
{
    if stats.len() == 0 {
        Seq::empty()
    } else if members_in(stats.drop_last(), group) > 0 {
        sample_in(stats.drop_last(), group)
    } else if in_group(stats.last(), group) {
        stats.last().sample_url
    } else {
        Seq::empty()
    }
}

/// Whether the totals over all paths can be held in a `u64`.
pub open spec fn totals_fit(stats: Seq<StatView>) -> bool {
    requests_in(stats, Group::All) <= u64::MAX && bandwidth_in(stats, Group::All) <= u64::MAX
}

/// The sums over a group of the first `i` paths do not exceed the totals.
pub proof fn lemma_sums_of_prefix(stats: Seq<StatView>, i: int, group: Group)
    requires
        0 <= i <= stats.len(),
    ensures
        requests_in(stats.take(i), group) <= requests_in(stats, Group::All),
        bandwidth_in(stats.take(i), group) <= bandwidth_in(stats, Group::All),
    decreases stats.len(),
{
    if stats.len() == 0 {
        assert(stats.take(i) =~= stats);
    } else if i == stats.len() {
        assert(stats.take(i) =~= stats);
        lemma_sums_of_prefix(stats.drop_last(), i - 1, group);
        assert(stats.drop_last().take(i - 1) =~= stats.drop_last());
    } else {
        lemma_sums_of_prefix(stats.drop_last(), i, group);
        assert(stats.drop_last().take(i) =~= stats.take(i));
    }
}

/// What a path adds to the requests of a group.
pub open spec fn requests_weight(group: Group) -> spec_fn(StatView) -> nat {
    |stat: StatView|
        if in_group(stat, group) {
            stat.request_count
        } else {
            0nat
        }
}

/// What a path adds to the bandwidth of a group.
pub open spec fn bandwidth_weight(group: Group) -> spec_fn(StatView) -> nat {
    |stat: StatView|
        if in_group(stat, group) {
            stat.bandwidth_sum
        } else {
            0nat
        }
}

/// The sums of a group are the sums of what each path adds to them.
pub proof fn lemma_group_sums(stats: Seq<StatView>, group: Group)
    ensures
        requests_in(stats, group) == sum_of(stats, requests_weight(group)),
        bandwidth_in(stats, group) == sum_of(stats, bandwidth_weight(group)),
    decreases stats.len(),
{
    if stats.len() > 0 {
        lemma_group_sums(stats.drop_last(), group);
    }
}

/// The sums of a group do not depend on the order of the paths.
pub proof fn law_sums_ignore_order(a: Seq<StatView>, b: Seq<StatView>, group: Group)
    requires
        a.to_multiset() == b.to_multiset(),
    ensures
        requests_in(a, group) == requests_in(b, group),
        bandwidth_in(a, group) == bandwidth_in(b, group),
{
    lemma_group_sums(a, group);
    lemma_group_sums(b, group);
    lemma_sum_of_permutation(a, b, requests_weight(group));
    lemma_sum_of_permutation(a, b, bandwidth_weight(group));
}

/// Every path is of one type: the sums of the four types add up to the totals.
pub proof fn law_types_make_up_totals(stats: Seq<StatView>)
    ensures
        requests_in(stats, Group::All) == requests_in(stats, Group::OfType(RequestType::Image))
            + requests_in(stats, Group::OfType(RequestType::File)) + requests_in(
            stats,
            Group::OfType(RequestType::Query),
        ) + requests_in(stats, Group::OfType(RequestType::Other)),
        bandwidth_in(stats, Group::All) == bandwidth_in(stats, Group::OfType(RequestType::Image))
            + bandwidth_in(stats, Group::OfType(RequestType::File)) + bandwidth_in(
            stats,
            Group::OfType(RequestType::Query),
        ) + bandwidth_in(stats, Group::OfType(RequestType::Other)),
    decreases stats.len(),
{
    if stats.len() > 0 {
        law_types_make_up_totals(stats.drop_last());
    }
}

/// Replacing one entry changes the totals by the difference of the two.
pub proof fn lemma_totals_after_update(stats: Seq<StatView>, k: int, entry: StatView)
    requires
        0 <= k < stats.len(),
    ensures
        requests_in(stats.update(k, entry), Group::All) + stats[k].request_count == requests_in(
            stats,
            Group::All,
        ) + entry.request_count,
        bandwidth_in(stats.update(k, entry), Group::All) + stats[k].bandwidth_sum == bandwidth_in(
            stats,
            Group::All,
        ) + entry.bandwidth_sum,
    decreases stats.len(),
{
    let changed = stats.update(k, entry);
    if k == stats.len() - 1 {
        assert(changed.drop_last() =~= stats.drop_last());
    } else {
        lemma_totals_after_update(stats.drop_last(), k, entry);
        assert(changed.drop_last() =~= stats.drop_last().update(k, entry));
    }
}

/// Whether the totals over all paths can be held in a `u64`.
pub fn fits(stats: &Vec<PathStats>) -> (ok: bool)
    ensures
        ok == totals_fit(stats.deep_view()),
{
    let ghost all = stats.deep_view();
    let mut requests: u64 = 0;
    let mut bandwidth: u64 = 0;
    let mut i: usize = 0;
    proof {
        assert(all.take(0) =~= Seq::<StatView>::empty());
    }
    while i < stats.len()
        invariant
            i <= stats.len(),
            all == stats.deep_view(),
            requests == requests_in(all.take(i as int), Group::All),
            bandwidth == bandwidth_in(all.take(i as int), Group::All),
        decreases stats.len() - i,
    {
        proof {
            assert(all.take(i + 1).drop_last() =~= all.take(i as int));
            assert(all.take(i + 1).last() == stats[i as int]@);
            lemma_sums_of_prefix(all, i + 1, Group::All);
        }
        match requests.checked_add(stats[i].request_count) {
            Some(sum) => {
                requests = sum;
            },
            None => {
                return false;
            },
        }
        match bandwidth.checked_add(stats[i].bandwidth_sum) {
            Some(sum) => {
                bandwidth = sum;
            },
            None => {
                return false;
            },
        }
        i += 1;
    }
    proof {
        assert(all.take(i as int) =~= all);
    }
    true
}

} // verus!
