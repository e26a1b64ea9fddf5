//! From log lines to records and statistics.
//!
//! A line is a JSON document. Its `body` member gives the URL of the request
//! under `url` and, as a number or as a decimal text, the sizes under
//! `requestSize` and `responseSize`. Lines that are no JSON, that lack the
//! body or the URL, or whose URL does not parse, give no record.

use vstd::prelude::*;
use crate::order::KeyView;
use crate::order::SortKey;
use crate::records::aggregate;
use crate::records::aggregated;
use crate::records::law_aggregation_conserves;
use crate::records::records_fit;
use crate::records::sizes_fit;
use crate::records::Record;
use crate::records::RecordView;
use crate::sort::arrange;
use crate::sort::as_ints;
use crate::sort::lemma_arrange_keeps_items;
use crate::sort::sorted_indices;
use crate::sort::stable_order;
use crate::stats::bandwidth_in;
use crate::stats::law_sums_ignore_order;
use crate::stats::requests_in;
use crate::stats::totals_fit;
use crate::stats::Group;
use crate::stats::PathStats;
use crate::stats::StatView;
use crate::text::char_at;
use crate::text::to_chars;

verus! {

/// `serde_json::Value`, a parsed JSON value; nothing is known of what it holds
/// but through the functions below.
#[verifier::external_type_specification]
#[verifier::external_body]
pub struct ExJsonValue(serde_json::Value);

/// `serde_json::Error`, why a text is no JSON document; it is never looked into.
#[verifier::external_type_specification]
#[verifier::external_body]
pub struct ExJsonError(serde_json::Error);

/// `url::Url`, a parsed URL; nothing is known of what it holds but through the
/// functions below.
#[verifier::external_type_specification]
#[verifier::external_body]
pub struct ExUrl(url::Url);

/// `url::ParseError`, why a text is no URL; it is never looked into.
#[verifier::external_type_specification]
#[verifier::external_body]
pub struct ExUrlError(url::ParseError);

/// The document that the JSON parser reads from a text, where it accepts it.
pub uninterp spec fn json_document(text: Seq<char>) -> Option<serde_json::Value>;

/// The member that a JSON value holds under a key: a member of an object, and
/// nothing for any other value.
pub uninterp spec fn json_member(value: serde_json::Value, key: Seq<char>) -> Option<serde_json::Value>;

/// The text of a JSON string, and nothing for any other value.
pub uninterp spec fn json_text(value: serde_json::Value) -> Option<Seq<char>>;

/// The value of a JSON number that is an integer in the range of `u64`, and
/// nothing for any other value.
pub uninterp spec fn json_unsigned(value: serde_json::Value) -> Option<u64>;

/// The URL that the URL parser reads from a text, where it accepts it.
pub uninterp spec fn parsed_url(text: Seq<char>) -> Option<url::Url>;

/// The path of a URL.
pub uninterp spec fn url_path(url: url::Url) -> Seq<char>;

/// `serde_json::from_str`, read as a `Value`: the result is the document that
/// `json_document` names, and an error exactly where it names none.
#[verifier::external_body]
fn parse_document(text: &str) -> (parsed: Result<serde_json::Value, serde_json::Error>)
    ensures
        parsed is Ok <==> json_document(text@) is Some,
        parsed matches Ok(value) ==> json_document(text@) == Some(value),
{
    serde_json::from_str::<serde_json::Value>(text)
}

/// `serde_json::Value::get` with a string index: the member that `json_member`
/// names.
#[verifier::external_body]
fn member<'a>(value: &'a serde_json::Value, key: &str) -> (found: Option<&'a serde_json::Value>)
    ensures
        found is Some <==> json_member(*value, key@) is Some,
        found matches Some(inner) ==> json_member(*value, key@) == Some(*inner),
{
    value.get(key)
}

/// `serde_json::Value::as_str`: the text that `json_text` names.
#[verifier::external_body]
fn text_of<'a>(value: &'a serde_json::Value) -> (text: Option<&'a str>)
    ensures
        text is Some <==> json_text(*value) is Some,
        text matches Some(s) ==> json_text(*value) == Some(s@),
{
    value.as_str()
}

/// `serde_json::Value::as_u64`: the number that `json_unsigned` names.
#[verifier::external_body]
fn unsigned_of(value: &serde_json::Value) -> (number: Option<u64>)
    ensures
        number == json_unsigned(*value),
{
    value.as_u64()
}

/// `url::Url::parse`: the result is the URL that `parsed_url` names, and an
/// error exactly where it names none.
#[verifier::external_body]
fn parse_url(text: &str) -> (parsed: Result<url::Url, url::ParseError>)
    ensures
        parsed is Ok <==> parsed_url(text@) is Some,
        parsed matches Ok(url) ==> parsed_url(text@) == Some(url),
{
    url::Url::parse(text)
}

/// `url::Url::path`: the path that `url_path` names.
#[verifier::external_body]
fn path_of<'a>(url: &'a url::Url) -> (path: &'a str)
    ensures
        path@ == url_path(*url),
{
    url.path()
}

/// Whether a character is a decimal digit.
pub open spec fn is_digit(c: char) -> bool {
    '0' <= c <= '9'
}

/// The number that a text of decimal digits writes; nothing where another
/// character occurs.
pub open spec fn decimal_value(digits: Seq<char>) -> Option<nat>
    decreases digits.len(),
{
    if digits.len() == 0 {
        Some(0)
    } else {
        match decimal_value(digits.drop_last()) {
            Some(tens) if is_digit(digits.last()) => Some(
                (tens * 10 + (digits.last() as int - '0' as int)) as nat,
            ),
            _ => None,
        }
    }
}

/// The number that a text writes in decimal, with or without a leading `+`:
/// nothing where a digit is missing, where another character occurs, or where
/// the number is beyond `u64`.
pub open spec fn parse_unsigned(text: Seq<char>) -> Option<u64> {
    let digits = if text.len() > 0 && text[0] == '+' {
        text.skip(1)
    } else {
        text
    };
    if digits.len() == 0 {
        None
    } else {
        match decimal_value(digits) {
            Some(value) if value <= u64::MAX => Some(value as u64),
            _ => None,
        }
    }
}

/// A size as a JSON value gives it: a number in the range of `u64`, or a text
/// that writes one.
pub open spec fn size_field(value: serde_json::Value) -> Option<u64> {
    match json_unsigned(value) {
        Some(number) => Some(number),
        None => match json_text(value) {
            Some(text) => parse_unsigned(text),
            None => None,
        },
    }
}

/// The size that a body gives under a key.
pub open spec fn member_size(body: serde_json::Value, key: Seq<char>) -> Option<u64> {
    match json_member(body, key) {
        Some(value) => size_field(value),
        None => None,
    }
}

/// The path that a record is counted under: the path of its URL, or `/` where
/// that is empty.
pub open spec fn path_or_root(path: Seq<char>) -> Seq<char> {
    if path.len() == 0 {
        "/"@
    } else {
        path
    }
}

/// The record made of a URL, the path of the URL and the two sizes.
pub open spec fn record_with(
    url: Seq<char>,
    path: Seq<char>,
    request_size: Option<u64>,
    response_size: Option<u64>,
) -> RecordView {
    RecordView { path: path_or_root(path), url, request_size, response_size }
}

/// The record that a document gives: none without a body, without a text
/// under `url`, or with a URL that does not parse.
pub open spec fn record_in(document: serde_json::Value) -> Option<RecordView> {
    match json_member(document, "body"@) {
        None => None,
        Some(body) => match json_member(body, "url"@) {
            None => None,
            Some(link) => match json_text(link) {
                None => None,
                Some(url) => match parsed_url(url) {
                    None => None,
                    Some(parsed) => Some(
                        record_with(
                            url,
                            url_path(parsed),
                            member_size(body, "requestSize"@),
                            member_size(body, "responseSize"@),
                        ),
                    ),
                },
            },
        },
    }
}

/// The record that a line gives: none where the line is no JSON document.
pub open spec fn record_of(line: Seq<char>) -> Option<RecordView> {
    match json_document(line) {
        Some(document) => record_in(document),
        None => None,
    }
}

/// The records that the lines give, in the order of the lines.
pub open spec fn records_of(lines: Seq<Seq<char>>) -> Seq<RecordView>
    decreases lines.len(),
{
    if lines.len() == 0 {
        Seq::empty()
    } else {
        match record_of(lines.last()) {
            Some(record) => records_of(lines.drop_last()).push(record),
            None => records_of(lines.drop_last()),
        }
    }
}

/// The texts of a list of lines.
pub open spec fn texts(lines: Seq<String>) -> Seq<Seq<char>> {
    Seq::new(lines.len(), |i: int| lines[i]@)
}

/// The key of a path's statistics by bandwidth.
pub open spec fn bandwidth_key(stat: StatView) -> KeyView {
    KeyView { rank: 0, text: Seq::empty(), number: stat.bandwidth_sum }
}

/// The statistics with the largest bandwidth first; entries of the same
/// bandwidth keep their order.
pub open spec fn by_bandwidth(stats: Seq<StatView>) -> Seq<StatView> {
    arrange(stats, stable_order(Seq::new(stats.len(), |i: int| bandwidth_key(stats[i])), true))
}

/// Ranking by bandwidth keeps the entries, and with them the totals.
pub proof fn law_ranking_keeps_totals(stats: Seq<StatView>)
    ensures
        by_bandwidth(stats).to_multiset() == stats.to_multiset(),
        requests_in(by_bandwidth(stats), Group::All) == requests_in(stats, Group::All),
        bandwidth_in(by_bandwidth(stats), Group::All) == bandwidth_in(stats, Group::All),
{
    lemma_arrange_keeps_items(stats, Seq::new(stats.len(), |i: int| bandwidth_key(stats[i])), true);
    law_sums_ignore_order(by_bandwidth(stats), stats, Group::All);
}

/// A text writes a number at least as large as any of its beginnings, and none
/// where a beginning writes none.
proof fn lemma_decimal_value_grows(digits: Seq<char>, i: int)
    requires
        0 <= i <= digits.len(),
    ensures
        decimal_value(digits.take(i)) is None ==> decimal_value(digits) is None,
        decimal_value(digits) matches Some(whole) ==> decimal_value(digits.take(i)) matches Some(part)
            && part <= whole,
    decreases digits.len() - i,
{
    if i == digits.len() {
        assert(digits.take(i) =~= digits);
    } else {
        lemma_decimal_value_grows(digits, i + 1);
        assert(digits.take(i + 1).drop_last() =~= digits.take(i));
    }
}

/// The number that a text writes in decimal, with or without a leading `+`.
pub fn parse_u64(text: &str) -> (number: Option<u64>)
    ensures
        number == parse_unsigned(text@),
{
    let chars = to_chars(text);
    let start: usize = if chars.len() > 0 && chars[0] == '+' {
        1
    } else {
        0
    };
    let ghost digits = chars@.skip(start as int);
    proof {
        assert(chars@.skip(0) =~= chars@);
    }
    if start == chars.len() {
        return None;
    }
    let mut value: u64 = 0;
    let mut i: usize = start;
    proof {
        assert(digits.take(0) =~= Seq::<char>::empty());
    }
    while i < chars.len()
        invariant
            start <= i <= chars.len(),
            digits == chars@.skip(start as int),
            digits == if text@.len() > 0 && text@[0] == '+' {
                text@.skip(1)
            } else {
                text@
            },
            decimal_value(digits.take(i - start)) == Some(value as nat),
        decreases chars.len() - i,
    {
        let c = char_at(&chars, i);
        proof {
            assert(digits[i - start] == c);
            assert(digits.take(i - start + 1).drop_last() =~= digits.take(i - start));
            assert(digits.take(i - start + 1).last() == c);
            lemma_decimal_value_grows(digits, i - start + 1);
        }
        if c < '0' || c > '9' {
            return None;
        }
        let digit: u64 = (c as u32 - '0' as u32) as u64;
        let next = match value.checked_mul(10) {
            Some(tens) => tens.checked_add(digit),
            None => None,
        };
        match next {
            Some(sum) => {
                value = sum;
            },
            None => {
                return None;
            },
        }
        i += 1;
    }
    proof {
        assert(digits.take(i - start) =~= digits);
    }
    Some(value)
}

/// A size as a JSON value gives it: a number in the range of `u64`, or a text
/// that writes one.
pub fn as_u64(value: &serde_json::Value) -> (size: Option<u64>)
    ensures
        size == size_field(*value),
{
    match unsigned_of(value) {
        Some(number) => Some(number),
        None => match text_of(value) {
            Some(text) => parse_u64(text),
            None => None,
        },
    }
}

/// The record made of a URL, the path of the URL and the two sizes.
pub fn make_record(url: &str, path: &str, request_size: Option<u64>, response_size: Option<u64>) -> (record: Record)
    ensures
        record@ == record_with(url@, path@, request_size, response_size),
{
    let counted = if path.is_empty() {
        "/"
    } else {
        path
    };
    Record { path: counted.to_owned(), url: url.to_owned(), request_size, response_size }
}

/// The size that a body gives under a key.
fn size_under(body: &serde_json::Value, key: &str) -> (size: Option<u64>)
    ensures
        size == member_size(*body, key@),
{
    match member(body, key) {
        Some(value) => as_u64(value),
        None => None,
    }
}

/// The record that a document gives: none without a body, without a text
/// under `url`, or with a URL that does not parse.
pub fn record_from_document(document: &serde_json::Value) -> (record: Option<Record>)
    ensures
        match record {
            Some(record) => record_in(*document) == Some(record@),
            None => record_in(*document) is None,
        },
{
    let body = match member(document, "body") {
        Some(body) => body,
        None => {
            return None;
        },
    };
    let url = match member(body, "url") {
        Some(link) => match text_of(link) {
            Some(url) => url,
            None => {
                return None;
            },
        },
        None => {
            return None;
        },
    };
    let parsed = match parse_url(url) {
        Ok(parsed) => parsed,
        Err(_) => {
            return None;
        },
    };
    let request_size = size_under(body, "requestSize");
    let response_size = size_under(body, "responseSize");
    Some(make_record(url, path_of(&parsed), request_size, response_size))
}

/// The record that a log line gives: none where the line is no JSON document
/// or the document gives none.
pub fn ingest_line(line: &str) -> (record: Option<Record>)
    ensures
        match record {
            Some(record) => record_of(line@) == Some(record@),
            None => record_of(line@) is None,
        },
{
    match parse_document(line) {
        Ok(document) => record_from_document(&document),
        Err(_) => None,
    }
}

/// The records that the lines give, in the order of the lines; lines that give
/// none are passed over.
pub fn ingest_lines(lines: &Vec<String>) -> (records: Vec<Record>)
    ensures
        records.deep_view() == records_of(texts(lines@)),
{
    let ghost all = texts(lines@);
    let mut records: Vec<Record> = Vec::new();
    let mut i: usize = 0;
    proof {
        assert(all.take(0) =~= Seq::<Seq<char>>::empty());
        assert(records.deep_view() =~= Seq::<RecordView>::empty());
    }
    while i < lines.len()
        invariant
            i <= lines.len(),
            all == texts(lines@),
            records.deep_view() == records_of(all.take(i as int)),
        decreases lines.len() - i,
    {
        let ghost before = records.deep_view();
        proof {
            assert(all.take(i + 1).drop_last() =~= all.take(i as int));
            assert(all.take(i + 1).last() == lines[i as int]@);
        }
        match ingest_line(lines[i].as_str()) {
            Some(record) => {
                records.push(record);
                proof {
                    assert(records.deep_view() =~= before.push(record@));
                }
            },
            None => {},
        }
        i += 1;
    }
    proof {
        assert(all.take(i as int) =~= all);
    }
    records
}

/// The statistics of the records, the largest bandwidth first; paths of the
/// same bandwidth stand in the order in which they first occur.
pub fn rank_stats(records: &Vec<Record>) -> (stats: Vec<PathStats>)
    requires
        sizes_fit(records.deep_view()),
    ensures
        stats.deep_view() == by_bandwidth(aggregated(records.deep_view())),
        totals_fit(stats.deep_view()),
{
    let found = aggregate(records);
    let ghost before = found.deep_view();
    let ghost key_views = Seq::new(before.len(), |i: int| bandwidth_key(before[i]));
    let mut keys: Vec<SortKey> = Vec::new();
    let mut i: usize = 0;
    while i < found.len()
        invariant
            i <= found.len(),
            found.deep_view() == before,
            keys.len() == i,
            forall|k: int| 0 <= k < i ==> (#[trigger] keys[k])@ == bandwidth_key(before[k]),
        decreases found.len() - i,
    {
        proof {
            assert(before[i as int] == found[i as int]@);
        }
        keys.push(SortKey { rank: 0, text: Vec::new(), number: found[i].bandwidth_sum });
        i += 1;
    }
    proof {
        assert(keys.deep_view() =~= key_views);
    }
    let order = sorted_indices(&keys, true);
    let ghost spec_order = stable_order(key_views, true);
    let mut stats: Vec<PathStats> = Vec::new();
    let mut k: usize = 0;
    while k < order.len()
        invariant
            k <= order.len(),
            order.len() == found.len(),
            found.deep_view() == before,
            as_ints(order@) == spec_order,
            forall|m: int| 0 <= m < order.len() ==> #[trigger] order[m] < found.len(),
            stats.len() == k,
            forall|m: int| 0 <= m < k ==> (#[trigger] stats[m])@ == before[spec_order[m]],
        decreases order.len() - k,
    {
        let at = order[k];
        proof {
            assert(as_ints(order@)[k as int] == at);
            assert(before[at as int] == found[at as int]@);
        }
        let item = &found[at];
        stats.push(
            PathStats {
                path: item.path.clone(),
                sample_url: item.sample_url.clone(),
                request_count: item.request_count,
                request_size_sum: item.request_size_sum,
                bandwidth_sum: item.bandwidth_sum,
            },
        );
        k += 1;
    }
    proof {
        assert(spec_order.len() == order.len());
        assert(stats.deep_view() =~= by_bandwidth(before));
        law_ranking_keeps_totals(before);
        law_aggregation_conserves(records.deep_view());
        assert(records.deep_view().len() == records.len());
        assert(records.len() <= u64::MAX);
    }
    stats
}

/// The statistics that the lines of a log give, the largest bandwidth first;
/// `None` where a sum of sizes is beyond `u64`.
pub fn load_stats(lines: &Vec<String>) -> (stats: Option<Vec<PathStats>>)
    ensures
        match stats {
            Some(stats) => sizes_fit(records_of(texts(lines@))) && stats.deep_view() == by_bandwidth(
                aggregated(records_of(texts(lines@))),
            ) && totals_fit(stats.deep_view()),
            None => !sizes_fit(records_of(texts(lines@))),
        },
{
    let records = ingest_lines(lines);
    if records_fit(&records) {
        Some(rank_stats(&records))
    } else {
        None
    }
}

} // verus!
