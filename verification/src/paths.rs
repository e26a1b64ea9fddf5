//! Request types and the rules that read a request path: the classifier, the
//! route prefix, the asset id and the file extension.

use vstd::prelude::*;
use crate::text::after_last;
use crate::text::before_first;
use crate::text::before_last;
use crate::text::find_last;
use crate::text::first_index_of;
use crate::text::join;
use crate::text::last_index_of;
use crate::text::lowercase;
use crate::text::lowercase_of;
use crate::text::same_chars;
use crate::text::segments;
use crate::text::string_of;
use crate::text::to_chars;
use crate::text::views;

verus! {

/// The category of a request, decided by its path alone.
#[derive(Clone, Copy, Debug, PartialEq, Eq, Hash, Structural)]
pub enum RequestType {
    Image,
    File,
    Query,
    Other,
}

/// The colour that a request type is shown in.
#[derive(Clone, Copy, Debug, PartialEq, Eq, Structural)]
pub enum TypeColor {
    Green,
    Blue,
    Yellow,
    Gray,
}

impl RequestType {
    /// The one-letter mark of the type.
    pub fn label(self) -> (mark: char)
        ensures
            mark == match self {
                RequestType::Image => 'I',
                RequestType::File => 'F',
                RequestType::Query => 'Q',
                RequestType::Other => '?',
            },
    {
        match self {
            RequestType::Image => 'I',
            RequestType::File => 'F',
            RequestType::Query => 'Q',
            RequestType::Other => '?',
        }
    }

    /// The colour of the type.
    pub fn color(self) -> (color: TypeColor)
        ensures
            color == match self {
                RequestType::Image => TypeColor::Green,
                RequestType::File => TypeColor::Blue,
                RequestType::Query => TypeColor::Yellow,
                RequestType::Other => TypeColor::Gray,
            },
    {
        match self {
            RequestType::Image => TypeColor::Green,
            RequestType::File => TypeColor::Blue,
            RequestType::Query => TypeColor::Yellow,
            RequestType::Other => TypeColor::Gray,
        }
    }

    /// Whether rows of this type are broken down by file extension.
    pub open spec fn has_extension_rows(self) -> bool {
        self == RequestType::Image || self == RequestType::File
    }

    /// Whether rows of this type are broken down by file extension.
    pub fn groups_extensions(self) -> (grouped: bool)
        ensures
            grouped == self.has_extension_rows(),
    {
        match self {
            RequestType::Image => true,
            RequestType::File => true,
            _ => false,
        }
    }
}

/// The name that a type's group is listed under.
pub open spec fn group_name(kind: RequestType) -> Seq<char> {
    match kind {
        RequestType::Image => "Images"@,
        RequestType::File => "Files"@,
        RequestType::Query => "GROQ Queries"@,
        RequestType::Other => "Other"@,
    }
}

/// The type of a path: images and files by their route, queries by the second
/// and third of at least four segments, everything else `Other`.
pub open spec fn classify(path: Seq<char>) -> RequestType {
    if "/images/"@.is_prefix_of(path) {
        RequestType::Image
    } else if "/files/"@.is_prefix_of(path) {
        RequestType::File
    } else {
        let parts = segments(path, '/');
        if parts.len() >= 4 && parts[1] == "data"@ && parts[2] == "query"@ {
            RequestType::Query
        } else {
            RequestType::Other
        }
    }
}

/// The path without its first `count` segments, joined by `/`; `None` when no
/// segment is left.
pub open spec fn stripped(path: Seq<char>, count: nat) -> Option<Seq<char>> {
    let parts = segments(path, '/');
    if parts.len() <= count {
        None
    } else {
        Some(join(parts.skip(count as int), '/'))
    }
}

/// The stripped path, or the path itself where nothing is left of it.
pub open spec fn remainder(path: Seq<char>, count: nat) -> Seq<char> {
    match stripped(path, count) {
        Some(rest) => rest,
        None => path,
    }
}

/// What follows the last `.` of a text, in lowercase; `None` without a `.` or
/// with nothing after it.
pub open spec fn extension(text: Seq<char>) -> Option<Seq<char>> {
    if find_last(text, '.') < 0 || after_last(text, '.').len() == 0 {
        None
    } else {
        Some(lowercase(after_last(text, '.')))
    }
}

/// The extension of a text, empty where it has none.
pub open spec fn extension_or_empty(text: Seq<char>) -> Seq<char> {
    match extension(text) {
        Some(ext) => ext,
        None => Seq::empty(),
    }
}

/// An extension as it is shown: with a leading dot, or empty.
pub open spec fn dotted(ext: Seq<char>) -> Seq<char> {
    if ext.len() == 0 {
        ext
    } else {
        seq!['.'] + ext
    }
}

/// The file name of an image or file path: the last `/`-piece of what follows
/// the three segments of the route.
pub open spec fn file_name(path: Seq<char>) -> Seq<char> {
    after_last(remainder(path, 3), '/')
}

/// A file name without its extension.
pub open spec fn file_stem(file: Seq<char>) -> Seq<char> {
    if find_last(file, '.') < 0 {
        file
    } else {
        before_last(file, '.')
    }
}

/// The id that a path is listed under.
pub open spec fn asset_id(path: Seq<char>, kind: RequestType) -> Seq<char> {
    match kind {
        RequestType::Image => before_first(file_stem(file_name(path)), '-'),
        RequestType::File => file_stem(file_name(path)),
        RequestType::Query => "GROQ Queries"@,
        RequestType::Other => remainder(path, 0),
    }
}

/// The extension of a path, in lowercase and without a dot; empty where it has
/// none.
pub open spec fn asset_extension(path: Seq<char>, kind: RequestType) -> Seq<char> {
    match kind {
        RequestType::Image => extension_or_empty(file_name(path)),
        RequestType::File => extension_or_empty(file_name(path)),
        RequestType::Query => Seq::empty(),
        RequestType::Other => extension_or_empty(remainder(path, 0)),
    }
}

/// Every path has exactly one of the four types. The route of images decides
/// first, the route of files second, the shape of a query third.
pub proof fn law_classifier(path: Seq<char>)
    ensures
        classify(path) == RequestType::Image || classify(path) == RequestType::File || classify(path)
            == RequestType::Query || classify(path) == RequestType::Other,
        classify(path) == RequestType::Image <==> "/images/"@.is_prefix_of(path),
        classify(path) == RequestType::File <==> !"/images/"@.is_prefix_of(path) && "/files/"@.is_prefix_of(
            path,
        ),
        classify(path) == RequestType::Query <==> !"/images/"@.is_prefix_of(path)
            && !"/files/"@.is_prefix_of(path) && segments(path, '/').len() >= 4 && segments(path, '/')[1]
            == "data"@ && segments(path, '/')[2] == "query"@,
{
}

/// The name of a type's group.
pub fn type_label(kind: RequestType) -> (name: &'static str)
    ensures
        name@ == group_name(kind),
{
    match kind {
        RequestType::Image => "Images",
        RequestType::File => "Files",
        RequestType::Query => "GROQ Queries",
        RequestType::Other => "Other",
    }
}

/// Whether `chars` begins with `prefix`.
fn has_prefix(chars: &Vec<char>, prefix: &Vec<char>) -> (yes: bool)
    ensures
        yes == prefix@.is_prefix_of(chars@),
{
    if prefix.len() > chars.len() {
        return false;
    }
    let mut i: usize = 0;
    while i < prefix.len()
        invariant
            i <= prefix.len() <= chars.len(),
            forall|k: int| 0 <= k < i ==> chars[k] == prefix[k],
        decreases prefix.len() - i,
    {
        if chars[i] != prefix[i] {
            proof {
                assert(chars@.subrange(0, prefix.len() as int)[i as int] == chars[i as int]);
            }
            return false;
        }
        i += 1;
    }
    proof {
        assert(prefix@ =~= chars@.subrange(0, prefix.len() as int));
    }
    true
}

/// A copy of `chars[lo..hi]`.
fn slice_chars(chars: &Vec<char>, lo: usize, hi: usize) -> (piece: Vec<char>)
    requires
        lo <= hi <= chars.len(),
    ensures
        piece@ == chars@.subrange(lo as int, hi as int),
{
    let mut piece: Vec<char> = Vec::new();
    let mut i: usize = lo;
    while i < hi
        invariant
            lo <= i <= hi <= chars.len(),
            piece@ == chars@.subrange(lo as int, i as int),
        decreases hi - i,
    {
        piece.push(chars[i]);
        i += 1;
    }
    piece
}

/// The segments that precede position `cut`, where `cut` is the place of a
/// separator or `-1`.
spec fn segments_before(s: Seq<char>, sep: char, cut: int) -> Seq<Seq<char>> {
    if 0 <= cut < s.len() {
        segments(s.take(cut), sep)
    } else {
        Seq::empty()
    }
}

/// The non-empty pieces of `chars` between occurrences of `sep`.
pub fn split_segments(chars: &Vec<char>, sep: char) -> (parts: Vec<Vec<char>>)
    ensures
        views(parts@) == segments(chars@, sep),
{
    let ghost s = chars@;
    let mut parts: Vec<Vec<char>> = Vec::new();
    let mut start: usize = 0;
    let mut i: usize = 0;
    proof {
        assert(s.take(0) =~= Seq::<char>::empty());
        assert(views(parts@) =~= Seq::<Seq<char>>::empty());
    }
    while i < chars.len()
        invariant
            s == chars@,
            start <= i <= chars.len(),
            start - 1 == find_last(s.take(i as int), sep),
            views(parts@) == segments_before(s, sep, start - 1),
        decreases chars.len() - i,
    {
        let ghost before = s.take(i as int);
        let ghost next = s.take(i + 1);
        proof {
            assert(next.drop_last() =~= before);
            assert(next.last() == s[i as int]);
        }
        if chars[i] == sep {
            let ghost old_parts = views(parts@);
            proof {
                if start > 0 {
                    assert(before.take(start - 1) =~= s.take(start - 1));
                }
                assert(before.skip(start as int) =~= s.subrange(start as int, i as int));
                assert(s.take(i as int) == before);
            }
            if start < i {
                let piece = slice_chars(chars, start, i);
                parts.push(piece);
                proof {
                    assert(views(parts@) =~= old_parts.push(piece@));
                }
            }
            start = i + 1;
        }
        i += 1;
    }
    proof {
        assert(s.take(i as int) =~= s);
        assert(s.take(start - 1).len() == start - 1 || start == 0);
        assert(s.skip(start as int) =~= s.subrange(start as int, i as int));
    }
    let ghost old_parts = views(parts@);
    if start < chars.len() {
        let piece = slice_chars(chars, start, chars.len());
        parts.push(piece);
        proof {
            assert(views(parts@) =~= old_parts.push(piece@));
        }
    }
    parts
}

/// `parts[from..]` written one after another with `sep` between neighbours.
fn join_from(parts: &Vec<Vec<char>>, from: usize, sep: char) -> (joined: Vec<char>)
    requires
        from <= parts.len(),
    ensures
        joined@ == join(views(parts@).skip(from as int), sep),
{
    let ghost all = views(parts@);
    let mut joined: Vec<char> = Vec::new();
    let mut k: usize = from;
    proof {
        assert(all.subrange(from as int, from as int) =~= Seq::<Seq<char>>::empty());
    }
    while k < parts.len()
        invariant
            from <= k <= parts.len(),
            all == views(parts@),
            joined@ == join(all.subrange(from as int, k as int), sep),
        decreases parts.len() - k,
    {
        let ghost done = all.subrange(from as int, k as int);
        let ghost more = all.subrange(from as int, k + 1);
        proof {
            assert(more.drop_last() =~= done);
            assert(more.last() == parts[k as int]@);
        }
        if k > from {
            joined.push(sep);
        }
        let part = &parts[k];
        let ghost head = joined@;
        let mut m: usize = 0;
        while m < part.len()
            invariant
                m <= part.len(),
                joined@ == head + part@.take(m as int),
            decreases part.len() - m,
        {
            joined.push(part[m]);
            proof {
                assert(part@.take(m + 1) =~= part@.take(m as int).push(part@[m as int]));
            }
            m += 1;
        }
        proof {
            assert(part@.take(m as int) =~= part@);
            if k == from {
                assert(head + part@ =~= part@);
            }
        }
        k += 1;
    }
    proof {
        assert(all.subrange(from as int, k as int) =~= all.skip(from as int));
    }
    joined
}

/// The path without its first `count` segments, or `None` when no segment is left.
fn strip_chars(chars: &Vec<char>, count: usize) -> (rest: Option<Vec<char>>)
    ensures
        match rest {
            Some(rest) => stripped(chars@, count as nat) == Some(rest@),
            None => stripped(chars@, count as nat) is None,
        },
{
    let parts = split_segments(chars, '/');
    if parts.len() <= count {
        None
    } else {
        Some(join_from(&parts, count, '/'))
    }
}

/// The stripped path, or the path itself where nothing is left of it.
fn remainder_chars(chars: Vec<char>, count: usize) -> (rest: Vec<char>)
    ensures
        rest@ == remainder(chars@, count as nat),
{
    match strip_chars(&chars, count) {
        Some(rest) => rest,
        None => chars,
    }
}

/// The lowercase extension of `chars[lo..hi]`, empty where it has none.
fn extension_chars(chars: &Vec<char>, lo: usize, hi: usize) -> (ext: Option<String>)
    requires
        lo <= hi <= chars.len(),
    ensures
        match ext {
            Some(ext) => extension(chars@.subrange(lo as int, hi as int)) == Some(ext@),
            None => extension(chars@.subrange(lo as int, hi as int)) is None,
        },
{
    let ghost window = chars@.subrange(lo as int, hi as int);
    match last_index_of(chars, lo, hi, '.') {
        None => None,
        Some(dot) => {
            proof {
                assert(window.skip(dot - lo + 1) =~= chars@.subrange(dot + 1, hi as int));
            }
            if dot + 1 == hi {
                None
            } else {
                Some(lowercase_of(chars, dot + 1, hi))
            }
        },
    }
}

/// The type of a request path.
pub fn detect_request_type(path: &str) -> (kind: RequestType)
    ensures
        kind == classify(path@),
{
    let chars = to_chars(path);
    let images = to_chars("/images/");
    if has_prefix(&chars, &images) {
        return RequestType::Image;
    }
    let files = to_chars("/files/");
    if has_prefix(&chars, &files) {
        return RequestType::File;
    }
    let parts = split_segments(&chars, '/');
    if parts.len() >= 4 {
        let data = to_chars("data");
        let query = to_chars("query");
        proof {
            assert(views(parts@)[1] == parts[1]@);
            assert(views(parts@)[2] == parts[2]@);
        }
        if same_chars(&parts[1], &data) && same_chars(&parts[2], &query) {
            return RequestType::Query;
        }
    }
    RequestType::Other
}

/// The path without its first `count` non-empty segments, the rest joined by
/// `/`; `None` when no segment is left.
pub fn strip_prefix_segments(path: &str, count: usize) -> (rest: Option<String>)
    ensures
        match rest {
            Some(rest) => stripped(path@, count as nat) == Some(rest@),
            None => stripped(path@, count as nat) is None,
        },
{
    let chars = to_chars(path);
    match strip_chars(&chars, count) {
        Some(rest) => {
            let text = string_of(&rest, 0, rest.len());
            proof {
                assert(rest@.subrange(0, rest.len() as int) =~= rest@);
            }
            Some(text)
        },
        None => None,
    }
}

/// What follows the last `.` of a text, in lowercase; `None` without a `.` or
/// with nothing after it.
pub fn extract_extension(path: &str) -> (ext: Option<String>)
    ensures
        match ext {
            Some(ext) => extension(path@) == Some(ext@),
            None => extension(path@) is None,
        },
{
    let chars = to_chars(path);
    proof {
        assert(chars@.subrange(0, chars.len() as int) =~= chars@);
    }
    extension_chars(&chars, 0, chars.len())
}

/// An extension as it is shown: with a leading dot, or empty.
pub fn format_ext(ext: &str) -> (shown: String)
    ensures
        shown@ == dotted(ext@),
{
    let chars = to_chars(ext);
    let mut shown = String::new();
    if chars.len() > 0 {
        proof {
            reveal_strlit(".");
            assert("."@ =~= seq!['.']);
        }
        shown.append(".");
        shown.append(ext);
    } else {
        proof {
            assert(ext@ =~= Seq::<char>::empty());
        }
    }
    shown
}

/// The id and the shown extension of a path of the given type.
pub fn asset_id_and_ext(path: &str, kind: RequestType) -> (asset: (String, String))
    ensures
        asset.0@ == asset_id(path@, kind),
        asset.1@ == dotted(asset_extension(path@, kind)),
{
    let chars = to_chars(path);
    match kind {
        RequestType::Query => {
            proof {
                assert(dotted(Seq::<char>::empty()) =~= Seq::<char>::empty());
            }
            ("GROQ Queries".to_owned(), String::new())
        },
        RequestType::Other => {
            let rest = remainder_chars(chars, 0);
            proof {
                assert(rest@.subrange(0, rest.len() as int) =~= rest@);
            }
            let label = string_of(&rest, 0, rest.len());
            let ext = match extension_chars(&rest, 0, rest.len()) {
                Some(ext) => ext,
                None => String::new(),
            };
            (label, format_ext(ext.as_str()))
        },
        _ => {
            let rest = remainder_chars(chars, 3);
            let file_start = match last_index_of(&rest, 0, rest.len(), '/') {
                Some(slash) => slash + 1,
                None => 0,
            };
            let end = rest.len();
            let ghost file = rest@.subrange(file_start as int, end as int);
            proof {
                assert(rest@.subrange(0, rest.len() as int) =~= rest@);
                assert(file =~= file_name(path@));
            }
            let stem_end = match last_index_of(&rest, file_start, end, '.') {
                Some(dot) => dot,
                None => end,
            };
            proof {
                assert(file_stem(file) =~= rest@.subrange(file_start as int, stem_end as int));
            }
            let id_end = match kind {
                RequestType::Image => first_index_of(&rest, file_start, stem_end, '-'),
                _ => stem_end,
            };
            proof {
                let stem = rest@.subrange(file_start as int, stem_end as int);
                assert(stem.take(id_end - file_start) =~= rest@.subrange(file_start as int, id_end as int));
            }
            let id = string_of(&rest, file_start, id_end);
            let ext = match extension_chars(&rest, file_start, end) {
                Some(ext) => ext,
                None => String::new(),
            };
            (id, format_ext(ext.as_str()))
        },
    }
}

} // verus!
