//! Character sequences: the model that every path rule is stated over, and the
//! executable helpers that move between `str`, `String` and `Vec<char>`.

use vstd::prelude::*;

verus! {

/// Index of the last occurrence of `c` in `s`, or `-1` when there is none.
pub open spec fn find_last(s: Seq<char>, c: char) -> int
    decreases s.len(),
{
    if s.len() == 0 {
        -1
    } else if s.last() == c {
        s.len() - 1
    } else {
        find_last(s.drop_last(), c)
    }
}

/// Index of the first occurrence of `c` in `s`, or `s.len()` when there is none.
pub open spec fn find_first(s: Seq<char>, c: char) -> int
    decreases s.len(),
{
    if s.len() == 0 {
        0
    } else if s[0] == c {
        0
    } else {
        1 + find_first(s.drop_first(), c)
    }
}

/// What follows the last `c` in `s`; all of `s` when it holds no `c`.
pub open spec fn after_last(s: Seq<char>, c: char) -> Seq<char> {
    s.skip(find_last(s, c) + 1)
}

/// What precedes the last `c` in `s`; meaningful when `s` holds a `c`.
pub open spec fn before_last(s: Seq<char>, c: char) -> Seq<char> {
    s.take(find_last(s, c))
}

/// What precedes the first `c` in `s`; all of `s` when it holds no `c`.
pub open spec fn before_first(s: Seq<char>, c: char) -> Seq<char> {
    s.take(find_first(s, c))
}

/// The non-empty pieces of `s` between occurrences of `sep`, in order.
pub open spec fn segments(s: Seq<char>, sep: char) -> Seq<Seq<char>>
    decreases s.len(),
{
    let cut = find_last(s, sep);
    let piece = s.skip(cut + 1);
    let rest = if 0 <= cut < s.len() {
        segments(s.take(cut), sep)
    } else {
        Seq::empty()
    };
    if piece.len() > 0 {
        rest.push(piece)
    } else {
        rest
    }
}

/// The pieces written one after another with `sep` between neighbours.
pub open spec fn join(parts: Seq<Seq<char>>, sep: char) -> Seq<char>
    decreases parts.len(),
{
    if parts.len() == 0 {
        Seq::empty()
    } else if parts.len() == 1 {
        parts[0]
    } else {
        join(parts.drop_last(), sep).push(sep) + parts.last()
    }
}

/// The views of a list of character vectors.
pub open spec fn views(parts: Seq<Vec<char>>) -> Seq<Seq<char>> {
    parts.map_values(|part: Vec<char>| part@)
}

/// `find_last` is the position `i` that ends at `c` and has no `c` after it.
pub proof fn lemma_find_last(s: Seq<char>, c: char, i: int)
    requires
        -1 <= i < s.len(),
        i >= 0 ==> s[i] == c,
        forall|j: int| i < j < s.len() ==> s[j] != c,
    ensures
        find_last(s, c) == i,
    decreases s.len(),
{
    if s.len() > 0 && s.last() != c {
        lemma_find_last(s.drop_last(), c, i);
    }
}

/// `find_first` is the position `i` that holds the first `c`.
pub proof fn lemma_find_first(s: Seq<char>, c: char, i: int)
    requires
        0 <= i <= s.len(),
        i < s.len() ==> s[i] == c,
        forall|j: int| 0 <= j < i ==> s[j] != c,
    ensures
        find_first(s, c) == i,
    decreases s.len(),
{
    if s.len() > 0 && s[0] != c {
        lemma_find_first(s.drop_first(), c, i - 1);
    }
}

/// `String::push`: the character is added at the end.
#[verifier::external_body]
fn push_char(s: &mut String, c: char)
    ensures
        final(s)@ == old(s)@.push(c),
{
    s.push(c)
}

/// `str::to_lowercase` gives the string that `lowercase` names.
#[verifier::external_body]
fn str_to_lowercase(s: &str) -> (lower: String)
    ensures
        lower@ == lowercase(s@),
{
    s.to_lowercase()
}

/// The lowercase form of a text under the Unicode case mapping of `str`.
pub uninterp spec fn lowercase(s: Seq<char>) -> Seq<char>;

/// The characters of `s`, in order.
pub fn to_chars(s: &str) -> (chars: Vec<char>)
    ensures
        chars@ == s@,
{
    let mut chars: Vec<char> = Vec::new();
    for c in it: s.chars()
        invariant
            chars@ == it.seq().take(it.index()),
            it.seq() == s@,
    {
        chars.push(c);
    }
    chars
}

/// The character at place `i`.
pub fn char_at(chars: &Vec<char>, i: usize) -> (c: char)
    requires
        i < chars.len(),
    ensures
        c == chars[i as int],
{
    chars[i]
}

/// The string made of `chars[lo..hi]`.
pub fn string_of(chars: &Vec<char>, lo: usize, hi: usize) -> (s: String)
    requires
        lo <= hi <= chars.len(),
    ensures
        s@ == chars@.subrange(lo as int, hi as int),
{
    let mut s = String::new();
    let mut i: usize = lo;
    while i < hi
        invariant
            lo <= i <= hi <= chars.len(),
            s@ == chars@.subrange(lo as int, i as int),
        decreases hi - i,
    {
        push_char(&mut s, chars[i]);
        i += 1;
    }
    s
}

/// The lowercase form of `chars[lo..hi]`.
pub fn lowercase_of(chars: &Vec<char>, lo: usize, hi: usize) -> (s: String)
    requires
        lo <= hi <= chars.len(),
    ensures
        s@ == lowercase(chars@.subrange(lo as int, hi as int)),
{
    let plain = string_of(chars, lo, hi);
    str_to_lowercase(plain.as_str())
}

/// Position of the last `c` in `chars[lo..hi]`, counted from `lo`.
pub fn last_index_of(chars: &Vec<char>, lo: usize, hi: usize, c: char) -> (found: Option<usize>)
    requires
        lo <= hi <= chars.len(),
    ensures
        match found {
            Some(i) => lo <= i < hi && i - lo == find_last(chars@.subrange(lo as int, hi as int), c),
            None => find_last(chars@.subrange(lo as int, hi as int), c) == -1,
        },
{
    let ghost window = chars@.subrange(lo as int, hi as int);
    let mut i: usize = hi;
    while i > lo
        invariant
            lo <= i <= hi <= chars.len(),
            window == chars@.subrange(lo as int, hi as int),
            forall|j: int| i - lo <= j < window.len() ==> window[j] != c,
        decreases i,
    {
        i -= 1;
        if chars[i] == c {
            proof {
                lemma_find_last(window, c, i - lo);
            }
            return Some(i);
        }
    }
    proof {
        lemma_find_last(window, c, -1);
    }
    None
}

/// Position of the first `c` in `chars[lo..hi]`, or `hi` when there is none.
pub fn first_index_of(chars: &Vec<char>, lo: usize, hi: usize, c: char) -> (i: usize)
    requires
        lo <= hi <= chars.len(),
    ensures
        lo <= i <= hi,
        i - lo == find_first(chars@.subrange(lo as int, hi as int), c),
{
    let ghost window = chars@.subrange(lo as int, hi as int);
    let mut i: usize = lo;
    while i < hi && chars[i] != c
        invariant
            lo <= i <= hi <= chars.len(),
            window == chars@.subrange(lo as int, hi as int),
            forall|j: int| 0 <= j < i - lo ==> window[j] != c,
        decreases hi - i,
    {
        i += 1;
    }
    proof {
        lemma_find_first(window, c, i - lo);
    }
    i
}

/// Whether two character vectors hold the same text.
pub fn same_chars(a: &Vec<char>, b: &Vec<char>) -> (same: bool)
    ensures
        same == (a@ == b@),
{
    if a.len() != b.len() {
        return false;
    }
    let mut i: usize = 0;
    while i < a.len()
        invariant
            i <= a.len(),
            a.len() == b.len(),
            forall|k: int| 0 <= k < i ==> a[k] == b[k],
        decreases a.len() - i,
    {
        if a[i] != b[i] {
            return false;
        }
        i += 1;
    }
    proof {
        assert(a@ =~= b@);
    }
    true
}

/// The place of `name` in `names`.
pub fn find_name(names: &Vec<Vec<char>>, name: &Vec<char>) -> (found: Option<usize>)
    ensures
        match found {
            Some(k) => k < names.len() && names[k as int]@ == name@,
            None => !views(names@).contains(name@),
        },
{
    let mut k: usize = 0;
    while k < names.len()
        invariant
            k <= names.len(),
            forall|m: int| 0 <= m < k ==> (#[trigger] names[m])@ != name@,
        decreases names.len() - k,
    {
        if same_chars(&names[k], name) {
            return Some(k);
        }
        k += 1;
    }
    proof {
        if views(names@).contains(name@) {
            let m = choose|m: int| 0 <= m < views(names@).len() && views(names@)[m] == name@;
            assert(names[m]@ == name@);
        }
    }
    None
}

} // verus!
