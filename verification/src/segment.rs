//! Splitting a textual path into segments, and reading a segment as an index.

use vstd::prelude::*;
use crate::text::chars_of;

verus! {

/// The two characters that part one segment of a path from the next.
pub open spec fn is_separator(c: char) -> bool {
    c == '/' || c == '.'
}

/// The segments of a textual path, in order.
///
/// Every separator ends one segment and starts the next, so a path with `n`
/// separators has `n + 1` segments and the empty path has one, empty, segment.
pub open spec fn split_path(path: Seq<char>) -> Seq<Seq<char>>
    decreases path.len(),
{
    if path.len() == 0 {
        seq![Seq::empty()]
    } else {
        let head = split_path(path.drop_last());
        if is_separator(path.last()) {
            head.push(Seq::empty())
        } else {
            head.update(head.len() - 1, head.last().push(path.last()))
        }
    }
}

/// The number of separators in a path.
pub open spec fn separator_count(path: Seq<char>) -> nat
    decreases path.len(),
{
    if path.len() == 0 {
        0
    } else if is_separator(path.last()) {
        separator_count(path.drop_last()) + 1
    } else {
        separator_count(path.drop_last())
    }
}

/// The text of each string of a sequence.
pub open spec fn string_views(strings: Seq<String>) -> Seq<Seq<char>> {
    Seq::new(strings.len(), |i: int| strings[i]@)
}

/// A path has one segment more than it has separators, and no segment holds a
/// separator.
pub proof fn lemma_split_path_shape(path: Seq<char>)
    ensures
        split_path(path).len() == separator_count(path) + 1,
        forall|i: int, j: int|
            0 <= i < split_path(path).len() && 0 <= j < split_path(path)[i].len()
                ==> !is_separator(#[trigger] split_path(path)[i][j]),
    decreases path.len(),
{
    if path.len() > 0 {
        lemma_split_path_shape(path.drop_last());
    }
}

/// A path without separators is its own single segment.
pub proof fn lemma_split_plain(path: Seq<char>)
    requires
        forall|i: int| 0 <= i < path.len() ==> !is_separator(#[trigger] path[i]),
    ensures
        split_path(path) == seq![path],
    decreases path.len(),
{
    if path.len() > 0 {
        lemma_split_plain(path.drop_last());
        assert(path.drop_last().push(path.last()) =~= path);
        assert(split_path(path) =~= seq![path]);
    } else {
        assert(path =~= Seq::empty());
    }
}

/// The ordered segments of a path.
pub struct PathSegment {
    pub paths: Vec<String>,
}

impl View for PathSegment {
    type V = Seq<Seq<char>>;

    open spec fn view(&self) -> Seq<Seq<char>> {
        string_views(self.paths@)
    }
}

/// Splits a path at every `/` and `.`, keeping empty segments.
pub fn build_path(path: &str) -> (r: PathSegment)
    ensures
        r@ == split_path(path@),
{
    let chars: Vec<char> = chars_of(path);
    let n: usize = chars.len();
    let mut paths: Vec<String> = Vec::new();
    let mut start: usize = 0;
    let mut i: usize = 0;
    proof {
        assert(path@.take(0).len() == 0);
        assert(path@.subrange(0, 0) =~= Seq::<char>::empty());
        assert(string_views(paths@).push(path@.subrange(0, 0)) =~= seq![Seq::<char>::empty()]);
    }
    while i < n
        invariant
            n == path@.len(),
            chars@ == path@,
            start <= i <= n,
            string_views(paths@).push(path@.subrange(start as int, i as int)) == split_path(
                path@.take(i as int),
            ),
        decreases n - i,
    {
        let c: char = chars[i];
        let ghost head = split_path(path@.take(i as int));
        proof {
            assert(path@.take(i + 1).drop_last() =~= path@.take(i as int));
            assert(path@.take(i + 1).last() == c);
        }
        if c == '/' || c == '.' {
            let piece: String = path.substring_char(start, i).to_owned();
            let ghost before = paths@;
            paths.push(piece);
            start = i + 1;
            proof {
                assert(string_views(paths@) =~= string_views(before).push(piece@));
                assert(path@.subrange(start as int, i + 1) =~= Seq::<char>::empty());
            }
        } else {
            proof {
                assert(path@.subrange(start as int, i + 1) =~= path@.subrange(
                    start as int,
                    i as int,
                ).push(c));
                assert(head.update(head.len() - 1, head.last().push(c)) =~= string_views(
                    paths@,
                ).push(path@.subrange(start as int, i + 1)));
            }
        }
        i += 1;
    }
    let piece: String = path.substring_char(start, n).to_owned();
    let ghost before = paths@;
    paths.push(piece);
    proof {
        assert(path@.take(n as int) =~= path@);
        assert(string_views(paths@) =~= string_views(before).push(piece@));
    }
    PathSegment { paths }
}

/// Whether a character is one of the ten decimal digits.
pub open spec fn is_digit(c: char) -> bool {
    '0' <= c <= '9'
}

/// Whether every character of a text is a decimal digit (true of the empty text).
pub open spec fn all_digits(s: Seq<char>) -> bool {
    forall|i: int| 0 <= i < s.len() ==> is_digit(#[trigger] s[i])
}

/// The number that a text of decimal digits writes.
pub open spec fn digits_value(s: Seq<char>) -> nat
    decreases s.len(),
{
    if s.len() == 0 {
        0
    } else {
        digits_value(s.drop_last()) * 10 + ((s.last() as u32 - '0' as u32) as nat)
    }
}

/// Whether a segment addresses an array element: it is not empty and all digits.
pub open spec fn is_index_segment(s: Seq<char>) -> bool {
    s.len() > 0 && all_digits(s)
}

/// Tells whether a string is made of decimal digits only.
pub fn is_string_numeric(s: &str) -> (r: bool)
    ensures
        r == all_digits(s@),
{
    let chars: Vec<char> = chars_of(s);
    let n: usize = chars.len();
    let mut i: usize = 0;
    while i < n
        invariant
            n == s@.len(),
            chars@ == s@,
            i <= n,
            all_digits(s@.take(i as int)),
        decreases n - i,
    {
        let c: char = chars[i];
        if !('0' <= c && c <= '9') {
            return false;
        }
        proof {
            assert forall|k: int| 0 <= k < i + 1 implies is_digit(#[trigger] s@.take(i + 1)[k]) by {
                if k < i {
                    assert(s@.take(i as int)[k] == s@[k]);
                }
            }
        }
        i += 1;
    }
    proof {
        assert(s@.take(n as int) =~= s@);
    }
    true
}

/// A text of digits writes at least what any of its prefixes writes.
pub proof fn lemma_digits_value_prefix(s: Seq<char>, k: int)
    requires
        0 <= k <= s.len(),
    ensures
        digits_value(s.take(k)) <= digits_value(s),
    decreases s.len() - k,
{
    if k == s.len() {
        assert(s.take(k) =~= s);
    } else {
        lemma_digits_value_prefix(s, k + 1);
        assert(s.take(k + 1).drop_last() =~= s.take(k));
    }
}

/// Reads a string of decimal digits as an index.
///
/// The answer is `None` where a character is no digit, and where the number
/// written is beyond the largest index the machine has.
pub fn parse_index(s: &str) -> (r: Option<usize>)
    ensures
        r is Some <==> all_digits(s@) && digits_value(s@) <= usize::MAX,
        r is Some ==> r->0 == digits_value(s@),
{
    let chars: Vec<char> = chars_of(s);
    let n: usize = chars.len();
    let mut acc: usize = 0;
    let mut i: usize = 0;
    while i < n
        invariant
            n == s@.len(),
            chars@ == s@,
            i <= n,
            all_digits(s@.take(i as int)),
            acc == digits_value(s@.take(i as int)),
        decreases n - i,
    {
        let c: char = chars[i];
        if !('0' <= c && c <= '9') {
            return None;
        }
        let d: usize = (c as u32 - '0' as u32) as usize;
        proof {
            assert(s@.take(i + 1).drop_last() =~= s@.take(i as int));
            assert(s@.take(i + 1).last() == c);
            assert forall|k: int| 0 <= k < i + 1 implies is_digit(#[trigger] s@.take(i + 1)[k]) by {
                if k < i {
                    assert(s@.take(i as int)[k] == s@[k]);
                }
            }
        }
        if acc > (usize::MAX - d) / 10 {
            proof {
                lemma_digits_value_prefix(s@, i + 1);
            }
            return None;
        }
        acc = acc * 10 + d;
        i += 1;
    }
    proof {
        assert(s@.take(n as int) =~= s@);
    }
    Some(acc)
}

} // verus!
