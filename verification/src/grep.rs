//! Finding the lines of a text that hold a pattern.

use vstd::prelude::*;
use crate::text::chars_of;

verus! {

/// Whether the pattern stands in the line at a position.
pub open spec fn occurs_at(line: Seq<char>, pattern: Seq<char>, at: int) -> bool {
    0 <= at && at + pattern.len() <= line.len() && line.subrange(at, at + pattern.len())
        == pattern
}

/// Whether the pattern stands somewhere in the line; the empty pattern stands
/// in every line.
pub open spec fn contains(line: Seq<char>, pattern: Seq<char>) -> bool {
    exists|at: int| occurs_at(line, pattern, at)
}

/// A line without the carriage return that may end it.
pub open spec fn strip_return(line: Seq<char>) -> Seq<char> {
    if line.len() > 0 && line.last() == '\r' {
        line.drop_last()
    } else {
        line
    }
}

/// What follows the last line feed of a text: the line that no line feed has
/// ended yet.
pub open spec fn open_line(content: Seq<char>) -> Seq<char>
    decreases content.len(),
{
    if content.len() == 0 {
        Seq::empty()
    } else if content.last() == '\n' {
        Seq::empty()
    } else {
        open_line(content.drop_last()).push(content.last())
    }
}

/// The lines of a text that a line feed ends, each without its line feed and
/// without a carriage return before it.
pub open spec fn closed_lines(content: Seq<char>) -> Seq<Seq<char>>
    decreases content.len(),
{
    if content.len() == 0 {
        Seq::empty()
    } else if content.last() == '\n' {
        closed_lines(content.drop_last()).push(strip_return(open_line(content.drop_last())))
    } else {
        closed_lines(content.drop_last())
    }
}

/// The lines of a text: those that a line feed ends, and what follows the
/// last line feed where anything does.
pub open spec fn text_lines(content: Seq<char>) -> Seq<Seq<char>> {
    if open_line(content).len() > 0 {
        closed_lines(content).push(open_line(content))
    } else {
        closed_lines(content)
    }
}

/// What is printed for one line: the line and a line feed where the line
/// holds the pattern, nothing where it does not.
pub open spec fn printed(line: Seq<char>, pattern: Seq<char>) -> Seq<char> {
    if contains(line, pattern) {
        line.push('\n')
    } else {
        Seq::empty()
    }
}

/// What is printed for a run of lines, in their order.
pub open spec fn printed_lines(lines: Seq<Seq<char>>, pattern: Seq<char>) -> Seq<char>
    decreases lines.len(),
{
    if lines.len() == 0 {
        Seq::empty()
    } else {
        printed_lines(lines.drop_last(), pattern) + printed(lines.last(), pattern)
    }
}

/// Tells whether the pattern stands in the stretch of a text from `from` up to
/// `to`.
pub fn stretch_contains(text: &Vec<char>, from: usize, to: usize, pattern: &Vec<char>) -> (r: bool)
    requires
        from <= to <= text.len(),
    ensures
        r == contains(text@.subrange(from as int, to as int), pattern@),
{
    let ghost line = text@.subrange(from as int, to as int);
    let m: usize = pattern.len();
    if m > to - from {
        return false;
    }
    let last: usize = to - m;
    let mut at: usize = from;
    while at <= last
        invariant
            from <= at <= last + 1,
            last == to - m,
            m == pattern.len(),
            from <= to <= text.len(),
            line == text@.subrange(from as int, to as int),
            forall|a: int| 0 <= a < at - from ==> !occurs_at(line, pattern@, a),
        decreases last + 1 - at,
    {
        let mut j: usize = 0;
        while j < m && text[at + j] == pattern[j]
            invariant
                j <= m,
                m == pattern.len(),
                at + m <= to <= text.len(),
                forall|k: int| 0 <= k < j ==> text@[at + k] == pattern@[k],
            decreases m - j,
        {
            j += 1;
        }
        if j == m {
            proof {
                assert(line.subrange(at - from, at - from + m) =~= pattern@);
                assert(occurs_at(line, pattern@, at - from));
            }
            return true;
        }
        proof {
            assert(line.subrange(at - from, at - from + m)[j as int] == text@[at + j]);
        }
        at += 1;
    }
    proof {
        assert forall|a: int| !occurs_at(line, pattern@, a) by {
            if 0 <= a && a + m <= line.len() {
                assert(a < at - from);
            }
        }
    }
    false
}

/// The lines of a text that hold the pattern, each followed by a line feed, as
/// one text.
pub fn find_matches(content: &str, pattern: &str) -> (r: String)
    ensures
        r@ == printed_lines(text_lines(content@), pattern@),
{
    let text: Vec<char> = chars_of(content);
    let wanted: Vec<char> = chars_of(pattern);
    let n: usize = text.len();
    let mut out: String = String::new();
    let mut start: usize = 0;
    let mut i: usize = 0;
    proof {
        reveal_strlit("\n");
        assert(text@.subrange(0, 0) =~= Seq::<char>::empty());
        assert("\n"@ =~= seq!['\n']);
    }
    while i < n
        invariant
            n == text@.len(),
            text@ == content@,
            wanted@ == pattern@,
            start <= i <= n,
            "\n"@ == seq!['\n'],
            open_line(text@.take(i as int)) == text@.subrange(start as int, i as int),
            out@ == printed_lines(closed_lines(text@.take(i as int)), pattern@),
        decreases n - i,
    {
        proof {
            assert(text@.take(i + 1).drop_last() =~= text@.take(i as int));
            assert(text@.take(i + 1).last() == text@[i as int]);
        }
        if text[i] == '\n' {
            let end: usize = if start < i && text[i - 1] == '\r' {
                i - 1
            } else {
                i
            };
            let ghost line = text@.subrange(start as int, end as int);
            let ghost lines = closed_lines(text@.take(i as int));
            proof {
                assert(line =~= strip_return(text@.subrange(start as int, i as int)));
                assert(lines.push(line).drop_last() =~= lines);
            }
            if stretch_contains(&text, start, end, &wanted) {
                out.append(content.substring_char(start, end));
                out.append("\n");
                proof {
                    assert(out@ =~= printed_lines(lines, pattern@) + line.push('\n'));
                }
            } else {
                proof {
                    assert(out@ =~= printed_lines(lines, pattern@) + Seq::<char>::empty());
                }
            }
            start = i + 1;
            proof {
                assert(text@.subrange(start as int, i + 1) =~= Seq::<char>::empty());
            }
        } else {
            proof {
                assert(text@.subrange(start as int, i + 1) =~= text@.subrange(
                    start as int,
                    i as int,
                ).push(text@[i as int]));
            }
        }
        i += 1;
    }
    proof {
        assert(text@.take(n as int) =~= text@);
    }
    if start < n {
        let ghost line = text@.subrange(start as int, n as int);
        let ghost lines = closed_lines(text@);
        proof {
            assert(lines.push(line).drop_last() =~= lines);
        }
        if stretch_contains(&text, start, n, &wanted) {
            out.append(content.substring_char(start, n));
            out.append("\n");
            proof {
                assert(out@ =~= printed_lines(lines, pattern@) + line.push('\n'));
            }
        } else {
            proof {
                assert(out@ =~= printed_lines(lines, pattern@) + Seq::<char>::empty());
            }
        }
    }
    out
}

} // verus!
