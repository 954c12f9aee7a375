//! The characters of a string, and counting words in lines of text.

use vstd::prelude::*;
use vstd::std_specs::iter::IteratorSpec;

verus! {

broadcast use vstd::string::group_string_axioms;

/// The characters of a string, one by one.
pub fn chars_of(s: &str) -> (r: Vec<char>)
    ensures
        r@ == s@,
{
    let mut chars: Vec<char> = Vec::new();
    let mut it = s.chars();
    loop
        invariant
            chars@.len() <= s@.len(),
            chars@ == s@.take(chars@.len() as int),
            it.remaining() == s@.skip(chars@.len() as int),
        decreases s@.len() - chars@.len(),
    {
        let ghost before = chars@;
        match it.next() {
            Some(c) => {
                chars.push(c);
                proof {
                    assert(s@.skip(before.len() as int).drop_first() =~= s@.skip(
                        before.len() as int + 1,
                    ));
                    assert(s@.take(before.len() as int + 1) =~= before.push(c));
                }
            },
            None => {
                proof {
                    assert(s@.take(s@.len() as int) =~= s@);
                }
                return chars;
            },
        }
    }
}

/// The number of blanks in a text.
pub open spec fn blank_count(s: Seq<char>) -> nat
    decreases s.len(),
{
    if s.len() == 0 {
        0
    } else if s.last() == ' ' {
        blank_count(s.drop_last()) + 1
    } else {
        blank_count(s.drop_last())
    }
}

/// The number of words in a line: the pieces that its blanks part it into,
/// empty pieces counted too, so one more than it has blanks.
pub open spec fn word_count(line: Seq<char>) -> nat {
    blank_count(line) + 1
}

/// The words of the first `n` lines together.
pub open spec fn word_total(lines: Seq<String>, n: int) -> nat
    decreases n,
{
    if n <= 0 {
        0
    } else {
        word_total(lines, n - 1) + word_count(lines[n - 1]@)
    }
}

/// The total grows with every line.
pub proof fn lemma_word_total_grows(lines: Seq<String>, m: int, n: int)
    requires
        0 <= m <= n,
    ensures
        word_total(lines, m) <= word_total(lines, n),
    decreases n - m,
{
    if m < n {
        lemma_word_total_grows(lines, m, n - 1);
    }
}

/// Counts the blanks of a line.
pub fn count_blanks(line: &str) -> (r: usize)
    ensures
        r == blank_count(line@),
{
    let chars: Vec<char> = chars_of(line);
    let n: usize = chars.len();
    let mut count: usize = 0;
    let mut i: usize = 0;
    while i < n
        invariant
            n == line@.len(),
            chars@ == line@,
            i <= n,
            count == blank_count(line@.take(i as int)),
            count <= i,
        decreases n - i,
    {
        let c: char = chars[i];
        proof {
            assert(line@.take(i + 1).drop_last() =~= line@.take(i as int));
            assert(line@.take(i + 1).last() == c);
        }
        if c == ' ' {
            count += 1;
        }
        i += 1;
    }
    proof {
        assert(line@.take(n as int) =~= line@);
    }
    count
}

/// Counts the words in the lines that were read.
pub fn words_in_buf_reader(lines: &Vec<String>) -> (r: usize)
    requires
        word_total(lines@, lines@.len() as int) <= usize::MAX,
    ensures
        r == word_total(lines@, lines@.len() as int),
{
    let mut total: usize = 0;
    let mut i: usize = 0;
    while i < lines.len()
        invariant
            i <= lines.len(),
            total == word_total(lines@, i as int),
            word_total(lines@, lines@.len() as int) <= usize::MAX,
        decreases lines.len() - i,
    {
        let blanks: usize = count_blanks(lines[i].as_str());
        proof {
            lemma_word_total_grows(lines@, i + 1, lines@.len() as int);
        }
        total = total + blanks + 1;
        i += 1;
    }
    total
}

} // verus!
