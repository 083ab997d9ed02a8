//! Stack frames and classified trace lines.

use vstd::prelude::*;
use vstd::string::StrSliceExecFns;

verus! {

/// The position of the first line feed at or after `from`, or the length
/// of `s` where there is none.
pub open spec fn find_newline(s: Seq<char>, from: int) -> int
    decreases s.len() - from,
{
    if from >= s.len() {
        s.len() as int
    } else if s[from] == '\n' {
        from
    } else {
        find_newline(s, from + 1)
    }
}

proof fn lemma_find_newline_bounds(s: Seq<char>, from: int)
    requires
        0 <= from <= s.len(),
    ensures
        from <= find_newline(s, from) <= s.len(),
    decreases s.len() - from,
{
    if from < s.len() && s[from] != '\n' {
        lemma_find_newline_bounds(s, from + 1);
    }
}

proof fn lemma_find_newline_at(s: Seq<char>, from: int, p: int)
    requires
        0 <= from <= p <= s.len(),
        forall|t: int| from <= t < p ==> s[t] != '\n',
        p == s.len() || s[p] == '\n',
    ensures
        find_newline(s, from) == p,
    decreases p - from,
{
    if from < p {
        lemma_find_newline_at(s, from + 1, p);
    }
}

/// A line segment with a trailing carriage return stripped, so that a
/// `\r\n` line ending reads like a bare `\n`.
pub open spec fn strip_cr(t: Seq<char>) -> Seq<char> {
    if t.len() > 0 && t.last() == '\r' {
        t.drop_last()
    } else {
        t
    }
}

/// The line segments of `s` from position `from` on: split at every line
/// feed, a carriage return directly before a line feed stripped, a final
/// segment without terminator kept, and no empty segment after a final
/// terminator.
pub open spec fn split_lines_from(s: Seq<char>, from: int) -> Seq<Seq<char>>
    decreases s.len() - from,
    via split_lines_from_dec
{
    if from < 0 || from >= s.len() {
        Seq::empty()
    } else {
        let j = find_newline(s, from);
        if j == s.len() {
            seq![s.subrange(from, s.len() as int)]
        } else {
            seq![strip_cr(s.subrange(from, j))] + split_lines_from(s, j + 1)
        }
    }
}

#[via_fn]
proof fn split_lines_from_dec(s: Seq<char>, from: int) {
    if 0 <= from < s.len() {
        lemma_find_newline_bounds(s, from);
    }
}

/// The lines of a trace, as the rewriter frames them.
pub open spec fn split_lines_spec(s: Seq<char>) -> Seq<Seq<char>> {
    split_lines_from(s, 0)
}

/// Splits a raw trace into its lines, for the caller to classify one by
/// one: split at every line feed, a carriage return directly before a
/// line feed stripped, and a final line without terminator kept.
pub fn split_lines(input: &str) -> (lines: Vec<String>)
    ensures
        lines.deep_view() == split_lines_spec(input@),
{
    let mut lines: Vec<String> = Vec::new();
    let n = input.unicode_len();
    let mut start: usize = 0;
    while start < n
        invariant
            0 <= start <= n,
            n == input@.len(),
            split_lines_spec(input@) == lines.deep_view() + split_lines_from(
                input@,
                start as int,
            ),
        decreases n - start,
    {
        let ghost pre = lines.deep_view();
        let mut p: usize = start;
        while p < n && input.get_char(p) != '\n'
            invariant
                start <= p <= n,
                n == input@.len(),
                forall|t: int| start <= t < p ==> input@[t] != '\n',
            decreases n - p,
        {
            p = p + 1;
        }
        proof {
            lemma_find_newline_at(input@, start as int, p as int);
        }
        if p == n {
            let line = input.substring_char(start, n).to_owned();
            lines.push(line);
            proof {
                assert(lines.deep_view() =~= pre.push(line@));
                assert(split_lines_from(input@, start as int) =~= seq![line@]);
                assert(pre + seq![line@] =~= pre.push(line@));
                assert(split_lines_from(input@, n as int) =~= Seq::<Seq<char>>::empty());
                assert(pre.push(line@) + Seq::<Seq<char>>::empty() =~= pre.push(line@));
            }
            start = n;
        } else {
            let end: usize = if p > start && input.get_char(p - 1) == '\r' {
                p - 1
            } else {
                p
            };
            let line = input.substring_char(start, end).to_owned();
            lines.push(line);
            proof {
                assert(line@ =~= strip_cr(input@.subrange(start as int, p as int)));
                assert(lines.deep_view() =~= pre.push(line@));
                assert(pre + (seq![line@] + split_lines_from(input@, p as int + 1)) =~= pre.push(
                    line@,
                ) + split_lines_from(input@, p as int + 1));
            }
            start = p + 1;
        }
    }
    proof {
        assert(split_lines_from(input@, start as int) =~= Seq::<Seq<char>>::empty());
        assert(lines.deep_view() + Seq::<Seq<char>>::empty() =~= lines.deep_view());
    }
    lines
}

/// One stack frame: a fully-qualified class name, a method name, an
/// optional source-file hint and a 1-based line number.  The same type
/// serves as query (an obfuscated frame) and as answer (an original one).
#[derive(Clone, Debug, PartialEq, Eq)]
pub struct StackFrame {
    pub class: String,
    pub method: String,
    pub file: Option<String>,
    pub line: usize,
}

/// One line of a stack trace, classified by the caller's frame parser:
/// either raw text the parser rejected, or the raw text together with the
/// frame recognized in it.  The raw text is kept so a line whose frame the
/// index does not know can pass through verbatim.
#[derive(Clone, Debug, PartialEq, Eq)]
pub enum TraceLine {
    Raw(String),
    Frame(String, StackFrame),
}

} // verus!
