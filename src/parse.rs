//! Tokenizing configuration files: skipping whitespace and `#` comments.

use vstd::prelude::*;

verus! {

/// How far whitespace and comments are skipped.
#[derive(Clone, Copy, Debug, PartialEq, Eq, Structural)]
pub enum ConsumeTo {
    /// Across lines, up to the next token.
    NextToken,
    /// Up to the end of the current line, taking its newline too.
    EndOfLine,
}

/// ASCII whitespace: space, tab, line feed, form feed and carriage return.
pub open spec fn is_space(c: u8) -> bool {
    c == 32 || c == 9 || c == 10 || c == 12 || c == 13
}

/// Whitespace that may be skipped in mode `to`.
pub open spec fn skippable(c: u8, to: ConsumeTo) -> bool {
    is_space(c) && (to == ConsumeTo::NextToken || c != 10)
}

/// Where the line that holds position `p` ends: the next newline, or the end of input.
pub open spec fn line_end(s: Seq<u8>, p: int) -> int
    decreases s.len() - p,
{
    if p < 0 || p >= s.len() || s[p] == 10 {
        p
    } else {
        line_end(s, p + 1)
    }
}

/// Where the run of skippable whitespace that starts at `p` ends.
pub open spec fn space_end(s: Seq<u8>, p: int, to: ConsumeTo) -> int
    decreases s.len() - p,
{
    if p < 0 || p >= s.len() || !skippable(s[p], to) {
        p
    } else {
        space_end(s, p + 1, to)
    }
}

/// Where a comment that starts at `p` ends (at `p` itself when none starts there).
pub open spec fn comment_end(s: Seq<u8>, p: int) -> int {
    if 0 <= p < s.len() && s[p] == 35 {
        line_end(s, p)
    } else {
        p
    }
}

/// One round of skipping: a comment, then whitespace.
pub open spec fn skip_round(s: Seq<u8>, p: int, to: ConsumeTo) -> int {
    space_end(s, comment_end(s, p), to)
}

/// Where skipping from `p` stops: rounds are repeated until one skips nothing; in
/// mode `EndOfLine` a newline found there is taken as well.
pub open spec fn skip_end(s: Seq<u8>, p: int, to: ConsumeTo) -> int
    decreases s.len() - p,
{
    if 0 <= p && skip_round(s, p, to) > p && skip_round(s, p, to) <= s.len() {
        skip_end(s, skip_round(s, p, to), to)
    } else if to == ConsumeTo::EndOfLine && 0 <= p < s.len() && s[p] == 10 {
        p + 1
    } else {
        p
    }
}

proof fn lemma_line_end(s: Seq<u8>, p: int)
    requires
        0 <= p <= s.len(),
    ensures
        p <= line_end(s, p) <= s.len(),
    decreases s.len() - p,
{
    if p < s.len() && s[p] != 10 {
        lemma_line_end(s, p + 1);
    }
}

proof fn lemma_space_end(s: Seq<u8>, p: int, to: ConsumeTo)
    requires
        0 <= p <= s.len(),
    ensures
        p <= space_end(s, p, to) <= s.len(),
    decreases s.len() - p,
{
    if p < s.len() && skippable(s[p], to) {
        lemma_space_end(s, p + 1, to);
    }
}

fn find_line_end(s: &[u8], p: usize) -> (r: usize)
    requires
        p <= s@.len(),
    ensures
        r == line_end(s@, p as int),
{
    let mut q = p;
    while q < s.len() && s[q] != 10
        invariant
            p <= q <= s@.len(),
            line_end(s@, q as int) == line_end(s@, p as int),
        decreases s@.len() - q,
    {
        q = q + 1;
    }
    q
}

fn find_space_end(s: &[u8], p: usize, to: ConsumeTo) -> (r: usize)
    requires
        p <= s@.len(),
    ensures
        r == space_end(s@, p as int, to),
{
    let mut q = p;
    while q < s.len() && is_skippable(s[q], to)
        invariant
            p <= q <= s@.len(),
            space_end(s@, q as int, to) == space_end(s@, p as int, to),
        decreases s@.len() - q,
    {
        q = q + 1;
    }
    q
}

fn is_skippable(c: u8, to: ConsumeTo) -> (r: bool)
    ensures
        r == skippable(c, to),
{
    let space = c == 32 || c == 9 || c == 10 || c == 12 || c == 13;
    match to {
        ConsumeTo::NextToken => space,
        ConsumeTo::EndOfLine => space && c != 10,
    }
}

/// Skips whitespace and comments at the start of `input`, as far as `to_where` says,
/// and returns what was skipped, or `None` when nothing was.
pub fn skip_whitespace_or_comment(input: &[u8], to_where: ConsumeTo) -> (r: Option<&[u8]>)
    ensures
        skip_end(input@, 0, to_where) == 0 ==> r is None,
        skip_end(input@, 0, to_where) > 0 ==> (r matches Some(span) && span@ == input@.subrange(
            0,
            skip_end(input@, 0, to_where),
        )),
{
    let mut p: usize = 0;
    loop
        invariant_except_break
            p <= input@.len(),
            skip_end(input@, p as int, to_where) == skip_end(input@, 0, to_where),
        ensures
            p <= input@.len(),
            p == skip_end(input@, 0, to_where),
        decreases input@.len() - p,
    {
        let c = if p < input.len() && input[p] == 35 {
            find_line_end(input, p)
        } else {
            p
        };
        proof {
            lemma_line_end(input@, p as int);
        }
        let q = find_space_end(input, c, to_where);
        proof {
            lemma_space_end(input@, c as int, to_where);
        }
        assert(q == skip_round(input@, p as int, to_where));
        if q == p {
            if to_where == ConsumeTo::EndOfLine && p < input.len() && input[p] == 10 {
                p = p + 1;
            }
            break;
        }
        p = q;
    }
    if p == 0 {
        None
    } else {
        let (span, _) = input.split_at(p);
        assert(span@ =~= input@.subrange(0, p as int));
        Some(span)
    }
}

} // verus!
