//! The scanner: the leftmost match of a compiled pattern in a line.
use vstd::prelude::*;
use crate::expression::{Expression, Node, seq_view, lemma_seq_view};
use crate::matcher::{match_from, offsets_view, match_pattern_from};
use crate::compiler::chars_of;

verus! {

/// Whether a sequence starts with a start anchor, which pins its matches to offset 0.
pub open spec fn anchored(p: Seq<Node>) -> bool {
    p.len() > 0 && p[0] == Node::StartAnchor
}

/// The first match of `p` in `line` that starts at offset `i` or later.
pub open spec fn first_match_from(line: Seq<char>, p: Seq<Node>, i: int) -> Option<Seq<int>>
    decreases line.len() - i,
{
    if i >= line.len() {
        None
    } else {
        match match_from(line, p, i) {
            Some(o) => Some(o),
            None => first_match_from(line, p, i + 1),
        }
    }
}

/// The match of `p` in `line`: at offset 0 only for an anchored sequence,
/// else the leftmost start offset at which it matches.
pub open spec fn find_match(line: Seq<char>, p: Seq<Node>) -> Option<Seq<int>> {
    if anchored(p) {
        match_from(line, p, 0)
    } else {
        first_match_from(line, p, 0)
    }
}

fn is_anchored(pattern: &Vec<Expression>) -> (r: bool)
    ensures
        r == anchored(seq_view(pattern@)),
{
    proof {
        lemma_seq_view(pattern@);
    }
    pattern.len() > 0 && matches!(pattern[0], Expression::StartAnchor)
}

/// The offsets of the characters of `input_line` that `pattern` matches, or
/// `None` when the line holds no match.
pub fn match_pattern(input_line: &str, pattern: &Vec<Expression>) -> (r: Option<Vec<usize>>)
    ensures
        offsets_view(r) == find_match(input_line@, seq_view(pattern@)),
{
    let line = chars_of(input_line);
    if is_anchored(pattern) {
        return match_pattern_from(&line, pattern, 0);
    }
    let mut i: usize = 0;
    while i < line.len()
        invariant
            i <= line.len(),
            line@ == input_line@,
            !anchored(seq_view(pattern@)),
            find_match(line@, seq_view(pattern@)) == first_match_from(
                line@,
                seq_view(pattern@),
                i as int,
            ),
        decreases line.len() - i,
    {
        match match_pattern_from(&line, pattern, i) {
            Some(r) => {
                return Some(r);
            },
            None => {},
        }
        i += 1;
    }
    None
}

/// Whether `input_line` holds a match of `pattern`.
pub fn is_match(input_line: &str, pattern: &Vec<Expression>) -> (r: bool)
    ensures
        r == find_match(input_line@, seq_view(pattern@)) is Some,
{
    match match_pattern(input_line, pattern) {
        Some(_) => true,
        None => false,
    }
}

/// For each character of `line`, whether its offset is among `offsets`: the
/// characters to emphasise when the line is shown.
pub fn highlight_marks(line: &str, offsets: &Vec<usize>) -> (r: Vec<bool>)
    ensures
        r@.len() == line@.len(),
        forall|i: int| 0 <= i < r@.len() ==> #[trigger] r@[i] == offsets@.contains(i as usize),
{
    let chars = chars_of(line);
    let mut r: Vec<bool> = Vec::new();
    let mut i: usize = 0;
    while i < chars.len()
        invariant
            i <= chars.len(),
            chars@ == line@,
            r@.len() == i,
            forall|j: int| 0 <= j < i ==> #[trigger] r@[j] == offsets@.contains(j as usize),
        decreases chars.len() - i,
    {
        let mut found = false;
        let mut j: usize = 0;
        while j < offsets.len()
            invariant
                j <= offsets.len(),
                found == exists|m: int| 0 <= m < j && offsets@[m] == i,
            decreases offsets.len() - j,
        {
            if offsets[j] == i {
                found = true;
            }
            j += 1;
        }
        r.push(found);
        i += 1;
    }
    r
}

} // verus!
