//! What a pattern denotes, stated without any search order: which stretches
//! of a text are instances of a node or of a sequence.
use vstd::prelude::*;
use crate::expression::{Node, Quantifier};
use crate::matcher::{Step, Steps, char_matches};

verus! {

/// `c` lies between `a` and `b`, both included: a cut point of a stretch.
pub open spec fn between(a: int, c: int, b: int) -> bool {
    a <= c <= b
}

/// `text[a..b)` is an instance of the node `n`.
pub open spec fn node_spans(text: Seq<char>, n: Node, a: int, b: int) -> bool
    decreases n, 0int,
{
    match n {
        Node::StartAnchor => a == b,
        Node::EndAnchor => a == b,
        Node::Repeat(q, at) => match q {
            Quantifier::ZeroOrMore => star_spans(text, *at, a, b),
            Quantifier::OneOrMore => exists|c: int|
                #![trigger between(a, c, b)]
                between(a, c, b) && node_spans(text, *at, a, c) && star_spans(text, *at, c, b),
        },
        Node::Alternation(bs) => alt_spans(text, bs, a, b),
        _ => b == a + 1 && 0 <= a < text.len() && char_matches(n, text[a]),
    }
}

/// `text[a..b)` is an instance of one of the branches `bs`.
pub open spec fn alt_spans(text: Seq<char>, bs: Seq<Seq<Node>>, a: int, b: int) -> bool
    decreases bs, 0int,
{
    bs.len() > 0 && (seq_spans(text, bs[0], a, b) || alt_spans(text, bs.drop_first(), a, b))
}

/// `text[a..b)` is made of instances of `at`, one after another, none of them empty.
pub open spec fn star_spans(text: Seq<char>, at: Node, a: int, b: int) -> bool
    decreases at, b - a + 1,
{
    a == b || (a < b && exists|c: int|
        #![trigger between(a, c, b)]
        between(a, c, b) && a < c && node_spans(text, at, a, c) && star_spans(text, at, c, b))
}

/// `text[a..b)` is an instance of the elements of `s`, one after another.
pub open spec fn seq_spans(text: Seq<char>, s: Seq<Node>, a: int, b: int) -> bool
    decreases s, 0int,
{
    if s.len() == 0 {
        a == b
    } else {
        exists|c: int|
            #![trigger between(a, c, b)]
            between(a, c, b) && node_spans(text, s[0], a, c) && seq_spans(text, s.drop_first(), c, b)
    }
}

/// `text[a..c)` is an instance of one piece of pending work; a repetition
/// check stands for no characters, at a position past its offset.
pub open spec fn step_spans(text: Seq<char>, s: Step, a: int, c: int) -> bool {
    match s {
        Step::Elem(n) => node_spans(text, n, a, c),
        Step::Run(es) => seq_spans(text, es, a, c),
        Step::Star(at) => star_spans(text, at, a, c),
        Step::Progress(q) => a == c && a > q,
    }
}

/// `text[a..b)` is an instance of all the pending work, one piece after another.
pub open spec fn steps_spans(text: Seq<char>, k: Steps, a: int, b: int) -> bool
    decreases k,
{
    match k {
        Steps::Done => a == b,
        Steps::Then(s, rest) => exists|c: int|
            #![trigger step_spans(text, s, a, c)]
            a <= c <= b && step_spans(text, s, a, c) && steps_spans(text, *rest, c, b),
    }
}

/// The node holds no end anchor, at any depth.
pub open spec fn end_free(n: Node) -> bool
    decreases n,
{
    match n {
        Node::EndAnchor => false,
        Node::Repeat(_, at) => end_free(*at),
        Node::Alternation(bs) => forall|i: int, j: int|
            0 <= i < bs.len() && 0 <= j < bs[i].len() ==> end_free(#[trigger] bs[i][j]),
        _ => true,
    }
}

pub open spec fn seq_end_free(s: Seq<Node>) -> bool {
    forall|i: int| 0 <= i < s.len() ==> end_free(#[trigger] s[i])
}

pub open spec fn steps_end_free(k: Steps) -> bool
    decreases k,
{
    match k {
        Steps::Done => true,
        Steps::Then(s, rest) => (match s {
            Step::Elem(n) => end_free(n),
            Step::Run(es) => seq_end_free(es),
            Step::Star(at) => end_free(at),
            Step::Progress(_) => true,
        }) && steps_end_free(*rest),
    }
}

} // verus!
