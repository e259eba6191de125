//! Properties of the matcher and the scanner, proved over their models.
use vstd::prelude::*;
use crate::expression::{Node, Quantifier, size, lemma_branches_size};
use crate::matcher::{Step, Steps, run, element, branches, cost, match_from};
use crate::scanner::{anchored, find_match, first_match_from};
use crate::language::{
    alt_spans, between, node_spans, star_spans, seq_spans, step_spans, steps_spans, end_free, seq_end_free,
    steps_end_free,
};

verus! {

/// `o` is the run of consecutive offsets that begins at `start`.
pub open spec fn consecutive_from(o: Seq<int>, start: int) -> bool {
    forall|i: int| 0 <= i < o.len() ==> #[trigger] o[i] == start + i
}

/// `o` is strictly increasing and every offset in it is below `len`.
pub open spec fn increasing_within(o: Seq<int>, len: int) -> bool {
    &&& forall|i: int, j: int| 0 <= i < j < o.len() ==> o[i] < o[j]
    &&& forall|i: int| 0 <= i < o.len() ==> 0 <= #[trigger] o[i] < len
}

proof fn lemma_prepend_consecutive(pos: int, o: Seq<int>)
    requires
        consecutive_from(o, pos + 1),
    ensures
        consecutive_from(seq![pos] + o, pos),
{
    let r = seq![pos] + o;
    assert forall|i: int| 0 <= i < r.len() implies #[trigger] r[i] == pos + i by {
        if i > 0 {
            assert(r[i] == o[i - 1]);
        }
    }
}

/// Whatever succeeds from `pos` consumes the characters from `pos` on, one
/// after another, and none past the end of the text.
pub proof fn lemma_run_consecutive(text: Seq<char>, pos: int, k: Steps)
    requires
        0 <= pos <= text.len(),
    ensures
        run(text, pos, k) matches Some(o) ==> consecutive_from(o, pos) && pos + o.len()
            <= text.len(),
    decreases text.len() - pos, cost(k, pos), 1int,
{
    reveal_with_fuel(cost, 3);
    match k {
        Steps::Done => {},
        Steps::Then(s, rest) => match s {
            Step::Progress(q) => {
                if pos > q {
                    lemma_run_consecutive(text, pos, *rest);
                }
            },
            Step::Elem(n) => lemma_element_consecutive(text, pos, n, *rest),
            Step::Run(es) => {
                if es.len() == 0 {
                    lemma_run_consecutive(text, pos, *rest);
                } else {
                    lemma_element_consecutive(
                        text,
                        pos,
                        es[0],
                        Steps::Then(Step::Run(es.drop_first()), rest),
                    );
                }
            },
            Step::Star(a) => {
                let again = Steps::Then(
                    Step::Elem(a),
                    Box::new(Steps::Then(Step::Progress(pos), Box::new(k))),
                );
                lemma_run_consecutive(text, pos, again);
                lemma_run_consecutive(text, pos, *rest);
            },
        },
    }
}

pub proof fn lemma_element_consecutive(text: Seq<char>, pos: int, n: Node, tail: Steps)
    requires
        0 <= pos <= text.len(),
    ensures
        element(text, pos, n, tail) matches Some(o) ==> consecutive_from(o, pos) && pos + o.len()
            <= text.len(),
    decreases text.len() - pos, size(n) + cost(tail, pos), 0int,
{
    reveal_with_fuel(cost, 3);
    match n {
        Node::StartAnchor => lemma_run_consecutive(text, pos, tail),
        Node::EndAnchor => {},
        Node::Repeat(q, a) => match q {
            Quantifier::ZeroOrMore => lemma_run_consecutive(
                text,
                pos,
                Steps::Then(Step::Star(*a), Box::new(tail)),
            ),
            Quantifier::OneOrMore => lemma_run_consecutive(
                text,
                pos,
                Steps::Then(Step::Elem(*a), Box::new(Steps::Then(Step::Star(*a), Box::new(tail)))),
            ),
        },
        Node::Alternation(bs) => lemma_branches_consecutive(text, pos, bs, tail),
        _ => {
            if 0 <= pos < text.len() {
                lemma_run_consecutive(text, pos + 1, tail);
                if let Some(o) = run(text, pos + 1, tail) {
                    lemma_prepend_consecutive(pos, o);
                }
            }
        },
    }
}

pub proof fn lemma_branches_consecutive(text: Seq<char>, pos: int, bs: Seq<Seq<Node>>, tail: Steps)
    requires
        0 <= pos <= text.len(),
    ensures
        branches(text, pos, bs, tail) matches Some(o) ==> consecutive_from(o, pos) && pos
            + o.len() <= text.len(),
    decreases text.len() - pos, crate::expression::branches_size(bs) + cost(tail, pos), 0int,
{
    if bs.len() > 0 {
        lemma_branches_size(bs, 0);
        lemma_run_consecutive(text, pos, Steps::Then(Step::Run(bs[0]), Box::new(tail)));
        lemma_branches_consecutive(text, pos, bs.drop_first(), tail);
    }
}

proof fn lemma_first_match_consecutive(line: Seq<char>, p: Seq<Node>, i: int)
    requires
        0 <= i,
    ensures
        first_match_from(line, p, i) matches Some(o) ==> exists|s: int|
            #![trigger consecutive_from(o, s)]
            i <= s < line.len() && consecutive_from(o, s) && s + o.len() <= line.len(),
    decreases line.len() - i,
{
    if i < line.len() {
        lemma_run_consecutive(line, i, Steps::Then(Step::Run(p), Box::new(Steps::Done)));
        lemma_first_match_consecutive(line, p, i + 1);
        if let Some(o) = match_from(line, p, i) {
            assert(consecutive_from(o, i));
        }
    }
}

/// Every match found in a line is a strictly increasing list of offsets, each
/// within the line.
pub proof fn law_offsets_increasing_within_line(line: Seq<char>, p: Seq<Node>)
    ensures
        find_match(line, p) matches Some(o) ==> increasing_within(o, line.len() as int),
{
    if anchored(p) {
        lemma_run_consecutive(line, 0, Steps::Then(Step::Run(p), Box::new(Steps::Done)));
    } else {
        lemma_first_match_consecutive(line, p, 0);
    }
}

/// A match of a sequence that begins with a start anchor begins at offset 0.
pub proof fn law_anchored_match_starts_at_zero(line: Seq<char>, p: Seq<Node>)
    requires
        anchored(p),
    ensures
        find_match(line, p) matches Some(o) ==> consecutive_from(o, 0),
{
    lemma_run_consecutive(line, 0, Steps::Then(Step::Run(p), Box::new(Steps::Done)));
}

/// The last piece of pending work is an end anchor, alone or as the last
/// element of a sequence.
pub open spec fn ends_at_end_anchor(k: Steps) -> bool
    decreases k,
{
    match k {
        Steps::Done => false,
        Steps::Then(s, rest) => match *rest {
            Steps::Done => match s {
                Step::Elem(n) => n == Node::EndAnchor,
                Step::Run(es) => es.len() > 0 && es.last() == Node::EndAnchor,
                _ => false,
            },
            _ => ends_at_end_anchor(*rest),
        },
    }
}

/// Work that ends with an end anchor only succeeds by consuming the text up
/// to its end.
pub proof fn lemma_run_reaches_end(text: Seq<char>, pos: int, k: Steps)
    requires
        0 <= pos <= text.len(),
        ends_at_end_anchor(k),
    ensures
        run(text, pos, k) matches Some(o) ==> pos + o.len() == text.len(),
    decreases text.len() - pos, cost(k, pos), 1int,
{
    reveal_with_fuel(cost, 3);
    reveal_with_fuel(ends_at_end_anchor, 3);
    match k {
        Steps::Done => {},
        Steps::Then(s, rest) => match s {
            Step::Progress(q) => {
                if pos > q {
                    lemma_run_reaches_end(text, pos, *rest);
                }
            },
            Step::Elem(n) => {
                if *rest != Steps::Done {
                    lemma_element_reaches_end(text, pos, n, *rest);
                }
            },
            Step::Run(es) => {
                if es.len() == 0 {
                    lemma_run_reaches_end(text, pos, *rest);
                } else {
                    let df = es.drop_first();
                    if *rest == Steps::Done && df.len() > 0 {
                        assert(df.last() == es.last());
                    }
                    if *rest == Steps::Done && df.len() == 0 {
                        assert(es[0] == es.last());
                    } else {
                        lemma_element_reaches_end(
                            text,
                            pos,
                            es[0],
                            Steps::Then(Step::Run(df), rest),
                        );
                    }
                }
            },
            Step::Star(a) => {
                let again = Steps::Then(
                    Step::Elem(a),
                    Box::new(Steps::Then(Step::Progress(pos), Box::new(k))),
                );
                lemma_run_reaches_end(text, pos, again);
                lemma_run_reaches_end(text, pos, *rest);
            },
        },
    }
}

pub proof fn lemma_element_reaches_end(text: Seq<char>, pos: int, n: Node, tail: Steps)
    requires
        0 <= pos <= text.len(),
        ends_at_end_anchor(tail),
    ensures
        element(text, pos, n, tail) matches Some(o) ==> pos + o.len() == text.len(),
    decreases text.len() - pos, size(n) + cost(tail, pos), 0int,
{
    reveal_with_fuel(cost, 3);
    reveal_with_fuel(ends_at_end_anchor, 3);
    match n {
        Node::StartAnchor => lemma_run_reaches_end(text, pos, tail),
        Node::EndAnchor => {},
        Node::Repeat(q, a) => match q {
            Quantifier::ZeroOrMore => lemma_run_reaches_end(
                text,
                pos,
                Steps::Then(Step::Star(*a), Box::new(tail)),
            ),
            Quantifier::OneOrMore => lemma_run_reaches_end(
                text,
                pos,
                Steps::Then(Step::Elem(*a), Box::new(Steps::Then(Step::Star(*a), Box::new(tail)))),
            ),
        },
        Node::Alternation(bs) => lemma_branches_reach_end(text, pos, bs, tail),
        _ => {
            if 0 <= pos < text.len() {
                lemma_run_reaches_end(text, pos + 1, tail);
            }
        },
    }
}

pub proof fn lemma_branches_reach_end(text: Seq<char>, pos: int, bs: Seq<Seq<Node>>, tail: Steps)
    requires
        0 <= pos <= text.len(),
        ends_at_end_anchor(tail),
    ensures
        branches(text, pos, bs, tail) matches Some(o) ==> pos + o.len() == text.len(),
    decreases text.len() - pos, crate::expression::branches_size(bs) + cost(tail, pos), 0int,
{
    reveal_with_fuel(ends_at_end_anchor, 3);
    if bs.len() > 0 {
        lemma_branches_size(bs, 0);
        lemma_run_reaches_end(text, pos, Steps::Then(Step::Run(bs[0]), Box::new(tail)));
        lemma_branches_reach_end(text, pos, bs.drop_first(), tail);
    }
}

proof fn lemma_first_match_reaches_end(line: Seq<char>, p: Seq<Node>, i: int)
    requires
        0 <= i,
        p.len() > 0,
        p.last() == Node::EndAnchor,
    ensures
        first_match_from(line, p, i) matches Some(o) ==> exists|s: int|
            #![trigger consecutive_from(o, s)]
            i <= s < line.len() && consecutive_from(o, s) && s + o.len() == line.len(),
    decreases line.len() - i,
{
    if i < line.len() {
        let k = Steps::Then(Step::Run(p), Box::new(Steps::Done));
        lemma_run_consecutive(line, i, k);
        lemma_run_reaches_end(line, i, k);
        lemma_first_match_reaches_end(line, p, i + 1);
        if let Some(o) = match_from(line, p, i) {
            assert(consecutive_from(o, i));
        }
    }
}

/// A match of a sequence that ends with an end anchor runs to the end of the
/// line: its last offset is that of the line's last character, and an empty
/// match only comes from an empty line.
pub proof fn law_end_anchored_match_reaches_line_end(line: Seq<char>, p: Seq<Node>)
    requires
        p.len() > 0,
        p.last() == Node::EndAnchor,
    ensures
        find_match(line, p) matches Some(o) ==> {
            &&& o.len() > 0 ==> o.last() == line.len() - 1
            &&& o.len() == 0 ==> line.len() == 0
        },
{
    let k = Steps::Then(Step::Run(p), Box::new(Steps::Done));
    if anchored(p) {
        lemma_run_consecutive(line, 0, k);
        lemma_run_reaches_end(line, 0, k);
    } else {
        lemma_first_match_reaches_end(line, p, 0);
    }
}

/// What the matcher consumes through pending work without end anchors is an
/// instance of that work.
pub proof fn lemma_run_sound(text: Seq<char>, pos: int, k: Steps)
    requires
        0 <= pos <= text.len(),
        steps_end_free(k),
    ensures
        run(text, pos, k) matches Some(o) ==> steps_spans(text, k, pos, pos + o.len()),
    decreases text.len() - pos, cost(k, pos), 1int,
{
    reveal_with_fuel(cost, 3);
    reveal_with_fuel(steps_end_free, 3);
    reveal_with_fuel(steps_spans, 3);
    lemma_run_consecutive(text, pos, k);
    match k {
        Steps::Done => {},
        Steps::Then(s, rest) => {
            if let Some(o) = run(text, pos, k) {
                let e = pos + o.len();
                match s {
                    Step::Progress(q) => {
                        lemma_run_sound(text, pos, *rest);
                        assert(step_spans(text, s, pos, pos));
                    },
                    Step::Elem(n) => {
                        lemma_element_sound(text, pos, n, *rest);
                        let c = choose|c: int|
                            #![trigger node_spans(text, n, pos, c)]
                            pos <= c <= e && node_spans(text, n, pos, c) && steps_spans(
                                text,
                                *rest,
                                c,
                                e,
                            );
                        assert(step_spans(text, s, pos, c));
                    },
                    Step::Run(es) => {
                        if es.len() == 0 {
                            lemma_run_sound(text, pos, *rest);
                            assert(step_spans(text, s, pos, pos));
                        } else {
                            let df = es.drop_first();
                            let tail = Steps::Then(Step::Run(df), rest);
                            assert forall|i: int| 0 <= i < df.len() implies end_free(
                                #[trigger] df[i],
                            ) by {
                                assert(df[i] == es[i + 1]);
                            }
                            assert(end_free(es[0]));
                            lemma_element_sound(text, pos, es[0], tail);
                            let c1 = choose|c1: int|
                                #![trigger node_spans(text, es[0], pos, c1)]
                                pos <= c1 <= e && node_spans(text, es[0], pos, c1) && steps_spans(
                                    text,
                                    tail,
                                    c1,
                                    e,
                                );
                            let c2 = choose|c2: int|
                                #![trigger step_spans(text, Step::Run(df), c1, c2)]
                                c1 <= c2 <= e && step_spans(text, Step::Run(df), c1, c2)
                                    && steps_spans(text, *rest, c2, e);
                            assert(between(pos, c1, c2));
                            assert(seq_spans(text, es, pos, c2));
                            assert(step_spans(text, s, pos, c2));
                        }
                    },
                    Step::Star(at) => {
                        let check = Steps::Then(Step::Progress(pos), Box::new(k));
                        let again = Steps::Then(Step::Elem(at), Box::new(check));
                        lemma_run_sound(text, pos, again);
                        lemma_run_sound(text, pos, *rest);
                        if run(text, pos, again) is Some {
                            let c1 = choose|c1: int|
                                #![trigger step_spans(text, Step::Elem(at), pos, c1)]
                                pos <= c1 <= e && step_spans(text, Step::Elem(at), pos, c1)
                                    && steps_spans(text, check, c1, e);
                            let c2 = choose|c2: int|
                                #![trigger step_spans(text, Step::Progress(pos), c1, c2)]
                                c1 <= c2 <= e && step_spans(text, Step::Progress(pos), c1, c2)
                                    && steps_spans(text, k, c2, e);
                            let c3 = choose|c3: int|
                                #![trigger step_spans(text, s, c2, c3)]
                                c2 <= c3 <= e && step_spans(text, s, c2, c3) && steps_spans(
                                    text,
                                    *rest,
                                    c3,
                                    e,
                                );
                            assert(between(pos, c1, c3));
                            assert(star_spans(text, at, pos, c3));
                            assert(step_spans(text, s, pos, c3));
                        } else {
                            assert(star_spans(text, at, pos, pos));
                            assert(step_spans(text, s, pos, pos));
                        }
                    },
                }
            }
        },
    }
}

pub proof fn lemma_element_sound(text: Seq<char>, pos: int, n: Node, tail: Steps)
    requires
        0 <= pos <= text.len(),
        end_free(n),
        steps_end_free(tail),
    ensures
        element(text, pos, n, tail) matches Some(o) ==> exists|c: int|
            #![trigger node_spans(text, n, pos, c)]
            pos <= c <= pos + o.len() && node_spans(text, n, pos, c) && steps_spans(
                text,
                tail,
                c,
                pos + o.len(),
            ),
    decreases text.len() - pos, size(n) + cost(tail, pos), 0int,
{
    reveal_with_fuel(cost, 3);
    reveal_with_fuel(steps_end_free, 3);
    reveal_with_fuel(steps_spans, 3);
    lemma_element_consecutive(text, pos, n, tail);
    if let Some(o) = element(text, pos, n, tail) {
        let e = pos + o.len();
        match n {
            Node::StartAnchor => {
                lemma_run_sound(text, pos, tail);
                assert(node_spans(text, n, pos, pos));
            },
            Node::EndAnchor => {},
            Node::Repeat(q, at) => match q {
                Quantifier::ZeroOrMore => {
                    let k = Steps::Then(Step::Star(*at), Box::new(tail));
                    lemma_run_sound(text, pos, k);
                    let c = choose|c: int|
                        #![trigger step_spans(text, Step::Star(*at), pos, c)]
                        pos <= c <= e && step_spans(text, Step::Star(*at), pos, c) && steps_spans(
                            text,
                            tail,
                            c,
                            e,
                        );
                    assert(node_spans(text, n, pos, c));
                },
                Quantifier::OneOrMore => {
                    let k1 = Steps::Then(Step::Star(*at), Box::new(tail));
                    let k = Steps::Then(Step::Elem(*at), Box::new(k1));
                    lemma_run_sound(text, pos, k);
                    let c1 = choose|c1: int|
                        #![trigger step_spans(text, Step::Elem(*at), pos, c1)]
                        pos <= c1 <= e && step_spans(text, Step::Elem(*at), pos, c1)
                            && steps_spans(text, k1, c1, e);
                    let c2 = choose|c2: int|
                        #![trigger step_spans(text, Step::Star(*at), c1, c2)]
                        c1 <= c2 <= e && step_spans(text, Step::Star(*at), c1, c2) && steps_spans(
                            text,
                            tail,
                            c2,
                            e,
                        );
                    assert(between(pos, c1, c2));
                    assert(node_spans(text, n, pos, c2));
                },
            },
            Node::Alternation(bs) => {
                lemma_branches_sound(text, pos, bs, tail);
            },
            _ => {
                lemma_run_sound(text, pos + 1, tail);
                assert(node_spans(text, n, pos, pos + 1));
            },
        }
    }
}

pub proof fn lemma_branches_sound(text: Seq<char>, pos: int, bs: Seq<Seq<Node>>, tail: Steps)
    requires
        0 <= pos <= text.len(),
        forall|i: int, j: int|
            0 <= i < bs.len() && 0 <= j < bs[i].len() ==> end_free(#[trigger] bs[i][j]),
        steps_end_free(tail),
    ensures
        branches(text, pos, bs, tail) matches Some(o) ==> exists|c: int|
            #![trigger node_spans(text, Node::Alternation(bs), pos, c)]
            pos <= c <= pos + o.len() && node_spans(text, Node::Alternation(bs), pos, c)
                && steps_spans(text, tail, c, pos + o.len()),
    decreases text.len() - pos, crate::expression::branches_size(bs) + cost(tail, pos), 0int,
{
    reveal_with_fuel(steps_end_free, 3);
    reveal_with_fuel(steps_spans, 3);
    lemma_branches_consecutive(text, pos, bs, tail);
    if bs.len() > 0 {
        if let Some(o) = branches(text, pos, bs, tail) {
            let e = pos + o.len();
            let k = Steps::Then(Step::Run(bs[0]), Box::new(tail));
            lemma_branches_size(bs, 0);
            assert(seq_end_free(bs[0])) by {
                assert forall|j: int| 0 <= j < bs[0].len() implies end_free(#[trigger] bs[0][j]) by {
                }
            }
            lemma_run_sound(text, pos, k);
            if run(text, pos, k) is Some {
                let c = choose|c: int|
                    #![trigger step_spans(text, Step::Run(bs[0]), pos, c)]
                    pos <= c <= e && step_spans(text, Step::Run(bs[0]), pos, c) && steps_spans(
                        text,
                        tail,
                        c,
                        e,
                    );
                lemma_alternation_spans(text, bs, pos, c);
            } else {
                let df = bs.drop_first();
                assert forall|i: int, j: int|
                    0 <= i < df.len() && 0 <= j < df[i].len() implies end_free(
                    #[trigger] df[i][j],
                ) by {
                    assert(df[i] == bs[i + 1]);
                }
                lemma_branches_sound(text, pos, df, tail);
                let c = choose|c: int|
                    #![trigger node_spans(text, Node::Alternation(df), pos, c)]
                    pos <= c <= e && node_spans(text, Node::Alternation(df), pos, c)
                        && steps_spans(text, tail, c, e);
                lemma_alternation_spans(text, bs, pos, c);
            }
        }
    }
}

proof fn lemma_alternation_spans(text: Seq<char>, bs: Seq<Seq<Node>>, a: int, b: int)
    requires
        bs.len() > 0,
        seq_spans(text, bs[0], a, b) || node_spans(text, Node::Alternation(bs.drop_first()), a, b),
    ensures
        node_spans(text, Node::Alternation(bs), a, b),
{
    if !seq_spans(text, bs[0], a, b) {
        assert(alt_spans(text, bs.drop_first(), a, b));
    }
    assert(alt_spans(text, bs, a, b));
}

proof fn lemma_first_match_sound(line: Seq<char>, p: Seq<Node>, i: int)
    requires
        0 <= i,
        seq_end_free(p),
    ensures
        first_match_from(line, p, i) matches Some(o) ==> exists|s: int|
            #![trigger consecutive_from(o, s)]
            consecutive_from(o, s) && seq_spans(line, p, s, s + o.len()),
    decreases line.len() - i,
{
    if i < line.len() {
        lemma_match_from_sound(line, p, i);
        lemma_first_match_sound(line, p, i + 1);
    }
}

proof fn lemma_match_from_sound(line: Seq<char>, p: Seq<Node>, s: int)
    requires
        0 <= s <= line.len(),
        seq_end_free(p),
    ensures
        match_from(line, p, s) matches Some(o) ==> consecutive_from(o, s) && seq_spans(
            line,
            p,
            s,
            s + o.len(),
        ),
{
    reveal_with_fuel(steps_end_free, 3);
    reveal_with_fuel(steps_spans, 3);
    let k = Steps::Then(Step::Run(p), Box::new(Steps::Done));
    lemma_run_consecutive(line, s, k);
    lemma_run_sound(line, s, k);
    if let Some(o) = match_from(line, p, s) {
        let c = choose|c: int|
            #![trigger step_spans(line, Step::Run(p), s, c)]
            s <= c <= s + o.len() && step_spans(line, Step::Run(p), s, c) && steps_spans(
                line,
                Steps::Done,
                c,
                s + o.len(),
            );
        assert(seq_spans(line, p, s, c));
    }
}

/// A match found in a line by a pattern without end anchors consists of
/// consecutive offsets, and the characters at them, in order, form an instance
/// of the pattern.
pub proof fn law_match_is_an_instance(line: Seq<char>, p: Seq<Node>)
    requires
        seq_end_free(p),
    ensures
        find_match(line, p) matches Some(o) ==> exists|s: int|
            #![trigger consecutive_from(o, s)]
            consecutive_from(o, s) && seq_spans(line, p, s, s + o.len()),
{
    if anchored(p) {
        lemma_match_from_sound(line, p, 0);
        if let Some(o) = find_match(line, p) {
            assert(consecutive_from(o, 0));
        }
    } else {
        lemma_first_match_sound(line, p, 0);
    }
}

} // verus!
