//! The backtracking matcher: a compiled sequence against a line of characters
//! from a fixed offset, giving the absolute offsets of the characters consumed.
use vstd::prelude::*;
use crate::expression::{
    Expression, Node, Quantifier, seq_view, branches_view, size, seq_size, branches_size,
    lemma_seq_view, lemma_branches_view, lemma_branches_size,
};

verus! {

/// One piece of pending work of the matcher.
pub ghost enum Step {
    /// Match this one element.
    Elem(Node),
    /// Match these elements, in order.
    Run(Seq<Node>),
    /// Match the atom zero or more times, greedily.
    Star(Node),
    /// Fail unless the position has moved past the given offset: a repetition
    /// never takes an iteration that consumes nothing.
    Progress(int),
}

/// The pending work of the matcher, innermost first.
pub ghost enum Steps {
    Done,
    Then(Step, Box<Steps>),
}

pub open spec fn is_digit(c: char) -> bool {
    '0' <= c && c <= '9'
}

pub open spec fn is_alphanumeric(c: char) -> bool {
    is_digit(c) || ('a' <= c && c <= 'z') || ('A' <= c && c <= 'Z')
}

/// Whether a character-consuming node accepts `c`; false for every other node.
pub open spec fn char_matches(n: Node, c: char) -> bool {
    match n {
        Node::Literal(l) => c == l,
        Node::Digit => is_digit(c),
        Node::Alphanumeric => is_alphanumeric(c),
        Node::CharacterSet(members, negated) => members.contains(c) != negated,
        Node::Wildcard => true,
        _ => false,
    }
}

/// The weight of pending work; nothing past a repetition check that has not
/// been passed yet is counted, as it cannot be reached at this position.
pub open spec fn cost(k: Steps, pos: int) -> nat
    decreases k,
{
    match k {
        Steps::Done => 0,
        Steps::Then(s, rest) => match s {
            Step::Progress(q) => if q >= pos {
                0
            } else {
                1 + cost(*rest, pos)
            },
            Step::Elem(n) => size(n) + cost(*rest, pos),
            Step::Run(es) => seq_size(es) + es.len() + 1 + cost(*rest, pos),
            Step::Star(a) => size(a) + 1 + cost(*rest, pos),
        },
    }
}

/// The outcome of running the pending work `k` on `text` from `pos`: the
/// offsets consumed, or `None` when no way through succeeds.
pub open spec fn run(text: Seq<char>, pos: int, k: Steps) -> Option<Seq<int>>
    decreases text.len() - pos, cost(k, pos), 1int via run_decreases
{
    match k {
        Steps::Done => Some(seq![]),
        Steps::Then(s, rest) => match s {
            Step::Progress(q) => if pos > q {
                run(text, pos, *rest)
            } else {
                None
            },
            Step::Elem(n) => element(text, pos, n, *rest),
            Step::Run(es) => if es.len() == 0 {
                run(text, pos, *rest)
            } else {
                element(text, pos, es[0], Steps::Then(Step::Run(es.drop_first()), rest))
            },
            Step::Star(a) => {
                let again = Steps::Then(
                    Step::Elem(a),
                    Box::new(Steps::Then(Step::Progress(pos), Box::new(k))),
                );
                match run(text, pos, again) {
                    Some(o) => Some(o),
                    None => run(text, pos, *rest),
                }
            },
        },
    }
}

/// The outcome of matching the node `n` at `pos`, followed by `tail`.
pub open spec fn element(text: Seq<char>, pos: int, n: Node, tail: Steps) -> Option<Seq<int>>
    decreases text.len() - pos, size(n) + cost(tail, pos), 0int via element_decreases
{
    match n {
        Node::StartAnchor => run(text, pos, tail),
        Node::EndAnchor => if pos >= text.len() {
            Some(seq![])
        } else {
            None
        },
        Node::Repeat(q, a) => match q {
            Quantifier::ZeroOrMore => run(text, pos, Steps::Then(Step::Star(*a), Box::new(tail))),
            Quantifier::OneOrMore => run(
                text,
                pos,
                Steps::Then(Step::Elem(*a), Box::new(Steps::Then(Step::Star(*a), Box::new(tail)))),
            ),
        },
        Node::Alternation(bs) => branches(text, pos, bs, tail),
        _ => if 0 <= pos < text.len() && char_matches(n, text[pos]) {
            match run(text, pos + 1, tail) {
                Some(o) => Some(seq![pos] + o),
                None => None,
            }
        } else {
            None
        },
    }
}

/// The outcome of the first of the branches `bs` that succeeds followed by `tail`.
pub open spec fn branches(text: Seq<char>, pos: int, bs: Seq<Seq<Node>>, tail: Steps) -> Option<
    Seq<int>,
>
    decreases text.len() - pos, branches_size(bs) + cost(tail, pos), 0int,
{
    if bs.len() == 0 {
        None
    } else {
        match run(text, pos, Steps::Then(Step::Run(bs[0]), Box::new(tail))) {
            Some(o) => Some(o),
            None => branches(text, pos, bs.drop_first(), tail),
        }
    }
}

#[via_fn]
proof fn run_decreases(text: Seq<char>, pos: int, k: Steps) {
    reveal_with_fuel(cost, 3);
}

#[via_fn]
proof fn element_decreases(text: Seq<char>, pos: int, n: Node, tail: Steps) {
    reveal_with_fuel(cost, 3);
}

/// The outcome of matching the sequence `p` on `text` from `pos`.
pub open spec fn match_from(text: Seq<char>, p: Seq<Node>, pos: int) -> Option<Seq<int>> {
    run(text, pos, Steps::Then(Step::Run(p), Box::new(Steps::Done)))
}

/// The offsets held in an executable result.
pub open spec fn offsets_view(r: Option<Vec<usize>>) -> Option<Seq<int>> {
    match r {
        Some(v) => Some(v@.map_values(|x: usize| x as int)),
        None => None,
    }
}

/// One piece of pending work, over the compiled pattern itself.
enum Item<'a> {
    Elem(&'a Expression),
    /// The elements of the sequence from the index on.
    Run(&'a Vec<Expression>, usize),
    Star(&'a Expression),
    Progress(usize),
}

/// Pending work as a chain of frames on the call stack, innermost first.
enum Cont<'a> {
    Done,
    Then(Item<'a>, &'a Cont<'a>),
}

spec fn item_view(it: Item) -> Step {
    match it {
        Item::Elem(e) => Step::Elem(e@),
        Item::Run(v, i) => Step::Run(seq_view(v@).subrange(i as int, v.len() as int)),
        Item::Star(e) => Step::Star(e@),
        Item::Progress(q) => Step::Progress(q as int),
    }
}

spec fn cont_view(k: Cont) -> Steps
    decreases k,
{
    match k {
        Cont::Done => Steps::Done,
        Cont::Then(it, rest) => Steps::Then(item_view(it), Box::new(cont_view(*rest))),
    }
}

spec fn cont_wf(k: Cont) -> bool
    decreases k,
{
    match k {
        Cont::Done => true,
        Cont::Then(it, rest) => (match it {
            Item::Run(v, i) => i <= v.len(),
            _ => true,
        }) && cont_wf(*rest),
    }
}

/// Concatenates two offset lists.
pub fn append_to_result(result: Vec<usize>, to_append: Vec<usize>) -> (r: Vec<usize>)
    ensures
        r@ == result@ + to_append@,
{
    let mut r = result;
    let mut t = to_append;
    r.append(&mut t);
    r
}

fn set_contains(members: &Vec<char>, c: char) -> (r: bool)
    ensures
        r == members@.contains(c),
{
    let mut i: usize = 0;
    while i < members.len()
        invariant
            i <= members.len(),
            forall|j: int| 0 <= j < i ==> members@[j] != c,
        decreases members.len() - i,
    {
        if members[i] == c {
            return true;
        }
        i += 1;
    }
    false
}

fn char_test(e: &Expression, c: char) -> (r: bool)
    ensures
        r == char_matches(e@, c),
{
    match e {
        Expression::Literal(l) => *l == c,
        Expression::Digit => '0' <= c && c <= '9',
        Expression::Alphanumeric => ('0' <= c && c <= '9') || ('a' <= c && c <= 'z') || ('A' <= c
            && c <= 'Z'),
        Expression::CharacterSet(members, negated) => set_contains(members, c) != *negated,
        Expression::Wildcard => true,
        _ => false,
    }
}

fn run_exec(text: &Vec<char>, pos: usize, k: &Cont) -> (r: Option<Vec<usize>>)
    requires
        cont_wf(*k),
    ensures
        offsets_view(r) == run(text@, pos as int, cont_view(*k)),
    decreases text.len() - pos, cost(cont_view(*k), pos as int), 1int,
{
    match k {
        Cont::Done => {
            let r: Vec<usize> = Vec::new();
            assert(r@.map_values(|x: usize| x as int) =~= seq![]);
            Some(r)
        },
        Cont::Then(item, rest) => match item {
            Item::Progress(q) => if pos > *q {
                run_exec(text, pos, rest)
            } else {
                None
            },
            Item::Elem(e) => element_exec(text, pos, e, rest),
            Item::Run(v, i) => {
                proof {
                    lemma_seq_view(v@);
                }
                if *i >= v.len() {
                    run_exec(text, pos, rest)
                } else {
                    let tail = Cont::Then(Item::Run(v, *i + 1), rest);
                    proof {
                        let whole = seq_view(v@);
                        let here = whole.subrange(*i as int, v.len() as int);
                        assert(here.drop_first() =~= whole.subrange(*i + 1, v.len() as int));
                        assert(here[0] == v@[*i as int]@);
                    }
                    element_exec(text, pos, &v[*i], &tail)
                }
            },
            Item::Star(a) => {
                let check = Cont::Then(Item::Progress(pos), k);
                let again = Cont::Then(Item::Elem(a), &check);
                proof {
                    reveal_with_fuel(cost, 3);
                    reveal_with_fuel(cont_wf, 3);
                    reveal_with_fuel(cont_view, 3);
                }
                match run_exec(text, pos, &again) {
                    Some(o) => Some(o),
                    None => run_exec(text, pos, rest),
                }
            },
        },
    }
}

fn element_exec(text: &Vec<char>, pos: usize, e: &Expression, tail: &Cont) -> (r: Option<
    Vec<usize>,
>)
    requires
        cont_wf(*tail),
    ensures
        offsets_view(r) == element(text@, pos as int, e@, cont_view(*tail)),
    decreases text.len() - pos, size(e@) + cost(cont_view(*tail), pos as int), 0int,
{
    match e {
        Expression::StartAnchor => run_exec(text, pos, tail),
        Expression::EndAnchor => if pos >= text.len() {
            let r: Vec<usize> = Vec::new();
            assert(r@.map_values(|x: usize| x as int) =~= seq![]);
            Some(r)
        } else {
            None
        },
        Expression::Repeat(q, a) => {
            let atom: &Expression = &**a;
            proof {
                reveal_with_fuel(cost, 3);
                reveal_with_fuel(cont_wf, 3);
                reveal_with_fuel(cont_view, 3);
            }
            match q {
                Quantifier::ZeroOrMore => {
                    let k = Cont::Then(Item::Star(atom), tail);
                    run_exec(text, pos, &k)
                },
                Quantifier::OneOrMore => {
                    let k1 = Cont::Then(Item::Star(atom), tail);
                    let k = Cont::Then(Item::Elem(atom), &k1);
                    run_exec(text, pos, &k)
                },
            }
        },
        Expression::Alternation(bs) => {
            let ghost bv = branches_view(bs@);
            proof {
                lemma_branches_view(bs@);
                assert(bv.subrange(0, bv.len() as int) =~= bv);
            }
            let mut i: usize = 0;
            while i < bs.len()
                invariant
                    i <= bs.len(),
                    bv == branches_view(bs@),
                    bv.len() == bs.len(),
                    e@ == Node::Alternation(bv),
                    cont_wf(*tail),
                    element(text@, pos as int, e@, cont_view(*tail)) == branches(
                        text@,
                        pos as int,
                        bv.subrange(i as int, bv.len() as int),
                        cont_view(*tail),
                    ),
                decreases bs.len() - i,
            {
                let k = Cont::Then(Item::Run(&bs[i], 0), tail);
                proof {
                    lemma_branches_view(bs@);
                    let b = bs@[i as int]@;
                    lemma_seq_view(b);
                    assert(seq_view(b).subrange(0, b.len() as int) =~= seq_view(b));
                    lemma_branches_size(bv, i as int);
                    let rem = bv.subrange(i as int, bv.len() as int);
                    assert(rem[0] == bv[i as int]);
                    assert(rem.drop_first() =~= bv.subrange(i + 1, bv.len() as int));
                }
                match run_exec(text, pos, &k) {
                    Some(o) => {
                        return Some(o);
                    },
                    None => {},
                }
                i += 1;
            }
            None
        },
        _ => {
            if pos < text.len() && char_test(e, text[pos]) {
                match run_exec(text, pos + 1, tail) {
                    Some(o) => {
                        let r = append_to_result(vec![pos], o);
                        assert(r@.map_values(|x: usize| x as int) =~= seq![pos as int]
                            + o@.map_values(|x: usize| x as int));
                        Some(r)
                    },
                    None => None,
                }
            } else {
                None
            }
        },
    }
}

/// Matches `pattern` against `input` from `offset`: the offsets of the
/// characters consumed, or `None` when the pattern does not match there.
pub fn match_pattern_from(input: &Vec<char>, pattern: &Vec<Expression>, offset: usize) -> (r:
    Option<Vec<usize>>)
    ensures
        offsets_view(r) == match_from(input@, seq_view(pattern@), offset as int),
{
    proof {
        lemma_seq_view(pattern@);
        assert(seq_view(pattern@).subrange(0, pattern.len() as int) =~= seq_view(pattern@));
    }
    let done = Cont::Done;
    let k = Cont::Then(Item::Run(pattern, 0), &done);
    proof {
        reveal_with_fuel(cont_wf, 2);
        reveal_with_fuel(cont_view, 2);
    }
    run_exec(input, offset, &k)
}

} // verus!
