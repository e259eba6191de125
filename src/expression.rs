//! Compiled patterns: the executable expression tree and its mathematical model.
use vstd::prelude::*;

verus! {

/// How often the atom of a repetition may occur: unbounded above in both cases.
#[derive(Clone, Copy, Debug, PartialEq, Eq, Structural)]
pub enum Quantifier {
    ZeroOrMore,
    OneOrMore,
}

/// One node of a compiled pattern.
#[derive(Debug)]
pub enum Expression {
    /// Exactly this character.
    Literal(char),
    /// Any ASCII digit.
    Digit,
    /// Any ASCII letter or digit.
    Alphanumeric,
    /// A character that is among the members, or not among them when negated.
    CharacterSet(Vec<char>, bool),
    /// Any single character.
    Wildcard,
    /// Zero-width; anchoring at the line start is done by the scanner.
    StartAnchor,
    /// Zero-width; only succeeds where no input remains.
    EndAnchor,
    /// The atom repeated, greedily.
    Repeat(Quantifier, Box<Expression>),
    /// Ordered branches, each a sequence; exactly one of them must match.
    Alternation(Vec<Vec<Expression>>),
}

/// The mathematical model of an [`Expression`].
pub ghost enum Node {
    Literal(char),
    Digit,
    Alphanumeric,
    CharacterSet(Seq<char>, bool),
    Wildcard,
    StartAnchor,
    EndAnchor,
    Repeat(Quantifier, Box<Node>),
    Alternation(Seq<Seq<Node>>),
}

pub open spec fn expr_view(e: Expression) -> Node
    decreases e,
{
    match e {
        Expression::Literal(c) => Node::Literal(c),
        Expression::Digit => Node::Digit,
        Expression::Alphanumeric => Node::Alphanumeric,
        Expression::CharacterSet(m, neg) => Node::CharacterSet(m@, neg),
        Expression::Wildcard => Node::Wildcard,
        Expression::StartAnchor => Node::StartAnchor,
        Expression::EndAnchor => Node::EndAnchor,
        Expression::Repeat(q, a) => Node::Repeat(q, Box::new(expr_view(*a))),
        Expression::Alternation(bs) => Node::Alternation(branches_view(bs@)),
    }
}

/// The model of a sequence of expressions, element by element.
pub open spec fn seq_view(s: Seq<Expression>) -> Seq<Node>
    decreases s,
{
    if s.len() == 0 {
        seq![]
    } else {
        seq_view(s.drop_last()).push(expr_view(s.last()))
    }
}

/// The model of a list of branches, branch by branch.
pub open spec fn branches_view(bs: Seq<Vec<Expression>>) -> Seq<Seq<Node>>
    decreases bs,
{
    if bs.len() == 0 {
        seq![]
    } else {
        branches_view(bs.drop_last()).push(seq_view(bs.last()@))
    }
}

impl View for Expression {
    type V = Node;

    open spec fn view(&self) -> Node {
        expr_view(*self)
    }
}

pub proof fn lemma_seq_view(s: Seq<Expression>)
    ensures
        seq_view(s).len() == s.len(),
        forall|i: int| 0 <= i < s.len() ==> #[trigger] seq_view(s)[i] == expr_view(s[i]),
    decreases s.len(),
{
    if s.len() > 0 {
        lemma_seq_view(s.drop_last());
    }
}

pub proof fn lemma_branches_view(bs: Seq<Vec<Expression>>)
    ensures
        branches_view(bs).len() == bs.len(),
        forall|i: int| 0 <= i < bs.len() ==> #[trigger] branches_view(bs)[i] == seq_view(bs[i]@),
    decreases bs.len(),
{
    if bs.len() > 0 {
        lemma_branches_view(bs.drop_last());
    }
}

/// A weight of each node that bounds the work of the matcher on it.
pub open spec fn size(n: Node) -> nat
    decreases n,
{
    match n {
        Node::Repeat(_, a) => 2 * size(*a) + 2,
        Node::Alternation(bs) => 1 + branches_size(bs),
        _ => 1,
    }
}

pub open spec fn seq_size(s: Seq<Node>) -> nat
    decreases s,
{
    if s.len() == 0 {
        0
    } else {
        size(s[0]) + seq_size(s.drop_first())
    }
}

/// The weight of one branch standing in a continuation.
pub open spec fn branch_cost(s: Seq<Node>) -> nat {
    seq_size(s) + s.len() + 1
}

pub open spec fn branches_size(bs: Seq<Seq<Node>>) -> nat
    decreases bs,
{
    if bs.len() == 0 {
        0
    } else {
        seq_size(bs[0]) + bs[0].len() + 2 + branches_size(bs.drop_first())
    }
}

pub proof fn lemma_branches_size(bs: Seq<Seq<Node>>, i: int)
    requires
        0 <= i < bs.len(),
    ensures
        branch_cost(bs[i]) < branches_size(bs),
    decreases i,
{
    if i > 0 {
        lemma_branches_size(bs.drop_first(), i - 1);
    }
}

} // verus!
