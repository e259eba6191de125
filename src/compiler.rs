//! The pattern compiler: pattern text to a sequence of expressions.
use vstd::prelude::*;
use vstd::std_specs::iter::IteratorSpec;
use crate::expression::{
    Expression, Node, Quantifier, seq_view, branches_view, lemma_seq_view,
};

verus! {

broadcast use vstd::string::group_string_axioms;

/// Why a pattern could not be compiled.
#[derive(Clone, Copy, Debug, PartialEq, Eq, Structural)]
pub enum PatternError {
    /// A backslash with no character after it.
    DanglingEscape,
    /// A `[` with no `]` after it.
    UnterminatedCharacterClass,
    /// A `(` with no `)` after it.
    UnterminatedGroup,
    /// A `+` or `*` with no element before it.
    QuantifierWithoutAtom,
    /// A `(` inside a group: only one level of grouping is supported.
    NestedGroup,
}

/// The first index in `[i, end)` that holds `c`, or `end` when there is none.
pub open spec fn find_char(p: Seq<char>, i: int, end: int, c: char) -> int
    decreases end - i,
{
    if i >= end {
        end
    } else if p[i] == c {
        i
    } else {
        find_char(p, i + 1, end, c)
    }
}

pub proof fn lemma_find_char(p: Seq<char>, i: int, end: int, c: char)
    requires
        i <= end,
    ensures
        i <= find_char(p, i, end, c) <= end,
        find_char(p, i, end, c) < end ==> p[find_char(p, i, end, c)] == c,
    decreases end - i,
{
    if i < end && p[i] != c {
        lemma_find_char(p, i + 1, end, c);
    }
}

#[via_fn]
proof fn parse_decreases(p: Seq<char>, i: int, end: int, acc: Seq<Node>, nested: bool) {
    if i < end {
        if p[i] == '[' {
            let start = if i + 1 < end && p[i + 1] == '^' {
                i + 2
            } else {
                i + 1
            };
            lemma_find_char(p, start, end, ']');
        } else if p[i] == '(' {
            lemma_find_char(p, i + 1, end, ')');
        }
    }
}

#[via_fn]
proof fn parse_branches_decreases(p: Seq<char>, j: int, close: int, acc: Seq<Seq<Node>>) {
    if j <= close {
        lemma_find_char(p, j, close, '|');
    }
}

/// The node that `\c` stands for.
pub open spec fn escape_node(c: char) -> Node {
    if c == 'd' {
        Node::Digit
    } else if c == 'w' {
        Node::Alphanumeric
    } else {
        Node::Literal(c)
    }
}

/// The node that a character with no further structure stands for.
pub open spec fn plain_node(c: char) -> Node {
    if c == '^' {
        Node::StartAnchor
    } else if c == '$' {
        Node::EndAnchor
    } else if c == '.' {
        Node::Wildcard
    } else {
        Node::Literal(c)
    }
}

/// Parses `p[i..end)` after the nodes `acc`, left to right. Inside a group
/// (`nested`) another group is an error.
pub open spec fn parse(p: Seq<char>, i: int, end: int, acc: Seq<Node>, nested: bool) -> Result<
    Seq<Node>,
    PatternError,
>
    decreases (if nested {
        0int
    } else {
        2int
    }), end - i via parse_decreases
{
    if i >= end {
        Ok(acc)
    } else {
        let c = p[i];
        if c == '\\' {
            if i + 1 >= end {
                Err(PatternError::DanglingEscape)
            } else {
                parse(p, i + 2, end, acc.push(escape_node(p[i + 1])), nested)
            }
        } else if c == '[' {
            let negated = i + 1 < end && p[i + 1] == '^';
            let start = if negated {
                i + 2
            } else {
                i + 1
            };
            let close = find_char(p, start, end, ']');
            if close >= end {
                Err(PatternError::UnterminatedCharacterClass)
            } else {
                parse(
                    p,
                    close + 1,
                    end,
                    acc.push(Node::CharacterSet(p.subrange(start, close), negated)),
                    nested,
                )
            }
        } else if c == '(' {
            if nested {
                Err(PatternError::NestedGroup)
            } else {
                let close = find_char(p, i + 1, end, ')');
                if close >= end {
                    Err(PatternError::UnterminatedGroup)
                } else {
                    match parse_branches(p, i + 1, close, seq![]) {
                        Err(e) => Err(e),
                        Ok(bs) => parse(p, close + 1, end, acc.push(Node::Alternation(bs)), nested),
                    }
                }
            }
        } else if c == '+' || c == '*' {
            let q = if c == '+' {
                Quantifier::OneOrMore
            } else {
                Quantifier::ZeroOrMore
            };
            if acc.len() == 0 {
                Err(PatternError::QuantifierWithoutAtom)
            } else {
                parse(p, i + 1, end, acc.drop_last().push(Node::Repeat(q, Box::new(acc.last()))), nested)
            }
        } else {
            parse(p, i + 1, end, acc.push(plain_node(c)), nested)
        }
    }
}

/// Parses the branches of the group content `p[j..close)`, split at each `|`,
/// after the branches `acc`.
pub open spec fn parse_branches(p: Seq<char>, j: int, close: int, acc: Seq<Seq<Node>>) -> Result<
    Seq<Seq<Node>>,
    PatternError,
>
    decreases 1int, close - j via parse_branches_decreases
{
    let k = find_char(p, j, close, '|');
    match parse(p, j, k, seq![], true) {
        Err(e) => Err(e),
        Ok(b) => if k >= close {
            Ok(acc.push(b))
        } else {
            parse_branches(p, k + 1, close, acc.push(b))
        },
    }
}

/// The compiled form of a whole pattern.
pub open spec fn compile(p: Seq<char>) -> Result<Seq<Node>, PatternError> {
    parse(p, 0, p.len() as int, seq![], false)
}

pub open spec fn result_view(r: Result<Vec<Expression>, PatternError>) -> Result<
    Seq<Node>,
    PatternError,
> {
    match r {
        Ok(v) => Ok(seq_view(v@)),
        Err(e) => Err(e),
    }
}

/// The characters of a string, in order.
pub fn chars_of(s: &str) -> (r: Vec<char>)
    ensures
        r@ == s@,
{
    let mut it = s.chars();
    let mut r: Vec<char> = Vec::new();
    loop
        invariant
            it.obeys_prophetic_iter_laws(),
            r@ + it.remaining() == s@,
            it.decrease() is Some,
        ensures
            r@ == s@,
        decreases it.decrease()->0,
    {
        match it.next() {
            Some(c) => {
                r.push(c);
            },
            None => {
                assert(r@ =~= s@);
                break;
            },
        }
    }
    r
}

pub open spec fn branches_result_view(r: Result<Vec<Vec<Expression>>, PatternError>) -> Result<
    Seq<Seq<Node>>,
    PatternError,
> {
    match r {
        Ok(v) => Ok(branches_view(v@)),
        Err(e) => Err(e),
    }
}

fn find_char_exec(p: &Vec<char>, i: usize, end: usize, c: char) -> (r: usize)
    requires
        i <= end <= p.len(),
    ensures
        r == find_char(p@, i as int, end as int, c),
        i <= r <= end,
{
    let mut j = i;
    while j < end && p[j] != c
        invariant
            i <= j <= end <= p.len(),
            find_char(p@, i as int, end as int, c) == find_char(p@, j as int, end as int, c),
        decreases end - j,
    {
        j += 1;
    }
    j
}

proof fn lemma_seq_view_push(s: Seq<Expression>, e: Expression)
    ensures
        seq_view(s.push(e)) == seq_view(s).push(e@),
{
    assert(s.push(e).drop_last() =~= s);
}

proof fn lemma_branches_view_push(bs: Seq<Vec<Expression>>, b: Vec<Expression>)
    ensures
        branches_view(bs.push(b)) == branches_view(bs).push(seq_view(b@)),
{
    assert(bs.push(b).drop_last() =~= bs);
}

fn escape_exec(c: char) -> (r: Expression)
    ensures
        r@ == escape_node(c),
{
    if c == 'd' {
        Expression::Digit
    } else if c == 'w' {
        Expression::Alphanumeric
    } else {
        Expression::Literal(c)
    }
}

fn plain_exec(c: char) -> (r: Expression)
    ensures
        r@ == plain_node(c),
{
    if c == '^' {
        Expression::StartAnchor
    } else if c == '$' {
        Expression::EndAnchor
    } else if c == '.' {
        Expression::Wildcard
    } else {
        Expression::Literal(c)
    }
}

fn copy_range(p: &Vec<char>, start: usize, end: usize) -> (r: Vec<char>)
    requires
        start <= end <= p.len(),
    ensures
        r@ == p@.subrange(start as int, end as int),
{
    let mut r: Vec<char> = Vec::new();
    let mut j = start;
    while j < end
        invariant
            start <= j <= end <= p.len(),
            r@ == p@.subrange(start as int, j as int),
        decreases end - j,
    {
        r.push(p[j]);
        j += 1;
        assert(r@ =~= p@.subrange(start as int, j as int));
    }
    r
}

fn parse_exec(p: &Vec<char>, start: usize, end: usize, nested: bool) -> (r: Result<
    Vec<Expression>,
    PatternError,
>)
    requires
        start <= end <= p.len(),
    ensures
        result_view(r) == parse(p@, start as int, end as int, seq![], nested),
    decreases (if nested {
        0int
    } else {
        2int
    }), end - start,
{
    let mut acc: Vec<Expression> = Vec::new();
    let mut i = start;
    assert(seq_view(acc@) =~= seq![]);
    while i < end
        invariant
            start <= i <= end <= p.len(),
            parse(p@, start as int, end as int, seq![], nested) == parse(
                p@,
                i as int,
                end as int,
                seq_view(acc@),
                nested,
            ),
        decreases end - i,
    {
        let c = p[i];
        proof {
            lemma_seq_view(acc@);
        }
        if c == '\\' {
            if i + 1 >= end {
                return Err(PatternError::DanglingEscape);
            }
            let e = escape_exec(p[i + 1]);
            proof {
                lemma_seq_view_push(acc@, e);
            }
            acc.push(e);
            i += 2;
        } else if c == '[' {
            let negated = i + 1 < end && p[i + 1] == '^';
            let first = if negated {
                i + 2
            } else {
                i + 1
            };
            let close = find_char_exec(p, first, end, ']');
            if close >= end {
                return Err(PatternError::UnterminatedCharacterClass);
            }
            let members = copy_range(p, first, close);
            let e = Expression::CharacterSet(members, negated);
            proof {
                lemma_seq_view_push(acc@, e);
            }
            acc.push(e);
            i = close + 1;
        } else if c == '(' {
            if nested {
                return Err(PatternError::NestedGroup);
            }
            let close = find_char_exec(p, i + 1, end, ')');
            if close >= end {
                return Err(PatternError::UnterminatedGroup);
            }
            match parse_branches_exec(p, i + 1, close) {
                Err(e) => {
                    return Err(e);
                },
                Ok(bs) => {
                    let e = Expression::Alternation(bs);
                    proof {
                        lemma_seq_view_push(acc@, e);
                    }
                    acc.push(e);
                    i = close + 1;
                },
            }
        } else if c == '+' || c == '*' {
            let q = if c == '+' {
                Quantifier::OneOrMore
            } else {
                Quantifier::ZeroOrMore
            };
            match acc.pop() {
                None => {
                    return Err(PatternError::QuantifierWithoutAtom);
                },
                Some(last) => {
                    let ghost before = acc@.push(last);
                    proof {
                        assert(before.drop_last() =~= acc@);
                        assert(seq_view(before).drop_last() =~= seq_view(acc@));
                        assert(seq_view(before).last() == last@);
                    }
                    let e = Expression::Repeat(q, Box::new(last));
                    proof {
                        lemma_seq_view_push(acc@, e);
                    }
                    acc.push(e);
                    i += 1;
                },
            }
        } else {
            let e = plain_exec(c);
            proof {
                lemma_seq_view_push(acc@, e);
            }
            acc.push(e);
            i += 1;
        }
    }
    Ok(acc)
}

fn parse_branches_exec(p: &Vec<char>, open: usize, close: usize) -> (r: Result<
    Vec<Vec<Expression>>,
    PatternError,
>)
    requires
        open <= close <= p.len(),
    ensures
        branches_result_view(r) == parse_branches(p@, open as int, close as int, seq![]),
    decreases 1int, close - open,
{
    let mut acc: Vec<Vec<Expression>> = Vec::new();
    let mut j = open;
    assert(branches_view(acc@) =~= seq![]);
    loop
        invariant
            open <= j <= close <= p.len(),
            parse_branches(p@, open as int, close as int, seq![]) == parse_branches(
                p@,
                j as int,
                close as int,
                branches_view(acc@),
            ),
        decreases close - j,
    {
        let k = find_char_exec(p, j, close, '|');
        match parse_exec(p, j, k, true) {
            Err(e) => {
                return Err(e);
            },
            Ok(b) => {
                proof {
                    lemma_branches_view_push(acc@, b);
                }
                acc.push(b);
                if k >= close {
                    return Ok(acc);
                }
                j = k + 1;
            },
        }
    }
}

/// Compiles a pattern into its sequence of expressions.
pub fn pattern_to_expressions(pattern: &str) -> (r: Result<Vec<Expression>, PatternError>)
    ensures
        result_view(r) == compile(pattern@),
{
    let p = chars_of(pattern);
    parse_exec(&p, 0, p.len(), false)
}

} // verus!
