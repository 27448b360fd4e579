//! Grouping a flat run of operands and operators by precedence.

use crate::grammar::Rule;
use crate::plan::{Operation, Plan};
use pest::iterators::PairsBuilder;
use pest::prec_climber::{Assoc, Operator, PrecClimber};
use vstd::prelude::*;
use vstd::string::StringSliceAdditionalSpecFns;
use vstd::utf8::is_char_boundary;

verus! {

/// The side to which operators of one precedence group.
#[derive(Clone, Copy, Debug, PartialEq, Eq)]
pub enum Side {
    Left,
    Right,
}

/// One child of an `expr` node, without what lies below it.
#[derive(Clone, Copy, Debug, PartialEq, Eq)]
pub struct Token {
    pub rule: Rule,
    pub start: usize,
    pub end: usize,
}

/// How a run of tokens was grouped. Tokens are told apart by where they
/// start in the source.
#[derive(Debug, PartialEq, Eq)]
pub enum Shape {
    /// The operand that starts at `at`.
    Leaf { at: usize },
    /// The operator that starts at `at`, between what stands left and right
    /// of it.
    Node { at: usize, lhs: Box<Shape>, rhs: Box<Shape> },
}

impl Shape {
    /// The shape of one operand.
    pub fn leaf(at: usize) -> (shape: Shape)
        ensures
            shape == (Shape::Leaf { at }),
    {
        Shape::Leaf { at }
    }

    /// The shape of an operator between two shapes.
    pub fn node(at: usize, lhs: Shape, rhs: Shape) -> (shape: Shape)
        ensures
            shape == (Shape::Node { at, lhs: Box::new(lhs), rhs: Box::new(rhs) }),
    {
        Shape::Node { at, lhs: Box::new(lhs), rhs: Box::new(rhs) }
    }
}

/// The levels of a table, loosest first, each with its operators.
pub open spec fn levels(table: Vec<Vec<(Rule, Side)>>) -> Seq<Seq<(Rule, Side)>> {
    table@.map_values(|level: Vec<(Rule, Side)>| level@)
}

/// Bytes `start..end` of the token are a piece of the text `s`.
pub open spec fn in_text(s: Seq<u8>, token: Token) -> bool {
    &&& token.start <= token.end <= s.len()
    &&& is_char_boundary(s, token.start as int)
    &&& is_char_boundary(s, token.end as int)
}

/// The grouping that the precedence climber gives `tokens` under the
/// operator levels `table`.
pub uninterp spec fn climbed(
    source: Seq<char>,
    table: Seq<Seq<(Rule, Side)>>,
    tokens: Seq<Token>,
) -> Shape;

/// Runs `pest::prec_climber::PrecClimber::climb` on `tokens`, laid out as
/// pairs over `source` by `pest::iterators::PairsBuilder`, with the climber
/// that `PrecClimber::new` makes of `table` (one `Operator` for each entry,
/// those of a level chained with `|`). The climber maps an operand to a
/// leaf and joins two shapes by an operator to a node. Assumed, for a run
/// of odd length whose tokens are pieces of `source` and a table without an
/// empty level: the call returns, and what it returns depends on these
/// three arguments alone. Nothing is assumed of how it groups.
#[allow(deprecated)]
#[verifier::external_body]
pub(crate) fn climb(source: &str, table: &Vec<Vec<(Rule, Side)>>, tokens: &Vec<Token>) -> (shape:
    Shape)
    requires
        tokens@.len() % 2 == 1,
        forall|k: int| 0 <= k < tokens@.len() ==> in_text(source.spec_bytes(), #[trigger] tokens@[k]),
        forall|k: int| 0 <= k < table@.len() ==> (#[trigger] table@[k])@.len() > 0,
    ensures
        shape == climbed(source@, levels(*table), tokens@),
{
    let chain = |level: &Vec<(Rule, Side)>| level.iter().map(|e| Operator::new(e.0, match e.1 {
        Side::Left => Assoc::Left,
        Side::Right => Assoc::Right,
    })).reduce(|a, b| a | b).unwrap();
    let pairs = tokens.iter().fold(PairsBuilder::new(source), |b, t| b.rule(t.rule, t.start, t.end)).build();
    PrecClimber::new(table.iter().map(chain).collect()).climb(pairs, |p| Shape::leaf(p.as_span().start()), |l, o, r| Shape::node(o.as_span().start(), l, r))
}

/// The operator table of expressions: sums bind loosest, products
/// tightest, and all group to the left.
pub open spec fn operator_table() -> Seq<Seq<(Rule, Side)>> {
    seq![
        seq![(Rule::Add, Side::Left), (Rule::Sub, Side::Left)],
        seq![(Rule::Mul, Side::Left), (Rule::Div, Side::Left)],
    ]
}

/// Makes the operator table of expressions.
pub fn operators() -> (table: Vec<Vec<(Rule, Side)>>)
    ensures
        levels(table) == operator_table(),
{
    let mut sums: Vec<(Rule, Side)> = Vec::new();
    sums.push((Rule::Add, Side::Left));
    sums.push((Rule::Sub, Side::Left));
    let mut products: Vec<(Rule, Side)> = Vec::new();
    products.push((Rule::Mul, Side::Left));
    products.push((Rule::Div, Side::Left));
    let mut table: Vec<Vec<(Rule, Side)>> = Vec::new();
    table.push(sums);
    table.push(products);
    assert(levels(table) =~= operator_table()) by {
        assert(levels(table)[0] =~= operator_table()[0]);
        assert(levels(table)[1] =~= operator_table()[1]);
    }
    table
}

/// How tightly an operator binds: products tighter than sums.
pub open spec fn binding(rule: Rule) -> int {
    match rule {
        Rule::Add | Rule::Sub => 1,
        Rule::Mul | Rule::Div => 2,
        _ => 0,
    }
}

/// The operation that an operator rule stands for.
pub open spec fn operation(rule: Rule) -> Operation {
    match rule {
        Rule::Add => Operation::Add,
        Rule::Sub => Operation::Sub,
        Rule::Mul => Operation::Mul,
        _ => Operation::Div,
    }
}

/// Operand `k` of a run of tokens that starts with an operand and goes on
/// with operator and operand in turn.
pub open spec fn operand(tokens: Seq<Token>, k: int) -> Token {
    tokens[2 * k]
}

/// Operator `k` of such a run: the one between operands `k` and `k + 1`.
pub open spec fn sign(tokens: Seq<Token>, k: int) -> Token {
    tokens[2 * k + 1]
}

/// The operator that is applied last among operators `lo..hi`: of those
/// that bind loosest, the rightmost.
pub open spec fn split(tokens: Seq<Token>, lo: int, hi: int) -> int
    decreases hi - lo,
{
    if hi - lo <= 1 {
        lo
    } else {
        let p = split(tokens, lo, hi - 1);
        if binding(sign(tokens, hi - 1).rule) <= binding(sign(tokens, p).rule) {
            hi - 1
        } else {
            p
        }
    }
}

/// The grouping of operands `lo..=hi` that precedence and grouping to the
/// left give.
pub open spec fn skeleton(tokens: Seq<Token>, lo: int, hi: int) -> Shape
    decreases hi - lo,
{
    if lo >= hi {
        Shape::Leaf { at: operand(tokens, lo).start }
    } else {
        let p = split(tokens, lo, hi);
        proof {
            lemma_split(tokens, lo, hi);
        }
        Shape::Node {
            at: sign(tokens, p).start,
            lhs: Box::new(skeleton(tokens, lo, p)),
            rhs: Box::new(skeleton(tokens, p + 1, hi)),
        }
    }
}

/// The plan of operands `lo..=hi`, whose own plans are `plans`, grouped as
/// `skeleton` groups them.
pub open spec fn group(tokens: Seq<Token>, plans: Seq<Plan>, lo: int, hi: int) -> Plan
    decreases hi - lo,
{
    if lo >= hi {
        plans[lo]
    } else {
        let p = split(tokens, lo, hi);
        proof {
            lemma_split(tokens, lo, hi);
        }
        Plan::Apply {
            op: operation(sign(tokens, p).rule),
            lhs: Box::new(group(tokens, plans, lo, p)),
            rhs: Box::new(group(tokens, plans, p + 1, hi)),
        }
    }
}

/// `split` names an operator of the range; none left of it binds looser,
/// and every one right of it binds tighter.
pub proof fn lemma_split(tokens: Seq<Token>, lo: int, hi: int)
    requires
        lo < hi,
    ensures
        lo <= split(tokens, lo, hi) < hi,
        forall|j: int|
            lo <= j < split(tokens, lo, hi) ==> binding(#[trigger] sign(tokens, j).rule)
                >= binding(sign(tokens, split(tokens, lo, hi)).rule),
        forall|j: int|
            split(tokens, lo, hi) < j < hi ==> binding(#[trigger] sign(tokens, j).rule) > binding(
                sign(tokens, split(tokens, lo, hi)).rule,
            ),
    decreases hi - lo,
{
    if hi - lo > 1 {
        lemma_split(tokens, lo, hi - 1);
    }
}

fn binds(rule: Rule) -> (level: u8)
    ensures
        level == binding(rule),
{
    match rule {
        Rule::Add | Rule::Sub => 1,
        Rule::Mul | Rule::Div => 2,
        _ => 0,
    }
}

fn operation_of(rule: Rule) -> (op: Operation)
    ensures
        op == operation(rule),
{
    match rule {
        Rule::Add => Operation::Add,
        Rule::Sub => Operation::Sub,
        Rule::Mul => Operation::Mul,
        _ => Operation::Div,
    }
}

fn find_split(tokens: &Vec<Token>, lo: usize, hi: usize) -> (p: usize)
    requires
        lo < hi,
        2 * hi < tokens@.len(),
    ensures
        p == split(tokens@, lo as int, hi as int),
        lo <= p < hi,
{
    let len = tokens.len();
    let mut p = lo;
    let mut j = lo + 1;
    while j < hi
        invariant
            lo <= p < j <= hi,
            2 * hi < tokens@.len() == len,
            p == split(tokens@, lo as int, j as int),
        decreases hi - j,
    {
        if binds(tokens[2 * j + 1].rule) <= binds(tokens[2 * p + 1].rule) {
            p = j;
        }
        j += 1;
    }
    p
}

/// A run of operands, whose plans are `plans`, with an operator between
/// each two of them.
pub open spec fn is_run(tokens: Seq<Token>, plans: Seq<Plan>) -> bool {
    plans.len() >= 1 && tokens.len() == 2 * plans.len() - 1
}

/// Holds a grouping of a run against precedence, and makes the plan of it:
/// where `shape` is the grouping of the whole run that `skeleton` gives,
/// the plan is the one that `group` gives; where it is not, or `tokens` and
/// `plans` are no run, there is no plan.
pub fn arrange(shape: &Shape, tokens: &Vec<Token>, plans: &Vec<Plan>) -> (r: Option<Plan>)
    ensures
        r == if is_run(tokens@, plans@) && *shape == skeleton(tokens@, 0, plans@.len() - 1) {
            Some(group(tokens@, plans@, 0, plans@.len() - 1))
        } else {
            None
        },
{
    let count = plans.len();
    if count == 0 || tokens.len() / 2 != count - 1 || tokens.len() % 2 != 1 {
        return None;
    }
    fit(shape, tokens, plans, 0, count - 1)
}

/// `arrange` on operands `lo..=hi` of a run.
fn fit(shape: &Shape, tokens: &Vec<Token>, plans: &Vec<Plan>, lo: usize, hi: usize) -> (r: Option<
    Plan,
>)
    requires
        lo <= hi < plans@.len(),
        2 * hi < tokens@.len(),
    ensures
        r == if *shape == skeleton(tokens@, lo as int, hi as int) {
            Some(group(tokens@, plans@, lo as int, hi as int))
        } else {
            None
        },
    decreases hi - lo,
{
    let len = tokens.len();
    if lo == hi {
        match shape {
            Shape::Leaf { at } => {
                if *at == tokens[2 * lo].start {
                    Some(plans[lo].duplicate())
                } else {
                    None
                }
            },
            Shape::Node { .. } => None,
        }
    } else {
        let p = find_split(tokens, lo, hi);
        match shape {
            Shape::Leaf { .. } => None,
            Shape::Node { at, lhs, rhs } => {
                if *at != tokens[2 * p + 1].start {
                    return None;
                }
                let left = match fit(lhs, tokens, plans, lo, p) {
                    Some(plan) => plan,
                    None => {
                        return None;
                    },
                };
                let right = match fit(rhs, tokens, plans, p + 1, hi) {
                    Some(plan) => plan,
                    None => {
                        return None;
                    },
                };
                Some(
                    Plan::Apply {
                        op: operation_of(tokens[2 * p + 1].rule),
                        lhs: Box::new(left),
                        rhs: Box::new(right),
                    },
                )
            },
        }
    }
}

} // verus!
