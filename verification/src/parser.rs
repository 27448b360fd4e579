//! The parser: from the bytes of a source text to its parse tree.

use crate::grammar::{
    ascii_before, blank_between, expr_at, follows, in_class, is_operator, leaf, lemma_blank_run,
    more_at, name_end, node, number_end, operator_rule, parsed, run_end, term_at, well_formed,
    Class, Expected, Parsed, Rule, Tree, CLOSE, DOT, LINE_FEED, MINUS, OPEN, PLUS, SLASH, STAR,
    UNDERSCORE,
};
use vstd::prelude::*;

verus! {

/// A node of the parse tree: its rule, the bytes `start..end` of the source
/// that it matched, and its children from left to right.
#[derive(Debug)]
pub struct Pair {
    pub rule: Rule,
    pub start: usize,
    pub end: usize,
    pub inner: Vec<Pair>,
}

/// Where and why the parser stopped.
#[derive(Clone, Copy, Debug)]
pub struct Failure {
    pub at: usize,
    pub expected: Expected,
}

impl Pair {
    /// The pair as a tree.
    pub open spec fn tree(self) -> Tree
        decreases self,
    {
        Tree {
            rule: self.rule,
            start: self.start as int,
            end: self.end as int,
            inner: Seq::new(
                self.inner@.len(),
                |k: int|
                    if 0 <= k < self.inner@.len() {
                        self.inner@[k].tree()
                    } else {
                        arbitrary()
                    },
            ),
        }
    }
}

impl View for Pair {
    type V = Tree;

    open spec fn view(&self) -> Tree {
        self.tree()
    }
}

/// The trees of a row of pairs.
pub open spec fn views(pairs: Seq<Pair>) -> Seq<Tree> {
    Seq::new(pairs.len(), |k: int| pairs[k]@)
}

/// The exec result `r` is the outcome `p` of the grammar.
pub open spec fn agrees(r: Result<(Pair, usize), Failure>, p: Parsed) -> bool {
    match r {
        Ok((pair, next)) => p == (Parsed::Match { tree: pair@, next: next as int }),
        Err(f) => p == (Parsed::Fail { at: f.at as int, expected: f.expected }),
    }
}

/// What holds of the result of matching `rule` at `i`, besides its value: a
/// match is a well-formed tree over `i..next` and is not empty; up to the
/// place where the parser stands or stopped, the text is ASCII.
pub open spec fn sound(r: Result<(Pair, usize), Failure>, s: Seq<u8>, i: int, rule: Rule) -> bool {
    match r {
        Ok((pair, next)) => {
            &&& well_formed(pair@, s)
            &&& pair.rule == rule
            &&& pair.start == i
            &&& pair.end == next
            &&& i < next <= s.len()
            &&& ascii_before(s, next as int)
        },
        Err(f) => i <= f.at <= s.len() && ascii_before(s, f.at as int),
    }
}

/// Every pair of the row is well formed; terms and operators take turns,
/// a term first.
pub open spec fn taking_turns(pairs: Seq<Pair>, s: Seq<u8>) -> bool {
    forall|k: int|
        0 <= k < pairs.len() ==> {
            &&& well_formed((#[trigger] pairs[k])@, s)
            &&& (k % 2 == 0 ==> pairs[k].rule == Rule::Term)
            &&& (k % 2 != 0 ==> is_operator(pairs[k].rule))
        }
}

/// Each pair of the row stands after the one before it, with only blanks
/// between them.
pub open spec fn in_order(pairs: Seq<Pair>, s: Seq<u8>) -> bool {
    forall|k: int| 0 <= k < pairs.len() - 1 ==> #[trigger] follows(views(pairs), s, k)
}

/// Pairs as the grammar lines them up in an `expr`: a term, then operator
/// and term in turn.
pub open spec fn alternating(pairs: Seq<Pair>, s: Seq<u8>) -> bool {
    &&& pairs.len() % 2 == 1
    &&& taking_turns(pairs, s)
    &&& in_order(pairs, s)
}

proof fn lemma_turns_push(row: Seq<Pair>, sign: Pair, operand: Pair, s: Seq<u8>)
    requires
        row.len() % 2 == 1,
        taking_turns(row, s),
        well_formed(sign@, s),
        is_operator(sign.rule),
        well_formed(operand@, s),
        operand.rule == Rule::Term,
    ensures
        taking_turns(row.push(sign).push(operand), s),
{
    let longer = row.push(sign).push(operand);
    assert forall|k: int| 0 <= k < longer.len() implies {
        &&& well_formed((#[trigger] longer[k])@, s)
        &&& (k % 2 == 0 ==> longer[k].rule == Rule::Term)
        &&& (k % 2 != 0 ==> is_operator(longer[k].rule))
    } by {
        if k < row.len() {
            assert(longer[k] == row[k]);
            assert(well_formed(row[k]@, s));
        }
    }
}

proof fn lemma_order_push(row: Seq<Pair>, sign: Pair, operand: Pair, s: Seq<u8>)
    requires
        row.len() > 0,
        in_order(row, s),
        row[row.len() - 1].end <= sign.start,
        blank_between(s, row[row.len() - 1].end as int, sign.start as int),
        sign.end <= operand.start,
        blank_between(s, sign.end as int, operand.start as int),
    ensures
        in_order(row.push(sign).push(operand), s),
{
    let longer = row.push(sign).push(operand);
    assert forall|k: int| 0 <= k < longer.len() - 1 implies #[trigger] follows(
        views(longer),
        s,
        k,
    ) by {
        if k < row.len() - 1 {
            assert(follows(views(row), s, k));
            assert(views(longer)[k] == views(row)[k]);
            assert(views(longer)[k + 1] == views(row)[k + 1]);
        } else if k == row.len() - 1 {
            assert(views(longer)[k] == row[k]@);
            assert(views(longer)[k + 1] == sign@);
        } else {
            assert(views(longer)[k] == sign@);
            assert(views(longer)[k + 1] == operand@);
        }
    }
}

/// An alternating row stays one when an operator and a term are added
/// after it.
pub proof fn lemma_alternating_push(row: Seq<Pair>, sign: Pair, operand: Pair, s: Seq<u8>)
    requires
        alternating(row, s),
        well_formed(sign@, s),
        is_operator(sign.rule),
        well_formed(operand@, s),
        operand.rule == Rule::Term,
        row[row.len() - 1].end <= sign.start,
        blank_between(s, row[row.len() - 1].end as int, sign.start as int),
        sign.end <= operand.start,
        blank_between(s, sign.end as int, operand.start as int),
    ensures
        alternating(row.push(sign).push(operand), s),
{
    lemma_turns_push(row, sign, operand, s);
    lemma_order_push(row, sign, operand, s);
}

impl Pair {
    /// An `expr` pair over alternating children is well formed.
    pub proof fn lemma_expr(self, s: Seq<u8>)
        requires
            self.rule == Rule::Expr,
            alternating(self.inner@, s),
            self.start == self.inner@[0].start,
            self.end == self.inner@[self.inner@.len() - 1].end,
            self.start <= self.end <= s.len(),
        ensures
            well_formed(self@, s),
    {
        self.lemma_inner();
        let t = self@;
        let last = self.inner@.len() - 1;
        assert(t.inner[0] == self.inner@[0]@);
        assert(t.inner[last] == self.inner@[last]@);
        assert(well_formed(self.inner@[0]@, s));
        assert(well_formed(self.inner@[last]@, s));
        assert forall|k: int| 0 <= k < t.inner.len() implies {
            &&& well_formed(#[trigger] t.inner[k], s)
            &&& (k % 2 == 0 ==> t.inner[k].rule == Rule::Term)
            &&& (k % 2 != 0 ==> is_operator(t.inner[k].rule))
        } by {
            assert(t.inner[k] == self.inner@[k]@);
        }
        assert forall|k: int| 0 <= k < t.inner.len() - 1 implies #[trigger] follows(
            t.inner,
            s,
            k,
        ) by {
            assert(follows(views(self.inner@), s, k));
        }
    }

    /// The children of a pair are the views of its `inner`.
    pub proof fn lemma_inner(self)
        ensures
            self@.inner == views(self.inner@),
    {
        assert(self@.inner.len() == self.inner@.len());
        assert forall|k: int| 0 <= k < self.inner@.len() implies self@.inner[k] == views(
            self.inner@,
        )[k] by {}
        assert(self@.inner =~= views(self.inner@));
    }

    fn leaf(rule: Rule, start: usize, end: usize) -> (pair: Pair)
        ensures
            pair@ == leaf(rule, start as int, end as int),
            pair.rule == rule,
            pair.start == start,
            pair.end == end,
            pair.inner@.len() == 0,
    {
        let pair = Pair { rule, start, end, inner: Vec::new() };
        assert(pair@.inner =~= Seq::<Tree>::empty());
        pair
    }

    fn node(rule: Rule, start: usize, end: usize, inner: Vec<Pair>) -> (pair: Pair)
        ensures
            pair@ == node(rule, start as int, end as int, views(inner@)),
            pair.rule == rule,
            pair.start == start,
            pair.end == end,
            pair.inner == inner,
    {
        let pair = Pair { rule, start, end, inner };
        proof {
            pair.lemma_inner();
        }
        pair
    }

    fn single(rule: Rule, start: usize, end: usize, child: Pair) -> (pair: Pair)
        ensures
            pair@ == node(rule, start as int, end as int, seq![child@]),
            pair.rule == rule,
            pair.start == start,
            pair.end == end,
            pair.inner@ == seq![child],
    {
        let mut inner: Vec<Pair> = Vec::new();
        inner.push(child);
        assert(inner@ =~= seq![child]);
        assert(views(inner@) =~= seq![child@]);
        let pair = Pair::node(rule, start, end, inner);
        assert(pair@.inner[0] == child@);
        pair
    }
}

fn holds(class: Class, b: u8) -> (r: bool)
    ensures
        r == in_class(class, b),
{
    match class {
        Class::Digit => 0x30 <= b && b <= 0x39,
        Class::Name => (0x41 <= b && b <= 0x5a) || (0x61 <= b && b <= 0x7a) || (0x30 <= b && b
            <= 0x39) || b == UNDERSCORE,
        Class::Blank => b == 0x20 || b == 0x09 || b == LINE_FEED || b == 0x0d,
    }
}

fn operator(b: u8) -> (r: Option<Rule>)
    ensures
        r == operator_rule(b),
{
    if b == PLUS {
        Some(Rule::Add)
    } else if b == MINUS {
        Some(Rule::Sub)
    } else if b == STAR {
        Some(Rule::Mul)
    } else if b == SLASH {
        Some(Rule::Div)
    } else {
        None
    }
}

/// Skips the bytes of `class` from `i` on.
fn scan(s: &[u8], class: Class, i: usize) -> (e: usize)
    requires
        i <= s@.len(),
        ascii_before(s@, i as int),
    ensures
        e == run_end(s@, class, i as int),
        i <= e <= s@.len(),
        ascii_before(s@, e as int),
{
    let mut e = i;
    while e < s.len() && holds(class, s[e])
        invariant
            i <= e <= s@.len(),
            run_end(s@, class, e as int) == run_end(s@, class, i as int),
            ascii_before(s@, e as int),
        decreases s@.len() - e,
    {
        e += 1;
    }
    e
}

fn number(s: &[u8], i: usize) -> (r: Option<usize>)
    requires
        i <= s@.len(),
        ascii_before(s@, i as int),
    ensures
        match r {
            Some(e) => number_end(s@, i as int) == Some(e as int) && i < e <= s@.len()
                && ascii_before(s@, e as int),
            None => number_end(s@, i as int) is None,
        },
{
    let digits = if i < s.len() && (s[i] == PLUS || s[i] == MINUS) {
        i + 1
    } else {
        i
    };
    let whole = scan(s, Class::Digit, digits);
    if whole <= digits {
        return None;
    }
    if whole < s.len() && s[whole] == DOT {
        let fraction = scan(s, Class::Digit, whole + 1);
        if fraction > whole + 1 {
            return Some(fraction);
        }
    }
    Some(whole)
}

fn name(s: &[u8], i: usize) -> (r: Option<usize>)
    requires
        i <= s@.len(),
        ascii_before(s@, i as int),
    ensures
        match r {
            Some(e) => name_end(s@, i as int) == Some(e as int) && i < e <= s@.len()
                && ascii_before(s@, e as int),
            None => name_end(s@, i as int) is None,
        },
{
    if i < s.len() && holds(Class::Name, s[i]) && !holds(Class::Digit, s[i]) {
        Some(scan(s, Class::Name, i + 1))
    } else {
        None
    }
}

fn term(s: &[u8], i: usize) -> (r: Result<(Pair, usize), Failure>)
    requires
        i <= s@.len(),
        ascii_before(s@, i as int),
    ensures
        agrees(r, term_at(s@, i as int)),
        sound(r, s@, i as int, Rule::Term),
    decreases s@.len() - i, 0int,
{
    if let Some(end) = number(s, i) {
        let digits = Pair::leaf(Rule::Number, i, end);
        assert(well_formed(digits@, s@));
        return Ok((Pair::single(Rule::Term, i, end, digits), end));
    }
    if let Some(end) = name(s, i) {
        let letters = Pair::leaf(Rule::Var, i, end);
        assert(well_formed(letters@, s@));
        return Ok((Pair::single(Rule::Term, i, end, letters), end));
    }
    if i < s.len() && s[i] == OPEN {
        let inside = scan(s, Class::Blank, i + 1);
        match expr(s, inside) {
            Ok((tree, next)) => {
                let close = scan(s, Class::Blank, next);
                if close < s.len() && s[close] == CLOSE {
                    proof {
                        lemma_blank_run(s@, i + 1);
                        lemma_blank_run(s@, next as int);
                    }
                    Ok((Pair::single(Rule::Term, i, close + 1, tree), close + 1))
                } else {
                    Err(Failure { at: close, expected: Expected::OperatorOrClose })
                }
            },
            Err(f) => Err(f),
        }
    } else {
        Err(Failure { at: i, expected: Expected::Term })
    }
}

fn expr(s: &[u8], i: usize) -> (r: Result<(Pair, usize), Failure>)
    requires
        i <= s@.len(),
        ascii_before(s@, i as int),
    ensures
        agrees(r, expr_at(s@, i as int)),
        sound(r, s@, i as int, Rule::Expr),
    decreases s@.len() - i, 2int,
{
    let (first, first_end) = match term(s, i) {
        Ok(matched) => matched,
        Err(f) => {
            return Err(f);
        },
    };
    let mut end = first_end;
    let mut inner: Vec<Pair> = Vec::new();
    inner.push(first);
    assert(views(inner@) =~= seq![first@]);
    loop
        invariant
            i < end <= s@.len(),
            ascii_before(s@, end as int),
            alternating(inner@, s@),
            inner@[0].start == i,
            inner@[inner@.len() - 1].end == end,
            more_at(s@, i as int, views(inner@), end as int) == expr_at(s@, i as int),
        decreases s@.len() - end,
    {
        let at = scan(s, Class::Blank, end);
        let found = if at < s.len() {
            operator(s[at])
        } else {
            None
        };
        match found {
            None => {
                let pair = Pair::node(Rule::Expr, i, end, inner);
                proof {
                    pair.lemma_expr(s@);
                }
                return Ok((pair, end));
            },
            Some(rule) => {
                let operand = scan(s, Class::Blank, at + 1);
                match term(s, operand) {
                    Err(f) => {
                        return Err(f);
                    },
                    Ok((tree, next)) => {
                        let ghost before = inner@;
                        let sign = Pair::leaf(rule, at, at + 1);
                        assert(well_formed(sign@, s@));
                        inner.push(sign);
                        inner.push(tree);
                        assert(views(inner@) =~= views(before).push(sign@).push(tree@));
                        proof {
                            lemma_blank_run(s@, end as int);
                            lemma_blank_run(s@, at + 1);
                            lemma_alternating_push(before, sign, tree, s@);
                        }
                        end = next;
                    },
                }
            },
        }
    }
}

/// Parses the whole of `s` as `calc`.
pub fn parse(s: &[u8]) -> (r: Result<Pair, Failure>)
    ensures
        match r {
            Ok(pair) => {
                &&& parsed(s@) == (Parsed::Match { tree: pair@, next: s@.len() as int })
                &&& well_formed(pair@, s@)
                &&& ascii_before(s@, s@.len() as int)
                &&& s@.len() <= usize::MAX
            },
            Err(f) => {
                &&& parsed(s@) == (Parsed::Fail { at: f.at as int, expected: f.expected })
                &&& f.at <= s@.len()
                &&& ascii_before(s@, f.at as int)
            },
        },
{
    let start = scan(s, Class::Blank, 0);
    match expr(s, start) {
        Ok((tree, next)) => {
            let at = scan(s, Class::Blank, next);
            if at >= s.len() {
                proof {
                    lemma_blank_run(s@, 0);
                    lemma_blank_run(s@, next as int);
                }
                Ok(Pair::single(Rule::Calc, 0, s.len(), tree))
            } else {
                Err(Failure { at, expected: Expected::OperatorOrEnd })
            }
        },
        Err(f) => Err(f),
    }
}

} // verus!
