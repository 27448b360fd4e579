//! The grammar of expressions, as a mathematical function on bytes.
//!
//! ```text
//! calc   := expr end-of-input
//! expr   := term ((add | sub | mul | div) term)*
//! term   := number | var | "(" expr ")"
//! number := ("+" | "-")? digit+ ("." digit+)?
//! var    := (letter | "_") (letter | digit | "_")*
//! ```
//!
//! Blanks (space, tab, line feed, carriage return) may stand before and after
//! every token; `number` and `var` hold none. Choices are ordered and
//! repetitions greedy.
//!
//! `parsed` says what the grammar makes of a text, and where it gives out;
//! `well_formed` says what it is for a tree to spell a text. Before they go
//! on after a match, the functions of the grammar look whether the match
//! moved forward inside the text. It always did (`laws::law_progress`); the
//! look is there so that the recursion is seen to end.

use vstd::prelude::*;

verus! {

/// The syntactic categories. Every node of a parse tree carries one.
#[derive(Clone, Copy, Debug, PartialEq, Eq, PartialOrd, Ord, Hash)]
pub enum Rule {
    Calc,
    Expr,
    Term,
    Number,
    Var,
    Add,
    Sub,
    Mul,
    Div,
}

/// What the parser was looking for where it had to stop.
#[derive(Clone, Copy, Debug, PartialEq, Eq)]
pub enum Expected {
    /// A number, a variable or an opening parenthesis.
    Term,
    /// An operator, or the end of the input.
    OperatorOrEnd,
    /// An operator, or the parenthesis that closes the open group.
    OperatorOrClose,
}

/// A node of the parse tree: its rule, the bytes `start..end` of the source
/// that it matched, and its children from left to right.
pub struct Tree {
    pub rule: Rule,
    pub start: int,
    pub end: int,
    pub inner: Seq<Tree>,
}

/// The result of matching a rule at a position.
pub enum Parsed {
    /// The rule matched up to `next`.
    Match { tree: Tree, next: int },
    /// No match: at `at` none of what `expected` names was found.
    Fail { at: int, expected: Expected },
}

/// Sets of bytes of which tokens hold runs.
#[derive(Clone, Copy, Debug)]
pub enum Class {
    Digit,
    Name,
    Blank,
}

pub const PLUS: u8 = 0x2b;

pub const MINUS: u8 = 0x2d;

pub const STAR: u8 = 0x2a;

pub const SLASH: u8 = 0x2f;

pub const DOT: u8 = 0x2e;

pub const OPEN: u8 = 0x28;

pub const CLOSE: u8 = 0x29;

pub const UNDERSCORE: u8 = 0x5f;

pub const LINE_FEED: u8 = 0x0a;

pub open spec fn is_digit(b: u8) -> bool {
    0x30 <= b <= 0x39
}

pub open spec fn is_letter(b: u8) -> bool {
    0x41 <= b <= 0x5a || 0x61 <= b <= 0x7a
}

pub open spec fn is_blank(b: u8) -> bool {
    b == 0x20 || b == 0x09 || b == LINE_FEED || b == 0x0d
}

pub open spec fn in_class(class: Class, b: u8) -> bool {
    match class {
        Class::Digit => is_digit(b),
        Class::Name => is_letter(b) || is_digit(b) || b == UNDERSCORE,
        Class::Blank => is_blank(b),
    }
}

/// The rule of the operator that a byte spells, if it spells one.
pub open spec fn operator_rule(b: u8) -> Option<Rule> {
    if b == PLUS {
        Some(Rule::Add)
    } else if b == MINUS {
        Some(Rule::Sub)
    } else if b == STAR {
        Some(Rule::Mul)
    } else if b == SLASH {
        Some(Rule::Div)
    } else {
        None
    }
}

pub open spec fn is_operator(rule: Rule) -> bool {
    rule == Rule::Add || rule == Rule::Sub || rule == Rule::Mul || rule == Rule::Div
}

/// Where the longest run of bytes of `class` that starts at `i` ends.
pub open spec fn run_end(s: Seq<u8>, class: Class, i: int) -> int
    decreases s.len() - i,
{
    if 0 <= i < s.len() && in_class(class, s[i]) {
        run_end(s, class, i + 1)
    } else {
        i
    }
}

/// Where the number that starts at `i` ends, if one starts there.
pub open spec fn number_end(s: Seq<u8>, i: int) -> Option<int> {
    let digits = if 0 <= i < s.len() && (s[i] == PLUS || s[i] == MINUS) {
        i + 1
    } else {
        i
    };
    let whole = run_end(s, Class::Digit, digits);
    let fraction = run_end(s, Class::Digit, whole + 1);
    if whole <= digits {
        None
    } else if whole < s.len() && s[whole] == DOT && fraction > whole + 1 {
        Some(fraction)
    } else {
        Some(whole)
    }
}

/// Where the variable name that starts at `i` ends, if one starts there.
pub open spec fn name_end(s: Seq<u8>, i: int) -> Option<int> {
    if 0 <= i < s.len() && (is_letter(s[i]) || s[i] == UNDERSCORE) {
        Some(run_end(s, Class::Name, i + 1))
    } else {
        None
    }
}

/// A text that is one number and nothing else.
pub open spec fn is_number(text: Seq<u8>) -> bool {
    number_end(text, 0) == Some(text.len() as int)
}

/// A text that is one variable name and nothing else.
pub open spec fn is_name(text: Seq<u8>) -> bool {
    name_end(text, 0) == Some(text.len() as int)
}

/// A node without children.
pub open spec fn leaf(rule: Rule, start: int, end: int) -> Tree {
    Tree { rule, start, end, inner: Seq::empty() }
}

/// A node over the children `inner`.
pub open spec fn node(rule: Rule, start: int, end: int, inner: Seq<Tree>) -> Tree {
    Tree { rule, start, end, inner }
}

/// `term` at `i`, where no blank stands.
pub open spec fn term_at(s: Seq<u8>, i: int) -> Parsed
    decreases s.len() - i, 0int,
{
    if let Some(end) = number_end(s, i) {
        Parsed::Match { tree: node(Rule::Term, i, end, seq![leaf(Rule::Number, i, end)]), next: end }
    } else if let Some(end) = name_end(s, i) {
        Parsed::Match { tree: node(Rule::Term, i, end, seq![leaf(Rule::Var, i, end)]), next: end }
    } else if 0 <= i < s.len() && s[i] == OPEN {
        let inside = run_end(s, Class::Blank, i + 1);
        if i < inside <= s.len() {
            match expr_at(s, inside) {
                Parsed::Match { tree, next } => {
                    let close = run_end(s, Class::Blank, next);
                    if 0 <= close < s.len() && s[close] == CLOSE {
                        Parsed::Match {
                            tree: node(Rule::Term, i, close + 1, seq![tree]),
                            next: close + 1,
                        }
                    } else {
                        Parsed::Fail { at: close, expected: Expected::OperatorOrClose }
                    }
                },
                fail => fail,
            }
        } else {
            Parsed::Fail { at: i, expected: Expected::Term }
        }
    } else {
        Parsed::Fail { at: i, expected: Expected::Term }
    }
}

/// `expr` at `i`, where no blank stands.
pub open spec fn expr_at(s: Seq<u8>, i: int) -> Parsed
    decreases s.len() - i, 2int,
{
    match term_at(s, i) {
        Parsed::Match { tree, next } => {
            if i < next <= s.len() {
                more_at(s, i, seq![tree], next)
            } else {
                Parsed::Fail { at: i, expected: Expected::Term }
            }
        },
        fail => fail,
    }
}

/// The repetition in `expr`: the expression began at `start`, holds `inner`
/// so far and has been matched up to `end`.
pub open spec fn more_at(s: Seq<u8>, start: int, inner: Seq<Tree>, end: int) -> Parsed
    decreases s.len() - end, 1int,
{
    let at = run_end(s, Class::Blank, end);
    if 0 <= end <= at < s.len() && operator_rule(s[at]) is Some {
        let operand = run_end(s, Class::Blank, at + 1);
        if at < operand <= s.len() {
            match term_at(s, operand) {
                Parsed::Match { tree, next } => {
                    if operand < next <= s.len() {
                        more_at(
                            s,
                            start,
                            inner.push(leaf(operator_rule(s[at])->0, at, at + 1)).push(tree),
                            next,
                        )
                    } else {
                        Parsed::Fail { at: operand, expected: Expected::Term }
                    }
                },
                fail => fail,
            }
        } else {
            Parsed::Fail { at: operand, expected: Expected::Term }
        }
    } else {
        Parsed::Match { tree: node(Rule::Expr, start, end, inner), next: end }
    }
}

/// `calc` on the whole of `s`.
pub open spec fn parsed(s: Seq<u8>) -> Parsed {
    match expr_at(s, run_end(s, Class::Blank, 0)) {
        Parsed::Match { tree, next } => {
            let at = run_end(s, Class::Blank, next);
            if at >= s.len() {
                Parsed::Match {
                    tree: node(Rule::Calc, 0, s.len() as int, seq![tree]),
                    next: s.len() as int,
                }
            } else {
                Parsed::Fail { at, expected: Expected::OperatorOrEnd }
            }
        },
        fail => fail,
    }
}

/// Only blanks stand in bytes `from..to`.
#[verifier::opaque]
pub open spec fn blank_between(s: Seq<u8>, from: int, to: int) -> bool {
    forall|k: int| from <= k < to && 0 <= k < s.len() ==> is_blank(#[trigger] s[k])
}

/// Child `k + 1` stands after child `k`, with only blanks between them.
pub open spec fn follows(inner: Seq<Tree>, s: Seq<u8>, k: int) -> bool {
    inner[k].end <= inner[k + 1].start && blank_between(s, inner[k].end, inner[k + 1].start)
}

/// The tree spells the source `s`: every node has the children that its
/// rule gives it, in the order of the text; a leaf matched a token of its
/// rule; and between what a node matched and what its children matched
/// stand only blanks and, around a group, its two parentheses.
pub open spec fn well_formed(t: Tree, s: Seq<u8>) -> bool
    decreases t,
{
    &&& 0 <= t.start <= t.end <= s.len()
    &&& match t.rule {
        Rule::Calc => {
            &&& t.inner.len() == 1
            &&& t.inner[0].rule == Rule::Expr
            &&& well_formed(t.inner[0], s)
            &&& t.start == 0
            &&& t.end == s.len()
            &&& blank_between(s, 0, t.inner[0].start)
            &&& blank_between(s, t.inner[0].end, t.end)
        },
        Rule::Expr => {
            &&& t.inner.len() % 2 == 1
            &&& t.start == t.inner[0].start
            &&& t.end == t.inner[t.inner.len() - 1].end
            &&& forall|k: int|
                0 <= k < t.inner.len() ==> {
                    &&& well_formed(#[trigger] t.inner[k], s)
                    &&& (k % 2 == 0 ==> t.inner[k].rule == Rule::Term)
                    &&& (k % 2 != 0 ==> is_operator(t.inner[k].rule))
                }
            &&& forall|k: int| 0 <= k < t.inner.len() - 1 ==> #[trigger] follows(t.inner, s, k)
        },
        Rule::Term => {
            &&& t.inner.len() == 1
            &&& well_formed(t.inner[0], s)
            &&& if t.inner[0].rule == Rule::Expr {
                &&& t.start < t.inner[0].start
                &&& t.inner[0].end < t.end
                &&& s[t.start] == OPEN
                &&& s[t.end - 1] == CLOSE
                &&& blank_between(s, t.start + 1, t.inner[0].start)
                &&& blank_between(s, t.inner[0].end, t.end - 1)
            } else {
                &&& t.inner[0].rule == Rule::Number || t.inner[0].rule == Rule::Var
                &&& t.inner[0].start == t.start
                &&& t.inner[0].end == t.end
            }
        },
        Rule::Number => t.inner.len() == 0 && number_end(s, t.start) == Some(t.end),
        Rule::Var => t.inner.len() == 0 && name_end(s, t.start) == Some(t.end),
        _ => t.inner.len() == 0 && t.end == t.start + 1 && operator_rule(s[t.start]) == Some(
            t.rule,
        ),
    }
}

/// Every byte before `n` is ASCII.
pub open spec fn ascii_before(s: Seq<u8>, n: int) -> bool {
    forall|k: int| 0 <= k < n && k < s.len() ==> #[trigger] s[k] < 0x80
}

/// A run of blanks is blank.
pub proof fn lemma_blank_run(s: Seq<u8>, i: int)
    requires
        0 <= i <= s.len(),
    ensures
        blank_between(s, i, run_end(s, Class::Blank, i)),
{
    reveal(blank_between);
    lemma_run_end(s, Class::Blank, i);
}

/// A run ends at or after its start, inside the text, and holds only bytes
/// of its class; the byte after it, if there is one, is not of the class.
pub proof fn lemma_run_end(s: Seq<u8>, class: Class, i: int)
    requires
        0 <= i <= s.len(),
    ensures
        i <= run_end(s, class, i) <= s.len(),
        forall|k: int| i <= k < run_end(s, class, i) ==> in_class(class, #[trigger] s[k]),
        run_end(s, class, i) < s.len() ==> !in_class(class, s[run_end(s, class, i)]),
    decreases s.len() - i,
{
    if i < s.len() && in_class(class, s[i]) {
        lemma_run_end(s, class, i + 1);
    }
}

} // verus!
