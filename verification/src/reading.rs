//! A text has one reading: the tree that spells it is the tree that the
//! grammar makes of it.

use crate::engine::{constructed, Calc};
use crate::grammar::{
    blank_between, expr_at, follows, is_blank, leaf, lemma_run_end, more_at, node, operator_rule,
    parsed, run_end, term_at, well_formed, Class, Parsed, Rule, Tree,
};
use crate::position::SyntaxError;
use vstd::prelude::*;
use vstd::utf8::encode_utf8;

verus! {

/// After `end`, and the blanks that follow, no operator stands.
pub open spec fn stops(s: Seq<u8>, end: int) -> bool {
    let at = run_end(s, Class::Blank, end);
    at >= s.len() || operator_rule(s[at]) is None
}

/// A stretch of blanks that ends before a byte that is no blank, or at the
/// end of the text, is a whole run of blanks.
pub proof fn lemma_blank_stops(s: Seq<u8>, from: int, to: int)
    requires
        0 <= from <= to <= s.len(),
        blank_between(s, from, to),
        to == s.len() || !is_blank(s[to]),
    ensures
        run_end(s, Class::Blank, from) == to,
    decreases to - from,
{
    reveal(blank_between);
    if from < to {
        assert(is_blank(s[from]));
        lemma_blank_stops(s, from + 1, to);
    }
}

/// A term or an expression is not empty, and its first byte is no blank.
pub proof fn lemma_first_byte(t: Tree, s: Seq<u8>)
    requires
        well_formed(t, s),
        t.rule == Rule::Term || t.rule == Rule::Expr,
    ensures
        0 <= t.start < t.end <= s.len(),
        !is_blank(s[t.start]),
    decreases t,
{
    if t.rule == Rule::Expr {
        assert(well_formed(t.inner[0], s));
        lemma_first_byte(t.inner[0], s);
        assert(well_formed(t.inner[t.inner.len() - 1], s));
        lemma_spans_ordered(t, s, t.inner.len() - 1);
    } else {
        let child = t.inner[0];
        assert(well_formed(child, s));
        if child.rule == Rule::Number {
            let digits = if s[t.start] == crate::grammar::PLUS || s[t.start]
                == crate::grammar::MINUS {
                t.start + 1
            } else {
                t.start
            };
            if t.start >= s.len() {
                assert(run_end(s, Class::Digit, t.start) == t.start);
            }
            lemma_run_end(s, Class::Digit, digits);
        } else if child.rule == Rule::Var {
            lemma_run_end(s, Class::Name, t.start + 1);
        }
    }
}

/// The children of an `expr` stand in the order of the text.
pub proof fn lemma_spans_ordered(t: Tree, s: Seq<u8>, k: int)
    requires
        well_formed(t, s),
        t.rule == Rule::Expr,
        0 <= k < t.inner.len(),
    ensures
        t.inner[0].start <= t.inner[k].start <= t.inner[k].end,
        t.inner[0].end <= t.inner[k].end,
    decreases k,
{
    assert(well_formed(t.inner[k], s));
    if k > 0 {
        lemma_spans_ordered(t, s, k - 1);
        assert(follows(t.inner, s, k - 1));
        assert(well_formed(t.inner[k - 1], s));
    }
}

/// A well-formed term is what the grammar makes of the text where the term
/// starts.
pub proof fn lemma_term_reading(t: Tree, s: Seq<u8>)
    requires
        well_formed(t, s),
        t.rule == Rule::Term,
    ensures
        term_at(s, t.start) == (Parsed::Match { tree: t, next: t.end }),
    decreases t, 0int,
{
    let child = t.inner[0];
    assert(well_formed(child, s));
    lemma_first_byte(t, s);
    assert(t.inner =~= seq![child]);
    if child.rule == Rule::Expr {
        lemma_first_byte(child, s);
        lemma_blank_stops(s, t.start + 1, child.start);
        lemma_blank_stops(s, child.end, t.end - 1);
        lemma_expr_reading(child, s);
        assert(t == node(Rule::Term, t.start, t.end, seq![child]));
    } else {
        assert(child.inner =~= Seq::<Tree>::empty());
        assert(child == leaf(child.rule, t.start, t.end));
        assert(t == node(Rule::Term, t.start, t.end, seq![child]));
        if child.rule == Rule::Var {
            assert(run_end(s, Class::Digit, t.start) == t.start);
        }
    }
}

/// A well-formed expression after which no operator stands is what the
/// grammar makes of the text where the expression starts.
pub proof fn lemma_expr_reading(t: Tree, s: Seq<u8>)
    requires
        well_formed(t, s),
        t.rule == Rule::Expr,
        stops(s, t.end),
    ensures
        expr_at(s, t.start) == (Parsed::Match { tree: t, next: t.end }),
    decreases t, t.inner.len() + 1,
{
    let first = t.inner[0];
    assert(well_formed(first, s));
    lemma_first_byte(first, s);
    lemma_term_reading(first, s);
    assert(t.inner.take(1) =~= seq![first]);
    lemma_more_reading(t, s, 0);
}

/// The repetition in `expr` from child `2 * j` of a well-formed
/// expression on.
pub proof fn lemma_more_reading(t: Tree, s: Seq<u8>, j: int)
    requires
        well_formed(t, s),
        t.rule == Rule::Expr,
        stops(s, t.end),
        0 <= j,
        2 * j < t.inner.len(),
    ensures
        more_at(s, t.start, t.inner.take(2 * j + 1), t.inner[2 * j].end) == (Parsed::Match {
            tree: t,
            next: t.end,
        }),
    decreases t, t.inner.len() - 2 * j,
{
    let here = t.inner[2 * j];
    assert(well_formed(here, s));
    if 2 * j + 1 == t.inner.len() {
        assert(t.inner.take(2 * j + 1) =~= t.inner);
        assert(t == node(Rule::Expr, t.start, t.end, t.inner));
    } else {
        let sign = t.inner[2 * j + 1];
        let operand = t.inner[2 * j + 2];
        assert(well_formed(sign, s));
        assert(well_formed(operand, s));
        assert(follows(t.inner, s, 2 * j));
        assert(follows(t.inner, s, 2 * j + 1));
        lemma_first_byte(operand, s);
        lemma_blank_stops(s, here.end, sign.start);
        lemma_blank_stops(s, sign.end, operand.start);
        lemma_term_reading(operand, s);
        assert(sign.inner =~= Seq::<Tree>::empty());
        assert(sign == leaf(sign.rule, sign.start, sign.start + 1));
        assert(t.inner.take(2 * j + 1).push(sign).push(operand) =~= t.inner.take(2 * j + 3));
        lemma_more_reading(t, s, j + 1);
    }
}

/// A whole text has one reading: a tree that spells the text as a `calc` is
/// the tree that the grammar makes of it.
pub proof fn law_one_reading(t: Tree, s: Seq<u8>)
    requires
        well_formed(t, s),
        t.rule == Rule::Calc,
    ensures
        parsed(s) == (Parsed::Match { tree: t, next: s.len() as int }),
{
    let whole = t.inner[0];
    lemma_first_byte(whole, s);
    lemma_blank_stops(s, 0, whole.start);
    lemma_blank_stops(s, whole.end, s.len() as int);
    lemma_expr_reading(whole, s);
    assert(t.inner =~= seq![whole]);
    assert(t == node(Rule::Calc, 0, s.len() as int, seq![whole]));
}

/// Two trees that spell one text as a `calc` are one tree.
pub proof fn law_unambiguous(a: Tree, b: Tree, s: Seq<u8>)
    requires
        well_formed(a, s),
        a.rule == Rule::Calc,
        well_formed(b, s),
        b.rule == Rule::Calc,
    ensures
        a == b,
{
    law_one_reading(a, s);
    law_one_reading(b, s);
}

/// Where the grammar gives out, no tree spells the text as a `calc`.
pub proof fn law_no_reading(s: Seq<u8>)
    requires
        parsed(s) is Fail,
    ensures
        forall|t: Tree| !(#[trigger] well_formed(t, s) && t.rule == Rule::Calc),
{
    assert forall|t: Tree| !(#[trigger] well_formed(t, s) && t.rule == Rule::Calc) by {
        if well_formed(t, s) && t.rule == Rule::Calc {
            law_one_reading(t, s);
        }
    }
}

/// A text is accepted exactly where a tree spells it as a `calc`; the
/// calculator then holds that tree.
pub proof fn law_accepts_readings(expression: Seq<char>, r: Result<Calc<'_>, SyntaxError>)
    requires
        constructed(expression, r),
    ensures
        r is Ok <==> exists|t: Tree| #[trigger]
            well_formed(t, encode_utf8(expression)) && t.rule == Rule::Calc,
        r is Ok ==> forall|t: Tree| #[trigger]
            well_formed(t, encode_utf8(expression)) && t.rule == Rule::Calc ==> t
                == r->Ok_0.tree(),
{
    let s = encode_utf8(expression);
    match parsed(s) {
        Parsed::Match { tree, .. } => {
            assert(well_formed(tree, s) && tree.rule == Rule::Calc);
            assert forall|t: Tree| #[trigger] well_formed(t, s) && t.rule == Rule::Calc implies t
                == tree by {
                law_one_reading(t, s);
            }
        },
        Parsed::Fail { .. } => {
            law_no_reading(s);
        },
    }
}

} // verus!
