//! What holds of the engine as a whole.

use crate::climber::{
    binding, group, lemma_split, operation, operator_table, sign, split, Side, Token,
};
use crate::engine::{constructed, operands, outcome, resolved, slot_from, Calc};
use crate::grammar::{
    expr_at, is_name, is_number, is_operator, lemma_run_end, more_at, name_end, number_end,
    operator_rule, run_end, term_at, well_formed, Class, Parsed, Rule, Tree,
};
use crate::plan::{computable, EvalError, Plan};
use crate::position::SyntaxError;
use vstd::prelude::*;
use vstd::utf8::encode_utf8;

verus! {

/// Resolving is a function of the calculator and the table: two results
/// for the same calculator and the same names are one result.
pub proof fn law_eval_deterministic(
    calc: Calc<'_>,
    names: Seq<&str>,
    first: Result<Plan, EvalError>,
    second: Result<Plan, EvalError>,
)
    requires
        resolved(calc, names, first),
        resolved(calc, names, second),
    ensures
        first == second,
{
}

/// Parsing is a function of the text: made twice of one text, two
/// calculators hold the same tree, or fail with the same error, and
/// resolve alike against the same names.
pub proof fn law_parse_deterministic(
    expression: Seq<char>,
    first: Result<Calc<'_>, SyntaxError>,
    second: Result<Calc<'_>, SyntaxError>,
    names: Seq<&str>,
)
    requires
        constructed(expression, first),
        constructed(expression, second),
    ensures
        first is Ok <==> second is Ok,
        first is Err ==> first->Err_0 == second->Err_0,
        first is Ok ==> first->Ok_0.tree() == second->Ok_0.tree() && first->Ok_0.text()
            == second->Ok_0.text(),
        first is Ok ==> forall|a: Result<Plan, EvalError>, b: Result<Plan, EvalError>|
            resolved(first->Ok_0, names, a) && resolved(second->Ok_0, names, b) ==> a == b,
{
}

/// Among operators that bind alike, the last is applied last: a chain of
/// them groups to the left.
pub proof fn law_left_associative(tokens: Seq<Token>, plans: Seq<Plan>, lo: int, hi: int)
    requires
        0 <= lo < hi < plans.len(),
        forall|j: int|
            lo <= j < hi ==> binding(#[trigger] sign(tokens, j).rule) == binding(
                sign(tokens, lo).rule,
            ),
    ensures
        split(tokens, lo, hi) == hi - 1,
        group(tokens, plans, lo, hi) == (Plan::Apply {
            op: operation(sign(tokens, hi - 1).rule),
            lhs: Box::new(group(tokens, plans, lo, hi - 1)),
            rhs: Box::new(plans[hi]),
        }),
{
    lemma_split(tokens, lo, hi);
    let p = split(tokens, lo, hi);
    if p < hi - 1 {
        assert(binding(sign(tokens, hi - 1).rule) > binding(sign(tokens, p).rule));
    }
    assert(group(tokens, plans, hi, hi) == plans[hi]);
}

/// The operator applied last binds loosest: no operator of the run binds
/// looser than the one at the root of its plan.
pub proof fn law_loosest_last(tokens: Seq<Token>, lo: int, hi: int)
    requires
        lo < hi,
    ensures
        lo <= split(tokens, lo, hi) < hi,
        forall|j: int|
            lo <= j < hi ==> binding(sign(tokens, split(tokens, lo, hi)).rule) <= binding(
                #[trigger] sign(tokens, j).rule,
            ),
{
    lemma_split(tokens, lo, hi);
}

/// Of two operators in a row, the second is applied first exactly where it
/// binds tighter than the first.
pub proof fn law_two_operators(tokens: Seq<Token>, plans: Seq<Plan>, lo: int)
    requires
        0 <= lo,
        lo + 2 < plans.len(),
    ensures
        binding(sign(tokens, lo + 1).rule) > binding(sign(tokens, lo).rule) ==> group(
            tokens,
            plans,
            lo,
            lo + 2,
        ) == (Plan::Apply {
            op: operation(sign(tokens, lo).rule),
            lhs: Box::new(plans[lo]),
            rhs: Box::new(
                Plan::Apply {
                    op: operation(sign(tokens, lo + 1).rule),
                    lhs: Box::new(plans[lo + 1]),
                    rhs: Box::new(plans[lo + 2]),
                },
            ),
        }),
        binding(sign(tokens, lo + 1).rule) <= binding(sign(tokens, lo).rule) ==> group(
            tokens,
            plans,
            lo,
            lo + 2,
        ) == (Plan::Apply {
            op: operation(sign(tokens, lo + 1).rule),
            lhs: Box::new(
                Plan::Apply {
                    op: operation(sign(tokens, lo).rule),
                    lhs: Box::new(plans[lo]),
                    rhs: Box::new(plans[lo + 1]),
                },
            ),
            rhs: Box::new(plans[lo + 2]),
        }),
{
    reveal_with_fuel(split, 3);
    reveal_with_fuel(group, 3);
}

/// The place where a run is split is the only operator of the run with
/// none looser on its left and only tighter ones on its right.
pub proof fn law_split_unique(tokens: Seq<Token>, lo: int, hi: int, p: int)
    requires
        lo <= p < hi,
        forall|j: int|
            lo <= j < p ==> binding(#[trigger] sign(tokens, j).rule) >= binding(
                sign(tokens, p).rule,
            ),
        forall|j: int|
            p < j < hi ==> binding(#[trigger] sign(tokens, j).rule) > binding(sign(tokens, p).rule),
    ensures
        split(tokens, lo, hi) == p,
{
    lemma_split(tokens, lo, hi);
    let q = split(tokens, lo, hi);
    if q < p {
        assert(binding(sign(tokens, p).rule) > binding(sign(tokens, q).rule));
        assert(binding(sign(tokens, q).rule) >= binding(sign(tokens, p).rule));
    } else if p < q {
        assert(binding(sign(tokens, q).rule) > binding(sign(tokens, p).rule));
        assert(binding(sign(tokens, p).rule) >= binding(sign(tokens, q).rule));
    }
}

/// The operator table and `binding` say the same: the operators of level
/// `k` of the table bind with strength `k + 1`, every operator is in the
/// table, and all of them group to the left.
pub proof fn law_table()
    ensures
        forall|k: int, j: int|
            0 <= k < operator_table().len() && 0 <= j < operator_table()[k].len() ==> {
                &&& binding((#[trigger] operator_table()[k][j]).0) == k + 1
                &&& operator_table()[k][j].1 == Side::Left
            },
        forall|rule: Rule|
            is_operator(rule) ==> exists|k: int, j: int|
                0 <= k < operator_table().len() && 0 <= j < operator_table()[k].len()
                    && (#[trigger] operator_table()[k][j]).0 == rule,
{
    assert(operator_table()[0][0].0 == Rule::Add);
    assert(operator_table()[0][1].0 == Rule::Sub);
    assert(operator_table()[1][0].0 == Rule::Mul);
    assert(operator_table()[1][1].0 == Rule::Div);
}

/// What stands in parentheses resolves by itself: a term, and likewise the
/// whole `calc`, resolves to what its one child resolves to.
pub proof fn law_parentheses(t: Tree, source: Seq<char>, names: Seq<Seq<u8>>)
    requires
        t.rule == Rule::Term || t.rule == Rule::Calc,
        t.inner.len() == 1,
    ensures
        outcome(t, source, names) == outcome(t.inner[0], source, names),
{
}

/// A variable resolves to the first entry of the table that holds its
/// name, and fails exactly where no entry holds it.
pub proof fn law_slot(names: Seq<Seq<u8>>, name: Seq<u8>, from: int)
    requires
        0 <= from,
    ensures
        match slot_from(names, name, from) {
            Some(k) => {
                &&& from <= k < names.len()
                &&& names[k] == name
                &&& forall|j: int| from <= j < k ==> names[j] != name
            },
            None => forall|j: int| from <= j < names.len() ==> names[j] != name,
        },
    decreases names.len() - from,
{
    if from < names.len() && names[from] != name {
        law_slot(names, name, from + 1);
    }
}

/// A run inside a piece of the text is the run in the whole text, cut off
/// at the end of the piece.
pub proof fn lemma_run_in_piece(s: Seq<u8>, class: Class, from: int, to: int, i: int)
    requires
        0 <= from <= i <= to <= s.len(),
    ensures
        run_end(s.subrange(from, to), class, i - from) == if run_end(s, class, i) <= to {
            run_end(s, class, i) - from
        } else {
            to - from
        },
    decreases to - i,
{
    lemma_run_end(s, class, i);
    if i < to {
        assert(s.subrange(from, to)[i - from] == s[i]);
        lemma_run_in_piece(s, class, from, to, i + 1);
    }
}

/// What a `number` node matched is a number by itself: optional sign,
/// digits, and where a point follows, digits after it.
pub proof fn law_number_text(s: Seq<u8>, start: int, end: int)
    requires
        0 <= start,
        number_end(s, start) == Some(end),
    ensures
        start < end <= s.len(),
        is_number(s.subrange(start, end)),
{
    let text = s.subrange(start, end);
    let digits = if s[start] == crate::grammar::PLUS || s[start] == crate::grammar::MINUS {
        start + 1
    } else {
        start
    };
    if start >= s.len() {
        assert(run_end(s, Class::Digit, start) == start);
    }
    lemma_run_end(s, Class::Digit, digits);
    let whole = run_end(s, Class::Digit, digits);
    if whole < s.len() {
        lemma_run_end(s, Class::Digit, whole + 1);
    }
    assert(text[0] == s[start]);
    lemma_run_in_piece(s, Class::Digit, start, end, digits);
    if end > whole {
        assert(text[whole - start] == s[whole]);
        lemma_run_in_piece(s, Class::Digit, start, end, whole + 1);
    }
}

/// What a `var` node matched is a name by itself.
pub proof fn law_name_text(s: Seq<u8>, start: int, end: int)
    requires
        0 <= start,
        name_end(s, start) == Some(end),
    ensures
        start < end <= s.len(),
        is_name(s.subrange(start, end)),
{
    lemma_run_end(s, Class::Name, start + 1);
    assert(s.subrange(start, end)[0] == s[start]);
    lemma_run_in_piece(s, Class::Name, start, end, start + 1);
}

/// The repetition in `expr` never moves back, and ends inside the text.
pub proof fn lemma_more_progress(s: Seq<u8>, start: int, inner: Seq<Tree>, end: int)
    requires
        0 <= end <= s.len(),
    ensures
        more_at(s, start, inner, end) matches Parsed::Match { next, .. } ==> end <= next
            <= s.len(),
    decreases s.len() - end,
{
    lemma_run_end(s, Class::Blank, end);
    let at = run_end(s, Class::Blank, end);
    if at < s.len() && operator_rule(s[at]) is Some {
        let operand = run_end(s, Class::Blank, at + 1);
        if at < operand <= s.len() {
            if let Parsed::Match { tree, next } = term_at(s, operand) {
                if operand < next <= s.len() {
                    lemma_more_progress(
                        s,
                        start,
                        inner.push(crate::grammar::leaf(operator_rule(s[at])->0, at, at + 1)).push(
                            tree,
                        ),
                        next,
                    );
                }
            }
        }
    }
}

/// An expression that matches is not empty and ends inside the text.
pub proof fn lemma_expr_progress(s: Seq<u8>, i: int)
    requires
        0 <= i <= s.len(),
    ensures
        expr_at(s, i) matches Parsed::Match { next, .. } ==> i < next <= s.len(),
{
    if let Parsed::Match { tree, next } = term_at(s, i) {
        if i < next <= s.len() {
            lemma_more_progress(s, i, seq![tree], next);
        }
    }
}

/// A term or an expression that matches is not empty and ends inside the
/// text. (These are the bounds that the grammar looks at before it goes on
/// after a match: they always hold.)
pub proof fn law_progress(s: Seq<u8>, i: int)
    requires
        0 <= i <= s.len(),
    ensures
        term_at(s, i) matches Parsed::Match { next, .. } ==> i < next <= s.len(),
        expr_at(s, i) matches Parsed::Match { next, .. } ==> i < next <= s.len(),
{
    lemma_expr_progress(s, i);
    if number_end(s, i) is Some {
        let digits = if i < s.len() && (s[i] == crate::grammar::PLUS || s[i]
            == crate::grammar::MINUS) {
            i + 1
        } else {
            i
        };
        lemma_run_end(s, Class::Digit, digits);
        let whole = run_end(s, Class::Digit, digits);
        if whole < s.len() {
            lemma_run_end(s, Class::Digit, whole + 1);
        }
    } else if name_end(s, i) is Some {
        lemma_run_end(s, Class::Name, i + 1);
    } else if i < s.len() {
        lemma_run_end(s, Class::Blank, i + 1);
        let inside = run_end(s, Class::Blank, i + 1);
        lemma_expr_progress(s, inside);
        if let Parsed::Match { tree, next } = expr_at(s, inside) {
            lemma_run_end(s, Class::Blank, next);
        }
    }
}

/// Grouping plans that can be computed gives a plan that can be computed.
pub proof fn lemma_group_computable(
    tokens: Seq<Token>,
    plans: Seq<Plan>,
    lo: int,
    hi: int,
    s: Seq<u8>,
    slots: nat,
)
    requires
        0 <= lo <= hi < plans.len(),
        forall|k: int| lo <= k <= hi ==> computable(#[trigger] plans[k], s, slots),
    ensures
        computable(group(tokens, plans, lo, hi), s, slots),
    decreases hi - lo,
{
    if lo < hi {
        lemma_split(tokens, lo, hi);
        let p = split(tokens, lo, hi);
        lemma_group_computable(tokens, plans, lo, p, s, slots);
        lemma_group_computable(tokens, plans, p + 1, hi, s, slots);
    }
}

/// The plans of the first operands of a well-formed `expr` node can be
/// computed.
pub proof fn lemma_operands_computable(
    t: Tree,
    source: Seq<char>,
    names: Seq<Seq<u8>>,
    count: int,
)
    requires
        well_formed(t, encode_utf8(source)),
        t.rule == Rule::Expr,
        0 <= count,
        2 * count - 2 < t.inner.len(),
        encode_utf8(source).len() <= usize::MAX,
        operands(t, source, names, count) is Ok,
    ensures
        operands(t, source, names, count)->Ok_0.len() == count,
        forall|k: int|
            0 <= k < count ==> computable(
                #[trigger] operands(t, source, names, count)->Ok_0[k],
                encode_utf8(source),
                names.len(),
            ),
    decreases t, count,
{
    if count > 0 {
        lemma_operands_computable(t, source, names, count - 1);
        let child = t.inner[2 * count - 2];
        assert(well_formed(child, encode_utf8(source)));
        law_computable(child, source, names);
    }
}

/// What a well-formed tree resolves to can be computed: the text of every
/// number in the plan is a number, so that reading it cannot fail, and
/// every slot in the plan is a slot of the table.
pub proof fn law_computable(t: Tree, source: Seq<char>, names: Seq<Seq<u8>>)
    requires
        well_formed(t, encode_utf8(source)),
        !is_operator(t.rule),
        encode_utf8(source).len() <= usize::MAX,
    ensures
        outcome(t, source, names) matches Ok(plan) ==> computable(
            plan,
            encode_utf8(source),
            names.len(),
        ),
    decreases t, t.inner.len() + 2,
{
    let s = encode_utf8(source);
    match t.rule {
        Rule::Number => {
            law_number_text(s, t.start, t.end);
        },
        Rule::Var => {
            law_slot(names, s.subrange(t.start, t.end), 0);
        },
        Rule::Expr => {
            let count = (t.inner.len() as int + 1) / 2;
            if let Ok(plans) = operands(t, source, names, count) {
                lemma_operands_computable(t, source, names, count);
                lemma_group_computable(
                    crate::engine::tokens_of(t.inner),
                    plans,
                    0,
                    plans.len() - 1,
                    s,
                    names.len(),
                );
            }
        },
        _ => {
            law_computable(t.inner[0], source, names);
        },
    }
}

} // verus!
