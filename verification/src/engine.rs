//! The calculator: an expression parsed once and resolved at will.

use crate::climber::{
    arrange, climb, climbed, group, in_text, levels, operator_table, operators, skeleton, Side,
    Token,
};
use crate::grammar::{ascii_before, is_operator, parsed, well_formed, Parsed, Rule, Tree};
use crate::laws::law_computable;
use crate::parser::{parse, views, Pair};
use crate::plan::{computable, EvalError, Plan};
use crate::position::{column_of, lemma_ascii_boundary, line_col, line_of, SyntaxError};
use vstd::prelude::*;
use vstd::string::StringSliceAdditionalSpecFns;
use vstd::utf8::{encode_utf8, encode_utf8_valid_utf8};

verus! {

/// The children of an `expr` node as the tokens that the climber groups.
pub open spec fn tokens_of(inner: Seq<Tree>) -> Seq<Token> {
    Seq::new(
        inner.len(),
        |k: int| Token { rule: inner[k].rule, start: inner[k].start as usize, end: inner[k].end as usize },
    )
}

/// The names of a table as bytes.
pub open spec fn name_bytes(names: Seq<&str>) -> Seq<Seq<u8>> {
    Seq::new(names.len(), |k: int| names[k].spec_bytes())
}

/// The first entry from `from` on that holds `name`.
pub open spec fn slot_from(names: Seq<Seq<u8>>, name: Seq<u8>, from: int) -> Option<int>
    decreases names.len() - from,
{
    if from < 0 || from >= names.len() {
        None
    } else if names[from] == name {
        Some(from)
    } else {
        slot_from(names, name, from + 1)
    }
}

/// What an expression tree over the source `source` resolves to against
/// the table `names`: its plan, or the first thing that stood in the way,
/// going from left to right. A number becomes itself and a variable its
/// slot in the table; `calc` and `term` resolve to what their child resolves
/// to; the operands of an `expr` are grouped as the climber groups them, and
/// that has to be the grouping by precedence. Of a tree that the grammar
/// cannot give (an operator by itself, a node without its child) nothing is
/// said.
pub open spec fn outcome(t: Tree, source: Seq<char>, names: Seq<Seq<u8>>) -> Result<Plan, EvalError>
    decreases t, t.inner.len() + 2,
{
    match t.rule {
        Rule::Number => Ok(Plan::Number { start: t.start as usize, end: t.end as usize }),
        Rule::Var => match slot_from(names, encode_utf8(source).subrange(t.start, t.end), 0) {
            Some(slot) => Ok(Plan::Variable { slot: slot as usize }),
            None => Err(
                EvalError::UndefinedVariable { start: t.start as usize, end: t.end as usize },
            ),
        },
        Rule::Expr => match operands(t, source, names, (t.inner.len() as int + 1) / 2) {
            Ok(plans) => {
                let tokens = tokens_of(t.inner);
                if climbed(source, operator_table(), tokens) == skeleton(
                    tokens,
                    0,
                    plans.len() - 1,
                ) {
                    Ok(group(tokens, plans, 0, plans.len() - 1))
                } else {
                    Err(EvalError::Grouping { start: t.start as usize, end: t.end as usize })
                }
            },
            Err(e) => Err(e),
        },
        _ => if !is_operator(t.rule) && t.inner.len() > 0 {
            outcome(t.inner[0], source, names)
        } else {
            arbitrary()
        },
    }
}

/// The plans of the first `count` operands of the `expr` node `t`, or the
/// first failure among them.
pub open spec fn operands(t: Tree, source: Seq<char>, names: Seq<Seq<u8>>, count: int) -> Result<
    Seq<Plan>,
    EvalError,
>
    decreases t, count,
{
    if count <= 0 || 2 * count - 2 >= t.inner.len() {
        Ok(Seq::empty())
    } else {
        match operands(t, source, names, count - 1) {
            Ok(plans) => match outcome(t.inner[2 * count - 2], source, names) {
                Ok(plan) => Ok(plans.push(plan)),
                Err(e) => Err(e),
            },
            Err(e) => Err(e),
        }
    }
}

/// A failure among the first operands is the failure of any longer row.
pub proof fn lemma_operands_fail(
    t: Tree,
    source: Seq<char>,
    names: Seq<Seq<u8>>,
    count: int,
    more: int,
)
    requires
        0 < count <= more,
        2 * more - 2 < t.inner.len(),
        operands(t, source, names, count) is Err,
    ensures
        operands(t, source, names, more) == operands(t, source, names, count),
    decreases more - count,
{
    if count < more {
        lemma_operands_fail(t, source, names, count, more - 1);
    }
}

/// An expression, parsed and ready to be resolved.
pub struct Calc<'a> {
    source: &'a str,
    root: Pair,
    table: Vec<Vec<(Rule, Side)>>,
}

fn same_text(s: &[u8], start: usize, end: usize, name: &[u8]) -> (same: bool)
    requires
        start <= end <= s@.len(),
    ensures
        same == (s@.subrange(start as int, end as int) == name@),
{
    if name.len() != end - start {
        return false;
    }
    let mut k: usize = 0;
    while k < name.len()
        invariant
            start <= end <= s@.len(),
            name@.len() == end - start,
            k <= name@.len(),
            forall|j: int| 0 <= j < k ==> s@[start + j] == name@[j],
        decreases name@.len() - k,
    {
        if s[start + k] != name[k] {
            assert(s@.subrange(start as int, end as int)[k as int] != name@[k as int]);
            return false;
        }
        k += 1;
    }
    assert(s@.subrange(start as int, end as int) =~= name@);
    true
}

fn lookup(s: &[u8], start: usize, end: usize, names: &Vec<&str>) -> (slot: Option<usize>)
    requires
        start <= end <= s@.len(),
    ensures
        match slot {
            Some(k) => slot_from(name_bytes(names@), s@.subrange(start as int, end as int), 0)
                == Some(k as int),
            None => slot_from(name_bytes(names@), s@.subrange(start as int, end as int), 0)
                is None,
        },
{
    let ghost wanted = s@.subrange(start as int, end as int);
    let mut k: usize = 0;
    while k < names.len()
        invariant
            start <= end <= s@.len(),
            wanted == s@.subrange(start as int, end as int),
            k <= names@.len(),
            slot_from(name_bytes(names@), wanted, k as int) == slot_from(
                name_bytes(names@),
                wanted,
                0,
            ),
        decreases names@.len() - k,
    {
        if same_text(s, start, end, names[k].as_bytes()) {
            return Some(k);
        }
        k += 1;
    }
    None
}

impl<'a> Calc<'a> {
    #[verifier::type_invariant]
    spec fn sane(self) -> bool {
        &&& parsed(self.source.spec_bytes()) == (Parsed::Match {
            tree: self.root@,
            next: self.source.spec_bytes().len() as int,
        })
        &&& well_formed(self.root@, self.source.spec_bytes())
        &&& ascii_before(self.source.spec_bytes(), self.source.spec_bytes().len() as int)
        &&& self.source.spec_bytes().len() <= usize::MAX
        &&& levels(self.table) == operator_table()
    }

    /// The source text.
    pub closed spec fn text(self) -> Seq<char> {
        self.source@
    }

    /// The parse tree of the source text.
    pub closed spec fn tree(self) -> Tree {
        self.root@
    }

    /// Parses `expression`. The whole text has to be one `calc`; where it
    /// is not, the error names the place where the grammar gave out.
    pub fn new(expression: &'a str) -> (r: Result<Calc<'a>, SyntaxError>)
        ensures
            constructed(expression@, r),
    {
        match parse(expression.as_bytes()) {
            Ok(root) => Ok(Calc { source: expression, root, table: operators() }),
            Err(f) => {
                proof {
                    encode_utf8_valid_utf8(expression@);
                    lemma_ascii_boundary(expression.spec_bytes(), f.at as int);
                }
                let (line, column) = line_col(expression, f.at);
                Err(SyntaxError { position: f.at, line, column, expected: f.expected })
            },
        }
    }

    /// The source text.
    pub fn source(&self) -> (source: &'a str)
        ensures
            source@ == self.text(),
    {
        self.source
    }

    /// The parse tree.
    pub fn root(&self) -> (root: &Pair)
        ensures
            root@ == self.tree(),
    {
        &self.root
    }

    /// Resolves the expression with no variable bound.
    pub fn eval(&self) -> (r: Result<Plan, EvalError>)
        ensures
            resolved(*self, Seq::empty(), r),
            r matches Ok(plan) ==> computable(plan, encode_utf8(self.text()), 0),
    {
        let names: Vec<&str> = Vec::new();
        assert(name_bytes(names@) =~= Seq::<Seq<u8>>::empty());
        self.eval_in_context(&names)
    }

    /// Resolves the expression against a table of variable names: entry
    /// `slot` of `names` is the name of the variable `slot`.
    pub fn eval_in_context(&self, names: &Vec<&str>) -> (r: Result<Plan, EvalError>)
        ensures
            resolved(*self, names@, r),
            r matches Ok(plan) ==> computable(plan, encode_utf8(self.text()), names@.len()),
    {
        proof {
            use_type_invariant(self);
            law_computable(self.root@, self.source@, name_bytes(names@));
        }
        self.eval_rule(&self.root, names)
    }

    /// Resolves one node of the tree, by its rule.
    fn eval_rule(&self, pair: &Pair, names: &Vec<&str>) -> (r: Result<Plan, EvalError>)
        requires
            well_formed(pair@, encode_utf8(self.text())),
            !is_operator(pair.rule),
        ensures
            r == outcome(pair@, self.text(), name_bytes(names@)),
        decreases pair, 1int,
    {
        proof {
            use_type_invariant(self);
            pair.lemma_inner();
        }
        match pair.rule {
            Rule::Number => Ok(Plan::Number { start: pair.start, end: pair.end }),
            Rule::Var => match lookup(self.source.as_bytes(), pair.start, pair.end, names) {
                Some(slot) => Ok(Plan::Variable { slot }),
                None => Err(EvalError::UndefinedVariable { start: pair.start, end: pair.end }),
            },
            Rule::Expr => self.eval_expr(pair, names),
            _ => {
                assert(pair@.inner[0] == pair.inner@[0]@);
                self.eval_rule(&pair.inner[0], names)
            },
        }
    }

    /// Resolves an `expr` node: its operands from left to right, then the
    /// grouping of them that the climber gives, held against precedence.
    fn eval_expr(&self, pair: &Pair, names: &Vec<&str>) -> (r: Result<Plan, EvalError>)
        requires
            well_formed(pair@, encode_utf8(self.text())),
            pair.rule == Rule::Expr,
        ensures
            r == outcome(pair@, self.text(), name_bytes(names@)),
        decreases pair, 0int,
    {
        let count = pair.inner.len();
        let mut tokens: Vec<Token> = Vec::new();
        let mut plans: Vec<Plan> = Vec::new();
        let mut k: usize = 0;
        proof {
            use_type_invariant(self);
            pair.lemma_inner();
            lemma_expr_children(pair@, encode_utf8(self.text()));
        }
        while k < count
            invariant
                count == pair.inner@.len(),
                count % 2 == 1,
                k <= count,
                pair.rule == Rule::Expr,
                pair@.inner == views(pair.inner@),
                children_well_formed(pair@, encode_utf8(self.text())),
                tokens@ == tokens_of(pair@.inner).take(k as int),
                plans@.len() == (k + 1) / 2,
                operands(pair@, self.text(), name_bytes(names@), (k + 1) / 2) == Ok::<
                    Seq<Plan>,
                    EvalError,
                >(plans@),
            decreases count - k,
        {
            let child = &pair.inner[k];
            assert(pair@.inner[k as int] == child@);
            tokens.push(Token { rule: child.rule, start: child.start, end: child.end });
            assert(tokens@ =~= tokens_of(pair@.inner).take(k + 1));
            if k % 2 == 0 {
                match self.eval_rule(child, names) {
                    Ok(plan) => {
                        plans.push(plan);
                    },
                    Err(e) => {
                        proof {
                            lemma_operands_fail(
                                pair@,
                                self.text(),
                                name_bytes(names@),
                                (k + 2) / 2,
                                (count + 1) / 2,
                            );
                        }
                        return Err(e);
                    },
                }
            }
            k += 1;
        }
        assert(tokens@ =~= tokens_of(pair@.inner));
        proof {
            use_type_invariant(self);
            lemma_tokens_in_text(pair@, self.text());
            lemma_levels(self.table);
        }
        let shape = climb(self.source, &self.table, &tokens);
        match arrange(&shape, &tokens, &plans) {
            Some(plan) => Ok(plan),
            None => Err(EvalError::Grouping { start: pair.start, end: pair.end }),
        }
    }
}

/// What `Calc::new` owes for the text `expression`: where the grammar
/// matches the whole of it, a calculator over that text and its parse tree;
/// where it does not, the place where the grammar gave out, as byte offset,
/// line and column, and what was looked for there.
pub open spec fn constructed(expression: Seq<char>, r: Result<Calc<'_>, SyntaxError>) -> bool {
    let s = encode_utf8(expression);
    match parsed(s) {
        Parsed::Match { tree, .. } => {
            &&& r matches Ok(calc)
            &&& calc.text() == expression
            &&& calc.tree() == tree
            &&& well_formed(tree, s)
        },
        Parsed::Fail { at, expected } => {
            &&& r matches Err(e)
            &&& e.position == at
            &&& e.position <= s.len()
            &&& e.line == line_of(s, at)
            &&& e.column == column_of(s, at)
            &&& e.expected == expected
        },
    }
}

/// What resolving `calc` against the table `names` owes.
pub open spec fn resolved(calc: Calc<'_>, names: Seq<&str>, r: Result<Plan, EvalError>) -> bool {
    r == outcome(calc.tree(), calc.text(), name_bytes(names))
}

/// The children of a well-formed `expr` node, one by one.
pub open spec fn children_well_formed(t: Tree, s: Seq<u8>) -> bool {
    &&& t.inner.len() % 2 == 1
    &&& forall|k: int|
        0 <= k < t.inner.len() ==> {
            &&& well_formed(#[trigger] t.inner[k], s)
            &&& (k % 2 == 0 ==> t.inner[k].rule == Rule::Term)
            &&& (k % 2 != 0 ==> is_operator(t.inner[k].rule))
        }
}

/// A well-formed `expr` node has well-formed children.
pub proof fn lemma_expr_children(t: Tree, s: Seq<u8>)
    requires
        well_formed(t, s),
        t.rule == Rule::Expr,
    ensures
        children_well_formed(t, s),
{
    assert forall|k: int| 0 <= k < t.inner.len() implies {
        &&& well_formed(#[trigger] t.inner[k], s)
        &&& (k % 2 == 0 ==> t.inner[k].rule == Rule::Term)
        &&& (k % 2 != 0 ==> is_operator(t.inner[k].rule))
    } by {}
}

/// In a source that is all ASCII, the children of a well-formed `expr`
/// node are pieces of the text.
pub proof fn lemma_tokens_in_text(t: Tree, source: Seq<char>)
    requires
        children_well_formed(t, encode_utf8(source)),
        ascii_before(encode_utf8(source), encode_utf8(source).len() as int),
        encode_utf8(source).len() <= usize::MAX,
    ensures
        forall|j: int|
            0 <= j < tokens_of(t.inner).len() ==> in_text(
                encode_utf8(source),
                #[trigger] tokens_of(t.inner)[j],
            ),
{
    let s = encode_utf8(source);
    encode_utf8_valid_utf8(source);
    assert forall|j: int| 0 <= j < tokens_of(t.inner).len() implies in_text(
        s,
        #[trigger] tokens_of(t.inner)[j],
    ) by {
        assert(well_formed(t.inner[j], s));
        lemma_ascii_boundary(s, t.inner[j].start);
        lemma_ascii_boundary(s, t.inner[j].end);
    }
}

/// No level of the operator table is empty.
pub proof fn lemma_levels(table: Vec<Vec<(Rule, Side)>>)
    requires
        levels(table) == operator_table(),
    ensures
        forall|j: int| 0 <= j < table@.len() ==> (#[trigger] table@[j])@.len() > 0,
{
    assert(levels(table).len() == table@.len());
    assert forall|j: int| 0 <= j < table@.len() implies (#[trigger] table@[j])@.len() > 0 by {
        assert(levels(table)[j] == table@[j]@);
        assert(operator_table()[0].len() == 2);
        assert(operator_table()[1].len() == 2);
    }
}

} // verus!
