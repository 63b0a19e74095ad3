//! The boolean membership sub-language used inside rule bodies: expression
//! trees, a validity check on operand placement, and an evaluator over the
//! vertex sets of one query.

use vstd::prelude::*;

use crate::instance::{set_has, Sets};
use crate::strutil::{decimal_string, dec_spec, find_name, is_ws, is_ws_char, str_eq, views_of};

verus! {

broadcast use
    vstd::seq::axiom_seq_index_decreases,
    vstd::std_specs::vec::axiom_vec_index_decreases,
    vstd::std_specs::vec::axiom_vec_decreases_to_view;

/// A leaf of an expression tree.
#[derive(Clone, Copy, Debug)]
pub enum RuletableAtom {
    True,
    False,
    Current,
    Next,
    SetId(usize),
}

/// An operator node joining child expressions.
#[derive(Clone, Copy, Debug, PartialEq, Eq, Structural)]
pub enum Op {
    And,
    In,
    Not,
    NotIn,
    Or,
}

/// An expression tree: an atom, or an operator over child expressions.
#[derive(Debug)]
pub enum Expression {
    Atom(RuletableAtom),
    Junction(Op, Vec<Expression>),
}

/// An error raised while parsing or validating an expression.
#[derive(Debug)]
pub struct ParseExpressionError {
    msg: String,
}

impl ParseExpressionError {
    pub(crate) fn new(msg: String) -> (r: ParseExpressionError) {
        ParseExpressionError { msg }
    }

    /// The human-readable description of the error.
    pub fn message(&self) -> &str {
        self.msg.as_str()
    }
}

/// The atom is `current` or `next`.
pub open spec fn is_vertex_atom(e: Expression) -> bool {
    match e {
        Expression::Atom(a) => match a {
            RuletableAtom::Current | RuletableAtom::Next => true,
            _ => false,
        },
        _ => false,
    }
}

/// The atom names a set.
pub open spec fn is_set_atom(e: Expression) -> bool {
    match e {
        Expression::Atom(a) => match a {
            RuletableAtom::SetId(_) => true,
            _ => false,
        },
        _ => false,
    }
}

/// The set id of a set atom.
pub open spec fn atom_set_id(e: Expression) -> int {
    match e {
        Expression::Atom(a) => match a {
            RuletableAtom::SetId(id) => id as int,
            _ => 0,
        },
        _ => 0,
    }
}

/// The vertex a `current`/`next` atom denotes, given both endpoints.
pub open spec fn atom_vertex(e: Expression, v1: int, v2: int) -> int {
    match e {
        Expression::Atom(a) => match a {
            RuletableAtom::Current => v1,
            RuletableAtom::Next => v2,
            _ => 0,
        },
        _ => 0,
    }
}

/// Operand placement is valid: `true`/`false` are the only standalone atoms,
/// `in`/`not in` take a vertex atom on the left and a set atom on the right,
/// `not` takes one child and `and`/`or` at least one.
pub open spec fn expr_valid(e: Expression) -> bool
    decreases e,
{
    match e {
        Expression::Atom(a) => match a {
            RuletableAtom::True | RuletableAtom::False => true,
            _ => false,
        },
        Expression::Junction(op, es) => match op {
            Op::And | Op::Or => es@.len() >= 1 && forall|i: int|
                0 <= i < es@.len() ==> expr_valid(#[trigger] es@[i]),
            Op::In | Op::NotIn => es@.len() == 2 && is_vertex_atom(es@[0]) && is_set_atom(
                es@[1],
            ),
            Op::Not => es@.len() == 1 && expr_valid(es@[0]),
        },
    }
}

/// Every set atom in the tree names a set id below `k`.
pub open spec fn expr_sets_below(e: Expression, k: int) -> bool
    decreases e,
{
    match e {
        Expression::Atom(a) => match a {
            RuletableAtom::SetId(id) => id < k,
            _ => true,
        },
        Expression::Junction(_, es) => forall|i: int|
            0 <= i < es@.len() ==> expr_sets_below(#[trigger] es@[i], k),
    }
}

/// The truth value of an expression under the given sets and the two
/// endpoints of the transition being tested.  `and`/`or` take all children;
/// `in`/`not in` test set membership of the denoted vertex.
pub open spec fn eval_expr(e: Expression, rows: Seq<Seq<bool>>, v1: int, v2: int) -> bool
    decreases e,
{
    match e {
        Expression::Atom(a) => match a {
            RuletableAtom::True => true,
            _ => false,
        },
        Expression::Junction(op, es) => match op {
            Op::And => forall|i: int|
                0 <= i < es@.len() ==> eval_expr(#[trigger] es@[i], rows, v1, v2),
            Op::Or => exists|i: int|
                0 <= i < es@.len() && eval_expr(#[trigger] es@[i], rows, v1, v2),
            Op::Not => es@.len() == 1 && !eval_expr(es@[0], rows, v1, v2),
            Op::In => set_has(rows, atom_set_id(es@[1]), atom_vertex(es@[0], v1, v2)),
            Op::NotIn => !set_has(rows, atom_set_id(es@[1]), atom_vertex(es@[0], v1, v2)),
        },
    }
}

/// The rendering of an operator.
pub open spec fn op_str_spec(op: Op) -> Seq<char> {
    match op {
        Op::And => "and"@,
        Op::In => "in"@,
        Op::Not => "not"@,
        Op::NotIn => "not in"@,
        Op::Or => "or"@,
    }
}

/// The rendering of an atom: its keyword, or the set id in decimal.
pub open spec fn atom_str_spec(a: RuletableAtom) -> Seq<char> {
    match a {
        RuletableAtom::True => "true"@,
        RuletableAtom::False => "false"@,
        RuletableAtom::Current => "current"@,
        RuletableAtom::Next => "next"@,
        RuletableAtom::SetId(id) => dec_spec(id as int),
    }
}

/// The rendering of an expression, parenthesized prefix style.
pub open spec fn expr_str_spec(e: Expression) -> Seq<char>
    decreases e,
{
    match e {
        Expression::Atom(a) => atom_str_spec(a),
        Expression::Junction(op, es) => seq!['('] + op_str_spec(op) + children_str_spec(es@)
            + seq![')'],
    }
}

/// The renderings of child expressions, each preceded by a space.
pub open spec fn children_str_spec(es: Seq<Expression>) -> Seq<char>
    decreases es,
{
    if es.len() == 0 {
        seq![]
    } else {
        seq![' '] + expr_str_spec(es[0]) + children_str_spec(es.drop_first())
    }
}

impl RuletableAtom {
    /// The keyword of a keyword atom; a set atom has none.
    pub fn get_identifier(&self) -> (r: Option<&str>)
        ensures
            match r {
                Option::Some(s) => !(self is SetId) && s@ == atom_str_spec(*self),
                Option::None => self is SetId,
            },
    {
        match self {
            RuletableAtom::True => Some("true"),
            RuletableAtom::False => Some("false"),
            RuletableAtom::Current => Some("current"),
            RuletableAtom::Next => Some("next"),
            RuletableAtom::SetId(_) => None,
        }
    }

    /// Renders the atom: its keyword, or the set id in decimal.
    pub fn to_display_string(&self) -> (r: String)
        ensures
            r@ == atom_str_spec(*self),
    {
        match self {
            RuletableAtom::SetId(id) => decimal_string(*id),
            _ => {
                let s = self.get_identifier().unwrap();
                s.to_owned()
            },
        }
    }

    /// Resolves one word to an atom: a keyword, or a declared set name.
    /// An unknown word is an error.
    pub fn from_string(atom: &str, sets: &Vec<String>) -> (r: Result<
        RuletableAtom,
        ParseExpressionError,
    >)
        ensures
            match r {
                Ok(a) => atom_spec(atom@, views_of(sets@)) == Option::Some(a),
                Err(_) => atom_spec(atom@, views_of(sets@)) is None,
            },
    {
        if str_eq(atom, "true") {
            Ok(RuletableAtom::True)
        } else if str_eq(atom, "false") {
            Ok(RuletableAtom::False)
        } else if str_eq(atom, "current") {
            Ok(RuletableAtom::Current)
        } else if str_eq(atom, "next") {
            Ok(RuletableAtom::Next)
        } else {
            match crate::strutil::find_in_names(sets, atom) {
                Some(i) => Ok(RuletableAtom::SetId(i)),
                None => {
                    let mut m = String::from_str("unknown identifier '");
                    m.append(atom);
                    m.append("', expected a keyword or a declared set name");
                    Err(ParseExpressionError::new(m))
                },
            }
        }
    }
}

/// The atom one word denotes: a keyword, or the first declared set of that
/// name; an unknown word denotes none.
pub open spec fn atom_spec(w: Seq<char>, sets: Seq<Seq<char>>) -> Option<RuletableAtom> {
    if w == "true"@ {
        Option::Some(RuletableAtom::True)
    } else if w == "false"@ {
        Option::Some(RuletableAtom::False)
    } else if w == "current"@ {
        Option::Some(RuletableAtom::Current)
    } else if w == "next"@ {
        Option::Some(RuletableAtom::Next)
    } else {
        match find_name(sets, w) {
            Option::Some(i) => Option::Some(RuletableAtom::SetId(#[verifier::truncate] (i as usize))),
            Option::None => Option::None,
        }
    }
}

impl Op {
    /// Renders the operator keyword.
    pub fn to_display_string(&self) -> (r: String)
        ensures
            r@ == op_str_spec(*self),
    {
        match self {
            Op::And => String::from_str("and"),
            Op::In => String::from_str("in"),
            Op::Not => String::from_str("not"),
            Op::NotIn => String::from_str("not in"),
            Op::Or => String::from_str("or"),
        }
    }
}

/// Appending one child extends the rendered child list at its end.
proof fn lemma_children_str_push(es: Seq<Expression>, x: Expression)
    ensures
        children_str_spec(es.push(x)) == children_str_spec(es) + seq![' '] + expr_str_spec(x),
    decreases es.len(),
{
    if es.len() == 0 {
        assert(es.push(x)[0] == x);
        assert(es.push(x).drop_first() =~= Seq::<Expression>::empty());
        assert(children_str_spec(es.push(x).drop_first()) == Seq::<char>::empty());
        assert(children_str_spec(es.push(x)) == seq![' '] + expr_str_spec(x)
            + Seq::<char>::empty());
        assert(children_str_spec(es.push(x)) =~= children_str_spec(es) + seq![' ']
            + expr_str_spec(x));
    } else {
        assert(es.push(x)[0] == es[0]);
        assert(es.push(x).drop_first() =~= es.drop_first().push(x));
        lemma_children_str_push(es.drop_first(), x);
        assert(children_str_spec(es.push(x)) =~= children_str_spec(es) + seq![' ']
            + expr_str_spec(x));
    }
}

impl Expression {
    /// Renders the expression in parenthesized prefix form.
    #[verifier::loop_isolation(false)]
    pub fn to_string(&self) -> (r: String)
        ensures
            r@ == expr_str_spec(*self),
        decreases *self,
    {
        match self {
            Expression::Atom(a) => a.to_display_string(),
            Expression::Junction(op, es) => {
                let mut r = String::from_str("(");
                let ops = op.to_display_string();
                r.append(ops.as_str());
                proof {
                    reveal_strlit("(");
                    assert(es@.take(0) =~= Seq::<Expression>::empty());
                    assert(r@ =~= seq!['('] + op_str_spec(*op) + children_str_spec(es@.take(0)));
                }
                let mut i: usize = 0;
                while i < es.len()
                    invariant
                        i <= es@.len(),
                        r@ == seq!['('] + op_str_spec(*op) + children_str_spec(es@.take(i as int)),
                    decreases es@.len() - i,
                {
                    r.append(" ");
                    let cs = es[i].to_string();
                    r.append(cs.as_str());
                    proof {
                        reveal_strlit(" ");
                        lemma_children_str_push(es@.take(i as int), es@[i as int]);
                        assert(es@.take(i + 1) =~= es@.take(i as int).push(es@[i as int]));
                        assert(r@ =~= seq!['('] + op_str_spec(*op) + children_str_spec(
                            es@.take(i + 1),
                        ));
                    }
                    i = i + 1;
                }
                r.append(")");
                proof {
                    reveal_strlit(")");
                    assert(es@.take(es@.len() as int) =~= es@);
                    assert(r@ =~= expr_str_spec(*self));
                }
                r
            },
        }
    }

    /// Validates operand placement, as `expr_valid` says: `Ok` exactly on
    /// valid expressions.
    #[verifier::loop_isolation(false)]
    pub fn check(&self) -> (r: Result<(), ParseExpressionError>)
        ensures
            r is Ok <==> expr_valid(*self),
        decreases *self,
    {
        match self {
            Expression::Atom(a) => match a {
                RuletableAtom::True | RuletableAtom::False => Ok(()),
                RuletableAtom::Current | RuletableAtom::Next => {
                    let mut m = String::from_str("found variable '");
                    let a_str = a.to_display_string();
                    m.append(a_str.as_str());
                    m.append("' when looking for operator");
                    Err(ParseExpressionError::new(m))
                },
                RuletableAtom::SetId(id) => {
                    let mut m = String::from_str("found set '");
                    let id_str = decimal_string(*id);
                    m.append(id_str.as_str());
                    m.append("' when looking for operator");
                    Err(ParseExpressionError::new(m))
                },
            },
            Expression::Junction(op, es) => match op {
                Op::And | Op::Or => {
                    if es.len() == 0 {
                        let mut m = String::from_str("operator '");
                        let op_str = op.to_display_string();
                        m.append(op_str.as_str());
                        m.append("' expects at least one operand");
                        return Err(ParseExpressionError::new(m));
                    }
                    let mut i: usize = 0;
                    while i < es.len()
                        invariant
                            i <= es@.len(),
                            forall|j: int| 0 <= j < i ==> expr_valid(#[trigger] es@[j]),
                        decreases es@.len() - i,
                    {
                        match es[i].check() {
                            Ok(_) => {},
                            Err(e) => {
                                proof {
                                    if expr_valid(*self) {
                                        assert(expr_valid(es@[i as int]));
                                    }
                                }
                                return Err(e);
                            },
                        }
                        i = i + 1;
                    }
                    Ok(())
                },
                Op::In | Op::NotIn => {
                    if es.len() < 2 {
                        let mut m = String::from_str("operator '");
                        let op_str = op.to_display_string();
                        m.append(op_str.as_str());
                        m.append("' is a binary operator, right hand side is missing");
                        return Err(ParseExpressionError::new(m));
                    }
                    if es.len() > 2 {
                        let mut m = String::from_str("operator '");
                        let op_str = op.to_display_string();
                        m.append(op_str.as_str());
                        m.append("' is a binary operator, found too many operands");
                        return Err(ParseExpressionError::new(m));
                    }
                    let left_ok: bool = match &es[0] {
                        Expression::Atom(a) => match a {
                            RuletableAtom::Current | RuletableAtom::Next => true,
                            _ => false,
                        },
                        _ => false,
                    };
                    if !left_ok {
                        let mut m = String::from_str("membership operator '");
                        let op_str = op.to_display_string();
                        m.append(op_str.as_str());
                        m.append("' expects 'current' or 'next' at the left");
                        return Err(ParseExpressionError::new(m));
                    }
                    let right_ok: bool = match &es[1] {
                        Expression::Atom(a) => match a {
                            RuletableAtom::SetId(_) => true,
                            _ => false,
                        },
                        _ => false,
                    };
                    if !right_ok {
                        let mut m = String::from_str("membership operator '");
                        let op_str = op.to_display_string();
                        m.append(op_str.as_str());
                        m.append("' expects set at the right");
                        return Err(ParseExpressionError::new(m));
                    }
                    Ok(())
                },
                Op::Not => {
                    if es.len() != 1 {
                        let mut m = String::from_str("operator '");
                        let op_str = op.to_display_string();
                        m.append(op_str.as_str());
                        m.append("' is unary operator, found left and right hand side");
                        return Err(ParseExpressionError::new(m));
                    }
                    es[0].check()
                },
            },
        }
    }

    /// Evaluates a validated expression, as `eval_expr` says, with `v1` the
    /// current vertex and `v2` the next vertex.
    #[verifier::loop_isolation(false)]
    pub fn evaluate(&self, sets: &Sets, v1: usize, v2: usize) -> (r: bool)
        requires
            expr_valid(*self),
            expr_sets_below(*self, sets.rows().len() as int),
        ensures
            r == eval_expr(*self, sets.rows(), v1 as int, v2 as int),
        decreases *self,
    {
        match self {
            Expression::Atom(a) => match a {
                RuletableAtom::True => true,
                _ => false,
            },
            Expression::Junction(op, es) => match op {
                Op::And => {
                    let mut res: bool = true;
                    let mut i: usize = 0;
                    while i < es.len()
                        invariant
                            i <= es@.len(),
                            expr_valid(*self),
                            expr_sets_below(*self, sets.rows().len() as int),
                            self is Junction,
                            res == forall|j: int|
                                0 <= j < i ==> eval_expr(
                                    #[trigger] es@[j], sets.rows(), v1 as int, v2 as int,
                                ),
                        decreases es@.len() - i,
                    {
                        proof {
                            assert(expr_valid(es@[i as int]));
                            assert(expr_sets_below(es@[i as int], sets.rows().len() as int));
                        }
                        let b = es[i].evaluate(sets, v1, v2);
                        res = res && b;
                        i = i + 1;
                    }
                    res
                },
                Op::Or => {
                    let mut res: bool = false;
                    let mut i: usize = 0;
                    while i < es.len()
                        invariant
                            i <= es@.len(),
                            expr_valid(*self),
                            expr_sets_below(*self, sets.rows().len() as int),
                            self is Junction,
                            res == exists|j: int|
                                0 <= j < i && eval_expr(
                                    #[trigger] es@[j], sets.rows(), v1 as int, v2 as int,
                                ),
                        decreases es@.len() - i,
                    {
                        proof {
                            assert(expr_valid(es@[i as int]));
                            assert(expr_sets_below(es@[i as int], sets.rows().len() as int));
                        }
                        let b = es[i].evaluate(sets, v1, v2);
                        res = res || b;
                        i = i + 1;
                    }
                    res
                },
                Op::In => {
                    proof {
                        assert(expr_sets_below(es@[1], sets.rows().len() as int));
                    }
                    let vertex = es[0].extract_vertex(v1, v2);
                    let set_id = es[1].extract_set_id();
                    sets.contains(set_id, vertex)
                },
                Op::Not => {
                    es[0].evaluate(sets, v1, v2) == false
                },
                Op::NotIn => {
                    proof {
                        assert(expr_sets_below(es@[1], sets.rows().len() as int));
                    }
                    let vertex = es[0].extract_vertex(v1, v2);
                    let set_id = es[1].extract_set_id();
                    !sets.contains(set_id, vertex)
                },
            },
        }
    }

    /// The vertex a `current`/`next` atom denotes.
    fn extract_vertex(&self, v1: usize, v2: usize) -> (r: usize)
        requires
            is_vertex_atom(*self),
        ensures
            r == atom_vertex(*self, v1 as int, v2 as int),
    {
        match self {
            Expression::Atom(a) => match a {
                RuletableAtom::Current => v1,
                RuletableAtom::Next => v2,
                _ => {
                    proof {
                        assert(false);
                    }
                    0
                },
            },
            _ => {
                proof {
                    assert(false);
                }
                0
            },
        }
    }

    /// The set id a set atom denotes.
    fn extract_set_id(&self) -> (r: usize)
        requires
            is_set_atom(*self),
        ensures
            r == atom_set_id(*self),
    {
        match self {
            Expression::Atom(a) => match a {
                RuletableAtom::SetId(idx) => *idx,
                _ => {
                    proof {
                        assert(false);
                    }
                    0
                },
            },
            _ => {
                proof {
                    assert(false);
                }
                0
            },
        }
    }
}

/// One lexical token of the expression language.
#[derive(Debug)]
pub enum Token {
    Atom(String),
    BraceOpen,
    BraceClose,
    Op(Op),
    Eof,
}

/// The ghost shape of a token: an atom carries its characters.
pub enum TokenModel {
    Atom(Seq<char>),
    BraceOpen,
    BraceClose,
    OpTok(Op),
    Eof,
}

/// The ghost shape of a token value.
pub open spec fn token_model(t: Token) -> TokenModel {
    match t {
        Token::Atom(s) => TokenModel::Atom(s@),
        Token::BraceOpen => TokenModel::BraceOpen,
        Token::BraceClose => TokenModel::BraceClose,
        Token::Op(op) => TokenModel::OpTok(op),
        Token::Eof => TokenModel::Eof,
    }
}

/// The views of a token list.
pub open spec fn token_models(ts: Seq<Token>) -> Seq<TokenModel> {
    ts.map_values(|t: Token| token_model(t))
}

/// Equality of two operators.
fn op_eq(a: Op, b: Op) -> (r: bool)
    ensures
        r == (a == b),
{
    match (a, b) {
        (Op::And, Op::And) => true,
        (Op::In, Op::In) => true,
        (Op::Not, Op::Not) => true,
        (Op::NotIn, Op::NotIn) => true,
        (Op::Or, Op::Or) => true,
        _ => false,
    }
}

impl PartialEq for Token {
    fn eq(&self, other: &Token) -> (r: bool) {
        match self {
            Token::Atom(a) => match other {
                Token::Atom(b) => str_eq(a.as_str(), b.as_str()),
                _ => false,
            },
            Token::BraceOpen => matches!(other, Token::BraceOpen),
            Token::BraceClose => matches!(other, Token::BraceClose),
            Token::Op(x) => match other {
                Token::Op(y) => op_eq(*x, *y),
                _ => false,
            },
            Token::Eof => matches!(other, Token::Eof),
        }
    }
}

impl vstd::std_specs::cmp::PartialEqSpecImpl for Token {
    open spec fn obeys_eq_spec() -> bool {
        true
    }

    open spec fn eq_spec(&self, other: &Token) -> bool {
        token_model(*self) == token_model(*other)
    }
}

/// The token one word denotes: an operator keyword or an atom.
pub open spec fn to_token_spec(w: Seq<char>) -> TokenModel {
    if w == "and"@ {
        TokenModel::OpTok(Op::And)
    } else if w == "in"@ {
        TokenModel::OpTok(Op::In)
    } else if w == "not"@ {
        TokenModel::OpTok(Op::Not)
    } else if w == "or"@ {
        TokenModel::OpTok(Op::Or)
    } else {
        TokenModel::Atom(w)
    }
}

/// The raw token stream of `s` from position `i` on: words are maximal runs
/// not containing whitespace or braces, braces are tokens of their own.
/// `cur` carries the start of an unfinished word.
pub open spec fn scan_tokens(s: Seq<char>, i: int, cur: Option<int>) -> Seq<TokenModel>
    decreases s.len() - i,
{
    if !(0 <= i && i < s.len()) {
        match cur {
            Option::None => seq![],
            Option::Some(st) => seq![to_token_spec(s.subrange(st, s.len() as int))],
        }
    } else if is_ws_char(s[i]) {
        match cur {
            Option::None => scan_tokens(s, i + 1, Option::None),
            Option::Some(st) => seq![to_token_spec(s.subrange(st, i))] + scan_tokens(
                s, i + 1, Option::None,
            ),
        }
    } else if s[i] == '(' {
        match cur {
            Option::None => seq![TokenModel::BraceOpen] + scan_tokens(s, i + 1, Option::None),
            Option::Some(st) => seq![to_token_spec(s.subrange(st, i)), TokenModel::BraceOpen]
                + scan_tokens(s, i + 1, Option::None),
        }
    } else if s[i] == ')' {
        match cur {
            Option::None => seq![TokenModel::BraceClose] + scan_tokens(s, i + 1, Option::None),
            Option::Some(st) => seq![to_token_spec(s.subrange(st, i)), TokenModel::BraceClose]
                + scan_tokens(s, i + 1, Option::None),
        }
    } else {
        match cur {
            Option::None => scan_tokens(s, i + 1, Option::Some(i)),
            Option::Some(_) => scan_tokens(s, i + 1, cur),
        }
    }
}

/// Merges each `not` directly followed by `in` into the single two-word
/// operator `not in`, scanning left to right.
pub open spec fn merge_not_in(ts: Seq<TokenModel>) -> Seq<TokenModel>
    decreases ts.len(),
{
    if ts.len() == 0 {
        seq![]
    } else {
        let m = merge_not_in(ts.drop_last());
        if m.len() > 0 && m.last() == TokenModel::OpTok(Op::Not) && ts.last() == TokenModel::OpTok(
            Op::In,
        ) {
            m.drop_last().push(TokenModel::OpTok(Op::NotIn))
        } else {
            m.push(ts.last())
        }
    }
}

/// The token stream of `s`, merged and reversed so that the next token to
/// read stands last.
pub open spec fn lexer_spec(s: Seq<char>) -> Seq<TokenModel> {
    merge_not_in(scan_tokens(s, 0, Option::None)).reverse()
}

/// The lexed tokens of one expression string, stored in reverse so that the
/// next token to hand out stands last.
#[derive(Debug)]
pub struct Lexer {
    tokens: Vec<Token>,
}

/// Turns one word into its token.
fn to_token(w: &str) -> (t: Token)
    ensures
        token_model(t) == to_token_spec(w@),
{
    if str_eq(w, "and") {
        Token::Op(Op::And)
    } else if str_eq(w, "in") {
        Token::Op(Op::In)
    } else if str_eq(w, "not") {
        Token::Op(Op::Not)
    } else if str_eq(w, "or") {
        Token::Op(Op::Or)
    } else {
        Token::Atom(w.to_owned())
    }
}

/// Appends one raw token, merging a trailing `not` with an incoming `in`.
fn push_merged(ts: &mut Vec<Token>, t: Token)
    ensures
        token_models(final(ts)@) == merge_step(token_models(old(ts)@), token_model(t)),
{
    let is_in: bool = match &t {
        Token::Op(op) => match op {
            Op::In => true,
            _ => false,
        },
        _ => false,
    };
    let last_is_not: bool = if ts.len() > 0 {
        match &ts[ts.len() - 1] {
            Token::Op(op) => match op {
                Op::Not => true,
                _ => false,
            },
            _ => false,
        }
    } else {
        false
    };
    if is_in && last_is_not {
        let _ = ts.pop();
        ts.push(Token::Op(Op::NotIn));
        proof {
            assert(token_models(ts@) =~= merge_step(token_models(old(ts)@), token_model(t)));
        }
    } else {
        ts.push(t);
        proof {
            assert(token_models(ts@) =~= merge_step(token_models(old(ts)@), token_model(t)));
        }
    }
}

/// One left-to-right merging step: what `merge_not_in` does with one more
/// token at the end of an already merged stream.
pub open spec fn merge_step(m: Seq<TokenModel>, t: TokenModel) -> Seq<TokenModel> {
    if m.len() > 0 && m.last() == TokenModel::OpTok(Op::Not) && t == TokenModel::OpTok(Op::In) {
        m.drop_last().push(TokenModel::OpTok(Op::NotIn))
    } else {
        m.push(t)
    }
}

/// `merge_not_in` over one more token is one `merge_step`.
proof fn lemma_merge_push(ts: Seq<TokenModel>, t: TokenModel)
    ensures
        merge_not_in(ts.push(t)) == merge_step(merge_not_in(ts), t),
{
    assert(ts.push(t).drop_last() =~= ts);
    assert(ts.push(t).last() == t);
}

impl Lexer {
    pub closed spec fn toks(&self) -> Seq<Token> {
        self.tokens@
    }

    /// The ghost shapes of the stored tokens (reversed: next token last).
    pub open spec fn models(&self) -> Seq<TokenModel> {
        token_models(self.toks())
    }

    /// Lexes one expression string, as `lexer_spec` says.
    #[verifier::loop_isolation(false)]
    pub fn new(input: &str) -> (lexer: Lexer)
        ensures
            lexer.models() == lexer_spec(input@),
    {
        let len = input.unicode_len();
        let mut tokens: Vec<Token> = Vec::new();
        let mut in_tok: bool = false;
        let mut tok_start: usize = 0;
        let mut i: usize = 0;
        let ghost mut scanned: Seq<TokenModel> = seq![];
        while i < len
            invariant
                i <= len,
                in_tok ==> tok_start <= i,
                token_models(tokens@) == merge_not_in(scanned),
                scan_tokens(input@, 0, Option::None) == scanned + scan_tokens(
                    input@, i as int,
                    if in_tok { Option::Some(tok_start as int) } else { Option::None },
                ),
            decreases len - i,
        {
            let c = input.get_char(i);
            if is_ws(c) {
                if in_tok {
                    let w = input.substring_char(tok_start, i);
                    let t = to_token(w);
                    proof {
                        lemma_merge_push(scanned, token_model(t));
                        scanned = scanned.push(token_model(t));
                    }
                    push_merged(&mut tokens, t);
                    in_tok = false;
                }
            } else if c == '(' {
                if in_tok {
                    let w = input.substring_char(tok_start, i);
                    let t = to_token(w);
                    proof {
                        lemma_merge_push(scanned, token_model(t));
                        scanned = scanned.push(token_model(t));
                    }
                    push_merged(&mut tokens, t);
                    in_tok = false;
                }
                proof {
                    lemma_merge_push(scanned, TokenModel::BraceOpen);
                    scanned = scanned.push(TokenModel::BraceOpen);
                }
                push_merged(&mut tokens, Token::BraceOpen);
            } else if c == ')' {
                if in_tok {
                    let w = input.substring_char(tok_start, i);
                    let t = to_token(w);
                    proof {
                        lemma_merge_push(scanned, token_model(t));
                        scanned = scanned.push(token_model(t));
                    }
                    push_merged(&mut tokens, t);
                    in_tok = false;
                }
                proof {
                    lemma_merge_push(scanned, TokenModel::BraceClose);
                    scanned = scanned.push(TokenModel::BraceClose);
                }
                push_merged(&mut tokens, Token::BraceClose);
            } else {
                if !in_tok {
                    in_tok = true;
                    tok_start = i;
                }
            }
            i = i + 1;
        }
        if in_tok {
            let w = input.substring_char(tok_start, len);
            let t = to_token(w);
            proof {
                lemma_merge_push(scanned, token_model(t));
                scanned = scanned.push(token_model(t));
            }
            push_merged(&mut tokens, t);
        }
        let mut reversed: Vec<Token> = Vec::new();
        while tokens.len() > 0
            invariant
                token_models(tokens@) + token_models(reversed@).reverse() == merge_not_in(
                    scanned,
                ),
                scan_tokens(input@, 0, Option::None) == scanned,
            decreases tokens@.len(),
        {
            let t = tokens.pop().unwrap();
            reversed.push(t);
            proof {
                assert(token_models(tokens@) + token_models(reversed@).reverse() =~= merge_not_in(
                    scanned,
                ));
            }
        }
        let lexer = Lexer { tokens: reversed };
        proof {
            assert(lexer.models() =~= lexer_spec(input@));
        }
        lexer
    }

    /// Hands out the next token; the end of input repeats as `Eof`.
    pub fn next(&mut self) -> (t: Token)
        ensures
            old(self).toks().len() > 0 ==> final(self).toks() == old(self).toks().drop_last()
                && t == old(self).toks().last(),
            old(self).toks().len() == 0 ==> final(self).toks() == old(self).toks()
                && token_model(t) == TokenModel::Eof,
    {
        match self.tokens.pop() {
            Some(t) => t,
            None => Token::Eof,
        }
    }

    /// The number of tokens not yet handed out.
    pub fn remaining(&self) -> (n: usize)
        ensures
            n == self.toks().len(),
    {
        self.tokens.len()
    }

    /// Shows the next token without removing it.
    pub fn peek(&self) -> (t: Token)
        ensures
            self.toks().len() > 0 ==> token_model(t) == token_model(self.toks().last()),
            self.toks().len() == 0 ==> token_model(t) == TokenModel::Eof,
    {
        if self.tokens.len() == 0 {
            Token::Eof
        } else {
            match &self.tokens[self.tokens.len() - 1] {
                Token::Atom(s) => Token::Atom(s.clone()),
                Token::BraceOpen => Token::BraceOpen,
                Token::BraceClose => Token::BraceClose,
                Token::Op(op) => Token::Op(*op),
                Token::Eof => Token::Eof,
            }
        }
    }
}

/// The ghost shape of an expression tree.
pub enum ExprModel {
    Atom(RuletableAtom),
    Junction(Op, Seq<ExprModel>),
}

/// The ghost shape of an expression value.
pub open spec fn expr_model(e: Expression) -> ExprModel
    decreases e,
{
    match e {
        Expression::Atom(a) => ExprModel::Atom(a),
        Expression::Junction(op, es) => ExprModel::Junction(op, children_models(es@)),
    }
}

/// The ghost shapes of child expressions.
pub open spec fn children_models(es: Seq<Expression>) -> Seq<ExprModel>
    decreases es,
{
    if es.len() == 0 {
        seq![]
    } else {
        seq![expr_model(es[0])] + children_models(es.drop_first())
    }
}

/// `children_models` maps each child to its shape.
pub proof fn lemma_children_models(es: Seq<Expression>)
    ensures
        children_models(es).len() == es.len(),
        forall|i: int| 0 <= i < es.len() ==> children_models(es)[i] == expr_model(#[trigger] es[i]),
    decreases es.len(),
{
    if es.len() > 0 {
        lemma_children_models(es.drop_first());
        assert forall|i: int| 0 <= i < es.len() implies children_models(es)[i] == expr_model(
            #[trigger] es[i],
        ) by {
            if i > 0 {
                assert(children_models(es)[i] == children_models(es.drop_first())[i - 1]);
                assert(es.drop_first()[i - 1] == es[i]);
            }
        }
    }
}

/// Operand placement on the ghost shape, as `expr_valid` has it on trees.
pub open spec fn model_valid(m: ExprModel) -> bool
    decreases m,
{
    match m {
        ExprModel::Atom(a) => match a {
            RuletableAtom::True | RuletableAtom::False => true,
            _ => false,
        },
        ExprModel::Junction(op, ms) => match op {
            Op::And | Op::Or => ms.len() >= 1 && forall|i: int|
                0 <= i < ms.len() ==> model_valid(#[trigger] ms[i]),
            Op::In | Op::NotIn => ms.len() == 2
                && (ms[0] matches ExprModel::Atom(a) && (a is Current || a is Next))
                && (ms[1] matches ExprModel::Atom(b) && b is SetId),
            Op::Not => ms.len() == 1 && model_valid(ms[0]),
        },
    }
}

/// A tree is valid exactly when its ghost shape is.
pub proof fn lemma_valid_model(e: Expression)
    ensures
        expr_valid(e) <==> model_valid(expr_model(e)),
    decreases e,
{
    match e {
        Expression::Atom(a) => {
            assert(expr_model(e) == ExprModel::Atom(a));
            assert(expr_valid(e) <==> model_valid(expr_model(e)));
        },
        Expression::Junction(op, es) => {
            lemma_children_models(es@);
            let ms = children_models(es@);
            assert(expr_model(e) == ExprModel::Junction(op, ms));
            assert forall|i: int| 0 <= i < es@.len() implies (expr_valid(#[trigger] es@[i])
                <==> model_valid(ms[i])) by {
                lemma_valid_model(es@[i]);
            }
            match op {
                Op::And | Op::Or | Op::Not => {
                    if expr_valid(e) {
                        assert forall|i: int| 0 <= i < ms.len() implies model_valid(
                            #[trigger] ms[i],
                        ) by {
                            assert(expr_valid(es@[i]));
                        }
                    }
                    if model_valid(expr_model(e)) {
                        assert forall|i: int| 0 <= i < es@.len() implies expr_valid(
                            #[trigger] es@[i],
                        ) by {
                            assert(model_valid(ms[i]));
                        }
                    }
                },
                Op::In | Op::NotIn => {
                    if es@.len() == 2 {
                        assert(ms[0] == expr_model(es@[0]));
                        assert(ms[1] == expr_model(es@[1]));
                        match es@[0] {
                            Expression::Atom(a) => {
                                assert(expr_model(es@[0]) == ExprModel::Atom(a));
                            },
                            Expression::Junction(o2, cs) => {
                                assert(expr_model(es@[0]) == ExprModel::Junction(
                                    o2, children_models(cs@),
                                ));
                            },
                        }
                        match es@[1] {
                            Expression::Atom(a) => {
                                assert(expr_model(es@[1]) == ExprModel::Atom(a));
                            },
                            Expression::Junction(o2, cs) => {
                                assert(expr_model(es@[1]) == ExprModel::Junction(
                                    o2, children_models(cs@),
                                ));
                            },
                        }
                    }
                },
            }
        },
    }
}

/// The outcome of one parsing step on the ghost token stream: a parsed shape
/// with the tokens left over, a parse error, or exhausted recursion fuel.
pub enum ParseOut {
    Success(ExprModel, Seq<TokenModel>),
    Failure,
    Spent,
}

/// The binding powers of an infix operator: `and`/`or` bind loosest,
/// `in`/`not in` tightest.
pub open spec fn infix_bp_spec(op: Op) -> (int, int) {
    match op {
        Op::In | Op::NotIn => (5int, 6int),
        _ => (1int, 2int),
    }
}

/// The token about to be read: streams keep their next token last.
pub open spec fn peek_model(ts: Seq<TokenModel>) -> TokenModel {
    if ts.len() == 0 {
        TokenModel::Eof
    } else {
        ts.last()
    }
}

/// Precedence-climbing parse of one expression from the token stream, not
/// consuming an infix operator that binds less tightly than `min_bp`.
pub open spec fn parse_bp_spec(ts: Seq<TokenModel>, min_bp: int, sets: Seq<Seq<char>>, fuel: nat)
    -> ParseOut
    decreases fuel,
{
    if fuel == 0 {
        ParseOut::Spent
    } else {
        let ts1 = if ts.len() == 0 { ts } else { ts.drop_last() };
        match peek_model(ts) {
            TokenModel::Atom(w) => match atom_spec(w, sets) {
                Option::Some(a) => parse_loop_spec(
                    ExprModel::Atom(a), ts1, min_bp, sets, (fuel - 1) as nat,
                ),
                Option::None => ParseOut::Failure,
            },
            TokenModel::BraceOpen => match parse_bp_spec(ts1, 0, sets, (fuel - 1) as nat) {
                ParseOut::Success(lhs, ts2) => if peek_model(ts2) == TokenModel::BraceClose {
                    parse_loop_spec(lhs, ts2.drop_last(), min_bp, sets, (fuel - 1) as nat)
                } else {
                    ParseOut::Failure
                },
                other => other,
            },
            TokenModel::OpTok(op) => if op == Op::Not {
                match parse_bp_spec(ts1, 3, sets, (fuel - 1) as nat) {
                    ParseOut::Success(rhs, ts2) => parse_loop_spec(
                        ExprModel::Junction(Op::Not, seq![rhs]), ts2, min_bp, sets,
                        (fuel - 1) as nat,
                    ),
                    other => other,
                }
            } else {
                ParseOut::Failure
            },
            _ => ParseOut::Failure,
        }
    }
}

/// The infix loop: extends `lhs` with operators binding at least `min_bp`,
/// stopping at the end of input or a closing brace.
pub open spec fn parse_loop_spec(
    lhs: ExprModel, ts: Seq<TokenModel>, min_bp: int, sets: Seq<Seq<char>>, fuel: nat,
) -> ParseOut
    decreases fuel,
{
    if fuel == 0 {
        ParseOut::Spent
    } else {
        match peek_model(ts) {
            TokenModel::Eof => ParseOut::Success(lhs, ts),
            TokenModel::BraceClose => ParseOut::Success(lhs, ts),
            TokenModel::OpTok(op) => if op == Op::Not {
                ParseOut::Failure
            } else if infix_bp_spec(op).0 < min_bp {
                ParseOut::Success(lhs, ts)
            } else {
                match parse_bp_spec(ts.drop_last(), infix_bp_spec(op).1, sets, (fuel - 1) as nat) {
                    ParseOut::Success(rhs, ts2) => parse_loop_spec(
                        ExprModel::Junction(op, seq![lhs, rhs]), ts2, min_bp, sets,
                        (fuel - 1) as nat,
                    ),
                    other => other,
                }
            },
            _ => ParseOut::Failure,
        }
    }
}

/// More fuel never changes a parse that did not run out.
pub proof fn lemma_parse_bp_mono(
    ts: Seq<TokenModel>, min_bp: int, sets: Seq<Seq<char>>, f1: nat, f2: nat,
)
    requires
        f1 <= f2,
        !(parse_bp_spec(ts, min_bp, sets, f1) is Spent),
    ensures
        parse_bp_spec(ts, min_bp, sets, f2) == parse_bp_spec(ts, min_bp, sets, f1),
    decreases f1,
{
    let ts1 = if ts.len() == 0 { ts } else { ts.drop_last() };
    match peek_model(ts) {
        TokenModel::Atom(w) => match atom_spec(w, sets) {
            Option::Some(a) => {
                lemma_parse_loop_mono(
                    ExprModel::Atom(a), ts1, min_bp, sets, (f1 - 1) as nat, (f2 - 1) as nat,
                );
            },
            Option::None => {},
        },
        TokenModel::BraceOpen => {
            lemma_parse_bp_mono(ts1, 0, sets, (f1 - 1) as nat, (f2 - 1) as nat);
            match parse_bp_spec(ts1, 0, sets, (f1 - 1) as nat) {
                ParseOut::Success(lhs, ts2) => {
                    if peek_model(ts2) == TokenModel::BraceClose {
                        lemma_parse_loop_mono(
                            lhs, ts2.drop_last(), min_bp, sets, (f1 - 1) as nat, (f2 - 1) as nat,
                        );
                    }
                },
                _ => {},
            }
        },
        TokenModel::OpTok(op) => {
            if op == Op::Not {
                lemma_parse_bp_mono(ts1, 3, sets, (f1 - 1) as nat, (f2 - 1) as nat);
                match parse_bp_spec(ts1, 3, sets, (f1 - 1) as nat) {
                    ParseOut::Success(rhs, ts2) => {
                        lemma_parse_loop_mono(
                            ExprModel::Junction(Op::Not, seq![rhs]), ts2, min_bp, sets,
                            (f1 - 1) as nat, (f2 - 1) as nat,
                        );
                    },
                    _ => {},
                }
            }
        },
        _ => {},
    }
}

/// More fuel never changes an infix loop that did not run out.
pub proof fn lemma_parse_loop_mono(
    lhs: ExprModel, ts: Seq<TokenModel>, min_bp: int, sets: Seq<Seq<char>>, f1: nat, f2: nat,
)
    requires
        f1 <= f2,
        !(parse_loop_spec(lhs, ts, min_bp, sets, f1) is Spent),
    ensures
        parse_loop_spec(lhs, ts, min_bp, sets, f2) == parse_loop_spec(lhs, ts, min_bp, sets, f1),
    decreases f1,
{
    match peek_model(ts) {
        TokenModel::OpTok(op) => {
            if op != Op::Not && infix_bp_spec(op).0 >= min_bp {
                lemma_parse_bp_mono(
                    ts.drop_last(), infix_bp_spec(op).1, sets, (f1 - 1) as nat, (f2 - 1) as nat,
                );
                match parse_bp_spec(ts.drop_last(), infix_bp_spec(op).1, sets, (f1 - 1) as nat) {
                    ParseOut::Success(rhs, ts2) => {
                        lemma_parse_loop_mono(
                            ExprModel::Junction(op, seq![lhs, rhs]), ts2, min_bp, sets,
                            (f1 - 1) as nat, (f2 - 1) as nat,
                        );
                    },
                    _ => {},
                }
            }
        },
        _ => {},
    }
}

impl Expression {
    /// The binding power to the right of a prefix operator; only `not` is one.
    pub fn prefix_binding_power(op: Op) -> (r: Result<((), u8), ParseExpressionError>)
        ensures
            r is Ok <==> op == Op::Not,
            r matches Ok(p) ==> p.1 == 3,
    {
        match op {
            Op::Not => Ok(((), 3)),
            _ => {
                let mut m = String::from_str("expected prefix operator, found '");
                let op_str = op.to_display_string();
                m.append(op_str.as_str());
                m.append("'");
                Err(ParseExpressionError::new(m))
            },
        }
    }

    /// The binding powers of an infix operator; `not` is not one.
    pub fn infix_binding_power(op: Op) -> (r: Result<(u8, u8), ParseExpressionError>)
        ensures
            r is Ok <==> op != Op::Not,
            r matches Ok(p) ==> p.0 == infix_bp_spec(op).0 && p.1 == infix_bp_spec(op).1,
    {
        match op {
            Op::And | Op::Or => Ok((1, 2)),
            Op::In | Op::NotIn => Ok((5, 6)),
            Op::Not => {
                let mut m = String::from_str("expected infix operator, found '");
                let op_str = op.to_display_string();
                m.append(op_str.as_str());
                m.append("'");
                Err(ParseExpressionError::new(m))
            },
        }
    }
}

/// Enough fuel for a full parse of a stream of `n` tokens.
pub open spec fn bp_fuel(n: nat) -> nat {
    (2 * n + 2) as nat
}

/// Enough fuel for a full infix loop over a stream of `n` tokens.
pub open spec fn loop_fuel(n: nat) -> nat {
    (2 * n + 1) as nat
}

/// The parse of one whole input: its lexed tokens run through the
/// precedence-climbing parser; the parse must consume every token and the
/// result is kept only when valid.
pub open spec fn from_string_spec(s: Seq<char>, sets: Seq<Seq<char>>) -> Option<ExprModel> {
    match parse_bp_spec(lexer_spec(s), 0, sets, bp_fuel(lexer_spec(s).len())) {
        ParseOut::Success(m, rest) => if rest.len() == 0 && model_valid(m) {
            Option::Some(m)
        } else {
            Option::None
        },
        _ => Option::None,
    }
}

/// Dropping the last token commutes with taking token shapes.
proof fn lemma_models_drop_last(ts: Seq<Token>)
    requires
        ts.len() > 0,
    ensures
        token_models(ts.drop_last()) == token_models(ts).drop_last(),
{
    assert(token_models(ts.drop_last()) =~= token_models(ts).drop_last());
}

/// The shapes of a two-element child list.
proof fn lemma_children_models_pair(a: Expression, b: Expression)
    ensures
        children_models(seq![a, b]) == seq![expr_model(a), expr_model(b)],
        children_models(seq![a]) == seq![expr_model(a)],
{
    let s2: Seq<Expression> = seq![a, b];
    assert(s2[0] == a);
    assert(s2.drop_first() =~= seq![b]);
    assert(s2.drop_first()[0] == b);
    assert(s2.drop_first().drop_first() =~= Seq::<Expression>::empty());
    assert(children_models(s2.drop_first().drop_first()) == Seq::<ExprModel>::empty());
    assert(children_models(s2.drop_first()) =~= seq![expr_model(b)]);
    assert(children_models(s2) =~= seq![expr_model(a), expr_model(b)]);
    let s1: Seq<Expression> = seq![a];
    assert(s1[0] == a);
    assert(s1.drop_first() =~= Seq::<Expression>::empty());
    assert(children_models(s1.drop_first()) == Seq::<ExprModel>::empty());
    assert(children_models(s1) =~= seq![expr_model(a)]);
}

impl Expression {
    /// Parses one expression with precedence climbing, as `parse_bp_spec`
    /// says: reads a leading atom, parenthesized group or `not`, then hands
    /// over to the infix loop.
    pub fn expr_bp(lexer: &mut Lexer, min_bp: u8, sets: &Vec<String>) -> (r: Result<
        Expression,
        ParseExpressionError,
    >)
        ensures
            ({
                let ts0 = token_models(old(lexer).toks());
                let views = views_of(sets@);
                match r {
                    Ok(e) => parse_bp_spec(ts0, min_bp as int, views, bp_fuel(ts0.len()))
                        == ParseOut::Success(expr_model(e), token_models(final(lexer).toks()))
                        && expr_sets_below(e, views.len() as int)
                        && final(lexer).toks().len() < old(lexer).toks().len(),
                    Err(_) => parse_bp_spec(ts0, min_bp as int, views, bp_fuel(ts0.len()))
                        == ParseOut::Failure,
                }
            }),
        decreases lexer.toks().len(),
    {
        let ghost ts0 = token_models(old(lexer).toks());
        let ghost views = views_of(sets@);
        let ghost n = ts0.len();
        let t = lexer.next();
        match t {
            Token::Atom(s) => {
                proof {
                    lemma_models_drop_last(old(lexer).toks());
                }
                match RuletableAtom::from_string(s.as_str(), sets) {
                    Ok(a) => {
                        proof {
                            // the set count is read once: it bounds every id
                            // a name lookup can return
                            let _ = sets.len();
                            if a is SetId {
                                crate::strutil::lemma_find_from_bounds(views, s@, 0);
                            }
                        }
                        let lhs = Expression::Atom(a);
                        let ghost len1 = lexer.toks().len() as nat;
                        let res = Self::expr_loop(lhs, lexer, min_bp, sets);
                        proof {
                            lemma_parse_loop_mono(
                                ExprModel::Atom(a), ts0.drop_last(), min_bp as int, views,
                                loop_fuel(len1), (bp_fuel(n) - 1) as nat,
                            );
                        }
                        res
                    },
                    Err(e) => Err(e),
                }
            },
            Token::BraceOpen => {
                proof {
                    lemma_models_drop_last(old(lexer).toks());
                }
                let ghost len1 = lexer.toks().len() as nat;
                let inner = Self::expr_bp(lexer, 0, sets);
                match inner {
                    Ok(lhs) => {
                        proof {
                            lemma_parse_bp_mono(
                                ts0.drop_last(), 0, views, bp_fuel(len1), (bp_fuel(n) - 1) as nat,
                            );
                        }
                        let ghost ts2 = token_models(lexer.toks());
                        let t2 = lexer.next();
                        let is_close = matches!(t2, Token::BraceClose);
                        if !is_close {
                            let mut m = String::from_str("missing closing brace for ");
                            let lhs_str = lhs.to_string();
                            m.append(lhs_str.as_str());
                            Err(ParseExpressionError::new(m))
                        } else {
                            proof {
                                assert(ts2.len() > 0);
                                assert(token_models(lexer.toks()) =~= ts2.drop_last());
                            }
                            let ghost lhs_m = expr_model(lhs);
                            let ghost len2 = lexer.toks().len() as nat;
                            let res = Self::expr_loop(lhs, lexer, min_bp, sets);
                            proof {
                                lemma_parse_loop_mono(
                                    lhs_m, ts2.drop_last(), min_bp as int, views,
                                    loop_fuel(len2), (bp_fuel(n) - 1) as nat,
                                );
                            }
                            res
                        }
                    },
                    Err(e) => {
                        proof {
                            lemma_parse_bp_mono(
                                ts0.drop_last(), 0, views, bp_fuel(len1), (bp_fuel(n) - 1) as nat,
                            );
                        }
                        Err(e)
                    },
                }
            },
            Token::Op(op) => {
                match op {
                    Op::Not => {
                        proof {
                            lemma_models_drop_last(old(lexer).toks());
                        }
                        let ghost len1 = lexer.toks().len() as nat;
                        let rhs = Self::expr_bp(lexer, 3, sets);
                        match rhs {
                            Ok(rhs_e) => {
                                proof {
                                    lemma_parse_bp_mono(
                                        ts0.drop_last(), 3, views, bp_fuel(len1),
                                        (bp_fuel(n) - 1) as nat,
                                    );
                                    lemma_children_models_pair(rhs_e, rhs_e);
                                }
                                let ghost rhs_m = expr_model(rhs_e);
                                let ghost ts2 = token_models(lexer.toks());
                                let ghost rhs_snap = rhs_e;
                                let lhs = Expression::Junction(Op::Not, vec![rhs_e]);
                                proof {
                                    match &lhs {
                                        Expression::Junction(o2, cs) => {
                                            assert(cs@ =~= seq![rhs_snap]);
                                            assert(children_models(cs@) == seq![rhs_m]);
                                            assert(expr_model(lhs) == ExprModel::Junction(
                                                Op::Not, seq![rhs_m],
                                            ));
                                            assert forall|i: int| 0 <= i < cs@.len()
                                                implies expr_sets_below(
                                                #[trigger] cs@[i], views.len() as int,
                                            ) by {
                                                assert(cs@[i] == rhs_snap);
                                            }
                                            assert(expr_sets_below(lhs, views.len() as int));
                                        },
                                        _ => {},
                                    }
                                }
                                let ghost lhs_m = expr_model(lhs);
                                let ghost len2 = lexer.toks().len() as nat;
                                let res = Self::expr_loop(lhs, lexer, min_bp, sets);
                                proof {
                                    lemma_parse_loop_mono(
                                        lhs_m, ts2, min_bp as int, views, loop_fuel(len2),
                                        (bp_fuel(n) - 1) as nat,
                                    );
                                }
                                res
                            },
                            Err(e) => {
                                proof {
                                    lemma_parse_bp_mono(
                                        ts0.drop_last(), 3, views, bp_fuel(len1),
                                        (bp_fuel(n) - 1) as nat,
                                    );
                                }
                                Err(e)
                            },
                        }
                    },
                    _ => {
                        let mut m = String::from_str("unexpected infix operator: '");
                        let op_str = op.to_display_string();
                        m.append(op_str.as_str());
                        m.append("'");
                        Err(ParseExpressionError::new(m))
                    },
                }
            },
            Token::BraceClose => {
                Err(ParseExpressionError::new(String::from_str("unexpected closing brace")))
            },
            Token::Eof => {
                Err(ParseExpressionError::new(String::from_str("unexpected end of file")))
            },
        }
    }

    /// The infix loop of the parser, as `parse_loop_spec` says: folds infix
    /// operators of sufficient binding power into the left-hand side.
    fn expr_loop(lhs: Expression, lexer: &mut Lexer, min_bp: u8, sets: &Vec<String>) -> (r: Result<
        Expression,
        ParseExpressionError,
    >)
        requires
            expr_sets_below(lhs, views_of(sets@).len() as int),
        ensures
            ({
                let ts0 = token_models(old(lexer).toks());
                let views = views_of(sets@);
                match r {
                    Ok(e) => parse_loop_spec(
                        expr_model(lhs), ts0, min_bp as int, views, loop_fuel(ts0.len()),
                    ) == ParseOut::Success(expr_model(e), token_models(final(lexer).toks()))
                        && expr_sets_below(e, views.len() as int)
                        && final(lexer).toks().len() <= old(lexer).toks().len(),
                    Err(_) => parse_loop_spec(
                        expr_model(lhs), ts0, min_bp as int, views, loop_fuel(ts0.len()),
                    ) == ParseOut::Failure,
                }
            }),
        decreases lexer.toks().len(),
    {
        let ghost ts0 = token_models(old(lexer).toks());
        let ghost views = views_of(sets@);
        let ghost n = ts0.len();
        let ghost lhs_m = expr_model(lhs);
        let t = lexer.peek();
        match t {
            Token::Eof => Ok(lhs),
            Token::BraceClose => Ok(lhs),
            Token::Op(op) => {
                match op {
                    Op::Not => Err(ParseExpressionError::new(String::from_str(
                        "unexpected prefix operator 'not'",
                    ))),
                    _ => {
                        let bp = match Self::infix_binding_power(op) {
                            Ok(p) => p,
                            Err(e) => {
                                proof {
                                    assert(false);
                                }
                                return Err(e);
                            },
                        };
                        if bp.0 < min_bp {
                            Ok(lhs)
                        } else {
                            let _ = lexer.next();
                            proof {
                                lemma_models_drop_last(old(lexer).toks());
                            }
                            let ghost len1 = lexer.toks().len() as nat;
                            let rhs = Self::expr_bp(lexer, bp.1, sets);
                            match rhs {
                                Ok(rhs_e) => {
                                    proof {
                                        lemma_parse_bp_mono(
                                            ts0.drop_last(), bp.1 as int, views, bp_fuel(len1),
                                            (loop_fuel(n) - 1) as nat,
                                        );
                                        lemma_children_models_pair(lhs, rhs_e);
                                    }
                                    let ghost rhs_m = expr_model(rhs_e);
                                    let ghost ts2 = token_models(lexer.toks());
                                    let ghost lhs_snap = lhs;
                                    let ghost rhs_snap = rhs_e;
                                    let new_lhs = Expression::Junction(op, vec![lhs, rhs_e]);
                                    proof {
                                        match &new_lhs {
                                            Expression::Junction(o2, cs) => {
                                                assert(cs@ =~= seq![lhs_snap, rhs_snap]);
                                                assert(children_models(cs@) == seq![
                                                    lhs_m, rhs_m,
                                                ]);
                                                assert(expr_model(new_lhs)
                                                    == ExprModel::Junction(
                                                    op, seq![lhs_m, rhs_m],
                                                ));
                                                assert forall|i: int| 0 <= i < cs@.len()
                                                    implies expr_sets_below(
                                                    #[trigger] cs@[i], views.len() as int,
                                                ) by {
                                                    assert(cs@.len() == 2);
                                                    if i == 0 {
                                                        assert(cs@[0] == lhs_snap);
                                                    } else {
                                                        assert(cs@[1] == rhs_snap);
                                                    }
                                                }
                                                assert(expr_sets_below(
                                                    new_lhs, views.len() as int,
                                                ));
                                            },
                                            _ => {},
                                        }
                                    }
                                    let ghost new_m = expr_model(new_lhs);
                                    let ghost len2 = lexer.toks().len() as nat;
                                    let res = Self::expr_loop(new_lhs, lexer, min_bp, sets);
                                    proof {
                                        lemma_parse_loop_mono(
                                            new_m, ts2, min_bp as int, views, loop_fuel(len2),
                                            (loop_fuel(n) - 1) as nat,
                                        );
                                    }
                                    res
                                },
                                Err(e) => {
                                    proof {
                                        lemma_parse_bp_mono(
                                            ts0.drop_last(), bp.1 as int, views, bp_fuel(len1),
                                            (loop_fuel(n) - 1) as nat,
                                        );
                                    }
                                    Err(e)
                                },
                            }
                        }
                    },
                }
            },
            Token::Atom(s) => {
                let mut m = String::from_str(
                    "expected infix operator, closing brace or end of file, found ",
                );
                m.append(s.as_str());
                Err(ParseExpressionError::new(m))
            },
            Token::BraceOpen => {
                Err(ParseExpressionError::new(String::from_str(
                    "expected infix operator, closing brace or end of file, found opening brace",
                )))
            },
        }
    }

    /// Parses and validates one expression string against the declared set
    /// names, as `from_string_spec` says: `Ok` exactly when the input parses
    /// and the parse is valid, and then the returned tree is that parse.
    pub fn from_string(input: &str, sets: &Vec<String>) -> (r: Result<
        Expression,
        ParseExpressionError,
    >)
        ensures
            match r {
                Ok(e) => from_string_spec(input@, views_of(sets@)) == Option::Some(expr_model(e))
                    && expr_valid(e) && expr_sets_below(e, views_of(sets@).len() as int),
                Err(_) => from_string_spec(input@, views_of(sets@)) is None,
            },
    {
        let mut lexer = Lexer::new(input);
        match Self::expr_bp(&mut lexer, 0, sets) {
            Ok(e) => {
                if lexer.remaining() > 0 {
                    return Err(ParseExpressionError::new(String::from_str(
                        "unmatched closing brace after the expression",
                    )));
                }
                proof {
                    lemma_valid_model(e);
                }
                match e.check() {
                    Ok(_) => Ok(e),
                    Err(err) => Err(err),
                }
            },
            Err(err) => Err(err),
        }
    }
}

} // verus!
