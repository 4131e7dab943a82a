use vstd::prelude::*;
use crate::lexer::{
    chars_of, operator_chars, operator_table, tokens_view, DataType, LitModel, LitValue, Token, TokenModel,
};

verus! {

broadcast use vstd::std_specs::vec::group_vec_axioms;

/// A variable's name.
#[derive(Debug, PartialEq, Eq)]
pub struct VarName(pub String);

/// A statement.
#[derive(Debug, PartialEq, Eq)]
pub enum Node {
    Block(Vec<Node>),
    VarDec(DataType, VarName, Expr),
    IfStatement(Expr, Vec<Node>),
    ElifStatement(Expr, Vec<Node>),
    ElseStatement(Vec<Node>),
    Fi,
    Out(Expr),
    Read(Expr),
    Expr(Expr),
}

/// An expression; binary operations chain to the left.
#[derive(Debug, PartialEq, Eq)]
pub enum Expr {
    Literal(LitValue),
    Var(VarName),
    BinaryOp(Box<Expr>, Token, Box<Expr>),
}

/// Mathematical value of an `Expr`.
pub enum ExprModel {
    Literal(LitModel),
    Var(Seq<char>),
    BinaryOp(Box<ExprModel>, TokenModel, Box<ExprModel>),
}

/// Mathematical value of a `Node`.
pub enum NodeModel {
    Block(Seq<NodeModel>),
    VarDec(DataType, Seq<char>, ExprModel),
    IfStatement(ExprModel, Seq<NodeModel>),
    ElifStatement(ExprModel, Seq<NodeModel>),
    ElseStatement(Seq<NodeModel>),
    Fi,
    Out(ExprModel),
    Read(ExprModel),
    Expr(ExprModel),
}

pub open spec fn expr_model(e: Expr) -> ExprModel
    decreases e,
{
    match e {
        Expr::Literal(l) => ExprModel::Literal(l@),
        Expr::Var(v) => ExprModel::Var(v.0@),
        Expr::BinaryOp(l, op, r) => ExprModel::BinaryOp(Box::new(expr_model(*l)), op@, Box::new(expr_model(*r))),
    }
}

pub open spec fn node_model(n: Node) -> NodeModel
    decreases n,
{
    match n {
        Node::Block(b) => NodeModel::Block(nodes_model(b)),
        Node::VarDec(d, v, e) => NodeModel::VarDec(d, v.0@, expr_model(e)),
        Node::IfStatement(c, b) => NodeModel::IfStatement(expr_model(c), nodes_model(b)),
        Node::ElifStatement(c, b) => NodeModel::ElifStatement(expr_model(c), nodes_model(b)),
        Node::ElseStatement(b) => NodeModel::ElseStatement(nodes_model(b)),
        Node::Fi => NodeModel::Fi,
        Node::Out(e) => NodeModel::Out(expr_model(e)),
        Node::Read(e) => NodeModel::Read(expr_model(e)),
        Node::Expr(e) => NodeModel::Expr(expr_model(e)),
    }
}

pub open spec fn nodes_model(v: Vec<Node>) -> Seq<NodeModel>
    decreases v,
{
    Seq::new(v@.len(), |k: int| if 0 <= k < v@.len() { node_model(v@[k]) } else { NodeModel::Fi })
}

/// Why parsing stopped.
#[derive(Debug, PartialEq, Eq)]
pub enum ParseError {
    UnexpectedToken(Token),
    UnexpectedEndOfInput,
}

pub enum ParseErrorModel {
    UnexpectedToken(TokenModel),
    UnexpectedEndOfInput,
}

impl View for ParseError {
    type V = ParseErrorModel;

    open spec fn view(&self) -> ParseErrorModel {
        match self {
            ParseError::UnexpectedToken(t) => ParseErrorModel::UnexpectedToken(t@),
            ParseError::UnexpectedEndOfInput => ParseErrorModel::UnexpectedEndOfInput,
        }
    }
}

/// The view of what `parse` returns.
pub open spec fn parse_result_view(r: Result<Vec<Node>, ParseError>) -> Result<Seq<NodeModel>, ParseErrorModel> {
    match r {
        Ok(v) => Ok(nodes_model(v)),
        Err(e) => Err(e@),
    }
}

// ----- the grammar over token views; a failure carries the position where it was found -----
// Every production that succeeds moves forward (see the executable parser), so the
// fallbacks that keep these definitions total are never reached.

/// The binary operators: every operator of the scanner's table but the negation `!`.
pub open spec fn binary_table() -> Seq<Seq<char>> {
    operator_table().take(10)
}

pub open spec fn is_binary_op(t: TokenModel) -> bool {
    match t {
        TokenModel::Op(o) => binary_table().contains(o),
        _ => false,
    }
}

pub open spec fn is_keyword(t: TokenModel, w: Seq<char>) -> bool {
    t == TokenModel::Keyword(w)
}

pub open spec fn is_line_break(t: TokenModel) -> bool {
    t is Symbol
}

/// Factor := Literal | Identifier, one token at `p`.
pub open spec fn factor_at(ts: Seq<TokenModel>, p: int) -> Option<ExprModel> {
    if 0 <= p < ts.len() {
        match ts[p] {
            TokenModel::Literal(l) => Some(ExprModel::Literal(l)),
            TokenModel::Id(n) => Some(ExprModel::Var(n)),
            _ => None,
        }
    } else {
        None
    }
}

/// The rest of an expression after `left`: ( BinaryOperator Factor )*, folded to the left.
pub open spec fn expr_tail(ts: Seq<TokenModel>, left: ExprModel, p: int) -> Result<(ExprModel, int), int>
    decreases ts.len() - p,
{
    if 0 <= p < ts.len() && is_binary_op(ts[p]) {
        match factor_at(ts, p + 1) {
            Some(right) => expr_tail(ts, ExprModel::BinaryOp(Box::new(left), ts[p], Box::new(right)), p + 2),
            None => Err(p + 1),
        }
    } else {
        Ok((left, p))
    }
}

/// Expression := Factor ( BinaryOperator Factor )*
pub open spec fn expression_at(ts: Seq<TokenModel>, p: int) -> Result<(ExprModel, int), int> {
    match factor_at(ts, p) {
        Some(left) => expr_tail(ts, left, p + 1),
        None => Err(p),
    }
}

/// Wraps a parsed expression into a statement.
pub open spec fn map_expr(r: Result<(ExprModel, int), int>, f: spec_fn(ExprModel) -> NodeModel) -> Result<(NodeModel, int), int> {
    match r {
        Ok((e, q)) => Ok((f(e), q)),
        Err(e) => Err(e),
    }
}

/// One statement starting at `p`.
pub open spec fn statement_at(ts: Seq<TokenModel>, p: int) -> Result<(NodeModel, int), int>
    decreases ts.len() - p, 0int,
{
    if p < 0 || p >= ts.len() {
        Err(p)
    } else if is_keyword(ts[p], seq!['i', 'f']) {
        match expression_at(ts, p + 1) {
            Ok((cond, q)) => if p < q <= ts.len() {
                match block_at(ts, q) {
                    Ok((body, r)) => Ok((NodeModel::IfStatement(cond, body), r)),
                    Err(e) => Err(e),
                }
            } else {
                Err(p)
            },
            Err(e) => Err(e),
        }
    } else if is_keyword(ts[p], seq!['f', 'i']) {
        Ok((NodeModel::Fi, p + 1))
    } else if is_keyword(ts[p], seq!['o', 'u', 't']) {
        map_expr(expression_at(ts, p + 1), |e: ExprModel| NodeModel::Out(e))
    } else if is_keyword(ts[p], seq!['r', 'e', 'a', 'd']) {
        map_expr(expression_at(ts, p + 1), |e: ExprModel| NodeModel::Read(e))
    } else if ts[p] is DTypeToken {
        let d = ts[p]->DTypeToken_0;
        if p + 1 < ts.len() && ts[p + 1] is Id {
            if p + 2 < ts.len() && ts[p + 2] == TokenModel::Op(seq!['=']) {
                map_expr(expression_at(ts, p + 3), |e: ExprModel| NodeModel::VarDec(d, ts[p + 1]->Id_0, e))
            } else {
                Err(p + 2)
            }
        } else {
            Err(p + 1)
        }
    } else {
        map_expr(expression_at(ts, p), |e: ExprModel| NodeModel::Expr(e))
    }
}

/// The body of an `if` from `p`: statements up to the first unmatched `fi`, which is consumed.
/// Line breaks between statements are passed over.
pub open spec fn block_at(ts: Seq<TokenModel>, p: int) -> Result<(Seq<NodeModel>, int), int>
    decreases ts.len() - p, 1int,
{
    if p < 0 || p >= ts.len() {
        Err(p)
    } else if is_line_break(ts[p]) {
        block_at(ts, p + 1)
    } else {
        match statement_at(ts, p) {
            Ok((n, q)) => if n is Fi {
                Ok((seq![], q))
            } else if p < q <= ts.len() {
                match block_at(ts, q) {
                    Ok((rest, r)) => Ok((seq![n] + rest, r)),
                    Err(e) => Err(e),
                }
            } else {
                Err(p)
            },
            Err(e) => Err(e),
        }
    }
}

/// The statements from `p` to the end. Line breaks between statements are passed over.
pub open spec fn program_at(ts: Seq<TokenModel>, p: int) -> Result<Seq<NodeModel>, int>
    decreases ts.len() - p,
{
    if p < 0 || p >= ts.len() {
        Ok(seq![])
    } else if is_line_break(ts[p]) {
        program_at(ts, p + 1)
    } else {
        match statement_at(ts, p) {
            Ok((n, q)) => if p < q <= ts.len() {
                match program_at(ts, q) {
                    Ok(rest) => Ok(seq![n] + rest),
                    Err(e) => Err(e),
                }
            } else {
                Err(p)
            },
            Err(e) => Err(e),
        }
    }
}

/// The error reported for a failure found at position `p`.
pub open spec fn error_at(ts: Seq<TokenModel>, p: int) -> ParseErrorModel {
    if 0 <= p < ts.len() {
        ParseErrorModel::UnexpectedToken(ts[p])
    } else {
        ParseErrorModel::UnexpectedEndOfInput
    }
}

/// The program that a token sequence denotes, or the error that stops it.
pub open spec fn parse_spec(ts: Seq<TokenModel>) -> Result<Seq<NodeModel>, ParseErrorModel> {
    match program_at(ts, 0) {
        Ok(nodes) => Ok(nodes),
        Err(p) => Err(error_at(ts, p)),
    }
}

// ----- executable parser -----

pub open spec fn expr_step_view(r: Result<(Expr, usize), usize>) -> Result<(ExprModel, int), int> {
    match r {
        Ok((e, q)) => Ok((expr_model(e), q as int)),
        Err(p) => Err(p as int),
    }
}

pub open spec fn node_step_view(r: Result<(Node, usize), usize>) -> Result<(NodeModel, int), int> {
    match r {
        Ok((n, q)) => Ok((node_model(n), q as int)),
        Err(p) => Err(p as int),
    }
}

pub open spec fn block_step_view(r: Result<(Vec<Node>, usize), usize>) -> Result<(Seq<NodeModel>, int), int> {
    match r {
        Ok((b, q)) => Ok((nodes_model(b), q as int)),
        Err(p) => Err(p as int),
    }
}

pub open spec fn prepend_block(done: Seq<NodeModel>, rest: Result<(Seq<NodeModel>, int), int>) -> Result<(Seq<NodeModel>, int), int> {
    match rest {
        Ok((b, q)) => Ok((done + b, q)),
        Err(e) => Err(e),
    }
}

pub open spec fn prepend_program(done: Seq<NodeModel>, rest: Result<Seq<NodeModel>, int>) -> Result<Seq<NodeModel>, int> {
    match rest {
        Ok(b) => Ok(done + b),
        Err(e) => Err(e),
    }
}

fn clone_lit(l: &LitValue) -> (r: LitValue)
    ensures
        r@ == l@,
{
    match l {
        LitValue::Int(n) => LitValue::Int(*n),
        LitValue::Bool(b) => LitValue::Bool(*b),
        LitValue::String(s) => LitValue::String(s.clone()),
    }
}

fn clone_token(t: &Token) -> (r: Token)
    ensures
        r@ == t@,
{
    match t {
        Token::Keyword(s) => Token::Keyword(s.clone()),
        Token::Id(s) => Token::Id(s.clone()),
        Token::Symbol(s) => Token::Symbol(s.clone()),
        Token::Op(s) => Token::Op(s.clone()),
        Token::Literal(l) => Token::Literal(clone_lit(l)),
        Token::DTypeToken(d) => Token::DTypeToken(*d),
    }
}

fn text_is(s: &String, w: &Vec<char>) -> (r: bool)
    ensures
        r == (s@ == w@),
{
    let cs = chars_of(s);
    if cs.len() != w.len() {
        assert(cs@.len() != w@.len());
        return false;
    }
    let mut j: usize = 0;
    while j < w.len()
        invariant
            j <= w.len(),
            cs@ == s@,
            cs.len() == w.len(),
            forall|m: int| 0 <= m < j ==> cs@[m] == w@[m],
        decreases w.len() - j,
    {
        if cs[j] != w[j] {
            assert(cs@[j as int] != w@[j as int]);
            return false;
        }
        j += 1;
    }
    assert(cs@ =~= w@);
    true
}

fn is_keyword_token(t: &Token, w: &Vec<char>) -> (r: bool)
    ensures
        r == is_keyword(t@, w@),
{
    match t {
        Token::Keyword(k) => text_is(k, w),
        _ => false,
    }
}

fn is_binary(t: &Token) -> (r: bool)
    ensures
        r == is_binary_op(t@),
{
    match t {
        Token::Op(o) => {
            let mut k: usize = 0;
            while k < 10
                invariant
                    k <= 10,
                    t@ == TokenModel::Op(o@),
                    forall|m: int| 0 <= m < k ==> operator_table()[m] != o@,
                decreases 10 - k,
            {
                let w = operator_chars(k);
                if text_is(o, &w) {
                    assert(binary_table().len() == 10);
                    assert(binary_table()[k as int] == o@);
                    assert(binary_table().contains(o@));
                    return true;
                }
                k += 1;
            }
            assert forall|m: int| 0 <= m < binary_table().len() implies binary_table()[m] != o@ by {
                assert(binary_table()[m] == operator_table()[m]);
            }
            false
        },
        _ => false,
    }
}

fn parse_factor(ts: &Vec<Token>, p: usize) -> (r: Option<Expr>)
    ensures
        match r {
            Some(e) => factor_at(tokens_view(ts@), p as int) == Some(expr_model(e)),
            None => factor_at(tokens_view(ts@), p as int) is None,
        },
        r is Some ==> p < ts.len(),
{
    if p >= ts.len() {
        return None;
    }
    match &ts[p] {
        Token::Literal(l) => Some(Expr::Literal(clone_lit(l))),
        Token::Id(n) => Some(Expr::Var(VarName(n.clone()))),
        _ => None,
    }
}

fn parse_expression(ts: &Vec<Token>, p: usize) -> (r: Result<(Expr, usize), usize>)
    ensures
        expr_step_view(r) == expression_at(tokens_view(ts@), p as int),
        r matches Ok((_, q)) ==> p < q <= ts.len(),
{
    let ghost tv = tokens_view(ts@);
    let mut left = match parse_factor(ts, p) {
        Some(e) => e,
        None => return Err(p),
    };
    let mut q: usize = p + 1;
    while q < ts.len() && is_binary(&ts[q])
        invariant
            tv == tokens_view(ts@),
            p < q <= ts.len(),
            expression_at(tv, p as int) == expr_tail(tv, expr_model(left), q as int),
        decreases ts.len() - q,
    {
        let right = match parse_factor(ts, q + 1) {
            Some(e) => e,
            None => return Err(q + 1),
        };
        let op = clone_token(&ts[q]);
        left = Expr::BinaryOp(Box::new(left), op, Box::new(right));
        q = q + 2;
    }
    Ok((left, q))
}

fn parse_statement(ts: &Vec<Token>, p: usize) -> (r: Result<(Node, usize), usize>)
    ensures
        node_step_view(r) == statement_at(tokens_view(ts@), p as int),
        r matches Ok((_, q)) ==> p < q <= ts.len(),
    decreases ts.len() - p, 0int,
{
    let ghost tv = tokens_view(ts@);
    if p >= ts.len() {
        return Err(p);
    }
    let t = &ts[p];
    assert(tv[p as int] == t@);
    let kw_if = vec!['i', 'f'];
    let kw_fi = vec!['f', 'i'];
    let kw_out = vec!['o', 'u', 't'];
    let kw_read = vec!['r', 'e', 'a', 'd'];
    let assign_op = vec!['='];
    assert(kw_if@ =~= seq!['i', 'f']);
    assert(kw_fi@ =~= seq!['f', 'i']);
    assert(kw_out@ =~= seq!['o', 'u', 't']);
    assert(kw_read@ =~= seq!['r', 'e', 'a', 'd']);
    assert(assign_op@ =~= seq!['=']);
    if is_keyword_token(t, &kw_if) {
        let (cond, q) = match parse_expression(ts, p + 1) {
            Ok(x) => x,
            Err(e) => return Err(e),
        };
        let (body, r) = match parse_block(ts, q) {
            Ok(x) => x,
            Err(e) => return Err(e),
        };
        return Ok((Node::IfStatement(cond, body), r));
    }
    if is_keyword_token(t, &kw_fi) {
        return Ok((Node::Fi, p + 1));
    }
    if is_keyword_token(t, &kw_out) {
        return match parse_expression(ts, p + 1) {
            Ok((e, q)) => Ok((Node::Out(e), q)),
            Err(e) => Err(e),
        };
    }
    if is_keyword_token(t, &kw_read) {
        return match parse_expression(ts, p + 1) {
            Ok((e, q)) => Ok((Node::Read(e), q)),
            Err(e) => Err(e),
        };
    }
    if let Token::DTypeToken(d) = t {
        let name = if p + 1 < ts.len() {
            match &ts[p + 1] {
                Token::Id(n) => n.clone(),
                _ => return Err(p + 1),
            }
        } else {
            return Err(p + 1);
        };
        proof {
            if p + 2 < ts.len() {
                assert(tv[p + 2] == ts@[p + 2]@);
            }
            assert(tv[p + 1] == ts@[p + 1]@);
        }
        let assign = p + 2 < ts.len() && match &ts[p + 2] {
            Token::Op(o) => text_is(o, &assign_op),
            _ => false,
        };
        if !assign {
            return Err(p + 2);
        }
        return match parse_expression(ts, p + 3) {
            Ok((e, q)) => Ok((Node::VarDec(*d, VarName(name), e), q)),
            Err(e) => Err(e),
        };
    }
    match parse_expression(ts, p) {
        Ok((e, q)) => Ok((Node::Expr(e), q)),
        Err(e) => Err(e),
    }
}

fn parse_block(ts: &Vec<Token>, p: usize) -> (r: Result<(Vec<Node>, usize), usize>)
    ensures
        block_step_view(r) == block_at(tokens_view(ts@), p as int),
        r matches Ok((_, q)) ==> p < q <= ts.len(),
    decreases ts.len() - p, 1int,
{
    let ghost tv = tokens_view(ts@);
    if p >= ts.len() {
        return Err(p);
    }
    let mut body: Vec<Node> = Vec::new();
    let mut q: usize = p;
    loop
        invariant
            tv == tokens_view(ts@),
            p <= q <= ts.len(),
            block_at(tv, p as int) == prepend_block(nodes_model(body), block_at(tv, q as int)),
        decreases ts.len() - q,
    {
        if q >= ts.len() {
            return Err(q);
        }
        if let Token::Symbol(_) = &ts[q] {
            q = q + 1;
        } else {
            match parse_statement(ts, q) {
                Ok((n, r)) => {
                    if let Node::Fi = n {
                        assert(nodes_model(body) + seq![] =~= nodes_model(body));
                        return Ok((body, r));
                    }
                    let ghost before = nodes_model(body);
                    body.push(n);
                    proof {
                        assert(nodes_model(body) =~= before + seq![node_model(n)]);
                        match block_at(tv, r as int) {
                            Ok((rest, _)) => {
                                assert(before + (seq![node_model(n)] + rest) =~= nodes_model(body) + rest);
                            },
                            Err(_) => {},
                        }
                    }
                    q = r;
                },
                Err(e) => return Err(e),
            }
        }
    }
}

/// Parses a token sequence into its top-level statements; the first malformed statement
/// stops the whole pass.
pub fn parse(tokens: Vec<Token>) -> (r: Result<Vec<Node>, ParseError>)
    ensures
        parse_result_view(r) == parse_spec(tokens_view(tokens@)),
{
    let ghost tv = tokens_view(tokens@);
    let mut nodes: Vec<Node> = Vec::new();
    let mut q: usize = 0;
    while q < tokens.len()
        invariant
            tv == tokens_view(tokens@),
            q <= tokens.len(),
            program_at(tv, 0) == prepend_program(nodes_model(nodes), program_at(tv, q as int)),
        decreases tokens.len() - q,
    {
        if let Token::Symbol(_) = &tokens[q] {
            q = q + 1;
        } else {
            match parse_statement(&tokens, q) {
                Ok((n, r)) => {
                    let ghost before = nodes_model(nodes);
                    nodes.push(n);
                    proof {
                        assert(nodes_model(nodes) =~= before + seq![node_model(n)]);
                        match program_at(tv, r as int) {
                            Ok(rest) => {
                                assert(before + (seq![node_model(n)] + rest) =~= nodes_model(nodes) + rest);
                            },
                            Err(_) => {},
                        }
                    }
                    q = r;
                },
                Err(e) => {
                    if e < tokens.len() {
                        return Err(ParseError::UnexpectedToken(clone_token(&tokens[e])));
                    }
                    return Err(ParseError::UnexpectedEndOfInput);
                },
            }
        }
    }
    assert(nodes_model(nodes) + seq![] =~= nodes_model(nodes));
    Ok(nodes)
}

} // verus!
