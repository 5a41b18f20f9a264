use vstd::prelude::*;
use crate::ast::{BinOp, Expr, SExpr, Stmt, SStmt, stmts_model};
use crate::token::{Token, SToken, same_token};
use crate::lexer::tokens_model;

verus! {

/// A parse result: the value and the position after it, or `None` where
/// the parser rejects the tokens.
pub type PResult<T> = Option<(T, int)>;

/// A primary expression: a number, a variable, or a parenthesized
/// expression.
pub open spec fn p_primary(t: Seq<SToken>, pos: int) -> PResult<SExpr>
    decreases t.len() - pos, 0nat,
{
    if !(0 <= pos < t.len()) {
        None
    } else {
        match t[pos] {
            SToken::Int(n) => Some((SExpr::Int(n), pos + 1)),
            SToken::Ident(s) => Some((SExpr::Var(s), pos + 1)),
            SToken::Str(s) => Some((SExpr::Str(s), pos + 1)),
            SToken::LParen => match p_expr(t, pos + 1) {
                Some(r) => if pos < r.1 < t.len() && t[r.1] == SToken::RParen {
                    Some((r.0, r.1 + 1))
                } else {
                    None
                },
                None => None,
            },
            _ => None,
        }
    }
}

/// The operands after the first of a product: `*` and `/` associate to
/// the left.
pub open spec fn p_factor_rest(t: Seq<SToken>, left: SExpr, p: int) -> PResult<SExpr>
    decreases t.len() - p, 1nat,
{
    if !(0 <= p < t.len()) {
        None
    } else if t[p] == SToken::Star || t[p] == SToken::Slash {
        let op = if t[p] == SToken::Star { BinOp::Mul } else { BinOp::Div };
        match p_primary(t, p + 1) {
            Some(r) => if p < r.1 <= t.len() {
                p_factor_rest(t, SExpr::Binary { left: Box::new(left), op, right: Box::new(r.0) }, r.1)
            } else {
                None
            },
            None => None,
        }
    } else {
        Some((left, p))
    }
}

/// A product of primary expressions.
pub open spec fn p_factor(t: Seq<SToken>, pos: int) -> PResult<SExpr>
    decreases t.len() - pos, 2nat,
{
    match p_primary(t, pos) {
        Some(r) => if pos < r.1 <= t.len() { p_factor_rest(t, r.0, r.1) } else { None },
        None => None,
    }
}

/// The operands after the first of a sum: `+` and `-` associate to the
/// left.
pub open spec fn p_term_rest(t: Seq<SToken>, left: SExpr, p: int) -> PResult<SExpr>
    decreases t.len() - p, 3nat,
{
    if !(0 <= p < t.len()) {
        None
    } else if t[p] == SToken::Plus || t[p] == SToken::Minus {
        let op = if t[p] == SToken::Plus { BinOp::Add } else { BinOp::Sub };
        match p_factor(t, p + 1) {
            Some(r) => if p < r.1 <= t.len() {
                p_term_rest(t, SExpr::Binary { left: Box::new(left), op, right: Box::new(r.0) }, r.1)
            } else {
                None
            },
            None => None,
        }
    } else {
        Some((left, p))
    }
}

/// A sum of products.
pub open spec fn p_term(t: Seq<SToken>, pos: int) -> PResult<SExpr>
    decreases t.len() - pos, 4nat,
{
    match p_factor(t, pos) {
        Some(r) => if pos < r.1 <= t.len() { p_term_rest(t, r.0, r.1) } else { None },
        None => None,
    }
}

/// The comparison operator of a token, if it is one.
pub open spec fn comparison_op(tok: SToken) -> Option<BinOp> {
    match tok {
        SToken::Lt => Some(BinOp::Lt),
        SToken::Gt => Some(BinOp::Gt),
        SToken::Le => Some(BinOp::Le),
        SToken::Ge => Some(BinOp::Ge),
        _ => None,
    }
}

/// The operands after the first of a comparison by `<`, `>`, `<=` or `>=`.
pub open spec fn p_comparison_rest(t: Seq<SToken>, left: SExpr, p: int) -> PResult<SExpr>
    decreases t.len() - p, 5nat,
{
    if !(0 <= p < t.len()) {
        None
    } else if comparison_op(t[p]) is Some {
        let op = comparison_op(t[p]).unwrap();
        match p_term(t, p + 1) {
            Some(r) => if p < r.1 <= t.len() {
                p_comparison_rest(t, SExpr::Binary { left: Box::new(left), op, right: Box::new(r.0) }, r.1)
            } else {
                None
            },
            None => None,
        }
    } else {
        Some((left, p))
    }
}

/// A comparison of sums.
pub open spec fn p_comparison(t: Seq<SToken>, pos: int) -> PResult<SExpr>
    decreases t.len() - pos, 6nat,
{
    match p_term(t, pos) {
        Some(r) => if pos < r.1 <= t.len() { p_comparison_rest(t, r.0, r.1) } else { None },
        None => None,
    }
}

/// The operands after the first of an equality test.
pub open spec fn p_equality_rest(t: Seq<SToken>, left: SExpr, p: int) -> PResult<SExpr>
    decreases t.len() - p, 7nat,
{
    if !(0 <= p < t.len()) {
        None
    } else if t[p] == SToken::EqEq {
        match p_comparison(t, p + 1) {
            Some(r) => if p < r.1 <= t.len() {
                p_equality_rest(t, SExpr::Binary { left: Box::new(left), op: BinOp::EqEq, right: Box::new(r.0) }, r.1)
            } else {
                None
            },
            None => None,
        }
    } else {
        Some((left, p))
    }
}

/// An equality test of comparisons.
pub open spec fn p_equality(t: Seq<SToken>, pos: int) -> PResult<SExpr>
    decreases t.len() - pos, 8nat,
{
    match p_comparison(t, pos) {
        Some(r) => if pos < r.1 <= t.len() { p_equality_rest(t, r.0, r.1) } else { None },
        None => None,
    }
}

/// An expression.
pub open spec fn p_expr(t: Seq<SToken>, pos: int) -> PResult<SExpr>
    decreases t.len() - pos, 9nat,
{
    p_equality(t, pos)
}

/// The position after an optional newline (the token there must exist).
pub open spec fn p_newline(t: Seq<SToken>, pos: int) -> Option<int> {
    if !(0 <= pos < t.len()) {
        None
    } else if t[pos] == SToken::Newline {
        Some(pos + 1)
    } else {
        Some(pos)
    }
}

/// The position after the expected token.
pub open spec fn p_expect(t: Seq<SToken>, pos: int, tok: SToken) -> Option<int> {
    if 0 <= pos < t.len() && t[pos] == tok {
        Some(pos + 1)
    } else {
        None
    }
}

/// `print` and an expression.
pub open spec fn p_print(t: Seq<SToken>, pos: int) -> PResult<SStmt> {
    match p_expr(t, pos + 1) {
        Some(r) => match p_newline(t, r.1) {
            Some(q) => Some((SStmt::Print(r.0), q)),
            None => None,
        },
        None => None,
    }
}

/// A name, `=` and an expression.
pub open spec fn p_assign(t: Seq<SToken>, pos: int) -> PResult<SStmt> {
    if 0 <= pos < t.len() && t[pos] is Ident {
        match p_expect(t, pos + 1, SToken::Assign) {
            Some(q) => match p_expr(t, q) {
                Some(r) => match p_newline(t, r.1) {
                    Some(q2) => Some((SStmt::Assign { name: t[pos]->Ident_0, value: r.0 }, q2)),
                    None => None,
                },
                None => None,
            },
            None => None,
        }
    } else {
        None
    }
}

/// The statements of a loop body: up to the end of the tokens or the next
/// `while`.
pub open spec fn p_body(t: Seq<SToken>, p: int, acc: Seq<SStmt>) -> PResult<Seq<SStmt>>
    decreases t.len() - p, 4nat,
{
    if !(0 <= p < t.len()) {
        None
    } else if t[p] == SToken::Eof || t[p] == SToken::While {
        Some((acc, p))
    } else {
        match p_stmt(t, p) {
            Some(r) => if p < r.1 <= t.len() { p_body(t, r.1, acc.push(r.0)) } else { None },
            None => None,
        }
    }
}

/// `while`, a condition, `:`, a newline and the body.
pub open spec fn p_while(t: Seq<SToken>, pos: int) -> PResult<SStmt>
    decreases t.len() - pos, 2nat,
{
    match p_expr(t, pos + 1) {
        Some(r) => if pos < r.1 <= t.len() {
            match p_expect(t, r.1, SToken::Colon) {
                Some(q) => match p_expect(t, q, SToken::Newline) {
                    Some(q2) => match p_body(t, q2, Seq::empty()) {
                        Some(b) => Some((SStmt::While { condition: r.0, body: b.0 }, b.1)),
                        None => None,
                    },
                    None => None,
                },
                None => None,
            }
        } else {
            None
        },
        None => None,
    }
}

/// A statement: a loop, a print, an assignment, `break` or `continue`.
pub open spec fn p_stmt(t: Seq<SToken>, pos: int) -> PResult<SStmt>
    decreases t.len() - pos, 3nat,
{
    if !(0 <= pos < t.len()) {
        None
    } else {
        match t[pos] {
            SToken::While => p_while(t, pos),
            SToken::Print => p_print(t, pos),
            SToken::Ident(_) => p_assign(t, pos),
            SToken::Break => match p_newline(t, pos + 1) {
                Some(q) => Some((SStmt::Break, q)),
                None => None,
            },
            SToken::Continue => match p_newline(t, pos + 1) {
                Some(q) => Some((SStmt::Continue, q)),
                None => None,
            },
            _ => None,
        }
    }
}

/// The statements of a program from `pos` to `Eof`, blank lines skipped.
pub open spec fn p_program(t: Seq<SToken>, pos: int, acc: Seq<SStmt>) -> Option<(Seq<SStmt>, int)>
    decreases t.len() - pos,
{
    if !(0 <= pos < t.len()) {
        None
    } else if t[pos] == SToken::Eof {
        Some((acc, pos))
    } else if t[pos] == SToken::Newline {
        p_program(t, pos + 1, acc)
    } else {
        match p_stmt(t, pos) {
            Some(r) => if pos < r.1 <= t.len() { p_program(t, r.1, acc.push(r.0)) } else { None },
            None => None,
        }
    }
}

/// A recursive-descent parser over tokens.
pub struct Parser {
    tokens: Vec<Token>,
    pos: usize,
}

impl Parser {
    /// The tokens, as models.
    pub closed spec fn toks(&self) -> Seq<SToken> {
        tokens_model(self.tokens@)
    }

    /// The position of the next token.
    pub closed spec fn position(&self) -> int {
        self.pos as int
    }

    /// A parser at the first token.
    pub fn new(tokens: Vec<Token>) -> (r: Self)
        ensures
            r.toks() == tokens_model(tokens@),
            r.position() == 0,
    {
        Self { tokens, pos: 0 }
    }

    /// The statements of the program up to `Eof`, blank lines skipped.
    pub fn parse_program(&mut self) -> (stmts: Vec<Stmt>)
        requires
            p_program(old(self).toks(), old(self).position(), Seq::empty()) is Some,
        ensures
            final(self).toks() == old(self).toks(),
            (stmts_model(stmts@), final(self).position()) == p_program(old(self).toks(), old(self).position(), Seq::empty()).unwrap(),
    {
        match self.try_parse_program() {
            Some(stmts) => stmts,
            None => Vec::new(),
        }
    }

    /// The statements of the program up to `Eof`, or `None` where the
    /// tokens do not form a program (`parse_program` requires that they do).
    pub fn try_parse_program(&mut self) -> (r: Option<Vec<Stmt>>)
        ensures
            final(self).toks() == old(self).toks(),
            match r {
                Some(stmts) => p_program(old(self).toks(), old(self).position(), Seq::empty())
                    == Some((stmts_model(stmts@), final(self).position())),
                None => p_program(old(self).toks(), old(self).position(), Seq::empty()) is None,
            },
    {
        let ghost t = tokens_model(self.tokens@);
        let ghost goal = p_program(t, self.pos as int, Seq::empty());
        if self.pos > self.tokens.len() {
            return None;
        }
        let mut stmts: Vec<Stmt> = Vec::new();
        assert(stmts_model(stmts@) =~= Seq::<SStmt>::empty());
        loop
            invariant
                t == tokens_model(self.tokens@),
                t == tokens_model(old(self).tokens@),
                goal == p_program(t, old(self).pos as int, Seq::empty()),
                self.tokens@ == old(self).tokens@,
                self.pos <= self.tokens.len(),
                p_program(t, self.pos as int, stmts_model(stmts@)) == goal,
            decreases self.tokens.len() - self.pos,
        {
            if self.pos >= self.tokens.len() {
                return None;
            }
            assert(t[self.pos as int] == self.tokens@[self.pos as int]@);
            if matches!(self.peek(), Token::Eof) {
                return Some(stmts);
            }
            if matches!(self.peek(), Token::Newline) {
                self.advance();
                continue;
            }
            let ghost before = stmts_model(stmts@);
            let s = match self.parse_stmt() {
                Some(s) => s,
                None => return None,
            };
            stmts.push(s);
            assert(stmts_model(stmts@) =~= before.push(s@));
        }
    }

    fn parse_stmt(&mut self) -> (r: Option<Stmt>)
        requires
            old(self).pos <= old(self).tokens.len(),
        ensures
            final(self).tokens@ == old(self).tokens@,
            final(self).pos <= final(self).tokens.len(),
            match r {
                Some(x) => p_stmt(tokens_model(old(self).tokens@), old(self).pos as int) == Some((x@, final(self).pos as int))
                    && old(self).pos < final(self).pos,
                None => p_stmt(tokens_model(old(self).tokens@), old(self).pos as int) is None,
            },
        decreases old(self).tokens.len() - old(self).pos, 3nat,
    {
        if self.pos >= self.tokens.len() {
            return None;
        }
        let ghost t = tokens_model(self.tokens@);
        assert(t[self.pos as int] == self.tokens@[self.pos as int]@);
        match self.peek() {
            Token::While => self.parse_while(),
            Token::Print => self.parse_print(),
            Token::Ident(_) => self.parse_assign(),
            Token::Break => {
                self.advance();
                if !self.consume_newline() {
                    return None;
                }
                Some(Stmt::Break)
            },
            Token::Continue => {
                self.advance();
                if !self.consume_newline() {
                    return None;
                }
                Some(Stmt::Continue)
            },
            _ => None,
        }
    }

    fn parse_print(&mut self) -> (r: Option<Stmt>)
        requires
            old(self).pos <= old(self).tokens.len(),
            old(self).pos < old(self).tokens.len(),
        ensures
            final(self).tokens@ == old(self).tokens@,
            final(self).pos <= final(self).tokens.len(),
            match r {
                Some(x) => p_print(tokens_model(old(self).tokens@), old(self).pos as int) == Some((x@, final(self).pos as int))
                    && old(self).pos < final(self).pos,
                None => p_print(tokens_model(old(self).tokens@), old(self).pos as int) is None,
            },
        decreases old(self).tokens.len() - old(self).pos, 1nat,
    {
        self.advance(); // print
        let expr = match self.parse_expr() {
            Some(e) => e,
            None => return None,
        };
        if !self.consume_newline() {
            return None;
        }
        Some(Stmt::Print(expr))
    }

    fn parse_assign(&mut self) -> (r: Option<Stmt>)
        requires
            old(self).pos <= old(self).tokens.len(),
            old(self).pos < old(self).tokens.len(),
        ensures
            final(self).tokens@ == old(self).tokens@,
            final(self).pos <= final(self).tokens.len(),
            match r {
                Some(x) => p_assign(tokens_model(old(self).tokens@), old(self).pos as int) == Some((x@, final(self).pos as int))
                    && old(self).pos < final(self).pos,
                None => p_assign(tokens_model(old(self).tokens@), old(self).pos as int) is None,
            },
        decreases old(self).tokens.len() - old(self).pos, 1nat,
    {
        let ghost t = tokens_model(self.tokens@);
        assert(t[self.pos as int] == self.tokens@[self.pos as int]@);
        let name = match self.peek() {
            Token::Ident(s) => s.clone(),
            _ => return None,
        };
        self.advance();
        if !self.expect(Token::Assign) {
            return None;
        }
        let value = match self.parse_expr() {
            Some(e) => e,
            None => return None,
        };
        if !self.consume_newline() {
            return None;
        }
        Some(Stmt::Assign { name, value })
    }

    fn parse_while(&mut self) -> (r: Option<Stmt>)
        requires
            old(self).pos <= old(self).tokens.len(),
            old(self).pos < old(self).tokens.len(),
        ensures
            final(self).tokens@ == old(self).tokens@,
            final(self).pos <= final(self).tokens.len(),
            match r {
                Some(x) => p_while(tokens_model(old(self).tokens@), old(self).pos as int) == Some((x@, final(self).pos as int))
                    && old(self).pos < final(self).pos,
                None => p_while(tokens_model(old(self).tokens@), old(self).pos as int) is None,
            },
        decreases old(self).tokens.len() - old(self).pos, 2nat,
    {
        let ghost t = tokens_model(self.tokens@);
        self.advance(); // while
        let condition = match self.parse_expr() {
            Some(e) => e,
            None => return None,
        };
        if !self.expect(Token::Colon) {
            return None;
        }
        if !self.expect(Token::Newline) {
            return None;
        }
        let ghost q2 = self.pos as int;
        let ghost cm = condition@;
        assert(p_while(t, old(self).pos as int) == (match p_body(t, q2, Seq::empty()) {
            Some(b) => Some((SStmt::While { condition: cm, body: b.0 }, b.1)),
            None => None,
        }));
        let mut body: Vec<Stmt> = Vec::new();
        assert(stmts_model(body@) =~= Seq::<SStmt>::empty());
        loop
            invariant
                t == tokens_model(self.tokens@),
                t == tokens_model(old(self).tokens@),
                p_while(t, old(self).pos as int) == (match p_body(t, q2, Seq::empty()) {
                    Some(b) => Some((SStmt::While { condition: cm, body: b.0 }, b.1)),
                    None => None,
                }),
                self.tokens@ == old(self).tokens@,
                old(self).pos < self.pos <= self.tokens.len(),
                p_body(t, self.pos as int, stmts_model(body@)) == p_body(t, q2, Seq::empty()),
            ensures
                self.tokens@ == old(self).tokens@,
                old(self).pos < self.pos <= self.tokens.len(),
                p_body(t, q2, Seq::empty()) == Some((stmts_model(body@), self.pos as int)),
            decreases self.tokens.len() - self.pos,
        {
            if self.pos >= self.tokens.len() {
                return None;
            }
            assert(t[self.pos as int] == self.tokens@[self.pos as int]@);
            if matches!(self.peek(), Token::Eof | Token::While) {
                break;
            }
            let ghost before = stmts_model(body@);
            let s = match self.parse_stmt() {
                Some(s) => s,
                None => return None,
            };
            body.push(s);
            assert(stmts_model(body@) =~= before.push(s@));
        }
        let r = Stmt::While { condition, body };
        assert((r@)->While_body =~= stmts_model(body@));
        Some(r)
    }

    fn parse_expr(&mut self) -> (r: Option<Expr>)
        requires
            old(self).pos <= old(self).tokens.len(),
        ensures
            final(self).tokens@ == old(self).tokens@,
            final(self).pos <= final(self).tokens.len(),
            match r {
                Some(x) => p_expr(tokens_model(old(self).tokens@), old(self).pos as int) == Some((x@, final(self).pos as int))
                    && old(self).pos < final(self).pos,
                None => p_expr(tokens_model(old(self).tokens@), old(self).pos as int) is None,
            },
        decreases old(self).tokens.len() - old(self).pos, 9nat,
    {
        self.parse_equality()
    }

    fn parse_factor(&mut self) -> (r: Option<Expr>)
        requires
            old(self).pos <= old(self).tokens.len(),
        ensures
            final(self).tokens@ == old(self).tokens@,
            final(self).pos <= final(self).tokens.len(),
            match r {
                Some(e) => p_factor(tokens_model(old(self).tokens@), old(self).pos as int) == Some((e@, final(self).pos as int))
                    && old(self).pos < final(self).pos,
                None => p_factor(tokens_model(old(self).tokens@), old(self).pos as int) is None,
            },
        decreases old(self).tokens.len() - old(self).pos, 2nat,
    {
        let ghost t = tokens_model(self.tokens@);
        let mut expr = match self.parse_primary() {
            Some(e) => e,
            None => return None,
        };
        loop
            invariant
                t == tokens_model(self.tokens@),
                self.tokens@ == old(self).tokens@,
                old(self).pos < self.pos <= self.tokens.len(),
                p_factor_rest(t, expr@, self.pos as int) == p_factor(t, old(self).pos as int),
            decreases self.tokens.len() - self.pos,
        {
            if self.pos >= self.tokens.len() {
                return None;
            }
            assert(t[self.pos as int] == self.tokens@[self.pos as int]@);
            if !matches!(self.peek(), Token::Star | Token::Slash) {
                return Some(expr);
            }
            let op = match self.peek() {
                Token::Star => BinOp::Mul,
                _ => BinOp::Div,
            };
            self.advance();
            let right = match self.parse_primary() {
                Some(e) => e,
                None => return None,
            };
            expr = Expr::Binary { left: Box::new(expr), op, right: Box::new(right) };
        }
    }

    fn parse_term(&mut self) -> (r: Option<Expr>)
        requires
            old(self).pos <= old(self).tokens.len(),
        ensures
            final(self).tokens@ == old(self).tokens@,
            final(self).pos <= final(self).tokens.len(),
            match r {
                Some(e) => p_term(tokens_model(old(self).tokens@), old(self).pos as int) == Some((e@, final(self).pos as int))
                    && old(self).pos < final(self).pos,
                None => p_term(tokens_model(old(self).tokens@), old(self).pos as int) is None,
            },
        decreases old(self).tokens.len() - old(self).pos, 4nat,
    {
        let ghost t = tokens_model(self.tokens@);
        let mut expr = match self.parse_factor() {
            Some(e) => e,
            None => return None,
        };
        loop
            invariant
                t == tokens_model(self.tokens@),
                self.tokens@ == old(self).tokens@,
                old(self).pos < self.pos <= self.tokens.len(),
                p_term_rest(t, expr@, self.pos as int) == p_term(t, old(self).pos as int),
            decreases self.tokens.len() - self.pos,
        {
            if self.pos >= self.tokens.len() {
                return None;
            }
            assert(t[self.pos as int] == self.tokens@[self.pos as int]@);
            if !matches!(self.peek(), Token::Plus | Token::Minus) {
                return Some(expr);
            }
            let op = match self.peek() {
                Token::Plus => BinOp::Add,
                _ => BinOp::Sub,
            };
            self.advance();
            let right = match self.parse_factor() {
                Some(e) => e,
                None => return None,
            };
            expr = Expr::Binary { left: Box::new(expr), op, right: Box::new(right) };
        }
    }

    fn parse_comparison(&mut self) -> (r: Option<Expr>)
        requires
            old(self).pos <= old(self).tokens.len(),
        ensures
            final(self).tokens@ == old(self).tokens@,
            final(self).pos <= final(self).tokens.len(),
            match r {
                Some(e) => p_comparison(tokens_model(old(self).tokens@), old(self).pos as int) == Some((e@, final(self).pos as int))
                    && old(self).pos < final(self).pos,
                None => p_comparison(tokens_model(old(self).tokens@), old(self).pos as int) is None,
            },
        decreases old(self).tokens.len() - old(self).pos, 6nat,
    {
        let ghost t = tokens_model(self.tokens@);
        let mut expr = match self.parse_term() {
            Some(e) => e,
            None => return None,
        };
        loop
            invariant
                t == tokens_model(self.tokens@),
                self.tokens@ == old(self).tokens@,
                old(self).pos < self.pos <= self.tokens.len(),
                p_comparison_rest(t, expr@, self.pos as int) == p_comparison(t, old(self).pos as int),
            decreases self.tokens.len() - self.pos,
        {
            if self.pos >= self.tokens.len() {
                return None;
            }
            assert(t[self.pos as int] == self.tokens@[self.pos as int]@);
            if !matches!(self.peek(), Token::Lt | Token::Gt | Token::Le | Token::Ge) {
                return Some(expr);
            }
            let op = match self.peek() {
                Token::Lt => BinOp::Lt,
                Token::Gt => BinOp::Gt,
                Token::Le => BinOp::Le,
                _ => BinOp::Ge,
            };
            self.advance();
            let right = match self.parse_term() {
                Some(e) => e,
                None => return None,
            };
            expr = Expr::Binary { left: Box::new(expr), op, right: Box::new(right) };
        }
    }

    fn parse_equality(&mut self) -> (r: Option<Expr>)
        requires
            old(self).pos <= old(self).tokens.len(),
        ensures
            final(self).tokens@ == old(self).tokens@,
            final(self).pos <= final(self).tokens.len(),
            match r {
                Some(e) => p_equality(tokens_model(old(self).tokens@), old(self).pos as int) == Some((e@, final(self).pos as int))
                    && old(self).pos < final(self).pos,
                None => p_equality(tokens_model(old(self).tokens@), old(self).pos as int) is None,
            },
        decreases old(self).tokens.len() - old(self).pos, 8nat,
    {
        let ghost t = tokens_model(self.tokens@);
        let mut expr = match self.parse_comparison() {
            Some(e) => e,
            None => return None,
        };
        loop
            invariant
                t == tokens_model(self.tokens@),
                self.tokens@ == old(self).tokens@,
                old(self).pos < self.pos <= self.tokens.len(),
                p_equality_rest(t, expr@, self.pos as int) == p_equality(t, old(self).pos as int),
            decreases self.tokens.len() - self.pos,
        {
            if self.pos >= self.tokens.len() {
                return None;
            }
            assert(t[self.pos as int] == self.tokens@[self.pos as int]@);
            if !matches!(self.peek(), Token::EqEq) {
                return Some(expr);
            }
            let op = match self.peek() {
                _ => BinOp::EqEq,
            };
            self.advance();
            let right = match self.parse_comparison() {
                Some(e) => e,
                None => return None,
            };
            expr = Expr::Binary { left: Box::new(expr), op, right: Box::new(right) };
        }
    }

    fn parse_primary(&mut self) -> (r: Option<Expr>)
        requires
            old(self).pos <= old(self).tokens.len(),
        ensures
            final(self).tokens@ == old(self).tokens@,
            final(self).pos <= final(self).tokens.len(),
            match r {
                Some(x) => p_primary(tokens_model(old(self).tokens@), old(self).pos as int) == Some((x@, final(self).pos as int))
                    && old(self).pos < final(self).pos,
                None => p_primary(tokens_model(old(self).tokens@), old(self).pos as int) is None,
            },
        decreases old(self).tokens.len() - old(self).pos, 0nat,
    {
        if self.pos >= self.tokens.len() {
            return None;
        }
        let ghost t = tokens_model(self.tokens@);
        assert(t[self.pos as int] == self.tokens@[self.pos as int]@);
        match self.advance() {
            Token::Int(n) => Some(Expr::Int(*n)),
            Token::Ident(s) => Some(Expr::Var(s.clone())),
            Token::Str(s) => Some(Expr::Str(s.clone())),
            Token::LParen => {
                let expr = match self.parse_expr() {
                    Some(e) => e,
                    None => return None,
                };
                if !self.expect(Token::RParen) {
                    return None;
                }
                Some(expr)
            },
            _ => None,
        }
    }

    /// Consumes the expected token; false (and no change) if another token
    /// or no token comes next.
    fn expect(&mut self, token: Token) -> (r: bool)
        requires
            old(self).pos <= old(self).tokens.len(),
        ensures
            final(self).tokens@ == old(self).tokens@,
            r == (p_expect(tokens_model(old(self).tokens@), old(self).pos as int, token@) is Some),
            r ==> final(self).pos == old(self).pos + 1,
            !r ==> final(self).pos == old(self).pos,
    {
        if self.pos < self.tokens.len() && same_token(self.peek(), &token) {
            assert(tokens_model(self.tokens@)[self.pos as int] == self.tokens@[self.pos as int]@);
            self.advance();
            true
        } else {
            assert(self.pos < self.tokens.len() ==> tokens_model(self.tokens@)[self.pos as int] == self.tokens@[self.pos as int]@);
            false
        }
    }

    /// Consumes a newline if one comes next; false if no token comes next.
    fn consume_newline(&mut self) -> (r: bool)
        requires
            old(self).pos <= old(self).tokens.len(),
        ensures
            final(self).tokens@ == old(self).tokens@,
            r == (p_newline(tokens_model(old(self).tokens@), old(self).pos as int) is Some),
            r ==> final(self).pos as int == p_newline(tokens_model(old(self).tokens@), old(self).pos as int).unwrap(),
            !r ==> final(self).pos == old(self).pos,
    {
        if self.pos >= self.tokens.len() {
            return false;
        }
        let ghost t = tokens_model(self.tokens@);
        assert(t[self.pos as int] == self.tokens@[self.pos as int]@);
        if matches!(self.peek(), Token::Newline) {
            self.advance();
        }
        true
    }

    fn peek(&self) -> (r: &Token)
        requires
            self.pos < self.tokens.len(),
        ensures
            *r == self.tokens@[self.pos as int],
    {
        &self.tokens[self.pos]
    }

    fn advance(&mut self) -> (r: &Token)
        requires
            old(self).pos < old(self).tokens.len(),
        ensures
            final(self).tokens@ == old(self).tokens@,
            final(self).pos == old(self).pos + 1,
            *r == old(self).tokens@[old(self).pos as int],
    {
        self.pos += 1;
        &self.tokens[self.pos - 1]
    }

    fn match_token(&mut self, expected: &Token) -> (r: bool)
        requires
            old(self).pos < old(self).tokens.len(),
        ensures
            final(self).tokens@ == old(self).tokens@,
            r == (old(self).tokens@[old(self).pos as int]@ == expected@),
            final(self).pos == (if r { old(self).pos + 1 } else { old(self).pos as int }),
    {
        if same_token(self.peek(), expected) {
            self.advance();
            true
        } else {
            false
        }
    }
}

} // verus!
