use vstd::prelude::*;

verus! {

/// Binary operators of the source language.
#[derive(Debug, Clone, Copy, PartialEq, Eq, Structural, Hash)]
pub enum BinOp {
    Add,
    Sub,
    Mul,
    Div,
    Lt,
    Gt,
    EqEq,
    Le,
    Ge,
    And,
    Or,
}

/// Unary operators of the source language.
#[derive(Debug, Clone, Copy, PartialEq, Eq, Structural, Hash)]
pub enum UnaryOp {
    Not,
    Neg,
}

/// Expressions of the source language.
#[derive(Debug)]
#[allow(inconsistent_fields)]
pub enum Expr {
    Int(i32),
    Var(String),
    Binary { left: Box<Expr>, op: BinOp, right: Box<Expr> },
    Unary { op: UnaryOp, operand: Box<Expr> },
    Call { name: String, args: Vec<Expr> },
    NativeCall { id: u8, args: Vec<Expr> },
    Str(String),
    ArrLit(Vec<Expr>),
    ArrIndex { arr: Box<Expr>, index: Box<Expr> },
}

/// Statements of the source language.
#[derive(Debug)]
pub enum Stmt {
    Print(Expr),
    Assign { name: String, value: Expr },
    ArrAssign { name: String, index: Box<Expr>, value: Expr },
    While { condition: Expr, body: Vec<Stmt> },
    If { condition: Expr, then_body: Vec<Stmt>, else_body: Vec<Stmt> },
    Func { name: String, params: Vec<String>, body: Vec<Stmt> },
    Return(Expr),
    Native { id: u8, args: Vec<Expr> },
    Break,
    Continue,
}

/// Mathematical model of an expression: names are character sequences and
/// argument lists are sequences.
#[verifier::ext_equal]
#[allow(inconsistent_fields)]
pub enum SExpr {
    Int(i32),
    Var(Seq<char>),
    Binary { left: Box<SExpr>, op: BinOp, right: Box<SExpr> },
    Unary { op: UnaryOp, operand: Box<SExpr> },
    Call { name: Seq<char>, args: Seq<SExpr> },
    NativeCall { id: u8, args: Seq<SExpr> },
    Str(Seq<char>),
    ArrLit(Seq<SExpr>),
    ArrIndex { arr: Box<SExpr>, index: Box<SExpr> },
}

/// Mathematical model of a statement.
#[verifier::ext_equal]
pub enum SStmt {
    Print(SExpr),
    Assign { name: Seq<char>, value: SExpr },
    ArrAssign { name: Seq<char>, index: SExpr, value: SExpr },
    While { condition: SExpr, body: Seq<SStmt> },
    If { condition: SExpr, then_body: Seq<SStmt>, else_body: Seq<SStmt> },
    Func { name: Seq<char>, params: Seq<Seq<char>>, body: Seq<SStmt> },
    Return(SExpr),
    Native { id: u8, args: Seq<SExpr> },
    Break,
    Continue,
}

/// The model of an expression.
pub open spec fn expr_model(e: Expr) -> SExpr
    decreases e,
{
    match e {
        Expr::Int(n) => SExpr::Int(n),
        Expr::Var(s) => SExpr::Var(s@),
        Expr::Binary { left, op, right } => SExpr::Binary {
            left: Box::new(expr_model(*left)),
            op,
            right: Box::new(expr_model(*right)),
        },
        Expr::Unary { op, operand } => SExpr::Unary { op, operand: Box::new(expr_model(*operand)) },
        Expr::Call { name, args } => SExpr::Call {
            name: name@,
            args: Seq::new(
                args.len() as nat,
                |i: int|
                    if 0 <= i < args.len() {
                        expr_model(args@[i])
                    } else {
                        SExpr::Int(0)
                    },
            ),
        },
        Expr::NativeCall { id, args } => SExpr::NativeCall {
            id,
            args: Seq::new(
                args.len() as nat,
                |i: int|
                    if 0 <= i < args.len() {
                        expr_model(args@[i])
                    } else {
                        SExpr::Int(0)
                    },
            ),
        },
        Expr::Str(s) => SExpr::Str(s@),
        Expr::ArrLit(items) => SExpr::ArrLit(
            Seq::new(
                items.len() as nat,
                |i: int|
                    if 0 <= i < items.len() {
                        expr_model(items@[i])
                    } else {
                        SExpr::Int(0)
                    },
            ),
        ),
        Expr::ArrIndex { arr, index } => SExpr::ArrIndex {
            arr: Box::new(expr_model(*arr)),
            index: Box::new(expr_model(*index)),
        },
    }
}

/// The models of a sequence of expressions.
pub open spec fn exprs_model(v: Seq<Expr>) -> Seq<SExpr> {
    Seq::new(v.len() as nat, |i: int| expr_model(v[i]))
}

/// The models of a sequence of names.
pub open spec fn names_model(v: Seq<String>) -> Seq<Seq<char>> {
    Seq::new(v.len() as nat, |i: int| v[i]@)
}

/// The model of a statement.
pub open spec fn stmt_model(s: Stmt) -> SStmt
    decreases s,
{
    match s {
        Stmt::Print(e) => SStmt::Print(expr_model(e)),
        Stmt::Assign { name, value } => SStmt::Assign { name: name@, value: expr_model(value) },
        Stmt::ArrAssign { name, index, value } => SStmt::ArrAssign {
            name: name@,
            index: expr_model(*index),
            value: expr_model(value),
        },
        Stmt::While { condition, body } => SStmt::While {
            condition: expr_model(condition),
            body: Seq::new(
                body.len() as nat,
                |i: int|
                    if 0 <= i < body.len() {
                        stmt_model(body@[i])
                    } else {
                        SStmt::Break
                    },
            ),
        },
        Stmt::If { condition, then_body, else_body } => SStmt::If {
            condition: expr_model(condition),
            then_body: Seq::new(
                then_body.len() as nat,
                |i: int|
                    if 0 <= i < then_body.len() {
                        stmt_model(then_body@[i])
                    } else {
                        SStmt::Break
                    },
            ),
            else_body: Seq::new(
                else_body.len() as nat,
                |i: int|
                    if 0 <= i < else_body.len() {
                        stmt_model(else_body@[i])
                    } else {
                        SStmt::Break
                    },
            ),
        },
        Stmt::Func { name, params, body } => SStmt::Func {
            name: name@,
            params: names_model(params@),
            body: Seq::new(
                body.len() as nat,
                |i: int|
                    if 0 <= i < body.len() {
                        stmt_model(body@[i])
                    } else {
                        SStmt::Break
                    },
            ),
        },
        Stmt::Return(e) => SStmt::Return(expr_model(e)),
        Stmt::Native { id, args } => SStmt::Native { id, args: exprs_model(args@) },
        Stmt::Break => SStmt::Break,
        Stmt::Continue => SStmt::Continue,
    }
}

/// The models of a sequence of statements.
pub open spec fn stmts_model(v: Seq<Stmt>) -> Seq<SStmt> {
    Seq::new(v.len() as nat, |i: int| stmt_model(v[i]))
}

impl View for Expr {
    type V = SExpr;

    open spec fn view(&self) -> SExpr {
        expr_model(*self)
    }
}

impl View for Stmt {
    type V = SStmt;

    open spec fn view(&self) -> SStmt {
        stmt_model(*self)
    }
}

/// Copies a list of names.
pub fn copy_strings(v: &Vec<String>) -> (r: Vec<String>)
    ensures
        names_model(r@) == names_model(v@),
{
    let mut r: Vec<String> = Vec::new();
    let mut i: usize = 0;
    while i < v.len()
        invariant
            i <= v.len(),
            r.len() == i,
            forall|j: int| 0 <= j < i ==> (#[trigger] r@[j])@ == v@[j]@,
        decreases v.len() - i,
    {
        r.push(v[i].clone());
        i += 1;
    }
    assert(names_model(r@) =~= names_model(v@));
    r
}

/// Copies a list of expressions, element by element.
pub fn copy_exprs(v: &Vec<Expr>) -> (r: Vec<Expr>)
    ensures
        r.len() == v.len(),
        forall|j: int| 0 <= j < v.len() ==> expr_model(#[trigger] r@[j]) == expr_model(v@[j]),
        exprs_model(r@) == exprs_model(v@),
    decreases v@,
{
    let mut r: Vec<Expr> = Vec::new();
    let mut i: usize = 0;
    while i < v.len()
        invariant
            i <= v.len(),
            r.len() == i,
            forall|j: int| 0 <= j < i ==> expr_model(#[trigger] r@[j]) == expr_model(v@[j]),
        decreases v.len() - i,
    {
        proof {
            assert(decreases_to!(v@ => v@[i as int]));
        }
        r.push(v[i].copy());
        i += 1;
    }
    assert(exprs_model(r@) =~= exprs_model(v@));
    r
}

impl Expr {
    /// A copy of the expression with the same model.
    pub fn copy(&self) -> (r: Expr)
        ensures
            r@ == self@,
        decreases self,
    {
        match self {
            Expr::Int(n) => Expr::Int(*n),
            Expr::Var(s) => Expr::Var(s.clone()),
            Expr::Binary { left, op, right } => Expr::Binary {
                left: Box::new(left.copy()),
                op: *op,
                right: Box::new(right.copy()),
            },
            Expr::Unary { op, operand } => Expr::Unary {
                op: *op,
                operand: Box::new(operand.copy()),
            },
            Expr::Call { name, args } => {
                proof {
                    assert(decreases_to!(*self => (*self)->Call_args));
                    assert(decreases_to!(*args => args@));
                }
                let a = copy_exprs(args);
                let r = Expr::Call { name: name.clone(), args: a };
                assert(r@ == self@) by {
                    if let SExpr::Call { args: ma, .. } = r@ {
                        if let SExpr::Call { args: mb, .. } = self@ {
                            assert(ma =~= mb);
                        }
                    }
                }
                r
            },
            Expr::NativeCall { id, args } => {
                proof {
                    assert(decreases_to!(*self => (*self)->NativeCall_args));
                    assert(decreases_to!(*args => args@));
                }
                let a = copy_exprs(args);
                let r = Expr::NativeCall { id: *id, args: a };
                assert(r@ == self@) by {
                    if let SExpr::NativeCall { args: ma, .. } = r@ {
                        if let SExpr::NativeCall { args: mb, .. } = self@ {
                            assert(ma =~= mb);
                        }
                    }
                }
                r
            },
            Expr::Str(s) => Expr::Str(s.clone()),
            Expr::ArrLit(items) => {
                proof {
                    assert(decreases_to!(*self => (*self)->ArrLit_0));
                    assert(decreases_to!(*items => items@));
                }
                let a = copy_exprs(items);
                let r = Expr::ArrLit(a);
                assert(r@ == self@) by {
                    if let SExpr::ArrLit(ma) = r@ {
                        if let SExpr::ArrLit(mb) = self@ {
                            assert(ma =~= mb);
                        }
                    }
                }
                r
            },
            Expr::ArrIndex { arr, index } => Expr::ArrIndex {
                arr: Box::new(arr.copy()),
                index: Box::new(index.copy()),
            },
        }
    }
}

/// A copy of a list of statements, with the same models.
pub fn copy_stmts(v: &Vec<Stmt>) -> (r: Vec<Stmt>)
    ensures
        stmts_model(r@) == stmts_model(v@),
    decreases v@,
{
    let mut r: Vec<Stmt> = Vec::new();
    let mut i: usize = 0;
    while i < v.len()
        invariant
            i <= v.len(),
            r.len() == i,
            forall|k: int| 0 <= k < i ==> stmt_model(#[trigger] r@[k]) == stmt_model(v@[k]),
        decreases v.len() - i,
    {
        proof {
            assert(decreases_to!(v@ => v@[i as int]));
        }
        let c = v[i].copy();
        r.push(c);
        i += 1;
    }
    assert(stmts_model(r@) =~= stmts_model(v@));
    r
}

impl Stmt {
    /// A copy of the statement with the same model.
    pub fn copy(&self) -> (r: Stmt)
        ensures
            r@ == self@,
        decreases self,
    {
        match self {
            Stmt::Print(e) => Stmt::Print(e.copy()),
            Stmt::Assign { name, value } => Stmt::Assign { name: name.clone(), value: value.copy() },
            Stmt::ArrAssign { name, index, value } => Stmt::ArrAssign {
                name: name.clone(),
                index: Box::new(index.copy()),
                value: value.copy(),
            },
            Stmt::While { condition, body } => {
                proof {
                    assert(decreases_to!(*self => (*self)->While_body));
                    assert(decreases_to!(*body => body@));
                }
                let b = copy_stmts(body);
                let r = Stmt::While { condition: condition.copy(), body: b };
                assert((r@)->While_body =~= (self@)->While_body) by {
                    assert((r@)->While_body =~= stmts_model(b@));
                    assert((self@)->While_body =~= stmts_model(body@));
                }
                r
            },
            Stmt::If { condition, then_body, else_body } => {
                proof {
                    assert(decreases_to!(*self => (*self)->If_then_body));
                    assert(decreases_to!(*then_body => then_body@));
                    assert(decreases_to!(*self => (*self)->If_else_body));
                    assert(decreases_to!(*else_body => else_body@));
                }
                let t = copy_stmts(then_body);
                let e = copy_stmts(else_body);
                let r = Stmt::If { condition: condition.copy(), then_body: t, else_body: e };
                assert((r@)->If_then_body =~= (self@)->If_then_body) by {
                    assert((r@)->If_then_body =~= stmts_model(t@));
                    assert((self@)->If_then_body =~= stmts_model(then_body@));
                }
                assert((r@)->If_else_body =~= (self@)->If_else_body) by {
                    assert((r@)->If_else_body =~= stmts_model(e@));
                    assert((self@)->If_else_body =~= stmts_model(else_body@));
                }
                r
            },
            Stmt::Func { name, params, body } => {
                proof {
                    assert(decreases_to!(*self => (*self)->Func_body));
                    assert(decreases_to!(*body => body@));
                }
                let b = copy_stmts(body);
                let r = Stmt::Func { name: name.clone(), params: copy_strings(params), body: b };
                assert((r@)->Func_body =~= (self@)->Func_body) by {
                    assert((r@)->Func_body =~= stmts_model(b@));
                    assert((self@)->Func_body =~= stmts_model(body@));
                }
                r
            },
            Stmt::Return(e) => Stmt::Return(e.copy()),
            Stmt::Native { id, args } => {
                let a = copy_exprs(args);
                let r = Stmt::Native { id: *id, args: a };
                assert(r@ == self@) by {
                    if let SStmt::Native { args: ma, .. } = r@ {
                        if let SStmt::Native { args: mb, .. } = self@ {
                            assert(ma =~= mb);
                        }
                    }
                }
                r
            },
            Stmt::Break => Stmt::Break,
            Stmt::Continue => Stmt::Continue,
        }
    }
}

impl Clone for Stmt {
    fn clone(&self) -> (r: Self)
        ensures
            r@ == self@,
    {
        self.copy()
    }
}

impl Clone for Expr {
    fn clone(&self) -> (r: Self)
        ensures
            r@ == self@,
    {
        self.copy()
    }
}

} // verus!
