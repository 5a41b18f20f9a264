use vstd::prelude::*;
use crate::ast::{BinOp, Expr, SExpr, SStmt, Stmt, expr_model, exprs_model, stmt_model, stmts_model, names_model};

verus! {

/// Integer division rounding toward zero (Rust's `/` on integers).
pub open spec fn div_trunc(a: int, b: int) -> int {
    let q = (if a < 0 { -a } else { a }) / (if b < 0 { -b } else { b });
    if (a >= 0) == (b > 0) {
        q
    } else {
        -q
    }
}

pub open spec fn fits_i32(v: int) -> bool {
    i32::MIN <= v <= i32::MAX
}

/// Folding `l op r` stays within `i32`.
pub open spec fn fold_ok(op: BinOp, l: i32, r: i32) -> bool {
    match op {
        BinOp::Add => fits_i32(l + r),
        BinOp::Sub => fits_i32(l - r),
        BinOp::Mul => fits_i32(l * r),
        BinOp::Div => r != 0 ==> !(l == i32::MIN && r == -1),
        _ => true,
    }
}

/// The folded value of `l op r` (division by zero is left in place).
pub open spec fn fold_binary(op: BinOp, l: i32, r: i32) -> SExpr {
    match op {
        BinOp::Add => SExpr::Int((l + r) as i32),
        BinOp::Sub => SExpr::Int((l - r) as i32),
        BinOp::Mul => SExpr::Int((l * r) as i32),
        BinOp::Div => if r != 0 {
            SExpr::Int(div_trunc(l as int, r as int) as i32)
        } else {
            SExpr::Binary { left: Box::new(SExpr::Int(l)), op, right: Box::new(SExpr::Int(r)) }
        },
        BinOp::Lt => SExpr::Int(if l < r { 1 } else { 0 }),
        BinOp::Gt => SExpr::Int(if l > r { 1 } else { 0 }),
        BinOp::EqEq => SExpr::Int(if l == r { 1 } else { 0 }),
        BinOp::Le => SExpr::Int(if l <= r { 1 } else { 0 }),
        BinOp::Ge => SExpr::Int(if l >= r { 1 } else { 0 }),
        BinOp::And => SExpr::Int(if l != 0 && r != 0 { 1 } else { 0 }),
        BinOp::Or => SExpr::Int(if l != 0 || r != 0 { 1 } else { 0 }),
    }
}

/// Algebraic simplification of `l op r`: `x+0`, `0+x`, `x-0`, `x*1`, `1*x`
/// and `x/1` become `x`; `x*0` and `0*x` become `0`.
pub open spec fn simplify(l: SExpr, op: BinOp, r: SExpr) -> SExpr {
    if op == BinOp::Add && r == SExpr::Int(0) {
        l
    } else if op == BinOp::Add && l == SExpr::Int(0) {
        r
    } else if op == BinOp::Sub && r == SExpr::Int(0) {
        l
    } else if op == BinOp::Mul && r == SExpr::Int(0) {
        SExpr::Int(0)
    } else if op == BinOp::Mul && l == SExpr::Int(0) {
        SExpr::Int(0)
    } else if op == BinOp::Mul && r == SExpr::Int(1) {
        l
    } else if op == BinOp::Mul && l == SExpr::Int(1) {
        r
    } else if op == BinOp::Div && r == SExpr::Int(1) {
        l
    } else {
        SExpr::Binary { left: Box::new(l), op, right: Box::new(r) }
    }
}

/// The optimized expression: binary operations on two constants are folded,
/// the algebraic identities are applied, and call arguments, array items and
/// indexing operands are optimized; everything else is kept.
pub open spec fn sopt_expr(e: SExpr) -> SExpr
    decreases e,
{
    match e {
        SExpr::Binary { left, op, right } => {
            let l = sopt_expr(*left);
            let r = sopt_expr(*right);
            if l is Int && r is Int {
                fold_binary(op, l->Int_0, r->Int_0)
            } else {
                simplify(l, op, r)
            }
        },
        SExpr::Call { name, args } => SExpr::Call {
            name,
            args: Seq::new(
                args.len(),
                |i: int|
                    if 0 <= i < args.len() {
                        sopt_expr(args[i])
                    } else {
                        SExpr::Int(0)
                    },
            ),
        },
        SExpr::NativeCall { id, args } => SExpr::NativeCall {
            id,
            args: Seq::new(
                args.len(),
                |i: int|
                    if 0 <= i < args.len() {
                        sopt_expr(args[i])
                    } else {
                        SExpr::Int(0)
                    },
            ),
        },
        SExpr::ArrLit(items) => SExpr::ArrLit(
            Seq::new(
                items.len(),
                |i: int|
                    if 0 <= i < items.len() {
                        sopt_expr(items[i])
                    } else {
                        SExpr::Int(0)
                    },
            ),
        ),
        SExpr::ArrIndex { arr, index } => SExpr::ArrIndex {
            arr: Box::new(sopt_expr(*arr)),
            index: Box::new(sopt_expr(*index)),
        },
        _ => e,
    }
}

/// Every fold the optimizer performs on the expression stays within `i32`.
pub open spec fn opt_ok(e: SExpr) -> bool
    decreases e,
{
    match e {
        SExpr::Binary { left, op, right } => opt_ok(*left) && opt_ok(*right) && (sopt_expr(*left) is Int
            && sopt_expr(*right) is Int ==> fold_ok(op, sopt_expr(*left)->Int_0, sopt_expr(*right)->Int_0)),
        SExpr::Call { args, .. } => forall|i: int| 0 <= i < args.len() ==> opt_ok(#[trigger] args[i]),
        SExpr::NativeCall { args, .. } => forall|i: int| 0 <= i < args.len() ==> opt_ok(#[trigger] args[i]),
        SExpr::ArrLit(items) => forall|i: int| 0 <= i < items.len() ==> opt_ok(#[trigger] items[i]),
        SExpr::ArrIndex { arr, index } => opt_ok(*arr) && opt_ok(*index),
        _ => true,
    }
}

/// `return`, `break` and `continue` end a function body; what follows is dead.
pub open spec fn is_exit(s: SStmt) -> bool {
    s is Return || s is Break || s is Continue
}

/// The optimized statement.
pub open spec fn sopt_stmt(s: SStmt) -> SStmt
    decreases s, 0nat,
{
    match s {
        SStmt::Print(e) => SStmt::Print(sopt_expr(e)),
        SStmt::Assign { name, value } => SStmt::Assign { name, value: sopt_expr(value) },
        SStmt::ArrAssign { name, index, value } => SStmt::ArrAssign {
            name,
            index: sopt_expr(index),
            value: sopt_expr(value),
        },
        SStmt::While { condition, body } => {
            let c = sopt_expr(condition);
            if c == SExpr::Int(0) {
                SStmt::While { condition: c, body: Seq::empty() }
            } else {
                SStmt::While { condition: c, body: sopt_body(body, 0) }
            }
        },
        SStmt::If { condition, then_body, else_body } => {
            let c = sopt_expr(condition);
            if c == SExpr::Int(0) {
                if else_body.len() == 0 {
                    SStmt::If { condition: SExpr::Int(0), then_body: Seq::empty(), else_body: Seq::empty() }
                } else if else_body.len() == 1 {
                    sopt_stmt(else_body[0])
                } else {
                    SStmt::If {
                        condition: SExpr::Int(0),
                        then_body: Seq::empty(),
                        else_body: sopt_body(else_body, 0),
                    }
                }
            } else if c is Int {
                if then_body.len() == 1 {
                    sopt_stmt(then_body[0])
                } else {
                    SStmt::If { condition: c, then_body: sopt_body(then_body, 0), else_body: Seq::empty() }
                }
            } else {
                SStmt::If {
                    condition: c,
                    then_body: sopt_body(then_body, 0),
                    else_body: sopt_body(else_body, 0),
                }
            }
        },
        SStmt::Func { name, params, body } => SStmt::Func { name, params, body: sopt_func_body(body, 0) },
        SStmt::Return(e) => SStmt::Return(sopt_expr(e)),
        SStmt::Native { id, args } => SStmt::Native {
            id,
            args: Seq::new(args.len(), |i: int| sopt_expr(args[i])),
        },
        SStmt::Break => SStmt::Break,
        SStmt::Continue => SStmt::Continue,
    }
}

/// The optimized statements from position `k` on.
pub open spec fn sopt_body(body: Seq<SStmt>, k: int) -> Seq<SStmt>
    decreases body, body.len() - k,
{
    if k < 0 || k >= body.len() {
        Seq::empty()
    } else {
        seq![sopt_stmt(body[k])] + sopt_body(body, k + 1)
    }
}

/// The optimized statements of a function body from position `k` on, up to
/// and including the first `return`, `break` or `continue`.
pub open spec fn sopt_func_body(body: Seq<SStmt>, k: int) -> Seq<SStmt>
    decreases body, body.len() - k,
{
    if k < 0 || k >= body.len() {
        Seq::empty()
    } else if is_exit(body[k]) {
        seq![sopt_stmt(body[k])]
    } else {
        seq![sopt_stmt(body[k])] + sopt_func_body(body, k + 1)
    }
}

/// Every fold the optimizer performs on the statement stays within `i32`.
pub open spec fn stmt_opt_ok(s: SStmt) -> bool
    decreases s, 0nat,
{
    match s {
        SStmt::Print(e) => opt_ok(e),
        SStmt::Assign { value, .. } => opt_ok(value),
        SStmt::ArrAssign { index, value, .. } => opt_ok(index) && opt_ok(value),
        SStmt::While { condition, body } => opt_ok(condition) && (sopt_expr(condition) != SExpr::Int(0)
            ==> body_opt_ok(body, 0)),
        SStmt::If { condition, then_body, else_body } => {
            let c = sopt_expr(condition);
            opt_ok(condition) && if c == SExpr::Int(0) {
                if else_body.len() == 1 {
                    stmt_opt_ok(else_body[0])
                } else {
                    body_opt_ok(else_body, 0)
                }
            } else if c is Int {
                if then_body.len() == 1 {
                    stmt_opt_ok(then_body[0])
                } else {
                    body_opt_ok(then_body, 0)
                }
            } else {
                body_opt_ok(then_body, 0) && body_opt_ok(else_body, 0)
            }
        },
        SStmt::Func { body, .. } => func_body_opt_ok(body, 0),
        SStmt::Return(e) => opt_ok(e),
        SStmt::Native { args, .. } => forall|i: int| 0 <= i < args.len() ==> opt_ok(#[trigger] args[i]),
        _ => true,
    }
}

pub open spec fn body_opt_ok(body: Seq<SStmt>, k: int) -> bool
    decreases body, body.len() - k,
{
    if k < 0 || k >= body.len() {
        true
    } else {
        stmt_opt_ok(body[k]) && body_opt_ok(body, k + 1)
    }
}

pub open spec fn func_body_opt_ok(body: Seq<SStmt>, k: int) -> bool
    decreases body, body.len() - k,
{
    if k < 0 || k >= body.len() {
        true
    } else if is_exit(body[k]) {
        stmt_opt_ok(body[k])
    } else {
        stmt_opt_ok(body[k]) && func_body_opt_ok(body, k + 1)
    }
}


/// The expression `l op r`.
pub open spec fn bin_expr(l: SExpr, op: BinOp, r: SExpr) -> SExpr {
    SExpr::Binary { left: Box::new(l), op, right: Box::new(r) }
}

/// Folding two constants computes the operator: `+`, `-` and `*` give the
/// sum, difference and product, `/` the quotient rounded toward zero (a
/// division by zero stays as it is), the comparisons 1 when they hold
/// strictly as written and 0 otherwise, `and` 1 when both are non-zero and
/// `or` 1 when either is.
pub proof fn law_folding_computes_the_operator(l: i32, op: BinOp, r: i32)
    requires
        opt_ok(bin_expr(SExpr::Int(l), op, SExpr::Int(r))),
    ensures
        op == BinOp::Add ==> (sopt_expr(bin_expr(SExpr::Int(l), op, SExpr::Int(r))) matches SExpr::Int(v) && v == l + r),
        op == BinOp::Sub ==> (sopt_expr(bin_expr(SExpr::Int(l), op, SExpr::Int(r))) matches SExpr::Int(v) && v == l - r),
        op == BinOp::Mul ==> (sopt_expr(bin_expr(SExpr::Int(l), op, SExpr::Int(r))) matches SExpr::Int(v) && v == l * r),
        op == BinOp::Div && r != 0 ==> (sopt_expr(bin_expr(SExpr::Int(l), op, SExpr::Int(r))) matches SExpr::Int(v)
            && crate::peephole::is_truncated_quotient(l as int, r as int, v as int)),
        op == BinOp::Div && r == 0 ==> sopt_expr(bin_expr(SExpr::Int(l), op, SExpr::Int(r))) == bin_expr(SExpr::Int(l), op, SExpr::Int(r)),
        op == BinOp::Lt ==> sopt_expr(bin_expr(SExpr::Int(l), op, SExpr::Int(r))) == SExpr::Int(if l < r { 1 } else { 0 }),
        op == BinOp::Gt ==> sopt_expr(bin_expr(SExpr::Int(l), op, SExpr::Int(r))) == SExpr::Int(if l > r { 1 } else { 0 }),
        op == BinOp::EqEq ==> sopt_expr(bin_expr(SExpr::Int(l), op, SExpr::Int(r))) == SExpr::Int(if l == r { 1 } else { 0 }),
        op == BinOp::Le ==> sopt_expr(bin_expr(SExpr::Int(l), op, SExpr::Int(r))) == SExpr::Int(if l <= r { 1 } else { 0 }),
        op == BinOp::Ge ==> sopt_expr(bin_expr(SExpr::Int(l), op, SExpr::Int(r))) == SExpr::Int(if l >= r { 1 } else { 0 }),
        op == BinOp::And ==> sopt_expr(bin_expr(SExpr::Int(l), op, SExpr::Int(r))) == SExpr::Int(if l != 0 && r != 0 { 1 } else { 0 }),
        op == BinOp::Or ==> sopt_expr(bin_expr(SExpr::Int(l), op, SExpr::Int(r))) == SExpr::Int(if l != 0 || r != 0 { 1 } else { 0 }),
{
    let e = bin_expr(SExpr::Int(l), op, SExpr::Int(r));
    assert(sopt_expr(SExpr::Int(l)) == SExpr::Int(l));
    assert(sopt_expr(SExpr::Int(r)) == SExpr::Int(r));
    assert(sopt_expr(e) == fold_binary(op, l, r));
    if op == BinOp::Div && r != 0 {
        let q = crate::peephole::div_toward_zero(l as int, r as int);
        assert(div_trunc(l as int, r as int) == q);
        crate::peephole::lemma_div_toward_zero(l as int, r as int);
        assert(fold_ok(op, l, r));
        assert(i32::MIN <= q <= i32::MAX) by {
            if l == i32::MIN {
                assert(r != -1);
            }
        }
        assert(sopt_expr(e) == SExpr::Int(q as i32));
    }
}

/// The algebraic identities hold of every expression: adding or
/// subtracting 0 and multiplying or dividing by 1 leaves it as it is
/// optimized, and multiplying it by 0 gives 0.
pub proof fn law_algebraic_identities(e: SExpr)
    ensures
        sopt_expr(bin_expr(e, BinOp::Add, SExpr::Int(0))) == sopt_expr(e),
        sopt_expr(bin_expr(SExpr::Int(0), BinOp::Add, e)) == sopt_expr(e),
        sopt_expr(bin_expr(e, BinOp::Sub, SExpr::Int(0))) == sopt_expr(e),
        sopt_expr(bin_expr(e, BinOp::Mul, SExpr::Int(1))) == sopt_expr(e),
        sopt_expr(bin_expr(SExpr::Int(1), BinOp::Mul, e)) == sopt_expr(e),
        sopt_expr(bin_expr(e, BinOp::Div, SExpr::Int(1))) == sopt_expr(e),
        sopt_expr(bin_expr(e, BinOp::Mul, SExpr::Int(0))) == SExpr::Int(0),
        sopt_expr(bin_expr(SExpr::Int(0), BinOp::Mul, e)) == SExpr::Int(0),
{
    let x = sopt_expr(e);
    assert(sopt_expr(SExpr::Int(0)) == SExpr::Int(0));
    assert(sopt_expr(SExpr::Int(1)) == SExpr::Int(1));
    if let SExpr::Int(n) = x {
        assert(div_trunc(n as int, 1) == n);
        assert(sopt_expr(bin_expr(e, BinOp::Add, SExpr::Int(0))) == fold_binary(BinOp::Add, n, 0));
        assert(sopt_expr(bin_expr(SExpr::Int(0), BinOp::Add, e)) == fold_binary(BinOp::Add, 0, n));
        assert(sopt_expr(bin_expr(e, BinOp::Sub, SExpr::Int(0))) == fold_binary(BinOp::Sub, n, 0));
        assert(sopt_expr(bin_expr(e, BinOp::Mul, SExpr::Int(1))) == fold_binary(BinOp::Mul, n, 1));
        assert(sopt_expr(bin_expr(SExpr::Int(1), BinOp::Mul, e)) == fold_binary(BinOp::Mul, 1, n));
        assert(sopt_expr(bin_expr(e, BinOp::Div, SExpr::Int(1))) == fold_binary(BinOp::Div, n, 1));
        assert(sopt_expr(bin_expr(e, BinOp::Mul, SExpr::Int(0))) == fold_binary(BinOp::Mul, n, 0));
        assert(sopt_expr(bin_expr(SExpr::Int(0), BinOp::Mul, e)) == fold_binary(BinOp::Mul, 0, n));
    } else {
        assert(sopt_expr(bin_expr(e, BinOp::Add, SExpr::Int(0))) == simplify(x, BinOp::Add, SExpr::Int(0)));
        assert(sopt_expr(bin_expr(SExpr::Int(0), BinOp::Add, e)) == simplify(SExpr::Int(0), BinOp::Add, x));
        assert(sopt_expr(bin_expr(e, BinOp::Sub, SExpr::Int(0))) == simplify(x, BinOp::Sub, SExpr::Int(0)));
        assert(sopt_expr(bin_expr(e, BinOp::Mul, SExpr::Int(1))) == simplify(x, BinOp::Mul, SExpr::Int(1)));
        assert(sopt_expr(bin_expr(SExpr::Int(1), BinOp::Mul, e)) == simplify(SExpr::Int(1), BinOp::Mul, x));
        assert(sopt_expr(bin_expr(e, BinOp::Div, SExpr::Int(1))) == simplify(x, BinOp::Div, SExpr::Int(1)));
        assert(sopt_expr(bin_expr(e, BinOp::Mul, SExpr::Int(0))) == simplify(x, BinOp::Mul, SExpr::Int(0)));
        assert(sopt_expr(bin_expr(SExpr::Int(0), BinOp::Mul, e)) == simplify(SExpr::Int(0), BinOp::Mul, x));
    }
}

/// The statement ends a function body: `return`, `break` or `continue`.
pub open spec fn ends_body(s: SStmt) -> bool {
    s is Return || s is Break || s is Continue
}

/// The optimized function body from `j` on, when the first statement that
/// ends it from `j` on is at `k` (or none does, with `k` the length): each
/// statement up to and including it optimized, nothing after it.
proof fn lemma_func_body_cut(body: Seq<SStmt>, j: int, k: int)
    requires
        0 <= j <= k <= body.len(),
        forall|x: int| j <= x < k ==> !ends_body(#[trigger] body[x]),
        k < body.len() ==> ends_body(body[k]),
    ensures
        sopt_func_body(body, j).len() == if k < body.len() { k + 1 - j } else { k - j },
        forall|x: int| 0 <= x < sopt_func_body(body, j).len() ==> #[trigger] sopt_func_body(body, j)[x] == sopt_stmt(body[j + x]),
    decreases body.len() - j,
{
    if j < body.len() && j < k {
        lemma_func_body_cut(body, j + 1, k);
        let rest = sopt_func_body(body, j + 1);
        assert(sopt_func_body(body, j) == seq![sopt_stmt(body[j])] + rest);
        assert forall|x: int| 0 <= x < sopt_func_body(body, j).len() implies #[trigger] sopt_func_body(body, j)[x] == sopt_stmt(body[j + x]) by {
            if x > 0 {
                assert(sopt_func_body(body, j)[x] == rest[x - 1]);
            }
        }
    }
}

/// Dead code is removed and nothing else: a loop whose condition optimizes
/// to 0 loses its body; a function body keeps its statements, optimized, up
/// to and including the first `return`, `break` or `continue`, and drops
/// what follows it; a branch whose condition optimizes to a constant with a
/// single statement on the chosen side becomes that statement, optimized.
pub proof fn law_dead_code_removal(condition: SExpr, body: Seq<SStmt>, k: int, other: Seq<SStmt>, name: Seq<char>, params: Seq<Seq<char>>)
    requires
        0 <= k <= body.len(),
        forall|x: int| 0 <= x < k ==> !ends_body(#[trigger] body[x]),
        k < body.len() ==> ends_body(body[k]),
    ensures
        sopt_expr(condition) == SExpr::Int(0) ==> sopt_stmt(while_stmt(condition, body)) == while_stmt(SExpr::Int(0), Seq::empty()),
        func_body_of(sopt_stmt(func_stmt(name, params, body))).len() == if k < body.len() { k + 1 } else { k },
        forall|x: int| 0 <= x < func_body_of(sopt_stmt(func_stmt(name, params, body))).len()
            ==> #[trigger] func_body_of(sopt_stmt(func_stmt(name, params, body)))[x] == sopt_stmt(body[x]),
        sopt_expr(condition) == SExpr::Int(0) && other.len() == 1 ==> sopt_stmt(if_stmt(condition, body, other)) == sopt_stmt(other[0]),
        (sopt_expr(condition) matches SExpr::Int(c) && c != 0) && body.len() == 1 ==> sopt_stmt(if_stmt(condition, body, other)) == sopt_stmt(body[0]),
{
    lemma_func_body_cut(body, 0, k);
}

/// The loop `while condition: body`.
pub open spec fn while_stmt(condition: SExpr, body: Seq<SStmt>) -> SStmt {
    SStmt::While { condition, body }
}

/// The branch `if condition: then_body else: else_body`.
pub open spec fn if_stmt(condition: SExpr, then_body: Seq<SStmt>, else_body: Seq<SStmt>) -> SStmt {
    SStmt::If { condition, then_body, else_body }
}

/// The function definition `name(params): body`.
pub open spec fn func_stmt(name: Seq<char>, params: Seq<Seq<char>>, body: Seq<SStmt>) -> SStmt {
    SStmt::Func { name, params, body }
}

/// The body of a function definition (empty for another statement).
pub open spec fn func_body_of(s: SStmt) -> Seq<SStmt> {
    match s {
        SStmt::Func { body, .. } => body,
        _ => Seq::empty(),
    }
}

/// Optimizing an already optimized expression changes nothing: expression
/// optimization is idempotent, and an optimized expression can always be
/// optimized again without overflow.
pub proof fn law_optimize_expr_idempotent(e: SExpr)
    requires
        opt_ok(e),
    ensures
        opt_ok(sopt_expr(e)),
        sopt_expr(sopt_expr(e)) == sopt_expr(e),
    decreases e,
{
    match e {
        SExpr::Binary { left, op, right } => {
            law_optimize_expr_idempotent(*left);
            law_optimize_expr_idempotent(*right);
            let l = sopt_expr(*left);
            let r = sopt_expr(*right);
            if l is Int && r is Int {
                let res = fold_binary(op, l->Int_0, r->Int_0);
                if res is Binary {
                    assert(sopt_expr(res) == res);
                }
            } else {
                let res = simplify(l, op, r);
                if res is Binary && res == (SExpr::Binary { left: Box::new(l), op, right: Box::new(r) }) {
                    assert(sopt_expr(res) == simplify(l, op, r));
                }
            }
        },
        SExpr::Call { name, args } => {
            assert forall|i: int| 0 <= i < args.len() implies opt_ok(sopt_expr(#[trigger] args[i]))
                && sopt_expr(sopt_expr(args[i])) == sopt_expr(args[i]) by {
                law_optimize_expr_idempotent(args[i]);
            }
            assert((sopt_expr(sopt_expr(e)))->Call_args =~= (sopt_expr(e))->Call_args);
        },
        SExpr::NativeCall { id, args } => {
            assert forall|i: int| 0 <= i < args.len() implies opt_ok(sopt_expr(#[trigger] args[i]))
                && sopt_expr(sopt_expr(args[i])) == sopt_expr(args[i]) by {
                law_optimize_expr_idempotent(args[i]);
            }
            assert((sopt_expr(sopt_expr(e)))->NativeCall_args =~= (sopt_expr(e))->NativeCall_args);
        },
        SExpr::ArrLit(items) => {
            assert forall|i: int| 0 <= i < items.len() implies opt_ok(sopt_expr(#[trigger] items[i]))
                && sopt_expr(sopt_expr(items[i])) == sopt_expr(items[i]) by {
                law_optimize_expr_idempotent(items[i]);
            }
            assert((sopt_expr(sopt_expr(e)))->ArrLit_0 =~= (sopt_expr(e))->ArrLit_0);
        },
        SExpr::ArrIndex { arr, index } => {
            law_optimize_expr_idempotent(*arr);
            law_optimize_expr_idempotent(*index);
        },
        _ => {},
    }
}

/// AST optimization pass: constant folding, dead code elimination.
pub struct AstOptimizer;

fn is_int(e: &Expr, v: i32) -> (r: bool)
    ensures
        r == (e@ == SExpr::Int(v)),
{
    match e {
        Expr::Int(n) => *n == v,
        _ => false,
    }
}

fn div_i32(l: i32, r: i32) -> (q: i32)
    requires
        r != 0,
        !(l == i32::MIN && r == -1),
    ensures
        q == div_trunc(l as int, r as int),
{
    let ua: u64 = if l < 0 { (-(l as i64)) as u64 } else { l as u64 };
    let ub: u64 = if r < 0 { (-(r as i64)) as u64 } else { r as u64 };
    let q: u64 = ua / ub;
    assert(q <= ua) by (nonlinear_arith)
        requires
            ub >= 1,
            q == ua / ub,
    ;
    assert(ub >= 2 ==> q <= ua / 2) by (nonlinear_arith)
        requires
            q == ua / ub,
    ;
    if (l >= 0) == (r > 0) {
        q as i32
    } else {
        (-(q as i64)) as i32
    }
}

/// Whether folding `l op r` stays within `i32`.
fn fold_fits(op: BinOp, l: i32, r: i32) -> (b: bool)
    ensures
        b == fold_ok(op, l, r),
{
    match op {
        BinOp::Add => {
            let v: i64 = l as i64 + r as i64;
            i32::MIN as i64 <= v && v <= i32::MAX as i64
        },
        BinOp::Sub => {
            let v: i64 = l as i64 - r as i64;
            i32::MIN as i64 <= v && v <= i32::MAX as i64
        },
        BinOp::Mul => {
            assert(-0x8000_0000 * 0x8000_0000 <= (l as int) * (r as int) <= 0x8000_0000 * 0x8000_0000) by (nonlinear_arith)
                requires
                    -0x8000_0000 <= l <= 0x7fff_ffff,
                    -0x8000_0000 <= r <= 0x7fff_ffff,
            ;
            let v: i64 = l as i64 * r as i64;
            i32::MIN as i64 <= v && v <= i32::MAX as i64
        },
        BinOp::Div => r == 0 || !(l == i32::MIN && r == -1),
        _ => true,
    }
}

impl AstOptimizer {
    pub fn new() -> Self {
        Self
    }

    /// Whether every constant fold in the expression stays within `i32`
    /// (what optimizing it needs).
    fn expr_fits(&self, expr: &Expr) -> (b: bool)
        ensures
            b == opt_ok(expr@),
        decreases expr,
    {
        match expr {
            Expr::Binary { left, op, right } => {
                if !self.expr_fits(left) || !self.expr_fits(right) {
                    return false;
                }
                let l = self.optimize_expr(left);
                let r = self.optimize_expr(right);
                match (&l, &r) {
                    (Expr::Int(a), Expr::Int(b)) => fold_fits(*op, *a, *b),
                    _ => true,
                }
            },
            Expr::Call { args, .. } => {
                proof {
                    assert(decreases_to!(*expr => (*expr)->Call_args));
                    assert(decreases_to!(*args => args@));
                    assert(exprs_model(args@) =~= (expr@)->Call_args);
                }
                self.exprs_fit(args)
            },
            Expr::NativeCall { args, .. } => {
                proof {
                    assert(decreases_to!(*expr => (*expr)->NativeCall_args));
                    assert(decreases_to!(*args => args@));
                    assert(exprs_model(args@) =~= (expr@)->NativeCall_args);
                }
                self.exprs_fit(args)
            },
            Expr::ArrLit(items) => {
                proof {
                    assert(decreases_to!(*expr => (*expr)->ArrLit_0));
                    assert(decreases_to!(*items => items@));
                    assert(exprs_model(items@) =~= (expr@)->ArrLit_0);
                }
                self.exprs_fit(items)
            },
            Expr::ArrIndex { arr, index } => self.expr_fits(arr) && self.expr_fits(index),
            Expr::Unary { .. } | Expr::Int(_) | Expr::Var(_) | Expr::Str(_) => true,
        }
    }

    fn exprs_fit(&self, es: &Vec<Expr>) -> (b: bool)
        ensures
            b == forall|i: int| 0 <= i < es@.len() ==> opt_ok(#[trigger] exprs_model(es@)[i]),
        decreases es@,
    {
        let mut i: usize = 0;
        while i < es.len()
            invariant
                i <= es.len(),
                forall|k: int| 0 <= k < i ==> opt_ok(#[trigger] exprs_model(es@)[k]),
            decreases es.len() - i,
        {
            proof {
                assert(decreases_to!(es@ => es@[i as int]));
            }
            if !self.expr_fits(&es[i]) {
                assert(!opt_ok(exprs_model(es@)[i as int]));
                return false;
            }
            i += 1;
        }
        true
    }

    /// Whether every constant fold in the statement stays within `i32`
    /// (what optimizing it needs).
    fn stmt_fits(&self, stmt: &Stmt) -> (b: bool)
        ensures
            b == stmt_opt_ok(stmt@),
        decreases stmt,
    {
        match stmt {
            Stmt::Print(e) => self.expr_fits(e),
            Stmt::Assign { value, .. } => self.expr_fits(value),
            Stmt::ArrAssign { index, value, .. } => self.expr_fits(index) && self.expr_fits(value),
            Stmt::While { condition, body } => {
                if !self.expr_fits(condition) {
                    return false;
                }
                let c = self.optimize_expr(condition);
                if is_int(&c, 0) {
                    return true;
                }
                proof {
                    assert(stmts_model(body@) =~= (stmt@)->While_body);
                    assert(decreases_to!(*stmt => (*stmt)->While_body));
                    assert(decreases_to!(*body => body@));
                }
                self.body_fits(body)
            },
            Stmt::If { condition, then_body, else_body } => {
                if !self.expr_fits(condition) {
                    return false;
                }
                proof {
                    assert(stmts_model(then_body@) =~= (stmt@)->If_then_body);
                    assert(stmts_model(else_body@) =~= (stmt@)->If_else_body);
                    assert(decreases_to!(*stmt => (*stmt)->If_then_body));
                    assert(decreases_to!(*stmt => (*stmt)->If_else_body));
                    assert(decreases_to!(*then_body => then_body@));
                    assert(decreases_to!(*else_body => else_body@));
                }
                let c = self.optimize_expr(condition);
                if is_int(&c, 0) {
                    if else_body.len() == 1 {
                        proof {
                            assert(decreases_to!(else_body@ => else_body@[0]));
                            assert(stmts_model(else_body@)[0] == else_body@[0]@);
                        }
                        self.stmt_fits(&else_body[0])
                    } else {
                        self.body_fits(else_body)
                    }
                } else if let Expr::Int(_) = &c {
                    if then_body.len() == 1 {
                        proof {
                            assert(decreases_to!(then_body@ => then_body@[0]));
                            assert(stmts_model(then_body@)[0] == then_body@[0]@);
                        }
                        self.stmt_fits(&then_body[0])
                    } else {
                        self.body_fits(then_body)
                    }
                } else {
                    self.body_fits(then_body) && self.body_fits(else_body)
                }
            },
            Stmt::Func { body, .. } => {
                proof {
                    assert(stmts_model(body@) =~= (stmt@)->Func_body);
                    assert(decreases_to!(*stmt => (*stmt)->Func_body));
                    assert(decreases_to!(*body => body@));
                }
                self.func_body_fits(body)
            },
            Stmt::Return(e) => self.expr_fits(e),
            Stmt::Native { args, .. } => {
                assert(exprs_model(args@) =~= (stmt@)->Native_args);
                self.exprs_fit(args)
            },
            Stmt::Break | Stmt::Continue => true,
        }
    }

    fn body_fits(&self, body: &Vec<Stmt>) -> (b: bool)
        ensures
            b == body_opt_ok(stmts_model(body@), 0),
        decreases body@,
    {
        let ghost ms = stmts_model(body@);
        let mut i: usize = 0;
        while i < body.len()
            invariant
                i <= body.len(),
                ms == stmts_model(body@),
                body_opt_ok(ms, 0) == body_opt_ok(ms, i as int),
            decreases body.len() - i,
        {
            proof {
                assert(decreases_to!(body@ => body@[i as int]));
                assert(ms[i as int] == body@[i as int]@);
            }
            if !self.stmt_fits(&body[i]) {
                return false;
            }
            i += 1;
        }
        true
    }

    fn func_body_fits(&self, body: &Vec<Stmt>) -> (b: bool)
        ensures
            b == func_body_opt_ok(stmts_model(body@), 0),
        decreases body@,
    {
        let ghost ms = stmts_model(body@);
        let mut i: usize = 0;
        while i < body.len()
            invariant
                i <= body.len(),
                ms == stmts_model(body@),
                func_body_opt_ok(ms, 0) == func_body_opt_ok(ms, i as int),
            decreases body.len() - i,
        {
            proof {
                assert(decreases_to!(body@ => body@[i as int]));
                assert(ms[i as int] == body@[i as int]@);
            }
            if !self.stmt_fits(&body[i]) {
                return false;
            }
            let exit = match &body[i] {
                Stmt::Return(_) | Stmt::Break | Stmt::Continue => true,
                _ => false,
            };
            if exit {
                return true;
            }
            i += 1;
        }
        true
    }

    /// Whether `optimize_program` can optimize the program: every constant
    /// fold it performs stays within `i32`.
    pub fn can_optimize(&self, program: &[Stmt]) -> (b: bool)
        ensures
            b == forall|i: int| 0 <= i < program@.len() ==> stmt_opt_ok(#[trigger] program@[i]@),
    {
        let mut i: usize = 0;
        while i < program.len()
            invariant
                i <= program@.len(),
                forall|k: int| 0 <= k < i ==> stmt_opt_ok(#[trigger] program@[k]@),
            decreases program@.len() - i,
        {
            if !self.stmt_fits(&program[i]) {
                return false;
            }
            i += 1;
        }
        true
    }

    /// Optimize a program (list of statements).
    pub fn optimize_program(&self, program: &[Stmt]) -> (r: Vec<Stmt>)
        requires
            forall|i: int| 0 <= i < program@.len() ==> stmt_opt_ok(#[trigger] program@[i]@),
        ensures
            r.len() == program@.len(),
            forall|i: int| 0 <= i < program@.len() ==> (#[trigger] r@[i])@ == sopt_stmt(program@[i]@),
    {
        let mut result: Vec<Stmt> = Vec::new();
        let mut i: usize = 0;
        while i < program.len()
            invariant
                i <= program@.len(),
                result.len() == i,
                forall|j: int| 0 <= j < program@.len() ==> stmt_opt_ok(#[trigger] program@[j]@),
                forall|j: int| 0 <= j < i ==> (#[trigger] result@[j])@ == sopt_stmt(program@[j]@),
            decreases program@.len() - i,
        {
            result.push(self.optimize_stmt(&program[i]));
            i += 1;
        }
        result
    }

    /// Optimize a single statement.
    fn optimize_stmt(&self, stmt: &Stmt) -> (r: Stmt)
        requires
            stmt_opt_ok(stmt@),
        ensures
            r@ == sopt_stmt(stmt@),
        decreases stmt, 1nat,
    {
        match stmt {
            Stmt::Print(expr) => Stmt::Print(self.optimize_expr(expr)),
            Stmt::Assign { name, value } => Stmt::Assign {
                name: name.clone(),
                value: self.optimize_expr(value),
            },
            Stmt::ArrAssign { name, index, value } => Stmt::ArrAssign {
                name: name.clone(),
                index: Box::new(self.optimize_expr(index)),
                value: self.optimize_expr(value),
            },
            Stmt::While { condition, body } => {
                let opt_condition = self.optimize_expr(condition);
                // Dead code elimination: while false { ... } is emptied
                if is_int(&opt_condition, 0) {
                    let r = Stmt::While { condition: opt_condition, body: Vec::new() };
                    assert(r@ == sopt_stmt(stmt@)) by {
                        assert((r@)->While_body =~= Seq::<SStmt>::empty());
                    }
                    return r;
                }
                proof {
                    assert(stmts_model(body@) =~= (stmt@)->While_body);
                    assert(decreases_to!(*stmt => (*stmt)->While_body));
                }
                let b = self.optimize_body(body);
                let r = Stmt::While { condition: opt_condition, body: b };
                assert((r@)->While_body =~= stmts_model(b@));
                r
            },
            Stmt::If { condition, then_body, else_body } => {
                let opt_condition = self.optimize_expr(condition);
                proof {
                    assert(stmts_model(then_body@) =~= (stmt@)->If_then_body);
                    assert(stmts_model(else_body@) =~= (stmt@)->If_else_body);
                    assert(decreases_to!(*stmt => (*stmt)->If_then_body));
                    assert(decreases_to!(*stmt => (*stmt)->If_else_body));
                    assert(decreases_to!(*then_body => then_body@));
                    assert(decreases_to!(*else_body => else_body@));
                }
                // Constant condition optimization
                if is_int(&opt_condition, 0) {
                    // Condition is false: only keep else branch
                    if else_body.len() == 0 {
                        let r = Stmt::If {
                            condition: Expr::Int(0),
                            then_body: Vec::new(),
                            else_body: Vec::new(),
                        };
                        assert((r@)->If_then_body =~= Seq::<SStmt>::empty());
                        assert((r@)->If_else_body =~= Seq::<SStmt>::empty());
                        return r;
                    }
                    // Flatten else body
                    if else_body.len() == 1 {
                        assert((stmt@)->If_else_body[0] == else_body@[0]@);
                        return self.optimize_stmt(&else_body[0]);
                    }
                    let b = self.optimize_body(else_body);
                    let r = Stmt::If { condition: Expr::Int(0), then_body: Vec::new(), else_body: b };
                    assert((r@)->If_then_body =~= Seq::<SStmt>::empty());
                    assert((r@)->If_else_body =~= stmts_model(b@));
                    return r;
                }
                if let Expr::Int(_) = &opt_condition {
                    // Condition is true: only keep then branch
                    if then_body.len() == 1 {
                        assert((stmt@)->If_then_body[0] == then_body@[0]@);
                        return self.optimize_stmt(&then_body[0]);
                    }
                    let b = self.optimize_body(then_body);
                    let r = Stmt::If { condition: opt_condition, then_body: b, else_body: Vec::new() };
                    assert((r@)->If_then_body =~= stmts_model(b@));
                    assert((r@)->If_else_body =~= Seq::<SStmt>::empty());
                    return r;
                }
                let tb = self.optimize_body(then_body);
                let eb = self.optimize_body(else_body);
                let r = Stmt::If { condition: opt_condition, then_body: tb, else_body: eb };
                assert((r@)->If_then_body =~= stmts_model(tb@));
                assert((r@)->If_else_body =~= stmts_model(eb@));
                r
            },
            Stmt::Func { name, params, body } => {
                proof {
                    assert(stmts_model(body@) =~= (stmt@)->Func_body);
                    assert(decreases_to!(*stmt => (*stmt)->Func_body));
                    assert(decreases_to!(*body => body@));
                }
                let b = self.optimize_body_with_dead_code_after_return(body);
                let r = Stmt::Func { name: name.clone(), params: crate::ast::copy_strings(params), body: b };
                assert((r@)->Func_body =~= stmts_model(b@));
                r
            },
            Stmt::Return(expr) => Stmt::Return(self.optimize_expr(expr)),
            Stmt::Native { id, args } => {
                proof {
                    assert(exprs_model(args@) =~= (stmt@)->Native_args);
                    assert forall|i: int| 0 <= i < args.len() implies opt_ok(#[trigger] args@[i]@) by {
                        assert((stmt@)->Native_args[i] == args@[i]@);
                    }
                }
                let a = self.optimize_exprs(args);
                let r = Stmt::Native { id: *id, args: a };
                assert((r@)->Native_args =~= Seq::new(args.len() as nat, |i: int| sopt_expr((stmt@)->Native_args[i])));
                r
            },
            Stmt::Break => Stmt::Break,
            Stmt::Continue => Stmt::Continue,
        }
    }

    /// Optimize function body and remove dead code after return.
    fn optimize_body_with_dead_code_after_return(&self, body: &Vec<Stmt>) -> (r: Vec<Stmt>)
        requires
            func_body_opt_ok(stmts_model(body@), 0),
        ensures
            stmts_model(r@) == sopt_func_body(stmts_model(body@), 0),
        decreases body@, 0nat,
    {
        let ghost m = stmts_model(body@);
        let mut result: Vec<Stmt> = Vec::new();
        let mut i: usize = 0;
        assert(stmts_model(result@) + sopt_func_body(m, 0) =~= sopt_func_body(m, 0));
        while i < body.len()
            invariant_except_break
                i <= body.len(),
                m == stmts_model(body@),
                func_body_opt_ok(m, i as int),
                stmts_model(result@) + sopt_func_body(m, i as int) == sopt_func_body(m, 0),
            ensures
                stmts_model(result@) == sopt_func_body(m, 0),
            decreases body.len() - i,
        {
            proof {
                assert(decreases_to!(body@ => body@[i as int]));
                assert(m[i as int] == body@[i as int]@);
            }
            let optimized = self.optimize_stmt(&body[i]);
            let ghost before = stmts_model(result@);
            result.push(optimized);
            assert(stmts_model(result@) =~= before.push(sopt_stmt(m[i as int])));
            // Dead code elimination: stop after return
            match &body[i] {
                Stmt::Return(_) | Stmt::Break | Stmt::Continue => {
                    assert(stmts_model(result@) =~= sopt_func_body(m, 0));
                    break;
                },
                _ => {},
            }
            assert(stmts_model(result@) + sopt_func_body(m, i + 1) =~= sopt_func_body(m, 0));
            i += 1;
        }
        result
    }

    /// Optimize a body of statements.
    fn optimize_body(&self, body: &Vec<Stmt>) -> (r: Vec<Stmt>)
        requires
            body_opt_ok(stmts_model(body@), 0),
        ensures
            stmts_model(r@) == sopt_body(stmts_model(body@), 0),
        decreases body@, 0nat,
    {
        let ghost m = stmts_model(body@);
        let mut result: Vec<Stmt> = Vec::new();
        let mut i: usize = 0;
        assert(stmts_model(result@) + sopt_body(m, 0) =~= sopt_body(m, 0));
        while i < body.len()
            invariant
                i <= body.len(),
                m == stmts_model(body@),
                body_opt_ok(m, i as int),
                stmts_model(result@) + sopt_body(m, i as int) == sopt_body(m, 0),
            decreases body.len() - i,
        {
            proof {
                assert(decreases_to!(body@ => body@[i as int]));
                assert(m[i as int] == body@[i as int]@);
            }
            let optimized = self.optimize_stmt(&body[i]);
            let ghost before = stmts_model(result@);
            result.push(optimized);
            assert(stmts_model(result@) =~= before.push(sopt_stmt(m[i as int])));
            assert(stmts_model(result@) + sopt_body(m, i + 1) =~= sopt_body(m, 0));
            i += 1;
        }
        assert(stmts_model(result@) =~= stmts_model(result@) + sopt_body(m, i as int));
        result
    }

    fn optimize_exprs(&self, es: &Vec<Expr>) -> (r: Vec<Expr>)
        requires
            forall|i: int| 0 <= i < es.len() ==> opt_ok(#[trigger] es@[i]@),
        ensures
            r.len() == es.len(),
            forall|i: int| 0 <= i < es.len() ==> (#[trigger] r@[i])@ == sopt_expr(es@[i]@),
        decreases es@,
    {
        let mut result: Vec<Expr> = Vec::new();
        let mut i: usize = 0;
        while i < es.len()
            invariant
                i <= es.len(),
                result.len() == i,
                forall|j: int| 0 <= j < es.len() ==> opt_ok(#[trigger] es@[j]@),
                forall|j: int| 0 <= j < i ==> (#[trigger] result@[j])@ == sopt_expr(es@[j]@),
            decreases es.len() - i,
        {
            proof {
                assert(decreases_to!(es@ => es@[i as int]));
            }
            result.push(self.optimize_expr(&es[i]));
            i += 1;
        }
        result
    }

    /// Optimize an expression: perform constant folding.
    fn optimize_expr(&self, expr: &Expr) -> (r: Expr)
        requires
            opt_ok(expr@),
        ensures
            r@ == sopt_expr(expr@),
        decreases expr,
    {
        match expr {
            Expr::Binary { left, op, right } => {
                let opt_left = self.optimize_expr(left);
                let opt_right = self.optimize_expr(right);
                // Constant folding
                if let Expr::Int(l) = &opt_left {
                    if let Expr::Int(r) = &opt_right {
                        let l = *l;
                        let r = *r;
                        return match op {
                            BinOp::Add => Expr::Int(l + r),
                            BinOp::Sub => Expr::Int(l - r),
                            BinOp::Mul => Expr::Int(l * r),
                            BinOp::Div => {
                                if r != 0 {
                                    Expr::Int(div_i32(l, r))
                                } else {
                                    // Division by zero: keep as is, will fail at runtime
                                    Expr::Binary { left: Box::new(opt_left), op: *op, right: Box::new(opt_right) }
                                }
                            },
                            BinOp::Lt => Expr::Int(if l < r { 1 } else { 0 }),
                            BinOp::Gt => Expr::Int(if l > r { 1 } else { 0 }),
                            BinOp::EqEq => Expr::Int(if l == r { 1 } else { 0 }),
                            BinOp::Le => Expr::Int(if l <= r { 1 } else { 0 }),
                            BinOp::Ge => Expr::Int(if l >= r { 1 } else { 0 }),
                            BinOp::And => Expr::Int(if l != 0 && r != 0 { 1 } else { 0 }),
                            BinOp::Or => Expr::Int(if l != 0 || r != 0 { 1 } else { 0 }),
                        };
                    }
                }
                // Algebraic simplifications
                let op = *op;
                if op == BinOp::Add && is_int(&opt_right, 0) {
                    opt_left  // x + 0 = x
                } else if op == BinOp::Add && is_int(&opt_left, 0) {
                    opt_right  // 0 + x = x
                } else if op == BinOp::Sub && is_int(&opt_right, 0) {
                    opt_left  // x - 0 = x
                } else if op == BinOp::Mul && is_int(&opt_right, 0) {
                    Expr::Int(0)  // x * 0 = 0
                } else if op == BinOp::Mul && is_int(&opt_left, 0) {
                    Expr::Int(0)  // 0 * x = 0
                } else if op == BinOp::Mul && is_int(&opt_right, 1) {
                    opt_left  // x * 1 = x
                } else if op == BinOp::Mul && is_int(&opt_left, 1) {
                    opt_right  // 1 * x = x
                } else if op == BinOp::Div && is_int(&opt_right, 1) {
                    opt_left  // x / 1 = x
                } else {
                    Expr::Binary { left: Box::new(opt_left), op, right: Box::new(opt_right) }
                }
            },
            Expr::Call { name, args } => {
                proof {
                    assert(decreases_to!(*expr => (*expr)->Call_args));
                    assert(decreases_to!(*args => args@));
                    assert forall|i: int| 0 <= i < args.len() implies opt_ok(#[trigger] args@[i]@) by {
                        assert((expr@)->Call_args[i] == args@[i]@);
                    }
                }
                let a = self.optimize_exprs(args);
                let r = Expr::Call { name: name.clone(), args: a };
                assert((r@)->Call_args =~= (sopt_expr(expr@))->Call_args);
                r
            },
            Expr::NativeCall { id, args } => {
                proof {
                    assert(decreases_to!(*expr => (*expr)->NativeCall_args));
                    assert(decreases_to!(*args => args@));
                    assert forall|i: int| 0 <= i < args.len() implies opt_ok(#[trigger] args@[i]@) by {
                        assert((expr@)->NativeCall_args[i] == args@[i]@);
                    }
                }
                let a = self.optimize_exprs(args);
                let r = Expr::NativeCall { id: *id, args: a };
                assert((r@)->NativeCall_args =~= (sopt_expr(expr@))->NativeCall_args);
                r
            },
            Expr::ArrLit(elements) => {
                proof {
                    assert(decreases_to!(*expr => (*expr)->ArrLit_0));
                    assert(decreases_to!(*elements => elements@));
                    assert forall|i: int| 0 <= i < elements.len() implies opt_ok(#[trigger] elements@[i]@) by {
                        assert((expr@)->ArrLit_0[i] == elements@[i]@);
                    }
                }
                let a = self.optimize_exprs(elements);
                let r = Expr::ArrLit(a);
                assert((r@)->ArrLit_0 =~= (sopt_expr(expr@))->ArrLit_0);
                r
            },
            Expr::ArrIndex { arr, index } => Expr::ArrIndex {
                arr: Box::new(self.optimize_expr(arr)),
                index: Box::new(self.optimize_expr(index)),
            },
            // Literals, variables and unary operations are kept as they are
            _ => expr.copy(),
        }
    }
}

} // verus!
