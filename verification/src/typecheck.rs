use vstd::prelude::*;
use crate::ast::{BinOp, UnaryOp, Expr, SExpr, Stmt, SStmt, exprs_model, stmts_model, names_model};
use crate::namemap::NameMap;
use crate::text::{push_str, push_decimal, spec_decimal};

verus! {

/// The types of the source language.
#[derive(Debug, Clone, Copy, PartialEq, Eq, Structural)]
pub enum Type {
    Int,
    Array,
    Str,
    Unknown,
}

/// The type an expression has under the given variable types: literals have
/// their own type, a variable has its recorded type (or `Unknown`), `+` with a
/// string operand is a string, every other operator, unary operation and call
/// yields `Int`, an array literal is an `Array`, and indexing an `Array`
/// yields an `Array` (any other indexed value yields `Int`).
pub open spec fn spec_infer_type(e: SExpr, globals: Map<Seq<char>, Type>) -> Type
    decreases e,
{
    match e {
        SExpr::Int(_) => Type::Int,
        SExpr::Str(_) => Type::Str,
        SExpr::Var(name) => if globals.contains_key(name) {
            globals[name]
        } else {
            Type::Unknown
        },
        SExpr::Binary { left, op, right } => {
            let l = spec_infer_type(*left, globals);
            let r = spec_infer_type(*right, globals);
            match op {
                BinOp::Add => if l == Type::Str || r == Type::Str {
                    Type::Str
                } else {
                    Type::Int
                },
                _ => Type::Int,
            }
        },
        SExpr::Unary { .. } => Type::Int,
        SExpr::Call { .. } => Type::Int,
        SExpr::NativeCall { .. } => Type::Int,
        SExpr::ArrLit(_) => Type::Array,
        SExpr::ArrIndex { arr, index } => if spec_infer_type(*arr, globals) == Type::Array {
            Type::Array
        } else {
            Type::Int
        },
    }
}

/// Type inference used by the code generator and the IR builder.
pub fn infer_expression_type(expr: &Expr, globals: &NameMap<Type>) -> (t: Type)
    ensures
        t == spec_infer_type(expr@, globals@),
    decreases expr,
{
    match expr {
        Expr::Int(_) => Type::Int,
        Expr::Str(_) => Type::Str,
        Expr::Var(name) => match globals.get(name) {
            Some(t) => *t,
            None => Type::Unknown,
        },
        Expr::Binary { left, op, right } => {
            let l = infer_expression_type(left, globals);
            let r = infer_expression_type(right, globals);
            match op {
                BinOp::Add => if l == Type::Str || r == Type::Str {
                    Type::Str
                } else {
                    Type::Int
                },
                _ => Type::Int,
            }
        },
        Expr::Unary { .. } => Type::Int,
        Expr::Call { .. } => Type::Int,
        Expr::NativeCall { .. } => Type::Int,
        Expr::ArrLit(_) => Type::Array,
        Expr::ArrIndex { arr, index } => {
            let arr_type = infer_expression_type(arr, globals);
            if arr_type == Type::Array {
                Type::Array
            } else {
                Type::Int
            }
        },
    }
}


/// The name of a type, as the error messages show it.
pub open spec fn type_label(t: Type) -> Seq<char> {
    match t {
        Type::Int => "Int"@,
        Type::Array => "Array"@,
        Type::Str => "Str"@,
        Type::Unknown => "Unknown"@,
    }
}

/// The name of an operator, as the error messages show it.
pub open spec fn op_label(op: BinOp) -> Seq<char> {
    match op {
        BinOp::Add => "Add"@,
        BinOp::Sub => "Sub"@,
        BinOp::Mul => "Mul"@,
        BinOp::Div => "Div"@,
        BinOp::Lt => "Lt"@,
        BinOp::Gt => "Gt"@,
        BinOp::EqEq => "EqEq"@,
        BinOp::Le => "Le"@,
        BinOp::Ge => "Ge"@,
        BinOp::And => "And"@,
        BinOp::Or => "Or"@,
    }
}

/// The error messages of the type checker.
pub open spec fn msg_retyped(name: Seq<char>, used: Type, was: Type) -> Seq<char> {
    "variable '"@ + name + "' used as "@ + type_label(used) + " but previously was "@ + type_label(was)
}

pub open spec fn msg_index_not_int(t: Type) -> Seq<char> {
    "Array index must be Int, got "@ + type_label(t)
}

pub open spec fn msg_element_not_int(t: Type) -> Seq<char> {
    "Array element value must be Int, got "@ + type_label(t)
}

pub open spec fn msg_var_not_indexable(t: Type, name: Seq<char>) -> Seq<char> {
    "Cannot index into "@ + type_label(t) + " variable '"@ + name + "'"@
}

pub open spec fn msg_while_condition(t: Type) -> Seq<char> {
    "While condition must be Int, got "@ + type_label(t)
}

pub open spec fn msg_if_condition(t: Type) -> Seq<char> {
    "If condition must be Int, got "@ + type_label(t)
}

pub open spec fn msg_return_mismatch(expected: Type, got: Type) -> Seq<char> {
    "Return type mismatch: expected "@ + type_label(expected) + ", got "@ + type_label(got)
}

pub open spec fn msg_cannot_add(l: Type, r: Type) -> Seq<char> {
    "Cannot add "@ + type_label(l) + " and "@ + type_label(r)
}

pub open spec fn msg_string_operator(op: BinOp) -> Seq<char> {
    op_label(op) + " not supported on strings"@
}

pub open spec fn msg_same_types(ctx: Seq<char>, l: Type, r: Type) -> Seq<char> {
    ctx + " requires same types, got "@ + type_label(l) + " and "@ + type_label(r)
}

pub open spec fn msg_logical_left(t: Type) -> Seq<char> {
    "Logical op requires Int, left is "@ + type_label(t)
}

pub open spec fn msg_logical_right(t: Type) -> Seq<char> {
    "Logical op requires Int, right is "@ + type_label(t)
}

pub open spec fn msg_not_requires_int(t: Type) -> Seq<char> {
    "'not' requires Int, got "@ + type_label(t)
}

pub open spec fn msg_neg_requires_int(t: Type) -> Seq<char> {
    "'-' requires Int, got "@ + type_label(t)
}

pub open spec fn msg_arg_count(name: Seq<char>, expected: nat, got: nat) -> Seq<char> {
    "Function '"@ + name + "' expects "@ + spec_decimal(expected) + " arguments, got "@ + spec_decimal(got)
}

pub open spec fn msg_arg_type(position: nat, name: Seq<char>, expected: Type, got: Type) -> Seq<char> {
    "Argument "@ + spec_decimal(position) + " to '"@ + name + "' expected "@ + type_label(expected) + ", got "@ + type_label(got)
}

pub open spec fn msg_cannot_index(t: Type) -> Seq<char> {
    "Cannot index into "@ + type_label(t)
}

/// An expression that yields an array of arrays, given the variables known
/// to hold one: an array literal with an array literal among its items, or
/// such a variable.
pub open spec fn spec_is_nested(e: SExpr, nested: Set<Seq<char>>) -> bool {
    match e {
        SExpr::ArrLit(items) => exists|i: int| 0 <= i < items.len() && (#[trigger] items[i]) is ArrLit,
        SExpr::Var(name) => nested.contains(name),
        _ => false,
    }
}

/// A set of names is closed under the top-level assignments of `stmts`: a
/// name assigned a nested array (given the set) is in the set.
pub open spec fn nested_closed(stmts: Seq<SStmt>, s: Set<Seq<char>>) -> bool {
    forall|i: int| 0 <= i < stmts.len() && (#[trigger] stmts[i]) is Assign && spec_is_nested(stmts[i]->Assign_value, s)
        ==> s.contains(stmts[i]->Assign_name)
}

/// The least closed set: the variables that hold nested arrays.
pub open spec fn is_least_nested(stmts: Seq<SStmt>, s: Set<Seq<char>>) -> bool {
    nested_closed(stmts, s) && forall|t: Set<Seq<char>>| #[trigger] nested_closed(stmts, t) ==> s.subset_of(t)
}

/// The variables of `stmts` that hold nested arrays.
pub open spec fn nested_vars(stmts: Seq<SStmt>) -> Set<Seq<char>> {
    choose|s: Set<Seq<char>>| is_least_nested(stmts, s)
}

/// The state of the type checker.
pub struct TState {
    pub globals: Map<Seq<char>, Type>,
    pub errors: Seq<Seq<char>>,
    pub sigs: Map<Seq<char>, Seq<Type>>,
    pub rets: Map<Seq<char>, Type>,
    pub cur_ret: Option<Type>,
    pub nested: Set<Seq<char>>,
}

/// Records an error.
pub open spec fn err(st: TState, m: Seq<char>) -> TState {
    TState { errors: st.errors.push(m), ..st }
}

/// The recorded type of a name, `Unknown` if none.
pub open spec fn lookup(g: Map<Seq<char>, Type>, n: Seq<char>) -> Type {
    if g.contains_key(n) {
        g[n]
    } else {
        Type::Unknown
    }
}

/// A variable of still unknown type takes the type inferred for the other
/// operand.
pub open spec fn propagate(st: TState, e: SExpr, t: Type) -> TState {
    if t != Type::Unknown && e is Var && st.globals.contains_key(e->Var_0) && st.globals[e->Var_0] == Type::Unknown {
        TState { globals: st.globals.insert(e->Var_0, t), ..st }
    } else {
        st
    }
}

/// Two known types must agree.
pub open spec fn require_same(st: TState, ctx: Seq<char>, l: Type, r: Type) -> TState {
    if l != Type::Unknown && r != Type::Unknown && l != r {
        err(st, msg_same_types(ctx, l, r))
    } else {
        st
    }
}

/// Checks the first `k` arguments of a call against the parameter types.
pub open spec fn arg_errors(st: TState, name: Seq<char>, ts: Seq<Type>, ps: Seq<Type>, k: nat) -> TState
    decreases k,
{
    if k == 0 {
        st
    } else {
        let s1 = arg_errors(st, name, ts, ps, (k - 1) as nat);
        let i = k - 1;
        if ps[i] != Type::Unknown && ts[i] != ps[i] && ts[i] != Type::Unknown {
            err(s1, msg_arg_type(k, name, ps[i], ts[i]))
        } else {
            s1
        }
    }
}

/// Type checking of an expression: the new state and the expression's type.
pub open spec fn tc_expr(st: TState, e: SExpr) -> (TState, Type)
    decreases e,
{
    match e {
        SExpr::Int(_) => (st, Type::Int),
        SExpr::Str(_) => (st, Type::Str),
        SExpr::Var(name) => (st, lookup(st.globals, name)),
        SExpr::Binary { left, op, right } => {
            let p1 = tc_expr(st, *left);
            let l = p1.1;
            let p2 = tc_expr(p1.0, *right);
            let r = p2.1;
            let s = propagate(propagate(p2.0, *left, r), *right, l);
            match op {
                BinOp::Add => if l == Type::Str || r == Type::Str {
                    (
                        if l != Type::Unknown && r != Type::Unknown && l != r {
                            err(s, msg_cannot_add(l, r))
                        } else {
                            s
                        },
                        Type::Str,
                    )
                } else {
                    (require_same(s, "Arithmetic"@, l, r), Type::Int)
                },
                BinOp::Sub | BinOp::Mul | BinOp::Div => if l == Type::Str || r == Type::Str {
                    (err(s, msg_string_operator(op)), Type::Int)
                } else {
                    (require_same(s, "Arithmetic"@, l, r), Type::Int)
                },
                BinOp::Lt | BinOp::Gt | BinOp::EqEq | BinOp::Le | BinOp::Ge => (
                    require_same(s, "Comparison"@, l, r),
                    Type::Int,
                ),
                BinOp::And | BinOp::Or => {
                    let s1 = if l != Type::Unknown && l != Type::Int {
                        err(s, msg_logical_left(l))
                    } else {
                        s
                    };
                    (
                        if r != Type::Unknown && r != Type::Int {
                            err(s1, msg_logical_right(r))
                        } else {
                            s1
                        },
                        Type::Int,
                    )
                },
            }
        },
        SExpr::Unary { op, operand } => {
            let p = tc_expr(st, *operand);
            let t = p.1;
            (
                if t != Type::Unknown && t != Type::Int {
                    err(
                        p.0,
                        match op {
                            UnaryOp::Not => msg_not_requires_int(t),
                            UnaryOp::Neg => msg_neg_requires_int(t),
                        },
                    )
                } else {
                    p.0
                },
                Type::Int,
            )
        },
        SExpr::Call { name, args } => {
            let p = tc_exprs(st, args);
            let s1 = p.0;
            let s2 = if s1.sigs.contains_key(name) {
                let ps = s1.sigs[name];
                if args.len() != ps.len() {
                    err(s1, msg_arg_count(name, ps.len(), args.len()))
                } else {
                    arg_errors(s1, name, p.1, ps, args.len())
                }
            } else {
                s1
            };
            (s2, if s2.rets.contains_key(name) { s2.rets[name] } else { Type::Int })
        },
        SExpr::NativeCall { args, .. } => (tc_exprs(st, args).0, Type::Array),
        SExpr::ArrLit(_) => (st, Type::Array),
        SExpr::ArrIndex { arr, index } => {
            let p1 = tc_expr(st, *arr);
            let at = p1.1;
            let s1 = if at != Type::Unknown && at != Type::Array && at != Type::Str {
                err(p1.0, msg_cannot_index(at))
            } else {
                p1.0
            };
            let p2 = tc_expr(s1, *index);
            let it = p2.1;
            let s2 = if it != Type::Unknown && it != Type::Int {
                err(p2.0, msg_index_not_int(it))
            } else {
                p2.0
            };
            (s2, if at == Type::Array && spec_is_nested(*arr, s2.nested) { Type::Array } else { Type::Int })
        },
    }
}

/// Type checking of expressions in order: the new state and their types.
pub open spec fn tc_exprs(st: TState, es: Seq<SExpr>) -> (TState, Seq<Type>)
    decreases es,
{
    if es.len() == 0 {
        (st, Seq::empty())
    } else {
        let p = tc_exprs(st, es.subrange(0, es.len() - 1));
        let q = tc_expr(p.0, es[es.len() - 1]);
        (q.0, p.1.push(q.1))
    }
}

/// Records the types of the parameters, all unknown, in order.
pub open spec fn declare_params(g: Map<Seq<char>, Type>, ps: Seq<Seq<char>>) -> Map<Seq<char>, Type>
    decreases ps.len(),
{
    if ps.len() == 0 {
        g
    } else {
        declare_params(g, ps.drop_last()).insert(ps.last(), Type::Unknown)
    }
}

/// Type checking of a statement.
pub open spec fn tc_stmt(st: TState, s: SStmt) -> TState
    decreases s,
{
    match s {
        SStmt::Assign { name, value } => {
            let p = tc_expr(st, value);
            let vt = p.1;
            let s1 = p.0;
            let s2 = if s1.globals.contains_key(name) && s1.globals[name] != Type::Unknown
                && vt != s1.globals[name] && vt != Type::Unknown {
                err(s1, msg_retyped(name, vt, s1.globals[name]))
            } else {
                s1
            };
            if vt != Type::Unknown {
                let s3 = if vt == Type::Array && spec_is_nested(value, s2.nested) {
                    TState { nested: s2.nested.insert(name), ..s2 }
                } else {
                    s2
                };
                TState { globals: s3.globals.insert(name, vt), ..s3 }
            } else {
                s2
            }
        },
        SStmt::ArrAssign { name, index, value } => {
            let p1 = tc_expr(st, index);
            let it = p1.1;
            let s1 = if it != Type::Int && it != Type::Unknown {
                err(p1.0, msg_index_not_int(it))
            } else {
                p1.0
            };
            let p2 = tc_expr(s1, value);
            let vt = p2.1;
            let s2 = if vt != Type::Int && vt != Type::Unknown {
                err(p2.0, msg_element_not_int(vt))
            } else {
                p2.0
            };
            if s2.globals.contains_key(name) {
                let t = s2.globals[name];
                if t != Type::Array && t != Type::Str && t != Type::Unknown {
                    err(s2, msg_var_not_indexable(t, name))
                } else {
                    s2
                }
            } else {
                s2
            }
        },
        SStmt::Print(e) => tc_expr(st, e).0,
        SStmt::While { condition, body } => {
            let p = tc_expr(st, condition);
            let s1 = if p.1 != Type::Int && p.1 != Type::Unknown {
                err(p.0, msg_while_condition(p.1))
            } else {
                p.0
            };
            tc_stmts(s1, body)
        },
        SStmt::If { condition, then_body, else_body } => {
            let p = tc_expr(st, condition);
            let s1 = if p.1 != Type::Int && p.1 != Type::Unknown {
                err(p.0, msg_if_condition(p.1))
            } else {
                p.0
            };
            tc_stmts(tc_stmts(s1, then_body), else_body)
        },
        SStmt::Func { name, params, body } => {
            let s1 = TState { globals: declare_params(st.globals, params), cur_ret: None, ..st };
            let s2 = tc_stmts(s1, body);
            let param_types = Seq::new(params.len(), |i: int| lookup(s2.globals, params[i]));
            let ret = match s2.cur_ret {
                Some(t) => t,
                None => Type::Int,
            };
            TState {
                sigs: s2.sigs.insert(name, param_types),
                rets: s2.rets.insert(name, ret),
                globals: st.globals,
                cur_ret: st.cur_ret,
                ..s2
            }
        },
        SStmt::Return(e) => {
            let p = tc_expr(st, e);
            let t = p.1;
            match p.0.cur_ret {
                Some(expected) => if expected != Type::Unknown && t != Type::Unknown && t != expected {
                    err(p.0, msg_return_mismatch(expected, t))
                } else {
                    p.0
                },
                None => TState { cur_ret: Some(t), ..p.0 },
            }
        },
        SStmt::Native { args, .. } => tc_exprs(st, args).0,
        SStmt::Break => st,
        SStmt::Continue => st,
    }
}

/// Type checking of statements in order.
pub open spec fn tc_stmts(st: TState, ss: Seq<SStmt>) -> TState
    decreases ss,
{
    if ss.len() == 0 {
        st
    } else {
        tc_stmt(tc_stmts(st, ss.subrange(0, ss.len() - 1)), ss[ss.len() - 1])
    }
}

/// Appends the name of a type.
fn push_type(s: &mut String, t: Type)
    ensures
        final(s)@ == old(s)@ + type_label(t),
{
    match t {
        Type::Int => push_str(s, "Int"),
        Type::Array => push_str(s, "Array"),
        Type::Str => push_str(s, "Str"),
        Type::Unknown => push_str(s, "Unknown"),
    }
}

/// Appends the name of an operator.
fn push_op(s: &mut String, op: BinOp)
    ensures
        final(s)@ == old(s)@ + op_label(op),
{
    match op {
        BinOp::Add => push_str(s, "Add"),
        BinOp::Sub => push_str(s, "Sub"),
        BinOp::Mul => push_str(s, "Mul"),
        BinOp::Div => push_str(s, "Div"),
        BinOp::Lt => push_str(s, "Lt"),
        BinOp::Gt => push_str(s, "Gt"),
        BinOp::EqEq => push_str(s, "EqEq"),
        BinOp::Le => push_str(s, "Le"),
        BinOp::Ge => push_str(s, "Ge"),
        BinOp::And => push_str(s, "And"),
        BinOp::Or => push_str(s, "Or"),
    }
}

/// A message made of a text and a type.
fn text_type(a: &str, t: Type) -> (r: String)
    ensures
        r@ == a@ + type_label(t),
{
    let mut s = String::new();
    push_str(&mut s, a);
    push_type(&mut s, t);
    assert(s@ =~= a@ + type_label(t));
    s
}

/// A message made of a text, a type, a text and a type.
fn text_type_text_type(a: &str, t: Type, b: &str, u: Type) -> (r: String)
    ensures
        r@ == a@ + type_label(t) + b@ + type_label(u),
{
    let mut s = String::new();
    push_str(&mut s, a);
    push_type(&mut s, t);
    push_str(&mut s, b);
    push_type(&mut s, u);
    assert(s@ =~= a@ + type_label(t) + b@ + type_label(u));
    s
}

fn message_retyped(name: &String, used: Type, was: Type) -> (r: String)
    ensures
        r@ == msg_retyped(name@, used, was),
{
    let mut s = String::new();
    push_str(&mut s, "variable '");
    push_str(&mut s, name.as_str());
    push_str(&mut s, "' used as ");
    push_type(&mut s, used);
    push_str(&mut s, " but previously was ");
    push_type(&mut s, was);
    assert(s@ =~= msg_retyped(name@, used, was));
    s
}

fn message_var_not_indexable(t: Type, name: &String) -> (r: String)
    ensures
        r@ == msg_var_not_indexable(t, name@),
{
    let mut s = String::new();
    push_str(&mut s, "Cannot index into ");
    push_type(&mut s, t);
    push_str(&mut s, " variable '");
    push_str(&mut s, name.as_str());
    push_str(&mut s, "'");
    assert(s@ =~= msg_var_not_indexable(t, name@));
    s
}

fn message_string_operator(op: BinOp) -> (r: String)
    ensures
        r@ == msg_string_operator(op),
{
    let mut s = String::new();
    push_op(&mut s, op);
    push_str(&mut s, " not supported on strings");
    assert(s@ =~= msg_string_operator(op));
    s
}

fn message_same_types(ctx: &str, l: Type, r: Type) -> (m: String)
    ensures
        m@ == msg_same_types(ctx@, l, r),
{
    let mut s = String::new();
    push_str(&mut s, ctx);
    push_str(&mut s, " requires same types, got ");
    push_type(&mut s, l);
    push_str(&mut s, " and ");
    push_type(&mut s, r);
    assert(s@ =~= msg_same_types(ctx@, l, r));
    s
}

fn message_arg_count(name: &String, expected: usize, got: usize) -> (r: String)
    ensures
        r@ == msg_arg_count(name@, expected as nat, got as nat),
{
    let mut s = String::new();
    push_str(&mut s, "Function '");
    push_str(&mut s, name.as_str());
    push_str(&mut s, "' expects ");
    push_decimal(&mut s, expected);
    push_str(&mut s, " arguments, got ");
    push_decimal(&mut s, got);
    assert(s@ =~= msg_arg_count(name@, expected as nat, got as nat));
    s
}

fn message_arg_type(position: usize, name: &String, expected: Type, got: Type) -> (r: String)
    ensures
        r@ == msg_arg_type(position as nat, name@, expected, got),
{
    let mut s = String::new();
    push_str(&mut s, "Argument ");
    push_decimal(&mut s, position);
    push_str(&mut s, " to '");
    push_str(&mut s, name.as_str());
    push_str(&mut s, "' expected ");
    push_type(&mut s, expected);
    push_str(&mut s, ", got ");
    push_type(&mut s, got);
    assert(s@ =~= msg_arg_type(position as nat, name@, expected, got));
    s
}

/// Whether an expression yields an array of arrays, given the variables
/// known to hold one.
fn is_nested_array_expr(expr: &Expr, nested_vars: &NameMap<bool>) -> (r: bool)
    ensures
        r == spec_is_nested(expr@, nested_vars@.dom()),
{
    match expr {
        Expr::ArrLit(items) => {
            assert((expr@)->ArrLit_0 =~= exprs_model(items@));
            let mut i: usize = 0;
            while i < items.len()
                invariant
                    i <= items.len(),
                    expr@ == SExpr::ArrLit(exprs_model(items@)),
                    forall|j: int| 0 <= j < i ==> !(#[trigger] exprs_model(items@)[j] is ArrLit),
                decreases items.len() - i,
            {
                if let Expr::ArrLit(_) = &items[i] {
                    assert(exprs_model(items@)[i as int] is ArrLit);
                    return true;
                }
                i += 1;
            }
            false
        },
        Expr::Var(name) => nested_vars.contains_key(name),
        _ => false,
    }
}

/// Whether the set holds a name, as a set of names.
proof fn lemma_nested_monotone(e: SExpr, a: Set<Seq<char>>, b: Set<Seq<char>>)
    requires
        spec_is_nested(e, a),
        a.subset_of(b),
    ensures
        spec_is_nested(e, b),
{
}

/// The number of top-level assignments whose name is not yet in the set.
spec fn unmarked(stmts: Seq<SStmt>, s: Set<Seq<char>>) -> nat
    decreases stmts.len(),
{
    if stmts.len() == 0 {
        0
    } else {
        unmarked(stmts.drop_last(), s) + if stmts.last() is Assign && !s.contains(stmts.last()->Assign_name) {
            1nat
        } else {
            0nat
        }
    }
}

/// Marking more names never marks fewer assignments; marking the name of an
/// unmarked assignment marks strictly more.
proof fn lemma_unmarked(stmts: Seq<SStmt>, a: Set<Seq<char>>, b: Set<Seq<char>>, i: int)
    requires
        a.subset_of(b),
    ensures
        unmarked(stmts, b) <= unmarked(stmts, a),
        0 <= i < stmts.len() && stmts[i] is Assign && !a.contains(stmts[i]->Assign_name)
            && b.contains(stmts[i]->Assign_name) ==> unmarked(stmts, b) < unmarked(stmts, a),
    decreases stmts.len(),
{
    if stmts.len() > 0 {
        lemma_unmarked(stmts.drop_last(), a, b, i);
        if 0 <= i < stmts.len() - 1 {
            assert(stmts.drop_last()[i] == stmts[i]);
        }
    }
}

/// The variables of `stmts` that hold nested arrays (arrays of arrays):
/// repeated passes over the top-level assignments until nothing changes.
fn collect_nested_array_vars(stmts: &[Stmt]) -> (r: NameMap<bool>)
    ensures
        is_least_nested(stmts_model(stmts@), r@.dom()),
        r@.dom() == nested_vars(stmts_model(stmts@)),
{
    let ghost ms = stmts_model(stmts@);
    let mut nested: NameMap<bool> = NameMap::new();
    loop
        invariant
            ms == stmts_model(stmts@),
            forall|t: Set<Seq<char>>| #[trigger] nested_closed(ms, t) ==> nested@.dom().subset_of(t),
        ensures
            forall|t: Set<Seq<char>>| #[trigger] nested_closed(ms, t) ==> nested@.dom().subset_of(t),
            nested_closed(ms, nested@.dom()),
        decreases unmarked(ms, nested@.dom()),
    {
        let ghost start = nested@.dom();
        let mut changed = false;
        let mut i: usize = 0;
        while i < stmts.len()
            invariant
                i <= stmts@.len(),
                ms == stmts_model(stmts@),
                forall|t: Set<Seq<char>>| #[trigger] nested_closed(ms, t) ==> nested@.dom().subset_of(t),
                start.subset_of(nested@.dom()),
                !changed ==> nested@.dom() == start,
                !changed ==> forall|j: int| 0 <= j < i && (#[trigger] ms[j]) is Assign && spec_is_nested(ms[j]->Assign_value, start)
                    ==> start.contains(ms[j]->Assign_name),
                changed ==> unmarked(ms, nested@.dom()) < unmarked(ms, start),
            decreases stmts@.len() - i,
        {
            assert(ms[i as int] == stmts@[i as int]@);
            if let Stmt::Assign { name, value } = &stmts[i] {
                if is_nested_array_expr(value, &nested) {
                    if !nested.contains_key(name) {
                        let ghost before = nested@.dom();
                        nested.insert(name.clone(), true);
                        proof {
                            assert(nested@.dom() =~= before.insert(name@));
                            assert forall|t: Set<Seq<char>>| #[trigger] nested_closed(ms, t) implies nested@.dom().subset_of(t) by {
                                lemma_nested_monotone(value@, before, t);
                                assert(ms[i as int] is Assign);
                            }
                            lemma_unmarked(ms, start, nested@.dom(), i as int);
                            lemma_unmarked(ms, before, nested@.dom(), i as int);
                        }
                        changed = true;
                    }
                }
            }
            i += 1;
        }
        if !changed {
            break;
        }
    }
    proof {
        let d = nested@.dom();
        assert(nested_closed(ms, d));
        assert(is_least_nested(ms, d));
        let c = choose|s: Set<Seq<char>>| is_least_nested(ms, s);
        assert(c.subset_of(d) && d.subset_of(c));
        assert(c =~= d);
    }
    nested
}

/// A copy of a list of types.
fn copy_types(v: &Vec<Type>) -> (r: Vec<Type>)
    ensures
        r@ == v@,
{
    let mut r: Vec<Type> = Vec::new();
    let mut i: usize = 0;
    while i < v.len()
        invariant
            i <= v.len(),
            r@ == v@.subrange(0, i as int),
        decreases v.len() - i,
    {
        r.push(v[i]);
        i += 1;
    }
    r
}

/// A type checker: infers the types of variables and functions and records
/// an error message for each inconsistency.
pub struct TypeChecker {
    globals: NameMap<Type>,
    errors: Vec<String>,
    fn_signatures: NameMap<Vec<Type>>,
    fn_ret_types: NameMap<Type>,
    current_fn_ret_type: Option<Type>,
    nested_array_vars: NameMap<bool>,
}

/// The parameter types of each function, as sequences.
pub open spec fn sigs_view(m: Map<Seq<char>, Vec<Type>>) -> Map<Seq<char>, Seq<Type>> {
    Map::new(|k: Seq<char>| m.contains_key(k), |k: Seq<char>| m[k]@)
}

impl TypeChecker {
    /// The checker's state.
    pub closed spec fn model(&self) -> TState {
        TState {
            globals: self.globals@,
            errors: names_model(self.errors@),
            sigs: sigs_view(self.fn_signatures@),
            rets: self.fn_ret_types@,
            cur_ret: self.current_fn_ret_type,
            nested: self.nested_array_vars@.dom(),
        }
    }

    /// A checker that knows no variable or function and has no error.
    pub fn new() -> (r: Self)
        ensures
            r.model() == (TState {
                globals: Map::empty(),
                errors: Seq::empty(),
                sigs: Map::empty(),
                rets: Map::empty(),
                cur_ret: None,
                nested: Set::empty(),
            }),
    {
        let r = Self {
            globals: NameMap::new(),
            errors: Vec::new(),
            fn_signatures: NameMap::new(),
            fn_ret_types: NameMap::new(),
            current_fn_ret_type: None,
            nested_array_vars: NameMap::new(),
        };
        assert(r.model().errors =~= Seq::<Seq<char>>::empty());
        assert(r.model().sigs =~= Map::<Seq<char>, Seq<Type>>::empty());
        assert(r.model().nested =~= Set::<Seq<char>>::empty());
        r
    }

    /// Type checks a program; true when no error was found. The variables
    /// holding nested arrays are determined first.
    pub fn check_program(&mut self, stmts: &[Stmt]) -> (ok: bool)
        ensures
            final(self).model() == tc_stmts(
                TState { nested: nested_vars(stmts_model(stmts@)), ..old(self).model() },
                stmts_model(stmts@),
            ),
            ok == (final(self).model().errors.len() == 0),
    {
        self.nested_array_vars = collect_nested_array_vars(stmts);
        let ghost st0 = self.model();
        let ghost ms = stmts_model(stmts@);
        let mut i: usize = 0;
        while i < stmts.len()
            invariant
                i <= stmts@.len(),
                ms == stmts_model(stmts@),
                self.model() == tc_stmts(st0, ms.subrange(0, i as int)),
            decreases stmts@.len() - i,
        {
            proof {
                let sub = ms.subrange(0, i + 1);
                assert(sub.subrange(0, i as int) =~= ms.subrange(0, i as int));
                assert(sub[i as int] == stmts@[i as int]@);
            }
            self.check_stmt(&stmts[i]);
            i += 1;
        }
        assert(ms.subrange(0, stmts@.len() as int) =~= ms);
        self.errors.len() == 0
    }

    /// The error messages recorded so far.
    pub fn errors(&self) -> (r: &Vec<String>)
        ensures
            names_model(r@) == self.model().errors,
    {
        &self.errors
    }

    fn error(&mut self, msg: String)
        ensures
            final(self).model() == err(old(self).model(), msg@),
    {
        let ghost m = msg@;
        self.errors.push(msg);
        assert(names_model(self.errors@) =~= names_model(old(self).errors@).push(m));
    }

    fn require_same(&mut self, ctx: &str, l: Type, r: Type)
        ensures
            final(self).model() == require_same(old(self).model(), ctx@, l, r),
    {
        if l != Type::Unknown && r != Type::Unknown && l != r {
            self.error(message_same_types(ctx, l, r));
        }
    }

    /// The recorded type of a variable, `Unknown` if none.
    fn global_type(&self, name: &String) -> (t: Type)
        ensures
            t == lookup(self.model().globals, name@),
    {
        match self.globals.get(name) {
            Some(t) => *t,
            None => Type::Unknown,
        }
    }

    fn try_propagate_type(&mut self, expr: &Expr, inferred: Type)
        ensures
            final(self).model() == propagate(old(self).model(), expr@, inferred),
    {
        if inferred == Type::Unknown {
            return;
        }
        if let Expr::Var(name) = expr {
            if self.globals.contains_key(name) && self.global_type(name) == Type::Unknown {
                self.globals.insert(name.clone(), inferred);
            }
        }
    }

    fn check_call_args(&mut self, name: &String, ts: &Vec<Type>, ps: &Vec<Type>)
        requires
            ts.len() == ps.len(),
        ensures
            final(self).model() == arg_errors(old(self).model(), name@, ts@, ps@, ts.len() as nat),
    {
        let mut i: usize = 0;
        while i < ts.len()
            invariant
                i <= ts.len(),
                ts.len() == ps.len(),
                self.model() == arg_errors(old(self).model(), name@, ts@, ps@, i as nat),
            decreases ts.len() - i,
        {
            if ps[i] != Type::Unknown && ts[i] != ps[i] && ts[i] != Type::Unknown {
                self.error(message_arg_type(i + 1, name, ps[i], ts[i]));
            }
            i += 1;
        }
    }

    fn infer_exprs(&mut self, es: &Vec<Expr>) -> (ts: Vec<Type>)
        ensures
            (final(self).model(), ts@) == tc_exprs(old(self).model(), exprs_model(es@)),
            ts.len() == es.len(),
        decreases es@,
    {
        let ghost ms = exprs_model(es@);
        let mut ts: Vec<Type> = Vec::new();
        let mut i: usize = 0;
        while i < es.len()
            invariant
                i <= es.len(),
                ms == exprs_model(es@),
                (self.model(), ts@) == tc_exprs(old(self).model(), ms.subrange(0, i as int)),
                ts.len() == i,
            decreases es.len() - i,
        {
            proof {
                assert(decreases_to!(es@ => es@[i as int]));
                let sub = ms.subrange(0, i + 1);
                assert(sub.subrange(0, i as int) =~= ms.subrange(0, i as int));
            }
            let t = self.infer_expr(&es[i]);
            ts.push(t);
            i += 1;
        }
        assert(ms.subrange(0, es.len() as int) =~= ms);
        ts
    }

    fn infer_expr(&mut self, expr: &Expr) -> (t: Type)
        ensures
            (final(self).model(), t) == tc_expr(old(self).model(), expr@),
        decreases expr,
    {
        match expr {
            Expr::Int(_) => Type::Int,
            Expr::Str(_) => Type::Str,
            Expr::Var(name) => self.global_type(name),
            Expr::Binary { left, op, right } => {
                let l = self.infer_expr(left);
                let r = self.infer_expr(right);
                self.try_propagate_type(left, r);
                self.try_propagate_type(right, l);
                match op {
                    BinOp::Add => {
                        let both_str = l == Type::Str || r == Type::Str;
                        if both_str {
                            if l != Type::Unknown && r != Type::Unknown && l != r {
                                self.error(text_type_text_type("Cannot add ", l, " and ", r));
                            }
                            Type::Str
                        } else {
                            self.require_same("Arithmetic", l, r);
                            Type::Int
                        }
                    },
                    BinOp::Sub | BinOp::Mul | BinOp::Div => {
                        if l == Type::Str || r == Type::Str {
                            self.error(message_string_operator(*op));
                        } else {
                            self.require_same("Arithmetic", l, r);
                        }
                        Type::Int
                    },
                    BinOp::Lt | BinOp::Gt | BinOp::EqEq | BinOp::Le | BinOp::Ge => {
                        self.require_same("Comparison", l, r);
                        Type::Int
                    },
                    BinOp::And | BinOp::Or => {
                        if l != Type::Unknown && l != Type::Int {
                            self.error(text_type("Logical op requires Int, left is ", l));
                        }
                        if r != Type::Unknown && r != Type::Int {
                            self.error(text_type("Logical op requires Int, right is ", r));
                        }
                        Type::Int
                    },
                }
            },
            Expr::Unary { op, operand } => {
                let t = self.infer_expr(operand);
                match op {
                    UnaryOp::Not => {
                        if t != Type::Unknown && t != Type::Int {
                            self.error(text_type("'not' requires Int, got ", t));
                        }
                        Type::Int
                    },
                    UnaryOp::Neg => {
                        if t != Type::Unknown && t != Type::Int {
                            self.error(text_type("'-' requires Int, got ", t));
                        }
                        Type::Int
                    },
                }
            },
            Expr::Call { name, args } => {
                proof {
                    assert(decreases_to!(*expr => (*expr)->Call_args));
                    assert(decreases_to!(*args => args@));
                    assert(exprs_model(args@) =~= (expr@)->Call_args);
                }
                let arg_types = self.infer_exprs(args);
                let expected = match self.fn_signatures.get(name) {
                    Some(ps) => Some(copy_types(ps)),
                    None => None,
                };
                if let Some(param_types) = expected {
                    if args.len() != param_types.len() {
                        self.error(message_arg_count(name, param_types.len(), args.len()));
                    } else {
                        self.check_call_args(name, &arg_types, &param_types);
                    }
                }
                match self.fn_ret_types.get(name) {
                    Some(t) => *t,
                    None => Type::Int,
                }
            },
            Expr::NativeCall { args, .. } => {
                proof {
                    assert(decreases_to!(*expr => (*expr)->NativeCall_args));
                    assert(decreases_to!(*args => args@));
                    assert(exprs_model(args@) =~= (expr@)->NativeCall_args);
                }
                self.infer_exprs(args);
                Type::Array
            },
            Expr::ArrLit(_) => Type::Array,
            Expr::ArrIndex { arr, index } => {
                let arr_type = self.infer_expr(arr);
                if arr_type != Type::Unknown && arr_type != Type::Array && arr_type != Type::Str {
                    self.error(text_type("Cannot index into ", arr_type));
                }
                let idx_type = self.infer_expr(index);
                if idx_type != Type::Unknown && idx_type != Type::Int {
                    self.error(text_type("Array index must be Int, got ", idx_type));
                }
                // Indexing a known nested-array source yields a sub-array;
                // otherwise it yields a scalar.
                if arr_type == Type::Array && is_nested_array_expr(arr, &self.nested_array_vars) {
                    Type::Array
                } else {
                    Type::Int
                }
            },
        }
    }

    fn check_stmts(&mut self, stmts: &Vec<Stmt>)
        ensures
            final(self).model() == tc_stmts(old(self).model(), stmts_model(stmts@)),
        decreases stmts@,
    {
        let ghost ms = stmts_model(stmts@);
        let mut i: usize = 0;
        while i < stmts.len()
            invariant
                i <= stmts.len(),
                ms == stmts_model(stmts@),
                self.model() == tc_stmts(old(self).model(), ms.subrange(0, i as int)),
            decreases stmts.len() - i,
        {
            proof {
                assert(decreases_to!(stmts@ => stmts@[i as int]));
                let sub = ms.subrange(0, i + 1);
                assert(sub.subrange(0, i as int) =~= ms.subrange(0, i as int));
                assert(sub[i as int] == stmts@[i as int]@);
            }
            self.check_stmt(&stmts[i]);
            i += 1;
        }
        assert(ms.subrange(0, stmts.len() as int) =~= ms);
    }

    fn check_stmt(&mut self, stmt: &Stmt)
        ensures
            final(self).model() == tc_stmt(old(self).model(), stmt@),
        decreases stmt,
    {
        match stmt {
            Stmt::Assign { name, value } => {
                let val_type = self.infer_expr(value);
                if self.globals.contains_key(name) {
                    let expected = self.global_type(name);
                    if expected != Type::Unknown && val_type != expected && val_type != Type::Unknown {
                        self.error(message_retyped(name, val_type, expected));
                    }
                }
                if val_type != Type::Unknown {
                    let is_nested_arr = val_type == Type::Array && is_nested_array_expr(value, &self.nested_array_vars);
                    if is_nested_arr {
                        self.nested_array_vars.insert(name.clone(), true);
                    }
                    self.globals.insert(name.clone(), val_type);
                }
            },
            Stmt::ArrAssign { name, index, value } => {
                let idx_type = self.infer_expr(index);
                if idx_type != Type::Int && idx_type != Type::Unknown {
                    self.error(text_type("Array index must be Int, got ", idx_type));
                }
                let val_type = self.infer_expr(value);
                if val_type != Type::Int && val_type != Type::Unknown {
                    self.error(text_type("Array element value must be Int, got ", val_type));
                }
                if self.globals.contains_key(name) {
                    let var_type = self.global_type(name);
                    if var_type != Type::Array && var_type != Type::Str && var_type != Type::Unknown {
                        self.error(message_var_not_indexable(var_type, name));
                    }
                }
            },
            Stmt::Print(expr) => {
                self.infer_expr(expr);
            },
            Stmt::While { condition, body } => {
                proof {
                    assert(stmts_model(body@) =~= (stmt@)->While_body);
                    assert(decreases_to!(*stmt => (*stmt)->While_body));
                    assert(decreases_to!(*body => body@));
                }
                let cond_type = self.infer_expr(condition);
                if cond_type != Type::Int && cond_type != Type::Unknown {
                    self.error(text_type("While condition must be Int, got ", cond_type));
                }
                self.check_stmts(body);
            },
            Stmt::If { condition, then_body, else_body } => {
                proof {
                    assert(stmts_model(then_body@) =~= (stmt@)->If_then_body);
                    assert(stmts_model(else_body@) =~= (stmt@)->If_else_body);
                    assert(decreases_to!(*stmt => (*stmt)->If_then_body));
                    assert(decreases_to!(*then_body => then_body@));
                    assert(decreases_to!(*stmt => (*stmt)->If_else_body));
                    assert(decreases_to!(*else_body => else_body@));
                }
                let cond_type = self.infer_expr(condition);
                if cond_type != Type::Int && cond_type != Type::Unknown {
                    self.error(text_type("If condition must be Int, got ", cond_type));
                }
                self.check_stmts(then_body);
                self.check_stmts(else_body);
            },
            Stmt::Func { name, params, body } => {
                proof {
                    assert(stmts_model(body@) =~= (stmt@)->Func_body);
                    assert(names_model(params@) == (stmt@)->Func_params);
                    assert(decreases_to!(*stmt => (*stmt)->Func_body));
                    assert(decreases_to!(*body => body@));
                }
                let ghost st = self.model();
                let ghost ps = names_model(params@);
                let saved = self.globals.copy();
                let saved_ret = self.current_fn_ret_type;
                self.current_fn_ret_type = None;
                let mut i: usize = 0;
                while i < params.len()
                    invariant
                        i <= params.len(),
                        ps == names_model(params@),
                        self.model() == (TState {
                            globals: declare_params(st.globals, ps.subrange(0, i as int)),
                            cur_ret: None,
                            ..st
                        }),
                    decreases params.len() - i,
                {
                    self.globals.insert(params[i].clone(), Type::Unknown);
                    proof {
                        let sub = ps.subrange(0, i + 1);
                        assert(sub.drop_last() =~= ps.subrange(0, i as int));
                        assert(sub.last() == params@[i as int]@);
                    }
                    i += 1;
                }
                assert(ps.subrange(0, params.len() as int) =~= ps);
                self.check_stmts(body);
                let ghost s2 = self.model();
                let mut param_types: Vec<Type> = Vec::new();
                let mut j: usize = 0;
                while j < params.len()
                    invariant
                        j <= params.len(),
                        ps == names_model(params@),
                        self.model() == s2,
                        param_types@ =~= Seq::new(j as nat, |k: int| lookup(s2.globals, ps[k])),
                    decreases params.len() - j,
                {
                    let t = self.global_type(&params[j]);
                    param_types.push(t);
                    j += 1;
                }
                let ghost pt = param_types@;
                self.fn_signatures.insert(name.clone(), param_types);
                let ret_type = match self.current_fn_ret_type {
                    Some(t) => t,
                    None => Type::Int,
                };
                self.fn_ret_types.insert(name.clone(), ret_type);
                self.globals = saved;
                self.current_fn_ret_type = saved_ret;
                proof {
                    assert(sigs_view(self.fn_signatures@) =~= s2.sigs.insert(name@, pt));
                }
            },
            Stmt::Return(expr) => {
                let t = self.infer_expr(expr);
                match self.current_fn_ret_type {
                    Some(expected) => {
                        if expected != Type::Unknown && t != Type::Unknown && t != expected {
                            self.error(text_type_text_type("Return type mismatch: expected ", expected, ", got ", t));
                        }
                    },
                    None => {
                        self.current_fn_ret_type = Some(t);
                    },
                }
            },
            Stmt::Native { args, .. } => {
                assert(exprs_model(args@) =~= (stmt@)->Native_args);
                self.infer_exprs(args);
            },
            Stmt::Break | Stmt::Continue => {},
        }
    }

    fn get_fn_ret_type(&self, name: &str) -> (r: Option<Type>)
        ensures
            r == (if self.model().rets.contains_key(name@) {
                Some(self.model().rets[name@])
            } else {
                None::<Type>
            }),
    {
        let key = name.to_owned();
        match self.fn_ret_types.get(&key) {
            Some(t) => Some(*t),
            None => None,
        }
    }

    /// The inferred type of each variable at the top level.
    pub fn get_globals(&self) -> (r: &NameMap<Type>)
        ensures
            r@ == self.model().globals,
    {
        &self.globals
    }

    /// The return type of a function, or `None` if it is not known.
    pub fn get_function_return_type(&self, name: &str) -> (r: Option<Type>)
        ensures
            r == (if self.model().rets.contains_key(name@) {
                Some(self.model().rets[name@])
            } else {
                None::<Type>
            }),
    {
        self.get_fn_ret_type(name)
    }
}

} // verus!
