use vstd::prelude::*;
use vstd::utf8::encode_utf8;
use crate::ast::{BinOp, Expr, SExpr, SStmt, Stmt, UnaryOp, expr_model, stmt_model, names_model};
use crate::namemap::NameMap;
use crate::symbol::SymbolTable;
use crate::typecheck::{infer_expression_type, spec_infer_type, Type};

verus! {

/// Bytecode generator.
pub struct CodeGen {
    pub code: Vec<u8>,
    pub functions: NameMap<usize>,
    pub pending_calls: Vec<(usize, String)>,
    globals: NameMap<Type>,
    // Loop context for break/continue
    loop_stack: Vec<LoopContext>,
}

struct LoopContext {
    start: usize,
    breaks: Vec<usize>,  // positions to patch to loop end
}

/// Model of the generator state: the code so far, the call sites still to be
/// patched (position and callee), and the enclosing loops (start address and
/// the positions of their `break` jumps).
#[verifier::ext_equal]
pub struct CGModel {
    pub code: Seq<u8>,
    pub pending: Seq<(int, Seq<char>)>,
    pub loops: Seq<(int, Seq<int>)>,
}

/// Every position still to be patched lies inside the code.
pub open spec fn cg_wf(m: CGModel) -> bool {
    &&& forall|i: int| 0 <= i < m.pending.len() ==> 0 <= #[trigger] m.pending[i].0 < m.code.len()
    &&& forall|i: int, j: int|
        0 <= i < m.loops.len() && 0 <= j < m.loops[i].1.len() ==> 0 <= #[trigger] m.loops[i].1[j]
            < m.code.len()
}

pub open spec fn emit_m(m: CGModel, b: u8) -> CGModel {
    CGModel { code: m.code.push(b), ..m }
}

pub open spec fn emit_all(m: CGModel, bs: Seq<u8>) -> CGModel {
    CGModel { code: m.code + bs, ..m }
}

/// Overwrites the byte at `pos` with the low byte of `v`.
pub open spec fn patch_m(m: CGModel, pos: int, v: int) -> CGModel {
    CGModel { code: m.code.update(pos, v as u8), ..m }
}

/// Patches every position of `bs`, in order, with the low byte of `v`.
pub open spec fn patch_all(code: Seq<u8>, bs: Seq<int>, v: int) -> Seq<u8>
    decreases bs.len(),
{
    if bs.len() == 0 {
        code
    } else {
        patch_all(code, bs.subrange(0, bs.len() - 1), v).update(bs[bs.len() - 1], v as u8)
    }
}

/// `PUSH b` for each byte, last byte first.
pub open spec fn rev_pushes(b: Seq<u8>) -> Seq<u8>
    decreases b.len(),
{
    if b.len() == 0 {
        Seq::empty()
    } else {
        rev_pushes(b.subrange(1, b.len() as int)) + seq![0x01u8, b[0]]
    }
}

/// Code of a string literal: its UTF-8 bytes pushed last first, then `ARRLIT n`.
pub open spec fn str_lit_code(s: Seq<char>) -> Seq<u8> {
    let b = encode_utf8(s);
    rev_pushes(b) + seq![0x08u8, b.len() as u8]
}

/// `STORE slot` for each parameter, last parameter first.
pub open spec fn params_code(ps: Seq<Seq<char>>, syms: Map<Seq<char>, usize>) -> Seq<u8>
    decreases ps.len(),
{
    if ps.len() == 0 {
        Seq::empty()
    } else {
        params_code(ps.subrange(1, ps.len() as int), syms) + seq![0x21u8, syms[ps[0]] as u8]
    }
}

/// Comparison opcode of a comparison operator.
pub open spec fn comparison_opcode(op: BinOp) -> u8 {
    match op {
        BinOp::Lt => 0x31,
        BinOp::Gt => 0x32,
        BinOp::EqEq => 0x30,
        BinOp::Le => 0x34,
        _ => 0x35,
    }
}

/// The code of an arithmetic or comparison operator, once both operands
/// are on the stack.
pub open spec fn sgen_arith(m2: CGModel, op: BinOp, is_str: bool) -> CGModel {
    match op {
        BinOp::Add => emit_m(m2, if is_str { 0x55u8 } else { 0x02u8 }),
        BinOp::Sub => emit_m(m2, 0x03),
        BinOp::Mul => emit_m(m2, 0x04),
        BinOp::Div => emit_m(m2, 0x05),
        _ => if is_str {
            emit_all(m2, seq![0x53u8, 0x01u8, 0u8, comparison_opcode(op)])
        } else {
            emit_m(m2, comparison_opcode(op))
        },
    }
}

/// The generator state after generating an expression.
pub open spec fn sgen_expr(
    m: CGModel,
    e: SExpr,
    g: Map<Seq<char>, Type>,
    syms: Map<Seq<char>, usize>,
) -> CGModel
    decreases e,
{
    match e {
        SExpr::Int(n) => emit_all(m, seq![0x01u8, (n as usize) as u8]),
        SExpr::Var(name) => emit_all(m, seq![0x20u8, syms[name] as u8]),
        SExpr::Unary { op, operand } => match op {
            // `x == 0`
            UnaryOp::Not => emit_all(sgen_expr(m, *operand, g, syms), seq![0x01u8, 0u8, 0x30u8]),
            // `0 - x`
            UnaryOp::Neg => emit_m(sgen_expr(emit_all(m, seq![0x01u8, 0u8]), *operand, g, syms), 0x03),
        },
        SExpr::Binary { left, op, right } => {
            let is_str = spec_infer_type(*left, g) == Type::Str || spec_infer_type(*right, g)
                == Type::Str;
            let m1 = sgen_expr(m, *left, g, syms);
            match op {
                // left; JMP_IF_FALSE f; right; JMP end; f: PUSH 0; end:
                BinOp::And => {
                    let j1 = m1.code.len() + 1int;
                    let m3 = sgen_expr(emit_all(m1, seq![0x41u8, 0u8]), *right, g, syms);
                    let j2 = m3.code.len() + 1int;
                    let m4 = emit_all(m3, seq![0x40u8, 0u8]);
                    let f = m4.code.len() as int;
                    let m5 = emit_all(m4, seq![0x01u8, 0u8]);
                    patch_m(patch_m(m5, j2, m5.code.len() as int), j1, f)
                },
                // left; JMP_IF_FALSE r; PUSH 1; JMP end; r: right; end:
                BinOp::Or => {
                    let j1 = m1.code.len() + 1int;
                    let j2 = m1.code.len() + 5int;
                    let m2 = emit_all(m1, seq![0x41u8, 0u8, 0x01u8, 1u8, 0x40u8, 0u8]);
                    let r = m2.code.len() as int;
                    let m3 = sgen_expr(m2, *right, g, syms);
                    patch_m(patch_m(m3, j1, r), j2, m3.code.len() as int)
                },
                _ => sgen_arith(sgen_expr(m1, *right, g, syms), op, is_str),
            }
        },
        SExpr::Call { name, args } => {
            let m2 = emit_m(sgen_exprs(m, args, g, syms), 0x60);
            let pos = m2.code.len() as int;
            let m3 = emit_m(m2, 0);
            CGModel { pending: m3.pending.push((pos, name)), ..m3 }
        },
        SExpr::NativeCall { id, args } => {
            let m1 = sgen_exprs(m, args, g, syms);
            if id == 30 {
                emit_m(m1, 0x07)
            } else {
                emit_all(m1, seq![0x50u8, args.len() as u8, id])
            }
        },
        SExpr::Str(s) => emit_all(m, str_lit_code(s)),
        SExpr::ArrLit(items) => emit_all(
            sgen_exprs_rev(m, items, g, syms),
            seq![0x08u8, items.len() as u8],
        ),
        SExpr::ArrIndex { arr, index } => emit_m(
            sgen_expr(sgen_expr(m, *arr, g, syms), *index, g, syms),
            0x22,
        ),
    }
}

/// The code of `left op right` when neither operand is a string: the code
/// of `left`, that of `right`, then one instruction of the VM: `ADD` 0x02,
/// `SUB` 0x03, `MUL` 0x04, `DIV` 0x05, `CMP_EQ` 0x30, `CMP_LT` 0x31,
/// `CMP_GT` 0x32, `CMP_LE` 0x34, `CMP_GE` 0x35. With a string operand,
/// `+` is `STRCONCAT` 0x55 and a comparison compares the result of `STRCMP`
/// 0x53 with 0 by the same opcode. Negation is `0 - x`: `PUSH 0`, the
/// operand, `SUB`; `not x` is `x == 0`: the operand, `PUSH 0`, `CMP_EQ`.
pub proof fn law_operator_opcodes(
    m: CGModel,
    left: SExpr,
    op: BinOp,
    right: SExpr,
    g: Map<Seq<char>, Type>,
    syms: Map<Seq<char>, usize>,
)
    ensures
        ({
            let is_str = spec_infer_type(left, g) == Type::Str || spec_infer_type(right, g) == Type::Str;
            let operands = sgen_expr(sgen_expr(m, left, g, syms), right, g, syms).code;
            let code = sgen_expr(m, SExpr::Binary { left: Box::new(left), op, right: Box::new(right) }, g, syms).code;
            &&& !is_str ==> (op == BinOp::Add ==> code == operands.push(0x02))
            &&& op == BinOp::Sub ==> code == operands.push(0x03)
            &&& op == BinOp::Mul ==> code == operands.push(0x04)
            &&& op == BinOp::Div ==> code == operands.push(0x05)
            &&& !is_str ==> (op == BinOp::EqEq ==> code == operands.push(0x30))
            &&& !is_str ==> (op == BinOp::Lt ==> code == operands.push(0x31))
            &&& !is_str ==> (op == BinOp::Gt ==> code == operands.push(0x32))
            &&& !is_str ==> (op == BinOp::Le ==> code == operands.push(0x34))
            &&& !is_str ==> (op == BinOp::Ge ==> code == operands.push(0x35))
            &&& is_str ==> (op == BinOp::Add ==> code == operands.push(0x55))
            &&& is_str ==> (op == BinOp::EqEq ==> code == operands + seq![0x53u8, 0x01u8, 0u8, 0x30u8])
            &&& is_str ==> (op == BinOp::Lt ==> code == operands + seq![0x53u8, 0x01u8, 0u8, 0x31u8])
            &&& is_str ==> (op == BinOp::Gt ==> code == operands + seq![0x53u8, 0x01u8, 0u8, 0x32u8])
            &&& is_str ==> (op == BinOp::Le ==> code == operands + seq![0x53u8, 0x01u8, 0u8, 0x34u8])
            &&& is_str ==> (op == BinOp::Ge ==> code == operands + seq![0x53u8, 0x01u8, 0u8, 0x35u8])
        }),
        sgen_expr(m, SExpr::Unary { op: UnaryOp::Neg, operand: Box::new(left) }, g, syms).code
            == sgen_expr(CGModel { code: m.code + seq![0x01u8, 0u8], ..m }, left, g, syms).code.push(0x03),
        sgen_expr(m, SExpr::Unary { op: UnaryOp::Not, operand: Box::new(left) }, g, syms).code
            == sgen_expr(m, left, g, syms).code + seq![0x01u8, 0u8, 0x30u8],
{
    assert(emit_all(m, seq![0x01u8, 0u8]) == CGModel { code: m.code + seq![0x01u8, 0u8], ..m });
}

/// The code of `left and right` and `left or right`: the left operand is
/// tested once with `JMP_IF_FALSE`, and the right operand runs only where
/// the result depends on it. For `and`: left, `JMP_IF_FALSE` to a `PUSH 0`,
/// right, `JMP` past that `PUSH 0`. For `or`: left, `JMP_IF_FALSE` to the
/// right operand, `PUSH 1`, `JMP` past the right operand.
pub proof fn law_short_circuit_layout(
    m: CGModel,
    left: SExpr,
    right: SExpr,
    g: Map<Seq<char>, Type>,
    syms: Map<Seq<char>, usize>,
)
    ensures
        ({
            let a = sgen_expr(m, left, g, syms).code;
            let l = a.len() as int;
            let mr = sgen_expr(emit_all(sgen_expr(m, left, g, syms), seq![0x41u8, 0u8]), right, g, syms).code;
            let r = mr.len() as int;
            let code = sgen_expr(m, SExpr::Binary { left: Box::new(left), op: BinOp::And, right: Box::new(right) }, g, syms).code;
            &&& code.len() == r + 4
            &&& forall|i: int| 0 <= i < l ==> code[i] == #[trigger] a[i]
            &&& code[l] == 0x41 && code[l + 1] == (r + 2) as u8
            &&& forall|i: int| l + 2 <= i < r ==> code[i] == #[trigger] mr[i]
            &&& code[r] == 0x40 && code[r + 1] == (r + 4) as u8
            &&& code[r + 2] == 0x01 && code[r + 3] == 0
        }),
        ({
            let a = sgen_expr(m, left, g, syms).code;
            let l = a.len() as int;
            let mr = sgen_expr(
                emit_all(sgen_expr(m, left, g, syms), seq![0x41u8, 0u8, 0x01u8, 1u8, 0x40u8, 0u8]),
                right,
                g,
                syms,
            ).code;
            let r = mr.len() as int;
            let code = sgen_expr(m, SExpr::Binary { left: Box::new(left), op: BinOp::Or, right: Box::new(right) }, g, syms).code;
            &&& code.len() == r
            &&& forall|i: int| 0 <= i < l ==> code[i] == #[trigger] a[i]
            &&& code[l] == 0x41 && code[l + 1] == (l + 6) as u8
            &&& code[l + 2] == 0x01 && code[l + 3] == 1
            &&& code[l + 4] == 0x40 && code[l + 5] == r as u8
            &&& forall|i: int| l + 6 <= i < r ==> code[i] == #[trigger] mr[i]
        }),
{
    lemma_sgen_expr_extends(emit_all(sgen_expr(m, left, g, syms), seq![0x41u8, 0u8]), right, g, syms);
    lemma_sgen_expr_extends(emit_all(sgen_expr(m, left, g, syms), seq![0x41u8, 0u8, 0x01u8, 1u8, 0x40u8, 0u8]), right, g, syms);
}

/// Generating an expression keeps the code before it and only adds to it.
proof fn lemma_sgen_expr_extends(m: CGModel, e: SExpr, g: Map<Seq<char>, Type>, syms: Map<Seq<char>, usize>)
    ensures
        sgen_expr(m, e, g, syms).code.len() >= m.code.len(),
        forall|i: int| 0 <= i < m.code.len() ==> #[trigger] sgen_expr(m, e, g, syms).code[i] == m.code[i],
    decreases e,
{
    match e {
        SExpr::Unary { op, operand } => {
            lemma_sgen_expr_extends(m, *operand, g, syms);
            lemma_sgen_expr_extends(emit_all(m, seq![0x01u8, 0u8]), *operand, g, syms);
        },
        SExpr::Binary { left, op, right } => {
            lemma_sgen_expr_extends(m, *left, g, syms);
            let m1 = sgen_expr(m, *left, g, syms);
            lemma_sgen_expr_extends(m1, *right, g, syms);
            lemma_sgen_expr_extends(emit_all(m1, seq![0x41u8, 0u8]), *right, g, syms);
            lemma_sgen_expr_extends(emit_all(m1, seq![0x41u8, 0u8, 0x01u8, 1u8, 0x40u8, 0u8]), *right, g, syms);
        },
        SExpr::Call { args, .. } => {
            lemma_sgen_exprs_extends(m, args, g, syms);
        },
        SExpr::NativeCall { args, .. } => {
            lemma_sgen_exprs_extends(m, args, g, syms);
        },
        SExpr::ArrLit(items) => {
            lemma_sgen_exprs_rev_extends(m, items, g, syms);
        },
        SExpr::ArrIndex { arr, index } => {
            lemma_sgen_expr_extends(m, *arr, g, syms);
            lemma_sgen_expr_extends(sgen_expr(m, *arr, g, syms), *index, g, syms);
        },
        _ => {},
    }
}

proof fn lemma_sgen_exprs_extends(m: CGModel, es: Seq<SExpr>, g: Map<Seq<char>, Type>, syms: Map<Seq<char>, usize>)
    ensures
        sgen_exprs(m, es, g, syms).code.len() >= m.code.len(),
        forall|i: int| 0 <= i < m.code.len() ==> #[trigger] sgen_exprs(m, es, g, syms).code[i] == m.code[i],
    decreases es,
{
    if es.len() > 0 {
        let prev = es.subrange(0, es.len() - 1);
        lemma_sgen_exprs_extends(m, prev, g, syms);
        lemma_sgen_expr_extends(sgen_exprs(m, prev, g, syms), es[es.len() - 1], g, syms);
    }
}

proof fn lemma_sgen_exprs_rev_extends(m: CGModel, es: Seq<SExpr>, g: Map<Seq<char>, Type>, syms: Map<Seq<char>, usize>)
    ensures
        sgen_exprs_rev(m, es, g, syms).code.len() >= m.code.len(),
        forall|i: int| 0 <= i < m.code.len() ==> #[trigger] sgen_exprs_rev(m, es, g, syms).code[i] == m.code[i],
    decreases es,
{
    if es.len() > 0 {
        let rest = es.subrange(1, es.len() as int);
        lemma_sgen_exprs_rev_extends(m, rest, g, syms);
        lemma_sgen_expr_extends(sgen_exprs_rev(m, rest, g, syms), es[0], g, syms);
    }
}

/// The generator state after generating expressions left to right.
pub open spec fn sgen_exprs(
    m: CGModel,
    es: Seq<SExpr>,
    g: Map<Seq<char>, Type>,
    syms: Map<Seq<char>, usize>,
) -> CGModel
    decreases es,
{
    if es.len() == 0 {
        m
    } else {
        sgen_expr(sgen_exprs(m, es.subrange(0, es.len() - 1), g, syms), es[es.len() - 1], g, syms)
    }
}

/// The generator state after generating expressions right to left.
pub open spec fn sgen_exprs_rev(
    m: CGModel,
    es: Seq<SExpr>,
    g: Map<Seq<char>, Type>,
    syms: Map<Seq<char>, usize>,
) -> CGModel
    decreases es,
{
    if es.len() == 0 {
        m
    } else {
        sgen_expr(sgen_exprs_rev(m, es.subrange(1, es.len() as int), g, syms), es[0], g, syms)
    }
}

/// Every variable an expression reads has a slot and every function it calls
/// is in `fns`.
pub open spec fn expr_gen_ok(e: SExpr, syms: Map<Seq<char>, usize>, fns: Set<Seq<char>>) -> bool
    decreases e,
{
    match e {
        SExpr::Var(name) => syms.contains_key(name),
        SExpr::Binary { left, right, .. } => expr_gen_ok(*left, syms, fns) && expr_gen_ok(*right, syms, fns),
        SExpr::Unary { operand, .. } => expr_gen_ok(*operand, syms, fns),
        SExpr::Call { name, args } => fns.contains(name) && forall|i: int|
            0 <= i < args.len() ==> expr_gen_ok(#[trigger] args[i], syms, fns),
        SExpr::NativeCall { args, .. } => forall|i: int|
            0 <= i < args.len() ==> expr_gen_ok(#[trigger] args[i], syms, fns),
        SExpr::ArrLit(items) => forall|i: int|
            0 <= i < items.len() ==> expr_gen_ok(#[trigger] items[i], syms, fns),
        SExpr::ArrIndex { arr, index } => expr_gen_ok(*arr, syms, fns) && expr_gen_ok(*index, syms, fns),
        _ => true,
    }
}

/// Every variable a statement touches has a slot, every function it calls is
/// in `fns`, and `break`/`continue` only stand inside a loop.
pub open spec fn stmt_gen_ok(
    s: SStmt,
    syms: Map<Seq<char>, usize>,
    fns: Set<Seq<char>>,
    in_loop: bool,
) -> bool
    decreases s,
{
    match s {
        SStmt::Print(e) => expr_gen_ok(e, syms, fns),
        SStmt::Assign { name, value } => syms.contains_key(name) && expr_gen_ok(value, syms, fns),
        SStmt::ArrAssign { name, index, value } => syms.contains_key(name) && expr_gen_ok(index, syms, fns) && expr_gen_ok(value, syms, fns),
        SStmt::While { condition, body } => expr_gen_ok(condition, syms, fns) && forall|i: int|
            0 <= i < body.len() ==> stmt_gen_ok(#[trigger] body[i], syms, fns, true),
        SStmt::If { condition, then_body, else_body } => expr_gen_ok(condition, syms, fns) && (forall|
            i: int,
        |
            0 <= i < then_body.len() ==> stmt_gen_ok(#[trigger] then_body[i], syms, fns, in_loop)) && (
        forall|i: int|
            0 <= i < else_body.len() ==> stmt_gen_ok(#[trigger] else_body[i], syms, fns, in_loop)),
        SStmt::Func { params, body, .. } => (forall|i: int|
            0 <= i < params.len() ==> syms.contains_key(#[trigger] params[i])) && forall|i: int|
            0 <= i < body.len() ==> stmt_gen_ok(#[trigger] body[i], syms, fns, in_loop),
        SStmt::Return(e) => expr_gen_ok(e, syms, fns),
        SStmt::Native { args, .. } => forall|i: int|
            0 <= i < args.len() ==> expr_gen_ok(#[trigger] args[i], syms, fns),
        SStmt::Break => in_loop,
        SStmt::Continue => in_loop,
    }
}

/// The generator state after generating a statement.
pub open spec fn sgen_stmt(
    m: CGModel,
    s: SStmt,
    g: Map<Seq<char>, Type>,
    syms: Map<Seq<char>, usize>,
) -> CGModel
    decreases s,
{
    match s {
        SStmt::Assign { name, value } => emit_all(
            sgen_expr(m, value, g, syms),
            seq![0x21u8, syms[name] as u8],
        ),
        SStmt::ArrAssign { name, index, value } => emit_m(
            sgen_expr(
                sgen_expr(emit_all(m, seq![0x20u8, syms[name] as u8]), index, g, syms),
                value,
                g,
                syms,
            ),
            0x23,
        ),
        SStmt::Print(e) => if spec_infer_type(e, g) == Type::Str {
            let m1 = match e {
                SExpr::Str(s) => emit_all(m, str_lit_code(s)),
                _ => sgen_expr(m, e, g, syms),
            };
            emit_m(m1, 0x52)
        } else {
            emit_m(sgen_expr(m, e, g, syms), 0x51)
        },
        SStmt::While { condition, body } => {
            let start = m.code.len() as int;
            let m1 = CGModel { loops: m.loops.push((start, Seq::empty())), ..m };
            let m3 = emit_m(sgen_expr(m1, condition, g, syms), 0x41);
            let jpos = m3.code.len() as int;
            let m5 = sgen_stmts(emit_m(m3, 0), body, g, syms);
            let m6 = emit_all(m5, seq![0x40u8, start as u8]);
            let end = m6.code.len() as int;
            let m7 = patch_m(m6, jpos, end);
            if m7.loops.len() > 0 {
                let ctx = m7.loops[m7.loops.len() - 1];
                CGModel {
                    code: patch_all(m7.code, ctx.1, end),
                    loops: m7.loops.subrange(0, m7.loops.len() - 1),
                    ..m7
                }
            } else {
                m7
            }
        },
        SStmt::If { condition, then_body, else_body } => {
            let m2 = emit_m(sgen_expr(m, condition, g, syms), 0x41);
            let else_jump = m2.code.len() as int;
            let m4 = sgen_stmts(emit_m(m2, 0), then_body, g, syms);
            let m5 = emit_m(m4, 0x40);
            let end_jump = m5.code.len() as int;
            let m6 = emit_m(m5, 0);
            let m7 = patch_m(m6, else_jump, m6.code.len() as int);
            let m8 = sgen_stmts(m7, else_body, g, syms);
            patch_m(m8, end_jump, m8.code.len() as int)
        },
        SStmt::Func { params, body, .. } => emit_all(
            sgen_stmts(emit_all(m, params_code(params, syms)), body, g, syms),
            seq![0x01u8, 0u8, 0x61u8],
        ),
        SStmt::Return(e) => emit_m(sgen_expr(m, e, g, syms), 0x61),
        SStmt::Native { id, args } => {
            let m1 = sgen_exprs(m, args, g, syms);
            if id == 30 {
                emit_m(m1, 0x07)
            } else {
                emit_all(m1, seq![0x50u8, args.len() as u8, id])
            }
        },
        SStmt::Break => if m.loops.len() > 0 {
            let m1 = emit_m(m, 0x40);
            let pos = m1.code.len() as int;
            let m2 = emit_m(m1, 0);
            let ctx = m2.loops[m2.loops.len() - 1];
            CGModel { loops: m2.loops.update(m2.loops.len() - 1, (ctx.0, ctx.1.push(pos))), ..m2 }
        } else {
            m
        },
        SStmt::Continue => if m.loops.len() > 0 {
            emit_all(m, seq![0x40u8, m.loops[m.loops.len() - 1].0 as u8])
        } else {
            m
        },
    }
}

/// The generator state after generating statements in order.
pub open spec fn sgen_stmts(
    m: CGModel,
    ss: Seq<SStmt>,
    g: Map<Seq<char>, Type>,
    syms: Map<Seq<char>, usize>,
) -> CGModel
    decreases ss,
{
    if ss.len() == 0 {
        m
    } else {
        sgen_stmt(sgen_stmts(m, ss.subrange(0, ss.len() - 1), g, syms), ss[ss.len() - 1], g, syms)
    }
}

/// The generator state after generating, in order, the statements that are
/// not function definitions.
pub open spec fn sgen_main(
    m: CGModel,
    ss: Seq<SStmt>,
    g: Map<Seq<char>, Type>,
    syms: Map<Seq<char>, usize>,
) -> CGModel
    decreases ss.len(),
{
    if ss.len() == 0 {
        m
    } else {
        let m1 = sgen_main(m, ss.subrange(0, ss.len() - 1), g, syms);
        if ss[ss.len() - 1] is Func {
            m1
        } else {
            sgen_stmt(m1, ss[ss.len() - 1], g, syms)
        }
    }
}

/// The generator state and function addresses after generating, in order,
/// the function definitions; each function's address is where its code starts.
pub open spec fn sgen_funcs(
    m: CGModel,
    f: Map<Seq<char>, usize>,
    ss: Seq<SStmt>,
    g: Map<Seq<char>, Type>,
    syms: Map<Seq<char>, usize>,
) -> (CGModel, Map<Seq<char>, usize>)
    decreases ss.len(),
{
    if ss.len() == 0 {
        (m, f)
    } else {
        let (m1, f1) = sgen_funcs(m, f, ss.subrange(0, ss.len() - 1), g, syms);
        match ss[ss.len() - 1] {
            SStmt::Func { name, .. } => (
                sgen_stmt(m1, ss[ss.len() - 1], g, syms),
                f1.insert(name, m1.code.len() as usize),
            ),
            _ => (m1, f1),
        }
    }
}

/// Writes each callee's address into its call site, in order.
pub open spec fn patch_calls(
    code: Seq<u8>,
    pending: Seq<(int, Seq<char>)>,
    f: Map<Seq<char>, usize>,
) -> Seq<u8>
    decreases pending.len(),
{
    if pending.len() == 0 {
        code
    } else {
        let p = pending[pending.len() - 1];
        patch_calls(code, pending.subrange(0, pending.len() - 1), f).update(p.0, f[p.1] as u8)
    }
}

/// The names of the function definitions among the statements.
pub open spec fn func_names(ss: Seq<SStmt>) -> Set<Seq<char>> {
    Set::new(|n: Seq<char>| exists|i: int| 0 <= i < ss.len() && ss[i] is Func && (ss[i])->Func_name == n)
}

/// The bytecode of a program: the main statements, `HALT`, then each
/// function, with every call site patched to its callee's address.
pub open spec fn spec_generate(
    m: CGModel,
    f: Map<Seq<char>, usize>,
    prog: Seq<SStmt>,
    g: Map<Seq<char>, Type>,
    syms: Map<Seq<char>, usize>,
) -> Seq<u8> {
    let m1 = emit_m(sgen_main(m, prog, g, syms), 0xFF);
    let (m2, f2) = sgen_funcs(m1, f, prog, g, syms);
    patch_calls(m2.code, m2.pending, f2)
}

/// Every call still to be patched names a function of `fns`.
pub open spec fn pending_in(m: CGModel, fns: Set<Seq<char>>) -> bool {
    forall|i: int| 0 <= i < m.pending.len() ==> fns.contains(#[trigger] m.pending[i].1)
}

/// What every generation step keeps.
pub open spec fn cg_step_ok(m: CGModel, fns: Set<Seq<char>>) -> bool {
    cg_wf(m) && pending_in(m, fns)
}

impl CodeGen {
    /// The generator state.
    pub closed spec fn model(&self) -> CGModel {
        CGModel {
            code: self.code@,
            pending: Seq::new(
                self.pending_calls@.len(),
                |i: int| (self.pending_calls@[i].0 as int, self.pending_calls@[i].1@),
            ),
            loops: Seq::new(
                self.loop_stack@.len(),
                |i: int|
                    (
                        self.loop_stack@[i].start as int,
                        Seq::new(
                            self.loop_stack@[i].breaks@.len(),
                            |j: int| self.loop_stack@[i].breaks@[j] as int,
                        ),
                    ),
            ),
        }
    }

    /// The address of each function compiled so far.
    pub closed spec fn fns(&self) -> Map<Seq<char>, usize> {
        self.functions@
    }

    /// The variable types the generator was made with.
    pub closed spec fn globals(&self) -> Map<Seq<char>, Type> {
        self.globals@
    }

    /// A generator with no code, no functions and no pending calls.
    pub fn new(globals: NameMap<Type>) -> (r: Self)
        ensures
            r.model() == (CGModel {
                code: Seq::empty(),
                pending: Seq::empty(),
                loops: Seq::empty(),
            }),
            r.fns() == Map::<Seq<char>, usize>::empty(),
            r.globals() == globals@,
    {
        let r = Self {
            code: Vec::new(),
            functions: NameMap::new(),
            pending_calls: Vec::new(),
            globals,
            loop_stack: Vec::new(),
        };
        assert(r.model() =~= (CGModel {
            code: Seq::empty(),
            pending: Seq::empty(),
            loops: Seq::empty(),
        }));
        r
    }

    fn emit(&mut self, byte: u8)
        ensures
            final(self).model() == emit_m(old(self).model(), byte),
            final(self).globals() == old(self).globals(),
            final(self).functions == old(self).functions,
    {
        self.code.push(byte);
        assert(self.model() =~= emit_m(old(self).model(), byte));
    }

    fn emit_u8(&mut self, value: usize)
        ensures
            final(self).model() == emit_m(old(self).model(), value as u8),
            final(self).globals() == old(self).globals(),
            final(self).functions == old(self).functions,
    {
        self.code.push(value as u8);
        assert(self.model() =~= emit_m(old(self).model(), value as u8));
    }

    fn patch_u8(&mut self, pos: usize, value: usize)
        requires
            pos < old(self).code.len(),
        ensures
            final(self).model() == patch_m(old(self).model(), pos as int, value as int),
            final(self).globals() == old(self).globals(),
            final(self).functions == old(self).functions,
    {
        self.code.set(pos, value as u8);
        assert(self.model() =~= patch_m(old(self).model(), pos as int, value as int));
    }

    fn emit3(&mut self, a: u8, b: u8, c: u8)
        ensures
            final(self).model() == emit_all(old(self).model(), seq![a, b, c]),
            final(self).globals() == old(self).globals(),
            final(self).functions == old(self).functions,
    {
        self.code.push(a);
        self.code.push(b);
        self.code.push(c);
        assert(self.model() =~= emit_all(old(self).model(), seq![a, b, c]));
    }

    fn emit4(&mut self, a: u8, b: u8, c: u8, d: u8)
        ensures
            final(self).model() == emit_all(old(self).model(), seq![a, b, c, d]),
            final(self).globals() == old(self).globals(),
            final(self).functions == old(self).functions,
    {
        self.code.push(a);
        self.code.push(b);
        self.code.push(c);
        self.code.push(d);
        assert(self.model() =~= emit_all(old(self).model(), seq![a, b, c, d]));
    }

    /// Pushes the bytes of a string literal, last first, then `ARRLIT n`.
    fn gen_str_lit(&mut self, s: &String)
        requires
            cg_wf(old(self).model()),
        ensures
            final(self).model() == emit_all(old(self).model(), str_lit_code(s@)),
            final(self).globals() == old(self).globals(),
            final(self).functions == old(self).functions,
            cg_wf(final(self).model()),
    {
        let b = s.as_str().as_bytes();
        let ghost bs = b@;
        assert(bs == encode_utf8(s@));
        let n = b.len();
        let mut k = n;
        while k > 0
            invariant
                k <= n,
                n == bs.len(),
                b@ == bs,
                self.model() == emit_all(old(self).model(), rev_pushes(bs.subrange(k as int, n as int))),
                self.globals() == old(self).globals(),
                self.functions == old(self).functions,
                cg_wf(self.model()),
            decreases k,
        {
            let ghost before = self.model();
            self.emit(0x01);
            self.emit_u8(b[k - 1] as usize);
            proof {
                let sub = bs.subrange(k - 1, n as int);
                assert(sub.subrange(1, sub.len() as int) =~= bs.subrange(k as int, n as int));
                assert(rev_pushes(sub) == rev_pushes(sub.subrange(1, sub.len() as int)) + seq![
                    0x01u8,
                    sub[0],
                ]);
                assert(self.model().code =~= old(self).model().code + rev_pushes(sub));
                assert(self.model() =~= emit_all(old(self).model(), rev_pushes(sub)));
            }
            k -= 1;
        }
        assert(bs.subrange(0, n as int) =~= bs);
        self.emit(0x08);
        self.emit_u8(n);
        assert(self.model().code =~= old(self).model().code + str_lit_code(s@));
        assert(self.model() =~= emit_all(old(self).model(), str_lit_code(s@)));
    }

    fn gen_exprs(&mut self, es: &Vec<Expr>, symbols: &SymbolTable, Ghost(fns): Ghost<Set<Seq<char>>>)
        requires
            cg_step_ok(old(self).model(), fns),
            forall|i: int| 0 <= i < es.len() ==> expr_gen_ok(#[trigger] es@[i]@, symbols@, fns),
        ensures
            final(self).model() == sgen_exprs(
                old(self).model(),
                crate::ast::exprs_model(es@),
                old(self).globals(),
                symbols@,
            ),
            final(self).model().loops == old(self).model().loops,
            cg_step_ok(final(self).model(), fns),
            final(self).model().code.len() >= old(self).model().code.len(),
            final(self).globals() == old(self).globals(),
            final(self).functions == old(self).functions,
        decreases es@,
    {
        let ghost ms = crate::ast::exprs_model(es@);
        let mut i: usize = 0;
        while i < es.len()
            invariant
                i <= es.len(),
                ms == crate::ast::exprs_model(es@),
                forall|j: int| 0 <= j < es.len() ==> expr_gen_ok(#[trigger] es@[j]@, symbols@, fns),
                self.model() == sgen_exprs(
                    old(self).model(),
                    ms.subrange(0, i as int),
                    old(self).globals(),
                    symbols@,
                ),
                cg_step_ok(self.model(), fns),
                self.model().loops == old(self).model().loops,
                self.model().code.len() >= old(self).model().code.len(),
                self.globals() == old(self).globals(),
                self.functions == old(self).functions,
            decreases es.len() - i,
        {
            proof {
                assert(decreases_to!(es@ => es@[i as int]));
            }
            self.gen_expr(&es[i], symbols, Ghost(fns));
            proof {
                let sub = ms.subrange(0, i + 1);
                assert(sub.subrange(0, i as int) =~= ms.subrange(0, i as int));
                assert(sub[i as int] == es@[i as int]@);
            }
            i += 1;
        }
        assert(ms.subrange(0, es.len() as int) =~= ms);
    }

    fn gen_exprs_rev(&mut self, es: &Vec<Expr>, symbols: &SymbolTable, Ghost(fns): Ghost<Set<Seq<char>>>)
        requires
            cg_step_ok(old(self).model(), fns),
            forall|i: int| 0 <= i < es.len() ==> expr_gen_ok(#[trigger] es@[i]@, symbols@, fns),
        ensures
            final(self).model() == sgen_exprs_rev(
                old(self).model(),
                crate::ast::exprs_model(es@),
                old(self).globals(),
                symbols@,
            ),
            final(self).model().loops == old(self).model().loops,
            cg_step_ok(final(self).model(), fns),
            final(self).model().code.len() >= old(self).model().code.len(),
            final(self).globals() == old(self).globals(),
            final(self).functions == old(self).functions,
        decreases es@,
    {
        let ghost ms = crate::ast::exprs_model(es@);
        let n = es.len();
        let mut k: usize = n;
        assert(ms.subrange(n as int, n as int) =~= Seq::<SExpr>::empty());
        while k > 0
            invariant
                k <= n,
                n == es.len(),
                ms == crate::ast::exprs_model(es@),
                forall|j: int| 0 <= j < es.len() ==> expr_gen_ok(#[trigger] es@[j]@, symbols@, fns),
                self.model() == sgen_exprs_rev(
                    old(self).model(),
                    ms.subrange(k as int, n as int),
                    old(self).globals(),
                    symbols@,
                ),
                cg_step_ok(self.model(), fns),
                self.model().loops == old(self).model().loops,
                self.model().code.len() >= old(self).model().code.len(),
                self.globals() == old(self).globals(),
                self.functions == old(self).functions,
            decreases k,
        {
            proof {
                assert(decreases_to!(es@ => es@[k - 1]));
            }
            self.gen_expr(&es[k - 1], symbols, Ghost(fns));
            proof {
                let sub = ms.subrange(k - 1, n as int);
                assert(sub.subrange(1, sub.len() as int) =~= ms.subrange(k as int, n as int));
                assert(sub[0] == es@[k - 1]@);
            }
            k -= 1;
        }
        assert(ms.subrange(0, n as int) =~= ms);
    }

    fn gen_expr(&mut self, expr: &Expr, symbols: &SymbolTable, Ghost(fns): Ghost<Set<Seq<char>>>)
        requires
            cg_step_ok(old(self).model(), fns),
            expr_gen_ok(expr@, symbols@, fns),
        ensures
            final(self).model() == sgen_expr(old(self).model(), expr@, old(self).globals(), symbols@),
            final(self).model().loops == old(self).model().loops,
            cg_step_ok(final(self).model(), fns),
            final(self).model().code.len() >= old(self).model().code.len(),
            final(self).globals() == old(self).globals(),
            final(self).functions == old(self).functions,
        decreases expr,
    {
        match expr {
            Expr::Int(n) => {
                self.emit(0x01);
                self.emit_u8(*n as usize);
                assert(self.model() =~= emit_all(old(self).model(), seq![0x01u8, (*n as usize) as u8]));
            },
            Expr::Var(name) => {
                let slot = symbols.lookup(name.as_str());
                self.emit(0x20);
                self.emit_u8(slot);
                assert(self.model() =~= emit_all(old(self).model(), seq![0x20u8, slot as u8]));
            },
            Expr::Unary { op, operand } => {
                match op {
                    UnaryOp::Not => {
                        // not x -> x, push 0, eq (x == 0)
                        self.gen_expr(operand, symbols, Ghost(fns));
                        self.emit3(0x01, 0, 0x30);
                    },
                    UnaryOp::Neg => {
                        // -x -> push 0, x, sub (0 - x)
                        self.emit(0x01);
                        self.emit(0);
                        assert(self.model() =~= emit_all(old(self).model(), seq![0x01u8, 0u8]));
                        self.gen_expr(operand, symbols, Ghost(fns));
                        self.emit(0x03);
                    },
                }
            },
            Expr::Binary { left, op, right } => {
                let left_type = infer_expression_type(left, &self.globals);
                let right_type = infer_expression_type(right, &self.globals);
                let is_str = left_type == Type::Str || right_type == Type::Str;
                self.gen_expr(left, symbols, Ghost(fns));
                let ghost m1 = self.model();
                match op {
                    BinOp::And => {
                        // short-circuit: left, JMP_IF_FALSE f, right, JMP end, f: PUSH 0, end:
                        self.emit(0x41);
                        let jmp = self.code.len();
                        self.emit(0);
                        assert(self.model() =~= emit_all(m1, seq![0x41u8, 0u8]));
                        self.gen_expr(right, symbols, Ghost(fns));
                        let ghost m3 = self.model();
                        self.emit(0x40);
                        let jmp_end = self.code.len();
                        self.emit(0);
                        assert(self.model() =~= emit_all(m3, seq![0x40u8, 0u8]));
                        let ghost m4 = self.model();
                        let f = self.code.len();
                        self.emit(0x01);
                        self.emit(0);
                        assert(self.model() =~= emit_all(m4, seq![0x01u8, 0u8]));
                        let end = self.code.len();
                        self.patch_u8(jmp_end, end);
                        self.patch_u8(jmp, f);
                    },
                    BinOp::Or => {
                        // short-circuit: left, JMP_IF_FALSE r, PUSH 1, JMP end, r: right, end:
                        self.emit(0x41);
                        let jmp = self.code.len();
                        self.emit(0);
                        self.emit(0x01);
                        self.emit(1);
                        self.emit(0x40);
                        let jmp_end = self.code.len();
                        self.emit(0);
                        assert(self.model() =~= emit_all(m1, seq![0x41u8, 0u8, 0x01u8, 1u8, 0x40u8, 0u8]));
                        let r = self.code.len();
                        self.gen_expr(right, symbols, Ghost(fns));
                        let end = self.code.len();
                        self.patch_u8(jmp, r);
                        self.patch_u8(jmp_end, end);
                    },
                    _ => {
                        self.gen_expr(right, symbols, Ghost(fns));
                        match op {
                            BinOp::Add => {
                                if is_str {
                                    self.emit(0x55);  // STRCONCAT
                                } else {
                                    self.emit(0x02);
                                }
                            },
                            BinOp::Sub => self.emit(0x03),
                            BinOp::Mul => self.emit(0x04),
                            BinOp::Div => self.emit(0x05),
                            BinOp::Lt => {
                                if is_str {
                                    self.emit4(0x53, 0x01, 0, 0x31);
                                } else {
                                    self.emit(0x31);
                                }
                            },
                            BinOp::Gt => {
                                if is_str {
                                    self.emit4(0x53, 0x01, 0, 0x32);
                                } else {
                                    self.emit(0x32);
                                }
                            },
                            BinOp::EqEq => {
                                if is_str {
                                    self.emit4(0x53, 0x01, 0, 0x30);
                                } else {
                                    self.emit(0x30);
                                }
                            },
                            BinOp::Le => {
                                if is_str {
                                    self.emit4(0x53, 0x01, 0, 0x34);
                                } else {
                                    self.emit(0x34);
                                }
                            },
                            BinOp::Ge => {
                                if is_str {
                                    self.emit4(0x53, 0x01, 0, 0x35);
                                } else {
                                    self.emit(0x35);
                                }
                            },
                            BinOp::And | BinOp::Or => {},
                        }
                    },
                }
            },
            Expr::Call { name, args } => {
                proof {
                    assert(decreases_to!(*expr => (*expr)->Call_args));
                    assert(decreases_to!(*args => args@));
                    assert(crate::ast::exprs_model(args@) =~= (expr@)->Call_args);
                    assert forall|i: int| 0 <= i < args.len() implies expr_gen_ok(
                        #[trigger] args@[i]@,
                        symbols@,
                        fns,
                    ) by {
                        assert(crate::ast::exprs_model(args@)[i] == args@[i]@);
                    }
                }
                self.gen_exprs(args, symbols, Ghost(fns));
                self.emit(0x60);  // CALL
                let pos = self.code.len();
                self.emit(0);  // placeholder
                let ghost before = self.model();
                self.pending_calls.push((pos, name.clone()));
                assert(self.model() =~= CGModel {
                    pending: before.pending.push((pos as int, name@)),
                    ..before
                });
            },
            Expr::NativeCall { id, args } => {
                proof {
                    assert(decreases_to!(*expr => (*expr)->NativeCall_args));
                    assert(decreases_to!(*args => args@));
                    assert(crate::ast::exprs_model(args@) =~= (expr@)->NativeCall_args);
                    assert forall|i: int| 0 <= i < args.len() implies expr_gen_ok(
                        #[trigger] args@[i]@,
                        symbols@,
                        fns,
                    ) by {
                        assert(crate::ast::exprs_model(args@)[i] == args@[i]@);
                    }
                }
                self.gen_exprs(args, symbols, Ghost(fns));
                if *id == 30 {
                    self.emit(0x07);  // ARRLEN (string/array length)
                } else {
                    self.emit(0x50);  // CALL_NATIVE
                    self.emit_u8(args.len());
                    self.emit_u8(*id as usize);
                    assert(self.model().code =~= sgen_exprs(
                        old(self).model(),
                        crate::ast::exprs_model(args@),
                        old(self).globals(),
                        symbols@,
                    ).code + seq![0x50u8, args.len() as u8, *id]);
                }
            },
            Expr::Str(s) => {
                self.gen_str_lit(s);
            },
            Expr::ArrLit(elements) => {
                proof {
                    assert(decreases_to!(*expr => (*expr)->ArrLit_0));
                    assert(decreases_to!(*elements => elements@));
                    assert(crate::ast::exprs_model(elements@) =~= (expr@)->ArrLit_0);
                    assert forall|i: int| 0 <= i < elements.len() implies expr_gen_ok(
                        #[trigger] elements@[i]@,
                        symbols@,
                        fns,
                    ) by {
                        assert(crate::ast::exprs_model(elements@)[i] == elements@[i]@);
                    }
                }
                // Push elements in reverse order so ArrLit stores them correctly
                self.gen_exprs_rev(elements, symbols, Ghost(fns));
                self.emit(0x08);  // ARRLIT
                self.emit_u8(elements.len());
                assert(self.model().code =~= sgen_exprs_rev(
                    old(self).model(),
                    crate::ast::exprs_model(elements@),
                    old(self).globals(),
                    symbols@,
                ).code + seq![0x08u8, elements.len() as u8]);
            },
            Expr::ArrIndex { arr, index } => {
                self.gen_expr(arr, symbols, Ghost(fns));
                self.gen_expr(index, symbols, Ghost(fns));
                self.emit(0x22);  // ARRLOAD
            },
        }
    }

    fn gen_stmts(&mut self, ss: &Vec<Stmt>, symbols: &SymbolTable, Ghost(fns): Ghost<Set<Seq<char>>>)
        requires
            cg_step_ok(old(self).model(), fns),
            forall|i: int|
                0 <= i < ss.len() ==> stmt_gen_ok(
                    #[trigger] ss@[i]@,
                    symbols@,
                    fns,
                    old(self).model().loops.len() > 0,
                ),
        ensures
            final(self).model() == sgen_stmts(
                old(self).model(),
                crate::ast::stmts_model(ss@),
                old(self).globals(),
                symbols@,
            ),
            final(self).model().loops.len() == old(self).model().loops.len(),
            cg_step_ok(final(self).model(), fns),
            final(self).model().code.len() >= old(self).model().code.len(),
            final(self).globals() == old(self).globals(),
            final(self).functions == old(self).functions,
        decreases ss@,
    {
        let ghost ms = crate::ast::stmts_model(ss@);
        let mut i: usize = 0;
        while i < ss.len()
            invariant
                i <= ss.len(),
                ms == crate::ast::stmts_model(ss@),
                forall|j: int|
                    0 <= j < ss.len() ==> stmt_gen_ok(
                        #[trigger] ss@[j]@,
                        symbols@,
                        fns,
                        old(self).model().loops.len() > 0,
                    ),
                self.model() == sgen_stmts(
                    old(self).model(),
                    ms.subrange(0, i as int),
                    old(self).globals(),
                    symbols@,
                ),
                self.model().loops.len() == old(self).model().loops.len(),
                cg_step_ok(self.model(), fns),
                self.model().code.len() >= old(self).model().code.len(),
                self.globals() == old(self).globals(),
                self.functions == old(self).functions,
            decreases ss.len() - i,
        {
            proof {
                assert(decreases_to!(ss@ => ss@[i as int]));
            }
            self.gen_stmt(&ss[i], symbols, Ghost(fns));
            proof {
                let sub = ms.subrange(0, i + 1);
                assert(sub.subrange(0, i as int) =~= ms.subrange(0, i as int));
                assert(sub[i as int] == ss@[i as int]@);
            }
            i += 1;
        }
        assert(ms.subrange(0, ss.len() as int) =~= ms);
    }

    fn gen_while(
        &mut self,
        stmt: &Stmt,
        condition: &Expr,
        body: &Vec<Stmt>,
        symbols: &SymbolTable,
        Ghost(fns): Ghost<Set<Seq<char>>>,
    )
        requires
            *stmt == (Stmt::While { condition: *condition, body: *body }),
            cg_step_ok(old(self).model(), fns),
            stmt_gen_ok(stmt@, symbols@, fns, old(self).model().loops.len() > 0),
        ensures
            final(self).model() == sgen_stmt(old(self).model(), stmt@, old(self).globals(), symbols@),
            final(self).model().loops.len() == old(self).model().loops.len(),
            cg_step_ok(final(self).model(), fns),
            final(self).model().code.len() >= old(self).model().code.len(),
            final(self).globals() == old(self).globals(),
            final(self).functions == old(self).functions,
        decreases stmt, 0nat,
    {
        let ghost m0 = self.model();
        let loop_start = self.code.len();
        // Push loop context
        self.loop_stack.push(LoopContext { start: loop_start, breaks: Vec::new() });
        assert(self.model().loops[m0.loops.len() as int].1 =~= Seq::<int>::empty());
        assert(self.model().loops =~= m0.loops.push((loop_start as int, Seq::empty())));
        assert(self.model() =~= CGModel {
            loops: m0.loops.push((loop_start as int, Seq::empty())),
            ..m0
        });
        proof {
            assert forall|i: int| 0 <= i < body.len() implies stmt_gen_ok(
                #[trigger] body@[i]@,
                symbols@,
                fns,
                self.model().loops.len() > 0,
            ) by {
                assert((stmt@)->While_body[i] == body@[i]@);
            }
            assert(crate::ast::stmts_model(body@) =~= (stmt@)->While_body);
            assert(decreases_to!(*stmt => (*stmt)->While_body));
            assert(decreases_to!(*body => body@));
        }
        self.gen_expr(condition, symbols, Ghost(fns));
        self.emit(0x41);
        let jmp_out_pos = self.code.len();
        self.emit(0);
        self.gen_stmts(body, symbols, Ghost(fns));
        let ghost m5 = self.model();
        self.emit(0x40);
        self.emit_u8(loop_start);
        assert(self.model() =~= emit_all(m5, seq![0x40u8, loop_start as u8]));
        let loop_end = self.code.len();
        self.patch_u8(jmp_out_pos, loop_end);
        let ghost m7 = self.model();
        // Pop loop context and patch all breaks
        if let Some(ctx) = self.loop_stack.pop() {
            let ghost bs = m7.loops[m7.loops.len() - 1].1;
            assert(bs =~= Seq::new(ctx.breaks@.len(), |j: int| ctx.breaks@[j] as int));
            let ghost code7 = self.code@;
            assert(self.model().loops =~= m7.loops.subrange(0, m7.loops.len() - 1));
            let mut j: usize = 0;
            while j < ctx.breaks.len()
                invariant
                    j <= ctx.breaks.len(),
                    bs == Seq::new(ctx.breaks@.len(), |k: int| ctx.breaks@[k] as int),
                    forall|k: int| 0 <= k < bs.len() ==> 0 <= #[trigger] bs[k] < code7.len(),
                    self.code@ == patch_all(code7, bs.subrange(0, j as int), loop_end as int),
                    self.code@.len() == code7.len(),
                    self.model().pending == m7.pending,
                    self.model().loops == m7.loops.subrange(0, m7.loops.len() - 1),
                    self.globals() == old(self).globals(),
                    self.functions == old(self).functions,
                decreases ctx.breaks.len() - j,
            {
                let break_pos = ctx.breaks[j];
                assert(bs[j as int] == break_pos);
                self.patch_u8(break_pos, loop_end);
                assert(bs.subrange(0, j + 1).subrange(0, j as int) =~= bs.subrange(0, j as int));
                j += 1;
            }
            assert(bs.subrange(0, bs.len() as int) =~= bs);
            assert(self.model() =~= CGModel {
                code: patch_all(m7.code, bs, loop_end as int),
                loops: m7.loops.subrange(0, m7.loops.len() - 1),
                ..m7
            });
        }
    }

    fn gen_if(
        &mut self,
        stmt: &Stmt,
        condition: &Expr,
        then_body: &Vec<Stmt>,
        else_body: &Vec<Stmt>,
        symbols: &SymbolTable,
        Ghost(fns): Ghost<Set<Seq<char>>>,
    )
        requires
            *stmt == (Stmt::If {
                condition: *condition,
                then_body: *then_body,
                else_body: *else_body,
            }),
            cg_step_ok(old(self).model(), fns),
            stmt_gen_ok(stmt@, symbols@, fns, old(self).model().loops.len() > 0),
        ensures
            final(self).model() == sgen_stmt(old(self).model(), stmt@, old(self).globals(), symbols@),
            final(self).model().loops.len() == old(self).model().loops.len(),
            cg_step_ok(final(self).model(), fns),
            final(self).model().code.len() >= old(self).model().code.len(),
            final(self).globals() == old(self).globals(),
            final(self).functions == old(self).functions,
        decreases stmt, 0nat,
    {
        proof {
            assert forall|i: int| 0 <= i < then_body.len() implies stmt_gen_ok(
                #[trigger] then_body@[i]@,
                symbols@,
                fns,
                old(self).model().loops.len() > 0,
            ) by {
                assert((stmt@)->If_then_body[i] == then_body@[i]@);
            }
            assert forall|i: int| 0 <= i < else_body.len() implies stmt_gen_ok(
                #[trigger] else_body@[i]@,
                symbols@,
                fns,
                old(self).model().loops.len() > 0,
            ) by {
                assert((stmt@)->If_else_body[i] == else_body@[i]@);
            }
            assert(crate::ast::stmts_model(then_body@) =~= (stmt@)->If_then_body);
            assert(crate::ast::stmts_model(else_body@) =~= (stmt@)->If_else_body);
            assert(decreases_to!(*stmt => (*stmt)->If_then_body));
            assert(decreases_to!(*then_body => then_body@));
            assert(decreases_to!(*stmt => (*stmt)->If_else_body));
            assert(decreases_to!(*else_body => else_body@));
        }
        // Evaluate condition
        self.gen_expr(condition, symbols, Ghost(fns));
        // Jump to ELSE if false
        self.emit(0x41);  // JMP_IF_FALSE
        let else_jump_pos = self.code.len();
        self.emit(0);  // placeholder
        // THEN block
        self.gen_stmts(then_body, symbols, Ghost(fns));
        // Jump to END of THIS IF
        self.emit(0x40);  // JMP
        let end_jump_pos = self.code.len();
        self.emit(0);  // placeholder
        // Patch ELSE target (start of else_body)
        let else_start = self.code.len();
        self.patch_u8(else_jump_pos, else_start);
        // Generate ELSE / ELSEIF body
        self.gen_stmts(else_body, symbols, Ghost(fns));
        // Patch END target (after entire IF)
        let end = self.code.len();
        self.patch_u8(end_jump_pos, end);
    }

    fn gen_stmt(&mut self, stmt: &Stmt, symbols: &SymbolTable, Ghost(fns): Ghost<Set<Seq<char>>>)
        requires
            cg_step_ok(old(self).model(), fns),
            stmt_gen_ok(stmt@, symbols@, fns, old(self).model().loops.len() > 0),
        ensures
            final(self).model() == sgen_stmt(old(self).model(), stmt@, old(self).globals(), symbols@),
            final(self).model().loops.len() == old(self).model().loops.len(),
            cg_step_ok(final(self).model(), fns),
            final(self).model().code.len() >= old(self).model().code.len(),
            final(self).globals() == old(self).globals(),
            final(self).functions == old(self).functions,
        decreases stmt, 1nat,
    {
        match stmt {
            Stmt::Assign { name, value } => {
                self.gen_expr(value, symbols, Ghost(fns));
                let slot = symbols.lookup(name.as_str());
                self.emit(0x21);
                self.emit_u8(slot);
                assert(self.model().code =~= sgen_expr(
                    old(self).model(),
                    value@,
                    old(self).globals(),
                    symbols@,
                ).code + seq![0x21u8, slot as u8]);
            },
            Stmt::ArrAssign { name, index, value } => {
                let slot = symbols.lookup(name.as_str());
                self.emit(0x20);  // LOAD handle
                self.emit_u8(slot);
                assert(self.model() =~= emit_all(old(self).model(), seq![0x20u8, slot as u8]));
                self.gen_expr(index, symbols, Ghost(fns));
                self.gen_expr(value, symbols, Ghost(fns));
                self.emit(0x23);  // ARRSTORE
            },
            Stmt::Print(expr) => {
                if infer_expression_type(expr, &self.globals) == Type::Str {
                    if let Expr::Str(s) = expr {
                        self.gen_str_lit(s);
                    } else {
                        self.gen_expr(expr, symbols, Ghost(fns));
                    }
                    self.emit(0x52);  // PRINT_STR
                } else {
                    self.gen_expr(expr, symbols, Ghost(fns));
                    self.emit(0x51);
                }
            },
            Stmt::While { condition, body } => {
                self.gen_while(stmt, condition, body, symbols, Ghost(fns));
            },
            Stmt::If { condition, then_body, else_body } => {
                self.gen_if(stmt, condition, then_body, else_body, symbols, Ghost(fns));
            },
            Stmt::Func { name: _, params, body } => {
                let ghost ps = crate::ast::names_model(params@);
                let ghost m0 = self.model();
                // parameters already on stack: store into memory slots
                let n = params.len();
                let mut k: usize = n;
                assert(ps == (stmt@)->Func_params);
                assert(ps.subrange(n as int, n as int) =~= Seq::<Seq<char>>::empty());
                while k > 0
                    invariant
                        k <= n,
                        n == params.len(),
                        ps == crate::ast::names_model(params@),
                        forall|i: int| 0 <= i < ps.len() ==> symbols@.contains_key(#[trigger] ps[i]),
                        self.model() == emit_all(m0, params_code(ps.subrange(k as int, n as int), symbols@)),
                        cg_step_ok(self.model(), fns),
                        self.globals() == old(self).globals(),
                        self.functions == old(self).functions,
                    decreases k,
                {
                    assert(ps[k - 1] == params@[k - 1]@);
                    let slot = symbols.lookup(params[k - 1].as_str());
                    self.emit(0x21);
                    self.emit_u8(slot);
                    proof {
                        let sub = ps.subrange(k - 1, n as int);
                        assert(sub.subrange(1, sub.len() as int) =~= ps.subrange(k as int, n as int));
                        assert(self.model().code =~= m0.code + params_code(sub, symbols@));
                        assert(self.model() =~= emit_all(m0, params_code(sub, symbols@)));
                    }
                    k -= 1;
                }
                assert(ps.subrange(0, n as int) =~= ps);
                proof {
                    assert forall|i: int| 0 <= i < body.len() implies stmt_gen_ok(
                        #[trigger] body@[i]@,
                        symbols@,
                        fns,
                        self.model().loops.len() > 0,
                    ) by {
                        assert((stmt@)->Func_body[i] == body@[i]@);
                    }
                    assert(crate::ast::stmts_model(body@) =~= (stmt@)->Func_body);
                    assert(decreases_to!(*stmt => (*stmt)->Func_body));
                    assert(decreases_to!(*body => body@));
                }
                self.gen_stmts(body, symbols, Ghost(fns));
                // implicit return 0 if none
                self.emit3(0x01, 0, 0x61);  // RET
            },
            Stmt::Return(expr) => {
                self.gen_expr(expr, symbols, Ghost(fns));
                self.emit(0x61);  // RET
            },
            Stmt::Native { id, args } => {
                proof {
                    assert(crate::ast::exprs_model(args@) =~= (stmt@)->Native_args);
                    assert forall|i: int| 0 <= i < args.len() implies expr_gen_ok(
                        #[trigger] args@[i]@,
                        symbols@,
                        fns,
                    ) by {
                        assert(crate::ast::exprs_model(args@)[i] == args@[i]@);
                    }
                }
                self.gen_exprs(args, symbols, Ghost(fns));
                if *id == 30 {
                    self.emit(0x07);  // ARRLEN (string/array length)
                } else {
                    self.emit(0x50);  // CALL_NATIVE
                    self.emit_u8(args.len());
                    self.emit_u8(*id as usize);
                    assert(self.model().code =~= sgen_exprs(
                        old(self).model(),
                        crate::ast::exprs_model(args@),
                        old(self).globals(),
                        symbols@,
                    ).code + seq![0x50u8, args.len() as u8, *id]);
                }
            },
            Stmt::Break => {
                let n = self.loop_stack.len();
                if n > 0 {
                    self.emit(0x40);  // JMP
                    let pos = self.code.len();
                    self.emit(0);  // placeholder
                    let ghost m2 = self.model();
                    let mut ctx = self.loop_stack.pop().unwrap();
                    ctx.breaks.push(pos);
                    self.loop_stack.push(ctx);
                    proof {
                        let c = m2.loops[m2.loops.len() - 1];
                        assert(self.model().loops[n - 1].1 =~= c.1.push(pos as int));
                        assert(self.model().loops =~= m2.loops.update(
                            m2.loops.len() - 1,
                            (c.0, c.1.push(pos as int)),
                        ));
                        assert(self.model() =~= CGModel {
                            loops: m2.loops.update(m2.loops.len() - 1, (c.0, c.1.push(pos as int))),
                            ..m2
                        });
                    }
                }
            },
            Stmt::Continue => {
                let n = self.loop_stack.len();
                if n > 0 {
                    let start = self.loop_stack[n - 1].start;
                    self.emit(0x40);  // JMP
                    self.emit_u8(start);  // jump to loop start
                    assert(self.model() =~= emit_all(old(self).model(), seq![0x40u8, start as u8]));
                }
            },
        }
    }

    /// Generates the bytecode of a program: main code first, then `HALT`, then
    /// the functions, with every call patched to its callee's address.
    pub fn generate(self, program: &[Stmt], symbols: &SymbolTable) -> (r: Vec<u8>)
        requires
            cg_wf(self.model()),
            self.model().loops.len() == 0,
            pending_in(self.model(), self.fns().dom() + func_names(crate::ast::stmts_model(program@))),
            forall|i: int|
                0 <= i < program@.len() ==> stmt_gen_ok(
                    #[trigger] program@[i]@,
                    symbols@,
                    self.fns().dom() + func_names(crate::ast::stmts_model(program@)),
                    false,
                ),
        ensures
            r@ == spec_generate(
                self.model(),
                self.fns(),
                crate::ast::stmts_model(program@),
                self.globals(),
                symbols@,
            ),
    {
        let mut cg = self;
        let ghost prog = crate::ast::stmts_model(program@);
        let ghost fset = cg.fns().dom() + func_names(prog);
        let ghost m0 = cg.model();
        let ghost f0 = cg.fns();
        let ghost g = cg.globals();
        // compile main first, skip functions
        let mut i: usize = 0;
        while i < program.len()
            invariant
                i <= program@.len(),
                prog == crate::ast::stmts_model(program@),
                forall|j: int| 0 <= j < program@.len() ==> stmt_gen_ok(#[trigger] program@[j]@, symbols@, fset, false),
                cg.model() == sgen_main(m0, prog.subrange(0, i as int), g, symbols@),
                cg.model().loops.len() == 0,
                cg_step_ok(cg.model(), fset),
                cg.globals() == g,
                cg.fns() == f0,
            decreases program@.len() - i,
        {
            assert(prog.subrange(0, i + 1).subrange(0, i as int) =~= prog.subrange(0, i as int));
            assert(prog[i as int] == program@[i as int]@);
            if let Stmt::Func { .. } = &program[i] {
            } else {
                cg.gen_stmt(&program[i], symbols, Ghost(fset));
            }
            i += 1;
        }
        assert(prog.subrange(0, program@.len() as int) =~= prog);
        cg.emit(0xFF);  // HALT
        let ghost m1 = cg.model();
        // compile functions after main
        let mut i: usize = 0;
        while i < program.len()
            invariant
                i <= program@.len(),
                prog == crate::ast::stmts_model(program@),
                forall|j: int| 0 <= j < program@.len() ==> stmt_gen_ok(#[trigger] program@[j]@, symbols@, fset, false),
                (cg.model(), cg.fns()) == sgen_funcs(m1, f0, prog.subrange(0, i as int), g, symbols@),
                cg.model().loops.len() == 0,
                cg_step_ok(cg.model(), fset),
                cg.globals() == g,
                forall|n: Seq<char>| f0.contains_key(n) ==> #[trigger] cg.fns().contains_key(n),
                forall|j: int| 0 <= j < i && (#[trigger] prog[j]) is Func ==> cg.fns().contains_key(prog[j]->Func_name),
            decreases program@.len() - i,
        {
            assert(prog.subrange(0, i + 1).subrange(0, i as int) =~= prog.subrange(0, i as int));
            assert(prog[i as int] == program@[i as int]@);
            if let Stmt::Func { name, .. } = &program[i] {
                let addr = cg.code.len();
                cg.functions.insert(name.clone(), addr);
                cg.gen_stmt(&program[i], symbols, Ghost(fset));
            }
            i += 1;
        }
        assert(prog.subrange(0, program@.len() as int) =~= prog);
        let ghost m2 = cg.model();
        let ghost f2 = cg.fns();
        assert forall|n: Seq<char>| fset.contains(n) implies #[trigger] f2.contains_key(n) by {
            if !f0.contains_key(n) {
                let j = choose|j: int| 0 <= j < prog.len() && prog[j] is Func && (prog[j])->Func_name == n;
            }
        }
        // patch CALL targets
        let mut k: usize = 0;
        while k < cg.pending_calls.len()
            invariant
                k <= cg.pending_calls@.len(),
                cg.pending_calls@.len() == m2.pending.len(),
                cg.model().pending == m2.pending,
                cg_wf(m2),
                pending_in(m2, fset),
                forall|n: Seq<char>| fset.contains(n) ==> #[trigger] f2.contains_key(n),
                cg.fns() == f2,
                cg.code@ == patch_calls(m2.code, m2.pending.subrange(0, k as int), f2),
                cg.code@.len() == m2.code.len(),
            decreases cg.pending_calls@.len() - k,
        {
            let pos = cg.pending_calls[k].0;
            assert(m2.pending[k as int] == (pos as int, cg.pending_calls@[k as int].1@));
            assert(0 <= m2.pending[k as int].0 < m2.code.len());
            let addr = match cg.functions.get(&cg.pending_calls[k].1) {
                Some(a) => *a,
                None => 0,
            };
            cg.code.set(pos, addr as u8);
            assert(m2.pending.subrange(0, k + 1).subrange(0, k as int) =~= m2.pending.subrange(0, k as int));
            assert(cg.model().pending =~= m2.pending);
            k += 1;
        }
        assert(m2.pending.subrange(0, m2.pending.len() as int) =~= m2.pending);
        cg.code
    }
}

/// Whether every parameter has a slot.
fn params_have_slots(params: &Vec<String>, symbols: &SymbolTable) -> (b: bool)
    ensures
        b == forall|k: int| 0 <= k < params@.len() ==> symbols@.contains_key(#[trigger] names_model(params@)[k]),
{
    let mut i: usize = 0;
    while i < params.len()
        invariant
            i <= params.len(),
            forall|k: int| 0 <= k < i ==> symbols@.contains_key(#[trigger] names_model(params@)[k]),
        decreases params.len() - i,
    {
        assert(names_model(params@)[i as int] == params@[i as int]@);
        if !symbols.all().contains_key(&params[i]) {
            return false;
        }
        i += 1;
    }
    true
}

impl CodeGen {
    /// Whether the name is that of a function compiled so far or defined
    /// at the top level of the program.
    fn is_fn_name(&self, name: &String, program: &[Stmt]) -> (b: bool)
        ensures
            b == (self.fns().dom() + func_names(crate::ast::stmts_model(program@))).contains(name@),
    {
        let ghost prog = crate::ast::stmts_model(program@);
        if self.functions.contains_key(name) {
            return true;
        }
        let mut i: usize = 0;
        while i < program.len()
            invariant
                i <= program@.len(),
                prog == crate::ast::stmts_model(program@),
                forall|k: int| 0 <= k < i ==> !((#[trigger] prog[k]) is Func && prog[k]->Func_name == name@),
            decreases program@.len() - i,
        {
            assert(prog[i as int] == program@[i as int]@);
            if let Stmt::Func { name: n, .. } = &program[i] {
                if *n == *name {
                    return true;
                }
            }
            i += 1;
        }
        false
    }

    /// Whether the expression meets `expr_gen_ok` for the program's
    /// function names.
    fn expr_can_gen(&self, e: &Expr, symbols: &SymbolTable, program: &[Stmt]) -> (b: bool)
        ensures
            b == expr_gen_ok(e@, symbols@, self.fns().dom() + func_names(crate::ast::stmts_model(program@))),
        decreases e,
    {
        match e {
            Expr::Var(name) => symbols.all().contains_key(name),
            Expr::Binary { left, right, .. } => self.expr_can_gen(left, symbols, program)
                && self.expr_can_gen(right, symbols, program),
            Expr::Unary { operand, .. } => self.expr_can_gen(operand, symbols, program),
            Expr::Call { name, args } => {
                proof {
                    assert(decreases_to!(*e => (*e)->Call_args));
                    assert(decreases_to!(*args => args@));
                    assert(crate::ast::exprs_model(args@) =~= (e@)->Call_args);
                }
                self.is_fn_name(name, program) && self.exprs_can_gen(args, symbols, program)
            },
            Expr::NativeCall { args, .. } => {
                proof {
                    assert(decreases_to!(*e => (*e)->NativeCall_args));
                    assert(decreases_to!(*args => args@));
                    assert(crate::ast::exprs_model(args@) =~= (e@)->NativeCall_args);
                }
                self.exprs_can_gen(args, symbols, program)
            },
            Expr::ArrLit(items) => {
                proof {
                    assert(decreases_to!(*e => (*e)->ArrLit_0));
                    assert(decreases_to!(*items => items@));
                    assert(crate::ast::exprs_model(items@) =~= (e@)->ArrLit_0);
                }
                self.exprs_can_gen(items, symbols, program)
            },
            Expr::ArrIndex { arr, index } => self.expr_can_gen(arr, symbols, program)
                && self.expr_can_gen(index, symbols, program),
            Expr::Int(_) | Expr::Str(_) => true,
        }
    }

    fn exprs_can_gen(&self, es: &Vec<Expr>, symbols: &SymbolTable, program: &[Stmt]) -> (b: bool)
        ensures
            b == forall|i: int| 0 <= i < es@.len() ==> expr_gen_ok(
                #[trigger] crate::ast::exprs_model(es@)[i],
                symbols@,
                self.fns().dom() + func_names(crate::ast::stmts_model(program@)),
            ),
        decreases es@,
    {
        let ghost fset = self.fns().dom() + func_names(crate::ast::stmts_model(program@));
        let mut i: usize = 0;
        while i < es.len()
            invariant
                i <= es.len(),
                fset == self.fns().dom() + func_names(crate::ast::stmts_model(program@)),
                forall|k: int| 0 <= k < i ==> expr_gen_ok(#[trigger] crate::ast::exprs_model(es@)[k], symbols@, fset),
            decreases es.len() - i,
        {
            proof {
                assert(decreases_to!(es@ => es@[i as int]));
            }
            if !self.expr_can_gen(&es[i], symbols, program) {
                assert(!expr_gen_ok(crate::ast::exprs_model(es@)[i as int], symbols@, fset));
                return false;
            }
            i += 1;
        }
        true
    }

    /// Whether the statement meets `stmt_gen_ok` for the program's function
    /// names.
    fn stmt_can_gen(&self, st: &Stmt, symbols: &SymbolTable, program: &[Stmt], in_loop: bool) -> (b: bool)
        ensures
            b == stmt_gen_ok(st@, symbols@, self.fns().dom() + func_names(crate::ast::stmts_model(program@)), in_loop),
        decreases st,
    {
        match st {
            Stmt::Print(e) => self.expr_can_gen(e, symbols, program),
            Stmt::Assign { name, value } => symbols.all().contains_key(name) && self.expr_can_gen(value, symbols, program),
            Stmt::ArrAssign { name, index, value } => symbols.all().contains_key(name)
                && self.expr_can_gen(index, symbols, program) && self.expr_can_gen(value, symbols, program),
            Stmt::While { condition, body } => {
                proof {
                    assert(crate::ast::stmts_model(body@) =~= (st@)->While_body);
                    assert(decreases_to!(*st => (*st)->While_body));
                    assert(decreases_to!(*body => body@));
                }
                self.expr_can_gen(condition, symbols, program) && self.body_can_gen(body, symbols, program, true)
            },
            Stmt::If { condition, then_body, else_body } => {
                proof {
                    assert(crate::ast::stmts_model(then_body@) =~= (st@)->If_then_body);
                    assert(crate::ast::stmts_model(else_body@) =~= (st@)->If_else_body);
                    assert(decreases_to!(*st => (*st)->If_then_body));
                    assert(decreases_to!(*st => (*st)->If_else_body));
                    assert(decreases_to!(*then_body => then_body@));
                    assert(decreases_to!(*else_body => else_body@));
                }
                self.expr_can_gen(condition, symbols, program)
                    && self.body_can_gen(then_body, symbols, program, in_loop)
                    && self.body_can_gen(else_body, symbols, program, in_loop)
            },
            Stmt::Func { params, body, .. } => {
                proof {
                    assert(crate::ast::stmts_model(body@) =~= (st@)->Func_body);
                    assert(names_model(params@) == (st@)->Func_params);
                    assert(decreases_to!(*st => (*st)->Func_body));
                    assert(decreases_to!(*body => body@));
                }
                if !params_have_slots(params, symbols) {
                    return false;
                }
                self.body_can_gen(body, symbols, program, in_loop)
            },
            Stmt::Return(e) => self.expr_can_gen(e, symbols, program),
            Stmt::Native { args, .. } => {
                assert(crate::ast::exprs_model(args@) =~= (st@)->Native_args);
                self.exprs_can_gen(args, symbols, program)
            },
            Stmt::Break | Stmt::Continue => in_loop,
        }
    }

    fn body_can_gen(&self, body: &Vec<Stmt>, symbols: &SymbolTable, program: &[Stmt], in_loop: bool) -> (b: bool)
        ensures
            b == forall|i: int| 0 <= i < body@.len() ==> stmt_gen_ok(
                #[trigger] crate::ast::stmts_model(body@)[i],
                symbols@,
                self.fns().dom() + func_names(crate::ast::stmts_model(program@)),
                in_loop,
            ),
        decreases body@,
    {
        let ghost fset = self.fns().dom() + func_names(crate::ast::stmts_model(program@));
        let mut i: usize = 0;
        while i < body.len()
            invariant
                i <= body.len(),
                fset == self.fns().dom() + func_names(crate::ast::stmts_model(program@)),
                forall|k: int| 0 <= k < i ==> stmt_gen_ok(#[trigger] crate::ast::stmts_model(body@)[k], symbols@, fset, in_loop),
            decreases body.len() - i,
        {
            proof {
                assert(decreases_to!(body@ => body@[i as int]));
            }
            if !self.stmt_can_gen(&body[i], symbols, program, in_loop) {
                assert(!stmt_gen_ok(crate::ast::stmts_model(body@)[i as int], symbols@, fset, in_loop));
                return false;
            }
            i += 1;
        }
        true
    }

    /// Whether `generate` can run on the program with these symbols: no loop
    /// is open, every call still to be patched lies in the code and names a
    /// function, every variable the program uses has a slot, every function
    /// it calls is compiled or defined, and `break` and `continue` stand
    /// only inside loops.
    pub fn can_generate(&self, program: &[Stmt], symbols: &SymbolTable) -> (b: bool)
        ensures
            b == (cg_wf(self.model()) && self.model().loops.len() == 0 && pending_in(
                self.model(),
                self.fns().dom() + func_names(crate::ast::stmts_model(program@)),
            ) && forall|i: int|
                0 <= i < program@.len() ==> stmt_gen_ok(
                    #[trigger] program@[i]@,
                    symbols@,
                    self.fns().dom() + func_names(crate::ast::stmts_model(program@)),
                    false,
                )),
    {
        let ghost fset = self.fns().dom() + func_names(crate::ast::stmts_model(program@));
        let ghost m = self.model();
        if self.loop_stack.len() != 0 {
            return false;
        }
        assert(m.loops =~= Seq::<(int, Seq<int>)>::empty());
        let mut k: usize = 0;
        while k < self.pending_calls.len()
            invariant
                k <= self.pending_calls@.len(),
                m == self.model(),
                fset == self.fns().dom() + func_names(crate::ast::stmts_model(program@)),
                m.loops.len() == 0,
                forall|j: int| 0 <= j < k ==> 0 <= #[trigger] m.pending[j].0 < m.code.len() && fset.contains(m.pending[j].1),
            decreases self.pending_calls@.len() - k,
        {
            assert(m.pending[k as int] == (self.pending_calls@[k as int].0 as int, self.pending_calls@[k as int].1@));
            assert(m.code.len() == self.code.len());
            if self.pending_calls[k].0 >= self.code.len() {
                assert(!(0 <= m.pending[k as int].0 < m.code.len()));
                return false;
            }
            if !self.is_fn_name(&self.pending_calls[k].1, program) {
                assert(!fset.contains(m.pending[k as int].1));
                return false;
            }
            k += 1;
        }
        assert(m.pending.len() == self.pending_calls@.len());
        assert forall|j: int| 0 <= j < m.pending.len() implies fset.contains(#[trigger] m.pending[j].1) by {
            assert(0 <= m.pending[j].0 < m.code.len());
        }
        assert(pending_in(m, fset));
        assert(cg_wf(m));
        let mut i: usize = 0;
        while i < program.len()
            invariant
                i <= program@.len(),
                fset == self.fns().dom() + func_names(crate::ast::stmts_model(program@)),
                forall|j: int| 0 <= j < i ==> stmt_gen_ok(#[trigger] program@[j]@, symbols@, fset, false),
                m == self.model(),
                m.loops.len() == 0,
                cg_wf(m),
                pending_in(m, fset),
            decreases program@.len() - i,
        {
            if !self.stmt_can_gen(&program[i], symbols, program, false) {
                return false;
            }
            i += 1;
        }
        true
    }
}

} // verus!
