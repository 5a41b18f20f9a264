use vstd::prelude::*;
use crate::ast::{Expr, SExpr, SStmt, Stmt, expr_model, exprs_model, stmt_model, stmts_model, names_model};
use crate::namemap::{NameMap, keys_distinct, lemma_push_contains};
use crate::symbol::seq_max_or_zero;

verus! {

/// Model of the analysis state: the statement positions at which each
/// variable is used after its first write (read, or written again), the
/// variables written with the position of their first write (in order of
/// first write), and the current statement position.
pub struct LModel {
    pub reads: Map<Seq<char>, Seq<int>>,
    pub wkeys: Seq<Seq<char>>,
    pub wvals: Seq<int>,
    pub idx: int,
}

/// Records a read of `n` at position `p`.
pub open spec fn add_read(m: LModel, n: Seq<char>, p: int) -> LModel {
    LModel {
        reads: m.reads.insert(
            n,
            if m.reads.contains_key(n) {
                m.reads[n].push(p)
            } else {
                seq![p]
            },
        ),
        ..m
    }
}

/// Records a write of `n` at position `p`: the first write of `n` starts
/// its lifetime, a later one is a use that keeps it live up to `p`.
pub open spec fn add_write(m: LModel, n: Seq<char>, p: int) -> LModel {
    if m.wkeys.contains(n) {
        add_read(m, n, p)
    } else {
        LModel { wkeys: m.wkeys.push(n), wvals: m.wvals.push(p), ..m }
    }
}

/// The analysis state after visiting an expression.
pub open spec fn lexpr(m: LModel, e: SExpr) -> LModel
    decreases e,
{
    match e {
        SExpr::Var(name) => add_read(m, name, m.idx),
        SExpr::Binary { left, right, .. } => lexpr(lexpr(m, *left), *right),
        SExpr::Call { args, .. } => lexprs(m, args),
        SExpr::NativeCall { args, .. } => lexprs(m, args),
        SExpr::Unary { operand, .. } => lexpr(m, *operand),
        SExpr::ArrLit(items) => lexprs(m, items),
        SExpr::ArrIndex { arr, index } => {
            let m1 = lexpr(lexpr(m, *arr), *index);
            // the array handle stays live through the load that follows
            match *arr {
                SExpr::Var(name) => add_read(m1, name, m1.idx + 1),
                _ => m1,
            }
        },
        _ => m,
    }
}

/// The analysis state after visiting expressions in order.
pub open spec fn lexprs(m: LModel, es: Seq<SExpr>) -> LModel
    decreases es,
{
    if es.len() == 0 {
        m
    } else {
        lexpr(lexprs(m, es.subrange(0, es.len() - 1)), es[es.len() - 1])
    }
}

/// Whether the expression reads the variable.
pub open spec fn expr_reads(e: SExpr, n: Seq<char>) -> bool
    decreases e,
{
    match e {
        SExpr::Var(name) => name == n,
        SExpr::Binary { left, right, .. } => expr_reads(*left, n) || expr_reads(*right, n),
        SExpr::Unary { operand, .. } => expr_reads(*operand, n),
        SExpr::Call { args, .. } => exists|i: int| 0 <= i < args.len() && expr_reads(#[trigger] args[i], n),
        SExpr::NativeCall { args, .. } => exists|i: int| 0 <= i < args.len() && expr_reads(#[trigger] args[i], n),
        SExpr::ArrLit(items) => exists|i: int| 0 <= i < items.len() && expr_reads(#[trigger] items[i], n),
        SExpr::ArrIndex { arr, index } => expr_reads(*arr, n) || expr_reads(*index, n),
        _ => false,
    }
}

/// The variable is recorded as used at position `p`.
pub open spec fn used_at(m: LModel, n: Seq<char>, p: int) -> bool {
    m.reads.contains_key(n) && m.reads[n].contains(p)
}

/// Visiting an expression keeps the position, the writes and every use
/// recorded before, and records a use at the position of every variable it
/// reads.
pub proof fn lemma_lexpr_uses(m: LModel, e: SExpr)
    ensures
        lexpr(m, e).idx == m.idx,
        lexpr(m, e).wkeys == m.wkeys,
        lexpr(m, e).wvals == m.wvals,
        forall|n: Seq<char>, p: int| used_at(m, n, p) ==> #[trigger] used_at(lexpr(m, e), n, p),
        forall|n: Seq<char>| expr_reads(e, n) ==> #[trigger] used_at(lexpr(m, e), n, m.idx),
    decreases e,
{
    match e {
        SExpr::Var(name) => {
            assert forall|n: Seq<char>, p: int| used_at(m, n, p) implies #[trigger] used_at(lexpr(m, e), n, p) by {
                if n == name {
                    assert(lexpr(m, e).reads[n] == m.reads[n].push(m.idx));
                    assert(lexpr(m, e).reads[n][m.reads[n].index_of(p)] == p);
                }
            }
            let rs = lexpr(m, e).reads[name];
            assert(lexpr(m, e) == add_read(m, name, m.idx));
            assert(lexpr(m, e).reads.contains_key(name));
            assert(rs[rs.len() - 1] == m.idx);
            assert(rs.contains(m.idx));
            assert(used_at(lexpr(m, e), name, m.idx));
            assert forall|n: Seq<char>| expr_reads(e, n) implies #[trigger] used_at(lexpr(m, e), n, m.idx) by {
                assert(n == name);
            }
        },
        SExpr::Binary { left, right, .. } => {
            lemma_lexpr_uses(m, *left);
            lemma_lexpr_uses(lexpr(m, *left), *right);
            assert forall|n: Seq<char>| expr_reads(e, n) implies #[trigger] used_at(lexpr(m, e), n, m.idx) by {
                if expr_reads(*left, n) {
                    assert(used_at(lexpr(m, *left), n, m.idx));
                }
            }
        },
        SExpr::Unary { operand, .. } => {
            lemma_lexpr_uses(m, *operand);
            assert forall|n: Seq<char>| expr_reads(e, n) implies #[trigger] used_at(lexpr(m, e), n, m.idx) by {
            }
        },
        SExpr::Call { args, .. } => {
            lemma_lexprs_uses(m, args);
            assert forall|n: Seq<char>| expr_reads(e, n) implies #[trigger] used_at(lexpr(m, e), n, m.idx) by {
                let i = choose|i: int| 0 <= i < args.len() && expr_reads(#[trigger] args[i], n);
                assert(expr_reads(args[i], n));
            }
        },
        SExpr::NativeCall { args, .. } => {
            lemma_lexprs_uses(m, args);
            assert forall|n: Seq<char>| expr_reads(e, n) implies #[trigger] used_at(lexpr(m, e), n, m.idx) by {
                let i = choose|i: int| 0 <= i < args.len() && expr_reads(#[trigger] args[i], n);
                assert(expr_reads(args[i], n));
            }
        },
        SExpr::ArrLit(items) => {
            lemma_lexprs_uses(m, items);
            assert forall|n: Seq<char>| expr_reads(e, n) implies #[trigger] used_at(lexpr(m, e), n, m.idx) by {
                let i = choose|i: int| 0 <= i < items.len() && expr_reads(#[trigger] items[i], n);
                assert(expr_reads(items[i], n));
            }
        },
        SExpr::ArrIndex { arr, index } => {
            lemma_lexpr_uses(m, *arr);
            let m1 = lexpr(lexpr(m, *arr), *index);
            lemma_lexpr_uses(lexpr(m, *arr), *index);
            match *arr {
                SExpr::Var(name) => {
                    assert forall|n: Seq<char>, p: int| used_at(m1, n, p) implies #[trigger] used_at(add_read(m1, name, m1.idx + 1), n, p) by {
                        if n == name {
                            assert(add_read(m1, name, m1.idx + 1).reads[n][m1.reads[n].index_of(p)] == p);
                        }
                    }
                },
                _ => {},
            }
            assert forall|n: Seq<char>| expr_reads(e, n) implies #[trigger] used_at(lexpr(m, e), n, m.idx) by {
                if expr_reads(*arr, n) {
                    assert(used_at(lexpr(m, *arr), n, m.idx));
                }
                assert(used_at(m1, n, m.idx));
            }
        },
        _ => {},
    }
}

/// `lemma_lexpr_uses` for expressions in order.
pub proof fn lemma_lexprs_uses(m: LModel, es: Seq<SExpr>)
    ensures
        lexprs(m, es).idx == m.idx,
        lexprs(m, es).wkeys == m.wkeys,
        lexprs(m, es).wvals == m.wvals,
        forall|n: Seq<char>, p: int| used_at(m, n, p) ==> #[trigger] used_at(lexprs(m, es), n, p),
        forall|n: Seq<char>, i: int| 0 <= i < es.len() && #[trigger] expr_reads(es[i], n) ==> used_at(lexprs(m, es), n, m.idx),
    decreases es,
{
    if es.len() > 0 {
        let prev = es.subrange(0, es.len() - 1);
        lemma_lexprs_uses(m, prev);
        let m1 = lexprs(m, prev);
        lemma_lexpr_uses(m1, es[es.len() - 1]);
        assert forall|n: Seq<char>, i: int| 0 <= i < es.len() && #[trigger] expr_reads(es[i], n) implies used_at(lexprs(m, es), n, m.idx) by {
            if i < es.len() - 1 {
                assert(prev[i] == es[i]);
            }
        }
    }
}

/// An array store uses the array: after `name[index] = value` the array
/// is used at the statement's position, as is every variable the index and
/// the value read, so its lifetime covers the store.
pub proof fn law_array_store_uses_the_array(m: LModel, name: Seq<char>, index: SExpr, value: SExpr)
    ensures
        used_at(lstmt(m, array_store(name, index, value)), name, m.idx),
        forall|n: Seq<char>| expr_reads(index, n) || expr_reads(value, n) ==> #[trigger] used_at(
            lstmt(m, array_store(name, index, value)),
            n,
            m.idx,
        ),
{
    lemma_lexpr_uses(m, index);
    lemma_lexpr_uses(lexpr(m, index), value);
    let m1 = lexpr(lexpr(m, index), value);
    let rs = add_read(m1, name, m1.idx).reads[name];
    assert(rs[rs.len() - 1] == m.idx);
    assert forall|n: Seq<char>| expr_reads(index, n) || expr_reads(value, n) implies #[trigger] used_at(
        lstmt(m, array_store(name, index, value)),
        n,
        m.idx,
    ) by {
        assert(used_at(m1, n, m.idx));
        if n == name {
        } else {
            assert(add_read(m1, name, m1.idx).reads[n] == m1.reads[n]);
        }
    }
}

/// An assignment starts the variable's lifetime at its position when it is
/// the first write, and is a use at that position when it is a later one;
/// every variable the value reads is used there too.
pub proof fn law_assignment_writes_the_variable(m: LModel, name: Seq<char>, value: SExpr)
    ensures
        !m.wkeys.contains(name) ==> lstmt(m, assignment(name, value)).wkeys == m.wkeys.push(name)
            && lstmt(m, assignment(name, value)).wvals == m.wvals.push(m.idx),
        m.wkeys.contains(name) ==> used_at(lstmt(m, assignment(name, value)), name, m.idx),
        forall|n: Seq<char>| expr_reads(value, n) ==> #[trigger] used_at(lstmt(m, assignment(name, value)), n, m.idx),
{
    lemma_lexpr_uses(m, value);
    let m1 = lexpr(m, value);
    if !m.wkeys.contains(name) {
        assert forall|n: Seq<char>| expr_reads(value, n) implies #[trigger] used_at(lstmt(m, assignment(name, value)), n, m.idx) by {
            assert(used_at(m1, n, m.idx));
        }
    } else {
        let rs = add_read(m1, name, m1.idx).reads[name];
        assert(rs[rs.len() - 1] == m.idx);
        assert forall|n: Seq<char>| expr_reads(value, n) implies #[trigger] used_at(lstmt(m, assignment(name, value)), n, m.idx) by {
            assert(used_at(m1, n, m.idx));
            if n == name {
                assert(add_read(m1, name, m1.idx).reads[n][m1.reads[n].index_of(m.idx)] == m.idx);
            } else {
                assert(add_read(m1, name, m1.idx).reads[n] == m1.reads[n]);
            }
        }
    }
}

/// The statement `name[index] = value`.
pub open spec fn array_store(name: Seq<char>, index: SExpr, value: SExpr) -> SStmt {
    SStmt::ArrAssign { name, index, value }
}

/// The statement `name = value`.
pub open spec fn assignment(name: Seq<char>, value: SExpr) -> SStmt {
    SStmt::Assign { name, value }
}

/// The names assigned by the statements themselves (not nested ones).
pub open spec fn assigned_names(body: Seq<SStmt>) -> Set<Seq<char>> {
    Set::new(|n: Seq<char>| exists|i: int| 0 <= i < body.len() && (#[trigger] body[i]) is Assign && body[i]->Assign_name == n)
}

/// A variable is read somewhere in `lo..=hi`.
pub open spec fn read_between(reads: Map<Seq<char>, Seq<int>>, n: Seq<char>, lo: int, hi: int) -> bool {
    reads.contains_key(n) && exists|k: int| 0 <= k < reads[n].len() && lo <= #[trigger] reads[n][k] <= hi
}

/// Every variable used inside a loop (read by its condition, used in its
/// body, or assigned directly in the body) is kept live to the end of the
/// body.
pub open spec fn extend_reads(
    reads: Map<Seq<char>, Seq<int>>,
    lo: int,
    hi: int,
    bw: Set<Seq<char>>,
) -> Map<Seq<char>, Seq<int>> {
    Map::new(
        |n: Seq<char>| reads.contains_key(n) || bw.contains(n),
        |n: Seq<char>|
            if read_between(reads, n, lo, hi) || bw.contains(n) {
                if reads.contains_key(n) {
                    reads[n].push(hi)
                } else {
                    seq![hi]
                }
            } else {
                reads[n]
            },
    )
}

/// The analysis state after visiting a statement.
pub open spec fn lstmt(m: LModel, s: SStmt) -> LModel
    decreases s,
{
    match s {
        SStmt::Assign { name, value } => {
            let m1 = lexpr(m, value);
            add_write(m1, name, m1.idx)
        },
        SStmt::ArrAssign { name, index, value } => {
            let m1 = lexpr(lexpr(m, index), value);
            add_read(m1, name, m1.idx)
        },
        SStmt::Print(e) => lexpr(m, e),
        SStmt::While { condition, body } => {
            let m1 = lexpr(m, condition);
            let m2 = lbody(m1, body);
            LModel { reads: extend_reads(m2.reads, m.idx, m2.idx, assigned_names(body)), ..m2 }
        },
        SStmt::If { condition, then_body, else_body } => lbody(
            lbody(lexpr(m, condition), then_body),
            else_body,
        ),
        SStmt::Func { params, body, .. } => lbody(add_writes(m, params, m.idx), body),
        SStmt::Return(e) => lexpr(m, e),
        SStmt::Native { args, .. } => lexprs(m, args),
        SStmt::Break => m,
        SStmt::Continue => m,
    }
}

/// Records writes of every name at position `p`.
pub open spec fn add_writes(m: LModel, ns: Seq<Seq<char>>, p: int) -> LModel
    decreases ns.len(),
{
    if ns.len() == 0 {
        m
    } else {
        add_write(add_writes(m, ns.subrange(0, ns.len() - 1), p), ns[ns.len() - 1], p)
    }
}

/// The analysis state after visiting nested statements, each one position
/// further.
pub open spec fn lbody(m: LModel, ss: Seq<SStmt>) -> LModel
    decreases ss,
{
    if ss.len() == 0 {
        m
    } else {
        let m1 = lbody(m, ss.subrange(0, ss.len() - 1));
        lstmt(LModel { idx: m1.idx + 1, ..m1 }, ss[ss.len() - 1])
    }
}

/// The analysis state after visiting top-level statements, each followed by
/// a step to the next position.
pub open spec fn lprogram(m: LModel, ss: Seq<SStmt>) -> LModel
    decreases ss.len(),
{
    if ss.len() == 0 {
        m
    } else {
        let m1 = lstmt(lprogram(m, ss.subrange(0, ss.len() - 1)), ss[ss.len() - 1]);
        LModel { idx: m1.idx + 1, ..m1 }
    }
}

/// The number of positions a statement advances, nested ones included.
pub open spec fn stmt_steps(s: SStmt) -> nat
    decreases s,
{
    match s {
        SStmt::While { body, .. } => body_steps(body),
        SStmt::If { then_body, else_body, .. } => body_steps(then_body) + body_steps(else_body),
        SStmt::Func { body, .. } => body_steps(body),
        _ => 0,
    }
}

pub open spec fn body_steps(ss: Seq<SStmt>) -> nat
    decreases ss,
{
    if ss.len() == 0 {
        0
    } else {
        body_steps(ss.subrange(0, ss.len() - 1)) + 1 + stmt_steps(ss[ss.len() - 1])
    }
}

pub open spec fn program_steps(ss: Seq<SStmt>) -> nat
    decreases ss.len(),
{
    if ss.len() == 0 {
        0
    } else {
        program_steps(ss.subrange(0, ss.len() - 1)) + stmt_steps(ss[ss.len() - 1]) + 1
    }
}


/// A prefix of a body never takes more steps than the whole body.
pub proof fn lemma_body_steps_prefix(ss: Seq<SStmt>, i: int)
    requires
        0 <= i <= ss.len(),
    ensures
        body_steps(ss.subrange(0, i)) <= body_steps(ss),
    decreases ss.len() - i,
{
    if i < ss.len() {
        lemma_body_steps_prefix(ss, i + 1);
        assert(ss.subrange(0, i + 1).subrange(0, i) =~= ss.subrange(0, i));
    } else {
        assert(ss.subrange(0, i) =~= ss);
    }
}

/// A prefix of a program never takes more steps than the whole program.
pub proof fn lemma_program_steps_prefix(ss: Seq<SStmt>, i: int)
    requires
        0 <= i <= ss.len(),
    ensures
        program_steps(ss.subrange(0, i)) <= program_steps(ss),
    decreases ss.len() - i,
{
    if i < ss.len() {
        lemma_program_steps_prefix(ss, i + 1);
        assert(ss.subrange(0, i + 1).subrange(0, i) =~= ss.subrange(0, i));
    } else {
        assert(ss.subrange(0, i) =~= ss);
    }
}

/// Positions as integers.
pub open spec fn ints(v: Seq<usize>) -> Seq<int> {
    Seq::new(v.len(), |j: int| v[j] as int)
}

/// The model is well formed: no variable is written twice, and every written
/// variable has its first write position.
pub open spec fn lmodel_wf(m: LModel) -> bool {
    keys_distinct(m.wkeys) && m.wkeys.len() == m.wvals.len()
}

/// The positions at which a name is read (none if it never is).
pub open spec fn reads_of(m: LModel, n: Seq<char>) -> Seq<int> {
    if m.reads.contains_key(n) {
        m.reads[n]
    } else {
        Seq::empty()
    }
}

/// The smallest of `w` and the positions `rs`.
pub open spec fn span_start(w: int, rs: Seq<int>) -> int
    decreases rs.len(),
{
    if rs.len() == 0 {
        w
    } else {
        let a = span_start(w, rs.drop_last());
        if rs.last() < a {
            rs.last()
        } else {
            a
        }
    }
}

/// The largest of `w` and the positions `rs`.
pub open spec fn span_end(w: int, rs: Seq<int>) -> int
    decreases rs.len(),
{
    if rs.len() == 0 {
        w
    } else {
        let a = span_end(w, rs.drop_last());
        if rs.last() > a {
            rs.last()
        } else {
            a
        }
    }
}

/// The start of the lifetime of the `i`-th written variable: its earliest
/// read or write.
pub open spec fn var_start(m: LModel, i: int) -> int {
    span_start(m.wvals[i], reads_of(m, m.wkeys[i]))
}

/// The end of the lifetime of the `i`-th written variable: its latest read
/// or write.
pub open spec fn var_end(m: LModel, i: int) -> int {
    span_end(m.wvals[i], reads_of(m, m.wkeys[i]))
}

/// The lifetimes of two written variables overlap.
pub open spec fn lifetimes_overlap(m: LModel, i: int, j: int) -> bool {
    var_start(m, i) <= var_end(m, j) && var_start(m, j) <= var_end(m, i)
}

/// The first position from `k` on in `s` whose variable starts after `t`
/// (the length of `s` if there is none).
pub open spec fn first_after(m: LModel, s: Seq<int>, t: int, k: int) -> int
    decreases s.len() - k,
{
    if k >= s.len() {
        s.len() as int
    } else if var_start(m, s[k]) > t {
        k
    } else {
        first_after(m, s, t, k + 1)
    }
}

/// The first `n` written variables (by index), ordered by the start of their
/// lifetime; variables that start together keep the order of their first
/// write.
pub open spec fn by_start(m: LModel, n: nat) -> Seq<int>
    decreases n,
{
    if n == 0 {
        Seq::empty()
    } else {
        let s = by_start(m, (n - 1) as nat);
        s.insert(first_after(m, s, var_start(m, n - 1), 0), n - 1)
    }
}

/// The first slot from `k` on whose last use lies before `t` (the number of
/// slots if there is none, that is a new slot).
pub open spec fn first_free(lu: Seq<int>, t: int, k: int) -> int
    decreases lu.len() - k,
{
    if k >= lu.len() {
        lu.len() as int
    } else if lu[k] < t {
        k
    } else {
        first_free(lu, t, k + 1)
    }
}

/// First-fit slot assignment of the variables in the order `ord`: the last
/// use of each slot, and the slot of each variable.
pub open spec fn fit(m: LModel, ord: Seq<int>) -> (Seq<int>, Map<Seq<char>, int>)
    decreases ord.len(),
{
    if ord.len() == 0 {
        (Seq::empty(), Map::empty())
    } else {
        let prev = fit(m, ord.drop_last());
        let x = ord.last();
        let k = first_free(prev.0, var_start(m, x), 0);
        (
            if k < prev.0.len() {
                prev.0.update(k, var_end(m, x))
            } else {
                prev.0.push(var_end(m, x))
            },
            prev.1.insert(m.wkeys[x], k),
        )
    }
}

/// The slot of every written variable: first fit, taking the variables in
/// order of the start of their lifetime.
pub open spec fn slot_assignment(m: LModel) -> Map<Seq<char>, int> {
    fit(m, by_start(m, m.wkeys.len())).1
}

/// A map's values as integers.
pub open spec fn int_vals(mp: Map<Seq<char>, usize>) -> Map<Seq<char>, int> {
    Map::new(|k: Seq<char>| mp.contains_key(k), |k: Seq<char>| mp[k] as int)
}

proof fn lemma_span(w: int, rs: Seq<int>)
    ensures
        span_start(w, rs) <= w <= span_end(w, rs),
    decreases rs.len(),
{
    if rs.len() > 0 {
        lemma_span(w, rs.drop_last());
    }
}

proof fn lemma_first_free(lu: Seq<int>, t: int, k: int)
    requires
        0 <= k <= lu.len(),
    ensures
        k <= first_free(lu, t, k) <= lu.len(),
        first_free(lu, t, k) < lu.len() ==> lu[first_free(lu, t, k)] < t,
    decreases lu.len() - k,
{
    if k < lu.len() && !(lu[k] < t) {
        lemma_first_free(lu, t, k + 1);
    }
}

proof fn lemma_first_after(m: LModel, s: Seq<int>, t: int, k: int)
    requires
        0 <= k <= s.len(),
    ensures
        k <= first_after(m, s, t, k) <= s.len(),
    decreases s.len() - k,
{
    if k < s.len() && !(var_start(m, s[k]) > t) {
        lemma_first_after(m, s, t, k + 1);
    }
}

/// `by_start` orders each of the first `n` variables exactly once.
proof fn lemma_by_start_perm(m: LModel, n: nat)
    ensures
        by_start(m, n).len() == n,
        forall|i: int| 0 <= i < n ==> 0 <= #[trigger] by_start(m, n)[i] < n,
        forall|i: int, j: int| 0 <= i < n && 0 <= j < n && i != j ==> by_start(m, n)[i] != by_start(m, n)[j],
        forall|x: int| 0 <= x < n ==> #[trigger] by_start(m, n).contains(x),
    decreases n,
{
    if n > 0 {
        let s = by_start(m, (n - 1) as nat);
        lemma_by_start_perm(m, (n - 1) as nat);
        let p = first_after(m, s, var_start(m, n - 1), 0);
        lemma_first_after(m, s, var_start(m, n - 1), 0);
        s.insert_ensures(p, n - 1);
        let r = s.insert(p, n - 1);
        assert(r == by_start(m, n));
        assert forall|i: int| 0 <= i < n implies (i < p ==> r[i] == s[i]) && (i > p ==> r[i] == s[i - 1]) by {
            if i > p {
                assert(r[(i - 1) + 1] == s[i - 1]);
            }
        }
        assert forall|x: int| 0 <= x < n implies #[trigger] r.contains(x) by {
            if x == n - 1 {
                assert(r[p] == x);
            } else {
                assert(s.contains(x));
                let i = choose|i: int| 0 <= i < n - 1 && #[trigger] s[i] == x;
                if i < p {
                    assert(r[i] == x);
                } else {
                    assert(r[i + 1] == x);
                }
            }
        }
    }
}

/// The variable `x` has a slot whose last use is not before its end.
pub open spec fn placed(m: LModel, ord: Seq<int>, x: int) -> bool {
    let f = fit(m, ord);
    let key = m.wkeys[x];
    &&& f.1.contains_key(key)
    &&& 0 <= f.1[key] < f.0.len()
    &&& var_end(m, x) <= f.0[f.1[key]]
}

/// What first fit keeps over any order in which no variable comes twice:
/// every placed variable has a slot whose last use is not before its end,
/// and two variables that share a slot have disjoint lifetimes.
proof fn lemma_fit(m: LModel, ord: Seq<int>)
    requires
        lmodel_wf(m),
        forall|i: int| 0 <= i < ord.len() ==> 0 <= #[trigger] ord[i] < m.wkeys.len(),
        forall|i: int, j: int| 0 <= i < ord.len() && 0 <= j < ord.len() && i != j ==> ord[i] != ord[j],
    ensures
        fit(m, ord).0.len() <= ord.len(),
        forall|i: int| 0 <= i < ord.len() ==> #[trigger] placed(m, ord, ord[i]),
        forall|i: int, j: int| 0 <= i < ord.len() && 0 <= j < ord.len() && i != j
            && fit(m, ord).1[m.wkeys[ord[i]]] == fit(m, ord).1[m.wkeys[ord[j]]]
            ==> !lifetimes_overlap(m, ord[i], ord[j]),
    decreases ord.len(),
{
    if ord.len() > 0 {
        let prev_ord = ord.drop_last();
        lemma_fit(m, prev_ord);
        let prev = fit(m, prev_ord);
        let x = ord.last();
        let n = ord.len() - 1;
        let sx = var_start(m, x);
        let k = first_free(prev.0, sx, 0);
        lemma_first_free(prev.0, sx, 0);
        lemma_span(m.wvals[x], reads_of(m, m.wkeys[x]));
        let cur = fit(m, ord);
        // the last variable's name is new
        assert forall|i: int| 0 <= i < n implies m.wkeys[#[trigger] prev_ord[i]] != m.wkeys[x] by {
            assert(prev_ord[i] == ord[i]);
            assert(ord[i] != ord[n]);
        }
        assert forall|i: int| 0 <= i < n implies #[trigger] cur.1[m.wkeys[prev_ord[i]]] == prev.1[m.wkeys[prev_ord[i]]] by {
            assert(m.wkeys[prev_ord[i]] != m.wkeys[x]);
        }
        assert forall|i: int| 0 <= i < ord.len() implies #[trigger] placed(m, ord, ord[i]) by {
            if i < n {
                assert(ord[i] == prev_ord[i]);
                assert(placed(m, prev_ord, prev_ord[i]));
                assert(cur.1[m.wkeys[prev_ord[i]]] == prev.1[m.wkeys[prev_ord[i]]]);
            }
        }
        assert forall|i: int, j: int| 0 <= i < ord.len() && 0 <= j < ord.len() && i != j
            && cur.1[m.wkeys[ord[i]]] == cur.1[m.wkeys[ord[j]]]
            implies !lifetimes_overlap(m, ord[i], ord[j]) by {
            if i < n {
                assert(placed(m, prev_ord, prev_ord[i]));
            }
            if j < n {
                assert(placed(m, prev_ord, prev_ord[j]));
            }
            if i < n && j < n {
                assert(ord[i] == prev_ord[i]);
                assert(ord[j] == prev_ord[j]);
                assert(cur.1[m.wkeys[prev_ord[i]]] == prev.1[m.wkeys[prev_ord[i]]]);
                assert(cur.1[m.wkeys[prev_ord[j]]] == prev.1[m.wkeys[prev_ord[j]]]);
            } else if i < n {
                assert(ord[i] == prev_ord[i]);
                assert(cur.1[m.wkeys[prev_ord[i]]] == prev.1[m.wkeys[prev_ord[i]]]);
                assert(j == n);
            } else {
                assert(ord[j] == prev_ord[j]);
                assert(cur.1[m.wkeys[prev_ord[j]]] == prev.1[m.wkeys[prev_ord[j]]]);
                assert(i == n);
            }
        }
    }
}

/// Two different written variables whose lifetimes overlap never share a
/// slot.
pub proof fn law_overlapping_lifetimes_get_distinct_slots(m: LModel, i: int, j: int)
    requires
        lmodel_wf(m),
        0 <= i < m.wkeys.len(),
        0 <= j < m.wkeys.len(),
        i != j,
        lifetimes_overlap(m, i, j),
    ensures
        slot_assignment(m).contains_key(m.wkeys[i]),
        slot_assignment(m).contains_key(m.wkeys[j]),
        slot_assignment(m)[m.wkeys[i]] != slot_assignment(m)[m.wkeys[j]],
{
    let n = m.wkeys.len();
    let ord = by_start(m, n);
    lemma_by_start_perm(m, n);
    lemma_fit(m, ord);
    assert(ord.contains(i));
    assert(ord.contains(j));
    let a = choose|a: int| 0 <= a < n && #[trigger] ord[a] == i;
    let b = choose|b: int| 0 <= b < n && #[trigger] ord[b] == j;
    assert(placed(m, ord, ord[a]));
    assert(placed(m, ord, ord[b]));
}

/// First fit gives slots to the variables of `ord` and to no other name.
proof fn lemma_fit_dom(m: LModel, ord: Seq<int>)
    ensures
        forall|k: Seq<char>| #[trigger] fit(m, ord).1.contains_key(k) ==> exists|i: int| 0 <= i < ord.len() && m.wkeys[#[trigger] ord[i]] == k,
    decreases ord.len(),
{
    if ord.len() > 0 {
        let prev_ord = ord.drop_last();
        lemma_fit_dom(m, prev_ord);
        assert forall|k: Seq<char>| #[trigger] fit(m, ord).1.contains_key(k) implies exists|i: int| 0 <= i < ord.len() && m.wkeys[#[trigger] ord[i]] == k by {
            if k != m.wkeys[ord.last()] {
                assert(fit(m, prev_ord).1.contains_key(k));
                let i = choose|i: int| 0 <= i < prev_ord.len() && m.wkeys[#[trigger] prev_ord[i]] == k;
                assert(ord[i] == prev_ord[i]);
            } else {
                assert(ord[ord.len() - 1] == ord.last());
            }
        }
    }
}

/// Exactly the written variables get a slot, and every slot is numbered
/// below the number of written variables.
pub proof fn law_slots_below_variable_count(m: LModel)
    requires
        lmodel_wf(m),
    ensures
        forall|k: Seq<char>| #[trigger] slot_assignment(m).contains_key(k) <==> m.wkeys.contains(k),
        forall|k: Seq<char>| #[trigger] slot_assignment(m).contains_key(k) ==> 0 <= slot_assignment(m)[k] < m.wkeys.len(),
{
    let n = m.wkeys.len();
    let ord = by_start(m, n);
    lemma_by_start_perm(m, n);
    lemma_fit(m, ord);
    lemma_fit_dom(m, ord);
    assert forall|k: Seq<char>| #[trigger] slot_assignment(m).contains_key(k) implies m.wkeys.contains(k) && 0 <= slot_assignment(m)[k] < n by {
        let i = choose|i: int| 0 <= i < ord.len() && m.wkeys[#[trigger] ord[i]] == k;
        assert(placed(m, ord, ord[i]));
        assert(m.wkeys[ord[i]] == k);
    }
    assert forall|k: Seq<char>| m.wkeys.contains(k) implies #[trigger] slot_assignment(m).contains_key(k) by {
        let x = choose|x: int| 0 <= x < n && m.wkeys[x] == k;
        assert(ord.contains(x));
        let a = choose|a: int| 0 <= a < n && #[trigger] ord[a] == x;
        assert(placed(m, ord, ord[a]));
    }
}

/// Liveness analysis: determines when variables are used, so that variables
/// with non-overlapping lifetimes can share a memory slot.
pub struct LivenessAnalyzer {
    /// Map from variable name to all statement indices where it's read
    reads: NameMap<Vec<usize>>,
    /// Map from variable name to statement index where it's written
    writes: NameMap<usize>,
    /// Current statement index during traversal
    current_index: usize,
}

fn any_between(v: &Vec<usize>, lo: usize, hi: usize) -> (r: bool)
    ensures
        r == exists|k: int| 0 <= k < v.len() && lo <= #[trigger] ints(v@)[k] <= hi,
{
    let mut i: usize = 0;
    while i < v.len()
        invariant
            i <= v.len(),
            forall|k: int| 0 <= k < i ==> !(lo <= #[trigger] ints(v@)[k] <= hi),
        decreases v.len() - i,
    {
        if lo <= v[i] && v[i] <= hi {
            assert(ints(v@)[i as int] == v@[i as int]);
            return true;
        }
        i += 1;
    }
    false
}

pub(crate) fn contains_name(v: &Vec<String>, n: &String) -> (r: bool)
    ensures
        r == names_model(v@).contains(n@),
{
    let mut i: usize = 0;
    while i < v.len()
        invariant
            i <= v.len(),
            forall|k: int| 0 <= k < i ==> v@[k]@ != n@,
        decreases v.len() - i,
    {
        if v[i] == *n {
            assert(names_model(v@)[i as int] == n@);
            return true;
        }
        i += 1;
    }
    assert forall|k: int| 0 <= k < names_model(v@).len() implies names_model(v@)[k] != n@ by {
        assert(names_model(v@)[k] == v@[k]@);
    }
    false
}

/// One step of `assigned_names` over a growing prefix.
proof fn lemma_assigned_names_step(bm: Seq<SStmt>, i: int)
    requires
        0 <= i < bm.len(),
    ensures
        forall|n: Seq<char>| assigned_names(bm.subrange(0, i + 1)).contains(n) <==> (assigned_names(bm.subrange(0, i)).contains(n) || (bm[i] is Assign && bm[i]->Assign_name == n)),
{
    let s0 = bm.subrange(0, i);
    let s1 = bm.subrange(0, i + 1);
    assert forall|n: Seq<char>| assigned_names(s1).contains(n) <==> (assigned_names(s0).contains(n) || (bm[i] is Assign && bm[i]->Assign_name == n)) by {
        if assigned_names(s1).contains(n) {
            let k = choose|k: int| 0 <= k < s1.len() && (#[trigger] s1[k]) is Assign && s1[k]->Assign_name == n;
            if k < i {
                assert(s0[k] == s1[k]);
            }
        }
        if assigned_names(s0).contains(n) {
            let k = choose|k: int| 0 <= k < s0.len() && (#[trigger] s0[k]) is Assign && s0[k]->Assign_name == n;
            assert(s1[k] == s0[k]);
        }
        if bm[i] is Assign && bm[i]->Assign_name == n {
            assert(s1[i] == bm[i]);
        }
    }
}

/// The names assigned directly by the statements of a body.
fn assigned_in(body: &Vec<Stmt>) -> (r: Vec<String>)
    ensures
        forall|n: Seq<char>| names_model(r@).contains(n) <==> assigned_names(stmts_model(body@)).contains(n),
{
    let ghost bm = stmts_model(body@);
    let mut r: Vec<String> = Vec::new();
    let mut i: usize = 0;
    while i < body.len()
        invariant
            i <= body.len(),
            bm == stmts_model(body@),
            forall|n: Seq<char>| names_model(r@).contains(n) <==> assigned_names(bm.subrange(0, i as int)).contains(n),
        decreases body.len() - i,
    {
        proof {
            lemma_assigned_names_step(bm, i as int);
            assert(bm[i as int] == body@[i as int]@);
        }
        let ghost before = names_model(r@);
        if let Stmt::Assign { name, .. } = &body[i] {
            r.push(name.clone());
            proof {
                assert(names_model(r@) =~= before.push(name@));
                assert(bm[i as int] is Assign && bm[i as int]->Assign_name == name@);
                assert forall|n: Seq<char>| names_model(r@).contains(n) <==> assigned_names(bm.subrange(0, i + 1)).contains(n) by {
                    lemma_push_contains(before, name@);
                }
            }
        } else {
            proof {
                assert(!(bm[i as int] is Assign));
                assert forall|n: Seq<char>| names_model(r@).contains(n) <==> assigned_names(bm.subrange(0, i + 1)).contains(n) by {
                }
            }
        }
        i += 1;
    }
    assert(bm.subrange(0, body.len() as int) =~= bm);
    r
}

/// Appends each name of `extra` that `vars` does not hold yet.
fn add_missing(vars0: Vec<String>, extra: &Vec<String>) -> (vars: Vec<String>)
    requires
        keys_distinct(names_model(vars0@)),
    ensures
        keys_distinct(names_model(vars@)),
        forall|n: Seq<char>| names_model(vars@).contains(n) <==> (names_model(vars0@).contains(n) || names_model(extra@).contains(n)),
{
    let mut vars = vars0;
    let ghost ex = names_model(extra@);
    let mut w: usize = 0;
    while w < extra.len()
        invariant
            w <= extra.len(),
            ex == names_model(extra@),
            keys_distinct(names_model(vars@)),
            forall|n: Seq<char>| names_model(vars@).contains(n) <==> (names_model(vars0@).contains(n) || ex.subrange(0, w as int).contains(n)),
        decreases extra.len() - w,
    {
        let ghost before = names_model(vars@);
        let ghost x = extra@[w as int]@;
        let ghost s0 = ex.subrange(0, w as int);
        let ghost s1 = ex.subrange(0, w + 1);
        proof {
            assert(ex[w as int] == x);
            assert(s1 =~= s0.push(x));
            lemma_push_contains(s0, x);
        }
        if !contains_name(&vars, &extra[w]) {
            vars.push(extra[w].clone());
            proof {
                assert(names_model(vars@) =~= before.push(x));
                lemma_push_contains(before, x);
                assert forall|i: int, j: int| 0 <= i < names_model(vars@).len() && 0 <= j < names_model(vars@).len() && i != j implies names_model(vars@)[i] != names_model(vars@)[j] by {
                    if i == before.len() {
                        assert(!before.contains(x));
                        assert(before[j] == names_model(vars@)[j]);
                    } else if j == before.len() {
                        assert(before[i] == names_model(vars@)[i]);
                    }
                }
            }
        }
        assert forall|n: Seq<char>| names_model(vars@).contains(n) <==> (names_model(vars0@).contains(n) || s1.contains(n)) by {
        }
        w += 1;
    }
    assert(ex.subrange(0, extra.len() as int) =~= ex);
    vars
}

impl LivenessAnalyzer {
    /// The analysis state.
    pub closed spec fn model(&self) -> LModel {
        LModel {
            reads: Map::new(|n: Seq<char>| self.reads@.contains_key(n), |n: Seq<char>| ints(self.reads@[n]@)),
            wkeys: self.writes.keys(),
            wvals: ints(self.writes.vals()),
            idx: self.current_index as int,
        }
    }

    /// A fresh analyzer: nothing read or written, at position 0.
    pub fn new() -> (r: Self)
        ensures
            r.model().reads == Map::<Seq<char>, Seq<int>>::empty(),
            r.model().wkeys == Seq::<Seq<char>>::empty(),
            r.model().wvals == Seq::<int>::empty(),
            r.model().idx == 0,
    {
        let r = Self { reads: NameMap::new(), writes: NameMap::new(), current_index: 0 };
        assert(r.model().reads =~= Map::<Seq<char>, Seq<int>>::empty());
        assert(r.model().wvals =~= Seq::<int>::empty());
        r
    }

    fn record_read(&mut self, name: &String, pos: usize)
        ensures
            final(self).model() == add_read(old(self).model(), name@, pos as int),
    {
        match self.reads.find(name) {
            Some(k) => {
                let mut v = self.reads.replace_value_at(k, Vec::new());
                let ghost old_v = v@;
                v.push(pos);
                self.reads.replace_value_at(k, v);
                proof {
                    assert(old(self).reads@[name@] == old(self).reads.vals()[k as int]);
                    assert(ints(v@) =~= ints(old_v).push(pos as int));
                    assert(self.model().reads =~= add_read(old(self).model(), name@, pos as int).reads);
                }
            },
            None => {
                let mut v: Vec<usize> = Vec::new();
                v.push(pos);
                self.reads.insert(name.clone(), v);
                proof {
                    assert(ints(v@) =~= seq![pos as int]);
                    assert(self.model().reads =~= add_read(old(self).model(), name@, pos as int).reads);
                }
            },
        }
        assert(self.model() =~= add_read(old(self).model(), name@, pos as int));
    }

    fn record_write(&mut self, name: &String, pos: usize)
        ensures
            final(self).model() == add_write(old(self).model(), name@, pos as int),
    {
        if !self.writes.contains_key(name) {
            self.writes.insert(name.clone(), pos);
            proof {
                assert(!old(self).writes.has(name@));
                assert(!old(self).writes.keys().contains(name@));
                assert(self.model().wvals =~= old(self).model().wvals.push(pos as int));
            }
        } else {
            proof {
                let i = old(self).writes.index_of(name@);
                assert(old(self).writes.keys()[i] == name@);
                assert(old(self).writes.keys().contains(name@));
            }
            self.record_read(name, pos);
        }
    }

    fn analyze_exprs(&mut self, es: &Vec<Expr>)
        requires
            old(self).model().idx < usize::MAX,
        ensures
            final(self).model() == lexprs(old(self).model(), exprs_model(es@)),
            final(self).model().idx == old(self).model().idx,
        decreases es@,
    {
        let ghost ms = exprs_model(es@);
        let mut i: usize = 0;
        while i < es.len()
            invariant
                i <= es.len(),
                ms == exprs_model(es@),
                self.model() == lexprs(old(self).model(), ms.subrange(0, i as int)),
                self.model().idx == old(self).model().idx,
                old(self).model().idx < usize::MAX,
            decreases es.len() - i,
        {
            proof {
                assert(decreases_to!(es@ => es@[i as int]));
                let sub = ms.subrange(0, i + 1);
                assert(sub.subrange(0, i as int) =~= ms.subrange(0, i as int));
            }
            self.analyze_expr(&es[i]);
            i += 1;
        }
        assert(ms.subrange(0, es.len() as int) =~= ms);
    }

    fn analyze_expr(&mut self, expr: &Expr)
        requires
            old(self).model().idx < usize::MAX,
        ensures
            final(self).model() == lexpr(old(self).model(), expr@),
            final(self).model().idx == old(self).model().idx,
        decreases expr,
    {
        match expr {
            Expr::Var(name) => {
                let p = self.current_index;
                self.record_read(name, p);
                assert(self.model().idx == old(self).model().idx);
            },
            Expr::Binary { left, right, .. } => {
                self.analyze_expr(left);
                self.analyze_expr(right);
            },
            Expr::Call { args, .. } => {
                proof {
                    assert(decreases_to!(*expr => (*expr)->Call_args));
                    assert(decreases_to!(*args => args@));
                    assert(exprs_model(args@) =~= (expr@)->Call_args);
                }
                self.analyze_exprs(args);
            },
            Expr::NativeCall { args, .. } => {
                proof {
                    assert(decreases_to!(*expr => (*expr)->NativeCall_args));
                    assert(decreases_to!(*args => args@));
                    assert(exprs_model(args@) =~= (expr@)->NativeCall_args);
                }
                self.analyze_exprs(args);
            },
            Expr::Unary { operand, .. } => {
                self.analyze_expr(operand);
            },
            Expr::ArrLit(elements) => {
                proof {
                    assert(decreases_to!(*expr => (*expr)->ArrLit_0));
                    assert(decreases_to!(*elements => elements@));
                    assert(exprs_model(elements@) =~= (expr@)->ArrLit_0);
                }
                self.analyze_exprs(elements);
            },
            Expr::ArrIndex { arr, index } => {
                // Record reads for arr and index at the normal position
                self.analyze_expr(arr);
                self.analyze_expr(index);
                // Extend array variable lifetime: the handle must persist on stack
                // through ARRLOAD, which executes "after" this statement index.
                if let Expr::Var(name) = &**arr {
                    let p = self.current_index + 1;
                    self.record_read(name, p);
                }
            },
            Expr::Str(_) => {},
            Expr::Int(_) => {},
        }
    }

    fn analyze_body(&mut self, ss: &Vec<Stmt>)
        requires
            old(self).model().idx + body_steps(stmts_model(ss@)) < usize::MAX,
        ensures
            final(self).model() == lbody(old(self).model(), stmts_model(ss@)),
            final(self).model().idx == old(self).model().idx + body_steps(stmts_model(ss@)),
        decreases ss@,
    {
        let ghost ms = stmts_model(ss@);
        let mut i: usize = 0;
        while i < ss.len()
            invariant
                i <= ss.len(),
                ms == stmts_model(ss@),
                old(self).model().idx + body_steps(ms) < usize::MAX,
                self.model() == lbody(old(self).model(), ms.subrange(0, i as int)),
                self.model().idx == old(self).model().idx + body_steps(ms.subrange(0, i as int)),
            decreases ss.len() - i,
        {
            proof {
                assert(decreases_to!(ss@ => ss@[i as int]));
                let sub = ms.subrange(0, i + 1);
                assert(sub.subrange(0, i as int) =~= ms.subrange(0, i as int));
                assert(sub[i as int] == ss@[i as int]@);
                lemma_body_steps_prefix(ms, i + 1);
            }
            self.current_index += 1;
            self.analyze_stmt(&ss[i]);
            i += 1;
        }
        assert(ms.subrange(0, ss.len() as int) =~= ms);
    }

    /// The names that are read somewhere in `lo..=hi`, each once.
    fn reads_between(&self, lo: usize, hi: usize) -> (r: Vec<String>)
        ensures
            keys_distinct(names_model(r@)),
            forall|nm: Seq<char>| names_model(r@).contains(nm) <==> read_between(self.model().reads, nm, lo as int, hi as int),
    {
        let ghost reads = self.model().reads;
        let mut r: Vec<String> = Vec::new();
        let n = self.reads.len();
        let mut k: usize = 0;
        while k < n
            invariant
                k <= n,
                n == self.reads.keys().len(),
                n == self.reads.vals().len(),
                keys_distinct(self.reads.keys()),
                reads == self.model().reads,
                keys_distinct(names_model(r@)),
                forall|nm: Seq<char>| names_model(r@).contains(nm) <==> (exists|j: int| 0 <= j < k && #[trigger] self.reads.keys()[j] == nm && read_between(reads, nm, lo as int, hi as int)),
            decreases n - k,
        {
            let hit = any_between(self.reads.value_at(k), lo, hi);
            let ghost key = self.reads.keys()[k as int];
            let ghost before = names_model(r@);
            proof {
                self.reads.lemma_view_at(k as int);
                assert(reads.contains_key(key));
                assert(reads[key] == ints(self.reads.vals()[k as int]@));
                assert(hit == read_between(reads, key, lo as int, hi as int));
                assert(!before.contains(key)) by {
                    if before.contains(key) {
                        let j = choose|j: int| 0 <= j < k && #[trigger] self.reads.keys()[j] == key && read_between(reads, key, lo as int, hi as int);
                    }
                }
            }
            if hit {
                r.push(self.reads.key_at(k).clone());
                proof {
                    assert(names_model(r@) =~= before.push(key));
                    lemma_push_contains(before, key);
                }
            }
            proof {
                assert forall|nm: Seq<char>| names_model(r@).contains(nm) <==> (exists|j: int| 0 <= j < k + 1 && #[trigger] self.reads.keys()[j] == nm && read_between(reads, nm, lo as int, hi as int)) by {
                    if exists|j: int| 0 <= j < k + 1 && #[trigger] self.reads.keys()[j] == nm && read_between(reads, nm, lo as int, hi as int) {
                        let j = choose|j: int| 0 <= j < k + 1 && #[trigger] self.reads.keys()[j] == nm && read_between(reads, nm, lo as int, hi as int);
                        if j < k {
                            assert(before.contains(nm));
                        }
                    }
                    if before.contains(nm) {
                        let j = choose|j: int| 0 <= j < k && #[trigger] self.reads.keys()[j] == nm && read_between(reads, nm, lo as int, hi as int);
                        assert(self.reads.keys()[j] == nm);
                    }
                }
            }
            k += 1;
        }
        proof {
            assert forall|nm: Seq<char>| read_between(reads, nm, lo as int, hi as int) implies names_model(r@).contains(nm) by {
                assert(self.reads@.contains_key(nm));
                let j = self.reads.index_of(nm);
                assert(self.reads.keys()[j] == nm);
            }
        }
        r
    }

    /// Adds a read at position `p` for every name of `vars`.
    fn extend_reads_to(&mut self, vars: &Vec<String>, p: usize)
        requires
            keys_distinct(names_model(vars@)),
        ensures
            final(self).model() == (LModel {
                reads: Map::new(
                    |nm: Seq<char>| old(self).model().reads.contains_key(nm) || names_model(vars@).contains(nm),
                    |nm: Seq<char>| if names_model(vars@).contains(nm) {
                        if old(self).model().reads.contains_key(nm) { old(self).model().reads[nm].push(p as int) } else { seq![p as int] }
                    } else {
                        old(self).model().reads[nm]
                    },
                ),
                ..old(self).model()
            }),
    {
        let ghost m2 = self.model();
        let ghost vs = names_model(vars@);
        let mut v: usize = 0;
        while v < vars.len()
            invariant
                v <= vars.len(),
                vs == names_model(vars@),
                keys_distinct(vs),
                self.model().wkeys == m2.wkeys,
                self.model().wvals == m2.wvals,
                self.model().idx == m2.idx,
                self.model().reads == Map::new(
                    |nm: Seq<char>| m2.reads.contains_key(nm) || vs.subrange(0, v as int).contains(nm),
                    |nm: Seq<char>| if vs.subrange(0, v as int).contains(nm) {
                        if m2.reads.contains_key(nm) { m2.reads[nm].push(p as int) } else { seq![p as int] }
                    } else {
                        m2.reads[nm]
                    },
                ),
            decreases vars.len() - v,
        {
            self.record_read(&vars[v], p);
            proof {
                let nv = vs[v as int];
                assert(nv == vars@[v as int]@);
                let s0 = vs.subrange(0, v as int);
                let s1 = vs.subrange(0, v + 1);
                assert(!s0.contains(nv)) by {
                    if s0.contains(nv) {
                        let j = choose|j: int| 0 <= j < s0.len() && #[trigger] s0[j] == nv;
                        assert(vs[j] == nv);
                    }
                }
                assert forall|nm: Seq<char>| s1.contains(nm) <==> (s0.contains(nm) || nm == nv) by {
                    if s1.contains(nm) {
                        let j = choose|j: int| 0 <= j < s1.len() && #[trigger] s1[j] == nm;
                        if j < v {
                            assert(s0[j] == nm);
                        }
                    }
                    if s0.contains(nm) {
                        let j = choose|j: int| 0 <= j < s0.len() && #[trigger] s0[j] == nm;
                        assert(s1[j] == nm);
                    }
                    if nm == nv {
                        assert(s1[v as int] == nm);
                    }
                }
                assert(self.model().reads =~= Map::new(
                    |nm: Seq<char>| m2.reads.contains_key(nm) || s1.contains(nm),
                    |nm: Seq<char>| if s1.contains(nm) {
                        if m2.reads.contains_key(nm) { m2.reads[nm].push(p as int) } else { seq![p as int] }
                    } else {
                        m2.reads[nm]
                    },
                ));
            }
            v += 1;
        }
        proof {
            assert(vs.subrange(0, vars.len() as int) =~= vs);
            assert(self.model() =~= (LModel {
                reads: Map::new(
                    |nm: Seq<char>| m2.reads.contains_key(nm) || vs.contains(nm),
                    |nm: Seq<char>| if vs.contains(nm) {
                        if m2.reads.contains_key(nm) { m2.reads[nm].push(p as int) } else { seq![p as int] }
                    } else {
                        m2.reads[nm]
                    },
                ),
                ..m2
            }));
        }
    }

    fn analyze_while(&mut self, stmt: &Stmt, condition: &Expr, body: &Vec<Stmt>)
        requires
            *stmt == (Stmt::While { condition: *condition, body: *body }),
            old(self).model().idx + stmt_steps(stmt@) < usize::MAX,
        ensures
            final(self).model() == lstmt(old(self).model(), stmt@),
            final(self).model().idx == old(self).model().idx + stmt_steps(stmt@),
        decreases stmt, 0nat,
    {
        let ghost bm = stmts_model(body@);
        proof {
            assert(bm =~= (stmt@)->While_body);
            assert(decreases_to!(*stmt => (*stmt)->While_body));
            assert(decreases_to!(*body => body@));
        }
        // the condition is evaluated again after every iteration: what it
        // reads stays live to the end of the body, as what the body reads
        let loop_start = self.current_index;
        self.analyze_expr(condition);
        let body_writes = assigned_in(body);
        self.analyze_body(body);
        let body_end = self.current_index;
        let ghost m2 = self.model();
        // Extend lifetimes of all variables accessed inside the loop body to
        // the end of the body, so that no slot is reused across iterations.
        let read_vars = self.reads_between(loop_start, body_end);
        let ghost from_reads = names_model(read_vars@);
        let body_vars = add_missing(read_vars, &body_writes);
        self.extend_reads_to(&body_vars, body_end);
        proof {
            let bw = assigned_names(bm);
            let vs = names_model(body_vars@);
            assert forall|nm: Seq<char>| vs.contains(nm) <==> (read_between(m2.reads, nm, old(self).model().idx, m2.idx) || bw.contains(nm)) by {
                assert(vs.contains(nm) <==> (from_reads.contains(nm) || names_model(body_writes@).contains(nm)));
                assert(from_reads.contains(nm) <==> read_between(m2.reads, nm, loop_start as int, body_end as int));
                assert(names_model(body_writes@).contains(nm) <==> bw.contains(nm));
            }
            assert(self.model().reads =~= extend_reads(m2.reads, old(self).model().idx, m2.idx, bw));
            assert(self.model() =~= LModel { reads: extend_reads(m2.reads, old(self).model().idx, m2.idx, bw), ..m2 });
        }
    }

    fn analyze_stmt(&mut self, stmt: &Stmt)
        requires
            old(self).model().idx + stmt_steps(stmt@) < usize::MAX,
        ensures
            final(self).model() == lstmt(old(self).model(), stmt@),
            final(self).model().idx == old(self).model().idx + stmt_steps(stmt@),
        decreases stmt, 1nat,
    {
        match stmt {
            Stmt::Assign { name, value } => {
                self.analyze_expr(value);
                let p = self.current_index;
                self.record_write(name, p);
            },
            Stmt::ArrAssign { name, index, value } => {
                self.analyze_expr(index);
                self.analyze_expr(value);
                // arr is read (handle used for heap store), not written
                let p = self.current_index;
                self.record_read(name, p);
            },
            Stmt::Print(expr) => {
                self.analyze_expr(expr);
            },
            Stmt::While { condition, body } => {
                self.analyze_while(stmt, condition, body);
            },
            Stmt::If { condition, then_body, else_body } => {
                proof {
                    assert(stmts_model(then_body@) =~= (stmt@)->If_then_body);
                    assert(stmts_model(else_body@) =~= (stmt@)->If_else_body);
                    assert(decreases_to!(*stmt => (*stmt)->If_then_body));
                    assert(decreases_to!(*then_body => then_body@));
                    assert(decreases_to!(*stmt => (*stmt)->If_else_body));
                    assert(decreases_to!(*else_body => else_body@));
                }
                self.analyze_expr(condition);
                self.analyze_body(then_body);
                self.analyze_body(else_body);
            },
            Stmt::Func { params, body, .. } => {
                proof {
                    assert(stmts_model(body@) =~= (stmt@)->Func_body);
                    assert(names_model(params@) == (stmt@)->Func_params);
                    assert(decreases_to!(*stmt => (*stmt)->Func_body));
                    assert(decreases_to!(*body => body@));
                }
                // Parameters are written at function entry
                let ghost ps = names_model(params@);
                let p = self.current_index;
                let mut i: usize = 0;
                while i < params.len()
                    invariant
                        i <= params.len(),
                        ps == names_model(params@),
                        p == old(self).model().idx,
                        self.model() == add_writes(old(self).model(), ps.subrange(0, i as int), p as int),
                        self.model().idx == p,
                    decreases params.len() - i,
                {
                    self.record_write(&params[i], p);
                    proof {
                        let sub = ps.subrange(0, i + 1);
                        assert(sub.subrange(0, i as int) =~= ps.subrange(0, i as int));
                        assert(sub[i as int] == params@[i as int]@);
                    }
                    i += 1;
                }
                assert(ps.subrange(0, params.len() as int) =~= ps);
                self.analyze_body(body);
            },
            Stmt::Return(expr) => {
                self.analyze_expr(expr);
            },
            Stmt::Native { args, .. } => {
                assert(exprs_model(args@) =~= (stmt@)->Native_args);
                self.analyze_exprs(args);
            },
            Stmt::Break | Stmt::Continue => {},
        }
    }

    fn collect_liveness(&mut self, program: &[Stmt])
        requires
            old(self).model().idx + program_steps(stmts_model(program@)) < usize::MAX,
        ensures
            final(self).model() == lprogram(old(self).model(), stmts_model(program@)),
    {
        let ghost ms = stmts_model(program@);
        let mut i: usize = 0;
        while i < program.len()
            invariant
                i <= program@.len(),
                ms == stmts_model(program@),
                old(self).model().idx + program_steps(ms) < usize::MAX,
                self.model() == lprogram(old(self).model(), ms.subrange(0, i as int)),
                self.model().idx == old(self).model().idx + program_steps(ms.subrange(0, i as int)),
            decreases program@.len() - i,
        {
            proof {
                let sub = ms.subrange(0, i + 1);
                assert(sub.subrange(0, i as int) =~= ms.subrange(0, i as int));
                assert(sub[i as int] == program@[i as int]@);
                lemma_program_steps_prefix(ms, i + 1);
            }
            self.analyze_stmt(&program[i]);
            self.current_index += 1;
            i += 1;
        }
        assert(ms.subrange(0, program@.len() as int) =~= ms);
    }

    /// The lifetime (start, end) of each written variable, in order of first
    /// write.
    fn lifetimes(&self) -> (r: (Vec<usize>, Vec<usize>))
        ensures
            lmodel_wf(self.model()),
            self.model().wkeys.len() <= usize::MAX,
            r.0.len() == self.model().wkeys.len(),
            r.1.len() == self.model().wkeys.len(),
            forall|i: int| 0 <= i < r.0.len() ==> r.0[i] == var_start(self.model(), i) && r.1[i] == var_end(self.model(), i),
    {
        let ghost m = self.model();
        let n = self.writes.len();
        let mut starts: Vec<usize> = Vec::new();
        let mut ends: Vec<usize> = Vec::new();
        let mut i: usize = 0;
        while i < n
            invariant
                i <= n,
                n == self.writes.keys().len(),
                n == self.writes.vals().len(),
                m == self.model(),
                starts.len() == i,
                ends.len() == i,
                forall|k: int| 0 <= k < i ==> starts[k] == var_start(m, k) && ends[k] == var_end(m, k),
            decreases n - i,
        {
            let w = *self.writes.value_at(i);
            let mut lo = w;
            let mut hi = w;
            let ghost key = self.writes.keys()[i as int];
            assert(m.wvals[i as int] == w as int);
            assert(m.wkeys[i as int] == key);
            match self.reads.get(self.writes.key_at(i)) {
                Some(rs) => {
                    let ghost rm = ints(rs@);
                    assert(reads_of(m, key) == rm);
                    let mut j: usize = 0;
                    while j < rs.len()
                        invariant
                            j <= rs.len(),
                            rm == ints(rs@),
                            lo == span_start(w as int, rm.subrange(0, j as int)),
                            hi == span_end(w as int, rm.subrange(0, j as int)),
                        decreases rs.len() - j,
                    {
                        proof {
                            let sub = rm.subrange(0, j + 1);
                            assert(sub.drop_last() =~= rm.subrange(0, j as int));
                            assert(sub.last() == rs@[j as int]);
                        }
                        if rs[j] < lo {
                            lo = rs[j];
                        }
                        if rs[j] > hi {
                            hi = rs[j];
                        }
                        j += 1;
                    }
                    assert(rm.subrange(0, rs.len() as int) =~= rm);
                },
                None => {
                    assert(reads_of(m, key) == Seq::<int>::empty());
                },
            }
            starts.push(lo);
            ends.push(hi);
            i += 1;
        }
        (starts, ends)
    }

    /// The written variables (by index) ordered by the start of their
    /// lifetime, ties kept in order of first write.
    fn order_by_start(&self, starts: &Vec<usize>) -> (ord: Vec<usize>)
        requires
            starts.len() == self.model().wkeys.len(),
            forall|i: int| 0 <= i < starts.len() ==> starts[i] == var_start(self.model(), i),
        ensures
            ints(ord@) == by_start(self.model(), self.model().wkeys.len()),
    {
        let ghost m = self.model();
        let mut ord: Vec<usize> = Vec::new();
        let mut i: usize = 0;
        while i < starts.len()
            invariant
                i <= starts.len(),
                m == self.model(),
                starts.len() == m.wkeys.len(),
                forall|k: int| 0 <= k < starts.len() ==> starts[k] == var_start(m, k),
                ints(ord@) == by_start(m, i as nat),
                ord.len() == i,
            decreases starts.len() - i,
        {
            proof {
                lemma_by_start_perm(m, i as nat);
            }
            let t = starts[i];
            let ghost om = ints(ord@);
            let mut p: usize = 0;
            while p < ord.len() && starts[ord[p]] <= t
                invariant
                    p <= ord.len(),
                    ord.len() == i,
                    om == ints(ord@),
                    om == by_start(m, i as nat),
                    starts.len() == m.wkeys.len(),
                    i < starts.len(),
                    forall|k: int| 0 <= k < starts.len() ==> starts[k] == var_start(m, k),
                    forall|k: int| 0 <= k < i ==> 0 <= #[trigger] by_start(m, i as nat)[k] < i,
                    first_after(m, om, t as int, p as int) == first_after(m, om, t as int, 0),
                decreases ord.len() - p,
            {
                assert(om[p as int] == ord@[p as int]);
                p += 1;
            }
            ord.insert(p, i);
            proof {
                assert(ints(ord@) =~= om.insert(p as int, i as int));
            }
            i += 1;
        }
        ord
    }


    /// First-fit slot assignment of the written variables in the order
    /// `ord`.
    fn first_fit(&self, starts: &Vec<usize>, ends: &Vec<usize>, ord: &Vec<usize>) -> (r: NameMap<usize>)
        requires
            lmodel_wf(self.model()),
            starts.len() == self.model().wkeys.len(),
            ends.len() == self.model().wkeys.len(),
            forall|i: int| 0 <= i < starts.len() ==> starts[i] == var_start(self.model(), i) && ends[i] == var_end(self.model(), i),
            ints(ord@) == by_start(self.model(), self.model().wkeys.len()),
        ensures
            int_vals(r@) == slot_assignment(self.model()),
            keys_distinct(r.keys()),
    {
        let ghost m = self.model();
        let ghost om = ints(ord@);
        proof {
            lemma_by_start_perm(m, m.wkeys.len());
        }
        let mut lu: Vec<usize> = Vec::new();
        let mut out: NameMap<usize> = NameMap::new();
        let mut j: usize = 0;
        while j < ord.len()
            invariant
                j <= ord.len(),
                m == self.model(),
                om == ints(ord@),
                om == by_start(m, m.wkeys.len()),
                ord.len() == m.wkeys.len(),
                m.wkeys.len() == self.writes.keys().len(),
                starts.len() == m.wkeys.len(),
                ends.len() == m.wkeys.len(),
                forall|i: int| 0 <= i < starts.len() ==> starts[i] == var_start(m, i) && ends[i] == var_end(m, i),
                forall|k: int| 0 <= k < ord.len() ==> 0 <= #[trigger] om[k] < ord.len(),
                ints(lu@) == fit(m, om.subrange(0, j as int)).0,
                int_vals(out@) == fit(m, om.subrange(0, j as int)).1,
                keys_distinct(out.keys()),
                lu.len() <= j,
            decreases ord.len() - j,
        {
            let x = ord[j];
            assert(om[j as int] == x as int);
            let s = starts[x];
            let e = ends[x];
            let ghost lm = ints(lu@);
            let mut k: usize = 0;
            while k < lu.len() && !(lu[k] < s)
                invariant
                    k <= lu.len(),
                    lm == ints(lu@),
                    first_free(lm, s as int, k as int) == first_free(lm, s as int, 0),
                decreases lu.len() - k,
            {
                assert(lm[k as int] == lu@[k as int]);
                k += 1;
            }
            proof {
                let sub = om.subrange(0, j + 1);
                assert(sub.drop_last() =~= om.subrange(0, j as int));
                assert(sub.last() == x as int);
            }
            let ghost key = self.writes.keys()[x as int];
            if k < lu.len() {
                lu.set(k, e);
                assert(ints(lu@) =~= lm.update(k as int, e as int));
            } else {
                lu.push(e);
                assert(ints(lu@) =~= lm.push(e as int));
            }
            let ghost before = out@;
            out.insert(self.writes.key_at(x).clone(), k);
            proof {
                assert(int_vals(out@) =~= int_vals(before).insert(key, k as int));
            }
            j += 1;
        }
        assert(om.subrange(0, ord.len() as int) =~= om);
        out
    }

    /// Assigns slots so that variables whose lifetimes do not overlap may
    /// share one.
    fn assign_slots_with_reuse(&self) -> (r: NameMap<usize>)
        ensures
            lmodel_wf(self.model()),
            self.model().wkeys.len() <= usize::MAX,
            keys_distinct(r.keys()),
            int_vals(r@) == slot_assignment(self.model()),
    {
        let (starts, ends) = self.lifetimes();
        let ord = self.order_by_start(&starts);
        self.first_fit(&starts, &ends, &ord)
    }

    /// Analyzes the program and returns the slot of each written variable,
    /// reusing slots between variables whose lifetimes do not overlap.
    pub fn analyze_and_assign_slots(&mut self, program: &[Stmt]) -> (r: NameMap<usize>)
        requires
            old(self).model().idx + program_steps(stmts_model(program@)) < usize::MAX,
        ensures
            final(self).model() == lprogram(old(self).model(), stmts_model(program@)),
            lmodel_wf(final(self).model()),
            final(self).model().wkeys.len() <= usize::MAX,
            int_vals(r@) == slot_assignment(final(self).model()),
            keys_distinct(r.keys()),
    {
        // First pass: collect all read/write positions
        self.collect_liveness(program);
        // Second pass: assign slots with reuse based on lifetime intervals
        self.assign_slots_with_reuse()
    }

    /// Statistics about slot usage: the number of variables, and the number
    /// of slots (one more than the largest slot, 1 when there is none).
    pub fn get_slot_stats(&self, assignments: &NameMap<usize>) -> (r: (usize, usize))
        requires
            forall|i: int| 0 <= i < assignments.vals().len() ==> #[trigger] assignments.vals()[i] < usize::MAX,
        ensures
            r.0 == assignments@.dom().len(),
            r.0 == assignments.keys().len(),
            r.1 == seq_max_or_zero(assignments.vals()) + 1,
    {
        let n = assignments.len();
        let mut max_slot: usize = 0;
        let mut i: usize = 0;
        while i < n
            invariant
                i <= n,
                n == assignments.vals().len(),
                n == assignments.keys().len(),
                max_slot == seq_max_or_zero(assignments.vals().take(i as int)),
                max_slot < usize::MAX,
                forall|j: int| 0 <= j < assignments.vals().len() ==> #[trigger] assignments.vals()[j] < usize::MAX,
            decreases n - i,
        {
            let v = *assignments.value_at(i);
            assert(assignments.vals().take(i + 1).drop_last() =~= assignments.vals().take(i as int));
            if v > max_slot {
                max_slot = v;
            }
            i += 1;
        }
        assert(assignments.vals().take(n as int) =~= assignments.vals());
        proof {
            assignments.lemma_dom_len();
        }
        (n, max_slot + 1)
    }

}

} // verus!
