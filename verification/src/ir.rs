use vstd::prelude::*;
use crate::ast::{BinOp, UnaryOp, Expr, SExpr, Stmt, SStmt, expr_model, exprs_model, stmt_model, stmts_model, names_model, copy_strings};
use crate::typecheck::{Type, infer_expression_type, spec_infer_type};
use crate::namemap::{NameMap, lemma_push_contains, lemma_concat_contains};
use crate::text::{push_str, push_decimal, spec_decimal};
use crate::liveness::contains_name;

verus! {

/// A temporary: the index of a computed value.
pub type Temp = usize;

/// A value computed from temporaries.
#[derive(Debug)]
#[allow(inconsistent_fields)]
pub enum TempExpr {
    Const(i32),
    Var(String),
    BinOp { op: BinOp, left: Temp, right: Temp },
    UnaryOp { op: UnaryOp, operand: Temp },
    Call { name: String, args: Vec<Temp> },
    NativeCall { id: u8, args: Vec<Temp> },
    Str(String),
    StrConcat { left: Temp, right: Temp },
    StrCmp { op: BinOp, left: Temp, right: Temp },
    ArrLit { elements: Vec<Temp> },
    ArrIndex { arr: Temp, index: Temp },
}

/// Mathematical model of a computed value.
#[verifier::ext_equal]
#[allow(inconsistent_fields)]
pub enum STempExpr {
    Const(i32),
    Var(Seq<char>),
    BinOp { op: BinOp, left: usize, right: usize },
    UnaryOp { op: UnaryOp, operand: usize },
    Call { name: Seq<char>, args: Seq<usize> },
    NativeCall { id: u8, args: Seq<usize> },
    Str(Seq<char>),
    StrConcat { left: usize, right: usize },
    StrCmp { op: BinOp, left: usize, right: usize },
    ArrLit { elements: Seq<usize> },
    ArrIndex { arr: usize, index: usize },
}

impl View for TempExpr {
    type V = STempExpr;

    open spec fn view(&self) -> STempExpr {
        match self {
            TempExpr::Const(n) => STempExpr::Const(*n),
            TempExpr::Var(s) => STempExpr::Var(s@),
            TempExpr::BinOp { op, left, right } => STempExpr::BinOp { op: *op, left: *left, right: *right },
            TempExpr::UnaryOp { op, operand } => STempExpr::UnaryOp { op: *op, operand: *operand },
            TempExpr::Call { name, args } => STempExpr::Call { name: name@, args: args@ },
            TempExpr::NativeCall { id, args } => STempExpr::NativeCall { id: *id, args: args@ },
            TempExpr::Str(s) => STempExpr::Str(s@),
            TempExpr::StrConcat { left, right } => STempExpr::StrConcat { left: *left, right: *right },
            TempExpr::StrCmp { op, left, right } => STempExpr::StrCmp { op: *op, left: *left, right: *right },
            TempExpr::ArrLit { elements } => STempExpr::ArrLit { elements: elements@ },
            TempExpr::ArrIndex { arr, index } => STempExpr::ArrIndex { arr: *arr, index: *index },
        }
    }
}

/// A copy of a list of temporaries.
fn copy_temps(v: &Vec<Temp>) -> (r: Vec<Temp>)
    ensures
        r@ == v@,
{
    let mut r: Vec<Temp> = Vec::new();
    let mut i: usize = 0;
    while i < v.len()
        invariant
            i <= v.len(),
            r@ == v@.subrange(0, i as int),
        decreases v.len() - i,
    {
        r.push(v[i]);
        i += 1;
    }
    r
}

/// Whether two lists of temporaries are equal.
fn same_temps(a: &Vec<Temp>, b: &Vec<Temp>) -> (r: bool)
    ensures
        r == (a@ == b@),
{
    if a.len() != b.len() {
        return false;
    }
    let mut i: usize = 0;
    while i < a.len()
        invariant
            i <= a.len(),
            a.len() == b.len(),
            forall|k: int| 0 <= k < i ==> a@[k] == b@[k],
        decreases a.len() - i,
    {
        if a[i] != b[i] {
            return false;
        }
        i += 1;
    }
    assert(a@ =~= b@);
    true
}

impl TempExpr {
    /// A copy with the same model.
    pub fn copy(&self) -> (r: TempExpr)
        ensures
            r@ == self@,
    {
        match self {
            TempExpr::Const(n) => TempExpr::Const(*n),
            TempExpr::Var(s) => TempExpr::Var(s.clone()),
            TempExpr::BinOp { op, left, right } => TempExpr::BinOp { op: *op, left: *left, right: *right },
            TempExpr::UnaryOp { op, operand } => TempExpr::UnaryOp { op: *op, operand: *operand },
            TempExpr::Call { name, args } => TempExpr::Call { name: name.clone(), args: copy_temps(args) },
            TempExpr::NativeCall { id, args } => TempExpr::NativeCall { id: *id, args: copy_temps(args) },
            TempExpr::Str(s) => TempExpr::Str(s.clone()),
            TempExpr::StrConcat { left, right } => TempExpr::StrConcat { left: *left, right: *right },
            TempExpr::StrCmp { op, left, right } => TempExpr::StrCmp { op: *op, left: *left, right: *right },
            TempExpr::ArrLit { elements } => TempExpr::ArrLit { elements: copy_temps(elements) },
            TempExpr::ArrIndex { arr, index } => TempExpr::ArrIndex { arr: *arr, index: *index },
        }
    }

    /// Whether two computed values are the same.
    pub fn same(&self, other: &TempExpr) -> (r: bool)
        ensures
            r == (self@ == other@),
    {
        match (self, other) {
            (TempExpr::Const(a), TempExpr::Const(b)) => *a == *b,
            (TempExpr::Var(a), TempExpr::Var(b)) => *a == *b,
            (TempExpr::BinOp { op: o1, left: l1, right: r1 }, TempExpr::BinOp { op: o2, left: l2, right: r2 }) =>
                *o1 == *o2 && *l1 == *l2 && *r1 == *r2,
            (TempExpr::UnaryOp { op: o1, operand: a }, TempExpr::UnaryOp { op: o2, operand: b }) =>
                *o1 == *o2 && *a == *b,
            (TempExpr::Call { name: n1, args: a1 }, TempExpr::Call { name: n2, args: a2 }) =>
                *n1 == *n2 && same_temps(a1, a2),
            (TempExpr::NativeCall { id: i1, args: a1 }, TempExpr::NativeCall { id: i2, args: a2 }) =>
                *i1 == *i2 && same_temps(a1, a2),
            (TempExpr::Str(a), TempExpr::Str(b)) => *a == *b,
            (TempExpr::StrConcat { left: l1, right: r1 }, TempExpr::StrConcat { left: l2, right: r2 }) =>
                *l1 == *l2 && *r1 == *r2,
            (TempExpr::StrCmp { op: o1, left: l1, right: r1 }, TempExpr::StrCmp { op: o2, left: l2, right: r2 }) =>
                *o1 == *o2 && *l1 == *l2 && *r1 == *r2,
            (TempExpr::ArrLit { elements: a }, TempExpr::ArrLit { elements: b }) => same_temps(a, b),
            (TempExpr::ArrIndex { arr: a1, index: i1 }, TempExpr::ArrIndex { arr: a2, index: i2 }) =>
                *a1 == *a2 && *i1 == *i2,
            _ => false,
        }
    }
}

/// A statement of the intermediate representation.
#[derive(Debug)]
pub enum IrStmt {
    Compute { dest: Temp, expr: TempExpr },
    Assign { name: String, value: Temp },
    ArrAssign { name: String, index: Temp, value: Temp },
    Print(Temp),
    While { condition: Temp, body: Vec<IrStmt> },
    If { condition: Temp, then_body: Vec<IrStmt>, else_body: Vec<IrStmt> },
    Func { name: String, params: Vec<String>, body: Vec<IrStmt> },
    Return(Temp),
    Native { id: u8, args: Vec<Temp> },
    Break,
    Continue,
}

/// Mathematical model of an IR statement.
#[verifier::ext_equal]
pub enum SIrStmt {
    Compute { dest: usize, expr: STempExpr },
    Assign { name: Seq<char>, value: usize },
    ArrAssign { name: Seq<char>, index: usize, value: usize },
    Print(usize),
    While { condition: usize, body: Seq<SIrStmt> },
    If { condition: usize, then_body: Seq<SIrStmt>, else_body: Seq<SIrStmt> },
    Func { name: Seq<char>, params: Seq<Seq<char>>, body: Seq<SIrStmt> },
    Return(usize),
    Native { id: u8, args: Seq<usize> },
    Break,
    Continue,
}

/// The model of an IR statement.
pub open spec fn ir_model(s: IrStmt) -> SIrStmt
    decreases s,
{
    match s {
        IrStmt::Compute { dest, expr } => SIrStmt::Compute { dest, expr: expr@ },
        IrStmt::Assign { name, value } => SIrStmt::Assign { name: name@, value },
        IrStmt::ArrAssign { name, index, value } => SIrStmt::ArrAssign { name: name@, index, value },
        IrStmt::Print(t) => SIrStmt::Print(t),
        IrStmt::While { condition, body } => SIrStmt::While {
            condition,
            body: Seq::new(body.len() as nat, |i: int| if 0 <= i < body.len() { ir_model(body@[i]) } else { SIrStmt::Break }),
        },
        IrStmt::If { condition, then_body, else_body } => SIrStmt::If {
            condition,
            then_body: Seq::new(then_body.len() as nat, |i: int| if 0 <= i < then_body.len() { ir_model(then_body@[i]) } else { SIrStmt::Break }),
            else_body: Seq::new(else_body.len() as nat, |i: int| if 0 <= i < else_body.len() { ir_model(else_body@[i]) } else { SIrStmt::Break }),
        },
        IrStmt::Func { name, params, body } => SIrStmt::Func {
            name: name@,
            params: names_model(params@),
            body: Seq::new(body.len() as nat, |i: int| if 0 <= i < body.len() { ir_model(body@[i]) } else { SIrStmt::Break }),
        },
        IrStmt::Return(t) => SIrStmt::Return(t),
        IrStmt::Native { id, args } => SIrStmt::Native { id, args: args@ },
        IrStmt::Break => SIrStmt::Break,
        IrStmt::Continue => SIrStmt::Continue,
    }
}

/// The models of a sequence of IR statements.
pub open spec fn irs_model(v: Seq<IrStmt>) -> Seq<SIrStmt> {
    Seq::new(v.len() as nat, |i: int| ir_model(v[i]))
}

impl View for IrStmt {
    type V = SIrStmt;

    open spec fn view(&self) -> SIrStmt {
        ir_model(*self)
    }
}

/// A copy of a list of IR statements, with the same models.
pub fn copy_ir_stmts(v: &Vec<IrStmt>) -> (r: Vec<IrStmt>)
    ensures
        irs_model(r@) == irs_model(v@),
    decreases v@,
{
    let mut r: Vec<IrStmt> = Vec::new();
    let mut i: usize = 0;
    while i < v.len()
        invariant
            i <= v.len(),
            r.len() == i,
            forall|k: int| 0 <= k < i ==> ir_model(#[trigger] r@[k]) == ir_model(v@[k]),
        decreases v.len() - i,
    {
        proof {
            assert(decreases_to!(v@ => v@[i as int]));
        }
        let c = v[i].copy();
        r.push(c);
        i += 1;
    }
    assert(irs_model(r@) =~= irs_model(v@));
    r
}

impl IrStmt {
    /// A copy with the same model.
    pub fn copy(&self) -> (r: IrStmt)
        ensures
            r@ == self@,
        decreases self,
    {
        match self {
            IrStmt::Compute { dest, expr } => IrStmt::Compute { dest: *dest, expr: expr.copy() },
            IrStmt::Assign { name, value } => IrStmt::Assign { name: name.clone(), value: *value },
            IrStmt::ArrAssign { name, index, value } => IrStmt::ArrAssign { name: name.clone(), index: *index, value: *value },
            IrStmt::Print(t) => IrStmt::Print(*t),
            IrStmt::While { condition, body } => {
                proof {
                    assert(decreases_to!(*self => (*self)->While_body));
                    assert(decreases_to!(*body => body@));
                }
                let b = copy_ir_stmts(body);
                let r = IrStmt::While { condition: *condition, body: b };
                assert((r@)->While_body =~= (self@)->While_body) by {
                    assert((r@)->While_body == irs_model(b@));
                    assert((self@)->While_body =~= irs_model(body@));
                }
                r
            },
            IrStmt::If { condition, then_body, else_body } => {
                proof {
                    assert(decreases_to!(*self => (*self)->If_then_body));
                    assert(decreases_to!(*then_body => then_body@));
                    assert(decreases_to!(*self => (*self)->If_else_body));
                    assert(decreases_to!(*else_body => else_body@));
                }
                let t = copy_ir_stmts(then_body);
                let e = copy_ir_stmts(else_body);
                let r = IrStmt::If { condition: *condition, then_body: t, else_body: e };
                assert((r@)->If_then_body =~= (self@)->If_then_body) by {
                    assert((r@)->If_then_body =~= irs_model(t@));
                    assert((self@)->If_then_body =~= irs_model(then_body@));
                }
                assert((r@)->If_else_body =~= (self@)->If_else_body) by {
                    assert((r@)->If_else_body =~= irs_model(e@));
                    assert((self@)->If_else_body =~= irs_model(else_body@));
                }
                r
            },
            IrStmt::Func { name, params, body } => {
                proof {
                    assert(decreases_to!(*self => (*self)->Func_body));
                    assert(decreases_to!(*body => body@));
                }
                let b = copy_ir_stmts(body);
                let r = IrStmt::Func { name: name.clone(), params: copy_strings(params), body: b };
                assert((r@)->Func_body =~= (self@)->Func_body) by {
                    assert((r@)->Func_body =~= irs_model(b@));
                    assert((self@)->Func_body =~= irs_model(body@));
                }
                r
            },
            IrStmt::Return(t) => IrStmt::Return(*t),
            IrStmt::Native { id, args } => IrStmt::Native { id: *id, args: copy_temps(args) },
            IrStmt::Break => IrStmt::Break,
            IrStmt::Continue => IrStmt::Continue,
        }
    }
}

impl Clone for TempExpr {
    fn clone(&self) -> (r: Self)
        ensures
            r@ == self@,
    {
        self.copy()
    }
}

impl Clone for IrStmt {
    fn clone(&self) -> (r: Self)
        ensures
            r@ == self@,
    {
        self.copy()
    }
}

/// A program in the intermediate representation.
#[derive(Debug)]
pub struct IrProgram {
    pub stmts: Vec<IrStmt>,
}

/// The state of the IR builder: the computed values by temporary, the
/// cache of values already computed, the temporaries whose computation was
/// already emitted, and the variable types.
pub struct IrState {
    pub temps: Seq<STempExpr>,
    pub cache: Map<STempExpr, usize>,
    pub emitted: Set<usize>,
    pub globals: Map<Seq<char>, Type>,
}

/// The temporaries a value is computed from.
pub open spec fn deps(x: STempExpr) -> Seq<usize> {
    match x {
        STempExpr::Const(_) | STempExpr::Var(_) | STempExpr::Str(_) => Seq::empty(),
        STempExpr::BinOp { left, right, .. } => seq![left, right],
        STempExpr::UnaryOp { operand, .. } => seq![operand],
        STempExpr::Call { args, .. } => args,
        STempExpr::NativeCall { args, .. } => args,
        STempExpr::StrConcat { left, right } => seq![left, right],
        STempExpr::StrCmp { left, right, .. } => seq![left, right],
        STempExpr::ArrLit { elements } => elements,
        STempExpr::ArrIndex { arr, index } => seq![arr, index],
    }
}

/// Every temporary a value is computed from lies below `n`.
pub open spec fn deps_below(x: STempExpr, n: int) -> bool {
    forall|i: int| 0 <= i < deps(x).len() ==> #[trigger] deps(x)[i] < n
}

/// The builder state is consistent: each cached value is the value of its
/// temporary, emitted temporaries exist, and every value is computed from
/// earlier temporaries.
pub open spec fn ir_state_wf(st: IrState) -> bool {
    &&& forall|x: STempExpr| #[trigger] st.cache.contains_key(x) ==> st.cache[x] < st.temps.len() && st.temps[st.cache[x] as int] == x
    &&& forall|t: usize| #[trigger] st.emitted.contains(t) ==> t < st.temps.len()
    &&& forall|i: int| 0 <= i < st.temps.len() ==> deps_below(#[trigger] st.temps[i], i)
}

/// Common subexpression elimination: the temporary already holding the
/// value, or a new one.
#[verifier::opaque]
pub open spec fn cse(st: IrState, x: STempExpr) -> (IrState, usize) {
    if st.cache.contains_key(x) {
        (st, st.cache[x])
    } else {
        (
            IrState {
                temps: st.temps.push(x),
                cache: st.cache.insert(x, st.temps.len() as usize),
                ..st
            },
            st.temps.len() as usize,
        )
    }
}

/// Values that are inlined where used and never computed on their own.
pub open spec fn is_trivial(x: STempExpr) -> bool {
    x is Const || x is Var || x is Str
}

/// The computation of a temporary, unless already emitted or trivial.
#[verifier::opaque]
pub open spec fn emit(st: IrState, t: usize) -> (IrState, Seq<SIrStmt>) {
    if st.emitted.contains(t) || is_trivial(st.temps[t as int]) {
        (st, Seq::empty())
    } else {
        (
            IrState { emitted: st.emitted.insert(t), ..st },
            seq![SIrStmt::Compute { dest: t, expr: st.temps[t as int] }],
        )
    }
}

/// The cache entries as a map; a later entry for the same value wins.
pub open spec fn cache_map(es: Seq<(TempExpr, usize)>) -> Map<STempExpr, usize>
    decreases es.len(),
{
    if es.len() == 0 {
        Map::empty()
    } else {
        cache_map(es.drop_last()).insert(es.last().0@, es.last().1)
    }
}

/// Strength reduction: a multiplication by the constant 2 becomes an
/// addition of the other operand to itself.
#[verifier::opaque]
pub open spec fn strength_reduce(x: STempExpr, temps: Seq<STempExpr>) -> STempExpr {
    match x {
        STempExpr::BinOp { op: BinOp::Mul, left, right } => {
            let l2 = left < temps.len() && temps[left as int] == STempExpr::Const(2);
            let r2 = right < temps.len() && temps[right as int] == STempExpr::Const(2);
            if l2 || r2 {
                let inner = if l2 { right } else { left };
                STempExpr::BinOp { op: BinOp::Add, left: inner, right: inner }
            } else {
                x
            }
        },
        _ => x,
    }
}

/// The value of an addition or a multiplication of temporaries, given the
/// values `v` of the temporaries.
pub open spec fn arith_value(x: STempExpr, v: Seq<int>) -> int {
    match x {
        STempExpr::BinOp { op: BinOp::Add, left, right } => v[left as int] + v[right as int],
        STempExpr::BinOp { op: BinOp::Mul, left, right } => v[left as int] * v[right as int],
        _ => 0,
    }
}

/// The product of two temporaries.
pub open spec fn product(left: usize, right: usize) -> STempExpr {
    STempExpr::BinOp { op: BinOp::Mul, left, right }
}

/// Whether a computation is a product.
pub open spec fn is_product(x: STempExpr) -> bool {
    x is BinOp && x->BinOp_op == BinOp::Mul
}

/// Strength reduction keeps the value of a product: for any values of the
/// temporaries that give each constant 2 the value 2, the reduced
/// computation (an addition where a factor is the constant 2) has the value
/// of the product; a product with no factor 2, and every computation that
/// is not a product, is left as it is.
pub proof fn law_strength_reduction_keeps_values(
    left: usize,
    right: usize,
    temps: Seq<STempExpr>,
    v: Seq<int>,
    other: STempExpr,
)
    requires
        left < temps.len(),
        right < temps.len(),
        v.len() == temps.len(),
        forall|i: int| 0 <= i < temps.len() && temps[i] == STempExpr::Const(2) ==> v[i] == 2,
    ensures
        strength_reduce(product(left, right), temps) is BinOp,
        deps(strength_reduce(product(left, right), temps)).len() == 2,
        arith_value(strength_reduce(product(left, right), temps), v) == v[left as int] * v[right as int],
        temps[left as int] != STempExpr::Const(2) && temps[right as int] != STempExpr::Const(2)
            ==> strength_reduce(product(left, right), temps) == product(left, right),
        !is_product(other) ==> strength_reduce(other, temps) == other,
{
    reveal(strength_reduce);
    if temps[left as int] == STempExpr::Const(2) {
        assert(v[left as int] == 2);
        assert(v[left as int] * v[right as int] == v[right as int] + v[right as int]);
    } else if temps[right as int] == STempExpr::Const(2) {
        assert(v[right as int] == 2);
        assert(v[left as int] * v[right as int] == v[left as int] + v[left as int]);
    }
}

/// The IR of an expression: the new state, the computations emitted, and
/// the temporary that holds the expression's value.
pub open spec fn ir_expr(st: IrState, e: SExpr) -> (IrState, Seq<SIrStmt>, usize)
    decreases e,
{
    match e {
        SExpr::Int(n) => {
            let c = cse(st, STempExpr::Const(n));
            (c.0, Seq::empty(), c.1)
        },
        SExpr::Var(name) => {
            let c = cse(st, STempExpr::Var(name));
            (c.0, Seq::empty(), c.1)
        },
        SExpr::Str(text) => {
            let c = cse(st, STempExpr::Str(text));
            (c.0, Seq::empty(), c.1)
        },
        SExpr::Binary { left, op, right } => {
            let a = ir_expr(st, *left);
            let b = ir_expr(a.0, *right);
            let lt = spec_infer_type(*left, st.globals);
            let rt = spec_infer_type(*right, st.globals);
            let raw = if lt == Type::Str || rt == Type::Str {
                if op == BinOp::Add {
                    STempExpr::StrConcat { left: a.2, right: b.2 }
                } else {
                    STempExpr::StrCmp { op, left: a.2, right: b.2 }
                }
            } else {
                strength_reduce(STempExpr::BinOp { op, left: a.2, right: b.2 }, b.0.temps)
            };
            let c = cse(b.0, raw);
            let d = emit(c.0, c.1);
            (d.0, a.1 + b.1 + d.1, c.1)
        },
        SExpr::Unary { op, operand } => {
            let a = ir_expr(st, *operand);
            let c = cse(a.0, STempExpr::UnaryOp { op, operand: a.2 });
            let d = emit(c.0, c.1);
            (d.0, a.1 + d.1, c.1)
        },
        SExpr::Call { name, args } => {
            let a = ir_exprs(st, args);
            let c = cse(a.0, STempExpr::Call { name, args: a.2 });
            let d = emit(c.0, c.1);
            (d.0, a.1 + d.1, c.1)
        },
        SExpr::NativeCall { id, args } => {
            let a = ir_exprs(st, args);
            let c = cse(a.0, STempExpr::NativeCall { id, args: a.2 });
            let d = emit(c.0, c.1);
            (d.0, a.1 + d.1, c.1)
        },
        SExpr::ArrLit(items) => {
            let a = ir_exprs(st, items);
            let c = cse(a.0, STempExpr::ArrLit { elements: a.2 });
            let d = emit(c.0, c.1);
            (d.0, a.1 + d.1, c.1)
        },
        SExpr::ArrIndex { arr, index } => {
            let a = ir_expr(st, *arr);
            let b = ir_expr(a.0, *index);
            let c = cse(b.0, STempExpr::ArrIndex { arr: a.2, index: b.2 });
            let d = emit(c.0, c.1);
            (d.0, a.1 + b.1 + d.1, c.1)
        },
    }
}

/// The IR of expressions in order: the new state, the computations
/// emitted, and the temporaries holding their values.
pub open spec fn ir_exprs(st: IrState, es: Seq<SExpr>) -> (IrState, Seq<SIrStmt>, Seq<usize>)
    decreases es,
{
    if es.len() == 0 {
        (st, Seq::empty(), Seq::empty())
    } else {
        let p = ir_exprs(st, es.subrange(0, es.len() - 1));
        let q = ir_expr(p.0, es[es.len() - 1]);
        (q.0, p.1 + q.1, p.2.push(q.2))
    }
}

/// The state without the cached read of a variable: once the variable
/// changes, a later read needs a new temporary, and so does every value
/// computed from it.
pub open spec fn forget_var(st: IrState, name: Seq<char>) -> IrState {
    IrState { cache: st.cache.remove(STempExpr::Var(name)), ..st }
}

/// The state with no cached value.
pub open spec fn forget_all(st: IrState) -> IrState {
    IrState { cache: Map::empty(), ..st }
}

/// Whether a statement assigns the name, as a variable or as an array,
/// itself or in the loops and branches it holds.
pub open spec fn stmt_assigns(s: SStmt, n: Seq<char>) -> bool
    decreases s,
{
    match s {
        SStmt::Assign { name, .. } => name == n,
        SStmt::ArrAssign { name, .. } => name == n,
        SStmt::While { body, .. } => exists|i: int| 0 <= i < body.len() && stmt_assigns(#[trigger] body[i], n),
        SStmt::If { then_body, else_body, .. } => (exists|i: int|
            0 <= i < then_body.len() && stmt_assigns(#[trigger] then_body[i], n)) || (exists|i: int|
            0 <= i < else_body.len() && stmt_assigns(#[trigger] else_body[i], n)),
        _ => false,
    }
}

/// Whether one of the statements assigns the name, at any depth.
pub open spec fn body_assigns(ss: Seq<SStmt>, n: Seq<char>) -> bool {
    exists|i: int| 0 <= i < ss.len() && stmt_assigns(#[trigger] ss[i], n)
}

/// The cache without the reads of the variables the statements assign.
pub open spec fn forget_assigned(cache: Map<STempExpr, usize>, ss: Seq<SStmt>) -> Map<STempExpr, usize> {
    cache.restrict(Set::new(|x: STempExpr| !(x is Var && body_assigns(ss, x->Var_0))))
}

/// The IR of a statement: the new state and the statements produced. An
/// assignment forgets the cached read of the variable it assigns. A loop
/// forgets the cached values before its condition and afterwards, and
/// computes its condition before it and again at the end of its body. Both
/// parts of a branch start from the values cached after its condition, and
/// after the branch only those stay whose variables neither part assigns:
/// what one part computes is not computed on the other path. A function
/// body starts with no cached value, since it runs where it is called, and
/// the values cached before it stay after it.
pub open spec fn ir_stmt(st: IrState, s: SStmt) -> (IrState, Seq<SIrStmt>)
    decreases s,
{
    match s {
        SStmt::Assign { name, value } => {
            let a = ir_expr(st, value);
            (forget_var(a.0, name), a.1.push(SIrStmt::Assign { name, value: a.2 }))
        },
        SStmt::ArrAssign { name, index, value } => {
            let a = ir_expr(st, index);
            let b = ir_expr(a.0, value);
            (forget_var(b.0, name), (a.1 + b.1).push(SIrStmt::ArrAssign { name, index: a.2, value: b.2 }))
        },
        SStmt::Print(e) => {
            let a = ir_expr(st, e);
            (a.0, a.1.push(SIrStmt::Print(a.2)))
        },
        SStmt::While { condition, body } => {
            let a = ir_expr(forget_all(st), condition);
            let b = ir_body(a.0, body);
            (forget_all(b.0), a.1.push(SIrStmt::While { condition: a.2, body: b.1 + a.1 }))
        },
        SStmt::If { condition, then_body, else_body } => {
            let a = ir_expr(st, condition);
            let t = ir_body(a.0, then_body);
            let e = ir_body(IrState { cache: a.0.cache, ..t.0 }, else_body);
            (
                IrState { cache: forget_assigned(forget_assigned(a.0.cache, then_body), else_body), ..e.0 },
                a.1.push(SIrStmt::If { condition: a.2, then_body: t.1, else_body: e.1 }),
            )
        },
        SStmt::Func { name, params, body } => {
            let b = ir_body(forget_all(st), body);
            (IrState { cache: st.cache, ..b.0 }, seq![SIrStmt::Func { name, params, body: b.1 }])
        },
        SStmt::Return(e) => {
            let a = ir_expr(st, e);
            (a.0, a.1.push(SIrStmt::Return(a.2)))
        },
        SStmt::Native { id, args } => {
            let a = ir_exprs(st, args);
            (a.0, a.1.push(SIrStmt::Native { id, args: a.2 }))
        },
        SStmt::Break => (st, seq![SIrStmt::Break]),
        SStmt::Continue => (st, seq![SIrStmt::Continue]),
    }
}

/// The IR of statements in order, concatenated.
pub open spec fn ir_body(st: IrState, ss: Seq<SStmt>) -> (IrState, Seq<SIrStmt>)
    decreases ss,
{
    if ss.len() == 0 {
        (st, Seq::empty())
    } else {
        let p = ir_body(st, ss.subrange(0, ss.len() - 1));
        let q = ir_stmt(p.0, ss[ss.len() - 1]);
        (q.0, p.1 + q.1)
    }
}

/// Every temporary of the list lies below `n`.
pub open spec fn all_below(ts: Seq<usize>, n: int) -> bool {
    forall|i: int| 0 <= i < ts.len() ==> #[trigger] ts[i] < n
}

/// An IR statement only refers to temporaries below `n`.
pub open spec fn ir_ok(s: SIrStmt, n: int) -> bool
    decreases s,
{
    match s {
        SIrStmt::Compute { dest, expr } => dest < n && deps_below(expr, n),
        SIrStmt::Assign { value, .. } => value < n,
        SIrStmt::ArrAssign { index, value, .. } => index < n && value < n,
        SIrStmt::Print(t) => t < n,
        SIrStmt::While { condition, body } => condition < n && forall|i: int| 0 <= i < body.len() ==> ir_ok(#[trigger] body[i], n),
        SIrStmt::If { condition, then_body, else_body } => condition < n
            && (forall|i: int| 0 <= i < then_body.len() ==> ir_ok(#[trigger] then_body[i], n))
            && (forall|i: int| 0 <= i < else_body.len() ==> ir_ok(#[trigger] else_body[i], n)),
        SIrStmt::Func { body, .. } => forall|i: int| 0 <= i < body.len() ==> ir_ok(#[trigger] body[i], n),
        SIrStmt::Return(t) => t < n,
        SIrStmt::Native { args, .. } => all_below(args, n),
        SIrStmt::Break => true,
        SIrStmt::Continue => true,
    }
}

/// IR statements only refer to temporaries below `n`.
pub open spec fn irs_ok(ss: Seq<SIrStmt>, n: int) -> bool {
    forall|i: int| 0 <= i < ss.len() ==> ir_ok(#[trigger] ss[i], n)
}

/// Referring to temporaries below `n` means referring to temporaries below
/// any larger bound.
pub proof fn lemma_ir_ok_mono(s: SIrStmt, n: int, m: int)
    requires
        ir_ok(s, n),
        n <= m,
    ensures
        ir_ok(s, m),
    decreases s,
{
    match s {
        SIrStmt::Compute { expr, .. } => {
            assert forall|i: int| 0 <= i < deps(expr).len() implies #[trigger] deps(expr)[i] < m by {
            }
        },
        SIrStmt::While { body, .. } => {
            assert forall|i: int| 0 <= i < body.len() implies ir_ok(#[trigger] body[i], m) by {
                lemma_ir_ok_mono(body[i], n, m);
            }
        },
        SIrStmt::If { then_body, else_body, .. } => {
            assert forall|i: int| 0 <= i < then_body.len() implies ir_ok(#[trigger] then_body[i], m) by {
                lemma_ir_ok_mono(then_body[i], n, m);
            }
            assert forall|i: int| 0 <= i < else_body.len() implies ir_ok(#[trigger] else_body[i], m) by {
                lemma_ir_ok_mono(else_body[i], n, m);
            }
        },
        SIrStmt::Func { body, .. } => {
            assert forall|i: int| 0 <= i < body.len() implies ir_ok(#[trigger] body[i], m) by {
                lemma_ir_ok_mono(body[i], n, m);
            }
        },
        _ => {},
    }
}

/// `irs_ok` for a larger bound.
pub proof fn lemma_irs_ok_mono(ss: Seq<SIrStmt>, n: int, m: int)
    requires
        irs_ok(ss, n),
        n <= m,
    ensures
        irs_ok(ss, m),
{
    assert forall|i: int| 0 <= i < ss.len() implies ir_ok(#[trigger] ss[i], m) by {
        lemma_ir_ok_mono(ss[i], n, m);
    }
}

/// The temporaries `b` extend those of `a`: every temporary of `a` keeps
/// its value.
pub open spec fn temps_grow(a: Seq<STempExpr>, b: Seq<STempExpr>) -> bool {
    a.len() <= b.len() && forall|i: int| 0 <= i < a.len() ==> #[trigger] b[i] == a[i]
}

/// Every computation in the statement, at any depth, computes the value of
/// its temporary: `Compute { dest, expr }` has `expr == temps[dest]`.
pub open spec fn ir_computes(s: SIrStmt, temps: Seq<STempExpr>) -> bool
    decreases s,
{
    match s {
        SIrStmt::Compute { dest, expr } => dest < temps.len() && temps[dest as int] == expr,
        SIrStmt::While { body, .. } => forall|i: int| 0 <= i < body.len() ==> ir_computes(#[trigger] body[i], temps),
        SIrStmt::If { then_body, else_body, .. } => (forall|i: int|
            0 <= i < then_body.len() ==> ir_computes(#[trigger] then_body[i], temps)) && (forall|i: int|
            0 <= i < else_body.len() ==> ir_computes(#[trigger] else_body[i], temps)),
        SIrStmt::Func { body, .. } => forall|i: int| 0 <= i < body.len() ==> ir_computes(#[trigger] body[i], temps),
        _ => true,
    }
}

/// Every computation in the statements computes its temporary's value.
pub open spec fn irs_computes(ss: Seq<SIrStmt>, temps: Seq<STempExpr>) -> bool {
    forall|i: int| 0 <= i < ss.len() ==> ir_computes(#[trigger] ss[i], temps)
}

/// A computation of a temporary stays one as temporaries are added.
pub proof fn lemma_ir_computes_mono(s: SIrStmt, a: Seq<STempExpr>, b: Seq<STempExpr>)
    requires
        ir_computes(s, a),
        temps_grow(a, b),
    ensures
        ir_computes(s, b),
    decreases s,
{
    match s {
        SIrStmt::Compute { dest, .. } => {
            assert(b[dest as int] == a[dest as int]);
        },
        SIrStmt::While { body, .. } => {
            assert forall|i: int| 0 <= i < body.len() implies ir_computes(#[trigger] body[i], b) by {
                lemma_ir_computes_mono(body[i], a, b);
            }
        },
        SIrStmt::If { then_body, else_body, .. } => {
            assert forall|i: int| 0 <= i < then_body.len() implies ir_computes(#[trigger] then_body[i], b) by {
                lemma_ir_computes_mono(then_body[i], a, b);
            }
            assert forall|i: int| 0 <= i < else_body.len() implies ir_computes(#[trigger] else_body[i], b) by {
                lemma_ir_computes_mono(else_body[i], a, b);
            }
        },
        SIrStmt::Func { body, .. } => {
            assert forall|i: int| 0 <= i < body.len() implies ir_computes(#[trigger] body[i], b) by {
                lemma_ir_computes_mono(body[i], a, b);
            }
        },
        _ => {},
    }
}

/// `irs_computes` as temporaries are added.
pub proof fn lemma_irs_computes_mono(ss: Seq<SIrStmt>, a: Seq<STempExpr>, b: Seq<STempExpr>)
    requires
        irs_computes(ss, a),
        temps_grow(a, b),
    ensures
        irs_computes(ss, b),
{
    assert forall|i: int| 0 <= i < ss.len() implies ir_computes(#[trigger] ss[i], b) by {
        lemma_ir_computes_mono(ss[i], a, b);
    }
}

/// Joining statements whose computations compute their temporaries.
pub proof fn lemma_irs_computes_concat(x: Seq<SIrStmt>, y: Seq<SIrStmt>, t: Seq<STempExpr>)
    requires
        irs_computes(x, t),
        irs_computes(y, t),
    ensures
        irs_computes(x + y, t),
{
    assert forall|i: int| 0 <= i < (x + y).len() implies ir_computes(#[trigger] (x + y)[i], t) by {
        if i < x.len() {
            assert((x + y)[i] == x[i]);
        } else {
            assert((x + y)[i] == y[i - x.len()]);
        }
    }
}

/// Joining statements that refer to temporaries below `n`.
pub proof fn lemma_irs_ok_concat(a: Seq<SIrStmt>, b: Seq<SIrStmt>, n: int)
    requires
        irs_ok(a, n),
        irs_ok(b, n),
    ensures
        irs_ok(a + b, n),
{
    assert forall|i: int| 0 <= i < (a + b).len() implies ir_ok(#[trigger] (a + b)[i], n) by {
        if i < a.len() {
            assert((a + b)[i] == a[i]);
        } else {
            assert((a + b)[i] == b[i - a.len()]);
        }
    }
}

/// The models of the computed values.
pub open spec fn temps_model(v: Seq<TempExpr>) -> Seq<STempExpr> {
    Seq::new(v.len(), |i: int| v[i]@)
}

/// The variable that holds a temporary in the generated source.
pub open spec fn tmp_name(t: usize) -> Seq<char> {
    "__tmp"@ + spec_decimal(t as nat)
}

/// A temporary as an expression: constants, variables and strings inline,
/// other values through their variable.
pub open spec fn ast_of_temp(t: usize, temps: Seq<STempExpr>) -> SExpr {
    match temps[t as int] {
        STempExpr::Const(n) => SExpr::Int(n),
        STempExpr::Var(name) => SExpr::Var(name),
        STempExpr::Str(text) => SExpr::Str(text),
        _ => SExpr::Var(tmp_name(t)),
    }
}

/// Temporaries as expressions.
pub open spec fn asts_of_temps(ts: Seq<usize>, temps: Seq<STempExpr>) -> Seq<SExpr> {
    Seq::new(ts.len(), |i: int| ast_of_temp(ts[i], temps))
}

/// A computed value as an expression over temporaries.
pub open spec fn ast_of_value(x: STempExpr, temps: Seq<STempExpr>) -> SExpr {
    match x {
        STempExpr::Const(n) => SExpr::Int(n),
        STempExpr::Var(name) => SExpr::Var(name),
        STempExpr::Str(text) => SExpr::Str(text),
        STempExpr::BinOp { op, left, right } => SExpr::Binary {
            left: Box::new(ast_of_temp(left, temps)),
            op,
            right: Box::new(ast_of_temp(right, temps)),
        },
        STempExpr::UnaryOp { op, operand } => SExpr::Unary { op, operand: Box::new(ast_of_temp(operand, temps)) },
        STempExpr::Call { name, args } => SExpr::Call { name, args: asts_of_temps(args, temps) },
        STempExpr::NativeCall { id, args } => SExpr::NativeCall { id, args: asts_of_temps(args, temps) },
        STempExpr::StrConcat { left, right } => SExpr::Binary {
            left: Box::new(ast_of_temp(left, temps)),
            op: BinOp::Add,
            right: Box::new(ast_of_temp(right, temps)),
        },
        STempExpr::StrCmp { op, left, right } => SExpr::Binary {
            left: Box::new(ast_of_temp(left, temps)),
            op,
            right: Box::new(ast_of_temp(right, temps)),
        },
        STempExpr::ArrLit { elements } => SExpr::ArrLit(asts_of_temps(elements, temps)),
        STempExpr::ArrIndex { arr, index } => SExpr::ArrIndex {
            arr: Box::new(ast_of_temp(arr, temps)),
            index: Box::new(ast_of_temp(index, temps)),
        },
    }
}

/// An IR statement back as a source statement: a computation becomes an
/// assignment to its temporary's variable.
pub open spec fn ast_of_ir(s: SIrStmt, temps: Seq<STempExpr>) -> SStmt
    decreases s,
{
    match s {
        SIrStmt::Compute { dest, expr } => SStmt::Assign { name: tmp_name(dest), value: ast_of_value(expr, temps) },
        SIrStmt::Assign { name, value } => SStmt::Assign { name, value: ast_of_temp(value, temps) },
        SIrStmt::ArrAssign { name, index, value } => SStmt::ArrAssign {
            name,
            index: ast_of_temp(index, temps),
            value: ast_of_temp(value, temps),
        },
        SIrStmt::Print(t) => SStmt::Print(ast_of_temp(t, temps)),
        SIrStmt::While { condition, body } => SStmt::While {
            condition: ast_of_temp(condition, temps),
            body: ast_of_irs(body, temps),
        },
        SIrStmt::If { condition, then_body, else_body } => SStmt::If {
            condition: ast_of_temp(condition, temps),
            then_body: ast_of_irs(then_body, temps),
            else_body: ast_of_irs(else_body, temps),
        },
        SIrStmt::Func { name, params, body } => SStmt::Func { name, params, body: ast_of_irs(body, temps) },
        SIrStmt::Return(t) => SStmt::Return(ast_of_temp(t, temps)),
        SIrStmt::Native { id, args } => SStmt::Native { id, args: asts_of_temps(args, temps) },
        SIrStmt::Break => SStmt::Break,
        SIrStmt::Continue => SStmt::Continue,
    }
}

/// IR statements back as source statements.
pub open spec fn ast_of_irs(ss: Seq<SIrStmt>, temps: Seq<STempExpr>) -> Seq<SStmt>
    decreases ss,
{
    Seq::new(ss.len(), |i: int| if 0 <= i < ss.len() { ast_of_ir(ss[i], temps) } else { SStmt::Break })
}

/// Builds the intermediate representation of statements, sharing equal
/// computations between temporaries.
pub struct IrBuilder {
    next_temp: Temp,
    pub temps: Vec<TempExpr>,
    expr_cache: Vec<(TempExpr, Temp)>,
    emitted_computes: Vec<Temp>,
    globals: NameMap<Type>,
}

impl IrBuilder {
    /// The builder's state.
    pub closed spec fn model(&self) -> IrState {
        IrState {
            temps: temps_model(self.temps@),
            cache: cache_map(self.expr_cache@),
            emitted: self.emitted_computes@.to_set(),
            globals: self.globals@,
        }
    }

    /// The builder is consistent.
    pub closed spec fn wf(&self) -> bool {
        &&& self.next_temp == self.temps.len()
        &&& ir_state_wf(self.model())
    }

    /// A builder with no temporary that types variables by `globals`.
    pub fn new(globals: NameMap<Type>) -> (r: Self)
        ensures
            r.wf(),
            r.model() == (IrState {
                temps: Seq::empty(),
                cache: Map::empty(),
                emitted: Set::empty(),
                globals: globals@,
            }),
    {
        let r = Self {
            next_temp: 0,
            temps: Vec::new(),
            expr_cache: Vec::new(),
            emitted_computes: Vec::new(),
            globals,
        };
        assert(r.model().temps =~= Seq::<STempExpr>::empty());
        assert(r.model().emitted =~= Set::<usize>::empty());
        r
    }

    fn alloc_temp(&mut self, expr: TempExpr) -> (id: Temp)
        requires
            old(self).wf(),
            deps_below(expr@, old(self).model().temps.len() as int),
            !old(self).model().cache.contains_key(expr@),
        ensures
            id == old(self).model().temps.len(),
            final(self).model() == (IrState { temps: old(self).model().temps.push(expr@), ..old(self).model() }),
            final(self).next_temp == final(self).temps.len(),
            final(self).expr_cache == old(self).expr_cache,
    {
        let id = self.next_temp;
        let ghost x = expr@;
        self.temps.push(expr);
        self.next_temp = self.temps.len();
        assert(self.model().temps =~= old(self).model().temps.push(x));
        id
    }

    /// A copy of the cache.
    fn cache_copy(&self) -> (r: Vec<(TempExpr, Temp)>)
        ensures
            cache_map(r@) == self.model().cache,
    {
        let mut r: Vec<(TempExpr, Temp)> = Vec::new();
        let mut i: usize = 0;
        while i < self.expr_cache.len()
            invariant
                i <= self.expr_cache.len(),
                cache_map(r@) == cache_map(self.expr_cache@.subrange(0, i as int)),
            decreases self.expr_cache.len() - i,
        {
            let e = (self.expr_cache[i].0.copy(), self.expr_cache[i].1);
            let ghost before = r@;
            r.push(e);
            proof {
                let sub = self.expr_cache@.subrange(0, i + 1);
                assert(sub.drop_last() =~= self.expr_cache@.subrange(0, i as int));
                assert(r@.drop_last() =~= before);
            }
            i += 1;
        }
        assert(self.expr_cache@.subrange(0, self.expr_cache@.len() as int) =~= self.expr_cache@);
        r
    }

    /// A copy of a saved cache.
    fn cache_copy_of(&self, saved: &Vec<(TempExpr, Temp)>) -> (r: Vec<(TempExpr, Temp)>)
        ensures
            cache_map(r@) == cache_map(saved@),
    {
        let mut r: Vec<(TempExpr, Temp)> = Vec::new();
        let mut i: usize = 0;
        while i < saved.len()
            invariant
                i <= saved.len(),
                cache_map(r@) == cache_map(saved@.subrange(0, i as int)),
            decreases saved.len() - i,
        {
            let e = (saved[i].0.copy(), saved[i].1);
            let ghost before = r@;
            r.push(e);
            proof {
                let sub = saved@.subrange(0, i + 1);
                assert(sub.drop_last() =~= saved@.subrange(0, i as int));
                assert(r@.drop_last() =~= before);
            }
            i += 1;
        }
        assert(saved@.subrange(0, saved@.len() as int) =~= saved@);
        r
    }

    /// Puts back a cache saved when the temporaries were `at`.
    fn restore_cache(&mut self, saved: Vec<(TempExpr, Temp)>, Ghost(at): Ghost<Seq<STempExpr>>)
        requires
            old(self).wf(),
            temps_grow(at, old(self).model().temps),
            forall|x: STempExpr| #[trigger] cache_map(saved@).contains_key(x) ==> cache_map(saved@)[x] < at.len()
                && at[cache_map(saved@)[x] as int] == x,
        ensures
            final(self).wf(),
            final(self).model() == (IrState { cache: cache_map(saved@), ..old(self).model() }),
    {
        self.expr_cache = saved;
        assert(self.model() =~= (IrState { cache: cache_map(saved@), ..old(self).model() }));
    }

    /// Forgets the cached reads of the variables the statements assign.
    fn forget_assigned(&mut self, body: &Vec<Stmt>)
        requires
            old(self).wf(),
        ensures
            final(self).wf(),
            final(self).model() == (IrState { cache: forget_assigned(old(self).model().cache, stmts_model(body@)), ..old(self).model() }),
    {
        let mut names: Vec<String> = Vec::new();
        assert(names_model(names@) =~= Seq::<Seq<char>>::empty());
        collect_stmt_assigned(body, &mut names);
        let ghost c0 = self.model().cache;
        let ghost nm = names_model(names@);
        let mut k: usize = 0;
        assert(self.model().cache =~= c0.restrict(Set::new(|x: STempExpr| !(x is Var && nm.subrange(0, 0).contains(x->Var_0)))));
        while k < names.len()
            invariant
                k <= names.len(),
                nm == names_model(names@),
                self.wf(),
                self.model() == (IrState { cache: c0.restrict(Set::new(|x: STempExpr| !(x is Var && nm.subrange(0, k as int).contains(x->Var_0)))), ..old(self).model() }),
            decreases names.len() - k,
        {
            let ghost before = self.model().cache;
            self.forget_var(&names[k]);
            proof {
                let n = names@[k as int]@;
                assert(nm[k as int] == n);
                assert(nm.subrange(0, k + 1) =~= nm.subrange(0, k as int).push(n));
                lemma_push_contains(nm.subrange(0, k as int), n);
                assert(self.model().cache =~= c0.restrict(Set::new(|x: STempExpr| !(x is Var && nm.subrange(0, k + 1).contains(x->Var_0)))));
            }
            k += 1;
        }
        proof {
            assert(nm.subrange(0, nm.len() as int) =~= nm);
            assert(self.model().cache =~= forget_assigned(c0, stmts_model(body@)));
        }
    }

    /// Forgets every cached value.
    fn forget_all(&mut self)
        requires
            old(self).wf(),
        ensures
            final(self).wf(),
            final(self).model() == forget_all(old(self).model()),
    {
        self.expr_cache.clear();
        assert(self.model() =~= forget_all(old(self).model()));
    }

    /// Forgets the cached read of a variable.
    fn forget_var(&mut self, name: &String)
        requires
            old(self).wf(),
        ensures
            final(self).wf(),
            final(self).model() == forget_var(old(self).model(), name@),
    {
        let ghost es = self.expr_cache@;
        let ghost key = STempExpr::Var(name@);
        let var = TempExpr::Var(name.clone());
        let mut kept: Vec<(TempExpr, Temp)> = Vec::new();
        let mut i: usize = 0;
        assert(cache_map(kept@) =~= cache_map(es.subrange(0, 0)).remove(key));
        while i < self.expr_cache.len()
            invariant
                i <= self.expr_cache.len(),
                es == self.expr_cache@,
                var@ == key,
                cache_map(kept@) == cache_map(es.subrange(0, i as int)).remove(key),
            decreases self.expr_cache.len() - i,
        {
            let ghost sub = es.subrange(0, i + 1);
            assert(sub.drop_last() =~= es.subrange(0, i as int));
            assert(sub.last() == es[i as int]);
            if self.expr_cache[i].0.same(&var) {
                assert(cache_map(sub).remove(key) =~= cache_map(es.subrange(0, i as int)).remove(key));
            } else {
                let e = (self.expr_cache[i].0.copy(), self.expr_cache[i].1);
                let ghost before = kept@;
                kept.push(e);
                assert(kept@.drop_last() =~= before);
                assert(cache_map(kept@) =~= cache_map(sub).remove(key));
            }
            i += 1;
        }
        assert(es.subrange(0, es.len() as int) =~= es);
        self.expr_cache = kept;
        assert(self.model() =~= forget_var(old(self).model(), name@));
    }

    fn alloc_temp_cse(&mut self, expr: TempExpr) -> (t: Temp)
        requires
            old(self).wf(),
            deps_below(expr@, old(self).model().temps.len() as int),
        ensures
            final(self).wf(),
            (final(self).model(), t) == cse(old(self).model(), expr@),
            t < final(self).model().temps.len(),
            final(self).model().temps.len() >= old(self).model().temps.len(),
            temps_grow(old(self).model().temps, final(self).model().temps),
            final(self).model().globals == old(self).model().globals,
    {
        reveal(cse);
        // the latest cache entry for the value, if any
        let mut i: usize = self.expr_cache.len();
        while i > 0
            invariant
                i <= self.expr_cache.len(),
                self.wf(),
                self.model() == old(self).model(),
                forall|k: int| i <= k < self.expr_cache.len() ==> (#[trigger] self.expr_cache@[k]).0@ != expr@,
            decreases i,
        {
            if self.expr_cache[i - 1].0.same(&expr) {
                let t = self.expr_cache[i - 1].1;
                proof {
                    reveal(cse);
                    lemma_cache_map_last(self.expr_cache@, (i - 1) as int);
                    assert(self.model().cache.contains_key(expr@));
                }
                return t;
            }
            i -= 1;
        }
        proof {
            lemma_cache_map_absent(self.expr_cache@, expr@);
        }
        let ghost x = expr@;
        let ghost st = self.model();
        let id = self.alloc_temp(expr.copy());
        self.expr_cache.push((expr, id));
        proof {
            assert(self.expr_cache@.drop_last() =~= old(self).expr_cache@);
            assert(self.model().cache == st.cache.insert(x, id));
            let ns = self.model();
            assert forall|y: STempExpr| #[trigger] ns.cache.contains_key(y) implies ns.cache[y] < ns.temps.len() && ns.temps[ns.cache[y] as int] == y by {
                if y != x {
                    assert(st.cache.contains_key(y));
                }
            }
            assert forall|t: usize| #[trigger] ns.emitted.contains(t) implies t < ns.temps.len() by {
                assert(st.emitted.contains(t));
            }
            assert forall|k: int| 0 <= k < ns.temps.len() implies deps_below(#[trigger] ns.temps[k], k) by {
                if k < st.temps.len() {
                    assert(ns.temps[k] == st.temps[k]);
                }
            }
        }
        id
    }

    fn emit_compute(&mut self, temp: Temp, computes: &mut Vec<IrStmt>)
        requires
            old(self).wf(),
            temp < old(self).model().temps.len(),
            irs_ok(irs_model(old(computes)@), old(self).model().temps.len() as int),
            irs_computes(irs_model(old(computes)@), old(self).model().temps),
        ensures
            final(self).wf(),
            irs_ok(irs_model(final(computes)@), final(self).model().temps.len() as int),
            irs_computes(irs_model(final(computes)@), final(self).model().temps),
            final(self).model() == emit(old(self).model(), temp).0,
            irs_model(final(computes)@) == irs_model(old(computes)@) + emit(old(self).model(), temp).1,
            final(self).model().temps == old(self).model().temps,
            final(self).model().globals == old(self).model().globals,
    {
        reveal(emit);
        let mut i: usize = 0;
        while i < self.emitted_computes.len()
            invariant
                i <= self.emitted_computes.len(),
                self.wf(),
                self.model() == old(self).model(),
                computes@ == old(computes)@,
                irs_ok(irs_model(old(computes)@), old(self).model().temps.len() as int),
                irs_computes(irs_model(old(computes)@), old(self).model().temps),
                forall|k: int| 0 <= k < i ==> self.emitted_computes@[k] != temp,
            decreases self.emitted_computes.len() - i,
        {
            if self.emitted_computes[i] == temp {
                proof {
                    reveal(emit);
                }
                assert(self.model().emitted.contains(temp));
                assert(irs_model(computes@) =~= irs_model(old(computes)@) + Seq::<SIrStmt>::empty());
                return;
            }
            i += 1;
        }
        assert(!self.model().emitted.contains(temp));
        let expr = &self.temps[temp];
        assert(self.model().temps[temp as int] == expr@);
        match expr {
            TempExpr::Const(_) | TempExpr::Var(_) | TempExpr::Str(_) => {
                assert(irs_model(computes@) =~= irs_model(old(computes)@) + Seq::<SIrStmt>::empty());
                return;
            },
            _ => {},
        }
        let c = IrStmt::Compute { dest: temp, expr: expr.copy() };
        proof {
            let x = self.model().temps[temp as int];
            assert(deps_below(x, temp as int));
            assert(ir_ok(c@, self.model().temps.len() as int));
        }
        let ghost before = irs_model(computes@);
        assert(ir_computes(c@, self.model().temps));
        computes.push(c);
        assert(irs_model(computes@) =~= before.push(c@));
        assert(irs_model(computes@)[before.len() as int] == c@);
        self.emitted_computes.push(temp);
        proof {
            assert(irs_model(computes@) =~= irs_model(old(computes)@) + emit(old(self).model(), temp).1);
            lemma_push_contains(old(self).emitted_computes@, temp);
            assert(self.model().emitted =~= old(self).model().emitted.insert(temp));
            assert(self.model() =~= emit(old(self).model(), temp).0);
        }
    }

    /// Strength reduction of a computed value, looking up the constants of
    /// its operands.
    fn apply_strength_reduction(expr: &TempExpr, temps: &Vec<TempExpr>) -> (r: TempExpr)
        ensures
            r@ == strength_reduce(expr@, temps_model(temps@)),
            forall|n: int| deps_below(expr@, n) ==> deps_below(r@, n),
    {
        reveal(strength_reduce);
        let ghost tm = temps_model(temps@);
        match expr {
            TempExpr::BinOp { op: BinOp::Mul, left, right } => {
                let is_left_two = *left < temps.len() && match &temps[*left] {
                    TempExpr::Const(n) => *n == 2,
                    _ => false,
                };
                let is_right_two = *right < temps.len() && match &temps[*right] {
                    TempExpr::Const(n) => *n == 2,
                    _ => false,
                };
                if is_left_two || is_right_two {
                    let inner = if is_left_two { *right } else { *left };
                    let r = TempExpr::BinOp { op: BinOp::Add, left: inner, right: inner };
                    assert forall|n: int| deps_below(expr@, n) implies deps_below(r@, n) by {
                        assert(deps(expr@)[0] == *left);
                        assert(deps(expr@)[1] == *right);
                    }
                    return r;
                }
                expr.copy()
            },
            _ => expr.copy(),
        }
    }

    fn exprs_to_ir(&mut self, es: &Vec<Expr>, computes: &mut Vec<IrStmt>) -> (ts: Vec<Temp>)
        requires
            old(self).wf(),
            irs_ok(irs_model(old(computes)@), old(self).model().temps.len() as int),
            irs_computes(irs_model(old(computes)@), old(self).model().temps),
        ensures
            final(self).wf(),
            irs_ok(irs_model(final(computes)@), final(self).model().temps.len() as int),
            irs_computes(irs_model(final(computes)@), final(self).model().temps),
            final(self).model() == ir_exprs(old(self).model(), exprs_model(es@)).0,
            irs_model(final(computes)@) == irs_model(old(computes)@) + ir_exprs(old(self).model(), exprs_model(es@)).1,
            ts@ == ir_exprs(old(self).model(), exprs_model(es@)).2,
            forall|k: int| 0 <= k < ts.len() ==> #[trigger] ts@[k] < final(self).model().temps.len(),
            final(self).model().temps.len() >= old(self).model().temps.len(),
            temps_grow(old(self).model().temps, final(self).model().temps),
            final(self).model().globals == old(self).model().globals,
        decreases es@,
    {
        let ghost ms = exprs_model(es@);
        let mut ts: Vec<Temp> = Vec::new();
        let mut i: usize = 0;
        while i < es.len()
            invariant
                i <= es.len(),
                ms == exprs_model(es@),
                self.wf(),
                irs_ok(irs_model(computes@), self.model().temps.len() as int),
                irs_computes(irs_model(computes@), self.model().temps),
                self.model() == ir_exprs(old(self).model(), ms.subrange(0, i as int)).0,
                irs_model(computes@) == irs_model(old(computes)@) + ir_exprs(old(self).model(), ms.subrange(0, i as int)).1,
                ts@ == ir_exprs(old(self).model(), ms.subrange(0, i as int)).2,
                forall|k: int| 0 <= k < ts.len() ==> #[trigger] ts@[k] < self.model().temps.len(),
                self.model().temps.len() >= old(self).model().temps.len(),
                temps_grow(old(self).model().temps, self.model().temps),
                self.model().globals == old(self).model().globals,
            decreases es.len() - i,
        {
            proof {
                assert(decreases_to!(es@ => es@[i as int]));
                let sub = ms.subrange(0, i + 1);
                assert(sub.subrange(0, i as int) =~= ms.subrange(0, i as int));
            }
            let ghost before = irs_model(computes@);
            let ghost len0 = self.model().temps.len();
            let ghost tp0 = self.model().temps;
            let t = self.expr_to_ir(&es[i], computes);
            ts.push(t);
            assert forall|k: int| 0 <= k < ts.len() implies #[trigger] ts@[k] < self.model().temps.len() by {
                if k < ts.len() - 1 {
                    assert(ts@[k] < len0);
                }
            }
            proof {
                let p = ir_exprs(old(self).model(), ms.subrange(0, i as int));
                let q = ir_expr(p.0, ms[i as int]);
                assert(irs_model(computes@) =~= irs_model(old(computes)@) + (p.1 + q.1));
            }
            i += 1;
        }
        assert(ms.subrange(0, es.len() as int) =~= ms);
        ts
    }

    /// The temporary of a value, its computation emitted if needed.
    fn finish(&mut self, raw: TempExpr, computes: &mut Vec<IrStmt>) -> (t: Temp)
        requires
            old(self).wf(),
            deps_below(raw@, old(self).model().temps.len() as int),
            irs_ok(irs_model(old(computes)@), old(self).model().temps.len() as int),
            irs_computes(irs_model(old(computes)@), old(self).model().temps),
        ensures
            final(self).wf(),
            irs_ok(irs_model(final(computes)@), final(self).model().temps.len() as int),
            irs_computes(irs_model(final(computes)@), final(self).model().temps),
            final(self).model() == emit(cse(old(self).model(), raw@).0, cse(old(self).model(), raw@).1).0,
            irs_model(final(computes)@) == irs_model(old(computes)@) + emit(cse(old(self).model(), raw@).0, cse(old(self).model(), raw@).1).1,
            t == cse(old(self).model(), raw@).1,
            t < final(self).model().temps.len(),
            final(self).model().temps.len() >= old(self).model().temps.len(),
            temps_grow(old(self).model().temps, final(self).model().temps),
            final(self).model().globals == old(self).model().globals,
    {
        let t = self.alloc_temp_cse(raw);
        proof {
            lemma_irs_ok_mono(irs_model(computes@), old(self).model().temps.len() as int, self.model().temps.len() as int);
            lemma_irs_computes_mono(irs_model(computes@), old(self).model().temps, self.model().temps);
        }
        self.emit_compute(t, computes);
        t
    }

    #[verifier::spinoff_prover]
    #[verifier::rlimit(40)]
    fn expr_to_ir(&mut self, expr: &Expr, computes: &mut Vec<IrStmt>) -> (t: Temp)
        requires
            old(self).wf(),
            irs_ok(irs_model(old(computes)@), old(self).model().temps.len() as int),
            irs_computes(irs_model(old(computes)@), old(self).model().temps),
        ensures
            final(self).wf(),
            irs_ok(irs_model(final(computes)@), final(self).model().temps.len() as int),
            irs_computes(irs_model(final(computes)@), final(self).model().temps),
            final(self).model() == ir_expr(old(self).model(), expr@).0,
            irs_model(final(computes)@) == irs_model(old(computes)@) + ir_expr(old(self).model(), expr@).1,
            t == ir_expr(old(self).model(), expr@).2,
            t < final(self).model().temps.len(),
            final(self).model().temps.len() >= old(self).model().temps.len(),
            temps_grow(old(self).model().temps, final(self).model().temps),
            final(self).model().globals == old(self).model().globals,
        decreases expr,
    {
        let ghost c0 = irs_model(computes@);
        match expr {
            Expr::Int(n) => {
                let t = self.alloc_temp_cse(TempExpr::Const(*n));
                assert(irs_model(computes@) =~= c0 + Seq::<SIrStmt>::empty());
                proof {
                    lemma_irs_ok_mono(c0, old(self).model().temps.len() as int, self.model().temps.len() as int);
                    lemma_irs_computes_mono(c0, old(self).model().temps, self.model().temps);
                }
                t
            },
            Expr::Var(name) => {
                let t = self.alloc_temp_cse(TempExpr::Var(name.clone()));
                assert(irs_model(computes@) =~= c0 + Seq::<SIrStmt>::empty());
                proof {
                    lemma_irs_ok_mono(c0, old(self).model().temps.len() as int, self.model().temps.len() as int);
                    lemma_irs_computes_mono(c0, old(self).model().temps, self.model().temps);
                }
                t
            },
            Expr::Str(text) => {
                let t = self.alloc_temp_cse(TempExpr::Str(text.clone()));
                assert(irs_model(computes@) =~= c0 + Seq::<SIrStmt>::empty());
                proof {
                    lemma_irs_ok_mono(c0, old(self).model().temps.len() as int, self.model().temps.len() as int);
                    lemma_irs_computes_mono(c0, old(self).model().temps, self.model().temps);
                }
                t
            },
            Expr::Binary { left, op, right } => {
                let ghost st = self.model();
                let l = self.expr_to_ir(left, computes);
                let ghost c1 = irs_model(computes@);
                let r = self.expr_to_ir(right, computes);
                let ghost c2 = irs_model(computes@);
                let left_type = infer_expression_type(left, &self.globals);
                let right_type = infer_expression_type(right, &self.globals);
                let is_str = left_type == Type::Str || right_type == Type::Str;
                let raw = if is_str {
                    match op {
                        BinOp::Add => TempExpr::StrConcat { left: l, right: r },
                        _ => TempExpr::StrCmp { op: *op, left: l, right: r },
                    }
                } else {
                    let plain = TempExpr::BinOp { op: *op, left: l, right: r };
                    Self::apply_strength_reduction(&plain, &self.temps)
                };
                assert(deps_below(raw@, self.model().temps.len() as int));
                let t = self.finish(raw, computes);
                proof {
                    let a = ir_expr(st, left@);
                    let b = ir_expr(a.0, right@);
                    assert(c1 == c0 + a.1);
                    assert(c2 == c1 + b.1);
                    let d = irs_model(computes@).skip(c2.len() as int);
                    assert(irs_model(computes@) =~= c2 + d);
                    assert(irs_model(computes@) =~= c0 + (a.1 + b.1 + d));
                }
                t
            },
            Expr::Unary { op, operand } => {
                let opd = self.expr_to_ir(operand, computes);
                let ghost c1 = irs_model(computes@);
                let t = self.finish(TempExpr::UnaryOp { op: *op, operand: opd }, computes);
                assert(irs_model(computes@) =~= c0 + (c1.skip(c0.len() as int) + irs_model(computes@).skip(c1.len() as int)));
                t
            },
            Expr::Call { name, args } => {
                proof {
                    assert(decreases_to!(*expr => (*expr)->Call_args));
                    assert(decreases_to!(*args => args@));
                    assert(exprs_model(args@) =~= (expr@)->Call_args);
                }
                let ir_args = self.exprs_to_ir(args, computes);
                let ghost c1 = irs_model(computes@);
                assert(deps_below(STempExpr::Call { name: name@, args: ir_args@ }, self.model().temps.len() as int));
                let t = self.finish(TempExpr::Call { name: name.clone(), args: ir_args }, computes);
                assert(irs_model(computes@) =~= c0 + (c1.skip(c0.len() as int) + irs_model(computes@).skip(c1.len() as int)));
                t
            },
            Expr::NativeCall { id, args } => {
                proof {
                    assert(decreases_to!(*expr => (*expr)->NativeCall_args));
                    assert(decreases_to!(*args => args@));
                    assert(exprs_model(args@) =~= (expr@)->NativeCall_args);
                }
                let ir_args = self.exprs_to_ir(args, computes);
                let ghost c1 = irs_model(computes@);
                assert(deps_below(STempExpr::NativeCall { id: *id, args: ir_args@ }, self.model().temps.len() as int));
                let t = self.finish(TempExpr::NativeCall { id: *id, args: ir_args }, computes);
                assert(irs_model(computes@) =~= c0 + (c1.skip(c0.len() as int) + irs_model(computes@).skip(c1.len() as int)));
                t
            },
            Expr::ArrLit(elements) => {
                proof {
                    assert(decreases_to!(*expr => (*expr)->ArrLit_0));
                    assert(decreases_to!(*elements => elements@));
                    assert(exprs_model(elements@) =~= (expr@)->ArrLit_0);
                }
                let el_temps = self.exprs_to_ir(elements, computes);
                let ghost c1 = irs_model(computes@);
                assert(deps_below(STempExpr::ArrLit { elements: el_temps@ }, self.model().temps.len() as int));
                let t = self.finish(TempExpr::ArrLit { elements: el_temps }, computes);
                assert(irs_model(computes@) =~= c0 + (c1.skip(c0.len() as int) + irs_model(computes@).skip(c1.len() as int)));
                t
            },
            Expr::ArrIndex { arr, index } => {
                let ghost st = self.model();
                let arr_temp = self.expr_to_ir(arr, computes);
                let ghost c1 = irs_model(computes@);
                let idx_temp = self.expr_to_ir(index, computes);
                let ghost c2 = irs_model(computes@);
                let t = self.finish(TempExpr::ArrIndex { arr: arr_temp, index: idx_temp }, computes);
                proof {
                    let a = ir_expr(st, arr@);
                    let b = ir_expr(a.0, index@);
                    assert(c1 == c0 + a.1);
                    assert(c2 == c1 + b.1);
                    let d = irs_model(computes@).skip(c2.len() as int);
                    assert(irs_model(computes@) =~= c2 + d);
                    assert(irs_model(computes@) =~= c0 + (a.1 + b.1 + d));
                }
                t
            },
        }
    }

    fn body_to_ir(&mut self, ss: &Vec<Stmt>) -> (r: Vec<IrStmt>)
        requires
            old(self).wf(),
        ensures
            final(self).wf(),
            irs_ok(irs_model(r@), final(self).model().temps.len() as int),
            irs_computes(irs_model(r@), final(self).model().temps),
            (final(self).model(), irs_model(r@)) == ir_body(old(self).model(), stmts_model(ss@)),
            final(self).model().temps.len() >= old(self).model().temps.len(),
            temps_grow(old(self).model().temps, final(self).model().temps),
            final(self).model().globals == old(self).model().globals,
        decreases ss@,
    {
        let ghost ms = stmts_model(ss@);
        let mut out: Vec<IrStmt> = Vec::new();
        let mut i: usize = 0;
        while i < ss.len()
            invariant
                i <= ss.len(),
                ms == stmts_model(ss@),
                self.wf(),
                irs_ok(irs_model(out@), self.model().temps.len() as int),
                irs_computes(irs_model(out@), self.model().temps),
                (self.model(), irs_model(out@)) == ir_body(old(self).model(), ms.subrange(0, i as int)),
                self.model().temps.len() >= old(self).model().temps.len(),
                temps_grow(old(self).model().temps, self.model().temps),
                self.model().globals == old(self).model().globals,
            decreases ss.len() - i,
        {
            proof {
                assert(decreases_to!(ss@ => ss@[i as int]));
                let sub = ms.subrange(0, i + 1);
                assert(sub.subrange(0, i as int) =~= ms.subrange(0, i as int));
                assert(sub[i as int] == ss@[i as int]@);
            }
            let ghost before = out@;
            let ghost len0 = self.model().temps.len();
            let ghost tp0 = self.model().temps;
            let mut part = self.stmt_to_ir(&ss[i]);
            let ghost pm = irs_model(part@);
            out.append(&mut part);
            assert(irs_model(out@) =~= irs_model(before) + pm);
            proof {
                lemma_irs_ok_mono(irs_model(before), len0 as int, self.model().temps.len() as int);
                lemma_irs_computes_mono(irs_model(before), tp0, self.model().temps);
                lemma_irs_ok_concat(irs_model(before), pm, self.model().temps.len() as int);
                lemma_irs_computes_concat(irs_model(before), pm, self.model().temps);
            }
            i += 1;
        }
        assert(ms.subrange(0, ss.len() as int) =~= ms);
        out
    }

    /// The IR of a statement: the computations it needs, then the statement.
    #[verifier::spinoff_prover]
    pub fn stmt_to_ir(&mut self, stmt: &Stmt) -> (result: Vec<IrStmt>)
        requires
            old(self).wf(),
        ensures
            final(self).wf(),
            ir_state_wf(final(self).model()),
            irs_ok(irs_model(result@), final(self).model().temps.len() as int),
            irs_computes(irs_model(result@), final(self).model().temps),
            (final(self).model(), irs_model(result@)) == ir_stmt(old(self).model(), stmt@),
            final(self).model().temps.len() >= old(self).model().temps.len(),
            temps_grow(old(self).model().temps, final(self).model().temps),
            final(self).model().globals == old(self).model().globals,
        decreases stmt,
    {
        let mut result: Vec<IrStmt> = Vec::new();
        let ghost st = self.model();
        assert(irs_model(result@) =~= Seq::<SIrStmt>::empty());
        match stmt {
            Stmt::Assign { name, value } => {
                let val_temp = self.expr_to_ir(value, &mut result);
                let ghost before = irs_model(result@);
                result.push(IrStmt::Assign { name: name.clone(), value: val_temp });
                assert(irs_model(result@) =~= before.push(SIrStmt::Assign { name: name@, value: val_temp }));
                self.forget_var(name);
            },
            Stmt::ArrAssign { name, index, value } => {
                let idx_temp = self.expr_to_ir(index, &mut result);
                let val_temp = self.expr_to_ir(value, &mut result);
                let ghost before = irs_model(result@);
                result.push(IrStmt::ArrAssign { name: name.clone(), index: idx_temp, value: val_temp });
                assert(irs_model(result@) =~= before.push(SIrStmt::ArrAssign { name: name@, index: idx_temp, value: val_temp }));
                self.forget_var(name);
            },
            Stmt::Print(expr) => {
                let t = self.expr_to_ir(expr, &mut result);
                let ghost before = irs_model(result@);
                result.push(IrStmt::Print(t));
                assert(irs_model(result@) =~= before.push(SIrStmt::Print(t)));
            },
            Stmt::While { condition, body } => {
                proof {
                    assert(stmts_model(body@) =~= (stmt@)->While_body);
                    assert(decreases_to!(*stmt => (*stmt)->While_body));
                    assert(decreases_to!(*body => body@));
                }
                // the condition is computed before the loop and again at
                // the end of each iteration
                self.forget_all();
                let mut cond_ir: Vec<IrStmt> = Vec::new();
                assert(irs_model(cond_ir@) =~= Seq::<SIrStmt>::empty());
                let cond_temp = self.expr_to_ir(condition, &mut cond_ir);
                let ghost cm = irs_model(cond_ir@);
                let ghost len1 = self.model().temps.len();
                let ghost tp1 = self.model().temps;
                let mut body_ir = self.body_to_ir(body);
                let ghost bm = irs_model(body_ir@);
                proof {
                    lemma_irs_ok_mono(cm, len1 as int, self.model().temps.len() as int);
                    lemma_irs_computes_mono(cm, tp1, self.model().temps);
                    lemma_irs_ok_concat(bm, cm, self.model().temps.len() as int);
                    lemma_irs_computes_concat(bm, cm, self.model().temps);
                    lemma_irs_ok_concat(cm, seq![SIrStmt::While { condition: cond_temp, body: bm + cm }], self.model().temps.len() as int);
                    lemma_irs_computes_concat(cm, seq![SIrStmt::While { condition: cond_temp, body: bm + cm }], self.model().temps);
                    assert(cm.push(SIrStmt::While { condition: cond_temp, body: bm + cm }) =~= cm + seq![SIrStmt::While { condition: cond_temp, body: bm + cm }]);
                }
                let mut again = copy_ir_stmts(&cond_ir);
                body_ir.append(&mut again);
                assert(irs_model(body_ir@) =~= bm + cm);
                result.append(&mut cond_ir);
                let ghost before = irs_model(result@);
                let ghost bv = body_ir@;
                result.push(IrStmt::While { condition: cond_temp, body: body_ir });
                proof {
                    let w = result@[result@.len() - 1];
                    assert(ir_model(w)->While_body =~= irs_model(bv));
                    assert(irs_model(result@) =~= cm.push(SIrStmt::While { condition: cond_temp, body: bm + cm }));
                }
                self.forget_all();
            },
            Stmt::If { condition, then_body, else_body } => {
                proof {
                    assert(stmts_model(then_body@) =~= (stmt@)->If_then_body);
                    assert(stmts_model(else_body@) =~= (stmt@)->If_else_body);
                    assert(decreases_to!(*stmt => (*stmt)->If_then_body));
                    assert(decreases_to!(*then_body => then_body@));
                    assert(decreases_to!(*stmt => (*stmt)->If_else_body));
                    assert(decreases_to!(*else_body => else_body@));
                }
                let mut cond_computes: Vec<IrStmt> = Vec::new();
                assert(irs_model(cond_computes@) =~= Seq::<SIrStmt>::empty());
                let cond_temp = self.expr_to_ir(condition, &mut cond_computes);
                let ghost cm = irs_model(cond_computes@);
                let ghost len1 = self.model().temps.len();
                let ghost tp1 = self.model().temps;
                let saved = self.cache_copy();
                let ghost at = self.model().temps;
                let then_ir = self.body_to_ir(then_body);
                let ghost len2 = self.model().temps.len();
                let ghost tp2 = self.model().temps;
                let again = self.cache_copy_of(&saved);
                self.restore_cache(again, Ghost(at));
                let else_ir = self.body_to_ir(else_body);
                proof {
                    lemma_irs_ok_mono(cm, len1 as int, self.model().temps.len() as int);
                    lemma_irs_computes_mono(cm, tp1, self.model().temps);
                    lemma_irs_ok_mono(irs_model(then_ir@), len2 as int, self.model().temps.len() as int);
                    lemma_irs_computes_mono(irs_model(then_ir@), tp2, self.model().temps);
                    let x = SIrStmt::If { condition: cond_temp, then_body: irs_model(then_ir@), else_body: irs_model(else_ir@) };
                    lemma_irs_ok_concat(cm, seq![x], self.model().temps.len() as int);
                    lemma_irs_computes_concat(cm, seq![x], self.model().temps);
                    assert(cm.push(x) =~= cm + seq![x]);
                }
                result.append(&mut cond_computes);
                let ghost tm = irs_model(then_ir@);
                let ghost em = irs_model(else_ir@);
                let ghost tv = then_ir@;
                let ghost ev = else_ir@;
                result.push(IrStmt::If { condition: cond_temp, then_body: then_ir, else_body: else_ir });
                proof {
                    let w = result@[result@.len() - 1];
                    assert(ir_model(w)->If_then_body =~= irs_model(tv));
                    assert(ir_model(w)->If_else_body =~= irs_model(ev));
                    assert(irs_model(result@) =~= cm.push(SIrStmt::If { condition: cond_temp, then_body: tm, else_body: em }));
                }
                self.restore_cache(saved, Ghost(at));
                self.forget_assigned(then_body);
                self.forget_assigned(else_body);
            },
            Stmt::Func { name, params, body } => {
                proof {
                    assert(stmts_model(body@) =~= (stmt@)->Func_body);
                    assert(names_model(params@) == (stmt@)->Func_params);
                    assert(decreases_to!(*stmt => (*stmt)->Func_body));
                    assert(decreases_to!(*body => body@));
                }
                let saved = self.cache_copy();
                let ghost at = self.model().temps;
                self.forget_all();
                let body_ir = self.body_to_ir(body);
                let ghost bm = irs_model(body_ir@);
                let ghost bv = body_ir@;
                result.push(IrStmt::Func { name: name.clone(), params: copy_strings(params), body: body_ir });
                proof {
                    let w = result@[0];
                    assert(ir_model(w)->Func_body =~= irs_model(bv));
                    assert(irs_model(result@) =~= seq![SIrStmt::Func { name: name@, params: names_model(params@), body: bm }]);
                }
                self.restore_cache(saved, Ghost(at));
            },
            Stmt::Return(expr) => {
                let t = self.expr_to_ir(expr, &mut result);
                let ghost before = irs_model(result@);
                result.push(IrStmt::Return(t));
                assert(irs_model(result@) =~= before.push(SIrStmt::Return(t)));
            },
            Stmt::Native { id, args } => {
                assert(exprs_model(args@) =~= (stmt@)->Native_args);
                let ir_args = self.exprs_to_ir(args, &mut result);
                let ghost before = irs_model(result@);
                let ghost am = ir_args@;
                result.push(IrStmt::Native { id: *id, args: ir_args });
                assert(irs_model(result@) =~= before.push(SIrStmt::Native { id: *id, args: am }));
            },
            Stmt::Break => {
                result.push(IrStmt::Break);
                assert(irs_model(result@) =~= seq![SIrStmt::Break]);
            },
            Stmt::Continue => {
                result.push(IrStmt::Continue);
                assert(irs_model(result@) =~= seq![SIrStmt::Continue]);
            },
        }
        result
    }

    /// The IR of a program: the IR of its statements, in order.
    pub fn build_program(&mut self, program: &[Stmt]) -> (r: IrProgram)
        requires
            old(self).wf(),
        ensures
            final(self).wf(),
            ir_state_wf(final(self).model()),
            (final(self).model(), irs_model(r.stmts@)) == ir_body(old(self).model(), stmts_model(program@)),
            irs_ok(irs_model(r.stmts@), final(self).model().temps.len() as int),
            irs_computes(irs_model(r.stmts@), final(self).model().temps),
    {
        let ghost ms = stmts_model(program@);
        let mut stmts: Vec<IrStmt> = Vec::new();
        assert(irs_model(stmts@) =~= Seq::<SIrStmt>::empty());
        let mut i: usize = 0;
        while i < program.len()
            invariant
                i <= program@.len(),
                ms == stmts_model(program@),
                self.wf(),
                irs_ok(irs_model(stmts@), self.model().temps.len() as int),
                irs_computes(irs_model(stmts@), self.model().temps),
                (self.model(), irs_model(stmts@)) == ir_body(old(self).model(), ms.subrange(0, i as int)),
            decreases program@.len() - i,
        {
            proof {
                let sub = ms.subrange(0, i + 1);
                assert(sub.subrange(0, i as int) =~= ms.subrange(0, i as int));
                assert(sub[i as int] == program@[i as int]@);
            }
            let ghost before = stmts@;
            let ghost len0 = self.model().temps.len();
            let ghost tp0 = self.model().temps;
            let mut part = self.stmt_to_ir(&program[i]);
            let ghost pm = irs_model(part@);
            stmts.append(&mut part);
            assert(irs_model(stmts@) =~= irs_model(before) + pm);
            proof {
                lemma_irs_ok_mono(irs_model(before), len0 as int, self.model().temps.len() as int);
                lemma_irs_computes_mono(irs_model(before), tp0, self.model().temps);
                lemma_irs_ok_concat(irs_model(before), pm, self.model().temps.len() as int);
                lemma_irs_computes_concat(irs_model(before), pm, self.model().temps);
            }
            i += 1;
        }
        assert(ms.subrange(0, program@.len() as int) =~= ms);
        IrProgram { stmts }
    }

    /// The variable that holds a temporary.
    fn tmp_var_name(t: Temp) -> (r: String)
        ensures
            r@ == tmp_name(t),
    {
        let mut s = String::new();
        push_str(&mut s, "__tmp");
        push_decimal(&mut s, t);
        assert(s@ =~= tmp_name(t));
        s
    }

    /// A temporary as an expression.
    fn temp_to_expr(temp: Temp, temps: &Vec<TempExpr>) -> (r: Expr)
        requires
            temp < temps.len(),
        ensures
            r@ == ast_of_temp(temp, temps_model(temps@)),
    {
        match &temps[temp] {
            TempExpr::Const(n) => Expr::Int(*n),
            TempExpr::Var(name) => Expr::Var(name.clone()),
            TempExpr::Str(text) => Expr::Str(text.clone()),
            _ => Expr::Var(Self::tmp_var_name(temp)),
        }
    }

    /// Temporaries as expressions.
    fn temps_to_exprs(ts: &Vec<Temp>, temps: &Vec<TempExpr>) -> (r: Vec<Expr>)
        requires
            forall|k: int| 0 <= k < ts.len() ==> #[trigger] ts@[k] < temps.len(),
        ensures
            exprs_model(r@) == asts_of_temps(ts@, temps_model(temps@)),
    {
        let mut r: Vec<Expr> = Vec::new();
        let mut i: usize = 0;
        while i < ts.len()
            invariant
                i <= ts.len(),
                forall|k: int| 0 <= k < ts.len() ==> #[trigger] ts@[k] < temps.len(),
                r.len() == i,
                forall|k: int| 0 <= k < i ==> expr_model(#[trigger] r@[k]) == ast_of_temp(ts@[k], temps_model(temps@)),
            decreases ts.len() - i,
        {
            r.push(Self::temp_to_expr(ts[i], temps));
            i += 1;
        }
        assert(exprs_model(r@) =~= asts_of_temps(ts@, temps_model(temps@)));
        r
    }

    /// A computed value as an expression over temporaries.
    fn temp_expr_to_ast(expr: &TempExpr, temps: &Vec<TempExpr>) -> (r: Expr)
        requires
            deps_below(expr@, temps.len() as int),
        ensures
            r@ == ast_of_value(expr@, temps_model(temps@)),
    {
        match expr {
            TempExpr::Const(n) => Expr::Int(*n),
            TempExpr::Var(name) => Expr::Var(name.clone()),
            TempExpr::Str(text) => Expr::Str(text.clone()),
            TempExpr::BinOp { op, left, right } => {
                assert(deps(expr@)[0] == *left && deps(expr@)[1] == *right);
                Expr::Binary {
                    left: Box::new(Self::temp_to_expr(*left, temps)),
                    op: *op,
                    right: Box::new(Self::temp_to_expr(*right, temps)),
                }
            },
            TempExpr::UnaryOp { op, operand } => {
                assert(deps(expr@)[0] == *operand);
                Expr::Unary { op: *op, operand: Box::new(Self::temp_to_expr(*operand, temps)) }
            },
            TempExpr::Call { name, args } => {
                let a = Self::temps_to_exprs(args, temps);
                let r = Expr::Call { name: name.clone(), args: a };
                assert((r@)->Call_args =~= exprs_model(a@));
                r
            },
            TempExpr::NativeCall { id, args } => {
                let a = Self::temps_to_exprs(args, temps);
                let r = Expr::NativeCall { id: *id, args: a };
                assert((r@)->NativeCall_args =~= exprs_model(a@));
                r
            },
            TempExpr::StrConcat { left, right } => {
                assert(deps(expr@)[0] == *left && deps(expr@)[1] == *right);
                Expr::Binary {
                    left: Box::new(Self::temp_to_expr(*left, temps)),
                    op: BinOp::Add,
                    right: Box::new(Self::temp_to_expr(*right, temps)),
                }
            },
            TempExpr::StrCmp { op, left, right } => {
                assert(deps(expr@)[0] == *left && deps(expr@)[1] == *right);
                Expr::Binary {
                    left: Box::new(Self::temp_to_expr(*left, temps)),
                    op: *op,
                    right: Box::new(Self::temp_to_expr(*right, temps)),
                }
            },
            TempExpr::ArrLit { elements } => {
                let a = Self::temps_to_exprs(elements, temps);
                let r = Expr::ArrLit(a);
                assert((r@)->ArrLit_0 =~= exprs_model(a@));
                r
            },
            TempExpr::ArrIndex { arr, index } => {
                assert(deps(expr@)[0] == *arr && deps(expr@)[1] == *index);
                Expr::ArrIndex {
                    arr: Box::new(Self::temp_to_expr(*arr, temps)),
                    index: Box::new(Self::temp_to_expr(*index, temps)),
                }
            },
        }
    }

    /// A computation as an assignment to its temporary's variable.
    fn compute_to_stmt(dest: &Temp, expr: &TempExpr, temps: &Vec<TempExpr>) -> (r: Stmt)
        requires
            deps_below(expr@, temps.len() as int),
        ensures
            r@ == (SStmt::Assign { name: tmp_name(*dest), value: ast_of_value(expr@, temps_model(temps@)) }),
    {
        let rhs = Self::temp_expr_to_ast(expr, temps);
        Stmt::Assign { name: Self::tmp_var_name(*dest), value: rhs }
    }

    fn ir_stmts_to_ast(stmts: &Vec<IrStmt>, temps: &Vec<TempExpr>) -> (result: Vec<Stmt>)
        requires
            irs_ok(irs_model(stmts@), temps.len() as int),
        ensures
            stmts_model(result@) == ast_of_irs(irs_model(stmts@), temps_model(temps@)),
        decreases stmts@,
    {
        let ghost tm = temps_model(temps@);
        let mut result: Vec<Stmt> = Vec::new();
        let mut i: usize = 0;
        while i < stmts.len()
            invariant
                i <= stmts.len(),
                tm == temps_model(temps@),
                irs_ok(irs_model(stmts@), temps.len() as int),
                result.len() == i,
                forall|k: int| 0 <= k < i ==> stmt_model(#[trigger] result@[k]) == ast_of_ir(ir_model(stmts@[k]), tm),
            decreases stmts.len() - i,
        {
            let s = &stmts[i];
            proof {
                assert(decreases_to!(stmts@ => stmts@[i as int]));
                assert(ir_ok(irs_model(stmts@)[i as int], temps.len() as int));
            }
            let out = match s {
                IrStmt::Compute { dest, expr } => Self::compute_to_stmt(dest, expr, temps),
                IrStmt::Assign { name, value } => Stmt::Assign { name: name.clone(), value: Self::temp_to_expr(*value, temps) },
                IrStmt::ArrAssign { name, index, value } => Stmt::ArrAssign {
                    name: name.clone(),
                    index: Box::new(Self::temp_to_expr(*index, temps)),
                    value: Self::temp_to_expr(*value, temps),
                },
                IrStmt::Print(t) => Stmt::Print(Self::temp_to_expr(*t, temps)),
                IrStmt::While { condition, body } => {
                    proof {
                        assert(decreases_to!(*s => (*s)->While_body));
                        assert(decreases_to!(*body => body@));
                        assert(irs_model(body@) =~= (s@)->While_body);
                    }
                    let b = Self::ir_stmts_to_ast(body, temps);
                    let r = Stmt::While { condition: Self::temp_to_expr(*condition, temps), body: b };
                    assert((r@)->While_body =~= stmts_model(b@));
                    r
                },
                IrStmt::If { condition, then_body, else_body } => {
                    proof {
                        assert(decreases_to!(*s => (*s)->If_then_body));
                        assert(decreases_to!(*then_body => then_body@));
                        assert(decreases_to!(*s => (*s)->If_else_body));
                        assert(decreases_to!(*else_body => else_body@));
                        assert(irs_model(then_body@) =~= (s@)->If_then_body);
                        assert(irs_model(else_body@) =~= (s@)->If_else_body);
                    }
                    let t = Self::ir_stmts_to_ast(then_body, temps);
                    let e = Self::ir_stmts_to_ast(else_body, temps);
                    let r = Stmt::If { condition: Self::temp_to_expr(*condition, temps), then_body: t, else_body: e };
                    assert((r@)->If_then_body =~= stmts_model(t@));
                    assert((r@)->If_else_body =~= stmts_model(e@));
                    r
                },
                IrStmt::Func { name, params, body } => {
                    proof {
                        assert(decreases_to!(*s => (*s)->Func_body));
                        assert(decreases_to!(*body => body@));
                        assert(irs_model(body@) =~= (s@)->Func_body);
                    }
                    let b = Self::ir_stmts_to_ast(body, temps);
                    let r = Stmt::Func { name: name.clone(), params: copy_strings(params), body: b };
                    assert((r@)->Func_body =~= stmts_model(b@));
                    r
                },
                IrStmt::Return(t) => Stmt::Return(Self::temp_to_expr(*t, temps)),
                IrStmt::Native { id, args } => {
                    proof {
                        assert(irs_model(stmts@)[i as int] == s@);
                        assert(s@ == SIrStmt::Native { id: *id, args: args@ });
                        assert(all_below(args@, temps.len() as int));
                    }
                    let a = Self::temps_to_exprs(args, temps);
                    Stmt::Native { id: *id, args: a }
                },
                IrStmt::Break => Stmt::Break,
                IrStmt::Continue => Stmt::Continue,
            };
            result.push(out);
            i += 1;
        }
        assert(stmts_model(result@) =~= ast_of_irs(irs_model(stmts@), tm));
        result
    }

    /// The IR as source statements again, computations as assignments to
    /// their temporaries' variables.
    pub fn ir_to_ast(&self, ir: &IrProgram) -> (r: Vec<Stmt>)
        requires
            irs_ok(irs_model(ir.stmts@), self.model().temps.len() as int),
        ensures
            stmts_model(r@) == ast_of_irs(irs_model(ir.stmts@), self.model().temps),
    {
        Self::ir_stmts_to_ast(&ir.stmts, &self.temps)
    }

    /// The value of a temporary.
    pub fn get_expr(&self, temp: Temp) -> (r: &TempExpr)
        requires
            temp < self.model().temps.len(),
        ensures
            r@ == self.model().temps[temp as int],
    {
        &self.temps[temp]
    }

    /// Forgets which computations were emitted and which values are cached,
    /// so that later statements compute their values afresh.
    pub fn reset_emitted_computes(&mut self)
        requires
            old(self).wf(),
        ensures
            final(self).wf(),
            final(self).model() == (IrState { emitted: Set::empty(), cache: Map::empty(), ..old(self).model() }),
    {
        self.emitted_computes = Vec::new();
        self.expr_cache = Vec::new();
        assert(self.model().emitted =~= Set::<usize>::empty());
        assert(self.model().cache =~= Map::<STempExpr, usize>::empty());
    }
}

/// The map holds the latest entry for the value found last.
proof fn lemma_cache_map_last(es: Seq<(TempExpr, usize)>, i: int)
    requires
        0 <= i < es.len(),
        forall|k: int| i < k < es.len() ==> (#[trigger] es[k]).0@ != es[i].0@,
    ensures
        cache_map(es).contains_key(es[i].0@),
        cache_map(es)[es[i].0@] == es[i].1,
    decreases es.len(),
{
    if i < es.len() - 1 {
        lemma_cache_map_last(es.drop_last(), i);
        assert(es[es.len() - 1].0@ != es[i].0@);
    }
}

/// A value no entry holds is not in the map.
proof fn lemma_cache_map_absent(es: Seq<(TempExpr, usize)>, x: STempExpr)
    requires
        forall|k: int| 0 <= k < es.len() ==> (#[trigger] es[k]).0@ != x,
    ensures
        !cache_map(es).contains_key(x),
    decreases es.len(),
{
    if es.len() > 0 {
        lemma_cache_map_absent(es.drop_last(), x);
        assert(es[es.len() - 1].0@ != x);
    }
}

/// Whether an IR statement assigns the name, as a variable or as an array,
/// itself or in the loops and branches it holds.
pub open spec fn ir_assigns(s: SIrStmt, n: Seq<char>) -> bool
    decreases s,
{
    match s {
        SIrStmt::Assign { name, .. } => name == n,
        SIrStmt::ArrAssign { name, .. } => name == n,
        SIrStmt::While { body, .. } => exists|i: int| 0 <= i < body.len() && ir_assigns(#[trigger] body[i], n),
        SIrStmt::If { then_body, else_body, .. } => (exists|i: int|
            0 <= i < then_body.len() && ir_assigns(#[trigger] then_body[i], n)) || (exists|i: int|
            0 <= i < else_body.len() && ir_assigns(#[trigger] else_body[i], n)),
        _ => false,
    }
}

/// Whether one of the statements assigns the name, at any depth.
pub open spec fn irs_assign(ss: Seq<SIrStmt>, n: Seq<char>) -> bool {
    exists|i: int| 0 <= i < ss.len() && ir_assigns(#[trigger] ss[i], n)
}

/// The names a loop body assigns, as variables or as arrays, at any depth.
pub open spec fn loop_assigned(body: Seq<SIrStmt>) -> Set<Seq<char>> {
    Set::new(|n: Seq<char>| irs_assign(body, n))
}

/// The temporaries whose values a loop cannot change: those computed or
/// assigned before it, constants, strings, and variables the body does not
/// assign.
pub open spec fn invariant_temps(pre: Seq<SIrStmt>, body: Seq<SIrStmt>, temps: Seq<STempExpr>) -> Set<usize> {
    Set::new(|t: usize|
        (exists|i: int| 0 <= i < pre.len() && ((#[trigger] pre[i] is Compute && pre[i]->Compute_dest == t)
            || (pre[i] is Assign && pre[i]->Assign_value == t)))
        || stable_temp(temps, body, t))
}

/// A temporary whose value cannot change in a loop whatever came before:
/// a constant, a string, or a variable the loop body does not assign.
pub open spec fn stable_temp(temps: Seq<STempExpr>, body: Seq<SIrStmt>, t: usize) -> bool {
    t < temps.len() && (temps[t as int] is Const || temps[t as int] is Str
        || (temps[t as int] is Var && !loop_assigned(body).contains(temps[t as int]->Var_0)))
}

/// A value is loop invariant when it is a constant, a string or a variable,
/// or when every temporary it is computed from is.
pub open spec fn spec_is_invariant(x: STempExpr, inv: Set<usize>) -> bool {
    is_trivial(x) || forall|i: int| 0 <= i < deps(x).len() ==> inv.contains(#[trigger] deps(x)[i])
}

/// A statement that moves out of the loop: an invariant computation.
pub open spec fn hoisted(s: SIrStmt, inv: Set<usize>) -> bool {
    s is Compute && spec_is_invariant(s->Compute_expr, inv)
}

/// A loop body split into the statements that move before the loop and
/// those that stay, each in their original order.
pub open spec fn split_body(body: Seq<SIrStmt>, inv: Set<usize>) -> (Seq<SIrStmt>, Seq<SIrStmt>)
    decreases body.len(),
{
    if body.len() == 0 {
        (Seq::empty(), Seq::empty())
    } else {
        let p = split_body(body.drop_last(), inv);
        if hoisted(body.last(), inv) {
            (p.0.push(body.last()), p.1)
        } else {
            (p.0, p.1.push(body.last()))
        }
    }
}

/// Loop invariant code motion over top-level statements: each loop's
/// invariant computations move right before it.
pub open spec fn licm(ss: Seq<SIrStmt>, temps: Seq<STempExpr>) -> Seq<SIrStmt>
    decreases ss.len(),
{
    if ss.len() == 0 {
        Seq::empty()
    } else {
        let acc = licm(ss.drop_last(), temps);
        match ss.last() {
            SIrStmt::While { condition, body } => {
                let sp = split_body(body, invariant_temps(acc, body, temps));
                acc + sp.0 + seq![SIrStmt::While { condition, body: sp.1 }]
            },
            s => acc.push(s),
        }
    }
}

/// Loop invariant code motion: moves invariant computations out of loop
/// bodies.
pub fn licm_optimize(program: &mut IrProgram, builder: &IrBuilder)
    ensures
        irs_model(final(program).stmts@) == licm(irs_model(old(program).stmts@), builder.model().temps),
{
    let stmts = optimize_stmts(&program.stmts, builder);
    program.stmts = stmts;
}

fn optimize_stmts(stmts: &Vec<IrStmt>, builder: &IrBuilder) -> (result: Vec<IrStmt>)
    ensures
        irs_model(result@) == licm(irs_model(stmts@), builder.model().temps),
{
    let ghost ms = irs_model(stmts@);
    let mut result: Vec<IrStmt> = Vec::new();
    let mut i: usize = 0;
    while i < stmts.len()
        invariant
            i <= stmts.len(),
            ms == irs_model(stmts@),
            irs_model(result@) == licm(ms.subrange(0, i as int), builder.model().temps),
        decreases stmts.len() - i,
    {
        proof {
            let sub = ms.subrange(0, i + 1);
            assert(sub.drop_last() =~= ms.subrange(0, i as int));
            assert(sub.last() == stmts@[i as int]@);
        }
        let ghost acc = irs_model(result@);
        match &stmts[i] {
            IrStmt::While { condition, body } => {
                let inv_temps = compute_invariant_temps(&result, body, builder);
                let (mut pre_loop, new_body) = extract_invariant(body, &inv_temps, builder);
                let ghost pm = irs_model(pre_loop@);
                let ghost bm = irs_model(new_body@);
                let ghost nb = new_body@;
                result.append(&mut pre_loop);
                result.push(IrStmt::While { condition: *condition, body: new_body });
                proof {
                    let w = result@[result@.len() - 1];
                    assert(ir_model(w)->While_body =~= irs_model(nb));
                    assert(irs_model(body@) =~= (stmts@[i as int]@)->While_body);
                    assert(irs_model(result@) =~= acc + pm + seq![SIrStmt::While { condition: *condition, body: bm }]);
                }
            },
            _ => {
                let c = stmts[i].copy();
                result.push(c);
                assert(irs_model(result@) =~= acc.push(stmts@[i as int]@));
            },
        }
        i += 1;
    }
    assert(ms.subrange(0, stmts.len() as int) =~= ms);
    result
}

/// Whether a temporary is in the list.
fn has_temp(v: &Vec<Temp>, t: Temp) -> (r: bool)
    ensures
        r == v@.contains(t),
{
    let mut i: usize = 0;
    while i < v.len()
        invariant
            i <= v.len(),
            forall|k: int| 0 <= k < i ==> v@[k] != t,
        decreases v.len() - i,
    {
        if v[i] == t {
            assert(v@[i as int] == t);
            return true;
        }
        i += 1;
    }
    false
}

/// Adds the names the source statements assign, at any depth, to `out`.
fn collect_stmt_assigned(stmts: &Vec<Stmt>, out: &mut Vec<String>)
    ensures
        forall|n: Seq<char>|
            #![trigger names_model(final(out)@).contains(n)]
            #![trigger body_assigns(stmts_model(stmts@), n)]
            names_model(final(out)@).contains(n) <==> (names_model(old(out)@).contains(n)
            || body_assigns(stmts_model(stmts@), n)),
    decreases stmts@,
{
    let ghost ms = stmts_model(stmts@);
    let ghost start = names_model(out@);
    let mut i: usize = 0;
    while i < stmts.len()
        invariant
            i <= stmts.len(),
            ms == stmts_model(stmts@),
            forall|n: Seq<char>| names_model(out@).contains(n) <==> (start.contains(n)
                || exists|k: int| 0 <= k < i && stmt_assigns(#[trigger] ms[k], n)),
        decreases stmts.len() - i,
    {
        let ghost before = names_model(out@);
        assert(forall|n: Seq<char>| before.contains(n) <==> (start.contains(n)
            || exists|k: int| 0 <= k < i && stmt_assigns(#[trigger] ms[k], n)));
        proof {
            assert(decreases_to!(stmts@ => stmts@[i as int]));
            assert(ms[i as int] == stmts@[i as int]@);
        }
        match &stmts[i] {
            Stmt::Assign { name, .. } => {
                out.push(name.clone());
                proof {
                    assert(names_model(out@) =~= before.push(name@));
                    lemma_push_contains(before, name@);
                    assert forall|n: Seq<char>| names_model(out@).contains(n) <==> (before.contains(n)
                        || stmt_assigns(ms[i as int], n)) by {}
                }
            },
            Stmt::ArrAssign { name, .. } => {
                out.push(name.clone());
                proof {
                    assert(names_model(out@) =~= before.push(name@));
                    lemma_push_contains(before, name@);
                    assert forall|n: Seq<char>| names_model(out@).contains(n) <==> (before.contains(n)
                        || stmt_assigns(ms[i as int], n)) by {}
                }
            },
            Stmt::While { body, .. } => {
                proof {
                    assert(decreases_to!(stmts@[i as int] => (stmts@[i as int])->While_body));
                    assert(decreases_to!(*body => body@));
                    assert(stmts_model(body@) =~= (ms[i as int])->While_body);
                }
                collect_stmt_assigned(body, out);
                proof {
                    assert forall|n: Seq<char>| names_model(out@).contains(n) <==> (before.contains(n)
                        || stmt_assigns(ms[i as int], n)) by {
                        assert(stmt_assigns(ms[i as int], n) == body_assigns(stmts_model(body@), n));
                    }
                }
            },
            Stmt::If { then_body, else_body, .. } => {
                proof {
                    assert(decreases_to!(stmts@[i as int] => (stmts@[i as int])->If_then_body));
                    assert(decreases_to!(*then_body => then_body@));
                    assert(decreases_to!(stmts@[i as int] => (stmts@[i as int])->If_else_body));
                    assert(decreases_to!(*else_body => else_body@));
                    assert(stmts_model(then_body@) =~= (ms[i as int])->If_then_body);
                    assert(stmts_model(else_body@) =~= (ms[i as int])->If_else_body);
                }
                collect_stmt_assigned(then_body, out);
                let ghost mid = names_model(out@);
                assert forall|n: Seq<char>| mid.contains(n) <==> (before.contains(n) || body_assigns(stmts_model(then_body@), n)) by {
                    assert(names_model(out@).contains(n) <==> (before.contains(n) || body_assigns(stmts_model(then_body@), n)));
                }
                collect_stmt_assigned(else_body, out);
                assert forall|n: Seq<char>| names_model(out@).contains(n) <==> (mid.contains(n) || body_assigns(stmts_model(else_body@), n)) by {
                }
                proof {
                    assert forall|n: Seq<char>| names_model(out@).contains(n) <==> (before.contains(n)
                        || stmt_assigns(ms[i as int], n)) by {
                        assert(stmt_assigns(ms[i as int], n) == (body_assigns(stmts_model(then_body@), n)
                            || body_assigns(stmts_model(else_body@), n)));
                    }
                }
            },
            _ => {
                proof {
                    assert(!(ms[i as int] is Assign || ms[i as int] is ArrAssign || ms[i as int] is While || ms[i as int] is If));
                    assert forall|n: Seq<char>| names_model(out@).contains(n) <==> (before.contains(n)
                        || stmt_assigns(ms[i as int], n)) by {}
                }
            },
        }
        proof {
            assert forall|n: Seq<char>| names_model(out@).contains(n) <==> (start.contains(n)
                || exists|k: int| 0 <= k < i + 1 && stmt_assigns(#[trigger] ms[k], n)) by {
                assert(before.contains(n) <==> (start.contains(n)
                    || exists|k: int| 0 <= k < i && stmt_assigns(#[trigger] ms[k], n)));
                if before.contains(n) && !start.contains(n) {
                    let k = choose|k: int| 0 <= k < i && stmt_assigns(#[trigger] ms[k], n);
                }
            }
        }
        i += 1;
    }
    assert forall|n: Seq<char>| names_model(out@).contains(n) <==> (start.contains(n) || body_assigns(ms, n)) by {
        assert(names_model(out@).contains(n) <==> (start.contains(n)
            || exists|k: int| 0 <= k < stmts.len() && stmt_assigns(#[trigger] ms[k], n)));
    }
}

/// Adds the names the statements assign, at any depth, to `out`.
fn collect_assigned(stmts: &Vec<IrStmt>, out: &mut Vec<String>)
    ensures
        forall|n: Seq<char>|
            #![trigger names_model(final(out)@).contains(n)]
            #![trigger irs_assign(irs_model(stmts@), n)]
            names_model(final(out)@).contains(n) <==> (names_model(old(out)@).contains(n)
            || irs_assign(irs_model(stmts@), n)),
    decreases stmts@,
{
    let ghost ms = irs_model(stmts@);
    let ghost start = names_model(out@);
    let mut i: usize = 0;
    while i < stmts.len()
        invariant
            i <= stmts.len(),
            ms == irs_model(stmts@),
            forall|n: Seq<char>| names_model(out@).contains(n) <==> (start.contains(n)
                || exists|k: int| 0 <= k < i && ir_assigns(#[trigger] ms[k], n)),
        decreases stmts.len() - i,
    {
        let ghost before = names_model(out@);
        assert(forall|n: Seq<char>| before.contains(n) <==> (start.contains(n)
            || exists|k: int| 0 <= k < i && ir_assigns(#[trigger] ms[k], n)));
        proof {
            assert(decreases_to!(stmts@ => stmts@[i as int]));
            assert(ms[i as int] == stmts@[i as int]@);
        }
        match &stmts[i] {
            IrStmt::Assign { name, .. } => {
                out.push(name.clone());
                proof {
                    assert(names_model(out@) =~= before.push(name@));
                    lemma_push_contains(before, name@);
                    assert forall|n: Seq<char>| names_model(out@).contains(n) <==> (before.contains(n)
                        || ir_assigns(ms[i as int], n)) by {}
                }
            },
            IrStmt::ArrAssign { name, .. } => {
                out.push(name.clone());
                proof {
                    assert(names_model(out@) =~= before.push(name@));
                    lemma_push_contains(before, name@);
                    assert forall|n: Seq<char>| names_model(out@).contains(n) <==> (before.contains(n)
                        || ir_assigns(ms[i as int], n)) by {}
                }
            },
            IrStmt::While { body, .. } => {
                proof {
                    assert(decreases_to!(stmts@[i as int] => (stmts@[i as int])->While_body));
                    assert(decreases_to!(*body => body@));
                    assert(irs_model(body@) =~= (ms[i as int])->While_body);
                }
                collect_assigned(body, out);
                proof {
                    assert forall|n: Seq<char>| names_model(out@).contains(n) <==> (before.contains(n)
                        || ir_assigns(ms[i as int], n)) by {
                        assert(ir_assigns(ms[i as int], n) == irs_assign(irs_model(body@), n));
                    }
                }
            },
            IrStmt::If { then_body, else_body, .. } => {
                proof {
                    assert(decreases_to!(stmts@[i as int] => (stmts@[i as int])->If_then_body));
                    assert(decreases_to!(*then_body => then_body@));
                    assert(decreases_to!(stmts@[i as int] => (stmts@[i as int])->If_else_body));
                    assert(decreases_to!(*else_body => else_body@));
                    assert(irs_model(then_body@) =~= (ms[i as int])->If_then_body);
                    assert(irs_model(else_body@) =~= (ms[i as int])->If_else_body);
                }
                collect_assigned(then_body, out);
                let ghost mid = names_model(out@);
                assert forall|n: Seq<char>| mid.contains(n) <==> (before.contains(n) || irs_assign(irs_model(then_body@), n)) by {
                    assert(names_model(out@).contains(n) <==> (before.contains(n) || irs_assign(irs_model(then_body@), n)));
                }
                collect_assigned(else_body, out);
                assert forall|n: Seq<char>| names_model(out@).contains(n) <==> (mid.contains(n) || irs_assign(irs_model(else_body@), n)) by {
                }
                proof {
                    assert forall|n: Seq<char>| names_model(out@).contains(n) <==> (before.contains(n)
                        || ir_assigns(ms[i as int], n)) by {
                        assert(ir_assigns(ms[i as int], n) == (irs_assign(irs_model(then_body@), n)
                            || irs_assign(irs_model(else_body@), n)));
                    }
                }
            },
            _ => {
                proof {
                    assert(!(ms[i as int] is Assign || ms[i as int] is ArrAssign || ms[i as int] is While || ms[i as int] is If));
                    assert forall|n: Seq<char>| names_model(out@).contains(n) <==> (before.contains(n)
                        || ir_assigns(ms[i as int], n)) by {}
                }
            },
        }
        proof {
            assert forall|n: Seq<char>| names_model(out@).contains(n) <==> (start.contains(n)
                || exists|k: int| 0 <= k < i + 1 && ir_assigns(#[trigger] ms[k], n)) by {
                assert(before.contains(n) <==> (start.contains(n)
                    || exists|k: int| 0 <= k < i && ir_assigns(#[trigger] ms[k], n)));
                if before.contains(n) && !start.contains(n) {
                    let k = choose|k: int| 0 <= k < i && ir_assigns(#[trigger] ms[k], n);
                }
            }
        }
        i += 1;
    }
    assert forall|n: Seq<char>| names_model(out@).contains(n) <==> (start.contains(n) || irs_assign(ms, n)) by {
        assert(names_model(out@).contains(n) <==> (start.contains(n)
            || exists|k: int| 0 <= k < stmts.len() && ir_assigns(#[trigger] ms[k], n)));
    }
}

fn compute_invariant_temps(pre_loop: &Vec<IrStmt>, body: &Vec<IrStmt>, builder: &IrBuilder) -> (r: Vec<Temp>)
    ensures
        r@.to_set() == invariant_temps(irs_model(pre_loop@), irs_model(body@), builder.model().temps),
{
    let ghost bm = irs_model(body@);
    let ghost pm = irs_model(pre_loop@);
    let ghost tm = builder.model().temps;
    // variables that are modified inside the loop body, at any depth
    let mut modified_vars: Vec<String> = Vec::new();
    assert(names_model(modified_vars@) =~= Seq::<Seq<char>>::empty());
    collect_assigned(body, &mut modified_vars);
    assert forall|n: Seq<char>| names_model(modified_vars@).contains(n) <==> loop_assigned(bm).contains(n) by {
    }
    let mut inv_temps: Vec<Temp> = Vec::new();
    // temporaries computed or assigned before the loop
    let mut j: usize = 0;
    while j < pre_loop.len()
        invariant
            j <= pre_loop.len(),
            pm == irs_model(pre_loop@),
            forall|t: usize| inv_temps@.contains(t) <==> (exists|k: int| 0 <= k < j && ((#[trigger] pm[k] is Compute && pm[k]->Compute_dest == t)
                || (pm[k] is Assign && pm[k]->Assign_value == t))),
        decreases pre_loop.len() - j,
    {
        let ghost before = inv_temps@;
        proof {
            assert(pm[j as int] == pre_loop@[j as int]@);
        }
        match &pre_loop[j] {
            IrStmt::Compute { dest, .. } => {
                inv_temps.push(*dest);
                proof {
                    lemma_push_contains(before, *dest);
                }
            },
            IrStmt::Assign { value, .. } => {
                inv_temps.push(*value);
                proof {
                    lemma_push_contains(before, *value);
                }
            },
            _ => {},
        }
        proof {
            assert forall|t: usize| inv_temps@.contains(t) <==> (exists|k: int| 0 <= k < j + 1 && ((#[trigger] pm[k] is Compute && pm[k]->Compute_dest == t)
                || (pm[k] is Assign && pm[k]->Assign_value == t))) by {
                if before.contains(t) {
                    let k = choose|k: int| 0 <= k < j && ((#[trigger] pm[k] is Compute && pm[k]->Compute_dest == t)
                        || (pm[k] is Assign && pm[k]->Assign_value == t));
                }
            }
        }
        j += 1;
    }
    let ghost from_pre = inv_temps@;
    assert(forall|t: usize| from_pre.contains(t) <==> (exists|k: int| 0 <= k < pm.len() && ((#[trigger] pm[k] is Compute && pm[k]->Compute_dest == t)
        || (pm[k] is Assign && pm[k]->Assign_value == t))));
    // constants, strings, and variables the loop does not modify
    let mut id: usize = 0;
    while id < builder.temps.len()
        invariant
            id <= builder.temps.len(),
            tm == builder.model().temps,
            forall|n: Seq<char>| names_model(modified_vars@).contains(n) <==> loop_assigned(bm).contains(n),
            forall|t: usize| #[trigger] inv_temps@.contains(t) <==> (from_pre.contains(t) || (t < id && stable_temp(tm, bm, t))),
            forall|t: usize| from_pre.contains(t) <==> (exists|k: int| 0 <= k < pm.len() && ((#[trigger] pm[k] is Compute && pm[k]->Compute_dest == t)
                || (pm[k] is Assign && pm[k]->Assign_value == t))),
        decreases builder.temps.len() - id,
    {
        let ghost before = inv_temps@;
        assert(tm[id as int] == builder.temps@[id as int]@);
        let keep = match &builder.temps[id] {
            TempExpr::Const(_) | TempExpr::Str(_) => true,
            TempExpr::Var(name) => {
                let found = contains_name(&modified_vars, name);
                assert(tm[id as int] is Var && tm[id as int]->Var_0 == name@);
                !found
            },
            _ => false,
        };
        assert(keep == stable_temp(tm, bm, id));
        if keep {
            inv_temps.push(id);
            proof {
                lemma_push_contains(before, id);
            }
        }
        proof {
            assert forall|t: usize| #[trigger] inv_temps@.contains(t) <==> (from_pre.contains(t) || (t < id + 1 && stable_temp(tm, bm, t))) by {
                assert(before.contains(t) <==> (from_pre.contains(t) || (t < id && stable_temp(tm, bm, t))));
            }
        }
        id += 1;
    }
    proof {
        let inv = invariant_temps(pm, bm, tm);
        assert forall|t: usize| inv_temps@.to_set().contains(t) <==> inv.contains(t) by {
        }
        assert(inv_temps@.to_set() =~= inv);
    }
    inv_temps
}

fn is_invariant(expr: &TempExpr, inv_temps: &Vec<Temp>, _builder: &IrBuilder) -> (r: bool)
    ensures
        r == spec_is_invariant(expr@, inv_temps@.to_set()),
{
    let ghost inv = inv_temps@.to_set();
    let r = match expr {
        TempExpr::Const(_) | TempExpr::Str(_) | TempExpr::Var(_) => true,
        TempExpr::BinOp { left, right, .. } | TempExpr::StrConcat { left, right } | TempExpr::StrCmp { left, right, .. } => {
            has_temp(inv_temps, *left) && has_temp(inv_temps, *right)
        },
        TempExpr::UnaryOp { operand, .. } => has_temp(inv_temps, *operand),
        TempExpr::Call { args, .. } | TempExpr::NativeCall { args, .. } => all_in(args, inv_temps),
        TempExpr::ArrLit { elements } => all_in(elements, inv_temps),
        TempExpr::ArrIndex { arr, index } => has_temp(inv_temps, *arr) && has_temp(inv_temps, *index),
    };
    proof {
        let x = expr@;
        if !is_trivial(x) {
            let d = deps(x);
            if d.len() >= 1 {
                assert(inv.contains(d[0]) == inv_temps@.contains(d[0]));
            }
            if d.len() >= 2 {
                assert(inv.contains(d[1]) == inv_temps@.contains(d[1]));
            }
            if !(x is Call || x is NativeCall || x is ArrLit) {
                assert(r == (forall|i: int| 0 <= i < d.len() ==> inv.contains(#[trigger] d[i]))) by {
                    if r {
                        assert forall|i: int| 0 <= i < d.len() implies inv.contains(#[trigger] d[i]) by {
                            assert(i == 0 || i == 1);
                        }
                    }
                }
            }
        }
    }
    r
}

/// Whether every temporary of `ts` is in the list `inv_temps`.
fn all_in(ts: &Vec<Temp>, inv_temps: &Vec<Temp>) -> (r: bool)
    ensures
        r == forall|i: int| 0 <= i < ts.len() ==> inv_temps@.to_set().contains(#[trigger] ts@[i]),
{
    let mut i: usize = 0;
    while i < ts.len()
        invariant
            i <= ts.len(),
            forall|k: int| 0 <= k < i ==> inv_temps@.to_set().contains(#[trigger] ts@[k]),
        decreases ts.len() - i,
    {
        if !has_temp(inv_temps, ts[i]) {
            assert(!inv_temps@.to_set().contains(ts@[i as int]));
            return false;
        }
        i += 1;
    }
    true
}

fn extract_invariant(body: &Vec<IrStmt>, inv_temps: &Vec<Temp>, builder: &IrBuilder) -> (r: (Vec<IrStmt>, Vec<IrStmt>))
    ensures
        (irs_model(r.0@), irs_model(r.1@)) == split_body(irs_model(body@), inv_temps@.to_set()),
{
    let ghost bm = irs_model(body@);
    let ghost inv = inv_temps@.to_set();
    let mut pre_loop: Vec<IrStmt> = Vec::new();
    let mut new_body: Vec<IrStmt> = Vec::new();
    let mut i: usize = 0;
    while i < body.len()
        invariant
            i <= body.len(),
            bm == irs_model(body@),
            inv == inv_temps@.to_set(),
            (irs_model(pre_loop@), irs_model(new_body@)) == split_body(bm.subrange(0, i as int), inv),
        decreases body.len() - i,
    {
        proof {
            let sub = bm.subrange(0, i + 1);
            assert(sub.drop_last() =~= bm.subrange(0, i as int));
            assert(sub.last() == body@[i as int]@);
        }
        let ghost p0 = irs_model(pre_loop@);
        let ghost p1 = irs_model(new_body@);
        let stmt = &body[i];
        let moves = match stmt {
            IrStmt::Compute { expr, .. } => is_invariant(expr, inv_temps, builder),
            _ => false,
        };
        if moves {
            pre_loop.push(stmt.copy());
            assert(irs_model(pre_loop@) =~= p0.push(stmt@));
            assert(irs_model(new_body@) =~= p1);
        } else {
            new_body.push(stmt.copy());
            assert(irs_model(new_body@) =~= p1.push(stmt@));
            assert(irs_model(pre_loop@) =~= p0);
        }
        i += 1;
    }
    assert(bm.subrange(0, body.len() as int) =~= bm);
    (pre_loop, new_body)
}

/// The temporaries an IR statement uses as values (not as destinations).
pub open spec fn ir_used(s: SIrStmt) -> Set<usize>
    decreases s,
{
    match s {
        SIrStmt::Compute { expr, .. } => deps(expr).to_set(),
        SIrStmt::Assign { value, .. } => set![value],
        SIrStmt::ArrAssign { index, value, .. } => set![index, value],
        SIrStmt::Print(t) => set![t],
        SIrStmt::While { condition, body } => set![condition] + irs_used(body),
        SIrStmt::If { condition, then_body, else_body } => set![condition] + irs_used(then_body) + irs_used(else_body),
        SIrStmt::Func { body, .. } => irs_used(body),
        SIrStmt::Return(t) => set![t],
        SIrStmt::Native { args, .. } => args.to_set(),
        SIrStmt::Break => Set::empty(),
        SIrStmt::Continue => Set::empty(),
    }
}

/// The temporaries IR statements use as values.
pub open spec fn irs_used(ss: Seq<SIrStmt>) -> Set<usize>
    decreases ss,
{
    if ss.len() == 0 {
        Set::empty()
    } else {
        irs_used(ss.subrange(0, ss.len() - 1)) + ir_used(ss[ss.len() - 1])
    }
}

/// The temporaries a computed value is computed from.
fn expr_deps(expr: &TempExpr) -> (r: Vec<Temp>)
    ensures
        r@ == deps(expr@),
{
    match expr {
        TempExpr::Str(_) | TempExpr::Const(_) | TempExpr::Var(_) => Vec::new(),
        TempExpr::BinOp { left, right, .. } => vec![*left, *right],
        TempExpr::UnaryOp { operand, .. } => vec![*operand],
        TempExpr::Call { args, .. } => copy_temps(args),
        TempExpr::NativeCall { args, .. } => copy_temps(args),
        TempExpr::StrConcat { left, right } => vec![*left, *right],
        TempExpr::StrCmp { left, right, .. } => vec![*left, *right],
        TempExpr::ArrLit { elements } => copy_temps(elements),
        TempExpr::ArrIndex { arr, index } => vec![*arr, *index],
    }
}

/// The temporaries the statements use as values (not as destinations),
/// nested bodies included.
fn collect_used_temps(stmts: &Vec<IrStmt>) -> (result: Vec<Temp>)
    ensures
        result@.to_set() == irs_used(irs_model(stmts@)),
    decreases stmts@,
{
    let ghost ms = irs_model(stmts@);
    let mut result: Vec<Temp> = Vec::new();
    let mut i: usize = 0;
    while i < stmts.len()
        invariant
            i <= stmts.len(),
            ms == irs_model(stmts@),
            result@.to_set() == irs_used(ms.subrange(0, i as int)),
        decreases stmts.len() - i,
    {
        let s = &stmts[i];
        proof {
            assert(decreases_to!(stmts@ => stmts@[i as int]));
            let sub = ms.subrange(0, i + 1);
            assert(sub.subrange(0, i as int) =~= ms.subrange(0, i as int));
            assert(sub[i as int] == s@);
        }
        let ghost before = result@;
        let mut more: Vec<Temp> = match s {
            IrStmt::Compute { expr, .. } => expr_deps(expr),
            IrStmt::Assign { value, .. } => {
                let v = vec![*value];
                assert(v@.to_set() =~= set![*value]) by {
                    assert(v@[0] == *value);
                }
                v
            },
            IrStmt::ArrAssign { index, value, .. } => {
                let v = vec![*index, *value];
                assert(v@.to_set() =~= set![*index, *value]) by {
                    assert(v@[0] == *index);
                    assert(v@[1] == *value);
                }
                v
            },
            IrStmt::Print(t) => {
                let v = vec![*t];
                assert(v@.to_set() =~= set![*t]) by {
                    assert(v@[0] == *t);
                }
                v
            },
            IrStmt::While { condition, body } => {
                proof {
                    assert(decreases_to!(*s => (*s)->While_body));
                    assert(decreases_to!(*body => body@));
                    assert(irs_model(body@) =~= (s@)->While_body);
                }
                let mut v = vec![*condition];
                let mut inner = collect_used_temps(body);
                let ghost iv = inner@;
                v.append(&mut inner);
                proof {
                    lemma_concat_contains(seq![*condition], iv);
                    assert(v@ =~= seq![*condition] + iv);
                    assert(seq![*condition][0] == *condition);
                    assert(seq![*condition].contains(*condition));
                    assert(v@.to_set() =~= set![*condition] + iv.to_set());
                }
                v
            },
            IrStmt::If { condition, then_body, else_body } => {
                proof {
                    assert(decreases_to!(*s => (*s)->If_then_body));
                    assert(decreases_to!(*then_body => then_body@));
                    assert(decreases_to!(*s => (*s)->If_else_body));
                    assert(decreases_to!(*else_body => else_body@));
                    assert(irs_model(then_body@) =~= (s@)->If_then_body);
                    assert(irs_model(else_body@) =~= (s@)->If_else_body);
                }
                let mut v = vec![*condition];
                let mut t = collect_used_temps(then_body);
                let mut e = collect_used_temps(else_body);
                let ghost tv = t@;
                let ghost ev = e@;
                v.append(&mut t);
                let ghost mid = v@;
                v.append(&mut e);
                proof {
                    lemma_concat_contains(seq![*condition], tv);
                    lemma_concat_contains(mid, ev);
                    assert(mid =~= seq![*condition] + tv);
                    assert(seq![*condition][0] == *condition);
                    assert(seq![*condition].contains(*condition));
                    assert(v@.to_set() =~= set![*condition] + tv.to_set() + ev.to_set());
                }
                v
            },
            IrStmt::Func { body, .. } => {
                proof {
                    assert(decreases_to!(*s => (*s)->Func_body));
                    assert(decreases_to!(*body => body@));
                    assert(irs_model(body@) =~= (s@)->Func_body);
                }
                collect_used_temps(body)
            },
            IrStmt::Return(t) => {
                let v = vec![*t];
                assert(v@.to_set() =~= set![*t]) by {
                    assert(v@[0] == *t);
                }
                v
            },
            IrStmt::Native { args, .. } => copy_temps(args),
            IrStmt::Break | IrStmt::Continue => {
                let v: Vec<Temp> = Vec::new();
                assert(v@.to_set() =~= Set::<usize>::empty());
                v
            },
        };
        let ghost mv = more@;
        assert(mv.to_set() == ir_used(s@));
        result.append(&mut more);
        proof {
            lemma_concat_contains(before, mv);
            assert(result@.to_set() =~= irs_used(ms.subrange(0, i + 1)));
        }
        i += 1;
    }
    assert(ms.subrange(0, stmts.len() as int) =~= ms);
    result
}

/// Common subexpression elimination: computing a value the builder already
/// computed gives the same temporary again and allocates nothing.
pub proof fn law_cse_reuses_temporary(st: IrState, x: STempExpr)
    requires
        ir_state_wf(st),
        st.temps.len() < usize::MAX,
    ensures
        cse(cse(st, x).0, x) == cse(st, x),
        cse(st, x).0.temps.len() <= st.temps.len() + 1,
        cse(st, x).0.temps[cse(st, x).1 as int] == x,
{
    reveal(cse);
}

/// Loop invariant code motion splits a loop body without losing or adding
/// a statement: what moves out are invariant computations, what stays is
/// everything else, each part in its original order.
pub proof fn law_split_body_partitions(body: Seq<SIrStmt>, inv: Set<usize>)
    ensures
        split_body(body, inv).0.len() + split_body(body, inv).1.len() == body.len(),
        forall|i: int| 0 <= i < split_body(body, inv).0.len() ==> hoisted(#[trigger] split_body(body, inv).0[i], inv),
        forall|i: int| 0 <= i < split_body(body, inv).1.len() ==> !hoisted(#[trigger] split_body(body, inv).1[i], inv),
        (split_body(body, inv).0 + split_body(body, inv).1).to_multiset() == body.to_multiset(),
    decreases body.len(),
{
    if body.len() > 0 {
        let prev = body.drop_last();
        law_split_body_partitions(prev, inv);
        let p = split_body(prev, inv);
        let x = body.last();
        broadcast use vstd::multiset::group_multiset_axioms;
        assert(body =~= prev.push(x));
        vstd::seq_lib::to_multiset_build(prev, x);
        vstd::seq_lib::lemma_multiset_commutative(p.0, p.1);
        if hoisted(x, inv) {
            vstd::seq_lib::to_multiset_build(p.0, x);
            vstd::seq_lib::lemma_multiset_commutative(p.0.push(x), p.1);
            assert((p.0.push(x) + p.1).to_multiset() =~= body.to_multiset());
        } else {
            vstd::seq_lib::to_multiset_build(p.1, x);
            vstd::seq_lib::lemma_multiset_commutative(p.0, p.1.push(x));
            assert((p.0 + p.1.push(x)).to_multiset() =~= body.to_multiset());
        }
    } else {
        assert(split_body(body, inv).0 + split_body(body, inv).1 =~= body);
    }
}

} // verus!
