use lib::ast::{BinOp, Expr, Stmt, UnaryOp};
use lib::codegen::CodeGen;
use lib::ir::{licm_optimize, IrBuilder, IrStmt, TempExpr};
use lib::namemap::NameMap;
use lib::optimizer::AstOptimizer;
use lib::peephole::PeepholeOptimizer;
use lib::symbol::SymbolTable;
use lib::text::decimal;
use lib::typecheck::Type;

fn var(name: &str) -> Expr {
    Expr::Var(name.to_string())
}

fn bin(l: Expr, op: BinOp, r: Expr) -> Expr {
    Expr::Binary { left: Box::new(l), op, right: Box::new(r) }
}

fn assign(name: &str, value: Expr) -> Stmt {
    Stmt::Assign { name: name.to_string(), value }
}

fn optimize(program: Vec<Stmt>) -> String {
    format!("{:?}", AstOptimizer::new().optimize_program(&program))
}

#[test]
fn folds_constants() {
    assert_eq!(
        optimize(vec![assign("x", bin(bin(Expr::Int(2), BinOp::Add, Expr::Int(3)), BinOp::Mul, Expr::Int(4)))]),
        "[Assign { name: \"x\", value: Int(20) }]"
    );
    assert_eq!(
        optimize(vec![Stmt::Print(bin(Expr::Int(-7), BinOp::Div, Expr::Int(2)))]),
        "[Print(Int(-3))]"
    );
    assert_eq!(
        optimize(vec![Stmt::Print(bin(Expr::Int(3), BinOp::Le, Expr::Int(3)))]),
        "[Print(Int(1))]"
    );
}

#[test]
fn keeps_division_by_zero() {
    assert_eq!(
        optimize(vec![Stmt::Print(bin(Expr::Int(1), BinOp::Div, Expr::Int(0)))]),
        "[Print(Binary { left: Int(1), op: Div, right: Int(0) })]"
    );
}

#[test]
fn simplifies_algebra() {
    assert_eq!(
        optimize(vec![
            Stmt::Print(bin(var("x"), BinOp::Mul, Expr::Int(1))),
            Stmt::Print(bin(Expr::Int(0), BinOp::Add, var("x"))),
            Stmt::Print(bin(var("x"), BinOp::Mul, Expr::Int(0))),
            Stmt::Print(bin(var("x"), BinOp::Div, Expr::Int(1))),
            Stmt::Print(bin(var("x"), BinOp::Sub, var("y"))),
        ]),
        "[Print(Var(\"x\")), Print(Var(\"x\")), Print(Int(0)), Print(Var(\"x\")), Print(Binary { left: Var(\"x\"), op: Sub, right: Var(\"y\") })]"
    );
}

#[test]
fn removes_dead_control_flow() {
    assert_eq!(
        optimize(vec![
            Stmt::While { condition: bin(Expr::Int(1), BinOp::Gt, Expr::Int(2)), body: vec![Stmt::Print(var("x"))] },
            Stmt::If {
                condition: Expr::Int(1),
                then_body: vec![Stmt::Print(bin(Expr::Int(1), BinOp::Add, Expr::Int(1)))],
                else_body: vec![Stmt::Print(var("z"))],
            },
            Stmt::Func {
                name: "f".to_string(),
                params: vec![],
                body: vec![Stmt::Return(Expr::Int(1)), Stmt::Print(var("dead"))],
            },
        ]),
        "[While { condition: Int(0), body: [] }, Print(Int(2)), Func { name: \"f\", params: [], body: [Return(Int(1))] }]"
    );
}

#[test]
fn optimizing_twice_changes_nothing_more() {
    let program = vec![
        assign("x", bin(bin(var("a"), BinOp::Add, Expr::Int(0)), BinOp::Mul, bin(Expr::Int(2), BinOp::Sub, Expr::Int(1)))),
        Stmt::If { condition: bin(Expr::Int(0), BinOp::Mul, var("q")), then_body: vec![], else_body: vec![Stmt::Print(var("x"))] },
    ];
    let opt = AstOptimizer::new();
    let once = opt.optimize_program(&program);
    let twice = opt.optimize_program(&once);
    assert_eq!(format!("{:?}", once), format!("{:?}", twice));
    assert_eq!(format!("{:?}", once), "[Assign { name: \"x\", value: Var(\"a\") }, Print(Var(\"x\"))]");
}

fn table(names: &[&str]) -> SymbolTable {
    let mut t = SymbolTable::new();
    for n in names {
        t.declare(n);
    }
    t
}

#[test]
fn generates_straight_line_code() {
    let program = vec![assign("x", bin(Expr::Int(1), BinOp::Add, Expr::Int(2))), Stmt::Print(var("x"))];
    let code = CodeGen::new(NameMap::new()).generate(&program, &table(&["x"]));
    assert_eq!(code, vec![0x01, 1, 0x01, 2, 0x02, 0x21, 0, 0x20, 0, 0x51, 0xFF]);
}

#[test]
fn generates_string_print() {
    let program = vec![Stmt::Print(Expr::Str("hi".to_string()))];
    let code = CodeGen::new(NameMap::new()).generate(&program, &table(&[]));
    assert_eq!(code, vec![0x01, 105, 0x01, 104, 0x08, 2, 0x52, 0xFF]);
}

#[test]
fn generates_loops_with_patched_exit() {
    let program = vec![
        assign("i", Expr::Int(0)),
        Stmt::While {
            condition: bin(var("i"), BinOp::Lt, Expr::Int(3)),
            body: vec![assign("i", bin(var("i"), BinOp::Add, Expr::Int(1)))],
        },
    ];
    let code = CodeGen::new(NameMap::new()).generate(&program, &table(&["i"]));
    assert_eq!(
        code,
        vec![
            0x01, 0, 0x21, 0, // i = 0
            0x20, 0, 0x01, 3, 0x31, 0x41, 20, // @4: i < 3, exit to @20
            0x20, 0, 0x01, 1, 0x02, 0x21, 0, // i = i + 1
            0x40, 4, // back to @4
            0xFF,
        ]
    );
}

#[test]
fn generates_functions_after_halt_and_patches_calls() {
    let program = vec![
        Stmt::Func { name: "f".to_string(), params: vec!["a".to_string()], body: vec![Stmt::Return(var("a"))] },
        Stmt::Print(Expr::Call { name: "f".to_string(), args: vec![Expr::Int(5)] }),
    ];
    let code = CodeGen::new(NameMap::new()).generate(&program, &table(&["a"]));
    assert_eq!(code, vec![0x01, 5, 0x60, 6, 0x51, 0xFF, 0x21, 0, 0x20, 0, 0x61, 0x01, 0, 0x61]);
}

#[test]
fn generates_unary_and_string_comparison() {
    let mut globals = NameMap::new();
    globals.insert("s".to_string(), Type::Str);
    let program = vec![
        Stmt::Print(Expr::Unary { op: UnaryOp::Neg, operand: Box::new(Expr::Int(4)) }),
        Stmt::Print(bin(var("s"), BinOp::EqEq, var("s"))),
    ];
    let code = CodeGen::new(globals).generate(&program, &table(&["s"]));
    assert_eq!(
        code,
        vec![0x01, 0, 0x01, 4, 0x03, 0x51, 0x20, 0, 0x20, 0, 0x53, 0x01, 0, 0x30, 0x51, 0xFF]
    );
}

#[test]
fn shares_equal_computations_and_reduces_strength() {
    // x = 2 * y; z = 2 * y  ->  __tmp2 = y + y; x = __tmp2; z = __tmp2
    let program = vec![
        assign("x", bin(Expr::Int(2), BinOp::Mul, var("y"))),
        assign("z", bin(Expr::Int(2), BinOp::Mul, var("y"))),
    ];
    let mut builder = IrBuilder::new(NameMap::new());
    let ir = builder.build_program(&program);
    assert_eq!(ir.stmts.len(), 3);
    assert!(matches!(ir.stmts[0], IrStmt::Compute { dest: 2, expr: TempExpr::BinOp { op: BinOp::Add, left: 1, right: 1 } }));
    assert!(matches!(builder.get_expr(0), TempExpr::Const(2)));
    assert_eq!(
        format!("{:?}", builder.ir_to_ast(&ir)),
        "[Assign { name: \"__tmp2\", value: Binary { left: Var(\"y\"), op: Add, right: Var(\"y\") } }, Assign { name: \"x\", value: Var(\"__tmp2\") }, Assign { name: \"z\", value: Var(\"__tmp2\") }]"
    );
}

#[test]
fn forgetting_the_cache_recomputes() {
    let mut builder = IrBuilder::new(NameMap::new());
    let first = builder.stmt_to_ir(&Stmt::Print(bin(var("a"), BinOp::Sub, var("b"))));
    assert_eq!(first.len(), 2);
    let again = builder.stmt_to_ir(&Stmt::Print(bin(var("a"), BinOp::Sub, var("b"))));
    assert_eq!(again.len(), 1);
    builder.reset_emitted_computes();
    let fresh = builder.stmt_to_ir(&Stmt::Print(bin(var("a"), BinOp::Sub, var("b"))));
    assert_eq!(fresh.len(), 2);
    assert!(matches!(fresh[0], IrStmt::Compute { dest: 5, .. }));
}

#[test]
fn moves_invariant_computations_out_of_loops() {
    // n = 10; i = 0; while i < n: x = n * 3; i = i + 1
    let program = vec![
        assign("n", Expr::Int(10)),
        assign("i", Expr::Int(0)),
        Stmt::While {
            condition: bin(var("i"), BinOp::Lt, var("n")),
            body: vec![assign("x", bin(var("n"), BinOp::Mul, Expr::Int(3))), assign("i", bin(var("i"), BinOp::Add, Expr::Int(1)))],
        },
    ];
    let mut builder = IrBuilder::new(NameMap::new());
    let mut ir = builder.build_program(&program);
    assert_eq!(ir.stmts.len(), 4);
    licm_optimize(&mut ir, &builder);
    assert_eq!(ir.stmts.len(), 5);
    assert!(matches!(ir.stmts[2], IrStmt::Compute { dest: 4, .. }));
    assert!(matches!(ir.stmts[3], IrStmt::Compute { dest: 6, expr: TempExpr::BinOp { op: BinOp::Mul, left: 3, right: 5 } }));
    match &ir.stmts[4] {
        IrStmt::While { condition, body } => {
            assert_eq!(*condition, 4);
            assert_eq!(body.len(), 4);
            assert!(matches!(body[0], IrStmt::Assign { value: 6, .. }));
            assert!(matches!(body[1], IrStmt::Compute { dest: 8, .. }));
            assert!(matches!(body[3], IrStmt::Compute { dest: 4, .. }));
        },
        _ => panic!("expected the loop last"),
    }
}

#[test]
fn decimal_notation() {
    assert_eq!(decimal(0), "0");
    assert_eq!(decimal(7), "7");
    assert_eq!(decimal(1234), "1234");
    assert_eq!(decimal(1000), "1000");
}

#[test]
fn and_tests_the_left_operand_before_the_right_one() {
    // a and b: LOAD a; JMP_IF_FALSE f; LOAD b; JMP end; f: PUSH 0; end:
    let program = vec![Stmt::Print(bin(var("a"), BinOp::And, var("b")))];
    let code = CodeGen::new(NameMap::new()).generate(&program, &table(&["a", "b"]));
    assert_eq!(code, vec![0x20, 0, 0x41, 8, 0x20, 1, 0x40, 10, 0x01, 0, 0x51, 0xFF]);
}

#[test]
fn or_tests_the_left_operand_before_the_right_one() {
    // a or b: LOAD a; JMP_IF_FALSE r; PUSH 1; JMP end; r: LOAD b; end:
    let program = vec![Stmt::Print(bin(var("a"), BinOp::Or, var("b")))];
    let code = CodeGen::new(NameMap::new()).generate(&program, &table(&["a", "b"]));
    assert_eq!(code, vec![0x20, 0, 0x41, 8, 0x01, 1, 0x40, 10, 0x20, 1, 0x51, 0xFF]);
}

#[test]
fn checks_what_generation_needs() {
    let cg = CodeGen::new(NameMap::new());
    let ok = vec![assign("x", Expr::Int(1)), Stmt::Print(var("x"))];
    assert!(cg.can_generate(&ok, &table(&["x"])));
    let unknown = vec![Stmt::Print(var("y"))];
    assert!(!cg.can_generate(&unknown, &table(&["x"])));
    let stray_break = vec![Stmt::Break];
    assert!(!cg.can_generate(&stray_break, &table(&[])));
    let undefined_call = vec![Stmt::Print(Expr::Call { name: "g".to_string(), args: vec![] })];
    assert!(!cg.can_generate(&undefined_call, &table(&[])));
}

#[test]
fn checks_what_optimization_needs() {
    let opt = AstOptimizer::new();
    assert!(opt.can_optimize(&[assign("x", bin(Expr::Int(2), BinOp::Add, Expr::Int(3)))]));
    assert!(!opt.can_optimize(&[assign("x", bin(Expr::Int(i32::MAX), BinOp::Add, Expr::Int(1)))]));
    assert!(!opt.can_optimize(&[assign("x", bin(Expr::Int(i32::MIN), BinOp::Div, Expr::Int(-1)))]));
}

#[test]
fn a_store_read_after_a_jump_stays() {
    // PUSH 7; STORE 0; PUSH 0; JMP_IF_FALSE 12; PUSH 5; STORE 0; @12: LOAD 0; PRINT
    let code = vec![0x01, 7, 0x21, 0, 0x01, 0, 0x41, 12, 0x01, 5, 0x21, 0, 0x20, 0, 0x51];
    let result = PeepholeOptimizer::new().optimize(&code);
    assert_eq!(&result[0..4], &[0x01, 7, 0x21, 0]);
}

#[test]
fn bounded_optimization() {
    let p = PeepholeOptimizer::new();
    let code = vec![0x01, 0, 0x21, 0, 0x01, 5, 0x21, 0];
    assert_eq!(p.try_optimize(&code, 5), Some(p.optimize(&code)));
    assert_eq!(p.try_optimize(&code, 0), None);
}

#[test]
fn an_assignment_forgets_the_cached_read_of_its_variable() {
    let mut b = IrBuilder::new(NameMap::new());
    b.stmt_to_ir(&assign("a", Expr::Int(1)));
    let y = b.stmt_to_ir(&assign("y", bin(var("a"), BinOp::Add, Expr::Int(1))));
    assert_eq!(y.len(), 2);
    assert!(matches!(y[0], IrStmt::Compute { dest: 2, expr: TempExpr::BinOp { op: BinOp::Add, left: 1, right: 0 } }));
    assert!(matches!(y[1], IrStmt::Assign { value: 2, .. }));
    b.stmt_to_ir(&assign("a", Expr::Int(2)));
    let z = b.stmt_to_ir(&assign("z", bin(var("a"), BinOp::Add, Expr::Int(1))));
    assert_eq!(z.len(), 2);
    assert!(matches!(z[0], IrStmt::Compute { dest: 5, expr: TempExpr::BinOp { op: BinOp::Add, left: 4, right: 0 } }));
    assert!(matches!(z[1], IrStmt::Assign { value: 5, .. }));
}

#[test]
fn a_loop_recomputes_what_its_body_changes() {
    // i = 0; x = i + 1; while i < 3: i = i + 1
    let program = vec![
        assign("i", Expr::Int(0)),
        assign("x", bin(var("i"), BinOp::Add, Expr::Int(1))),
        Stmt::While {
            condition: bin(var("i"), BinOp::Lt, Expr::Int(3)),
            body: vec![assign("i", bin(var("i"), BinOp::Add, Expr::Int(1)))],
        },
    ];
    let mut b = IrBuilder::new(NameMap::new());
    let ir = b.build_program(&program);
    assert_eq!(
        format!("{:?}", b.ir_to_ast(&ir)),
        "[Assign { name: \"i\", value: Int(0) }, Assign { name: \"__tmp3\", value: Binary { left: Var(\"i\"), op: Add, right: Int(1) } }, Assign { name: \"x\", value: Var(\"__tmp3\") }, Assign { name: \"__tmp6\", value: Binary { left: Var(\"i\"), op: Lt, right: Int(3) } }, While { condition: Var(\"__tmp6\"), body: [Assign { name: \"__tmp8\", value: Binary { left: Var(\"i\"), op: Add, right: Int(1) } }, Assign { name: \"i\", value: Var(\"__tmp8\") }, Assign { name: \"__tmp6\", value: Binary { left: Var(\"i\"), op: Lt, right: Int(3) } }] }]"
    );
}

#[test]
fn nothing_assigned_in_a_nested_branch_is_hoisted() {
    // while c: (if d: x = 5); y = x + 1
    let program = vec![Stmt::While {
        condition: var("c"),
        body: vec![
            Stmt::If { condition: var("d"), then_body: vec![assign("x", Expr::Int(5))], else_body: vec![] },
            assign("y", bin(var("x"), BinOp::Add, Expr::Int(1))),
        ],
    }];
    let mut b = IrBuilder::new(NameMap::new());
    let mut ir = b.build_program(&program);
    let before = format!("{:?}", ir.stmts);
    licm_optimize(&mut ir, &b);
    assert_eq!(format!("{:?}", ir.stmts), before);
    assert_eq!(ir.stmts.len(), 1);
    match &ir.stmts[0] {
        IrStmt::While { body, .. } => {
            assert_eq!(body.len(), 3);
            assert!(matches!(body[1], IrStmt::Compute { dest: 5, expr: TempExpr::BinOp { op: BinOp::Add, left: 3, right: 4 } }));
        },
        _ => panic!("expected the loop"),
    }
}

#[test]
fn cloned_trees_are_equal() {
    let e = bin(var("a"), BinOp::Mul, Expr::Unary { op: UnaryOp::Neg, operand: Box::new(Expr::Int(3)) });
    assert_eq!(format!("{:?}", e.clone()), format!("{:?}", e));
    let s = Stmt::While { condition: var("c"), body: vec![Stmt::Break, assign("x", e)] };
    assert_eq!(format!("{:?}", s.clone()), format!("{:?}", s));
}

#[test]
fn cloned_ir_is_equal() {
    let mut b = IrBuilder::new(NameMap::new());
    let ir = b.build_program(&[Stmt::While { condition: var("c"), body: vec![assign("x", bin(var("x"), BinOp::Add, Expr::Int(1)))] }]);
    assert_eq!(format!("{:?}", ir.stmts[0].clone()), format!("{:?}", ir.stmts[0]));
    assert_eq!(format!("{:?}", b.get_expr(0).clone()), format!("{:?}", b.get_expr(0)));
}

#[test]
fn branches_reuse_what_was_computed_before_them() {
    // print a + b; if c: print a + b else: print a + b; print a + b
    let sum = || bin(var("a"), BinOp::Add, var("b"));
    let program = vec![
        Stmt::Print(sum()),
        Stmt::If { condition: var("c"), then_body: vec![Stmt::Print(sum())], else_body: vec![Stmt::Print(sum())] },
        Stmt::Print(sum()),
    ];
    let mut b = IrBuilder::new(NameMap::new());
    let ir = b.build_program(&program);
    assert_eq!(ir.stmts.len(), 4);
    assert!(matches!(ir.stmts[0], IrStmt::Compute { dest: 2, .. }));
    match &ir.stmts[2] {
        IrStmt::If { then_body, else_body, .. } => {
            assert!(matches!(then_body[..], [IrStmt::Print(2)]));
            assert!(matches!(else_body[..], [IrStmt::Print(2)]));
        },
        _ => panic!("expected the branch"),
    }
    assert!(matches!(ir.stmts[3], IrStmt::Print(2)));
}

#[test]
fn a_branch_that_assigns_a_variable_forgets_its_read() {
    // print a + b; if c: a = 1; print a + b
    let program = vec![
        Stmt::Print(bin(var("a"), BinOp::Add, var("b"))),
        Stmt::If { condition: var("c"), then_body: vec![assign("a", Expr::Int(1))], else_body: vec![] },
        Stmt::Print(bin(var("a"), BinOp::Add, var("b"))),
    ];
    let mut b = IrBuilder::new(NameMap::new());
    let ir = b.build_program(&program);
    assert_eq!(ir.stmts.len(), 5);
    assert!(matches!(ir.stmts[3], IrStmt::Compute { dest: 6, expr: TempExpr::BinOp { op: BinOp::Add, left: 5, right: 1 } }));
    assert!(matches!(ir.stmts[4], IrStmt::Print(6)));
}
