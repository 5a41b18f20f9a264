use lib::ast::{BinOp, Expr, Stmt};
use lib::liveness::LivenessAnalyzer;
use lib::symbol::build_symbol_table;

fn var(name: &str) -> Expr {
    Expr::Var(name.to_string())
}

fn add(l: Expr, r: Expr) -> Expr {
    Expr::Binary { left: Box::new(l), op: BinOp::Add, right: Box::new(r) }
}

fn assign(name: &str, value: Expr) -> Stmt {
    Stmt::Assign { name: name.to_string(), value }
}

fn slot(map: &lib::namemap::NameMap<usize>, name: &str) -> usize {
    *map.get(&name.to_string()).unwrap()
}

#[test]
fn test_simple_slot_reuse() {
    let mut analyzer = LivenessAnalyzer::new();

    // x = 5
    // y = x + 1
    // z = y + 2
    // After x is used in line 2, its slot can be reused for z
    let program = vec![
        Stmt::Assign {
            name: "x".to_string(),
            value: Expr::Int(5),
        },
        Stmt::Assign {
            name: "y".to_string(),
            value: Expr::Binary {
                left: Box::new(Expr::Var("x".to_string())),
                op: BinOp::Add,
                right: Box::new(Expr::Int(1)),
            },
        },
        Stmt::Assign {
            name: "z".to_string(),
            value: Expr::Binary {
                left: Box::new(Expr::Var("y".to_string())),
                op: BinOp::Add,
                right: Box::new(Expr::Int(2)),
            },
        },
    ];

    let assignments = analyzer.analyze_and_assign_slots(&program);
    let (total_vars, slots_used) = analyzer.get_slot_stats(&assignments);

    assert_eq!(total_vars, 3);
    // Should use fewer slots than variables due to reuse
    assert!(slots_used <= 3);
}

#[test]
fn slot_reuse_exact_assignment() {
    // x lives over statements 0..1, y over 1..2, z over 2..2: z takes x's slot
    let program = vec![
        assign("x", Expr::Int(5)),
        assign("y", add(var("x"), Expr::Int(1))),
        assign("z", add(var("y"), Expr::Int(2))),
    ];
    let mut analyzer = LivenessAnalyzer::new();
    let assignments = analyzer.analyze_and_assign_slots(&program);
    assert_eq!(slot(&assignments, "x"), 0);
    assert_eq!(slot(&assignments, "y"), 1);
    assert_eq!(slot(&assignments, "z"), 0);
    assert_eq!(analyzer.get_slot_stats(&assignments), (3, 2));
}

#[test]
fn overlapping_lifetimes_get_distinct_slots() {
    // x and y are both live when z is computed
    let program = vec![
        assign("x", Expr::Int(1)),
        assign("y", Expr::Int(2)),
        assign("z", add(var("x"), var("y"))),
        Stmt::Print(var("z")),
    ];
    let mut analyzer = LivenessAnalyzer::new();
    let assignments = analyzer.analyze_and_assign_slots(&program);
    let x = slot(&assignments, "x");
    let y = slot(&assignments, "y");
    let z = slot(&assignments, "z");
    assert_ne!(x, y);
    assert_ne!(y, z);
    assert_ne!(x, z);
    assert_eq!(assignments.len(), 3);
}

#[test]
fn loop_body_variables_stay_live_to_the_end_of_the_body() {
    // i is read inside the loop, t is written and read only inside it, but
    // both stay live until the end of the body, so they never share a slot
    let program = vec![
        assign("i", Expr::Int(0)),
        Stmt::While {
            condition: Expr::Binary { left: Box::new(var("i")), op: BinOp::Lt, right: Box::new(Expr::Int(3)) },
            body: vec![
                assign("t", add(var("i"), Expr::Int(1))),
                Stmt::Print(var("t")),
                assign("i", var("t")),
            ],
        },
    ];
    let mut analyzer = LivenessAnalyzer::new();
    let assignments = analyzer.analyze_and_assign_slots(&program);
    assert_ne!(slot(&assignments, "i"), slot(&assignments, "t"));
}

#[test]
fn no_variables_no_slots() {
    let program = vec![Stmt::Print(Expr::Int(1))];
    let mut analyzer = LivenessAnalyzer::new();
    let assignments = analyzer.analyze_and_assign_slots(&program);
    assert_eq!(assignments.len(), 0);
    assert_eq!(analyzer.get_slot_stats(&assignments), (0, 1));
}

#[test]
fn symbol_table_from_liveness() {
    let program = vec![
        assign("x", Expr::Int(5)),
        assign("y", add(var("x"), Expr::Int(1))),
        assign("z", add(var("y"), Expr::Int(2))),
    ];
    let (mut table, stats) = build_symbol_table(&program);
    assert_eq!(stats, (3, 2));
    assert_eq!(table.lookup("x"), 0);
    assert_eq!(table.lookup("y"), 1);
    assert_eq!(table.lookup("z"), 0);
    // a new name gets the slot after the largest one
    assert_eq!(table.declare("w"), 2);
    assert_eq!(table.declare("w"), 2);
    assert_eq!(table.declare("x"), 0);
}

#[test]
fn a_loop_condition_stays_live_through_the_body() {
    // c = 1; a = 1; while c: print a; b = 0; print b
    let program = vec![
        assign("c", Expr::Int(1)),
        assign("a", Expr::Int(1)),
        Stmt::While {
            condition: var("c"),
            body: vec![Stmt::Print(var("a")), assign("b", Expr::Int(0)), Stmt::Print(var("b"))],
        },
    ];
    let slots = LivenessAnalyzer::new().analyze_and_assign_slots(&program);
    assert_ne!(slot(&slots, "b"), slot(&slots, "c"));
    assert_ne!(slot(&slots, "b"), slot(&slots, "a"));
}

#[test]
fn a_later_write_keeps_a_variable_live() {
    // x = 1; print x; y = 2; x = 3; print y
    let program = vec![
        assign("x", Expr::Int(1)),
        Stmt::Print(var("x")),
        assign("y", Expr::Int(2)),
        assign("x", Expr::Int(3)),
        Stmt::Print(var("y")),
    ];
    let slots = LivenessAnalyzer::new().analyze_and_assign_slots(&program);
    assert_ne!(slot(&slots, "x"), slot(&slots, "y"));
}
