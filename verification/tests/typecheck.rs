use lib::ast::{BinOp, Expr, Stmt};
use lib::namemap::NameMap;
use lib::typecheck::{infer_expression_type, Type, TypeChecker};

fn var(name: &str) -> Expr {
    Expr::Var(name.to_string())
}

fn bin(l: Expr, op: BinOp, r: Expr) -> Expr {
    Expr::Binary { left: Box::new(l), op, right: Box::new(r) }
}

fn assign(name: &str, value: Expr) -> Stmt {
    Stmt::Assign { name: name.to_string(), value }
}

fn s(text: &str) -> Expr {
    Expr::Str(text.to_string())
}

fn check(program: &[Stmt]) -> (bool, Vec<String>, TypeChecker) {
    let mut checker = TypeChecker::new();
    let ok = checker.check_program(program);
    let errors = checker.errors().clone();
    (ok, errors, checker)
}

#[test]
fn well_typed_program_passes() {
    let program = vec![assign("x", Expr::Int(1)), assign("y", bin(var("x"), BinOp::Add, Expr::Int(2)))];
    let (ok, errors, checker) = check(&program);
    assert!(ok);
    assert!(errors.is_empty());
    assert_eq!(checker.get_globals().get(&"y".to_string()), Some(&Type::Int));
}

#[test]
fn retyping_a_variable_is_an_error() {
    let program = vec![assign("x", Expr::Int(1)), assign("x", s("a"))];
    let (ok, errors, _) = check(&program);
    assert!(!ok);
    assert_eq!(errors, vec!["variable 'x' used as Str but previously was Int".to_string()]);
}

#[test]
fn string_operators() {
    let program = vec![
        Stmt::Print(bin(s("a"), BinOp::Sub, Expr::Int(1))),
        Stmt::Print(bin(s("a"), BinOp::Add, Expr::Int(1))),
        Stmt::Print(bin(s("a"), BinOp::Lt, Expr::Int(1))),
    ];
    let (ok, errors, _) = check(&program);
    assert!(!ok);
    assert_eq!(
        errors,
        vec![
            "Sub not supported on strings".to_string(),
            "Cannot add Str and Int".to_string(),
            "Comparison requires same types, got Str and Int".to_string(),
        ]
    );
}

#[test]
fn function_signatures_are_checked() {
    let program = vec![
        Stmt::Func {
            name: "g".to_string(),
            params: vec!["a".to_string()],
            body: vec![assign("t", bin(var("a"), BinOp::Add, Expr::Int(1))), Stmt::Return(var("t"))],
        },
        Stmt::Print(Expr::Call { name: "g".to_string(), args: vec![s("s")] }),
        Stmt::Print(Expr::Call { name: "g".to_string(), args: vec![Expr::Int(1), Expr::Int(2)] }),
    ];
    let (ok, errors, checker) = check(&program);
    assert!(!ok);
    assert_eq!(
        errors,
        vec![
            "Argument 1 to 'g' expected Int, got Str".to_string(),
            "Function 'g' expects 1 arguments, got 2".to_string(),
        ]
    );
    assert_eq!(checker.get_function_return_type("g"), Some(Type::Int));
    assert_eq!(checker.get_function_return_type("h"), None);
    // variables of the function body do not leak out
    assert_eq!(checker.get_globals().get(&"t".to_string()), None);
}

#[test]
fn conditions_indexing_and_unary_operators() {
    let program = vec![
        assign("s", s("abc")),
        Stmt::While { condition: var("s"), body: vec![] },
        Stmt::If { condition: s("x"), then_body: vec![], else_body: vec![] },
        Stmt::ArrAssign { name: "n".to_string(), index: Box::new(s("i")), value: s("v") },
        assign("n", Expr::Int(3)),
        Stmt::ArrAssign { name: "n".to_string(), index: Box::new(Expr::Int(0)), value: Expr::Int(1) },
        Stmt::Print(Expr::ArrIndex { arr: Box::new(Expr::Int(5)), index: Box::new(Expr::Int(0)) }),
        Stmt::Print(Expr::Unary { op: lib::ast::UnaryOp::Neg, operand: Box::new(s("q")) }),
        Stmt::Print(bin(s("a"), BinOp::And, Expr::Int(1))),
    ];
    let (ok, errors, _) = check(&program);
    assert!(!ok);
    assert_eq!(
        errors,
        vec![
            "While condition must be Int, got Str".to_string(),
            "If condition must be Int, got Str".to_string(),
            "Array index must be Int, got Str".to_string(),
            "Array element value must be Int, got Str".to_string(),
            "Cannot index into Int variable 'n'".to_string(),
            "Cannot index into Int".to_string(),
            "'-' requires Int, got Str".to_string(),
            "Logical op requires Int, left is Str".to_string(),
        ]
    );
}

#[test]
fn return_types_must_agree() {
    let program = vec![Stmt::Func {
        name: "f".to_string(),
        params: vec![],
        body: vec![Stmt::Return(Expr::Int(1)), Stmt::Return(s("x"))],
    }];
    let (ok, errors, checker) = check(&program);
    assert!(!ok);
    assert_eq!(errors, vec!["Return type mismatch: expected Int, got Str".to_string()]);
    assert_eq!(checker.get_function_return_type("f"), Some(Type::Int));
}

#[test]
fn nested_arrays_index_to_arrays() {
    // m holds an array of arrays, so m[0] is an array and m[0][1] an Int
    let nested = Expr::ArrLit(vec![Expr::ArrLit(vec![Expr::Int(1)]), Expr::ArrLit(vec![Expr::Int(2)])]);
    let program = vec![
        assign("m", nested),
        assign("row", Expr::ArrIndex { arr: Box::new(var("m")), index: Box::new(Expr::Int(0)) }),
        assign("flat", Expr::ArrLit(vec![Expr::Int(1)])),
        assign("x", Expr::ArrIndex { arr: Box::new(var("flat")), index: Box::new(Expr::Int(0)) }),
    ];
    let (ok, _, checker) = check(&program);
    assert!(ok);
    assert_eq!(checker.get_globals().get(&"row".to_string()), Some(&Type::Array));
    assert_eq!(checker.get_globals().get(&"x".to_string()), Some(&Type::Int));
}

#[test]
fn infers_expression_types() {
    let mut globals: NameMap<Type> = NameMap::new();
    globals.insert("s".to_string(), Type::Str);
    globals.insert("a".to_string(), Type::Array);
    assert_eq!(infer_expression_type(&bin(var("s"), BinOp::Add, Expr::Int(1)), &globals), Type::Str);
    assert_eq!(infer_expression_type(&bin(var("s"), BinOp::Sub, Expr::Int(1)), &globals), Type::Int);
    assert_eq!(infer_expression_type(&var("u"), &globals), Type::Unknown);
    assert_eq!(
        infer_expression_type(&Expr::ArrIndex { arr: Box::new(var("a")), index: Box::new(Expr::Int(0)) }, &globals),
        Type::Array
    );
    assert_eq!(
        infer_expression_type(&Expr::ArrIndex { arr: Box::new(var("s")), index: Box::new(Expr::Int(0)) }, &globals),
        Type::Int
    );
}
