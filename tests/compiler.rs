use sheeplang::compiler::{compile_and_run, CompileError, Compiler, Error};
use sheeplang::syntax::{Expr, Program, Statement};
use sheeplang::vm::Instruction;

fn var(name: &str) -> Expr {
    Expr::Var(name.to_string())
}

fn lam(param: &str, body: Expr) -> Expr {
    Expr::Lambda { param: param.to_string(), body: Box::new(body) }
}

fn app(func: Expr, arg: Expr) -> Expr {
    Expr::App { func: Box::new(func), arg: Box::new(arg) }
}

fn builtin(name: &str) -> Expr {
    Expr::Builtin(name.to_string())
}

fn bind(name: &str, value: Expr) -> Statement {
    Statement::LetBinding { name: name.to_string(), value }
}

/// λf.λx.f (f x)
fn two() -> Expr {
    lam("f", lam("x", app(var("f"), app(var("f"), var("x")))))
}

fn two_code() -> Vec<Instruction> {
    vec![Instruction::Lam(vec![Instruction::Lam(vec![
        Instruction::Var(1),
        Instruction::Var(1),
        Instruction::Var(0),
        Instruction::App,
        Instruction::App,
    ])])]
}

#[test]
fn lambda_parameters_become_indices() {
    let mut c = Compiler::new();
    assert_eq!(c.compile_expr(&two()).unwrap(), two_code());
}

#[test]
fn inner_parameter_shadows_outer() {
    let mut c = Compiler::new();
    let e = lam("x", lam("x", var("x")));
    assert_eq!(
        c.compile_expr(&e).unwrap(),
        vec![Instruction::Lam(vec![Instruction::Lam(vec![Instruction::Var(0)])])]
    );
}

#[test]
fn let_binding_inlined_at_each_use() {
    let mut c = Compiler::new();
    let program = Program { statements: vec![bind("two", two())], main_expr: Some(app(var("two"), var("two"))) };
    let code = c.compile(program).unwrap();
    let mut expected = two_code();
    expected.extend(two_code());
    expected.push(Instruction::App);
    assert_eq!(code, expected);
}

#[test]
fn undefined_name_is_rejected() {
    let mut c = Compiler::new();
    let r = c.compile_expr(&var("undefined_var"));
    assert_eq!(r, Err(CompileError::UnboundVariable("undefined_var".to_string())));
}

#[test]
fn forward_reference_is_rejected() {
    let mut c = Compiler::new();
    let program = Program {
        statements: vec![bind("a", var("b")), bind("b", lam("x", var("x")))],
        main_expr: Some(var("a")),
    };
    assert_eq!(c.compile(program), Err(CompileError::UnboundVariable("b".to_string())));
}

#[test]
fn unknown_builtin_is_rejected() {
    let mut c = Compiler::new();
    assert_eq!(c.compile_expr(&builtin("MUL")), Err(CompileError::UnknownBuiltin("MUL".to_string())));
}

#[test]
fn successor_expansion() {
    let mut c = Compiler::new();
    let expected = vec![Instruction::Lam(vec![Instruction::Lam(vec![Instruction::Lam(vec![
        Instruction::Var(1),
        Instruction::Var(2),
        Instruction::Var(1),
        Instruction::Var(0),
        Instruction::App,
        Instruction::App,
        Instruction::App,
    ])])])];
    assert_eq!(c.compile_expr(&builtin("SUCC")).unwrap(), expected);
}

#[test]
fn addition_expansion() {
    let mut c = Compiler::new();
    let expected = vec![Instruction::Lam(vec![Instruction::Lam(vec![Instruction::Lam(vec![Instruction::Lam(vec![
        Instruction::Var(3),
        Instruction::Var(1),
        Instruction::Var(2),
        Instruction::Var(1),
        Instruction::Var(0),
        Instruction::App,
        Instruction::App,
        Instruction::App,
    ])])])])];
    assert_eq!(c.compile_expr(&builtin("ADD")).unwrap(), expected);
}

#[test]
fn boolean_expansions() {
    let mut c = Compiler::new();
    assert_eq!(
        c.compile_expr(&builtin("TRUE")).unwrap(),
        vec![Instruction::Lam(vec![Instruction::Lam(vec![Instruction::Var(1)])])]
    );
    assert_eq!(
        c.compile_expr(&builtin("FALSE")).unwrap(),
        vec![Instruction::Lam(vec![Instruction::Lam(vec![Instruction::Var(0)])])]
    );
}

#[test]
fn markers_expand_to_identity() {
    let mut c = Compiler::new();
    for name in ["AS_NAT", "AS_BOOL", "AS_LIST"] {
        assert_eq!(
            c.compile_expr(&builtin(name)).unwrap(),
            vec![Instruction::Lam(vec![Instruction::Var(0)])]
        );
    }
}

#[test]
fn program_without_main_is_identity() {
    let mut c = Compiler::new();
    let program = Program { statements: vec![bind("two", two())], main_expr: None };
    assert_eq!(c.compile(program).unwrap(), vec![Instruction::Lam(vec![Instruction::Var(0)])]);
}

#[test]
fn rebinding_overrides() {
    let mut c = Compiler::new();
    let program = Program {
        statements: vec![bind("v", builtin("TRUE")), bind("v", builtin("FALSE"))],
        main_expr: Some(var("v")),
    };
    assert_eq!(
        c.compile(program).unwrap(),
        vec![Instruction::Lam(vec![Instruction::Lam(vec![Instruction::Var(0)])])]
    );
}

#[test]
fn let_binding_does_not_take_an_index() {
    let mut c = Compiler::new();
    let program = Program {
        statements: vec![bind("id", lam("x", var("x")))],
        main_expr: Some(lam("y", app(var("id"), var("y")))),
    };
    assert_eq!(
        c.compile(program).unwrap(),
        vec![Instruction::Lam(vec![
            Instruction::Lam(vec![Instruction::Var(0)]),
            Instruction::Var(0),
            Instruction::App,
        ])]
    );
}

#[test]
fn identity_is_transparent() {
    let program = Program {
        statements: vec![bind("id", lam("x", var("x"))), bind("two", two())],
        main_expr: Some(app(var("id"), var("two"))),
    };
    let result = compile_and_run(program).unwrap();
    let mut c = Compiler::new();
    let direct = c.compile_expr(&two()).unwrap();
    match &direct[0] {
        Instruction::Lam(body) => assert_eq!(&result.body, body),
        other => panic!("unexpected {:?}", other),
    }
}

#[test]
fn true_selects_first_structurally() {
    let x = lam("a", var("a"));
    let y = lam("b", lam("c", var("c")));
    let program = Program { statements: vec![], main_expr: Some(app(app(builtin("TRUE"), x), y)) };
    let result = compile_and_run(program).unwrap();
    assert_eq!(result.body, vec![Instruction::Var(0)]);
    assert!(result.env.is_empty());
}

#[test]
fn false_selects_second_structurally() {
    let x = lam("a", var("a"));
    let y = lam("b", lam("c", var("c")));
    let program = Program { statements: vec![], main_expr: Some(app(app(builtin("FALSE"), x), y)) };
    let result = compile_and_run(program).unwrap();
    assert_eq!(result.body, vec![Instruction::Lam(vec![Instruction::Var(0)])]);
    assert!(result.env.is_empty());
}

#[test]
fn compile_and_run_reports_compile_errors() {
    let program = Program { statements: vec![], main_expr: Some(var("nowhere")) };
    assert_eq!(
        compile_and_run(program).err(),
        Some(Error::Compile(CompileError::UnboundVariable("nowhere".to_string())))
    );
}
