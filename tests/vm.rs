use sheeplang::compiler::Compiler;
use sheeplang::syntax::Expr;
use sheeplang::vm::{Closure, Instruction, Observation, PeekAs, RuntimeError, VM};

fn var(name: &str) -> Expr {
    Expr::Var(name.to_string())
}

fn lam(param: &str, body: Expr) -> Expr {
    Expr::Lambda { param: param.to_string(), body: Box::new(body) }
}

fn app(func: Expr, arg: Expr) -> Expr {
    Expr::App { func: Box::new(func), arg: Box::new(arg) }
}

/// λf.λx.f (… (f x)) with `n` applications
fn numeral(n: usize) -> Expr {
    let mut body = var("x");
    for _ in 0..n {
        body = app(var("f"), body);
    }
    lam("f", lam("x", body))
}

/// Runs `expr` and peeks its value; an identity closure stays as the result.
fn peek(expr: Expr, kind: PeekAs) -> Observation {
    let mut c = Compiler::new();
    let mut code = vec![Instruction::lam(vec![Instruction::var(0)])];
    code.extend(c.compile_expr(&expr).unwrap());
    code.push(Instruction::Peek(kind));
    let mut vm = VM::new();
    let result: Closure = vm.run(&code).unwrap();
    assert_eq!(result.body, vec![Instruction::Var(0)]);
    assert_eq!(vm.stack_len(), 0);
    assert_eq!(vm.observations().len(), 1);
    vm.observations()[0]
}

#[test]
fn literal_numerals_read_back() {
    for n in 0..6 {
        assert_eq!(peek(numeral(n), PeekAs::Number), Observation::Number(Some(n)));
    }
}

#[test]
fn church_zero_reads_as_zero() {
    assert_eq!(peek(numeral(0), PeekAs::Number), Observation::Number(Some(0)));
}

/// The closure left by running `code`.
fn value_of(code: Vec<Instruction>) -> Closure {
    VM::new().run(&code).unwrap()
}

fn boolean_shape(k: usize) -> Vec<Instruction> {
    vec![Instruction::lam(vec![Instruction::lam(vec![Instruction::lam(vec![Instruction::var(k)])])])]
}

#[test]
fn booleans_read_back() {
    let mut vm = VM::new();
    let code = vec![
        boolean_shape(1).remove(0),
        Instruction::Peek(PeekAs::Bool),
        boolean_shape(0).remove(0),
        Instruction::Peek(PeekAs::Bool),
        Instruction::lam(vec![Instruction::var(0)]),
    ];
    vm.run(&code).unwrap();
    assert_eq!(vm.observations(), &vec![Observation::Bool(Some(true)), Observation::Bool(Some(false))]);
}

#[test]
fn boolean_reading_goes_by_stored_body() {
    let c1 = value_of(boolean_shape(1));
    let c2 = value_of(boolean_shape(0));
    let c3 = value_of(vec![Instruction::lam(vec![Instruction::lam(vec![Instruction::var(1)])])]);
    assert_eq!(c1.body, vec![Instruction::lam(vec![Instruction::lam(vec![Instruction::var(1)])])]);
    let mut code = vec![];
    for c in [&c1, &c2, &c3] {
        code.push(Instruction::lam(vec![c.body[0].duplicate()]));
        code.push(Instruction::Peek(PeekAs::Bool));
    }
    code.push(Instruction::lam(vec![Instruction::var(0)]));
    let mut vm = VM::new();
    vm.run(&code).unwrap();
    assert_eq!(
        vm.observations(),
        &vec![Observation::Bool(Some(true)), Observation::Bool(Some(false)), Observation::Bool(None)]
    );
}

#[test]
fn true_builtin_value_is_not_read_as_boolean() {
    assert_eq!(peek(Expr::Builtin("TRUE".to_string()), PeekAs::Bool), Observation::Bool(None));
}

#[test]
fn non_boolean_reads_as_none() {
    assert_eq!(peek(numeral(2), PeekAs::Bool), Observation::Bool(None));
}

#[test]
fn identity_is_not_a_number() {
    assert_eq!(peek(lam("x", var("x")), PeekAs::Number), Observation::Number(None));
}

#[test]
fn three_binder_numeral_shape_reads_strictly() {
    // λa.λf.λx.f (f x): stored body Lam(Lam(Var(1) Var(1) Var(0) App App))
    let good = lam("a", numeral(2));
    assert_eq!(peek(good, PeekAs::Number), Observation::Number(Some(2)));
    // λa.λf.λx.x f: stored body Lam(Lam(Var(0) Var(1) App))
    let bad = lam("a", lam("f", lam("x", app(var("x"), var("f")))));
    assert_eq!(peek(bad, PeekAs::Number), Observation::Number(None));
}

#[test]
fn single_binder_counts_applications() {
    // λa.λy.y y y: stored body is one lambda whose body applies twice
    let e = lam("a", lam("y", app(app(var("y"), var("y")), var("y"))));
    assert_eq!(peek(e, PeekAs::Number), Observation::Number(Some(2)));
}

#[test]
fn list_peek_is_unsupported() {
    assert_eq!(peek(numeral(1), PeekAs::List), Observation::Unsupported);
}

#[test]
fn omega_stops_at_the_depth_limit() {
    // (λx.x x) (λx.x x) never reaches a value
    let omega = lam("x", app(var("x"), var("x")));
    let e = app(omega, lam("x", app(var("x"), var("x"))));
    let code = Compiler::new().compile_expr(&e).unwrap();
    let mut vm = VM::new();
    assert_eq!(vm.eval(&code, &vec![], 200).err(), Some(RuntimeError::DepthExceeded));
}

#[test]
fn apply_with_one_operand_fails() {
    let mut vm = VM::new();
    let code = vec![Instruction::lam(vec![Instruction::var(0)]), Instruction::app()];
    assert_eq!(vm.run(&code).err(), Some(RuntimeError::InsufficientOperands));
}

#[test]
fn apply_on_empty_stack_fails() {
    let mut vm = VM::new();
    assert_eq!(vm.run(&[Instruction::App]).err(), Some(RuntimeError::InsufficientOperands));
}

#[test]
fn free_index_fails_at_runtime() {
    let mut vm = VM::new();
    assert_eq!(vm.run(&[Instruction::Var(0)]).err(), Some(RuntimeError::UnboundVariable(0)));
}

#[test]
fn peek_on_empty_stack_fails() {
    let mut vm = VM::new();
    assert_eq!(vm.run(&[Instruction::Peek(PeekAs::Number)]).err(), Some(RuntimeError::MissingPeekTarget));
}

#[test]
fn empty_program_has_no_result() {
    let mut vm = VM::new();
    assert_eq!(vm.run(&[]).err(), Some(RuntimeError::EmptyResult));
}

#[test]
fn application_extends_captured_environment() {
    // (λx.λy.x) (λz.z) gives λy.x with x bound to λz.z
    let mut c = Compiler::new();
    let e = app(lam("x", lam("y", var("x"))), lam("z", var("z")));
    let code = c.compile_expr(&e).unwrap();
    let mut vm = VM::new();
    let r = vm.run(&code).unwrap();
    assert_eq!(r.body, vec![Instruction::Var(1)]);
    assert_eq!(r.env.len(), 1);
    assert_eq!(r.env[0].body, vec![Instruction::Var(0)]);
}

#[test]
fn extra_values_stay_below_the_result() {
    let mut vm = VM::new();
    let code = vec![
        Instruction::lam(vec![Instruction::var(0)]),
        Instruction::lam(vec![Instruction::lam(vec![Instruction::var(1)])]),
    ];
    let r = vm.run(&code).unwrap();
    assert_eq!(r.body, vec![Instruction::lam(vec![Instruction::var(1)])]);
    assert_eq!(vm.stack_len(), 1);
}

#[test]
fn eval_respects_depth_limit() {
    // (λx.x) (λx.x) needs one level
    let code = vec![
        Instruction::lam(vec![Instruction::var(0)]),
        Instruction::lam(vec![Instruction::var(0)]),
        Instruction::app(),
    ];
    let mut vm = VM::new();
    assert_eq!(vm.eval(&code, &vec![], 0).err(), Some(RuntimeError::DepthExceeded));
    let mut vm = VM::new();
    assert_eq!(vm.eval(&code, &vec![], 1).unwrap().body, vec![Instruction::Var(0)]);
}

#[test]
fn observations_survive_a_later_error() {
    let mut vm = VM::new();
    let code = vec![boolean_shape(1).remove(0), Instruction::Peek(PeekAs::Bool), Instruction::App];
    assert_eq!(vm.run(&code).err(), Some(RuntimeError::InsufficientOperands));
    assert_eq!(vm.observations(), &vec![Observation::Bool(Some(true))]);
}

#[test]
fn peek_names_ignore_case() {
    assert_eq!(PeekAs::from("PEEK_BOOL"), PeekAs::Bool);
    assert_eq!(PeekAs::from_name("Peek_List"), PeekAs::List);
    assert_eq!(PeekAs::from_name("PEEK_NUM"), PeekAs::Number);
    assert_eq!(PeekAs::from_name("something"), PeekAs::Number);
}

#[test]
fn folded_peek_names() {
    assert_eq!(PeekAs::from_folded("peek_bool"), PeekAs::Bool);
    assert_eq!(PeekAs::from_folded("peek_list"), PeekAs::List);
    assert_eq!(PeekAs::from_folded("PEEK_BOOL"), PeekAs::Number);
}

#[test]
fn closures_render_opaquely() {
    let c = Closure { body: vec![Instruction::Var(0)], env: vec![] };
    assert_eq!(c.render(), "<function>");
}
