use vstd::prelude::*;
use crate::compiler::{compile_spec, false_code, lookup, true_code, var_index, Bindings, CompileError};
use crate::syntax::Expr;
use crate::vm::{
    boolean_of, count_apps, eval_spec, exec_code, lemma_numeral_code, numeral_code, numeral_of, observe, Machine,
    Observation, PeekAs, RuntimeError, Term, Value,
};

verus! {

/// A let-bound name is replaced by its whole compiled code at every use:
/// `name name` compiles to two full copies of that code and an application.
pub proof fn law_let_inlined_at_each_use(binds: Bindings, vars: Seq<Seq<char>>, name: String, code: Seq<Term>)
    requires
        lookup(binds, name@) == Some(code),
    ensures
        compile_spec(
            binds,
            vars,
            Expr::App { func: Box::new(Expr::Var(name)), arg: Box::new(Expr::Var(name)) },
        ) == Ok::<Seq<Term>, CompileError>(code + code + seq![Term::App]),
{
    assert(compile_spec(binds, vars, Expr::Var(name)) == Ok::<Seq<Term>, CompileError>(code));
}

/// A name that is neither let-bound nor an enclosing parameter fails to
/// compile, and the error names it.
pub proof fn law_unbound_name_rejected(binds: Bindings, vars: Seq<Seq<char>>, name: String)
    requires
        lookup(binds, name@) is None,
        var_index(vars, name@) is None,
    ensures
        compile_spec(binds, vars, Expr::Var(name)) == Err::<Seq<Term>, CompileError>(
            CompileError::UnboundVariable(name),
        ),
{
}

/// Applying when only one value has been pushed fails with
/// `InsufficientOperands`: a lone variable followed by `App`, on an empty stack.
pub proof fn law_apply_needs_two_operands(fuel: nat, i: nat, rest: Seq<Term>, env: Seq<Value>, m: Machine)
    requires
        i < env.len(),
        m.stack.len() == 0,
    ensures
        eval_spec(fuel, seq![Term::Var(i), Term::App] + rest, env, m).1 == Err::<Value, RuntimeError>(
            RuntimeError::InsufficientOperands,
        ),
{
    let code = seq![Term::Var(i), Term::App] + rest;
    let c1 = code.subrange(1, code.len() as int);
    assert(c1[0] == Term::App);
    let m1 = Machine { stack: m.stack.push(env[env.len() - 1 - i]), log: m.log };
    assert(exec_code(fuel, c1, env, m1) == (m1, Some(RuntimeError::InsufficientOperands)));
}

proof fn lemma_count_apps_concat(a: Seq<Term>, b: Seq<Term>)
    ensures
        count_apps(a + b) == count_apps(a) + count_apps(b),
    decreases b.len(),
{
    if b.len() == 0 {
        assert(a + b =~= a);
    } else {
        assert((a + b).drop_last() =~= a + b.drop_last());
        lemma_count_apps_concat(a, b.drop_last());
    }
}

proof fn lemma_count_apps_uniform(s: Seq<Term>, t: Term)
    requires
        forall|k: int| 0 <= k < s.len() ==> s[k] == t,
    ensures
        count_apps(s) == if t is App {
            s.len()
        } else {
            0
        },
    decreases s.len(),
{
    if s.len() > 0 {
        lemma_count_apps_uniform(s.drop_last(), t);
    }
}

proof fn lemma_count_apps_numeral(n: nat)
    ensures
        count_apps(numeral_code(n)) == n,
{
    lemma_numeral_code(n);
    let code = numeral_code(n);
    let fs = code.subrange(0, n as int);
    let mid = code.subrange(n as int, n as int + 1);
    let aps = code.subrange(n as int + 1, 2 * n as int + 1);
    lemma_count_apps_uniform(fs, Term::Var(1));
    lemma_count_apps_uniform(mid, Term::Var(0));
    lemma_count_apps_uniform(aps, Term::App);
    lemma_count_apps_concat(fs, mid);
    lemma_count_apps_concat(fs + mid, aps);
    assert(fs + mid + aps =~= code);
}

/// A closure whose stored body is `Lam(Lam(Var(1)^n Var(0) App^n))` reads
/// as the numeral `n`.
pub proof fn law_numeral_shape_reads_back(n: nat, env: Seq<Value>)
    ensures
        numeral_of(Value { body: seq![Term::Lam(seq![Term::Lam(numeral_code(n))])], env }) == Some(n),
{
    lemma_numeral_code(n);
}

/// A closure whose stored body is one lambda with body `Var(1)^n Var(0) App^n`
/// (the value of the literal `λf.λx.f^n x`) reads as `n`, by its applications.
pub proof fn law_numeral_reads_back(n: nat, env: Seq<Value>)
    ensures
        numeral_of(Value { body: seq![Term::Lam(numeral_code(n))], env }) == Some(n),
{
    lemma_numeral_code(n);
    lemma_count_apps_numeral(n);
    let ob = numeral_code(n);
    if n == 0 {
        assert(ob[0] == Term::Var(0));
    } else {
        assert(ob.len() != 1);
    }
}

/// A closure whose stored body is `Lam(Lam(Var(1)))` reads as true, and one
/// whose stored body is `Lam(Lam(Var(0)))` as false.
pub proof fn law_booleans_read_back(env: Seq<Value>)
    ensures
        boolean_of(Value { body: true_code(), env }) == Some(true),
        boolean_of(Value { body: false_code(), env }) == Some(false),
{
    let f = false_code();
    let t = true_code();
    assert(f[0]->Lam_0[0]->Lam_0[0] != t[0]->Lam_0[0]->Lam_0[0]);
    assert(f != t);
}

/// A closure whose stored body is not a single lambda, such as the identity
/// `λx.x`, reads as no numeral and no boolean.
pub proof fn law_bare_body_reads_as_nothing(v: Value)
    requires
        !(v.body.len() == 1 && v.body[0] is Lam),
    ensures
        numeral_of(v) is None,
        boolean_of(v) is None,
{
    assert(true_code()[0] is Lam);
    assert(false_code()[0] is Lam);
}

/// Pushing the literal numeral `λf.λx.f^n x` and peeking it as a number
/// records `n` and leaves the stack as it was.
pub proof fn law_literal_numeral_peeks(fuel: nat, n: nat, env: Seq<Value>, m: Machine)
    requires
        n <= usize::MAX,
    ensures
        exec_code(fuel, seq![Term::Lam(seq![Term::Lam(numeral_code(n))]), Term::Peek(PeekAs::Number)], env, m) == (
        Machine { stack: m.stack, log: m.log.push(Observation::Number(Some(n as usize))) },
        None::<RuntimeError>,
    ),
{
    let v = Value { body: seq![Term::Lam(numeral_code(n))], env };
    law_numeral_reads_back(n, env);
    let code = seq![Term::Lam(seq![Term::Lam(numeral_code(n))]), Term::Peek(PeekAs::Number)];
    let c1 = code.subrange(1, 2);
    let c2 = code.subrange(2, 2);
    assert(c1.subrange(1, 1) =~= c2);
    let pushed = m.stack.push(v);
    assert(pushed.drop_last() =~= m.stack);
    let done = Machine { stack: m.stack, log: m.log.push(observe(PeekAs::Number, v)) };
    assert(exec_code(fuel, c2, env, done) == (done, None::<RuntimeError>));
    assert(exec_code(fuel, c1, env, Machine { stack: pushed, log: m.log }) == (done, None::<RuntimeError>));
}

/// `f (f (… (f x)))` with `n` applications of `f`.
pub open spec fn iterate_expr(f: String, x: String, n: nat) -> Expr
    decreases n,
{
    if n == 0 {
        Expr::Var(x)
    } else {
        Expr::App { func: Box::new(Expr::Var(f)), arg: Box::new(iterate_expr(f, x, (n - 1) as nat)) }
    }
}

/// `λf.λx. f (… (f x))` with `n` applications of `f`.
pub open spec fn numeral_expr(f: String, x: String, n: nat) -> Expr {
    Expr::Lambda { param: f, body: Box::new(Expr::Lambda { param: x, body: Box::new(iterate_expr(f, x, n)) }) }
}

proof fn lemma_iterate_compiles(binds: Bindings, vars: Seq<Seq<char>>, f: String, x: String, n: nat)
    requires
        lookup(binds, f@) is None,
        lookup(binds, x@) is None,
        f@ != x@,
    ensures
        compile_spec(binds, vars.push(f@).push(x@), iterate_expr(f, x, n)) == Ok::<Seq<Term>, CompileError>(
            numeral_code(n),
        ),
    decreases n,
{
    let vs = vars.push(f@).push(x@);
    assert(vs.drop_last() =~= vars.push(f@));
    assert(var_index(vs, x@) == Some(0nat));
    assert(var_index(vars.push(f@), f@) == Some(0nat));
    assert(var_index(vs, f@) == Some(1nat));
    lemma_numeral_code(n);
    if n == 0 {
        assert(numeral_code(0) =~= seq![Term::Var(0)]);
    } else {
        lemma_iterate_compiles(binds, vars, f, x, (n - 1) as nat);
        lemma_numeral_code((n - 1) as nat);
        assert(numeral_code(n) =~= seq![Term::Var(1)] + numeral_code((n - 1) as nat) + seq![Term::App]);
        assert(compile_spec(binds, vs, Expr::Var(f)) == Ok::<Seq<Term>, CompileError>(seq![Term::Var(1)]));
    }
}

/// A literal Church numeral `λf.λx. f^n x`, with parameter names that are
/// distinct and not let-bound, compiles to `Lam(Lam(Var(1)^n Var(0) App^n))`.
pub proof fn law_literal_numeral_compiles(binds: Bindings, vars: Seq<Seq<char>>, f: String, x: String, n: nat)
    requires
        lookup(binds, f@) is None,
        lookup(binds, x@) is None,
        f@ != x@,
    ensures
        compile_spec(binds, vars, numeral_expr(f, x, n)) == Ok::<Seq<Term>, CompileError>(
            seq![Term::Lam(seq![Term::Lam(numeral_code(n))])],
        ),
{
    lemma_iterate_compiles(binds, vars, f, x, n);
    let inner = Expr::Lambda { param: x, body: Box::new(iterate_expr(f, x, n)) };
    assert(compile_spec(binds, vars.push(f@), inner) == Ok::<Seq<Term>, CompileError>(
        seq![Term::Lam(numeral_code(n))],
    ));
}

/// Running `a + b` runs `a`, then `b` from where `a` left the machine, unless
/// `a` failed.
pub proof fn lemma_exec_concat(fuel: nat, a: Seq<Term>, b: Seq<Term>, env: Seq<Value>, m: Machine)
    ensures
        exec_code(fuel, a + b, env, m) == ({
            let (m1, e) = exec_code(fuel, a, env, m);
            if e is Some {
                (m1, e)
            } else {
                exec_code(fuel, b, env, m1)
            }
        }),
    decreases a.len(),
{
    if a.len() == 0 {
        assert(a + b =~= b);
    } else {
        let ab = a + b;
        let rest = a.subrange(1, a.len() as int);
        assert(ab[0] == a[0]);
        assert(ab.subrange(1, ab.len() as int) =~= rest + b);
        match a[0] {
            Term::Var(i) => {
                if i < env.len() {
                    lemma_exec_concat(fuel, rest, b, env, Machine { stack: m.stack.push(env[env.len() - 1 - i]), log: m.log });
                }
            },
            Term::Lam(body) => {
                lemma_exec_concat(fuel, rest, b, env, Machine { stack: m.stack.push(Value { body, env }), log: m.log });
            },
            Term::App => {
                if m.stack.len() >= 2 && fuel > 0 {
                    let n = m.stack.len();
                    let arg = m.stack[n - 1];
                    let func = m.stack[n - 2];
                    let m1 = Machine { stack: m.stack.subrange(0, n - 2), log: m.log };
                    let (m2, r) = eval_spec((fuel - 1) as nat, func.body, func.env.push(arg), m1);
                    if let Ok(v) = r {
                        lemma_exec_concat(fuel, rest, b, env, Machine { stack: m2.stack.push(v), log: m2.log });
                    }
                }
            },
            Term::Peek(kind) => {
                if m.stack.len() > 0 {
                    lemma_exec_concat(
                        fuel,
                        rest,
                        b,
                        env,
                        Machine { stack: m.stack.drop_last(), log: m.log.push(observe(kind, m.stack.last())) },
                    );
                }
            },
        }
    }
}

/// `code` evaluates to `v` on any stack: it pushes `v` and changes nothing else.
pub open spec fn pushes(fuel: nat, code: Seq<Term>, env: Seq<Value>, v: Value) -> bool {
    forall|m: Machine|
        #[trigger] exec_code(fuel, code, env, m) == (Machine { stack: m.stack.push(v), log: m.log }, None::<RuntimeError>)
}

/// The code of `sel a b`: the selector, the code of `a`, an application, the
/// code of `b` and another application.
pub open spec fn apply_two(sel: Seq<Term>, a: Seq<Term>, b: Seq<Term>) -> Seq<Term> {
    sel + a + seq![Term::App] + b + seq![Term::App]
}

proof fn lemma_select_code(fuel: nat, k: nat, xi: Seq<Term>, yi: Seq<Term>, env: Seq<Value>, x: Value, y: Value, m: Machine)
    requires
        fuel >= 1,
        k <= 1,
        pushes(fuel, xi, env, x),
        pushes(fuel, yi, env, y),
    ensures
        eval_spec(fuel, apply_two(seq![Term::Lam(seq![Term::Lam(seq![Term::Var(k)])])], xi, yi), env, m)
            == (m, Ok::<Value, RuntimeError>(if k == 1 { x } else { y })),
{
    let inner = seq![Term::Var(k)];
    let body = seq![Term::Lam(inner)];
    let sel = seq![Term::Lam(body)];
    let app = seq![Term::App];
    let s = m.stack;
    let l = m.log;
    let t = Value { body, env };
    assert(apply_two(sel, xi, yi) =~= sel + (xi + (app + (yi + app))));
    // the selector
    lemma_exec_concat(fuel, sel, xi + (app + (yi + app)), env, m);
    assert(sel.subrange(1, 1) =~= Seq::<Term>::empty());
    let m_t = Machine { stack: s.push(t), log: l };
    assert(exec_code(fuel, sel.subrange(1, 1), env, m_t) == (m_t, None::<RuntimeError>));
    assert(exec_code(fuel, sel, env, m) == (m_t, None::<RuntimeError>));
    // the first argument
    lemma_exec_concat(fuel, xi, app + (yi + app), env, m_t);
    let m_tx = Machine { stack: s.push(t).push(x), log: l };
    assert(exec_code(fuel, xi, env, m_t) == (m_tx, None::<RuntimeError>));
    // the first application gives a closure over env + [x]
    let env1 = env.push(x);
    let v1 = Value { body: inner, env: env1 };
    let m0 = Machine { stack: s, log: l };
    let m_v1 = Machine { stack: s.push(v1), log: l };
    assert(body.subrange(1, 1) =~= Seq::<Term>::empty());
    assert(exec_code((fuel - 1) as nat, body.subrange(1, 1), env1, m_v1) == (m_v1, None::<RuntimeError>));
    assert(exec_code((fuel - 1) as nat, body, env1, m0) == (m_v1, None::<RuntimeError>));
    assert(s.push(v1).drop_last() =~= s);
    assert(eval_spec((fuel - 1) as nat, body, env1, m0) == (m0, Ok::<Value, RuntimeError>(v1)));
    assert(s.push(t).push(x).subrange(0, s.len() as int) =~= s);
    lemma_exec_concat(fuel, app, yi + app, env, m_tx);
    assert(app.subrange(1, 1) =~= Seq::<Term>::empty());
    assert(exec_code(fuel, app.subrange(1, 1), env, m_v1) == (m_v1, None::<RuntimeError>));
    assert(exec_code(fuel, app, env, m_tx) == (m_v1, None::<RuntimeError>));
    // the second argument
    lemma_exec_concat(fuel, yi, app, env, m_v1);
    let m_v1y = Machine { stack: s.push(v1).push(y), log: l };
    assert(exec_code(fuel, yi, env, m_v1) == (m_v1y, None::<RuntimeError>));
    // the second application reads index k of env + [x, y]
    let env2 = env1.push(y);
    let r = env2[env2.len() - 1 - k];
    assert(r == if k == 1 { x } else { y });
    let m_r = Machine { stack: s.push(r), log: l };
    assert(inner.subrange(1, 1) =~= Seq::<Term>::empty());
    assert(exec_code((fuel - 1) as nat, inner.subrange(1, 1), env2, m_r) == (m_r, None::<RuntimeError>));
    assert(exec_code((fuel - 1) as nat, inner, env2, m0) == (m_r, None::<RuntimeError>));
    assert(s.push(r).drop_last() =~= s);
    assert(eval_spec((fuel - 1) as nat, inner, env2, m0) == (m0, Ok::<Value, RuntimeError>(r)));
    assert(s.push(v1).push(y).subrange(0, s.len() as int) =~= s);
    assert(exec_code(fuel, app.subrange(1, 1), env, m_r) == (m_r, None::<RuntimeError>));
    assert(exec_code(fuel, app, env, m_v1y) == (m_r, None::<RuntimeError>));
    assert(exec_code(fuel, apply_two(sel, xi, yi), env, m) == (m_r, None::<RuntimeError>));
}

/// `TRUE x y` reduces to the very value of `x`, for any code `x` and `y` that
/// evaluate to values.
pub proof fn law_true_code_selects_first(fuel: nat, xi: Seq<Term>, yi: Seq<Term>, env: Seq<Value>, x: Value, y: Value, m: Machine)
    requires
        fuel >= 1,
        pushes(fuel, xi, env, x),
        pushes(fuel, yi, env, y),
    ensures
        eval_spec(fuel, apply_two(true_code(), xi, yi), env, m) == (m, Ok::<Value, RuntimeError>(x)),
{
    lemma_select_code(fuel, 1, xi, yi, env, x, y, m);
}

/// `FALSE x y` reduces to the very value of `y`, for any code `x` and `y` that
/// evaluate to values.
pub proof fn law_false_code_selects_second(fuel: nat, xi: Seq<Term>, yi: Seq<Term>, env: Seq<Value>, x: Value, y: Value, m: Machine)
    requires
        fuel >= 1,
        pushes(fuel, xi, env, x),
        pushes(fuel, yi, env, y),
    ensures
        eval_spec(fuel, apply_two(false_code(), xi, yi), env, m) == (m, Ok::<Value, RuntimeError>(y)),
{
    lemma_select_code(fuel, 0, xi, yi, env, x, y, m);
}

/// A lambda, and a variable bound in the environment, each push one value
/// and change nothing else.
pub proof fn law_atoms_push(fuel: nat, b: Seq<Term>, i: nat, env: Seq<Value>)
    requires
        i < env.len(),
    ensures
        pushes(fuel, seq![Term::Lam(b)], env, Value { body: b, env }),
        pushes(fuel, seq![Term::Var(i)], env, env[env.len() - 1 - i]),
{
    assert forall|m: Machine| #[trigger] exec_code(fuel, seq![Term::Lam(b)], env, m) == (
    Machine { stack: m.stack.push(Value { body: b, env }), log: m.log },
    None::<RuntimeError>,
    ) by {
        let m1 = Machine { stack: m.stack.push(Value { body: b, env }), log: m.log };
        assert(seq![Term::Lam(b)].subrange(1, 1) =~= Seq::<Term>::empty());
        assert(exec_code(fuel, seq![Term::Lam(b)].subrange(1, 1), env, m1) == (m1, None::<RuntimeError>));
    }
    assert forall|m: Machine| #[trigger] exec_code(fuel, seq![Term::Var(i)], env, m) == (
    Machine { stack: m.stack.push(env[env.len() - 1 - i]), log: m.log },
    None::<RuntimeError>,
    ) by {
        let m1 = Machine { stack: m.stack.push(env[env.len() - 1 - i]), log: m.log };
        assert(seq![Term::Var(i)].subrange(1, 1) =~= Seq::<Term>::empty());
        assert(exec_code(fuel, seq![Term::Var(i)].subrange(1, 1), env, m1) == (m1, None::<RuntimeError>));
    }
}

} // verus!
