use vstd::prelude::*;
use crate::syntax::{Expr, Program, Statement};
use crate::vm::{
    Closure, Instruction, RuntimeError, Term, Value, VM, copy_code, eval_spec, lemma_term_of_lam,
    outcome_is, term_of, terms_of, value_of, DEFAULT_DEPTH_LIMIT, Machine,
};

verus! {

broadcast use vstd::std_specs::vec::group_vec_axioms;

/// The ways compilation can fail.
#[derive(Debug, PartialEq, Eq)]
pub enum CompileError {
    /// A name that is neither a let-binding nor an enclosing parameter.
    UnboundVariable(String),
    /// A builtin outside the fixed vocabulary.
    UnknownBuiltin(String),
}

/// Let-bindings as (name, compiled code) pairs; a later pair overrides an earlier one.
pub type Bindings = Seq<(Seq<char>, Seq<Term>)>;

/// The code bound to `name`, taking the latest binding.
pub open spec fn lookup(binds: Bindings, name: Seq<char>) -> Option<Seq<Term>>
    decreases binds.len(),
{
    if binds.len() == 0 {
        None
    } else if binds.last().0 == name {
        Some(binds.last().1)
    } else {
        lookup(binds.drop_last(), name)
    }
}

/// The de-Bruijn index of `name` among the open parameters `vars`
/// (innermost last): its distance from the end of `vars`.
pub open spec fn var_index(vars: Seq<Seq<char>>, name: Seq<char>) -> Option<nat>
    decreases vars.len(),
{
    if vars.len() == 0 {
        None
    } else if vars.last() == name {
        Some(0)
    } else {
        match var_index(vars.drop_last(), name) {
            Some(i) => Some(i + 1),
            None => None,
        }
    }
}

proof fn lemma_var_index_bound(vars: Seq<Seq<char>>, name: Seq<char>)
    ensures
        var_index(vars, name) matches Some(i) ==> i < vars.len(),
    decreases vars.len(),
{
    if vars.len() > 0 {
        lemma_var_index_bound(vars.drop_last(), name);
    }
}

pub open spec fn shifted(r: Option<nat>, d: nat) -> Option<nat> {
    match r {
        Some(i) => Some(i + d),
        None => None,
    }
}

/// `λx.x`
pub open spec fn identity_code() -> Seq<Term> {
    seq![Term::Lam(seq![Term::Var(0)])]
}

/// `λn.λf.λx. f (n f x)`
pub open spec fn succ_code() -> Seq<Term> {
    seq![Term::Lam(seq![Term::Lam(seq![Term::Lam(seq![
        Term::Var(1), Term::Var(2), Term::Var(1), Term::Var(0), Term::App, Term::App, Term::App,
    ])])])]
}

/// `λm.λn.λf.λx. m f (n f x)`
pub open spec fn add_code() -> Seq<Term> {
    seq![Term::Lam(seq![Term::Lam(seq![Term::Lam(seq![Term::Lam(seq![
        Term::Var(3), Term::Var(1), Term::Var(2), Term::Var(1), Term::Var(0), Term::App, Term::App, Term::App,
    ])])])])]
}

/// `λx.λy.x`
pub open spec fn true_code() -> Seq<Term> {
    seq![Term::Lam(seq![Term::Lam(seq![Term::Var(1)])])]
}

/// `λx.λy.y`
pub open spec fn false_code() -> Seq<Term> {
    seq![Term::Lam(seq![Term::Lam(seq![Term::Var(0)])])]
}

/// The expansion of a builtin name, if it is one.
pub open spec fn builtin_code(name: Seq<char>) -> Option<Seq<Term>> {
    if name == "SUCC"@ {
        Some(succ_code())
    } else if name == "ADD"@ {
        Some(add_code())
    } else if name == "TRUE"@ {
        Some(true_code())
    } else if name == "FALSE"@ {
        Some(false_code())
    } else if name == "AS_NAT"@ || name == "AS_BOOL"@ || name == "AS_LIST"@ {
        Some(identity_code())
    } else {
        None
    }
}

/// The code of `e` compiled under let-bindings `binds` and open parameters `vars`.
pub open spec fn compile_spec(binds: Bindings, vars: Seq<Seq<char>>, e: Expr) -> Result<Seq<Term>, CompileError>
    decreases e,
{
    match e {
        Expr::Var(name) => match lookup(binds, name@) {
            Some(code) => Ok(code),
            None => match var_index(vars, name@) {
                Some(i) => Ok(seq![Term::Var(i)]),
                None => Err(CompileError::UnboundVariable(name)),
            },
        },
        Expr::Lambda { param, body } => match compile_spec(binds, vars.push(param@), *body) {
            Ok(b) => Ok(seq![Term::Lam(b)]),
            Err(x) => Err(x),
        },
        Expr::App { func, arg } => match compile_spec(binds, vars, *func) {
            Ok(f) => match compile_spec(binds, vars, *arg) {
                Ok(a) => Ok(f + a + seq![Term::App]),
                Err(x) => Err(x),
            },
            Err(x) => Err(x),
        },
        Expr::Builtin(name) => match builtin_code(name@) {
            Some(code) => Ok(code),
            None => Err(CompileError::UnknownBuiltin(name)),
        },
    }
}

/// Binds the statements in order; stops at the first one whose value fails
/// to compile. Gives the bindings made and that failure, if any.
pub open spec fn bind_all(binds: Bindings, vars: Seq<Seq<char>>, stmts: Seq<Statement>) -> (Bindings, Option<CompileError>)
    decreases stmts.len(),
{
    if stmts.len() == 0 {
        (binds, None)
    } else {
        let (b, err) = bind_all(binds, vars, stmts.drop_last());
        match err {
            Some(x) => (b, Some(x)),
            None => match stmts.last() {
                Statement::LetBinding { name, value } => match compile_spec(b, vars, value) {
                    Ok(c) => (b.push((name@, c)), None),
                    Err(x) => (b, Some(x)),
                },
            },
        }
    }
}

/// Compiles a program: its bindings in order, then its main expression, or
/// `λx.x` when it has none.
pub open spec fn compile_program(binds: Bindings, vars: Seq<Seq<char>>, p: Program) -> (Bindings, Result<Seq<Term>, CompileError>) {
    let (b, err) = bind_all(binds, vars, p.statements@);
    match err {
        Some(x) => (b, Err(x)),
        None => match p.main_expr {
            Some(e) => (b, compile_spec(b, vars, e)),
            None => (b, Ok(identity_code())),
        },
    }
}

/// Once binding fails, the statements after the failing one change nothing.
proof fn lemma_bind_all_stops(binds: Bindings, vars: Seq<Seq<char>>, stmts: Seq<Statement>, i: int)
    requires
        0 <= i < stmts.len(),
        bind_all(binds, vars, stmts.subrange(0, i + 1)).1 is Some,
    ensures
        bind_all(binds, vars, stmts) == bind_all(binds, vars, stmts.subrange(0, i + 1)),
    decreases stmts.len() - i,
{
    if i + 1 < stmts.len() {
        let next = stmts.subrange(0, i + 2);
        assert(next.drop_last() =~= stmts.subrange(0, i + 1));
        assert(bind_all(binds, vars, next) == bind_all(binds, vars, stmts.subrange(0, i + 1)));
        lemma_bind_all_stops(binds, vars, stmts, i + 1);
        assert(stmts.subrange(0, i + 2) =~= next);
    } else {
        assert(stmts.subrange(0, i + 1) =~= stmts);
    }
}

/// `r` is the executable form of the compilation result `s`.
pub open spec fn code_is(r: Result<Vec<Instruction>, CompileError>, s: Result<Seq<Term>, CompileError>) -> bool {
    match r {
        Ok(v) => s == Ok::<Seq<Term>, CompileError>(terms_of(v@)),
        Err(x) => s == Err::<Seq<Term>, CompileError>(x),
    }
}

/// Whether `name` spells `lit`.
fn is_named(name: &String, lit: &str) -> (r: bool)
    ensures
        r == (name@ == lit@),
{
    let owned = lit.to_owned();
    name.eq(&owned)
}

fn lam(body: Vec<Instruction>) -> (r: Instruction)
    ensures
        term_of(r) == Term::Lam(terms_of(body@)),
{
    Instruction::lam(body)
}

/// Compiles named expressions into de-Bruijn-indexed instruction sequences.
pub struct Compiler {
    var_stack: Vec<String>,
    bindings: Vec<(String, Vec<Instruction>)>,
}

impl Compiler {
    /// The names of the open lambda parameters, innermost last.
    pub closed spec fn vars(&self) -> Seq<Seq<char>> {
        Seq::new(self.var_stack@.len(), |k: int| self.var_stack@[k]@)
    }

    /// The let-bindings made so far.
    pub closed spec fn binds(&self) -> Bindings {
        Seq::new(self.bindings@.len(), |k: int| (self.bindings@[k].0@, terms_of(self.bindings@[k].1@)))
    }

    pub fn new() -> (r: Self)
        ensures
            r.vars() == Seq::<Seq<char>>::empty(),
            r.binds() == Seq::<(Seq<char>, Seq<Term>)>::empty(),
    {
        let r = Compiler { var_stack: Vec::new(), bindings: Vec::new() };
        assert(r.vars() =~= Seq::<Seq<char>>::empty());
        assert(r.binds() =~= Seq::<(Seq<char>, Seq<Term>)>::empty());
        r
    }

    /// Compiles one expression under the current bindings and parameters.
    pub fn compile_expr(&mut self, expr: &Expr) -> (r: Result<Vec<Instruction>, CompileError>)
        ensures
            final(self).vars() == old(self).vars(),
            final(self).binds() == old(self).binds(),
            code_is(r, compile_spec(old(self).binds(), old(self).vars(), *expr)),
        decreases *expr,
    {
        match expr {
            Expr::Var(name) => {
                if let Some(code) = self.lookup_binding(name) {
                    return Ok(code);
                }
                proof {
                    lemma_var_index_bound(self.vars(), name@);
                }
                assert(self.vars().len() == self.var_stack@.len());
                let depth = self.var_stack.len();
                assert(depth == self.vars().len());
                match self.index_of(name) {
                    Some(i) => {
                        assert(var_index(self.vars(), name@) == Some(i as nat));
                        assert(lookup(self.binds(), name@) is None);
                        let v = vec![Instruction::Var(i)];
                        assert(terms_of(v@) =~= seq![Term::Var(i as nat)]);
                        assert(compile_spec(self.binds(), self.vars(), *expr) == Ok::<Seq<Term>, CompileError>(terms_of(v@)));
                        Ok(v)
                    },
                    None => Err(CompileError::UnboundVariable(name.clone())),
                }
            },
            Expr::Lambda { param, body } => {
                let ghost vars0 = self.vars();
                self.var_stack.push(param.clone());
                assert(self.vars() =~= vars0.push(param@));
                let compiled = self.compile_expr(body);
                let ghost midv = self.vars();
                self.var_stack.pop();
                assert(self.vars() =~= midv.drop_last());
                assert(vars0.push(param@).drop_last() =~= vars0);
                match compiled {
                    Ok(b) => {
                        let l = lam(b);
                        let v = vec![l];
                        assert(terms_of(v@) =~= seq![term_of(l)]);
                        Ok(v)
                    },
                    Err(x) => Err(x),
                }
            },
            Expr::App { func, arg } => {
                let mut f = match self.compile_expr(func) {
                    Ok(f) => f,
                    Err(x) => {
                        return Err(x);
                    },
                };
                let mut a = match self.compile_expr(arg) {
                    Ok(a) => a,
                    Err(x) => {
                        return Err(x);
                    },
                };
                let ghost tf = terms_of(f@);
                let ghost ta = terms_of(a@);
                f.append(&mut a);
                f.push(Instruction::App);
                assert(terms_of(f@) =~= tf + ta + seq![Term::App]);
                Ok(f)
            },
            Expr::Builtin(name) => self.compile_builtin(name),
        }
    }

    /// Compiles a let-binding's value and binds it to its name.
    fn compile_statement(&mut self, statement: &Statement) -> (r: Result<(), CompileError>)
        ensures
            final(self).vars() == old(self).vars(),
            match *statement {
                Statement::LetBinding { name, value } => match compile_spec(old(self).binds(), old(self).vars(), value) {
                    Ok(c) => r is Ok && final(self).binds() == old(self).binds().push((name@, c)),
                    Err(x) => r == Err::<(), CompileError>(x) && final(self).binds() == old(self).binds(),
                },
            },
    {
        match statement {
            Statement::LetBinding { name, value } => {
                let code = self.compile_expr(value)?;
                let ghost b0 = self.binds();
                self.bindings.push((name.clone(), code));
                assert(self.binds() =~= b0.push((name@, terms_of(code@))));
                Ok(())
            },
        }
    }

    /// Compiles a program: binds its statements in order, then compiles its
    /// main expression, or gives `λx.x` when there is none.
    pub fn compile(&mut self, program: Program) -> (r: Result<Vec<Instruction>, CompileError>)
        ensures
            ({
                let (b, res) = compile_program(old(self).binds(), old(self).vars(), program);
                &&& final(self).vars() == old(self).vars()
                &&& final(self).binds() == b
                &&& code_is(r, res)
            }),
    {
        let ghost b0 = self.binds();
        let ghost vars = self.vars();
        let mut i: usize = 0;
        assert(program.statements@.subrange(0, 0) =~= Seq::<Statement>::empty());
        while i < program.statements.len()
            invariant
                i <= program.statements.len(),
                self.vars() == vars,
                vars == old(self).vars(),
                b0 == old(self).binds(),
                bind_all(b0, vars, program.statements@.subrange(0, i as int)) == (self.binds(), None::<CompileError>),
            decreases program.statements.len() - i,
        {
            let ghost sub = program.statements@.subrange(0, i as int + 1);
            assert(sub.drop_last() =~= program.statements@.subrange(0, i as int));
            let step = self.compile_statement(&program.statements[i]);
            if let Err(x) = step {
                assert(sub.last() == program.statements@[i as int]);
                assert(bind_all(b0, vars, sub) == (self.binds(), Some(x)));
                proof {
                    lemma_bind_all_stops(b0, vars, program.statements@, i as int);
                }
                return Err(x);
            }
            i = i + 1;
        }
        assert(program.statements@.subrange(0, i as int) =~= program.statements@);
        match &program.main_expr {
            Some(e) => self.compile_expr(e),
            None => Ok(identity()),
        }
    }

    /// The code bound to `name`, or `None` when it is not a let-binding.
    fn lookup_binding(&self, name: &String) -> (r: Option<Vec<Instruction>>)
        ensures
            match lookup(self.binds(), name@) {
                Some(c) => r is Some && terms_of(r->Some_0@) == c,
                None => r is None,
            },
    {
        let ghost b = self.binds();
        let mut k: usize = self.bindings.len();
        assert(b.subrange(0, k as int) =~= b);
        while k > 0
            invariant
                k <= self.bindings.len(),
                b == self.binds(),
                lookup(b, name@) == lookup(b.subrange(0, k as int), name@),
            decreases k,
        {
            let ghost sub = b.subrange(0, k as int);
            assert(sub.drop_last() =~= b.subrange(0, k - 1));
            if is_named(&self.bindings[k - 1].0, name.as_str()) {
                return Some(copy_code(&self.bindings[k - 1].1));
            }
            k = k - 1;
        }
        None
    }

    /// The de-Bruijn index of `name` among the open parameters.
    fn index_of(&self, name: &String) -> (r: Option<usize>)
        ensures
            match var_index(self.vars(), name@) {
                Some(i) => r == Some(i as usize),
                None => r is None,
            },
    {
        let ghost v = self.vars();
        let len = self.var_stack.len();
        let mut k: usize = len;
        assert(v.subrange(0, k as int) =~= v);
        while k > 0
            invariant
                len == self.var_stack.len(),
                k <= len,
                v == self.vars(),
                var_index(v, name@) == shifted(var_index(v.subrange(0, k as int), name@), (len - k) as nat),
            decreases k,
        {
            let ghost sub = v.subrange(0, k as int);
            assert(sub.drop_last() =~= v.subrange(0, k - 1));
            if self.var_stack[k - 1].eq(name) {
                return Some(len - k);
            }
            k = k - 1;
        }
        None
    }

    /// Expands a builtin name into its Church-encoded code.
    fn compile_builtin(&self, name: &String) -> (r: Result<Vec<Instruction>, CompileError>)
        ensures
            code_is(
                r,
                match builtin_code(name@) {
                    Some(c) => Ok(c),
                    None => Err(CompileError::UnknownBuiltin(*name)),
                },
            ),
    {
        if is_named(name, "SUCC") {
            let body = vec![
                Instruction::Var(1), Instruction::Var(2), Instruction::Var(1), Instruction::Var(0),
                Instruction::App, Instruction::App, Instruction::App,
            ];
            assert(terms_of(body@) =~= seq![
                Term::Var(1), Term::Var(2), Term::Var(1), Term::Var(0), Term::App, Term::App, Term::App,
            ]);
            let l3 = lam(body);
            let v3 = vec![l3];
            assert(terms_of(v3@) =~= seq![term_of(l3)]);
            let l2 = lam(v3);
            let v2 = vec![l2];
            assert(terms_of(v2@) =~= seq![term_of(l2)]);
            let l1 = lam(v2);
            let v1 = vec![l1];
            assert(terms_of(v1@) =~= seq![term_of(l1)]);
            Ok(v1)
        } else if is_named(name, "ADD") {
            let body = vec![
                Instruction::Var(3), Instruction::Var(1), Instruction::Var(2), Instruction::Var(1),
                Instruction::Var(0), Instruction::App, Instruction::App, Instruction::App,
            ];
            assert(terms_of(body@) =~= seq![
                Term::Var(3), Term::Var(1), Term::Var(2), Term::Var(1), Term::Var(0), Term::App, Term::App, Term::App,
            ]);
            let l4 = lam(body);
            let v4 = vec![l4];
            assert(terms_of(v4@) =~= seq![term_of(l4)]);
            let l3 = lam(v4);
            let v3 = vec![l3];
            assert(terms_of(v3@) =~= seq![term_of(l3)]);
            let l2 = lam(v3);
            let v2 = vec![l2];
            assert(terms_of(v2@) =~= seq![term_of(l2)]);
            let l1 = lam(v2);
            let v1 = vec![l1];
            assert(terms_of(v1@) =~= seq![term_of(l1)]);
            Ok(v1)
        } else if is_named(name, "TRUE") || is_named(name, "FALSE") {
            let k: usize = if is_named(name, "TRUE") { 1 } else { 0 };
            let body = vec![Instruction::Var(k)];
            assert(terms_of(body@) =~= seq![Term::Var(k as nat)]);
            let l2 = lam(body);
            let v2 = vec![l2];
            assert(terms_of(v2@) =~= seq![term_of(l2)]);
            let l1 = lam(v2);
            let v1 = vec![l1];
            assert(terms_of(v1@) =~= seq![term_of(l1)]);
            Ok(v1)
        } else if is_named(name, "AS_NAT") || is_named(name, "AS_BOOL") || is_named(name, "AS_LIST") {
            Ok(identity())
        } else {
            Err(CompileError::UnknownBuiltin(name.clone()))
        }
    }
}

/// `λx.x`
fn identity() -> (r: Vec<Instruction>)
    ensures
        terms_of(r@) == identity_code(),
{
    let body = vec![Instruction::Var(0)];
    assert(terms_of(body@) =~= seq![Term::Var(0)]);
    let l = lam(body);
    let v = vec![l];
    assert(terms_of(v@) =~= seq![term_of(l)]);
    v
}

/// A failure of compilation or of the run that follows it.
#[derive(Debug, PartialEq, Eq)]
pub enum Error {
    Compile(CompileError),
    Runtime(RuntimeError),
}

/// Compiles a program with a fresh compiler and runs it on a fresh machine.
pub fn compile_and_run(program: Program) -> (r: Result<Closure, Error>)
    ensures
        match compile_program(Seq::empty(), Seq::empty(), program).1 {
            Err(x) => r == Err::<Closure, Error>(Error::Compile(x)),
            Ok(code) => match eval_spec(
                DEFAULT_DEPTH_LIMIT as nat,
                code,
                Seq::empty(),
                Machine { stack: Seq::empty(), log: Seq::empty() },
            ).1 {
                Ok(v) => r matches Ok(c) && value_of(c) == v,
                Err(e) => r == Err::<Closure, Error>(Error::Runtime(e)),
            },
        },
{
    let mut compiler = Compiler::new();
    let code = match compiler.compile(program) {
        Ok(code) => code,
        Err(x) => {
            return Err(Error::Compile(x));
        },
    };
    let mut vm = VM::new();
    match vm.run(code.as_slice()) {
        Ok(c) => Ok(c),
        Err(e) => Err(Error::Runtime(e)),
    }
}

} // verus!
