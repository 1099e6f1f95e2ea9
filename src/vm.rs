use vstd::prelude::*;

verus! {

broadcast use vstd::std_specs::vec::group_vec_axioms;

/// One instruction of a compiled program.
#[derive(Debug, PartialEq)]
pub enum Instruction {
    /// A de-Bruijn index: 0 names the innermost open binder.
    Var(usize),
    /// A one-parameter function whose body is compiled under one more binder.
    Lam(Vec<Instruction>),
    /// Pops an argument and a function and applies the function.
    App,
    /// Pops a value and records how it reads as a Church-encoded datum.
    Peek(PeekAs),
}

/// How a `Peek` instruction reads the value it pops.
#[derive(Debug, Clone, Copy, PartialEq, Eq, Structural)]
pub enum PeekAs {
    Number,
    Bool,
    List,
}

/// The lower-case form of a string, as `str::to_lowercase` gives it.
pub uninterp spec fn lower_of(s: Seq<char>) -> Seq<char>;

/// Relies on `str::to_lowercase`: the result depends on the characters alone.
#[verifier::external_body]
fn lowercase(s: &str) -> (r: String)
    ensures
        r@ == lower_of(s@),
{
    s.to_lowercase()
}

/// The reading that a lower-case peek name selects; unknown names read as numbers.
pub open spec fn peek_kind_of(folded: Seq<char>) -> PeekAs {
    if folded == "peek_list"@ {
        PeekAs::List
    } else if folded == "peek_bool"@ {
        PeekAs::Bool
    } else {
        PeekAs::Number
    }
}

impl PeekAs {
    /// The reading selected by an already lower-cased name.
    pub fn from_folded(folded: &str) -> (r: PeekAs)
        ensures
            r == peek_kind_of(folded@),
    {
        let owned = folded.to_owned();
        if owned.eq(&"peek_list".to_owned()) {
            PeekAs::List
        } else if owned.eq(&"peek_bool".to_owned()) {
            PeekAs::Bool
        } else {
            PeekAs::Number
        }
    }

    /// The reading selected by a name, in any letter case.
    pub fn from_name(name: &str) -> (r: PeekAs)
        ensures
            r == peek_kind_of(lower_of(name@)),
    {
        let folded = lowercase(name);
        PeekAs::from_folded(folded.as_str())
    }
}

impl<'a> From<&'a str> for PeekAs {
    fn from(name: &'a str) -> (r: PeekAs) {
        PeekAs::from_name(name)
    }
}

impl<'a> vstd::std_specs::convert::FromSpecImpl<&'a str> for PeekAs {
    open spec fn obeys_from_spec() -> bool {
        true
    }

    open spec fn from_spec(name: &'a str) -> PeekAs {
        peek_kind_of(lower_of(name@))
    }
}

/// The mathematical form of an instruction.
pub enum Term {
    Var(nat),
    Lam(Seq<Term>),
    App,
    Peek(PeekAs),
}

pub open spec fn term_of(i: Instruction) -> Term
    decreases i,
{
    match i {
        Instruction::Var(k) => Term::Var(k as nat),
        Instruction::Lam(b) => Term::Lam(
            Seq::new(
                b.len() as nat,
                |k: int|
                    if 0 <= k < b.len() {
                        term_of(b[k])
                    } else {
                        Term::App
                    },
            ),
        ),
        Instruction::App => Term::App,
        Instruction::Peek(p) => Term::Peek(p),
    }
}

/// The terms of an instruction sequence, in order.
pub open spec fn terms_of(s: Seq<Instruction>) -> Seq<Term> {
    Seq::new(s.len(), |k: int| term_of(s[k]))
}

pub broadcast proof fn lemma_term_of_lam(b: Vec<Instruction>)
    ensures
        #[trigger] term_of(Instruction::Lam(b)) == Term::Lam(terms_of(b@)),
{
    let t = term_of(Instruction::Lam(b));
    assert(t is Lam);
    assert(t->Lam_0 =~= terms_of(b@));
}

impl Instruction {
    pub fn var(idx: usize) -> (r: Self)
        ensures
            r == Instruction::Var(idx),
    {
        Instruction::Var(idx)
    }

    pub fn lam(body: Vec<Instruction>) -> (r: Self)
        ensures
            r == Instruction::Lam(body),
            term_of(r) == Term::Lam(terms_of(body@)),
    {
        proof {
            lemma_term_of_lam(body);
        }
        Instruction::Lam(body)
    }

    pub fn app() -> (r: Self)
        ensures
            r == Instruction::App,
    {
        Instruction::App
    }

    /// A deep copy of this instruction.
    pub fn duplicate(&self) -> (r: Instruction)
        ensures
            term_of(r) == term_of(*self),
        decreases *self,
    {
        match self {
            Instruction::Var(k) => Instruction::Var(*k),
            Instruction::Lam(b) => {
                let c = copy_code(b);
                proof {
                    lemma_term_of_lam(*b);
                    lemma_term_of_lam(c);
                }
                Instruction::Lam(c)
            },
            Instruction::App => Instruction::App,
            Instruction::Peek(p) => Instruction::Peek(*p),
        }
    }
}

/// A deep copy of an instruction sequence.
pub fn copy_code(code: &Vec<Instruction>) -> (r: Vec<Instruction>)
    ensures
        terms_of(r@) == terms_of(code@),
    decreases *code,
{
    let mut out: Vec<Instruction> = Vec::new();
    let mut i: usize = 0;
    while i < code.len()
        invariant
            i <= code.len(),
            out@.len() == i,
            forall|k: int| 0 <= k < i ==> term_of(#[trigger] out@[k]) == term_of(code@[k]),
        decreases code.len() - i,
    {
        proof {
            assert(decreases_to!(*code => code@[i as int]));
        }
        let c = code[i].duplicate();
        out.push(c);
        i = i + 1;
    }
    assert(terms_of(out@) =~= terms_of(code@));
    out
}

/// A runtime value: a function body together with the values bound around it,
/// outermost first.
#[derive(Debug)]
pub struct Closure {
    pub body: Vec<Instruction>,
    pub env: Vec<Closure>,
}

/// The mathematical form of a closure.
pub struct Value {
    pub body: Seq<Term>,
    pub env: Seq<Value>,
}

pub open spec fn value_of(c: Closure) -> Value
    decreases c,
{
    Value {
        body: terms_of(c.body@),
        env: Seq::new(
            c.env.len() as nat,
            |k: int|
                if 0 <= k < c.env.len() {
                    value_of(c.env[k])
                } else {
                    Value { body: Seq::empty(), env: Seq::empty() }
                },
        ),
    }
}

/// The values of a sequence of closures, in order.
pub open spec fn values_of(s: Seq<Closure>) -> Seq<Value> {
    Seq::new(s.len(), |k: int| value_of(s[k]))
}

pub broadcast proof fn lemma_value_of(c: Closure)
    ensures
        #[trigger] value_of(c) == (Value { body: terms_of(c.body@), env: values_of(c.env@) }),
{
    assert(value_of(c).env =~= values_of(c.env@));
}

impl Closure {
    /// The opaque text form of any closure.
    pub fn render(&self) -> (r: String)
        ensures
            r@ == "<function>"@,
    {
        "<function>".to_owned()
    }

    /// A deep copy of this closure.
    pub fn duplicate(&self) -> (r: Closure)
        ensures
            value_of(r) == value_of(*self),
        decreases *self,
    {
        let body = copy_code(&self.body);
        let env = copy_env(&self.env);
        let r = Closure { body, env };
        proof {
            lemma_value_of(r);
            lemma_value_of(*self);
        }
        r
    }
}

/// A deep copy of a sequence of closures.
pub fn copy_env(env: &Vec<Closure>) -> (r: Vec<Closure>)
    ensures
        values_of(r@) == values_of(env@),
    decreases *env,
{
    let mut out: Vec<Closure> = Vec::new();
    let mut i: usize = 0;
    while i < env.len()
        invariant
            i <= env.len(),
            out@.len() == i,
            forall|k: int| 0 <= k < i ==> value_of(#[trigger] out@[k]) == value_of(env@[k]),
        decreases env.len() - i,
    {
        proof {
            assert(decreases_to!(*env => env@[i as int]));
        }
        let c = env[i].duplicate();
        out.push(c);
        i = i + 1;
    }
    assert(values_of(out@) =~= values_of(env@));
    out
}

/// The body of the one lambda that makes up `code`, if `code` is a single lambda.
fn sole_lambda(code: &Vec<Instruction>) -> (r: Option<&Vec<Instruction>>)
    ensures
        match r {
            Some(b) => terms_of(code@) == seq![Term::Lam(terms_of(b@))],
            None => !(terms_of(code@).len() == 1 && terms_of(code@)[0] is Lam),
        },
{
    if code.len() != 1 {
        return None;
    }
    match &code[0] {
        Instruction::Lam(b) => {
            proof {
                lemma_term_of_lam(*b);
            }
            assert(terms_of(code@) =~= seq![Term::Lam(terms_of(b@))]);
            Some(b)
        },
        _ => None,
    }
}

/// What one `Peek` instruction recorded.
#[derive(Debug, Clone, Copy, PartialEq, Eq)]
pub enum Observation {
    /// The decoded Church numeral, or `None` when the value is not one.
    Number(Option<usize>),
    /// The decoded Church boolean, or `None` when the value is not one.
    Bool(Option<bool>),
    /// A reading that is not supported.
    Unsupported,
}

/// The ways a run of the machine can fail.
#[derive(Debug, Clone, Copy, PartialEq, Eq)]
pub enum RuntimeError {
    /// An index at least as large as the environment.
    UnboundVariable(usize),
    /// `App` with fewer than two values on the stack.
    InsufficientOperands,
    /// `Peek` with an empty stack.
    MissingPeekTarget,
    /// No value left to return.
    EmptyResult,
    /// Applications nested deeper than the run's depth limit.
    DepthExceeded,
}

/// The body `Var(1)^n Var(0) App^n` of the inner binder of the Church numeral `n`.
pub open spec fn numeral_code(n: nat) -> Seq<Term> {
    Seq::new(n, |_k: int| Term::Var(1)) + seq![Term::Var(0)] + Seq::new(n, |_k: int| Term::App)
}

/// The number `n` such that `s` is `numeral_code(n)`, if there is one.
pub open spec fn numeral_index(s: Seq<Term>) -> Option<nat> {
    let n = ((s.len() - 1) / 2) as nat;
    if s.len() >= 1 && s == numeral_code(n) {
        Some(n)
    } else {
        None
    }
}

/// The number of `App` terms in `s`.
pub open spec fn count_apps(s: Seq<Term>) -> nat
    decreases s.len(),
{
    if s.len() == 0 {
        0
    } else {
        count_apps(s.drop_last()) + if s.last() is App {
            1nat
        } else {
            0nat
        }
    }
}

/// A value read as a Church numeral, by the shape of its stored body: a body
/// `Lam(Lam(Var(1)^n Var(0) App^n))` gives `n`; a body that is one lambda
/// whose own body is not a single lambda gives that body's number of
/// applications; anything else gives `None`.
pub open spec fn numeral_of(v: Value) -> Option<nat> {
    if v.body.len() == 1 && v.body[0] is Lam {
        let ob = v.body[0]->Lam_0;
        if ob.len() == 1 && ob[0] is Lam {
            numeral_index(ob[0]->Lam_0)
        } else {
            Some(count_apps(ob))
        }
    } else {
        None
    }
}

/// A value read as a Church boolean, by the shape of its stored body:
/// `Lam(Lam(Var(1)))` is true, `Lam(Lam(Var(0)))` is false.
pub open spec fn boolean_of(v: Value) -> Option<bool> {
    if v.body == seq![Term::Lam(seq![Term::Lam(seq![Term::Var(1)])])] {
        Some(true)
    } else if v.body == seq![Term::Lam(seq![Term::Lam(seq![Term::Var(0)])])] {
        Some(false)
    } else {
        None
    }
}

/// What a `Peek` of the given kind records for a value.
pub open spec fn observe(kind: PeekAs, v: Value) -> Observation {
    match kind {
        PeekAs::Number => Observation::Number(
            match numeral_of(v) {
                Some(n) => Some(n as usize),
                None => None,
            },
        ),
        PeekAs::Bool => Observation::Bool(boolean_of(v)),
        PeekAs::List => Observation::Unsupported,
    }
}

pub proof fn lemma_numeral_code(n: nat)
    ensures
        numeral_code(n).len() == 2 * n + 1,
        forall|k: int|
            0 <= k < 2 * n + 1 ==> #[trigger] numeral_code(n)[k] == if k < n {
                Term::Var(1)
            } else if k == n {
                Term::Var(0)
            } else {
                Term::App
            },
{
}

/// The state of the machine: its operand stack and the observations made so far.
pub struct Machine {
    pub stack: Seq<Value>,
    pub log: Seq<Observation>,
}

/// Runs `code` under `env` from machine state `m`, leaving the results on the
/// stack. `fuel` bounds how deeply applications may nest. Gives the final state
/// and the error that stopped the run, if any.
pub open spec fn exec_code(fuel: nat, code: Seq<Term>, env: Seq<Value>, m: Machine) -> (Machine, Option<RuntimeError>)
    decreases fuel, code.len(), 0nat,
{
    if code.len() == 0 {
        (m, None)
    } else {
        let rest = code.subrange(1, code.len() as int);
        match code[0] {
            Term::Var(i) => {
                if i >= env.len() {
                    (m, Some(RuntimeError::UnboundVariable(i as usize)))
                } else {
                    exec_code(fuel, rest, env, Machine { stack: m.stack.push(env[env.len() - 1 - i]), log: m.log })
                }
            },
            Term::Lam(b) => exec_code(fuel, rest, env, Machine { stack: m.stack.push(Value { body: b, env }), log: m.log }),
            Term::App => {
                if m.stack.len() < 2 {
                    (m, Some(RuntimeError::InsufficientOperands))
                } else if fuel == 0 {
                    (m, Some(RuntimeError::DepthExceeded))
                } else {
                    let n = m.stack.len();
                    let arg = m.stack[n - 1];
                    let func = m.stack[n - 2];
                    let m1 = Machine { stack: m.stack.subrange(0, n - 2), log: m.log };
                    let (m2, r) = eval_spec((fuel - 1) as nat, func.body, func.env.push(arg), m1);
                    match r {
                        Ok(v) => exec_code(fuel, rest, env, Machine { stack: m2.stack.push(v), log: m2.log }),
                        Err(e) => (m2, Some(e)),
                    }
                }
            },
            Term::Peek(kind) => {
                if m.stack.len() == 0 {
                    (m, Some(RuntimeError::MissingPeekTarget))
                } else {
                    let v = m.stack.last();
                    exec_code(fuel, rest, env, Machine { stack: m.stack.drop_last(), log: m.log.push(observe(kind, v)) })
                }
            },
        }
    }
}

/// Runs `code` under `env` and pops its result: the final state and either the
/// value on top of the stack or the error that stopped the run.
pub open spec fn eval_spec(fuel: nat, code: Seq<Term>, env: Seq<Value>, m: Machine) -> (Machine, Result<Value, RuntimeError>)
    decreases fuel, code.len(), 1nat,
{
    let (m1, err) = exec_code(fuel, code, env, m);
    match err {
        Some(e) => (m1, Err(e)),
        None => if m1.stack.len() == 0 {
            (m1, Err(RuntimeError::EmptyResult))
        } else {
            (Machine { stack: m1.stack.drop_last(), log: m1.log }, Ok(m1.stack.last()))
        },
    }
}

/// `r` is the executable form of the outcome `s`.
pub open spec fn outcome_is(r: Result<Closure, RuntimeError>, s: Result<Value, RuntimeError>) -> bool {
    match r {
        Ok(c) => s == Ok::<Value, RuntimeError>(value_of(c)),
        Err(e) => s == Err::<Value, RuntimeError>(e),
    }
}

/// How deeply applications may nest in a run started by `VM::run`.
pub const DEFAULT_DEPTH_LIMIT: u64 = u64::MAX;

/// A call-by-value closure machine with one operand stack shared by all
/// nested applications.
pub struct VM {
    stack: Vec<Closure>,
    observations: Vec<Observation>,
}

impl VM {
    pub closed spec fn model(&self) -> Machine {
        Machine { stack: values_of(self.stack@), log: self.observations@ }
    }

    pub fn new() -> (r: Self)
        ensures
            r.model() == (Machine { stack: Seq::empty(), log: Seq::empty() }),
    {
        let r = VM { stack: Vec::new(), observations: Vec::new() };
        assert(values_of(r.stack@) =~= Seq::<Value>::empty());
        r
    }

    /// The observations recorded by `Peek` instructions, oldest first.
    pub fn observations(&self) -> (r: &Vec<Observation>)
        ensures
            r@ == self.model().log,
    {
        &self.observations
    }

    /// The number of values on the operand stack.
    pub fn stack_len(&self) -> (r: usize)
        ensures
            r == self.model().stack.len(),
    {
        self.stack.len()
    }

    /// Counts the `App` instructions of a body.
    fn count_applications_env(&self, instructions: &[Instruction]) -> (r: usize)
        ensures
            r == count_apps(terms_of(instructions@)),
    {
        let mut count: usize = 0;
        let mut i: usize = 0;
        while i < instructions.len()
            invariant
                i <= instructions.len(),
                count <= i,
                count == count_apps(terms_of(instructions@.subrange(0, i as int))),
            decreases instructions.len() - i,
        {
            let ghost s = terms_of(instructions@.subrange(0, i as int + 1));
            assert(s.drop_last() =~= terms_of(instructions@.subrange(0, i as int)));
            if let Instruction::App = &instructions[i] {
                count = count + 1;
            }
            i = i + 1;
        }
        assert(instructions@.subrange(0, i as int) =~= instructions@);
        count
    }

    /// Reads an inner-binder body of the form `Var(1)^n Var(0) App^n` as `n`.
    fn count_applications(&self, instructions: &[Instruction]) -> (r: Option<usize>)
        ensures
            match numeral_index(terms_of(instructions@)) {
                Some(n) => r == Some(n as usize),
                None => r is None,
            },
    {
        let ghost s = terms_of(instructions@);
        let len = instructions.len();
        if len % 2 == 0 {
            return None;
        }
        let n: usize = (len - 1) / 2;
        proof {
            lemma_numeral_code(n as nat);
        }
        let mut i: usize = 0;
        while i < len
            invariant
                len == instructions.len(),
                s == terms_of(instructions@),
                len == 2 * n + 1,
                i <= len,
                numeral_code(n as nat).len() == 2 * n + 1,
                forall|k: int| 0 <= k < i ==> s[k] == #[trigger] numeral_code(n as nat)[k],
            decreases len - i,
        {
            let ok = match &instructions[i] {
                Instruction::Var(k) => if i < n {
                    *k == 1
                } else if i == n {
                    *k == 0
                } else {
                    false
                },
                Instruction::App => i > n,
                _ => false,
            };
            if !ok {
                assert(s[i as int] != numeral_code(n as nat)[i as int]);
                return None;
            }
            i = i + 1;
        }
        assert(s =~= numeral_code(n as nat));
        Some(n)
    }

    /// Reads a closure as a Church numeral.
    fn try_as_church_numeral(&self, closure: &Closure) -> (r: Option<usize>)
        ensures
            match numeral_of(value_of(*closure)) {
                Some(n) => r == Some(n as usize),
                None => r is None,
            },
    {
        proof {
            lemma_value_of(*closure);
        }
        match sole_lambda(&closure.body) {
            None => None,
            Some(outer_body) => match sole_lambda(outer_body) {
                Some(inner_body) => self.count_applications(inner_body.as_slice()),
                None => Some(self.count_applications_env(outer_body.as_slice())),
            },
        }
    }

    /// Reads a closure as a Church boolean.
    fn try_as_church_boolean(&self, closure: &Closure) -> (r: Option<bool>)
        ensures
            r == boolean_of(value_of(*closure)),
    {
        proof {
            lemma_value_of(*closure);
        }
        let ghost body = terms_of(closure.body@);
        let outer_body = match sole_lambda(&closure.body) {
            Some(b) => b,
            None => {
                return None;
            },
        };
        let inner_body = match sole_lambda(outer_body) {
            Some(b) => b,
            None => {
                assert(body[0]->Lam_0 == terms_of(outer_body@));
                return None;
            },
        };
        let ghost ob = terms_of(outer_body@);
        let ghost ib = terms_of(inner_body@);
        assert(body[0]->Lam_0 == ob);
        assert(ob[0]->Lam_0 == ib);
        if inner_body.len() != 1 {
            return None;
        }
        match &inner_body[0] {
            Instruction::Var(k) => {
                if *k == 1 {
                    assert(ib =~= seq![Term::Var(1)]);
                    assert(body =~= seq![Term::Lam(seq![Term::Lam(seq![Term::Var(1)])])]);
                    Some(true)
                } else if *k == 0 {
                    assert(ib =~= seq![Term::Var(0)]);
                    assert(body =~= seq![Term::Lam(seq![Term::Lam(seq![Term::Var(0)])])]);
                    Some(false)
                } else {
                    assert(ib[0] != Term::Var(1));
                    assert(ib[0] != Term::Var(0));
                    None
                }
            },
            _ => {
                assert(ib[0] !is Var);
                None
            },
        }
    }

    /// Runs `instructions` under `env`, then pops and returns the value on top
    /// of the operand stack. Applications may nest at most `depth_limit` deep.
    pub fn eval(&mut self, instructions: &[Instruction], env: &Vec<Closure>, depth_limit: u64) -> (r: Result<Closure, RuntimeError>)
        ensures
            ({
                let (m, res) = eval_spec(depth_limit as nat, terms_of(instructions@), values_of(env@), old(self).model());
                &&& final(self).model() == m
                &&& outcome_is(r, res)
            }),
        decreases depth_limit, 1nat,
    {
        let ghost code = terms_of(instructions@);
        let ghost envv = values_of(env@);
        let ghost m0 = self.model();
        let len = instructions.len();
        let mut i: usize = 0;
        assert(code.subrange(0, len as int) =~= code);
        while i < len
            invariant
                len == instructions.len(),
                code == terms_of(instructions@),
                envv == values_of(env@),
                m0 == old(self).model(),
                i <= len,
                exec_code(depth_limit as nat, code, envv, m0)
                    == exec_code(depth_limit as nat, code.subrange(i as int, len as int), envv, self.model()),
            decreases len - i,
        {
            let ghost rest = code.subrange(i as int, len as int);
            let ghost m = self.model();
            assert(rest.subrange(1, rest.len() as int) =~= code.subrange(i + 1, len as int));
            assert(rest.len() > 0);
            assert(rest[0] == term_of(instructions@[i as int]));
            assert(envv.len() == env@.len());
            match &instructions[i] {
                Instruction::Var(idx) => {
                    if *idx >= env.len() {
                        return Err(RuntimeError::UnboundVariable(*idx));
                    }
                    let c = env[env.len() - 1 - *idx].duplicate();
                    self.stack.push(c);
                    assert(values_of(self.stack@) =~= m.stack.push(envv[envv.len() - 1 - *idx]));
                },
                Instruction::Lam(body) => {
                    proof {
                        lemma_term_of_lam(*body);
                    }
                    let c = Closure { body: copy_code(body), env: copy_env(env) };
                    proof {
                        lemma_value_of(c);
                    }
                    self.stack.push(c);
                    assert(values_of(self.stack@) =~= m.stack.push(Value { body: terms_of(body@), env: envv }));
                },
                Instruction::App => {
                    if self.stack.len() < 2 {
                        return Err(RuntimeError::InsufficientOperands);
                    }
                    if depth_limit == 0 {
                        return Err(RuntimeError::DepthExceeded);
                    }
                    let ghost n = m.stack.len();
                    let arg = self.stack.pop().unwrap();
                    let func = self.stack.pop().unwrap();
                    assert(values_of(self.stack@) =~= m.stack.subrange(0, n - 2));
                    proof {
                        lemma_value_of(func);
                    }
                    let Closure { body, env: captured } = func;
                    let mut fenv = captured;
                    fenv.push(arg);
                    assert(values_of(fenv@) =~= values_of(captured@).push(value_of(arg)));
                    let res = self.eval(body.as_slice(), &fenv, depth_limit - 1);
                    match res {
                        Ok(v) => {
                            let ghost m2 = self.model();
                            self.stack.push(v);
                            assert(values_of(self.stack@) =~= m2.stack.push(value_of(v)));
                        },
                        Err(e) => {
                            return Err(e);
                        },
                    }
                },
                Instruction::Peek(kind) => {
                    if self.stack.len() == 0 {
                        return Err(RuntimeError::MissingPeekTarget);
                    }
                    let c = self.stack.pop().unwrap();
                    assert(values_of(self.stack@) =~= m.stack.drop_last());
                    let o = self.try_peek(&c, *kind);
                    self.observations.push(o);
                },
            }
            i = i + 1;
        }
        assert(code.subrange(len as int, len as int) =~= Seq::<Term>::empty());
        if self.stack.len() == 0 {
            return Err(RuntimeError::EmptyResult);
        }
        let ghost m1 = self.model();
        let top = self.stack.pop().unwrap();
        assert(values_of(self.stack@) =~= m1.stack.drop_last());
        Ok(top)
    }

    /// Runs a whole program under the empty environment, with applications
    /// nested at most `DEFAULT_DEPTH_LIMIT` deep.
    pub fn run(&mut self, program: &[Instruction]) -> (r: Result<Closure, RuntimeError>)
        ensures
            ({
                let (m, res) = eval_spec(DEFAULT_DEPTH_LIMIT as nat, terms_of(program@), Seq::empty(), old(self).model());
                &&& final(self).model() == m
                &&& outcome_is(r, res)
            }),
    {
        let env: Vec<Closure> = Vec::new();
        assert(values_of(env@) =~= Seq::<Value>::empty());
        self.eval(program, &env, DEFAULT_DEPTH_LIMIT)
    }

    /// What a `Peek` of the given kind records for a closure.
    fn try_peek(&self, closure: &Closure, peek_as: PeekAs) -> (r: Observation)
        ensures
            r == observe(peek_as, value_of(*closure)),
    {
        match peek_as {
            PeekAs::Number => Observation::Number(self.try_as_church_numeral(closure)),
            PeekAs::Bool => Observation::Bool(self.try_as_church_boolean(closure)),
            PeekAs::List => Observation::Unsupported,
        }
    }
}

} // verus!
