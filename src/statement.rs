use vstd::prelude::*;

use crate::environment::{declared, Environment};
use crate::expression::{
    derives, error_view, value_outcome, well_formed, Derivation, Expr, Outcome, RuntimeError,
    Scopes,
};
use crate::literal::{is_truthy, renders, Number, Value};
use vstd::utf8::encode_utf8;

verus! {

/// A statement tree; each node owns its children.
#[derive(Debug)]
pub enum Stmt<N> {
    Block(Vec<Stmt<N>>),
    Expression(Expr<N>, u64),
    If { condition: Expr<N>, then_stmt: Box<Stmt<N>>, else_stmt: Option<Box<Stmt<N>>>, line: u64 },
    Print(Expr<N>, u64),
    Var(String, Expr<N>, u64),
    While(Expr<N>, Box<Stmt<N>>, u64),
}

/// Every expression in the statement is one the grammar derives.
pub open spec fn stmt_well_formed<N>(s: Stmt<N>) -> bool
    decreases s,
{
    match s {
        Stmt::Block(v) => all_well_formed(v@, v@.len() as int),
        Stmt::Expression(e, _) => well_formed(e),
        Stmt::If { condition, then_stmt, else_stmt, .. } => well_formed(condition) && stmt_well_formed(
            *then_stmt,
        ) && match else_stmt {
            Some(b) => stmt_well_formed(*b),
            None => true,
        },
        Stmt::Print(e, _) => well_formed(e),
        Stmt::Var(_, e, _) => well_formed(e),
        Stmt::While(c, b, _) => well_formed(c) && stmt_well_formed(*b),
    }
}

/// The first `n` statements of `v` are well formed.
pub open spec fn all_well_formed<N>(v: Seq<Stmt<N>>, n: int) -> bool
    decreases v, n,
{
    if 0 < n <= v.len() {
        all_well_formed(v, n - 1) && stmt_well_formed(v[n - 1])
    } else {
        true
    }
}

pub proof fn lemma_all_well_formed<N>(v: Seq<Stmt<N>>, n: int)
    requires
        0 <= n <= v.len(),
        forall|i: int| 0 <= i < n ==> #[trigger] stmt_well_formed(v[i]),
    ensures
        all_well_formed(v, n),
    decreases n,
{
    if n > 0 {
        lemma_all_well_formed(v, n - 1);
        assert(stmt_well_formed(v[n - 1]));
    }
}

/// What a run acts on: the scope chain, the output written so far, and the
/// loop iterations still allowed.
pub struct State<N> {
    pub env: Scopes<N>,
    pub out: Seq<u8>,
    pub steps: nat,
}

pub open spec fn with_env<N>(st: State<N>, env: Scopes<N>) -> State<N> {
    State { env, ..st }
}

pub open spec fn unit_outcome<N>(r: Outcome<Value<N>>) -> Outcome<()> {
    match r {
        Ok(_) => Ok(()),
        Err(e) => Err(e),
    }
}

pub open spec fn step_limit_message() -> Seq<char> {
    "Step limit reached."@
}

/// The intermediate results of a run: for each expression evaluated, its
/// record, result and scope chain after it; for each statement run, its
/// record; for a loop, one level per iteration.
pub enum Trace<N> {
    Leaf,
    Eval(Derivation<N>, Outcome<Value<N>>, Scopes<N>, Seq<char>),
    Branch(Derivation<N>, Outcome<Value<N>>, Scopes<N>, Box<Trace<N>>),
    Nest(Box<Trace<N>>, Outcome<()>, State<N>),
    Then(Box<Trace<N>>, Outcome<()>, State<N>, Box<Trace<N>>),
    Iterate(Derivation<N>, Outcome<Value<N>>, Scopes<N>, Box<Trace<N>>, Outcome<()>, State<N>, Box<Trace<N>>),
}

/// `t` records a run of `s` from `st` that ends with `r` in `st2`.
pub open spec fn executes<N>(t: Trace<N>, s: Stmt<N>, st: State<N>, r: Outcome<()>, st2: State<N>) -> bool
    decreases st.steps, s,
{
    match s {
        Stmt::Expression(e, line) => match t {
            Trace::Eval(d, rv, env1, _) => derives(d, e, st.env, line, rv, env1) && r
                == unit_outcome(rv) && st2 == with_env(st, env1),
            _ => false,
        },
        Stmt::Print(e, line) => match t {
            Trace::Eval(d, rv, env1, text) => derives(d, e, st.env, line, rv, env1) && match rv {
                Err(err) => r == Outcome::<()>::Err(err) && st2 == with_env(st, env1),
                Ok(v) => renders(v, text) && r == Outcome::<()>::Ok(()) && st2 == State {
                    env: env1,
                    out: st.out + encode_utf8(text) + seq![10u8],
                    steps: st.steps,
                },
            },
            _ => false,
        },
        Stmt::Var(name, e, line) => match t {
            Trace::Eval(d, rv, env1, _) => derives(d, e, st.env, line, rv, env1) && match rv {
                Err(err) => r == Outcome::<()>::Err(err) && st2 == with_env(st, env1),
                Ok(v) => r == Outcome::<()>::Ok(()) && st2 == with_env(st, declared(env1, name@, v)),
            },
            _ => false,
        },
        Stmt::Block(v) => match t {
            Trace::Nest(inner, r1, st1) => runs(
                *inner,
                v@,
                v@.len() as int,
                with_env(st, st.env.push(Map::empty())),
                r1,
                st1,
            ) && r == r1 && st2 == with_env(st1, st1.env.drop_last()),
            _ => false,
        },
        Stmt::If { condition, then_stmt, else_stmt, line } => match t {
            Trace::Branch(d, cv, env1, tb) => derives(d, condition, st.env, line, cv, env1) && match cv {
                Err(err) => r == Outcome::<()>::Err(err) && st2 == with_env(st, env1),
                Ok(c) => if is_truthy(c) {
                    executes(*tb, *then_stmt, with_env(st, env1), r, st2)
                } else {
                    match else_stmt {
                        Some(b) => executes(*tb, *b, with_env(st, env1), r, st2),
                        None => r == Outcome::<()>::Ok(()) && st2 == with_env(st, env1),
                    }
                },
            },
            _ => false,
        },
        Stmt::While(c, b, line) => match t {
            Trace::Iterate(d, cv, env1, tb, rb, stb, rest) => derives(d, c, st.env, line, cv, env1)
                && match cv {
                Err(err) => r == Outcome::<()>::Err(err) && st2 == with_env(st, env1),
                Ok(v) => if !is_truthy(v) {
                    r == Outcome::<()>::Ok(()) && st2 == with_env(st, env1)
                } else if st.steps == 0 {
                    r == Outcome::<()>::Err((step_limit_message(), line as int)) && st2 == with_env(
                        st,
                        env1,
                    )
                } else {
                    executes(
                        *tb,
                        *b,
                        State { env: env1, out: st.out, steps: (st.steps - 1) as nat },
                        rb,
                        stb,
                    ) && match rb {
                        Err(err) => r == Outcome::<()>::Err(err) && st2 == stb,
                        Ok(_) => stb.steps < st.steps && executes(
                            *rest,
                            Stmt::While(c, b, line),
                            stb,
                            r,
                            st2,
                        ),
                    }
                },
            },
            _ => false,
        },
    }
}

/// `t` records a run of the first `n` statements of `v` from `st`, in order,
/// stopping at the first error.
pub open spec fn runs<N>(t: Trace<N>, v: Seq<Stmt<N>>, n: int, st: State<N>, r: Outcome<()>, st2: State<
    N,
>) -> bool
    decreases st.steps, v, n,
{
    if n <= 0 || n > v.len() {
        r == Outcome::<()>::Ok(()) && st2 == st
    } else {
        match t {
            Trace::Then(first, r1, st1, last) => runs(*first, v, n - 1, st, r1, st1) && match r1 {
                Err(err) => r == Outcome::<()>::Err(err) && st2 == st1,
                Ok(_) => st1.steps <= st.steps && executes(*last, v[n - 1], st1, r, st2),
            },
            _ => false,
        }
    }
}

/// Running `s` from `st` may end with `r` in `st2`.
pub open spec fn runs_to<N>(s: Stmt<N>, st: State<N>, r: Outcome<()>, st2: State<N>) -> bool {
    exists|t: Trace<N>| #[trigger] executes(t, s, st, r, st2)
}

pub open spec fn state_of<N: Number>(env: Environment<N>, out: Seq<u8>) -> State<N> {
    State { env: env@, out, steps: env.steps_left() }
}

pub open spec fn run_outcome(r: Result<(), RuntimeError>) -> Outcome<()> {
    match r {
        Ok(_) => Ok(()),
        Err(e) => Err(error_view(e)),
    }
}

/// One loop iteration: the condition's record, result and scope chain after
/// it, and the body's record, result and state after it.
pub type Iteration<N> = (Derivation<N>, Outcome<Value<N>>, Scopes<N>, Trace<N>, Outcome<()>, State<N>);

/// The record of a loop whose first iterations are `iters` and whose
/// remaining run is recorded by `t`.
pub open spec fn wrap<N>(iters: Seq<Iteration<N>>, t: Trace<N>) -> Trace<N>
    decreases iters.len(),
{
    if iters.len() == 0 {
        t
    } else {
        let x = iters.last();
        wrap(
            iters.drop_last(),
            Trace::Iterate(x.0, x.1, x.2, Box::new(x.3), x.4, x.5, Box::new(t)),
        )
    }
}

proof fn lemma_runs_error<N>(
    t: Trace<N>,
    v: Seq<Stmt<N>>,
    i: int,
    n: int,
    st: State<N>,
    err: (Seq<char>, int),
    st1: State<N>,
) -> (t2: Trace<N>)
    requires
        runs(t, v, i, st, Outcome::<()>::Err(err), st1),
        0 <= i <= n <= v.len(),
    ensures
        runs(t2, v, n, st, Outcome::<()>::Err(err), st1),
    decreases n - i,
{
    if i == n {
        t
    } else {
        let t1 = lemma_runs_error(t, v, i, n - 1, st, err, st1);
        Trace::Then(Box::new(t1), Outcome::<()>::Err(err), st1, Box::new(Trace::Leaf))
    }
}

/// Appends the UTF-8 bytes of `text` and a newline.
fn write_line(output: &mut Vec<u8>, text: &String)
    ensures
        final(output)@ == old(output)@ + encode_utf8(text@) + seq![10u8],
{
    let bytes = text.as_str().as_bytes();
    let mut i: usize = 0;
    while i < bytes.len()
        invariant
            i <= bytes@.len(),
            bytes@ == encode_utf8(text@),
            output@ == old(output)@ + bytes@.take(i as int),
        decreases bytes@.len() - i,
    {
        output.push(bytes[i]);
        assert(bytes@.take(i + 1) =~= bytes@.take(i as int).push(bytes@[i as int]));
        i += 1;
    }
    assert(bytes@.take(bytes@.len() as int) =~= bytes@);
    output.push(10u8);
}

impl<N: Number> Stmt<N> {
    /// Runs the statement, with a record of the run.
    fn run(&self, env: &mut Environment<N>, output: &mut Vec<u8>) -> (res: (
        Result<(), RuntimeError>,
        Ghost<Trace<N>>,
    ))
        requires
            old(env).wf(),
        ensures
            final(env).wf(),
            final(env)@.len() == old(env)@.len(),
            final(env).steps_left() <= old(env).steps_left(),
            executes(
                res.1@,
                *self,
                state_of(*old(env), old(output)@),
                run_outcome(res.0),
                state_of(*final(env), final(output)@),
            ),
        decreases self,
    {
        let ghost st0 = state_of(*env, output@);
        match self {
            Stmt::Expression(e, line) => {
                let (rv, Ghost(d)) = e.derive_at(env, *line);
                let ghost t = Trace::Eval(d, value_outcome(rv), env@, Seq::empty());
                let r = match rv {
                    Ok(_) => Ok(()),
                    Err(err) => Err(err),
                };
                (r, Ghost(t))
            },
            Stmt::Print(e, line) => {
                let (rv, Ghost(d)) = e.derive_at(env, *line);
                let ghost env1 = env@;
                match rv {
                    Err(err) => (Err(err), Ghost(Trace::Eval(d, value_outcome(rv), env1, Seq::empty()))),
                    Ok(v) => {
                        let text = v.to_string();
                        write_line(output, &text);
                        (Ok(()), Ghost(Trace::Eval(d, Outcome::<Value<N>>::Ok(v@), env1, text@)))
                    },
                }
            },
            Stmt::Var(name, e, line) => {
                let (rv, Ghost(d)) = e.derive_at(env, *line);
                let ghost env1 = env@;
                match rv {
                    Err(err) => (Err(err), Ghost(Trace::Eval(d, value_outcome(rv), env1, Seq::empty()))),
                    Ok(v) => {
                        let ghost vv = v@;
                        env.insert(name.clone(), v);
                        (Ok(()), Ghost(Trace::Eval(d, Outcome::<Value<N>>::Ok(vv), env1, Seq::empty())))
                    },
                }
            },
            Stmt::Block(v) => {
                env.push_scope();
                let ghost st_in = state_of(*env, output@);
                let ghost mut t: Trace<N> = Trace::Leaf;
                let mut i: usize = 0;
                while i < v.len()
                    invariant
                        env.wf(),
                        env@.len() == old(env)@.len() + 1,
                        env@.len() > 1,
                        *self == Stmt::Block(*v),
                        st0 == state_of(*old(env), old(output)@),
                        st_in == with_env(st0, st0.env.push(Map::empty())),
                        state_of(*env, output@).steps <= st_in.steps,
                        i <= v@.len(),
                        runs(t, v@, i as int, st_in, Outcome::<()>::Ok(()), state_of(*env, output@)),
                    decreases v@.len() - i,
                {
                    let ghost cur = state_of(*env, output@);
                    proof {
                        let sv = *self;
                        assert(decreases_to!(sv => sv->Block_0));
                        assert(decreases_to!(sv->Block_0 => sv->Block_0@));
                        assert(decreases_to!(sv->Block_0@ => v@[i as int]));
                    }
                    let (r, Ghost(ts)) = v[i].run(env, output);
                    proof {
                        t = Trace::Then(Box::new(t), Outcome::<()>::Ok(()), cur, Box::new(ts));
                    }
                    match r {
                        Err(err) => {
                            let ghost st1 = state_of(*env, output@);
                            let ghost ev = error_view(err);
                            let ghost full = lemma_runs_error(t, v@, i + 1, v@.len() as int, st_in, ev, st1);
                            env.pop_scope();
                            return (Err(err), Ghost(Trace::Nest(Box::new(full), Outcome::<()>::Err(ev), st1)));
                        },
                        Ok(_) => {},
                    }
                    i += 1;
                }
                let ghost st1 = state_of(*env, output@);
                env.pop_scope();
                (Ok(()), Ghost(Trace::Nest(Box::new(t), Outcome::<()>::Ok(()), st1)))
            },
            Stmt::If { condition, then_stmt, else_stmt, line } => {
                let (cv, Ghost(d)) = condition.derive_at(env, *line);
                let ghost env1 = env@;
                let ghost cvv = value_outcome(cv);
                match cv {
                    Err(err) => (Err(err), Ghost(Trace::Branch(d, cvv, env1, Box::new(Trace::Leaf)))),
                    Ok(c) => {
                        if c.truthy() {
                            let (r, Ghost(tb)) = then_stmt.run(env, output);
                            (r, Ghost(Trace::Branch(d, cvv, env1, Box::new(tb))))
                        } else {
                            match else_stmt {
                                Some(b) => {
                                    let (r, Ghost(tb)) = b.run(env, output);
                                    (r, Ghost(Trace::Branch(d, cvv, env1, Box::new(tb))))
                                },
                                None => (Ok(()), Ghost(Trace::Branch(d, cvv, env1, Box::new(Trace::Leaf)))),
                            }
                        }
                    },
                }
            },
            Stmt::While(c, b, line) => self.run_loop(env, output),
        }
    }

    /// Runs a `while` statement: one loop iteration per step allowed.
    fn run_loop(&self, env: &mut Environment<N>, output: &mut Vec<u8>) -> (res: (
        Result<(), RuntimeError>,
        Ghost<Trace<N>>,
    ))
        requires
            old(env).wf(),
            self is While,
        ensures
            final(env).wf(),
            final(env)@.len() == old(env)@.len(),
            final(env).steps_left() <= old(env).steps_left(),
            executes(
                res.1@,
                *self,
                state_of(*old(env), old(output)@),
                run_outcome(res.0),
                state_of(*final(env), final(output)@),
            ),
        decreases self, 0int,
    {
        let ghost st0 = state_of(*env, output@);
        let ghost w = *self;
        let (c, b, line) = match self {
            Stmt::While(c, b, line) => (c, b, *line),
            _ => {
                assert(false);
                return (Ok(()), Ghost(Trace::Leaf));
            },
        };
        let ghost mut iters: Seq<Iteration<N>> = Seq::empty();
        loop
            invariant
                env.wf(),
                env@.len() == old(env)@.len(),
                env.steps_left() <= old(env).steps_left(),
                w == *self,
                w == Stmt::While(*c, *b, line),
                st0 == state_of(*old(env), old(output)@),
                forall|t: Trace<N>, r: Outcome<()>, st2: State<N>|
                    #[trigger] executes(t, w, state_of(*env, output@), r, st2) ==> executes(
                        wrap(iters, t),
                        w,
                        st0,
                        r,
                        st2,
                    ),
            decreases env.steps_left(),
        {
            let ghost cur = state_of(*env, output@);
            let (cv, Ghost(d)) = c.derive_at(env, line);
            let ghost env1 = env@;
            let ghost cvv = value_outcome(cv);
            let leaf = Ghost(Trace::<N>::Leaf);
            match cv {
                Err(err) => {
                    let ghost t = Trace::Iterate(d, cvv, env1, Box::new(leaf@), Outcome::<()>::Ok(()), cur, Box::new(leaf@));
                    assert(executes(t, w, cur, run_outcome(Err(err)), state_of(*env, output@)));
                    return (Err(err), Ghost(wrap(iters, t)));
                },
                Ok(v) => {
                    if !v.truthy() {
                        let ghost t = Trace::Iterate(d, cvv, env1, Box::new(leaf@), Outcome::<()>::Ok(()), cur, Box::new(leaf@));
                        assert(executes(t, w, cur, Outcome::<()>::Ok(()), state_of(*env, output@)));
                        return (Ok(()), Ghost(wrap(iters, t)));
                    }
                    if !env.take_step() {
                        let err = RuntimeError { message: String::from_str("Step limit reached."), line };
                        let ghost t = Trace::Iterate(d, cvv, env1, Box::new(leaf@), Outcome::<()>::Ok(()), cur, Box::new(leaf@));
                        assert(executes(t, w, cur, run_outcome(Err(err)), state_of(*env, output@)));
                        return (Err(err), Ghost(wrap(iters, t)));
                    }
                    let (rb, Ghost(tb)) = b.run(env, output);
                    let ghost stb = state_of(*env, output@);
                    let ghost rbv = run_outcome(rb);
                    match rb {
                        Err(err) => {
                            let ghost t = Trace::Iterate(d, cvv, env1, Box::new(tb), rbv, stb, Box::new(leaf@));
                            assert(executes(t, w, cur, rbv, stb));
                            return (Err(err), Ghost(wrap(iters, t)));
                        },
                        Ok(_) => {
                            let ghost x: Iteration<N> = (d, cvv, env1, tb, rbv, stb);
                            proof {
                                assert forall|t: Trace<N>, r: Outcome<()>, st2: State<N>|
                                    #[trigger] executes(t, w, stb, r, st2) implies executes(
                                        wrap(iters.push(x), t),
                                        w,
                                        st0,
                                        r,
                                        st2,
                                    ) by {
                                    let t1 = Trace::Iterate(x.0, x.1, x.2, Box::new(x.3), x.4, x.5, Box::new(t));
                                    assert(executes(t1, w, cur, r, st2));
                                    assert(iters.push(x).drop_last() =~= iters);
                                    assert(wrap(iters.push(x), t) == wrap(iters, t1));
                                }
                                iters = iters.push(x);
                            }
                        },
                    }
                },
            }
        }
    }

    /// Runs the statement against `env`, appending what it prints to
    /// `output`, one line per `print`. A runtime error stops the run; what was
    /// printed before it stays.
    pub fn execute(&self, env: &mut Environment<N>, output: &mut Vec<u8>) -> (r: Result<(), RuntimeError>)
        requires
            old(env).wf(),
        ensures
            final(env).wf(),
            final(env)@.len() == old(env)@.len(),
            runs_to(
                *self,
                state_of(*old(env), old(output)@),
                run_outcome(r),
                state_of(*final(env), final(output)@),
            ),
    {
        let (r, Ghost(t)) = self.run(env, output);
        r
    }
}

/// Runs a program's statements in order against `env`; the first runtime
/// error stops the run.
pub fn execute_program<N: Number>(program: &Vec<Stmt<N>>, env: &mut Environment<N>, output: &mut Vec<
    u8,
>) -> (r: Result<(), RuntimeError>)
    requires
        old(env).wf(),
    ensures
        final(env).wf(),
        final(env)@.len() == old(env)@.len(),
        exists|t: Trace<N>|
            #[trigger] runs(
                t,
                program@,
                program@.len() as int,
                state_of(*old(env), old(output)@),
                run_outcome(r),
                state_of(*final(env), final(output)@),
            ),
{
    let ghost st0 = state_of(*env, output@);
    let ghost mut t: Trace<N> = Trace::Leaf;
    let mut i: usize = 0;
    while i < program.len()
        invariant
            env.wf(),
            env@.len() == old(env)@.len(),
            st0 == state_of(*old(env), old(output)@),
            state_of(*env, output@).steps <= st0.steps,
            i <= program@.len(),
            runs(t, program@, i as int, st0, Outcome::<()>::Ok(()), state_of(*env, output@)),
        decreases program@.len() - i,
    {
        let ghost cur = state_of(*env, output@);
        let (r, Ghost(ts)) = program[i].run(env, output);
        proof {
            t = Trace::Then(Box::new(t), Outcome::<()>::Ok(()), cur, Box::new(ts));
        }
        match r {
            Err(err) => {
                let ghost st1 = state_of(*env, output@);
                let ghost full = lemma_runs_error(
                    t,
                    program@,
                    i + 1,
                    program@.len() as int,
                    st0,
                    error_view(err),
                    st1,
                );
                assert(runs(full, program@, program@.len() as int, st0, run_outcome(Err(err)), st1));
                return Err(err);
            },
            Ok(_) => {},
        }
        i += 1;
    }
    Ok(())
}

} // verus!
