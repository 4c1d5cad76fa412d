use vstd::prelude::*;

use crate::literal::{Literal, Number, Value};

verus! {

/// A scope as the map from names to values that its bindings denote.
pub open spec fn scope_view<N>(s: Seq<(String, Literal<N>)>) -> Map<Seq<char>, Value<N>>
    decreases s.len(),
{
    if s.len() == 0 {
        Map::empty()
    } else {
        scope_view(s.drop_last()).insert(s.last().0@, s.last().1@)
    }
}

pub open spec fn keys_unique<N>(s: Seq<(String, Literal<N>)>) -> bool {
    forall|i: int, j: int| 0 <= i < j < s.len() ==> s[i].0@ != s[j].0@
}

/// The value bound to `name` in the innermost scope that binds it.
pub open spec fn lookup<N>(env: Seq<Map<Seq<char>, Value<N>>>, name: Seq<char>) -> Option<Value<N>>
    decreases env.len(),
{
    if env.len() == 0 {
        None
    } else if env.last().contains_key(name) {
        Some(env.last()[name])
    } else {
        lookup(env.drop_last(), name)
    }
}

/// The scope chain after overwriting the innermost binding of `name` with `v`
/// (unchanged where no scope binds it).
pub open spec fn assigned<N>(env: Seq<Map<Seq<char>, Value<N>>>, name: Seq<char>, v: Value<N>) -> Seq<
    Map<Seq<char>, Value<N>>,
>
    decreases env.len(),
{
    if env.len() == 0 {
        env
    } else if env.last().contains_key(name) {
        env.drop_last().push(env.last().insert(name, v))
    } else {
        assigned(env.drop_last(), name, v).push(env.last())
    }
}

/// The scope chain after binding `name` to `v` in the innermost scope.
pub open spec fn declared<N>(env: Seq<Map<Seq<char>, Value<N>>>, name: Seq<char>, v: Value<N>) -> Seq<
    Map<Seq<char>, Value<N>>,
> {
    env.drop_last().push(env.last().insert(name, v))
}

proof fn lemma_scope_lookup<N>(s: Seq<(String, Literal<N>)>, j: int)
    requires
        keys_unique(s),
        0 <= j < s.len(),
    ensures
        scope_view(s).contains_key(s[j].0@),
        scope_view(s)[s[j].0@] == s[j].1@,
    decreases s.len(),
{
    if j < s.len() - 1 {
        lemma_scope_lookup(s.drop_last(), j);
    }
}

proof fn lemma_scope_absent<N>(s: Seq<(String, Literal<N>)>, k: Seq<char>)
    requires
        forall|j: int| 0 <= j < s.len() ==> s[j].0@ != k,
    ensures
        !scope_view(s).contains_key(k),
    decreases s.len(),
{
    if s.len() > 0 {
        lemma_scope_absent(s.drop_last(), k);
    }
}

proof fn lemma_scope_update<N>(s: Seq<(String, Literal<N>)>, j: int, e: (String, Literal<N>))
    requires
        keys_unique(s),
        0 <= j < s.len(),
        e.0@ == s[j].0@,
    ensures
        scope_view(s.update(j, e)) == scope_view(s).insert(e.0@, e.1@),
        keys_unique(s.update(j, e)),
    decreases s.len(),
{
    let t = s.update(j, e);
    if j == s.len() - 1 {
        assert(t.drop_last() =~= s.drop_last());
        lemma_scope_absent(s.drop_last(), e.0@);
        assert(scope_view(t) =~= scope_view(s).insert(e.0@, e.1@));
    } else {
        lemma_scope_update(s.drop_last(), j, e);
        assert(t.drop_last() =~= s.drop_last().update(j, e));
        assert(scope_view(t) =~= scope_view(s).insert(e.0@, e.1@));
    }
}

proof fn lemma_innermost<N>(env: Seq<Map<Seq<char>, Value<N>>>, name: Seq<char>, v: Value<N>, k: int)
    requires
        0 <= k < env.len(),
        env[k].contains_key(name),
        forall|m: int| k < m < env.len() ==> !(#[trigger] env[m]).contains_key(name),
    ensures
        lookup(env, name) == Some(env[k][name]),
        assigned(env, name, v) == env.update(k, env[k].insert(name, v)),
    decreases env.len(),
{
    if k < env.len() - 1 {
        assert(!env[env.len() - 1].contains_key(name));
        lemma_innermost(env.drop_last(), name, v, k);
        assert(env.drop_last().update(k, env[k].insert(name, v)).push(env.last()) =~= env.update(
            k,
            env[k].insert(name, v),
        ));
    } else {
        assert(env.drop_last().push(env.last().insert(name, v)) =~= env.update(
            k,
            env[k].insert(name, v),
        ));
    }
}

proof fn lemma_unbound<N>(env: Seq<Map<Seq<char>, Value<N>>>, name: Seq<char>, v: Value<N>)
    requires
        forall|m: int| 0 <= m < env.len() ==> !(#[trigger] env[m]).contains_key(name),
    ensures
        lookup(env, name) is None,
        assigned(env, name, v) == env,
    decreases env.len(),
{
    if env.len() > 0 {
        assert(!env[env.len() - 1].contains_key(name));
        lemma_unbound(env.drop_last(), name, v);
        assert(env.drop_last().push(env.last()) =~= env);
    }
}

/// The scope chain: the innermost scope is the last one.
pub struct Environment<N> {
    scopes: Vec<Vec<(String, Literal<N>)>>,
    steps: u64,
}

impl<N> View for Environment<N> {
    type V = Seq<Map<Seq<char>, Value<N>>>;

    closed spec fn view(&self) -> Seq<Map<Seq<char>, Value<N>>> {
        self.scopes@.map_values(|s: Vec<(String, Literal<N>)>| scope_view(s@))
    }
}

fn find_in<N>(scope: &Vec<(String, Literal<N>)>, key: &String) -> (r: Option<usize>)
    ensures
        match r {
            Some(j) => j < scope@.len() && scope@[j as int].0@ == key@,
            None => forall|j: int| 0 <= j < scope@.len() ==> scope@[j].0@ != key@,
        },
{
    let mut j: usize = 0;
    while j < scope.len()
        invariant
            j <= scope@.len(),
            forall|m: int| 0 <= m < j ==> scope@[m].0@ != key@,
        decreases scope@.len() - j,
    {
        if scope[j].0 == *key {
            return Some(j);
        }
        j += 1;
    }
    None
}

impl<N: Number> Environment<N> {
    /// Scopes are non-empty and bind each name at most once.
    pub closed spec fn wf(&self) -> bool {
        &&& self.scopes@.len() >= 1
        &&& forall|k: int| 0 <= k < self.scopes@.len() ==> keys_unique(#[trigger] self.scopes@[k]@)
    }

    /// How many more loop iterations the host allows.
    pub closed spec fn steps_left(&self) -> nat {
        self.steps as nat
    }

    /// One empty global scope, with no practical limit on loop iterations.
    pub fn new() -> (r: Environment<N>)
        ensures
            r.wf(),
            r@ == seq![Map::<Seq<char>, Value<N>>::empty()],
            r.steps_left() == u64::MAX,
    {
        Environment::with_step_limit(u64::MAX)
    }

    /// One empty global scope; at most `steps` loop iterations will run.
    pub fn with_step_limit(steps: u64) -> (r: Environment<N>)
        ensures
            r.wf(),
            r@ == seq![Map::<Seq<char>, Value<N>>::empty()],
            r.steps_left() == steps,
    {
        let mut scopes: Vec<Vec<(String, Literal<N>)>> = Vec::new();
        scopes.push(Vec::new());
        let r = Environment { scopes, steps };
        assert(r@ =~= seq![Map::<Seq<char>, Value<N>>::empty()]);
        r
    }

    pub fn steps(&self) -> (r: u64)
        ensures
            r == self.steps_left(),
    {
        self.steps
    }

    /// Uses up one loop iteration; false when none is left.
    pub fn take_step(&mut self) -> (r: bool)
        ensures
            final(self)@ == old(self)@,
            final(self).wf() == old(self).wf(),
            r == (old(self).steps_left() > 0),
            r ==> final(self).steps_left() == old(self).steps_left() - 1,
            !r ==> final(self).steps_left() == 0,
    {
        if self.steps == 0 {
            false
        } else {
            self.steps = self.steps - 1;
            true
        }
    }

    /// Opens an empty innermost scope.
    pub fn push_scope(&mut self)
        requires
            old(self).wf(),
        ensures
            final(self).wf(),
            final(self)@ == old(self)@.push(Map::empty()),
            final(self)@.len() > 1,
            final(self).steps_left() == old(self).steps_left(),
    {
        self.scopes.push(Vec::new());
        assert(self@ =~= old(self)@.push(Map::empty()));
    }

    /// Discards the innermost scope; the global scope stays.
    pub fn pop_scope(&mut self)
        requires
            old(self).wf(),
            old(self)@.len() > 1,
        ensures
            final(self).wf(),
            final(self)@ == old(self)@.drop_last(),
            final(self).steps_left() == old(self).steps_left(),
    {
        self.scopes.pop();
        assert(self@ =~= old(self)@.drop_last());
    }

    /// The number of scopes in the chain.
    pub fn scope(&self) -> (r: usize)
        ensures
            r == self@.len(),
    {
        self.scopes.len()
    }

    /// Binds `key` to `value` in the innermost scope, returning the value that
    /// it replaced there.
    pub fn insert(&mut self, key: String, value: Literal<N>) -> (r: Option<Literal<N>>)
        requires
            old(self).wf(),
        ensures
            final(self).wf(),
            final(self)@ == declared(old(self)@, key@, value@),
            final(self)@.len() == old(self)@.len(),
            final(self).steps_left() == old(self).steps_left(),
            match r {
                Some(v) => old(self)@.last().contains_key(key@) && v@ == old(self)@.last()[key@],
                None => !old(self)@.last().contains_key(key@),
            },
    {
        let ghost kv = key@;
        let ghost vv = value@;
        let last = self.scopes.len() - 1;
        let mut scope = self.scopes.remove(last);
        let ghost s0 = scope@;
        let found = find_in(&scope, &key);
        let r = match found {
            Some(j) => {
                proof {
                    lemma_scope_lookup(s0, j as int);
                }
                let old_entry = scope.remove(j);
                scope.insert(j, (key, value));
                proof {
                    assert(scope@ =~= s0.update(j as int, scope@[j as int]));
                    lemma_scope_update(s0, j as int, scope@[j as int]);
                }
                Some(old_entry.1)
            },
            None => {
                proof {
                    lemma_scope_absent(s0, kv);
                }
                scope.push((key, value));
                assert(scope@.drop_last() =~= s0);
                None
            },
        };
        self.scopes.push(scope);
        assert(self@ =~= declared(old(self)@, kv, vv));
        r
    }

    /// The value of `key` in the innermost scope that binds it.
    pub fn get(&self, key: &String) -> (r: Option<Literal<N>>)
        requires
            self.wf(),
        ensures
            match r {
                Some(v) => lookup(self@, key@) == Some(v@),
                None => lookup(self@, key@) is None,
            },
    {
        let mut k = self.scopes.len();
        assert(self@.take(k as int) =~= self@);
        while k > 0
            invariant
                self.wf(),
                k <= self.scopes@.len(),
                lookup(self@, key@) == lookup(self@.take(k as int), key@),
            decreases k,
        {
            let scope = &self.scopes[k - 1];
            assert(self@.take(k as int).last() == scope_view(scope@));
            assert(self@.take(k as int).drop_last() =~= self@.take(k - 1));
            match find_in(scope, key) {
                Some(j) => {
                    proof {
                        lemma_scope_lookup(scope@, j as int);
                    }
                    return Some(scope[j].1.duplicate());
                },
                None => {
                    proof {
                        lemma_scope_absent(scope@, key@);
                    }
                },
            }
            k -= 1;
        }
        None
    }

    /// Overwrites the innermost binding of `key`; false, with nothing changed,
    /// where no scope binds it.
    pub fn assign(&mut self, key: &String, value: Literal<N>) -> (r: bool)
        requires
            old(self).wf(),
        ensures
            final(self).wf(),
            r == (lookup(old(self)@, key@) is Some),
            final(self)@ == assigned(old(self)@, key@, value@),
            !r ==> final(self)@ == old(self)@,
            final(self)@.len() == old(self)@.len(),
            final(self).steps_left() == old(self).steps_left(),
    {
        let ghost e0 = self@;
        let mut k = self.scopes.len();
        while k > 0
            invariant
                self.wf(),
                self@ == e0,
                e0 == old(self)@,
                self.steps == old(self).steps,
                k <= self.scopes@.len(),
                forall|m: int| k <= m < e0.len() ==> !(#[trigger] e0[m]).contains_key(key@),
            decreases k,
        {
            let found = find_in(&self.scopes[k - 1], key);
            match found {
                Some(j) => {
                    let ghost vv = value@;
                    let mut scope = self.scopes.remove(k - 1);
                    let ghost s0 = scope@;
                    assert(e0[k - 1] == scope_view(s0));
                    proof {
                        lemma_scope_lookup(s0, j as int);
                        lemma_innermost(e0, key@, vv, k - 1);
                    }
                    let name = key.clone();
                    scope.remove(j);
                    scope.insert(j, (name, value));
                    proof {
                        assert(scope@ =~= s0.update(j as int, scope@[j as int]));
                        lemma_scope_update(s0, j as int, scope@[j as int]);
                    }
                    self.scopes.insert(k - 1, scope);
                    assert(self@ =~= e0.update(k - 1, e0[k - 1].insert(key@, vv)));
                    return true;
                },
                None => {
                    proof {
                        lemma_scope_absent(self.scopes@[k - 1]@, key@);
                    }
                },
            }
            k -= 1;
        }
        proof {
            lemma_unbound(e0, key@, value@);
        }
        false
    }
}

} // verus!
