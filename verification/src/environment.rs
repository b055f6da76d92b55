use vstd::prelude::*;

verus! {

/// One shell variable: its name, value and whether it is exported to
/// child processes.
#[derive(Clone, Debug, PartialEq)]
pub struct Var {
    pub name: Vec<u8>,
    pub value: Vec<u8>,
    pub is_exported: bool,
}

/// Mathematical image of a `Var`.
pub struct VarView {
    pub name: Seq<u8>,
    pub value: Seq<u8>,
    pub is_exported: bool,
}

impl View for Var {
    type V = VarView;

    open spec fn view(&self) -> VarView {
        VarView { name: self.name@, value: self.value@, is_exported: self.is_exported }
    }
}

/// First index in `env` whose entry is named `name`.
pub open spec fn env_find(env: Seq<VarView>, name: Seq<u8>) -> Option<int>
    decreases env.len(),
{
    if env.len() == 0 {
        None
    } else if env[0].name == name {
        Some(0 as int)
    } else {
        match env_find(env.skip(1), name) {
            Some(i) => Some(i + 1),
            None => None,
        }
    }
}

/// The entry named `name`, if any.
pub open spec fn env_lookup(env: Seq<VarView>, name: Seq<u8>) -> Option<VarView> {
    match env_find(env, name) {
        Some(i) => Some(env[i]),
        None => None,
    }
}

pub proof fn lemma_env_find(env: Seq<VarView>, name: Seq<u8>)
    ensures
        match env_find(env, name) {
            Some(i) => 0 <= i < env.len() && env[i].name == name && forall|j: int|
                0 <= j < i ==> env[j].name != name,
            None => forall|j: int| 0 <= j < env.len() ==> env[j].name != name,
        },
    decreases env.len(),
{
    if env.len() > 0 && env[0].name != name {
        lemma_env_find(env.skip(1), name);
        let t = env.skip(1);
        match env_find(t, name) {
            Some(i) => {
                assert(env[i + 1] == t[i]);
                assert forall|j: int| 0 <= j < i + 1 implies env[j].name != name by {
                    if j > 0 {
                        assert(env[j] == t[j - 1]);
                    }
                }
            },
            None => {
                assert forall|j: int| 0 <= j < env.len() implies env[j].name != name by {
                    if j > 0 {
                        assert(env[j] == t[j - 1]);
                    }
                }
            },
        }
    }
}

pub proof fn lemma_env_find_at(env: Seq<VarView>, name: Seq<u8>, i: int)
    requires
        0 <= i < env.len(),
        env[i].name == name,
        forall|j: int| 0 <= j < i ==> env[j].name != name,
    ensures
        env_find(env, name) == Some(i),
    decreases env.len(),
{
    if i > 0 {
        lemma_env_find_at(env.skip(1), name, i - 1);
    }
}

/// Effect of a plain assignment: the value changes, the exported flag is
/// kept for an existing entry and false for a fresh one.
pub open spec fn assign_model(env: Seq<VarView>, name: Seq<u8>, value: Seq<u8>) -> Seq<VarView> {
    match env_find(env, name) {
        Some(i) => env.update(i, VarView { name, value, is_exported: env[i].is_exported }),
        None => env.push(VarView { name, value, is_exported: false }),
    }
}

/// Effect of `export NAME=value`: the entry is replaced (or created) with
/// the exported flag set.
pub open spec fn export_value_model(env: Seq<VarView>, name: Seq<u8>, value: Seq<u8>) -> Seq<
    VarView,
> {
    match env_find(env, name) {
        Some(i) => env.update(i, VarView { name, value, is_exported: true }),
        None => env.push(VarView { name, value, is_exported: true }),
    }
}

/// Effect of `export NAME`: an existing entry keeps its value and becomes
/// exported; a missing one is created with the empty value.
pub open spec fn mark_exported_model(env: Seq<VarView>, name: Seq<u8>) -> Seq<VarView> {
    match env_find(env, name) {
        Some(i) => env.update(i, VarView { name, value: env[i].value, is_exported: true }),
        None => env.push(VarView { name, value: Seq::empty(), is_exported: true }),
    }
}

/// The exported entries, in storage order, as (name, value) pairs.
pub open spec fn exported_pairs(env: Seq<VarView>) -> Seq<(Seq<u8>, Seq<u8>)>
    decreases env.len(),
{
    if env.len() == 0 {
        Seq::empty()
    } else {
        let init = exported_pairs(env.drop_last());
        if env.last().is_exported {
            init.push((env.last().name, env.last().value))
        } else {
            init
        }
    }
}

/// Entry names are pairwise distinct.
pub open spec fn env_wf(env: Seq<VarView>) -> bool {
    forall|i: int, j: int| 0 <= i < j < env.len() ==> env[i].name != env[j].name
}

/// The shell's variables, in insertion order, with unique names.
pub struct Environment {
    values: Vec<Var>,
}

impl View for Environment {
    type V = Seq<VarView>;

    closed spec fn view(&self) -> Seq<VarView> {
        self.values@.map_values(|v: Var| v@)
    }
}

impl Environment {
    pub open spec fn wf(&self) -> bool {
        env_wf(self@)
    }

    pub fn new() -> (r: Self)
        ensures
            r@ == Seq::<VarView>::empty(),
            r.wf(),
    {
        let r = Self { values: Vec::new() };
        proof {
            assert(r@ =~= Seq::<VarView>::empty());
        }
        r
    }

    fn find(&self, name: &[u8]) -> (r: Option<usize>)
        ensures
            match r {
                Some(i) => env_find(self@, name@) == Some(i as int),
                None => env_find(self@, name@) is None,
            },
    {
        let mut i: usize = 0;
        while i < self.values.len()
            invariant
                0 <= i <= self@.len(),
                self@.len() == self.values@.len(),
                forall|j: int| 0 <= j < i ==> self@[j].name != name@,
                forall|j: int| 0 <= j < self@.len() ==> self@[j] == self.values@[j]@,
            decreases self@.len() - i,
        {
            if compare_bytes(self.values[i].name.as_slice(), name) {
                proof {
                    lemma_env_find_at(self@, name@, i as int);
                }
                return Some(i);
            }
            i += 1;
        }
        proof {
            lemma_env_find(self@, name@);
        }
        None
    }

    /// The value of `name`, if set.
    pub fn get(&self, name: &[u8]) -> (r: Option<&Vec<u8>>)
        ensures
            match r {
                Some(v) => env_lookup(self@, name@) == Some(
                    VarView {
                        name: name@,
                        value: v@,
                        is_exported: env_lookup(self@, name@)->Some_0.is_exported,
                    },
                ),
                None => env_lookup(self@, name@) is None,
            },
    {
        match self.find(name) {
            Some(i) => {
                proof {
                    lemma_env_find(self@, name@);
                }
                Some(&self.values[i].value)
            },
            None => None,
        }
    }

    /// Plain assignment of an already-expanded value.
    pub fn set_value(&mut self, name: Vec<u8>, value: Vec<u8>)
        requires
            old(self).wf(),
        ensures
            final(self)@ == assign_model(old(self)@, name@, value@),
            final(self).wf(),
    {
        let ghost old_env = self@;
        proof {
            lemma_env_find(old_env, name@);
        }
        match self.find(name.as_slice()) {
            Some(i) => {
                let is_exported = self.values[i].is_exported;
                self.values.set(i, Var { name, value, is_exported });
                proof {
                    assert(self@ =~= assign_model(old_env, name@, value@));
                    lemma_wf_update(old_env, env_find(old_env, name@)->Some_0, self@);
                }
            },
            None => {
                self.values.push(Var { name, value, is_exported: false });
                proof {
                    assert(self@ =~= assign_model(old_env, name@, value@));
                    lemma_wf_push(old_env, self@);
                }
            },
        }
    }

    /// `export NAME=value` with an already-expanded value.
    pub fn set_exported_value(&mut self, name: Vec<u8>, value: Vec<u8>)
        requires
            old(self).wf(),
        ensures
            final(self)@ == export_value_model(old(self)@, name@, value@),
            final(self).wf(),
    {
        let ghost old_env = self@;
        proof {
            lemma_env_find(old_env, name@);
        }
        match self.find(name.as_slice()) {
            Some(i) => {
                self.values.set(i, Var { name, value, is_exported: true });
                proof {
                    assert(self@ =~= export_value_model(old_env, name@, value@));
                    lemma_wf_update(old_env, env_find(old_env, name@)->Some_0, self@);
                }
            },
            None => {
                self.values.push(Var { name, value, is_exported: true });
                proof {
                    assert(self@ =~= export_value_model(old_env, name@, value@));
                    lemma_wf_push(old_env, self@);
                }
            },
        }
    }

    /// `export NAME` without a value.
    pub fn mark_exported(&mut self, name: Vec<u8>)
        requires
            old(self).wf(),
        ensures
            final(self)@ == mark_exported_model(old(self)@, name@),
            final(self).wf(),
    {
        let ghost old_env = self@;
        proof {
            lemma_env_find(old_env, name@);
        }
        match self.find(name.as_slice()) {
            Some(i) => {
                let value = crate::word::copy_bytes(self.values[i].value.as_slice());
                self.values.set(i, Var { name, value, is_exported: true });
                proof {
                    assert(self@ =~= mark_exported_model(old_env, name@));
                    lemma_wf_update(old_env, env_find(old_env, name@)->Some_0, self@);
                }
            },
            None => {
                self.values.push(Var { name, value: Vec::new(), is_exported: true });
                proof {
                    assert(self@ =~= mark_exported_model(old_env, name@));
                    lemma_wf_push(old_env, self@);
                }
            },
        }
    }

    /// The exported (name, value) pairs, in storage order.
    pub fn iter_exported(&self) -> (r: Vec<(Vec<u8>, Vec<u8>)>)
        ensures
            r@.map_values(|p: (Vec<u8>, Vec<u8>)| (p.0@, p.1@)) == exported_pairs(self@),
    {
        let mut r: Vec<(Vec<u8>, Vec<u8>)> = Vec::new();
        let mut i: usize = 0;
        while i < self.values.len()
            invariant
                0 <= i <= self@.len(),
                self@.len() == self.values@.len(),
                forall|j: int| 0 <= j < self@.len() ==> self@[j] == self.values@[j]@,
                r@.map_values(|p: (Vec<u8>, Vec<u8>)| (p.0@, p.1@)) == exported_pairs(
                    self@.take(i as int),
                ),
            decreases self@.len() - i,
        {
            proof {
                assert(self@.take(i + 1).drop_last() =~= self@.take(i as int));
                assert(self@.take(i + 1).last() == self@[i as int]);
            }
            if self.values[i].is_exported {
                let name = crate::word::copy_bytes(self.values[i].name.as_slice());
                let value = crate::word::copy_bytes(self.values[i].value.as_slice());
                r.push((name, value));
            }
            proof {
                assert(r@.map_values(|p: (Vec<u8>, Vec<u8>)| (p.0@, p.1@)) =~= exported_pairs(
                    self@.take(i + 1),
                ));
            }
            i += 1;
        }
        proof {
            assert(self@.take(self@.len() as int) =~= self@);
        }
        r
    }
}

proof fn lemma_wf_update(env: Seq<VarView>, i: int, env2: Seq<VarView>)
    requires
        env_wf(env),
        0 <= i < env.len(),
        env2.len() == env.len(),
        env2[i].name == env[i].name,
        forall|j: int| 0 <= j < env.len() && j != i ==> env2[j] == env[j],
    ensures
        env_wf(env2),
{
}

proof fn lemma_wf_push(env: Seq<VarView>, env2: Seq<VarView>)
    requires
        env_wf(env),
        env2.len() == env.len() + 1,
        forall|j: int| 0 <= j < env.len() ==> env2[j] == env[j],
        forall|j: int| 0 <= j < env.len() ==> env[j].name != env2[env.len() as int].name,
    ensures
        env_wf(env2),
{
}

proof fn lemma_replace_at(env: Seq<VarView>, i: int, var: VarView, n: Seq<u8>)
    requires
        0 <= i < env.len(),
        env[i].name == var.name,
        env_find(env, var.name) == Some(i),
    ensures
        env_find(env.update(i, var), var.name) == Some(i),
        n != var.name ==> env_lookup(env.update(i, var), n) == env_lookup(env, n),
{
    let env2 = env.update(i, var);
    lemma_env_find(env, var.name);
    lemma_env_find_at(env2, var.name, i);
    if n != var.name {
        lemma_env_find(env, n);
        match env_find(env, n) {
            Some(k) => {
                lemma_env_find_at(env2, n, k);
            },
            None => {
                lemma_env_find(env2, n);
                if env_find(env2, n) is Some {
                    let k = env_find(env2, n)->Some_0;
                    assert(env2[k].name == n);
                    assert(env[k].name != n);
                    assert(k == i);
                }
            },
        }
    }
}

proof fn lemma_append_new(env: Seq<VarView>, var: VarView, n: Seq<u8>)
    requires
        env_find(env, var.name) is None,
    ensures
        env_lookup(env.push(var), var.name) == Some(var),
        n != var.name ==> env_lookup(env.push(var), n) == env_lookup(env, n),
{
    let env2 = env.push(var);
    lemma_env_find(env, var.name);
    lemma_env_find_at(env2, var.name, env.len() as int);
    if n != var.name {
        lemma_env_find(env, n);
        match env_find(env, n) {
            Some(k) => {
                lemma_env_find_at(env2, n, k);
            },
            None => {
                lemma_env_find(env2, n);
                if env_find(env2, n) is Some {
                    let k = env_find(env2, n)->Some_0;
                    assert(env2[k].name == n);
                }
            },
        }
    }
}

/// What a plain assignment does to lookups: the assigned name maps to the
/// new value with its exported flag kept (false when fresh); every other
/// name is untouched.
pub proof fn lemma_assign_model_lookup(env: Seq<VarView>, name: Seq<u8>, value: Seq<u8>, n: Seq<u8>)
    ensures
        env_lookup(assign_model(env, name, value), name) == Some(
            VarView {
                name,
                value,
                is_exported: match env_lookup(env, name) {
                    Some(v) => v.is_exported,
                    None => false,
                },
            },
        ),
        n != name ==> env_lookup(assign_model(env, name, value), n) == env_lookup(env, n),
{
    lemma_env_find(env, name);
    match env_find(env, name) {
        Some(i) => {
            lemma_replace_at(env, i, VarView { name, value, is_exported: env[i].is_exported }, n);
        },
        None => {
            lemma_append_new(env, VarView { name, value, is_exported: false }, n);
        },
    }
}

/// What `export NAME=value` does to lookups.
pub proof fn lemma_export_value_model_lookup(
    env: Seq<VarView>,
    name: Seq<u8>,
    value: Seq<u8>,
    n: Seq<u8>,
)
    ensures
        env_lookup(export_value_model(env, name, value), name) == Some(
            VarView { name, value, is_exported: true },
        ),
        n != name ==> env_lookup(export_value_model(env, name, value), n) == env_lookup(env, n),
{
    lemma_env_find(env, name);
    match env_find(env, name) {
        Some(i) => {
            lemma_replace_at(env, i, VarView { name, value, is_exported: true }, n);
        },
        None => {
            lemma_append_new(env, VarView { name, value, is_exported: true }, n);
        },
    }
}

/// What `export NAME` does to lookups.
pub proof fn lemma_mark_exported_model_lookup(env: Seq<VarView>, name: Seq<u8>, n: Seq<u8>)
    ensures
        env_lookup(mark_exported_model(env, name), name) == Some(
            VarView {
                name,
                value: match env_lookup(env, name) {
                    Some(v) => v.value,
                    None => Seq::empty(),
                },
                is_exported: true,
            },
        ),
        n != name ==> env_lookup(mark_exported_model(env, name), n) == env_lookup(env, n),
{
    lemma_env_find(env, name);
    match env_find(env, name) {
        Some(i) => {
            lemma_replace_at(env, i, VarView { name, value: env[i].value, is_exported: true }, n);
        },
        None => {
            lemma_append_new(env, VarView { name, value: Seq::empty(), is_exported: true }, n);
        },
    }
}

/// A name appears among the exported pairs exactly when some entry of that
/// name is exported.
proof fn lemma_exported_pairs_index(env: Seq<VarView>, name: Seq<u8>)
    ensures
        (exists|k: int|
            0 <= k < exported_pairs(env).len() && exported_pairs(env)[k].0 == name) <==> (exists|
            i: int,
        |
            0 <= i < env.len() && env[i].name == name && env[i].is_exported),
    decreases env.len(),
{
    if env.len() > 0 {
        lemma_exported_pairs_index(env.drop_last(), name);
        let init = exported_pairs(env.drop_last());
        let pairs = exported_pairs(env);
        if exists|i: int| 0 <= i < env.len() && env[i].name == name && env[i].is_exported {
            let i = choose|i: int|
                0 <= i < env.len() && env[i].name == name && env[i].is_exported;
            if i < env.len() - 1 {
                assert(env.drop_last()[i] == env[i]);
                let k = choose|k: int| 0 <= k < init.len() && init[k].0 == name;
                assert(pairs[k].0 == name);
            } else {
                assert(env.last() == env[i]);
                assert(pairs[pairs.len() - 1].0 == name);
            }
        }
        if exists|k: int| 0 <= k < pairs.len() && pairs[k].0 == name {
            let k = choose|k: int| 0 <= k < pairs.len() && pairs[k].0 == name;
            if env.last().is_exported && k == pairs.len() - 1 {
                assert(env[env.len() - 1].name == name && env[env.len() - 1].is_exported);
            } else {
                assert(init[k].0 == name);
                let i = choose|i: int|
                    0 <= i < env.drop_last().len() && env.drop_last()[i].name == name
                        && env.drop_last()[i].is_exported;
                assert(env[i] == env.drop_last()[i]);
            }
        }
    }
}

/// The three update operations keep names pairwise distinct.
pub proof fn lemma_models_preserve_wf(env: Seq<VarView>, name: Seq<u8>, value: Seq<u8>)
    requires
        env_wf(env),
    ensures
        env_wf(assign_model(env, name, value)),
        env_wf(export_value_model(env, name, value)),
        env_wf(mark_exported_model(env, name)),
{
    lemma_env_find(env, name);
    match env_find(env, name) {
        Some(i) => {
            lemma_wf_update(env, i, assign_model(env, name, value));
            lemma_wf_update(env, i, export_value_model(env, name, value));
            lemma_wf_update(env, i, mark_exported_model(env, name));
        },
        None => {
            lemma_wf_push(env, assign_model(env, name, value));
            lemma_wf_push(env, export_value_model(env, name, value));
            lemma_wf_push(env, mark_exported_model(env, name));
        },
    }
}

/// The environment after a sequence of export items: a valued item
/// replaces its entry exported, a bare one marks its name exported.
pub open spec fn export_ops_model(
    env: Seq<VarView>,
    ops: Seq<(Seq<u8>, Option<Seq<u8>>)>,
) -> Seq<VarView>
    decreases ops.len(),
{
    if ops.len() == 0 {
        env
    } else {
        let e1 = match ops[0].1 {
            Some(v) => export_value_model(env, ops[0].0, v),
            None => mark_exported_model(env, ops[0].0),
        };
        export_ops_model(e1, ops.skip(1))
    }
}

proof fn lemma_ops_keep_var(env: Seq<VarView>, x: Seq<u8>, var: VarView, ops: Seq<
    (Seq<u8>, Option<Seq<u8>>),
>)
    requires
        env_wf(env),
        var.name == x,
        env_lookup(env, x) == Some(var),
        forall|j: int| 0 <= j < ops.len() ==> (#[trigger] ops[j]).0 != x,
    ensures
        env_wf(export_ops_model(env, ops)),
        env_lookup(export_ops_model(env, ops), x) == Some(var),
    decreases ops.len(),
{
    if ops.len() > 0 {
        let n = ops[0].0;
        let e1 = match ops[0].1 {
            Some(v) => export_value_model(env, n, v),
            None => mark_exported_model(env, n),
        };
        match ops[0].1 {
            Some(v) => {
                lemma_models_preserve_wf(env, n, v);
                lemma_export_value_model_lookup(env, n, v, x);
            },
            None => {
                lemma_models_preserve_wf(env, n, Seq::empty());
                lemma_mark_exported_model_lookup(env, n, x);
            },
        }
        assert forall|j: int| 0 <= j < ops.skip(1).len() implies (#[trigger] ops.skip(
            1,
        )[j]).0 != x by {
            assert(ops.skip(1)[j] == ops[j + 1]);
        }
        lemma_ops_keep_var(e1, x, var, ops.skip(1));
    }
}

/// A plain assignment never exports: the assigned variable stays bound,
/// unexported and out of the exported view through any number of later
/// exports of other names.
pub proof fn lemma_assign_stays_unexported(
    env: Seq<VarView>,
    x: Seq<u8>,
    v: Seq<u8>,
    ops: Seq<(Seq<u8>, Option<Seq<u8>>)>,
)
    requires
        env_wf(env),
        match env_lookup(env, x) {
            Some(var) => !var.is_exported,
            None => true,
        },
        forall|j: int| 0 <= j < ops.len() ==> (#[trigger] ops[j]).0 != x,
    ensures
        env_lookup(export_ops_model(assign_model(env, x, v), ops), x) == Some(
            VarView { name: x, value: v, is_exported: false },
        ),
        forall|k: int|
            0 <= k < exported_pairs(export_ops_model(assign_model(env, x, v), ops)).len()
                ==> exported_pairs(export_ops_model(assign_model(env, x, v), ops))[k].0 != x,
{
    let env2 = assign_model(env, x, v);
    lemma_assign_model_lookup(env, x, v, x);
    lemma_models_preserve_wf(env, x, v);
    lemma_ops_keep_var(env2, x, VarView { name: x, value: v, is_exported: false }, ops);
    let env3 = export_ops_model(env2, ops);
    lemma_exported_pairs_index(env3, x);
    assert forall|i: int| 0 <= i < env3.len() && env3[i].name == x implies !env3[i].is_exported by {
        lemma_env_find(env3, x);
        match env_find(env3, x) {
            Some(j) => {
                assert(env3[j].name == x);
                assert(j == i);
            },
            None => {},
        }
    }
    if exists|k: int| 0 <= k < exported_pairs(env3).len() && exported_pairs(env3)[k].0 == x {
        let i = choose|i: int| 0 <= i < env3.len() && env3[i].name == x && env3[i].is_exported;
        assert(false);
    }
}

/// `export FOO=bar` followed by a bare `export FOO` keeps the value `bar`
/// and the exported flag.
pub proof fn lemma_export_then_export_name(env: Seq<VarView>, name: Seq<u8>, value: Seq<u8>)
    ensures
        env_lookup(mark_exported_model(export_value_model(env, name, value), name), name) == Some(
            VarView { name, value, is_exported: true },
        ),
{
    let env2 = export_value_model(env, name, value);
    lemma_export_value_model_lookup(env, name, value, name);
    lemma_mark_exported_model_lookup(env2, name, name);
}

/// Byte-for-byte equality of two slices.
pub fn compare_bytes(a: &[u8], b: &[u8]) -> (r: bool)
    ensures
        r == (a@ == b@),
{
    if a.len() != b.len() {
        proof {
            assert(a@.len() != b@.len());
        }
        return false;
    }
    let mut i: usize = 0;
    while i < a.len()
        invariant
            0 <= i <= a@.len(),
            a@.len() == b@.len(),
            forall|j: int| 0 <= j < i ==> a@[j] == b@[j],
        decreases a@.len() - i,
    {
        if a[i] != b[i] {
            proof {
                assert(a@[i as int] != b@[i as int]);
            }
            return false;
        }
        i += 1;
    }
    proof {
        assert(a@ =~= b@);
    }
    true
}

} // verus!
