use vstd::prelude::*;

use crate::ast::{Exportable, NameValuePair, NameValuePairView};
use crate::environment::{
    assign_model, env_lookup, export_value_model, mark_exported_model, Environment, VarView,
};
use crate::word::{
    copy_bytes, find_byte, find_byte_in, is_valid_name, is_valid_name_byte, is_valid_name_byte_spec,
    is_valid_name_spec, Quote, Word, WordView,
};

verus! {

pub const DOLLAR: u8 = 36;
pub const LBRACE: u8 = 123;
pub const RBRACE: u8 = 125;
pub const TILDE: u8 = 126;
pub const SLASH: u8 = 47;

/// Why an expansion was rejected.
#[derive(Clone, Debug, PartialEq)]
pub enum ExpandError {
    /// `${NAME` with no closing brace; carries the bytes after `${`.
    MissingClosingBrace(Vec<u8>),
    /// A `$` reference whose name is not a valid variable name.
    InvalidName(Vec<u8>),
}

/// Mathematical image of an `ExpandError`.
pub enum ExpandErrorView {
    MissingClosingBrace(Seq<u8>),
    InvalidName(Seq<u8>),
}

impl View for ExpandError {
    type V = ExpandErrorView;

    open spec fn view(&self) -> ExpandErrorView {
        match self {
            ExpandError::MissingClosingBrace(b) => ExpandErrorView::MissingClosingBrace(b@),
            ExpandError::InvalidName(b) => ExpandErrorView::InvalidName(b@),
        }
    }
}

pub open spec fn bytes_result_view(r: Result<Vec<u8>, ExpandError>) -> Result<
    Seq<u8>,
    ExpandErrorView,
> {
    match r {
        Ok(v) => Ok(v@),
        Err(e) => Err(e@),
    }
}

/// The value a `$` reference inserts: the variable's value, or nothing when
/// it is unset.
pub open spec fn env_value(env: Seq<VarView>, name: Seq<u8>) -> Seq<u8> {
    match env_lookup(env, name) {
        Some(v) => v.value,
        None => Seq::empty(),
    }
}

/// Length of the longest prefix of `s` made of valid name bytes.
pub open spec fn name_prefix_len(s: Seq<u8>) -> int
    decreases s.len(),
{
    if s.len() == 0 {
        0
    } else if is_valid_name_byte_spec(s[0]) {
        1 + name_prefix_len(s.skip(1))
    } else {
        0
    }
}

pub proof fn lemma_name_prefix_len(s: Seq<u8>)
    ensures
        0 <= name_prefix_len(s) <= s.len(),
        forall|k: int| 0 <= k < name_prefix_len(s) ==> is_valid_name_byte_spec(s[k]),
        name_prefix_len(s) < s.len() ==> !is_valid_name_byte_spec(s[name_prefix_len(s)]),
    decreases s.len(),
{
    if s.len() > 0 && is_valid_name_byte_spec(s[0]) {
        lemma_name_prefix_len(s.skip(1));
        let t = s.skip(1);
        let n = name_prefix_len(s);
        assert forall|k: int| 0 <= k < n implies is_valid_name_byte_spec(s[k]) by {
            if k > 0 {
                assert(s[k] == t[k - 1]);
            }
        }
        if n < s.len() {
            assert(s[n] == t[n - 1]);
        }
    }
}

pub proof fn lemma_name_prefix_len_at(s: Seq<u8>, n: int)
    requires
        0 <= n <= s.len(),
        forall|k: int| 0 <= k < n ==> is_valid_name_byte_spec(s[k]),
        n < s.len() ==> !is_valid_name_byte_spec(s[n]),
    ensures
        name_prefix_len(s) == n,
    decreases s.len(),
{
    if s.len() > 0 && n > 0 {
        lemma_name_prefix_len_at(s.skip(1), n - 1);
    }
}

/// Variable expansion over raw bytes. Each `$` starts a reference:
/// `${NAME}` reads to the matching brace, `$NAME` reads greedily over name
/// bytes, and a trailing `$` is literal. The reference is replaced by the
/// variable's current value (empty when unset); the substituted value is
/// not rescanned.
pub open spec fn expand_vars_spec(s: Seq<u8>, env: Seq<VarView>) -> Result<Seq<u8>, ExpandErrorView>
    decreases s.len(),
    via expand_vars_spec_decreases
{
    if s.len() == 0 {
        Ok(Seq::empty())
    } else if s[0] != DOLLAR {
        match expand_vars_spec(s.skip(1), env) {
            Ok(rest) => Ok(seq![s[0]] + rest),
            Err(e) => Err(e),
        }
    } else if s.len() == 1 {
        Ok(seq![DOLLAR])
    } else if s[1] == LBRACE {
        match find_byte(s.skip(2), RBRACE) {
            None => Err(ExpandErrorView::MissingClosingBrace(s.skip(2))),
            Some(p) => {
                let name = s.skip(2).take(p);
                if !is_valid_name_spec(name) {
                    Err(ExpandErrorView::InvalidName(name))
                } else {
                    match expand_vars_spec(s.skip(3 + p), env) {
                        Ok(rest) => Ok(env_value(env, name) + rest),
                        Err(e) => Err(e),
                    }
                }
            },
        }
    } else {
        let n = name_prefix_len(s.skip(1));
        let name = s.skip(1).take(n);
        if !is_valid_name_spec(name) {
            Err(ExpandErrorView::InvalidName(name))
        } else {
            match expand_vars_spec(s.skip(1 + n), env) {
                Ok(rest) => Ok(env_value(env, name) + rest),
                Err(e) => Err(e),
            }
        }
    }
}

#[via_fn]
proof fn expand_vars_spec_decreases(s: Seq<u8>, env: Seq<VarView>) {
    if s.len() > 1 && s[0] == DOLLAR {
        if s[1] == LBRACE {
            crate::word::lemma_find_byte(s.skip(2), RBRACE);
        } else {
            lemma_name_prefix_len(s.skip(1));
        }
    }
}

fn scan_name(s: &[u8], start: usize) -> (n: usize)
    requires
        start <= s@.len(),
    ensures
        n == name_prefix_len(s@.skip(start as int)),
        start + n <= s@.len(),
{
    let mut j: usize = start;
    while j < s.len() && is_valid_name_byte(s[j])
        invariant
            start <= j <= s@.len(),
            forall|k: int| start <= k < j ==> is_valid_name_byte_spec(s@[k]),
        decreases s@.len() - j,
    {
        j += 1;
    }
    proof {
        let t = s@.skip(start as int);
        assert forall|k: int| 0 <= k < j - start implies is_valid_name_byte_spec(t[k]) by {
            assert(t[k] == s@[start + k]);
        }
        if j < s@.len() {
            assert(t[j - start] == s@[j as int]);
        }
        lemma_name_prefix_len_at(t, j - start);
    }
    j - start
}

/// Appends a slice to a vector.
pub fn append_bytes(out: &mut Vec<u8>, s: &[u8])
    ensures
        final(out)@ == old(out)@ + s@,
{
    let mut i: usize = 0;
    while i < s.len()
        invariant
            0 <= i <= s@.len(),
            out@ == old(out)@ + s@.take(i as int),
        decreases s@.len() - i,
    {
        out.push(s[i]);
        proof {
            assert(old(out)@ + s@.take(i as int + 1) =~= (old(out)@ + s@.take(i as int)).push(
                s@[i as int],
            ));
        }
        i += 1;
    }
    proof {
        assert(s@.take(s@.len() as int) =~= s@);
    }
}

/// Expands every `$` reference in `s` against `env`.
pub fn expand_vars(s: &[u8], env: &Environment) -> (r: Result<Vec<u8>, ExpandError>)
    ensures
        bytes_result_view(r) == expand_vars_spec(s@, env@),
{
    let mut out: Vec<u8> = Vec::new();
    let mut i: usize = 0;
    proof {
        assert(s@.skip(0) =~= s@);
        match expand_vars_spec(s@, env@) {
            Ok(rest) => {
                assert(out@ + rest =~= rest);
            },
            Err(_) => {},
        }
    }
    while i < s.len()
        invariant
            0 <= i <= s@.len(),
            expand_vars_spec(s@, env@) == (match expand_vars_spec(s@.skip(i as int), env@) {
                Ok(rest) => Ok::<Seq<u8>, ExpandErrorView>(out@ + rest),
                Err(e) => Err::<Seq<u8>, ExpandErrorView>(e),
            }),
        decreases s@.len() - i,
    {
        let ghost pre = s@.skip(i as int);
        let ghost out0 = out@;
        let b = s[i];
        if b != DOLLAR {
            out.push(b);
            i += 1;
            proof {
                assert(pre[0] == b);
                assert(pre.skip(1) =~= s@.skip(i as int));
                assert(out@ =~= out0 + seq![b]);
                match expand_vars_spec(s@.skip(i as int), env@) {
                    Ok(rest) => {
                        assert(out@ + rest =~= out0 + (seq![b] + rest));
                    },
                    Err(_) => {},
                }
            }
        } else if i + 1 == s.len() {
            out.push(DOLLAR);
            i += 1;
            proof {
                assert(pre.len() == 1);
                assert(pre[0] == DOLLAR);
                assert(s@.skip(i as int).len() == 0);
                assert(out@ =~= out0 + seq![DOLLAR]);
                assert(out@ + Seq::<u8>::empty() =~= out@);
            }
        } else if s[i + 1] == LBRACE {
            proof {
                assert(pre[0] == DOLLAR);
                assert(pre.len() > 1);
                assert(pre[1] == s@[i + 1]);
            }
            let tail = &s[i + 2..s.len()];
            proof {
                assert(tail@ =~= pre.skip(2));
            }
            match find_byte_in(tail, RBRACE) {
                None => {
                    return Err(ExpandError::MissingClosingBrace(copy_bytes(tail)));
                },
                Some(p) => {
                    proof {
                        crate::word::lemma_find_byte(tail@, RBRACE);
                    }
                    let name = &s[i + 2..i + 2 + p];
                    proof {
                        assert(name@ =~= pre.skip(2).take(p as int));
                    }
                    if !is_valid_name(name) {
                        return Err(ExpandError::InvalidName(copy_bytes(name)));
                    }
                    match env.get(name) {
                        Some(v) => {
                            let value = copy_bytes(v.as_slice());
                            append_bytes(&mut out, value.as_slice());
                        },
                        None => {
                            proof {
                                assert(env_value(env@, name@) == Seq::<u8>::empty());
                                assert(out@ + Seq::<u8>::empty() =~= out@);
                            }
                        },
                    }
                    i = i + 2 + p + 1;
                    proof {
                        assert(out@ =~= out0 + env_value(env@, name@));
                        assert(pre.skip(3 + p) =~= s@.skip(i as int));
                        match expand_vars_spec(s@.skip(i as int), env@) {
                            Ok(rest) => {
                                assert(out@ + rest =~= out0 + (env_value(env@, name@) + rest));
                            },
                            Err(_) => {},
                        }
                    }
                },
            }
        } else {
            proof {
                assert(pre[0] == DOLLAR);
                assert(pre.len() > 1);
                assert(pre[1] == s@[i + 1] && pre[1] != LBRACE);
            }
            let n = scan_name(s, i + 1);
            proof {
                assert(s@.skip(i + 1) =~= pre.skip(1));
            }
            let name = &s[i + 1..i + 1 + n];
            proof {
                assert(name@ =~= pre.skip(1).take(n as int));
            }
            if !is_valid_name(name) {
                return Err(ExpandError::InvalidName(copy_bytes(name)));
            }
            match env.get(name) {
                Some(v) => {
                    let value = copy_bytes(v.as_slice());
                    append_bytes(&mut out, value.as_slice());
                },
                None => {
                    proof {
                        assert(env_value(env@, name@) == Seq::<u8>::empty());
                        assert(out@ + Seq::<u8>::empty() =~= out@);
                    }
                },
            }
            i = i + 1 + n;
            proof {
                assert(out@ =~= out0 + env_value(env@, name@));
                assert(pre.skip(1 + n as int) =~= s@.skip(i as int));
                match expand_vars_spec(s@.skip(i as int), env@) {
                    Ok(rest) => {
                        assert(out@ + rest =~= out0 + (env_value(env@, name@) + rest));
                    },
                    Err(_) => {},
                }
            }
        }
    }
    proof {
        assert(s@.skip(s@.len() as int).len() == 0);
        assert(out@ + Seq::<u8>::empty() =~= out@);
    }
    Ok(out)
}

/// Does the word name a user after `~`, so that only the host's password
/// database can resolve it?
pub open spec fn needs_user_lookup(w: Seq<u8>) -> bool {
    w.len() >= 2 && w[0] == TILDE && w[1] != SLASH
}

/// The username between `~` and the first `/` (or the end of the word).
pub open spec fn tilde_user_name(w: Seq<u8>) -> Seq<u8> {
    match find_byte(w.skip(1), SLASH) {
        Some(p) => w.skip(1).take(p),
        None => w.skip(1),
    }
}

/// Tilde expansion of an unquoted word. `home` is the value of `HOME`;
/// `user_home` is what the password database reported for the named user,
/// when the word names one. A failed lookup leaves the word unchanged.
pub open spec fn expand_tilde_spec(w: Seq<u8>, home: Seq<u8>, user_home: Option<Seq<u8>>) -> Seq<
    u8,
> {
    if w.len() == 0 || w[0] != TILDE {
        w
    } else if w.len() == 1 {
        home
    } else if w[1] == SLASH {
        home + w.skip(1)
    } else {
        match user_home {
            Some(dir) => match find_byte(w.skip(1), SLASH) {
                Some(p) => dir + w.skip(1).skip(p),
                None => dir,
            },
            None => w,
        }
    }
}

pub open spec fn opt_bytes_view(o: Option<Vec<u8>>) -> Option<Seq<u8>> {
    match o {
        Some(v) => Some(v@),
        None => None,
    }
}

/// Tilde expansion with the user-home outcome supplied as an argument, so
/// that it is checked for every possible answer of the password database.
pub fn apply_tilde(word: &[u8], home: &[u8], user_home: Option<Vec<u8>>) -> (r: Vec<u8>)
    ensures
        r@ == expand_tilde_spec(word@, home@, opt_bytes_view(user_home)),
{
    if word.len() == 0 || word[0] != TILDE {
        return copy_bytes(word);
    }
    if word.len() == 1 {
        return copy_bytes(home);
    }
    if word[1] == SLASH {
        let mut r = copy_bytes(home);
        append_bytes(&mut r, &word[1..word.len()]);
        proof {
            assert(word@.skip(1) =~= word@.subrange(1, word@.len() as int));
        }
        return r;
    }
    match user_home {
        Some(dir) => {
            let rest = &word[1..word.len()];
            proof {
                assert(rest@ =~= word@.skip(1));
            }
            match find_byte_in(rest, SLASH) {
                Some(p) => {
                    proof {
                        crate::word::lemma_find_byte(rest@, SLASH);
                    }
                    let mut r = dir;
                    append_bytes(&mut r, &rest[p..rest.len()]);
                    proof {
                        assert(rest@.subrange(p as int, rest@.len() as int) =~= word@.skip(1).skip(
                            p as int,
                        ));
                    }
                    r
                },
                None => dir,
            }
        },
        None => copy_bytes(word),
    }
}

/// Relies on `nix::unistd::User::from_name` (getpwnam_r): the home
/// directory that the host's password database records for `name`, or
/// `None` when there is no such user (a name that is not UTF-8 names no
/// user).
#[verifier::external_body]
fn lookup_home(name: &[u8]) -> (r: Option<Vec<u8>>) {
    let name = match core::str::from_utf8(name) {
        Ok(n) => n,
        Err(_) => return None,
    };
    match nix::unistd::User::from_name(name) {
        Ok(Some(user)) => Some(user.dir.into_os_string().into_encoded_bytes()),
        _ => None,
    }
}

/// Tilde expansion against the live host: `~user` is resolved through the
/// password database, every other shape is pure.
pub fn expand_tilde(word: &[u8], home: &[u8]) -> (r: Vec<u8>)
    ensures
        exists|lu: Option<Seq<u8>>| r@ == expand_tilde_spec(word@, home@, lu),
        !needs_user_lookup(word@) ==> r@ == expand_tilde_spec(word@, home@, None),
{
    if word.len() >= 2 && word[0] == TILDE && word[1] != SLASH {
        let rest = &word[1..word.len()];
        proof {
            assert(rest@ =~= word@.skip(1));
        }
        let name_end = match find_byte_in(rest, SLASH) {
            Some(p) => {
                proof {
                    crate::word::lemma_find_byte(rest@, SLASH);
                }
                p
            },
            None => rest.len(),
        };
        let name = &rest[0..name_end];
        proof {
            assert(name@ =~= tilde_user_name(word@));
        }
        let lu = lookup_home(name);
        let ghost lv = opt_bytes_view(lu);
        let r = apply_tilde(word, home, lu);
        proof {
            assert(r@ == expand_tilde_spec(word@, home@, lv));
        }
        r
    } else {
        apply_tilde(word, home, None)
    }
}

/// The name of the variable that tilde expansion and `cd` fall back to.
pub open spec fn home_name() -> Seq<u8> {
    seq![72u8, 79u8, 77u8, 69u8]
}

pub fn home_name_bytes() -> (r: Vec<u8>)
    ensures
        r@ == home_name(),
{
    let mut r: Vec<u8> = Vec::new();
    r.push(72);
    r.push(79);
    r.push(77);
    r.push(69);
    proof {
        assert(r@ =~= home_name());
    }
    r
}

/// Full expansion of one word: single quotes are verbatim, double quotes
/// expand variables only, and an unquoted word expands a leading tilde
/// first. `user_home` is the password database's answer where one is
/// needed.
pub open spec fn expand_word_spec(
    w: WordView,
    env: Seq<VarView>,
    user_home: Option<Seq<u8>>,
) -> Result<Seq<u8>, ExpandErrorView> {
    match w.quote {
        Some(Quote::Single) => Ok(w.value),
        Some(Quote::Double) => expand_vars_spec(w.value, env),
        None => expand_vars_spec(
            expand_tilde_spec(w.value, env_value(env, home_name()), user_home),
            env,
        ),
    }
}

/// Does expanding this word consult the password database?
pub open spec fn word_needs_user_lookup(w: WordView) -> bool {
    w.quote is None && needs_user_lookup(w.value)
}

impl Word {
    /// Expands this word against the environment.
    pub fn expand(&self, env: &Environment) -> (r: Result<Vec<u8>, ExpandError>)
        requires
            self@.quote is None ==> env_lookup(env@, home_name()) is Some,
        ensures
            exists|lu: Option<Seq<u8>>|
                bytes_result_view(r) == expand_word_spec(self@, env@, lu),
            !word_needs_user_lookup(self@) ==> bytes_result_view(r) == expand_word_spec(
                self@,
                env@,
                None,
            ),
    {
        match self.quote {
            Some(Quote::Single) => {
                let r = Ok(copy_bytes(self.value.as_slice()));
                proof {
                    assert(bytes_result_view(r) == expand_word_spec(
                        self@,
                        env@,
                        None::<Seq<u8>>,
                    ));
                }
                r
            },
            Some(Quote::Double) => {
                let r = expand_vars(self.value.as_slice(), env);
                proof {
                    assert(bytes_result_view(r) == expand_word_spec(
                        self@,
                        env@,
                        None::<Seq<u8>>,
                    ));
                }
                r
            },
            None => {
                let hn = home_name_bytes();
                let home = match env.get(hn.as_slice()) {
                    Some(h) => copy_bytes(h.as_slice()),
                    None => vstd::pervasive::unreached(),
                };
                let t = expand_tilde(self.value.as_slice(), home.as_slice());
                let ghost lu = choose|lu: Option<Seq<u8>>|
                    t@ == expand_tilde_spec(self@.value, home@, lu);
                let r = expand_vars(t.as_slice(), env);
                proof {
                    assert(home@ == env_value(env@, home_name()));
                    assert(bytes_result_view(r) == expand_word_spec(self@, env@, lu));
                    if !word_needs_user_lookup(self@) {
                        assert(t@ == expand_tilde_spec(self@.value, home@, None::<Seq<u8>>));
                        assert(bytes_result_view(r) == expand_word_spec(
                            self@,
                            env@,
                            None::<Seq<u8>>,
                        ));
                    }
                }
                r
            },
        }
    }
}

/// How one assignment leaves the environment: on success the expanded
/// value is bound unexported; on failure nothing changes.
pub open spec fn assign_outcome(
    r: Result<(), ExpandError>,
    pre: Seq<VarView>,
    post: Seq<VarView>,
    pair: NameValuePairView,
    lu: Option<Seq<u8>>,
) -> bool {
    match r {
        Ok(_) => match expand_word_spec(pair.value, pre, lu) {
            Ok(v) => post == assign_model(pre, pair.name.value, v),
            Err(_) => false,
        },
        Err(e) => expand_word_spec(pair.value, pre, lu) == Err::<Seq<u8>, ExpandErrorView>(e@)
            && post == pre,
    }
}

/// How one export item leaves the environment.
pub open spec fn export_outcome(
    r: Result<(), ExpandError>,
    pre: Seq<VarView>,
    post: Seq<VarView>,
    name: Seq<u8>,
    value: Option<WordView>,
    lu: Option<Seq<u8>>,
) -> bool {
    match value {
        Some(w) => match r {
            Ok(_) => match expand_word_spec(w, pre, lu) {
                Ok(v) => post == export_value_model(pre, name, v),
                Err(_) => false,
            },
            Err(e) => expand_word_spec(w, pre, lu) == Err::<Seq<u8>, ExpandErrorView>(e@) && post
                == pre,
        },
        None => r is Ok && post == mark_exported_model(pre, name),
    }
}

impl Environment {
    /// `NAME=value`: the value is expanded against the current environment
    /// and bound without exporting.
    pub fn assign(&mut self, pair: &NameValuePair) -> (r: Result<(), ExpandError>)
        requires
            old(self).wf(),
            pair@.value.quote is None ==> env_lookup(old(self)@, home_name()) is Some,
        ensures
            final(self).wf(),
            exists|lu: Option<Seq<u8>>|
                assign_outcome(r, old(self)@, final(self)@, pair@, lu),
            !word_needs_user_lookup(pair@.value) ==> assign_outcome(
                r,
                old(self)@,
                final(self)@,
                pair@,
                None,
            ),
            r is Ok ==> env_lookup(final(self)@, pair@.name.value) is Some && forall|n: Seq<u8>|
                n != pair@.name.value ==> env_lookup(final(self)@, n) == env_lookup(
                    old(self)@,
                    n,
                ),
            r is Err ==> final(self)@ == old(self)@,
    {
        let ghost pre = self@;
        match pair.value.expand(self) {
            Ok(v) => {
                let ghost lu = choose|lu: Option<Seq<u8>>|
                    Ok::<Seq<u8>, ExpandErrorView>(v@) == expand_word_spec(pair@.value, pre, lu);
                let name = copy_bytes(pair.name.as_bytes());
                self.set_value(name, v);
                proof {
                    assert(assign_outcome(Ok(()), pre, self@, pair@, lu));
                    crate::environment::lemma_assign_model_lookup(
                        pre,
                        pair@.name.value,
                        v@,
                        pair@.name.value,
                    );
                    assert forall|n: Seq<u8>| n != pair@.name.value implies env_lookup(self@, n)
                        == env_lookup(pre, n) by {
                        crate::environment::lemma_assign_model_lookup(
                            pre,
                            pair@.name.value,
                            v@,
                            n,
                        );
                    }
                }
                Ok(())
            },
            Err(e) => {
                proof {
                    let lu = choose|lu: Option<Seq<u8>>|
                        Err::<Seq<u8>, ExpandErrorView>(e@) == expand_word_spec(
                            pair@.value,
                            pre,
                            lu,
                        );
                    assert(assign_outcome(Err(e), pre, self@, pair@, lu));
                }
                Err(e)
            },
        }
    }

    /// `export NAME` or `export NAME=value`: the entry becomes exported;
    /// a given value is expanded first.
    pub fn export(&mut self, exportable: &Exportable) -> (r: Result<(), ExpandError>)
        requires
            old(self).wf(),
            match exportable@.value {
                Some(w) => w.quote is None ==> env_lookup(old(self)@, home_name()) is Some,
                None => true,
            },
        ensures
            final(self).wf(),
            exists|lu: Option<Seq<u8>>|
                export_outcome(r, old(self)@, final(self)@, exportable@.name.value, exportable@.value, lu),
            (match exportable@.value {
                Some(w) => !word_needs_user_lookup(w),
                None => true,
            }) ==> export_outcome(
                r,
                old(self)@,
                final(self)@,
                exportable@.name.value,
                exportable@.value,
                None,
            ),
            r is Ok ==> env_lookup(final(self)@, exportable@.name.value) is Some && forall|
                n: Seq<u8>,
            |
                n != exportable@.name.value ==> env_lookup(final(self)@, n) == env_lookup(
                    old(self)@,
                    n,
                ),
            r is Err ==> final(self)@ == old(self)@,
    {
        let ghost pre = self@;
        match &exportable.value {
            Some(word) => {
                match word.expand(self) {
                    Ok(v) => {
                        let ghost lu = choose|lu: Option<Seq<u8>>|
                            Ok::<Seq<u8>, ExpandErrorView>(v@) == expand_word_spec(
                                word@,
                                pre,
                                lu,
                            );
                        let name = copy_bytes(exportable.name.as_bytes());
                        self.set_exported_value(name, v);
                        proof {
                            assert(export_outcome(
                                Ok(()),
                                pre,
                                self@,
                                exportable@.name.value,
                                exportable@.value,
                                lu,
                            ));
                            crate::environment::lemma_export_value_model_lookup(
                                pre,
                                exportable@.name.value,
                                v@,
                                exportable@.name.value,
                            );
                            assert forall|n: Seq<u8>| n != exportable@.name.value implies
                                env_lookup(self@, n) == env_lookup(pre, n) by {
                                crate::environment::lemma_export_value_model_lookup(
                                    pre,
                                    exportable@.name.value,
                                    v@,
                                    n,
                                );
                            }
                        }
                        Ok(())
                    },
                    Err(e) => {
                        proof {
                            let lu = choose|lu: Option<Seq<u8>>|
                                Err::<Seq<u8>, ExpandErrorView>(e@) == expand_word_spec(
                                    word@,
                                    pre,
                                    lu,
                                );
                            assert(export_outcome(
                                Err(e),
                                pre,
                                self@,
                                exportable@.name.value,
                                exportable@.value,
                                lu,
                            ));
                        }
                        Err(e)
                    },
                }
            },
            None => {
                let name = copy_bytes(exportable.name.as_bytes());
                self.mark_exported(name);
                proof {
                    assert(export_outcome(
                        Ok(()),
                        pre,
                        self@,
                        exportable@.name.value,
                        exportable@.value,
                        None,
                    ));
                    crate::environment::lemma_mark_exported_model_lookup(
                        pre,
                        exportable@.name.value,
                        exportable@.name.value,
                    );
                    assert forall|n: Seq<u8>| n != exportable@.name.value implies env_lookup(
                        self@,
                        n,
                    ) == env_lookup(pre, n) by {
                        crate::environment::lemma_mark_exported_model_lookup(
                            pre,
                            exportable@.name.value,
                            n,
                        );
                    }
                }
                Ok(())
            },
        }
    }

    /// The value of `HOME`, which tilde expansion and bare `cd` need.
    pub fn home(&self) -> (r: &Vec<u8>)
        requires
            env_lookup(self@, home_name()) is Some,
        ensures
            r@ == env_value(self@, home_name()),
    {
        let hn = home_name_bytes();
        match self.get(hn.as_slice()) {
            Some(h) => h,
            None => vstd::pervasive::unreached(),
        }
    }

    /// The value of `PATH`, or empty when it is unset.
    pub fn path(&self) -> (r: Vec<u8>)
        ensures
            r@ == env_value(self@, path_name()),
    {
        let pn = path_name_bytes();
        match self.get(pn.as_slice()) {
            Some(p) => copy_bytes(p.as_slice()),
            None => Vec::new(),
        }
    }
}

/// `s` holds no `$` byte.
pub open spec fn no_dollar(s: Seq<u8>) -> bool {
    forall|i: int| 0 <= i < s.len() ==> s[i] != DOLLAR
}

/// Any `$` in `s` is its last byte, so no further reference can start.
pub open spec fn dollar_terminal(s: Seq<u8>) -> bool {
    forall|i: int| 0 <= i < s.len() && s[i] == DOLLAR ==> i == s.len() - 1
}

/// Every value stored in the environment is free of `$`.
pub open spec fn env_values_dollar_free(env: Seq<VarView>) -> bool {
    forall|i: int| 0 <= i < env.len() ==> no_dollar(#[trigger] env[i].value)
}

pub open spec fn starts_tilde(s: Seq<u8>) -> bool {
    s.len() > 0 && s[0] == TILDE
}

proof fn lemma_env_value_dollar_free(env: Seq<VarView>, name: Seq<u8>)
    requires
        env_values_dollar_free(env),
    ensures
        no_dollar(env_value(env, name)),
{
    crate::environment::lemma_env_find(env, name);
}

/// Variable expansion against a `$`-free environment leaves no `$` that
/// could begin a further reference.
proof fn lemma_expand_vars_complete(s: Seq<u8>, env: Seq<VarView>)
    requires
        env_values_dollar_free(env),
    ensures
        expand_vars_spec(s, env) matches Ok(r) ==> dollar_terminal(r),
    decreases s.len(),
{
    if s.len() == 0 {
    } else if s[0] != DOLLAR {
        lemma_expand_vars_complete(s.skip(1), env);
        match expand_vars_spec(s.skip(1), env) {
            Ok(rest) => {
                let r = seq![s[0]] + rest;
                assert forall|i: int| 0 <= i < r.len() && r[i] == DOLLAR implies i == r.len()
                    - 1 by {
                    if i > 0 {
                        assert(r[i] == rest[i - 1]);
                    }
                }
            },
            Err(_) => {},
        }
    } else if s.len() == 1 {
    } else if s[1] == LBRACE {
        match find_byte(s.skip(2), RBRACE) {
            None => {},
            Some(p) => {
                crate::word::lemma_find_byte(s.skip(2), RBRACE);
                let name = s.skip(2).take(p);
                if is_valid_name_spec(name) {
                    lemma_expand_vars_complete(s.skip(3 + p), env);
                    lemma_env_value_dollar_free(env, name);
                    match expand_vars_spec(s.skip(3 + p), env) {
                        Ok(rest) => {
                            let v = env_value(env, name);
                            let r = v + rest;
                            assert forall|i: int| 0 <= i < r.len() && r[i] == DOLLAR implies i
                                == r.len() - 1 by {
                                if i >= v.len() {
                                    assert(r[i] == rest[i - v.len()]);
                                } else {
                                    assert(r[i] == v[i]);
                                }
                            }
                        },
                        Err(_) => {},
                    }
                }
            },
        }
    } else {
        lemma_name_prefix_len(s.skip(1));
        let n = name_prefix_len(s.skip(1));
        let name = s.skip(1).take(n);
        if is_valid_name_spec(name) {
            lemma_expand_vars_complete(s.skip(1 + n), env);
            lemma_env_value_dollar_free(env, name);
            match expand_vars_spec(s.skip(1 + n), env) {
                Ok(rest) => {
                    let v = env_value(env, name);
                    let r = v + rest;
                    assert forall|i: int| 0 <= i < r.len() && r[i] == DOLLAR implies i == r.len()
                        - 1 by {
                        if i >= v.len() {
                            assert(r[i] == rest[i - v.len()]);
                        } else {
                            assert(r[i] == v[i]);
                        }
                    }
                },
                Err(_) => {},
            }
        }
    }
}

/// Variable expansion of a `$`-free string is the identity.
proof fn lemma_expand_vars_no_dollar(s: Seq<u8>, env: Seq<VarView>)
    requires
        no_dollar(s),
    ensures
        expand_vars_spec(s, env) == Ok::<Seq<u8>, ExpandErrorView>(s),
    decreases s.len(),
{
    if s.len() == 0 {
        assert(s =~= Seq::<u8>::empty());
    } else {
        assert(s[0] != DOLLAR);
        assert forall|i: int| 0 <= i < s.skip(1).len() implies s.skip(1)[i] != DOLLAR by {
            assert(s.skip(1)[i] == s[i + 1]);
        }
        lemma_expand_vars_no_dollar(s.skip(1), env);
        assert(seq![s[0]] + s.skip(1) =~= s);
    }
}

/// When a nonempty string does not begin with `$`, neither does its
/// expansion, which keeps the first byte.
proof fn lemma_expand_vars_first(s: Seq<u8>, env: Seq<VarView>)
    requires
        s.len() > 0,
        s[0] != DOLLAR,
    ensures
        expand_vars_spec(s, env) matches Ok(r) ==> r.len() > 0 && r[0] == s[0],
{
    match expand_vars_spec(s.skip(1), env) {
        Ok(rest) => {
            assert((seq![s[0]] + rest)[0] == s[0]);
        },
        Err(_) => {},
    }
}

/// Double-quoting a string with no `$` expands to byte-identical content.
pub proof fn lemma_double_quote_identity(w: WordView, env: Seq<VarView>, lu: Option<Seq<u8>>)
    requires
        w.quote == Some(Quote::Double),
        no_dollar(w.value),
    ensures
        expand_word_spec(w, env, lu) == Ok::<Seq<u8>, ExpandErrorView>(w.value),
{
    lemma_expand_vars_no_dollar(w.value, env);
}

/// Expanding an unquoted word is complete: no `$` that could begin a
/// reference survives, and a leading `~` survives only when the word named
/// a user that the password database did not know.
pub proof fn lemma_unquoted_expansion_complete(w: WordView, env: Seq<VarView>, lu: Option<Seq<u8>>)
    requires
        w.quote is None,
        env_values_dollar_free(env),
        !starts_tilde(env_value(env, home_name())),
        match lu {
            Some(dir) => !starts_tilde(dir) && no_dollar(dir),
            None => true,
        },
    ensures
        expand_word_spec(w, env, lu) matches Ok(r) ==> dollar_terminal(r),
        starts_tilde(w.value) ==> match expand_word_spec(w, env, lu) {
            Ok(r) => starts_tilde(r) ==> needs_user_lookup(w.value) && lu is None,
            Err(_) => true,
        },
{
    let home = env_value(env, home_name());
    let t = expand_tilde_spec(w.value, home, lu);
    lemma_expand_vars_complete(t, env);
    lemma_env_value_dollar_free(env, home_name());
    if starts_tilde(w.value) {
        if w.value.len() == 1 {
            // t == home
            if t.len() > 0 {
                lemma_expand_vars_first(t, env);
            }
        } else if w.value[1] == SLASH {
            assert(t == home + w.value.skip(1));
            if home.len() > 0 {
                assert(t[0] == home[0]);
            } else {
                assert(t =~= w.value.skip(1));
                assert(t[0] == SLASH);
            }
            lemma_expand_vars_first(t, env);
        } else {
            match lu {
                Some(dir) => {
                    match find_byte(w.value.skip(1), SLASH) {
                        Some(p) => {
                            crate::word::lemma_find_byte(w.value.skip(1), SLASH);
                            assert(t == dir + w.value.skip(1).skip(p));
                            if dir.len() > 0 {
                                assert(t[0] == dir[0]);
                                lemma_expand_vars_first(t, env);
                            } else {
                                assert(t =~= w.value.skip(1).skip(p));
                                if t.len() > 0 {
                                    assert(t[0] == w.value.skip(1)[p]);
                                    assert(t[0] == SLASH);
                                    lemma_expand_vars_first(t, env);
                                }
                            }
                        },
                        None => {
                            assert(t == dir);
                            if t.len() > 0 {
                                assert(!starts_tilde(t));
                                lemma_expand_vars_first(t, env);
                            }
                        },
                    }
                },
                None => {},
            }
        }
    }
}

/// `~user` for an unknown user leaves a reference-free word unchanged.
pub proof fn lemma_tilde_miss_unchanged(w: WordView, env: Seq<VarView>)
    requires
        w.quote is None,
        needs_user_lookup(w.value),
        no_dollar(w.value),
    ensures
        expand_word_spec(w, env, None) == Ok::<Seq<u8>, ExpandErrorView>(w.value),
{
    lemma_expand_vars_no_dollar(w.value, env);
}

/// The name of the variable holding the executable search path.
pub open spec fn path_name() -> Seq<u8> {
    seq![80u8, 65u8, 84u8, 72u8]
}

pub fn path_name_bytes() -> (r: Vec<u8>)
    ensures
        r@ == path_name(),
{
    let mut r: Vec<u8> = Vec::new();
    r.push(80);
    r.push(65);
    r.push(84);
    r.push(72);
    proof {
        assert(r@ =~= path_name());
    }
    r
}

} // verus!
