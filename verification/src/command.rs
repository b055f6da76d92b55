use vstd::prelude::*;

use crate::ast::{NameValuePair, NameValuePairView};
use crate::environment::{env_lookup, Environment, VarView};
use crate::expand::{expand_word_spec, home_name, word_needs_user_lookup, ExpandError, ExpandErrorView};
use crate::redirect::Redirect;
use crate::word::{copy_bytes, Word, WordView};

verus! {

/// A command as parsed: name, arguments, redirections, command-scoped
/// assignments, and an optional pipeline successor.
#[derive(Debug, PartialEq)]
pub struct Command {
    name: Word,
    arguments: Vec<Word>,
    redirects: Vec<Redirect<Word>>,
    env: Vec<NameValuePair>,
    pipeline: Option<Box<Command>>,
}

/// Mathematical image of a `Command`.
pub struct CommandView {
    pub name: WordView,
    pub arguments: Seq<WordView>,
    pub redirects: Seq<Redirect<WordView>>,
    pub env: Seq<NameValuePairView>,
    pub pipeline: Option<Box<CommandView>>,
}

pub closed spec fn command_view(c: Command) -> CommandView
    decreases c,
{
    CommandView {
        name: c.name@,
        arguments: c.arguments@.map_values(|w: Word| w@),
        redirects: c.redirects@.map_values(|r: Redirect<Word>| r@),
        env: c.env@.map_values(|p: NameValuePair| p@),
        pipeline: match c.pipeline {
            Some(b) => Some(Box::new(command_view(*b))),
            None => None,
        },
    }
}

impl View for Command {
    type V = CommandView;

    open spec fn view(&self) -> CommandView {
        command_view(*self)
    }
}

impl Command {
    pub fn new(name: Word, arguments: Vec<Word>) -> (r: Self)
        ensures
            r@.name == name@,
            r@.arguments == arguments@.map_values(|w: Word| w@),
            r@.redirects =~= Seq::<Redirect<WordView>>::empty(),
            r@.env =~= Seq::<NameValuePairView>::empty(),
            r@.pipeline is None,
    {
        Self { name, arguments, redirects: Vec::new(), env: Vec::new(), pipeline: None }
    }

    pub fn from_name(name: Word) -> (r: Self)
        ensures
            r@.name == name@,
            r@.arguments =~= Seq::<WordView>::empty(),
            r@.redirects =~= Seq::<Redirect<WordView>>::empty(),
            r@.env =~= Seq::<NameValuePairView>::empty(),
            r@.pipeline is None,
    {
        Self::new(name, Vec::new())
    }

    pub fn add_argument(&mut self, argument: Word)
        ensures
            final(self)@.name == old(self)@.name,
            final(self)@.arguments == old(self)@.arguments.push(argument@),
            final(self)@.redirects == old(self)@.redirects,
            final(self)@.env == old(self)@.env,
            final(self)@.pipeline == old(self)@.pipeline,
    {
        self.arguments.push(argument);
        proof {
            assert(self@.arguments =~= old(self)@.arguments.push(argument@));
        }
    }

    pub fn add_redirect(&mut self, redirect: Redirect<Word>)
        ensures
            final(self)@.name == old(self)@.name,
            final(self)@.arguments == old(self)@.arguments,
            final(self)@.redirects == old(self)@.redirects.push(redirect@),
            final(self)@.env == old(self)@.env,
            final(self)@.pipeline == old(self)@.pipeline,
    {
        self.redirects.push(redirect);
        proof {
            assert(self@.redirects =~= old(self)@.redirects.push(redirect@));
        }
    }

    pub fn set_env(&mut self, env: Vec<NameValuePair>)
        ensures
            final(self)@.name == old(self)@.name,
            final(self)@.arguments == old(self)@.arguments,
            final(self)@.redirects == old(self)@.redirects,
            final(self)@.env == env@.map_values(|p: NameValuePair| p@),
            final(self)@.pipeline == old(self)@.pipeline,
    {
        self.env = env;
    }

    pub fn set_pipeline(&mut self, pipeline: Command)
        ensures
            final(self)@.name == old(self)@.name,
            final(self)@.arguments == old(self)@.arguments,
            final(self)@.redirects == old(self)@.redirects,
            final(self)@.env == old(self)@.env,
            final(self)@.pipeline == Some(Box::new(pipeline@)),
    {
        self.pipeline = Some(Box::new(pipeline));
    }

    pub fn name(&self) -> (r: &Word)
        ensures
            r@ == self@.name,
    {
        &self.name
    }

    pub fn arguments(&self) -> (r: &Vec<Word>)
        ensures
            r@.map_values(|w: Word| w@) == self@.arguments,
    {
        &self.arguments
    }

    pub fn pipeline(&self) -> (r: Option<&Command>)
        ensures
            match r {
                Some(p) => self@.pipeline == Some(Box::new(p@)),
                None => self@.pipeline is None,
            },
    {
        match &self.pipeline {
            Some(b) => Some(&**b),
            None => None,
        }
    }
}

fn dup_redirect(r: &Redirect<Word>) -> (d: Redirect<Word>)
    ensures
        d@ == r@,
{
    match r {
        Redirect::InFile(p) => Redirect::InFile(p.duplicate()),
        Redirect::OutErr => Redirect::OutErr,
        Redirect::OutFile(p, m) => Redirect::OutFile(p.duplicate(), *m),
        Redirect::ErrOut => Redirect::ErrOut,
        Redirect::ErrFile(p, m) => Redirect::ErrFile(p.duplicate(), *m),
    }
}

impl Command {
    /// A deep copy with the same view.
    pub fn duplicate(&self) -> (r: Command)
        ensures
            r@ == self@,
        decreases *self,
    {
        let name = self.name.duplicate();

        let mut arguments: Vec<Word> = Vec::new();
        let mut i: usize = 0;
        while i < self.arguments.len()
            invariant
                0 <= i <= self.arguments@.len(),
                arguments@.len() == i,
                forall|k: int| 0 <= k < i ==> (#[trigger] arguments@[k])@ == self.arguments@[k]@,
            decreases self.arguments@.len() - i,
        {
            arguments.push(self.arguments[i].duplicate());
            i += 1;
        }

        let mut redirects: Vec<Redirect<Word>> = Vec::new();
        let mut j: usize = 0;
        while j < self.redirects.len()
            invariant
                0 <= j <= self.redirects@.len(),
                redirects@.len() == j,
                forall|k: int| 0 <= k < j ==> (#[trigger] redirects@[k])@ == self.redirects@[k]@,
            decreases self.redirects@.len() - j,
        {
            redirects.push(dup_redirect(&self.redirects[j]));
            j += 1;
        }

        let mut env: Vec<NameValuePair> = Vec::new();
        let mut k: usize = 0;
        while k < self.env.len()
            invariant
                0 <= k <= self.env@.len(),
                env@.len() == k,
                forall|t: int| 0 <= t < k ==> (#[trigger] env@[t])@ == self.env@[t]@,
            decreases self.env@.len() - k,
        {
            env.push(self.env[k].duplicate());
            k += 1;
        }

        let pipeline = match &self.pipeline {
            Some(b) => Some(Box::new(b.duplicate())),
            None => None,
        };

        let r = Command { name, arguments, redirects, env, pipeline };
        proof {
            assert(r@.arguments =~= self@.arguments);
            assert(r@.redirects =~= self@.redirects);
            assert(r@.env =~= self@.env);
        }
        r
    }
}

/// A command with every word expanded to raw bytes, ready to hand to the
/// process spawner.
#[derive(Debug, PartialEq)]
pub struct ExpandedCommand {
    name: Vec<u8>,
    arguments: Vec<Vec<u8>>,
    redirects: Vec<Redirect<Vec<u8>>>,
    env: Vec<(Vec<u8>, Vec<u8>)>,
    pipeline: Option<Box<ExpandedCommand>>,
}

/// Mathematical image of an `ExpandedCommand`.
pub struct ExpandedCommandView {
    pub name: Seq<u8>,
    pub arguments: Seq<Seq<u8>>,
    pub redirects: Seq<Redirect<Seq<u8>>>,
    pub env: Seq<(Seq<u8>, Seq<u8>)>,
    pub pipeline: Option<Box<ExpandedCommandView>>,
}

pub closed spec fn expanded_command_view(c: ExpandedCommand) -> ExpandedCommandView
    decreases c,
{
    ExpandedCommandView {
        name: c.name@,
        arguments: c.arguments@.map_values(|w: Vec<u8>| w@),
        redirects: c.redirects@.map_values(|r: Redirect<Vec<u8>>| r@),
        env: c.env@.map_values(|p: (Vec<u8>, Vec<u8>)| (p.0@, p.1@)),
        pipeline: match c.pipeline {
            Some(b) => Some(Box::new(expanded_command_view(*b))),
            None => None,
        },
    }
}

impl View for ExpandedCommand {
    type V = ExpandedCommandView;

    open spec fn view(&self) -> ExpandedCommandView {
        expanded_command_view(*self)
    }
}

impl ExpandedCommand {
    pub fn name(&self) -> (r: &Vec<u8>)
        ensures
            r@ == self@.name,
    {
        &self.name
    }

    pub fn arguments(&self) -> (r: &Vec<Vec<u8>>)
        ensures
            r@.map_values(|w: Vec<u8>| w@) == self@.arguments,
    {
        &self.arguments
    }

    pub fn redirects(&self) -> (r: &Vec<Redirect<Vec<u8>>>)
        ensures
            r@.map_values(|rd: Redirect<Vec<u8>>| rd@) == self@.redirects,
    {
        &self.redirects
    }

    pub fn pipeline(&self) -> (r: Option<&ExpandedCommand>)
        ensures
            match r {
                Some(p) => self@.pipeline == Some(Box::new(p@)),
                None => self@.pipeline is None,
            },
    {
        match &self.pipeline {
            Some(b) => Some(&**b),
            None => None,
        }
    }
}

fn dup_byte_redirect(r: &Redirect<Vec<u8>>) -> (d: Redirect<Vec<u8>>)
    ensures
        d@ == r@,
{
    match r {
        Redirect::InFile(p) => Redirect::InFile(copy_bytes(p.as_slice())),
        Redirect::OutErr => Redirect::OutErr,
        Redirect::OutFile(p, m) => Redirect::OutFile(copy_bytes(p.as_slice()), *m),
        Redirect::ErrOut => Redirect::ErrOut,
        Redirect::ErrFile(p, m) => Redirect::ErrFile(copy_bytes(p.as_slice()), *m),
    }
}

impl ExpandedCommand {
    /// A deep copy with the same view.
    pub fn duplicate(&self) -> (r: ExpandedCommand)
        ensures
            r@ == self@,
        decreases *self,
    {
        let name = copy_bytes(self.name.as_slice());

        let mut arguments: Vec<Vec<u8>> = Vec::new();
        let mut i: usize = 0;
        while i < self.arguments.len()
            invariant
                0 <= i <= self.arguments@.len(),
                arguments@.len() == i,
                forall|k: int| 0 <= k < i ==> (#[trigger] arguments@[k])@ == self.arguments@[k]@,
            decreases self.arguments@.len() - i,
        {
            arguments.push(copy_bytes(self.arguments[i].as_slice()));
            i += 1;
        }

        let mut redirects: Vec<Redirect<Vec<u8>>> = Vec::new();
        let mut j: usize = 0;
        while j < self.redirects.len()
            invariant
                0 <= j <= self.redirects@.len(),
                redirects@.len() == j,
                forall|k: int| 0 <= k < j ==> (#[trigger] redirects@[k])@ == self.redirects@[k]@,
            decreases self.redirects@.len() - j,
        {
            redirects.push(dup_byte_redirect(&self.redirects[j]));
            j += 1;
        }

        let mut env: Vec<(Vec<u8>, Vec<u8>)> = Vec::new();
        let mut k: usize = 0;
        while k < self.env.len()
            invariant
                0 <= k <= self.env@.len(),
                env@.len() == k,
                forall|t: int|
                    0 <= t < k ==> (#[trigger] env@[t]).0@ == self.env@[t].0@ && env@[t].1@
                        == self.env@[t].1@,
            decreases self.env@.len() - k,
        {
            env.push(
                (copy_bytes(self.env[k].0.as_slice()), copy_bytes(self.env[k].1.as_slice())),
            );
            k += 1;
        }

        let pipeline = match &self.pipeline {
            Some(b) => Some(Box::new(b.duplicate())),
            None => None,
        };

        let r = ExpandedCommand { name, arguments, redirects, env, pipeline };
        proof {
            assert(r@.arguments =~= self@.arguments);
            assert(r@.redirects =~= self@.redirects);
            assert(r@.env =~= self@.env);
        }
        r
    }
}

/// One word of `c` could expand through the result of a password-database
/// lookup.
pub open spec fn command_needs_user_lookup(c: CommandView) -> bool
    decreases c,
{
    ||| word_needs_user_lookup(c.name)
    ||| exists|i: int| 0 <= i < c.arguments.len() && word_needs_user_lookup(#[trigger] c.arguments[i])
    ||| exists|i: int|
        0 <= i < c.redirects.len() && (match #[trigger] c.redirects[i] {
            Redirect::InFile(p) => word_needs_user_lookup(p),
            Redirect::OutFile(p, _) => word_needs_user_lookup(p),
            Redirect::ErrFile(p, _) => word_needs_user_lookup(p),
            Redirect::OutErr => false,
            Redirect::ErrOut => false,
        })
    ||| exists|i: int| 0 <= i < c.env.len() && word_needs_user_lookup(#[trigger] c.env[i].value)
    ||| match c.pipeline {
        Some(p) => command_needs_user_lookup(*p),
        None => false,
    }
}

/// Some word of `c` is unquoted, so expanding it reads `HOME`.
pub open spec fn command_has_unquoted(c: CommandView) -> bool
    decreases c,
{
    ||| c.name.quote is None
    ||| exists|i: int| 0 <= i < c.arguments.len() && (#[trigger] c.arguments[i]).quote is None
    ||| exists|i: int|
        0 <= i < c.redirects.len() && (match #[trigger] c.redirects[i] {
            Redirect::InFile(p) => p.quote is None,
            Redirect::OutFile(p, _) => p.quote is None,
            Redirect::ErrFile(p, _) => p.quote is None,
            Redirect::OutErr => false,
            Redirect::ErrOut => false,
        })
    ||| exists|i: int| 0 <= i < c.env.len() && (#[trigger] c.env[i].value).quote is None
    ||| match c.pipeline {
        Some(p) => command_has_unquoted(*p),
        None => false,
    }
}

/// `v` is a possible expansion of `w`, for some answer of the password
/// database.
pub open spec fn word_expands_to(w: WordView, env: Seq<VarView>, v: Seq<u8>) -> bool {
    exists|lu: Option<Seq<u8>>|
        expand_word_spec(w, env, lu) == Ok::<Seq<u8>, ExpandErrorView>(v)
}

pub open spec fn redirect_expands_to(
    r: Redirect<WordView>,
    env: Seq<VarView>,
    er: Redirect<Seq<u8>>,
) -> bool {
    match (r, er) {
        (Redirect::InFile(p), Redirect::InFile(q)) => word_expands_to(p, env, q),
        (Redirect::OutErr, Redirect::OutErr) => true,
        (Redirect::OutFile(p, m), Redirect::OutFile(q, m2)) => m == m2 && word_expands_to(
            p,
            env,
            q,
        ),
        (Redirect::ErrOut, Redirect::ErrOut) => true,
        (Redirect::ErrFile(p, m), Redirect::ErrFile(q, m2)) => m == m2 && word_expands_to(
            p,
            env,
            q,
        ),
        _ => false,
    }
}

/// `e` is a possible expansion of `c`: every word of `e` is a possible
/// expansion of the corresponding word of `c`, assignment names are kept
/// as they are, and the pipeline is expanded recursively.
pub open spec fn command_expands_to(
    c: CommandView,
    env: Seq<VarView>,
    e: ExpandedCommandView,
) -> bool
    decreases c,
{
    &&& word_expands_to(c.name, env, e.name)
    &&& e.arguments.len() == c.arguments.len()
    &&& forall|i: int|
        0 <= i < c.arguments.len() ==> word_expands_to(
            c.arguments[i],
            env,
            #[trigger] e.arguments[i],
        )
    &&& e.redirects.len() == c.redirects.len()
    &&& forall|i: int|
        0 <= i < c.redirects.len() ==> redirect_expands_to(
            c.redirects[i],
            env,
            #[trigger] e.redirects[i],
        )
    &&& e.env.len() == c.env.len()
    &&& forall|i: int|
        0 <= i < c.env.len() ==> (#[trigger] e.env[i]).0 == c.env[i].name.value
            && word_expands_to(c.env[i].value, env, e.env[i].1)
    &&& match (c.pipeline, e.pipeline) {
        (Some(cp), Some(ep)) => command_expands_to(*cp, env, *ep),
        (None, None) => true,
        _ => false,
    }
}

/// Expansion of a word list, left to right, first error wins; no word
/// consults the password database.
pub open spec fn expand_words_spec(ws: Seq<WordView>, env: Seq<VarView>) -> Result<
    Seq<Seq<u8>>,
    ExpandErrorView,
>
    decreases ws.len(),
{
    if ws.len() == 0 {
        Ok(Seq::empty())
    } else {
        match expand_words_spec(ws.drop_last(), env) {
            Ok(rest) => match expand_word_spec(ws.last(), env, None) {
                Ok(v) => Ok(rest.push(v)),
                Err(e) => Err(e),
            },
            Err(e) => Err(e),
        }
    }
}

pub open spec fn expand_redirect_spec(r: Redirect<WordView>, env: Seq<VarView>) -> Result<
    Redirect<Seq<u8>>,
    ExpandErrorView,
> {
    match r {
        Redirect::InFile(p) => match expand_word_spec(p, env, None) {
            Ok(v) => Ok(Redirect::InFile(v)),
            Err(e) => Err(e),
        },
        Redirect::OutErr => Ok(Redirect::OutErr),
        Redirect::OutFile(p, m) => match expand_word_spec(p, env, None) {
            Ok(v) => Ok(Redirect::OutFile(v, m)),
            Err(e) => Err(e),
        },
        Redirect::ErrOut => Ok(Redirect::ErrOut),
        Redirect::ErrFile(p, m) => match expand_word_spec(p, env, None) {
            Ok(v) => Ok(Redirect::ErrFile(v, m)),
            Err(e) => Err(e),
        },
    }
}

pub open spec fn expand_redirects_spec(rs: Seq<Redirect<WordView>>, env: Seq<VarView>) -> Result<
    Seq<Redirect<Seq<u8>>>,
    ExpandErrorView,
>
    decreases rs.len(),
{
    if rs.len() == 0 {
        Ok(Seq::empty())
    } else {
        match expand_redirects_spec(rs.drop_last(), env) {
            Ok(rest) => match expand_redirect_spec(rs.last(), env) {
                Ok(v) => Ok(rest.push(v)),
                Err(e) => Err(e),
            },
            Err(e) => Err(e),
        }
    }
}

pub open spec fn expand_pairs_spec(ps: Seq<NameValuePairView>, env: Seq<VarView>) -> Result<
    Seq<(Seq<u8>, Seq<u8>)>,
    ExpandErrorView,
>
    decreases ps.len(),
{
    if ps.len() == 0 {
        Ok(Seq::empty())
    } else {
        match expand_pairs_spec(ps.drop_last(), env) {
            Ok(rest) => match expand_word_spec(ps.last().value, env, None) {
                Ok(v) => Ok(rest.push((ps.last().name.value, v))),
                Err(e) => Err(e),
            },
            Err(e) => Err(e),
        }
    }
}

/// Full expansion of a command when no word names a `~user`: name, then
/// arguments, redirect paths and assignment values in order, then the
/// pipeline successor; the first error wins.
pub open spec fn expand_command_spec(c: CommandView, env: Seq<VarView>) -> Result<
    ExpandedCommandView,
    ExpandErrorView,
>
    decreases c,
{
    match expand_word_spec(c.name, env, None) {
        Err(e) => Err(e),
        Ok(name) => match expand_words_spec(c.arguments, env) {
            Err(e) => Err(e),
            Ok(args) => match expand_redirects_spec(c.redirects, env) {
                Err(e) => Err(e),
                Ok(rds) => match expand_pairs_spec(c.env, env) {
                    Err(e) => Err(e),
                    Ok(envps) => match c.pipeline {
                        None => Ok(
                            ExpandedCommandView {
                                name,
                                arguments: args,
                                redirects: rds,
                                env: envps,
                                pipeline: None,
                            },
                        ),
                        Some(p) => match expand_command_spec(*p, env) {
                            Ok(ep) => Ok(
                                ExpandedCommandView {
                                    name,
                                    arguments: args,
                                    redirects: rds,
                                    env: envps,
                                    pipeline: Some(Box::new(ep)),
                                },
                            ),
                            Err(e) => Err(e),
                        },
                    },
                },
            },
        },
    }
}

proof fn lemma_expand_words_err(ws: Seq<WordView>, env: Seq<VarView>, i: int, e: ExpandErrorView)
    requires
        0 <= i < ws.len(),
        expand_words_spec(ws.take(i), env) is Ok,
        expand_word_spec(ws[i], env, None) == Err::<Seq<u8>, ExpandErrorView>(e),
    ensures
        expand_words_spec(ws, env) == Err::<Seq<Seq<u8>>, ExpandErrorView>(e),
    decreases ws.len(),
{
    if ws.len() == i + 1 {
        assert(ws.drop_last() =~= ws.take(i));
        assert(ws.last() == ws[i]);
    } else {
        assert(ws.drop_last().take(i) =~= ws.take(i));
        assert(ws.drop_last()[i] == ws[i]);
        lemma_expand_words_err(ws.drop_last(), env, i, e);
    }
}

proof fn lemma_expand_redirects_err(
    rs: Seq<Redirect<WordView>>,
    env: Seq<VarView>,
    i: int,
    e: ExpandErrorView,
)
    requires
        0 <= i < rs.len(),
        expand_redirects_spec(rs.take(i), env) is Ok,
        expand_redirect_spec(rs[i], env) == Err::<Redirect<Seq<u8>>, ExpandErrorView>(e),
    ensures
        expand_redirects_spec(rs, env) == Err::<Seq<Redirect<Seq<u8>>>, ExpandErrorView>(e),
    decreases rs.len(),
{
    if rs.len() == i + 1 {
        assert(rs.drop_last() =~= rs.take(i));
        assert(rs.last() == rs[i]);
    } else {
        assert(rs.drop_last().take(i) =~= rs.take(i));
        assert(rs.drop_last()[i] == rs[i]);
        lemma_expand_redirects_err(rs.drop_last(), env, i, e);
    }
}

proof fn lemma_expand_pairs_err(
    ps: Seq<NameValuePairView>,
    env: Seq<VarView>,
    i: int,
    e: ExpandErrorView,
)
    requires
        0 <= i < ps.len(),
        expand_pairs_spec(ps.take(i), env) is Ok,
        expand_word_spec(ps[i].value, env, None) == Err::<Seq<u8>, ExpandErrorView>(e),
    ensures
        expand_pairs_spec(ps, env) == Err::<Seq<(Seq<u8>, Seq<u8>)>, ExpandErrorView>(e),
    decreases ps.len(),
{
    if ps.len() == i + 1 {
        assert(ps.drop_last() =~= ps.take(i));
        assert(ps.last() == ps[i]);
    } else {
        assert(ps.drop_last().take(i) =~= ps.take(i));
        assert(ps.drop_last()[i] == ps[i]);
        lemma_expand_pairs_err(ps.drop_last(), env, i, e);
    }
}

fn expand_words(ws: &Vec<Word>, environment: &Environment) -> (r: Result<Vec<Vec<u8>>, ExpandError>)
    requires
        (exists|j: int|
            0 <= j < ws@.len() && (#[trigger] ws@[j])@.quote is None) ==> env_lookup(
            environment@,
            home_name(),
        ) is Some,
    ensures
        match r {
            Ok(vs) => {
                &&& vs@.len() == ws@.len()
                &&& forall|i: int|
                    0 <= i < ws@.len() ==> word_expands_to(
                        ws@[i]@,
                        environment@,
                        (#[trigger] vs@[i])@,
                    )
                &&& (forall|i: int|
                    0 <= i < ws@.len() ==> !word_needs_user_lookup(
                        (#[trigger] ws@[i])@,
                    )) ==> expand_words_spec(
                    ws@.map_values(|w: Word| w@),
                    environment@,
                ) == Ok::<Seq<Seq<u8>>, ExpandErrorView>(vs@.map_values(|v: Vec<u8>| v@))
            },
            Err(e) => (forall|i: int|
                0 <= i < ws@.len() ==> !word_needs_user_lookup((#[trigger] ws@[i])@))
                ==> expand_words_spec(ws@.map_values(|w: Word| w@), environment@) == Err::<
                Seq<Seq<u8>>,
                ExpandErrorView,
            >(e@),
        },
{
    let ghost wsv = ws@.map_values(|w: Word| w@);
    let mut vs: Vec<Vec<u8>> = Vec::new();
    let mut i: usize = 0;
    proof {
        assert(wsv.take(0) =~= Seq::<WordView>::empty());
        assert(vs@.map_values(|v: Vec<u8>| v@) =~= Seq::<Seq<u8>>::empty());
    }
    while i < ws.len()
        invariant
            0 <= i <= ws@.len(),
            wsv == ws@.map_values(|w: Word| w@),
            (exists|j: int|
                0 <= j < ws@.len() && (#[trigger] ws@[j])@.quote is None) ==> env_lookup(
                environment@,
                home_name(),
            ) is Some,
            vs@.len() == i,
            forall|k: int|
                0 <= k < i ==> word_expands_to(ws@[k]@, environment@, (#[trigger] vs@[k])@),
            (forall|k: int| 0 <= k < i ==> !word_needs_user_lookup((#[trigger] ws@[k])@))
                ==> expand_words_spec(wsv.take(i as int), environment@) == Ok::<
                Seq<Seq<u8>>,
                ExpandErrorView,
            >(vs@.map_values(|v: Vec<u8>| v@)),
        decreases ws@.len() - i,
    {
        let w = &ws[i];
        match w.expand(environment) {
            Ok(v) => {
                let ghost old_vs = vs@;
                vs.push(v);
                proof {
                    assert(vs@.map_values(|v: Vec<u8>| v@) =~= old_vs.map_values(
                        |v: Vec<u8>| v@,
                    ).push(v@));
                    assert(wsv.take(i + 1).drop_last() =~= wsv.take(i as int));
                    assert(wsv.take(i + 1).last() == wsv[i as int]);
                }
            },
            Err(e) => {
                proof {
                    if forall|k: int|
                        0 <= k < ws@.len() ==> !word_needs_user_lookup((#[trigger] ws@[k])@) {
                        lemma_expand_words_err(wsv, environment@, i as int, e@);
                    }
                }
                return Err(e);
            },
        }
        i += 1;
    }
    proof {
        assert(wsv.take(wsv.len() as int) =~= wsv);
    }
    Ok(vs)
}

fn expand_one_redirect(rd: &Redirect<Word>, environment: &Environment) -> (r: Result<
    Redirect<Vec<u8>>,
    ExpandError,
>)
    requires
        (match rd@ {
            Redirect::InFile(p) => p.quote is None,
            Redirect::OutFile(p, _) => p.quote is None,
            Redirect::ErrFile(p, _) => p.quote is None,
            Redirect::OutErr => false,
            Redirect::ErrOut => false,
        }) ==> env_lookup(environment@, home_name()) is Some,
    ensures
        match r {
            Ok(er) => redirect_expands_to(rd@, environment@, er@),
            Err(_) => true,
        },
        !(match rd@ {
            Redirect::InFile(p) => word_needs_user_lookup(p),
            Redirect::OutFile(p, _) => word_needs_user_lookup(p),
            Redirect::ErrFile(p, _) => word_needs_user_lookup(p),
            Redirect::OutErr => false,
            Redirect::ErrOut => false,
        }) ==> (match (r, expand_redirect_spec(rd@, environment@)) {
            (Ok(er), Ok(se)) => er@ == se,
            (Err(e), Err(se)) => e@ == se,
            _ => false,
        }),
{
    match rd {
        Redirect::InFile(p) => match p.expand(environment) {
            Ok(v) => Ok(Redirect::InFile(v)),
            Err(e) => Err(e),
        },
        Redirect::OutErr => Ok(Redirect::OutErr),
        Redirect::OutFile(p, m) => match p.expand(environment) {
            Ok(v) => Ok(Redirect::OutFile(v, *m)),
            Err(e) => Err(e),
        },
        Redirect::ErrOut => Ok(Redirect::ErrOut),
        Redirect::ErrFile(p, m) => match p.expand(environment) {
            Ok(v) => Ok(Redirect::ErrFile(v, *m)),
            Err(e) => Err(e),
        },
    }
}

fn expand_redirects(rs: &Vec<Redirect<Word>>, environment: &Environment) -> (r: Result<
    Vec<Redirect<Vec<u8>>>,
    ExpandError,
>)
    requires
        (exists|j: int|
            0 <= j < rs@.len() && (match (#[trigger] rs@[j])@ {
                Redirect::InFile(p) => p.quote is None,
                Redirect::OutFile(p, _) => p.quote is None,
                Redirect::ErrFile(p, _) => p.quote is None,
                Redirect::OutErr => false,
                Redirect::ErrOut => false,
            })) ==> env_lookup(environment@, home_name()) is Some,
    ensures
        match r {
            Ok(ers) => {
                &&& ers@.len() == rs@.len()
                &&& forall|i: int|
                    0 <= i < rs@.len() ==> redirect_expands_to(
                        rs@[i]@,
                        environment@,
                        (#[trigger] ers@[i])@,
                    )
                &&& (forall|i: int|
                    0 <= i < rs@.len() ==> !(match (#[trigger] rs@[i])@ {
                        Redirect::InFile(p) => word_needs_user_lookup(p),
                        Redirect::OutFile(p, _) => word_needs_user_lookup(p),
                        Redirect::ErrFile(p, _) => word_needs_user_lookup(p),
                        Redirect::OutErr => false,
                        Redirect::ErrOut => false,
                    })) ==> expand_redirects_spec(
                    rs@.map_values(|rd: Redirect<Word>| rd@),
                    environment@,
                ) == Ok::<Seq<Redirect<Seq<u8>>>, ExpandErrorView>(
                    ers@.map_values(|er: Redirect<Vec<u8>>| er@),
                )
            },
            Err(e) => (forall|i: int|
                0 <= i < rs@.len() ==> !(match (#[trigger] rs@[i])@ {
                    Redirect::InFile(p) => word_needs_user_lookup(p),
                    Redirect::OutFile(p, _) => word_needs_user_lookup(p),
                    Redirect::ErrFile(p, _) => word_needs_user_lookup(p),
                    Redirect::OutErr => false,
                    Redirect::ErrOut => false,
                })) ==> expand_redirects_spec(
                rs@.map_values(|rd: Redirect<Word>| rd@),
                environment@,
            ) == Err::<Seq<Redirect<Seq<u8>>>, ExpandErrorView>(e@),
        },
{
    let ghost rsv = rs@.map_values(|rd: Redirect<Word>| rd@);
    let mut ers: Vec<Redirect<Vec<u8>>> = Vec::new();
    let mut i: usize = 0;
    proof {
        assert(rsv.take(0) =~= Seq::<Redirect<WordView>>::empty());
        assert(ers@.map_values(|er: Redirect<Vec<u8>>| er@) =~= Seq::<
            Redirect<Seq<u8>>,
        >::empty());
    }
    while i < rs.len()
        invariant
            0 <= i <= rs@.len(),
            rsv == rs@.map_values(|rd: Redirect<Word>| rd@),
            (exists|j: int|
                0 <= j < rs@.len() && (match (#[trigger] rs@[j])@ {
                    Redirect::InFile(p) => p.quote is None,
                    Redirect::OutFile(p, _) => p.quote is None,
                    Redirect::ErrFile(p, _) => p.quote is None,
                    Redirect::OutErr => false,
                    Redirect::ErrOut => false,
                })) ==> env_lookup(environment@, home_name()) is Some,
            ers@.len() == i,
            forall|k: int|
                0 <= k < i ==> redirect_expands_to(rs@[k]@, environment@, (#[trigger] ers@[k])@),
            (forall|k: int|
                0 <= k < i ==> !(match (#[trigger] rs@[k])@ {
                    Redirect::InFile(p) => word_needs_user_lookup(p),
                    Redirect::OutFile(p, _) => word_needs_user_lookup(p),
                    Redirect::ErrFile(p, _) => word_needs_user_lookup(p),
                    Redirect::OutErr => false,
                    Redirect::ErrOut => false,
                })) ==> expand_redirects_spec(rsv.take(i as int), environment@) == Ok::<
                Seq<Redirect<Seq<u8>>>,
                ExpandErrorView,
            >(ers@.map_values(|er: Redirect<Vec<u8>>| er@)),
        decreases rs@.len() - i,
    {
        let rd = &rs[i];
        match expand_one_redirect(rd, environment) {
            Ok(er) => {
                let ghost old_ers = ers@;
                ers.push(er);
                proof {
                    assert(ers@.map_values(|er: Redirect<Vec<u8>>| er@) =~= old_ers.map_values(
                        |er: Redirect<Vec<u8>>| er@,
                    ).push(er@));
                    assert(rsv.take(i + 1).drop_last() =~= rsv.take(i as int));
                    assert(rsv.take(i + 1).last() == rsv[i as int]);
                }
            },
            Err(e) => {
                proof {
                    if forall|k: int|
                        0 <= k < rs@.len() ==> !(match (#[trigger] rs@[k])@ {
                            Redirect::InFile(p) => word_needs_user_lookup(p),
                            Redirect::OutFile(p, _) => word_needs_user_lookup(p),
                            Redirect::ErrFile(p, _) => word_needs_user_lookup(p),
                            Redirect::OutErr => false,
                            Redirect::ErrOut => false,
                        }) {
                        lemma_expand_redirects_err(rsv, environment@, i as int, e@);
                    }
                }
                return Err(e);
            },
        }
        i += 1;
    }
    proof {
        assert(rsv.take(rsv.len() as int) =~= rsv);
    }
    Ok(ers)
}

fn expand_pairs(ps: &Vec<NameValuePair>, environment: &Environment) -> (r: Result<
    Vec<(Vec<u8>, Vec<u8>)>,
    ExpandError,
>)
    requires
        (exists|j: int|
            0 <= j < ps@.len() && (#[trigger] ps@[j])@.value.quote is None) ==> env_lookup(
            environment@,
            home_name(),
        ) is Some,
    ensures
        match r {
            Ok(vs) => {
                &&& vs@.len() == ps@.len()
                &&& forall|i: int|
                    0 <= i < ps@.len() ==> (#[trigger] vs@[i]).0@ == ps@[i]@.name.value
                        && word_expands_to(ps@[i]@.value, environment@, vs@[i].1@)
                &&& (forall|i: int|
                    0 <= i < ps@.len() ==> !word_needs_user_lookup(
                        (#[trigger] ps@[i])@.value,
                    )) ==> expand_pairs_spec(
                    ps@.map_values(|p: NameValuePair| p@),
                    environment@,
                ) == Ok::<Seq<(Seq<u8>, Seq<u8>)>, ExpandErrorView>(
                    vs@.map_values(|v: (Vec<u8>, Vec<u8>)| (v.0@, v.1@)),
                )
            },
            Err(e) => (forall|i: int|
                0 <= i < ps@.len() ==> !word_needs_user_lookup((#[trigger] ps@[i])@.value))
                ==> expand_pairs_spec(ps@.map_values(|p: NameValuePair| p@), environment@)
                == Err::<Seq<(Seq<u8>, Seq<u8>)>, ExpandErrorView>(e@),
        },
{
    let ghost psv = ps@.map_values(|p: NameValuePair| p@);
    let mut vs: Vec<(Vec<u8>, Vec<u8>)> = Vec::new();
    let mut i: usize = 0;
    proof {
        assert(psv.take(0) =~= Seq::<NameValuePairView>::empty());
        assert(vs@.map_values(|v: (Vec<u8>, Vec<u8>)| (v.0@, v.1@)) =~= Seq::<
            (Seq<u8>, Seq<u8>),
        >::empty());
    }
    while i < ps.len()
        invariant
            0 <= i <= ps@.len(),
            psv == ps@.map_values(|p: NameValuePair| p@),
            (exists|j: int|
                0 <= j < ps@.len() && (#[trigger] ps@[j])@.value.quote is None) ==> env_lookup(
                environment@,
                home_name(),
            ) is Some,
            vs@.len() == i,
            forall|k: int|
                0 <= k < i ==> (#[trigger] vs@[k]).0@ == ps@[k]@.name.value && word_expands_to(
                    ps@[k]@.value,
                    environment@,
                    vs@[k].1@,
                ),
            (forall|k: int| 0 <= k < i ==> !word_needs_user_lookup((#[trigger] ps@[k])@.value))
                ==> expand_pairs_spec(psv.take(i as int), environment@) == Ok::<
                Seq<(Seq<u8>, Seq<u8>)>,
                ExpandErrorView,
            >(vs@.map_values(|v: (Vec<u8>, Vec<u8>)| (v.0@, v.1@))),
        decreases ps@.len() - i,
    {
        let p = &ps[i];
        match p.value.expand(environment) {
            Ok(v) => {
                let name = copy_bytes(p.name.as_bytes());
                let ghost old_vs = vs@;
                vs.push((name, v));
                proof {
                    assert(vs@.map_values(|v: (Vec<u8>, Vec<u8>)| (v.0@, v.1@)) =~= old_vs
                        .map_values(|v: (Vec<u8>, Vec<u8>)| (v.0@, v.1@)).push(
                        (p@.name.value, v@),
                    ));
                    assert(psv.take(i + 1).drop_last() =~= psv.take(i as int));
                    assert(psv.take(i + 1).last() == psv[i as int]);
                }
            },
            Err(e) => {
                proof {
                    if forall|k: int|
                        0 <= k < ps@.len() ==> !word_needs_user_lookup(
                            (#[trigger] ps@[k])@.value,
                        ) {
                        lemma_expand_pairs_err(psv, environment@, i as int, e@);
                    }
                }
                return Err(e);
            },
        }
        i += 1;
    }
    proof {
        assert(psv.take(psv.len() as int) =~= psv);
    }
    Ok(vs)
}

pub open spec fn expanded_result_matches(
    r: Result<ExpandedCommand, ExpandError>,
    s: Result<ExpandedCommandView, ExpandErrorView>,
) -> bool {
    match (r, s) {
        (Ok(e), Ok(se)) => e@ == se,
        (Err(e), Err(se)) => e@ == se,
        _ => false,
    }
}

impl Command {
    /// Expands every word of this command (and of its pipeline successors)
    /// against the environment.
    pub fn expand(&self, environment: &Environment) -> (r: Result<ExpandedCommand, ExpandError>)
        requires
            command_has_unquoted(self@) ==> env_lookup(environment@, home_name()) is Some,
        ensures
            match r {
                Ok(e) => command_expands_to(self@, environment@, e@),
                Err(_) => true,
            },
            !command_needs_user_lookup(self@) ==> expanded_result_matches(
                r,
                expand_command_spec(self@, environment@),
            ),
        decreases *self,
    {
        proof {
            if exists|j: int|
                0 <= j < self.arguments@.len() && (#[trigger] self.arguments@[j])@.quote
                    is None {
                let j = choose|j: int|
                    0 <= j < self.arguments@.len() && (#[trigger] self.arguments@[j])@.quote
                        is None;
                assert((#[trigger] self@.arguments[j]).quote is None);
            }
            if exists|j: int|
                0 <= j < self.redirects@.len() && (match (#[trigger] self.redirects@[j])@ {
                    Redirect::InFile(p) => p.quote is None,
                    Redirect::OutFile(p, _) => p.quote is None,
                    Redirect::ErrFile(p, _) => p.quote is None,
                    Redirect::OutErr => false,
                    Redirect::ErrOut => false,
                }) {
                let j = choose|j: int|
                    0 <= j < self.redirects@.len() && (match (#[trigger] self.redirects@[j])@ {
                        Redirect::InFile(p) => p.quote is None,
                        Redirect::OutFile(p, _) => p.quote is None,
                        Redirect::ErrFile(p, _) => p.quote is None,
                        Redirect::OutErr => false,
                        Redirect::ErrOut => false,
                    });
                assert(match #[trigger] self@.redirects[j] {
                    Redirect::InFile(p) => p.quote is None,
                    Redirect::OutFile(p, _) => p.quote is None,
                    Redirect::ErrFile(p, _) => p.quote is None,
                    Redirect::OutErr => false,
                    Redirect::ErrOut => false,
                });
            }
            if exists|j: int|
                0 <= j < self.env@.len() && (#[trigger] self.env@[j])@.value.quote is None {
                let j = choose|j: int|
                    0 <= j < self.env@.len() && (#[trigger] self.env@[j])@.value.quote is None;
                assert((#[trigger] self@.env[j]).value.quote is None);
            }
        }
        proof {
            if !command_needs_user_lookup(self@) {
                assert forall|k: int| 0 <= k < self.arguments@.len() implies !word_needs_user_lookup(
                    (#[trigger] self.arguments@[k])@,
                ) by {
                    assert(self@.arguments[k] == self.arguments@[k]@);
                }
                assert forall|k: int| 0 <= k < self.redirects@.len() implies !(match (
                #[trigger] self.redirects@[k])@ {
                    Redirect::InFile(p) => word_needs_user_lookup(p),
                    Redirect::OutFile(p, _) => word_needs_user_lookup(p),
                    Redirect::ErrFile(p, _) => word_needs_user_lookup(p),
                    Redirect::OutErr => false,
                    Redirect::ErrOut => false,
                }) by {
                    assert(self@.redirects[k] == self.redirects@[k]@);
                }
                assert forall|k: int| 0 <= k < self.env@.len() implies !word_needs_user_lookup(
                    (#[trigger] self.env@[k])@.value,
                ) by {
                    assert(self@.env[k] == self.env@[k]@);
                }
            }
        }
        let name = match self.name.expand(environment) {
            Ok(v) => v,
            Err(e) => {
                return Err(e);
            },
        };
        let arguments = match expand_words(&self.arguments, environment) {
            Ok(v) => v,
            Err(e) => {
                return Err(e);
            },
        };
        let redirects = match expand_redirects(&self.redirects, environment) {
            Ok(v) => v,
            Err(e) => {
                return Err(e);
            },
        };
        let env = match expand_pairs(&self.env, environment) {
            Ok(v) => v,
            Err(e) => {
                return Err(e);
            },
        };
        let pipeline = match &self.pipeline {
            Some(b) => match b.expand(environment) {
                Ok(p) => Some(Box::new(p)),
                Err(e) => {
                    return Err(e);
                },
            },
            None => None,
        };
        Ok(ExpandedCommand { name, arguments, redirects, env, pipeline })
    }
}

pub const COLON: u8 = 58;

/// One `name=value` entry of a child's environment array.
pub open spec fn format_env_pair(name: Seq<u8>, value: Seq<u8>) -> Seq<u8> {
    name + seq![crate::word::EQUALS] + value
}

/// Builds one `name=value` entry.
pub fn pair_to_execv(name: &[u8], value: &[u8]) -> (r: Vec<u8>)
    ensures
        r@ == format_env_pair(name@, value@),
{
    let mut buf = copy_bytes(name);
    buf.push(crate::word::EQUALS);
    crate::expand::append_bytes(&mut buf, value);
    proof {
        assert(buf@ =~= format_env_pair(name@, value@));
    }
    buf
}

/// Views of a list of byte vectors.
pub open spec fn byte_views(s: Seq<Vec<u8>>) -> Seq<Seq<u8>> {
    s.map_values(|v: Vec<u8>| v@)
}

/// The exec request for one command: an exact path when the name holds a
/// `/`, else a name to be searched along `PATH`. Arguments carry the name
/// first; the environment array holds the exported variables and then the
/// command-scoped ones, so that the latter win.
pub enum Execv {
    Exact(Vec<u8>, Vec<Vec<u8>>, Vec<Vec<u8>>),
    Relative(Vec<u8>, Vec<Vec<u8>>, Vec<Vec<u8>>),
}

/// What the argument and environment arrays of an exec request hold.
pub open spec fn execv_arrays_ok(
    e: ExpandedCommandView,
    exported: Seq<(Seq<u8>, Seq<u8>)>,
    argv: Seq<Vec<u8>>,
    envp: Seq<Vec<u8>>,
) -> bool {
    &&& argv.len() == 1 + e.arguments.len()
    &&& argv[0]@ == e.name
    &&& forall|t: int| 0 <= t < e.arguments.len() ==> (#[trigger] argv[t + 1])@ == e.arguments[t]
    &&& envp.len() == exported.len() + e.env.len()
    &&& forall|t: int|
        0 <= t < exported.len() ==> (#[trigger] envp[t])@ == format_env_pair(
            exported[t].0,
            exported[t].1,
        )
    &&& forall|t: int|
        0 <= t < e.env.len() ==> (#[trigger] envp[exported.len() + t])@ == format_env_pair(
            e.env[t].0,
            e.env[t].1,
        )
}

impl ExpandedCommand {
    /// Turns this command into an exec request against the exported
    /// environment.
    pub fn into_execv(self, environment: &Environment) -> (r: Execv)
        ensures
            match r {
                Execv::Exact(path, argv, envp) => {
                    &&& crate::word::find_byte(self@.name, crate::expand::SLASH) is Some
                    &&& path@ == self@.name
                    &&& execv_arrays_ok(
                        self@,
                        crate::environment::exported_pairs(environment@),
                        argv@,
                        envp@,
                    )
                },
                Execv::Relative(name, argv, envp) => {
                    &&& crate::word::find_byte(self@.name, crate::expand::SLASH) is None
                    &&& name@ == self@.name
                    &&& execv_arrays_ok(
                        self@,
                        crate::environment::exported_pairs(environment@),
                        argv@,
                        envp@,
                    )
                },
            },
    {
        let ghost ev = self@;
        let mut argv: Vec<Vec<u8>> = Vec::new();
        argv.push(copy_bytes(self.name.as_slice()));
        let mut i: usize = 0;
        while i < self.arguments.len()
            invariant
                0 <= i <= self.arguments@.len(),
                ev == self@,
                ev.arguments.len() == self.arguments@.len(),
                argv@.len() == 1 + i,
                argv@[0]@ == ev.name,
                forall|t: int| 0 <= t < i ==> (#[trigger] argv@[t + 1])@ == ev.arguments[t],
            decreases self.arguments@.len() - i,
        {
            argv.push(copy_bytes(self.arguments[i].as_slice()));
            proof {
                assert(ev.arguments[i as int] == self.arguments@[i as int]@);
            }
            i += 1;
        }

        let exported = environment.iter_exported();
        let ghost expv = crate::environment::exported_pairs(environment@);
        proof {
            assert forall|t: int| 0 <= t < exported@.len() implies ((#[trigger] exported@[t]).0@,
                exported@[t].1@) == expv[t] by {
                assert(exported@.map_values(|p: (Vec<u8>, Vec<u8>)| (p.0@, p.1@))[t] == expv[t]);
            }
            assert(exported@.len() == expv.len());
        }
        let mut envp: Vec<Vec<u8>> = Vec::new();
        let mut j: usize = 0;
        while j < exported.len()
            invariant
                0 <= j <= exported@.len(),
                exported@.len() == expv.len(),
                forall|t: int|
                    0 <= t < exported@.len() ==> ((#[trigger] exported@[t]).0@, exported@[t].1@)
                        == expv[t],
                envp@.len() == j,
                forall|t: int|
                    0 <= t < j ==> (#[trigger] envp@[t])@ == format_env_pair(
                        expv[t].0,
                        expv[t].1,
                    ),
            decreases exported@.len() - j,
        {
            let entry = pair_to_execv(exported[j].0.as_slice(), exported[j].1.as_slice());
            envp.push(entry);
            j += 1;
        }

        let mut k: usize = 0;
        while k < self.env.len()
            invariant
                0 <= k <= self.env@.len(),
                ev == self@,
                ev.env.len() == self.env@.len(),
                expv == crate::environment::exported_pairs(environment@),
                envp@.len() == expv.len() + k,
                forall|t: int|
                    0 <= t < expv.len() ==> (#[trigger] envp@[t])@ == format_env_pair(
                        expv[t].0,
                        expv[t].1,
                    ),
                forall|t: int|
                    0 <= t < k ==> (#[trigger] envp@[expv.len() + t])@ == format_env_pair(
                        ev.env[t].0,
                        ev.env[t].1,
                    ),
            decreases self.env@.len() - k,
        {
            let entry = pair_to_execv(self.env[k].0.as_slice(), self.env[k].1.as_slice());
            envp.push(entry);
            proof {
                assert(ev.env[k as int] == (self.env@[k as int].0@, self.env@[k as int].1@));
            }
            k += 1;
        }

        match crate::word::find_byte_in(self.name.as_slice(), crate::expand::SLASH) {
            Some(_) => Execv::Exact(self.name, argv, envp),
            None => Execv::Relative(self.name, argv, envp),
        }
    }
}

/// `PATH` split on `:`, empty entries kept, as the host's exec search
/// does.
pub open spec fn split_path_spec(s: Seq<u8>) -> Seq<Seq<u8>>
    decreases s.len(),
    via split_path_spec_decreases
{
    match crate::word::find_byte(s, COLON) {
        None => seq![s],
        Some(p) => seq![s.take(p)] + split_path_spec(s.skip(p + 1)),
    }
}

#[via_fn]
proof fn split_path_spec_decreases(s: Seq<u8>) {
    crate::word::lemma_find_byte(s, COLON);
}

/// The path a directory entry and a command name make: joined with `/`
/// unless the directory is empty or already ends in one.
pub open spec fn candidate_spec(dir: Seq<u8>, name: Seq<u8>) -> Seq<u8> {
    if dir.len() == 0 {
        name
    } else if dir.last() == crate::expand::SLASH {
        dir + name
    } else {
        dir + seq![crate::expand::SLASH] + name
    }
}

/// The candidates a directory list and a name make.
pub open spec fn candidates_of(ds: Seq<Seq<u8>>, name: Seq<u8>) -> Seq<Seq<u8>> {
    ds.map_values(|d: Seq<u8>| candidate_spec(d, name))
}

fn make_candidate(dir: &[u8], name: &[u8]) -> (r: Vec<u8>)
    ensures
        r@ == candidate_spec(dir@, name@),
{
    if dir.len() == 0 {
        return copy_bytes(name);
    }
    let mut r = copy_bytes(dir);
    if dir[dir.len() - 1] != crate::expand::SLASH {
        r.push(crate::expand::SLASH);
    }
    crate::expand::append_bytes(&mut r, name);
    proof {
        assert(r@ =~= candidate_spec(dir@, name@));
    }
    r
}

/// Every path at which the host would be asked to exec `name`: one
/// candidate per `PATH` entry, in order.
pub fn path_candidates(path: &[u8], name: &[u8]) -> (r: Vec<Vec<u8>>)
    ensures
        byte_views(r@) == candidates_of(split_path_spec(path@), name@),
{
    let ghost goal = candidates_of(split_path_spec(path@), name@);
    let mut r: Vec<Vec<u8>> = Vec::new();
    let mut start: usize = 0;
    proof {
        assert(path@.skip(0) =~= path@);
        assert(byte_views(r@) + candidates_of(split_path_spec(path@.skip(0)), name@) =~= goal);
    }
    loop
        invariant
            0 <= start <= path@.len(),
            goal == candidates_of(split_path_spec(path@), name@),
            byte_views(r@) + candidates_of(split_path_spec(path@.skip(start as int)), name@)
                == goal,
        decreases path@.len() - start + 1,
    {
        let rest = &path[start..path.len()];
        proof {
            assert(rest@ =~= path@.skip(start as int));
        }
        match crate::word::find_byte_in(rest, COLON) {
            Some(p) => {
                proof {
                    crate::word::lemma_find_byte(rest@, COLON);
                }
                let seg = &rest[0..p];
                proof {
                    assert(seg@ =~= rest@.take(p as int));
                }
                let ghost r0 = r@;
                let cand = make_candidate(seg, name);
                let ghost cv = cand@;
                r.push(cand);
                proof {
                    assert(rest@.skip(p + 1) =~= path@.skip(start + p + 1));
                    assert(byte_views(r@) =~= byte_views(r0).push(cv));
                    assert(candidates_of(split_path_spec(rest@), name@) =~= seq![cv]
                        + candidates_of(split_path_spec(path@.skip(start + p + 1)), name@));
                    assert(byte_views(r@) + candidates_of(
                        split_path_spec(path@.skip(start + p + 1)),
                        name@,
                    ) =~= goal);
                }
                start = start + p + 1;
            },
            None => {
                let ghost r0 = r@;
                let cand = make_candidate(rest, name);
                let ghost cv = cand@;
                r.push(cand);
                proof {
                    assert(byte_views(r@) =~= byte_views(r0).push(cv));
                    assert(candidates_of(split_path_spec(rest@), name@) =~= seq![cv]);
                    assert(byte_views(r@) =~= goal);
                }
                return r;
            },
        }
    }
}

} // verus!