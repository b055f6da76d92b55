use vstd::prelude::*;

use crate::ast::{
    block_view, dup_block, Exportable, ExportableView, IfStmt, NameValuePair, NameValuePairView,
    Stmt, StmtView, WhileStmt, WhileStmtView,
};
use crate::command::{
    command_expands_to, command_needs_user_lookup, expand_command_spec, Command, CommandView,
    ExpandedCommand, ExpandedCommandView,
};
use crate::cwd::{cd_commit_model, cd_resolve_spec, CdResolution, Cwd, CwdView};
use crate::environment::{
    assign_model, env_lookup, export_value_model, mark_exported_model, Environment, VarView,
};
use crate::expand::{
    env_value, expand_word_spec, home_name, word_needs_user_lookup, ExpandError, ExpandErrorView,
};
use crate::status::Status;
use crate::word::{copy_bytes, DIGIT_0, DIGIT_9};

verus! {

pub const PLUS: u8 = 43;
pub const MINUS: u8 = 45;

/// The value of a run of ASCII digits, most significant first.
pub open spec fn digits_value(s: Seq<u8>) -> int
    decreases s.len(),
{
    if s.len() == 0 {
        0
    } else {
        digits_value(s.drop_last()) * 10 + (s.last() - DIGIT_0)
    }
}

pub open spec fn all_digits(s: Seq<u8>) -> bool {
    forall|i: int| 0 <= i < s.len() ==> DIGIT_0 <= #[trigger] s[i] <= DIGIT_9
}

/// What a decimal integer literal means: an optional sign, then at least
/// one digit, valued within the 32-bit signed range.
pub open spec fn parse_i32_spec(s: Seq<u8>) -> Option<int> {
    let digits = if s.len() > 0 && (s[0] == PLUS || s[0] == MINUS) {
        s.skip(1)
    } else {
        s
    };
    let neg = s.len() > 0 && s[0] == MINUS;
    if digits.len() == 0 || !all_digits(digits) {
        None
    } else {
        let v = if neg {
            -digits_value(digits)
        } else {
            digits_value(digits)
        };
        if -0x8000_0000 <= v <= 0x7fff_ffff {
            Some(v)
        } else {
            None
        }
    }
}

proof fn lemma_digits_prefix(s: Seq<u8>, k: int)
    requires
        all_digits(s),
        0 <= k <= s.len(),
    ensures
        digits_value(s.take(k)) >= 0,
        digits_value(s) >= digits_value(s.take(k)),
    decreases s.len() - k,
{
    if k == s.len() {
        assert(s.take(k) =~= s);
        lemma_digits_nonneg(s);
    } else {
        lemma_digits_prefix(s, k + 1);
        lemma_digits_nonneg(s.take(k));
        assert(s.take(k + 1).drop_last() =~= s.take(k));
        assert(s.take(k + 1).last() == s[k]);
    }
}

proof fn lemma_digits_nonneg(s: Seq<u8>)
    requires
        all_digits(s),
    ensures
        digits_value(s) >= 0,
    decreases s.len(),
{
    if s.len() > 0 {
        assert forall|i: int| 0 <= i < s.drop_last().len() implies DIGIT_0 <= #[trigger] s
            .drop_last()[i] <= DIGIT_9 by {
            assert(s.drop_last()[i] == s[i]);
        }
        lemma_digits_nonneg(s.drop_last());
        assert(s.last() == s[s.len() - 1]);
    }
}

/// Parses a decimal 32-bit integer, as `exit`'s argument is read.
pub fn parse_i32(s: &[u8]) -> (r: Option<i32>)
    ensures
        match r {
            Some(v) => parse_i32_spec(s@) == Some(v as int),
            None => parse_i32_spec(s@) is None,
        },
{
    let mut start: usize = 0;
    let mut neg = false;
    if s.len() > 0 && (s[0] == PLUS || s[0] == MINUS) {
        neg = s[0] == MINUS;
        start = 1;
    }
    let ghost digits = s@.skip(start as int);
    proof {
        if start == 0 {
            assert(s@.skip(0) =~= s@);
        }
    }
    if start == s.len() {
        proof {
            assert(digits.len() == 0);
        }
        return None;
    }
    let mut acc: u64 = 0;
    let mut j: usize = start;
    while j < s.len()
        invariant
            start <= j <= s@.len(),
            start <= 1,
            digits == s@.skip(start as int),
            neg == (s@.len() > 0 && s@[0] == MINUS),
            (start == 1) == (s@.len() > 0 && (s@[0] == PLUS || s@[0] == MINUS)),
            forall|k: int| 0 <= k < j - start ==> DIGIT_0 <= #[trigger] digits[k] <= DIGIT_9,
            acc == digits_value(digits.take(j - start)),
            acc <= 0x8000_0000,
        decreases s@.len() - j,
    {
        let b = s[j];
        proof {
            assert(digits[j - start] == s@[j as int]);
        }
        if b < DIGIT_0 || b > DIGIT_9 {
            proof {
                assert(!all_digits(digits));
            }
            return None;
        }
        acc = acc * 10 + ((b - DIGIT_0) as u64);
        proof {
            assert(digits.take(j - start + 1).drop_last() =~= digits.take(j - start));
            assert(digits.take(j - start + 1).last() == digits[j - start]);
        }
        if acc > 0x8000_0000 {
            proof {
                assert(digits == (if s@.len() > 0 && (s@[0] == PLUS || s@[0] == MINUS) {
                    s@.skip(1)
                } else {
                    s@
                }));
                if all_digits(digits) {
                    lemma_digits_prefix(digits, j - start + 1);
                    assert(acc == digits_value(digits.take(j - start + 1)));
                    assert(digits_value(digits) > 0x8000_0000);
                }
                assert(parse_i32_spec(s@) is None);
            }
            return None;
        }
        j += 1;
    }
    proof {
        assert(digits.take(s@.len() - start) =~= digits);
        assert(all_digits(digits));
    }
    if neg {
        if acc == 0x8000_0000 {
            Some(i32::MIN)
        } else {
            proof {
                assert(acc < 0x8000_0000);
            }
            Some(-(acc as i32))
        }
    } else {
        if acc <= 0x7fff_ffff {
            Some(acc as i32)
        } else {
            None
        }
    }
}

pub open spec fn kw_cd() -> Seq<u8> {
    seq![99u8, 100u8]
}

pub open spec fn kw_exit() -> Seq<u8> {
    seq![101u8, 120u8, 105u8, 116u8]
}

/// How a command name is dispatched.
#[derive(Clone, Copy, Debug, PartialEq, Eq, Structural)]
pub enum BuiltinKind {
    Cd,
    Exit,
    External,
}

pub open spec fn builtin_of_spec(name: Seq<u8>) -> BuiltinKind {
    if name == kw_cd() {
        BuiltinKind::Cd
    } else if name == kw_exit() {
        BuiltinKind::Exit
    } else {
        BuiltinKind::External
    }
}

pub fn builtin_of(name: &[u8]) -> (r: BuiltinKind)
    ensures
        r == builtin_of_spec(name@),
{
    let mut cd: Vec<u8> = Vec::new();
    cd.push(99);
    cd.push(100);
    proof {
        assert(cd@ =~= kw_cd());
    }
    if crate::environment::compare_bytes(name, cd.as_slice()) {
        return BuiltinKind::Cd;
    }
    let mut exit_kw: Vec<u8> = Vec::new();
    exit_kw.push(101);
    exit_kw.push(120);
    exit_kw.push(105);
    exit_kw.push(116);
    proof {
        assert(exit_kw@ =~= kw_exit());
    }
    if crate::environment::compare_bytes(name, exit_kw.as_slice()) {
        return BuiltinKind::Exit;
    }
    BuiltinKind::External
}

/// What the `exit` builtin decides from its (expanded) arguments.
#[derive(Clone, Copy, Debug, PartialEq, Eq, Structural)]
pub enum ExitDecision {
    TooManyArguments,
    Exit { code: i32, bad_numeric: bool },
}

/// Zero arguments exit 0; one argument exits with its decimal value, or
/// with 2 after a complaint when it is not numeric; more are refused.
pub open spec fn exit_decision_spec(args: Seq<Seq<u8>>) -> ExitDecision {
    if args.len() > 1 {
        ExitDecision::TooManyArguments
    } else if args.len() == 0 {
        ExitDecision::Exit { code: 0, bad_numeric: false }
    } else {
        match parse_i32_spec(args[0]) {
            Some(v) => ExitDecision::Exit { code: v as i32, bad_numeric: false },
            None => ExitDecision::Exit { code: 2, bad_numeric: true },
        }
    }
}

pub fn exit_decision(args: &Vec<Vec<u8>>) -> (r: ExitDecision)
    ensures
        r == exit_decision_spec(args@.map_values(|a: Vec<u8>| a@)),
{
    let ghost argsv = args@.map_values(|a: Vec<u8>| a@);
    if args.len() > 1 {
        return ExitDecision::TooManyArguments;
    }
    if args.len() == 0 {
        return ExitDecision::Exit { code: 0, bad_numeric: false };
    }
    proof {
        assert(argsv[0] == args@[0]@);
    }
    match parse_i32(args[0].as_slice()) {
        Some(v) => {
            proof {
                assert(parse_i32_spec(argsv[0]) == Some(v as int));
                assert(v as int == v as i32 as int);
            }
            ExitDecision::Exit { code: v, bad_numeric: false }
        },
        None => ExitDecision::Exit { code: 2, bad_numeric: true },
    }
}

/// A builtin misuse that is reported and survived.
#[derive(Clone, Copy, Debug, PartialEq, Eq, Structural)]
pub enum BuiltinError {
    CdTooManyArguments,
    ExitTooManyArguments,
}

/// Whether an outstanding command result will steer a branch or is a
/// plain statement's.
#[derive(Clone, Copy, Debug, PartialEq, Eq, Structural)]
pub enum Purpose {
    Statement,
    Test,
}

/// What the machine is waiting on.
#[derive(Clone, Copy, Debug, PartialEq, Eq, Structural)]
pub enum Waiting {
    Idle,
    Command(Purpose),
    Chdir(Purpose),
    Diag(Purpose),
    Exited,
}

/// What the surroundings report back.
pub enum Event {
    /// The first call, before any action.
    Start,
    /// The status of the pipeline the last `Run` action spawned.
    CommandDone(Status),
    /// The canonical new directory after a successful `chdir`, or `None`
    /// when it failed (and the error was printed).
    ChdirDone(Option<Vec<u8>>),
    /// The last diagnostic has been printed.
    Acked,
}

/// What the shell asks its surroundings to do.
pub enum Action {
    /// Spawn this pipeline and report its status.
    Run(ExpandedCommand),
    /// Change directory to this path; canonicalize and report.
    Chdir(Vec<u8>),
    /// Print the diagnostic for this misuse, then ack.
    Diagnose(BuiltinError),
    /// Exit the shell with `code`, after complaining about a non-numeric
    /// argument when `bad_numeric` holds.
    Exit { code: i32, bad_numeric: bool },
}

/// A statement-level failure that aborts the current program.
#[derive(Debug, PartialEq)]
pub enum ShellError {
    /// A word failed to expand.
    Expand(ExpandError),
    /// `cd` composed into a pipeline, which the shell refuses.
    CdInPipeline,
}

enum Frame {
    /// A block with the index of its next statement.
    Block(Vec<Stmt>, usize),
    /// An `if` whose test is outstanding.
    If(Vec<Stmt>, Option<Vec<Stmt>>),
    /// A `while`; the flag says its test is outstanding.
    While(WhileStmt, bool),
}

/// Mathematical image of a frame.
pub enum FrameView {
    Block(Seq<StmtView>, int),
    If(Seq<StmtView>, Option<Seq<StmtView>>),
    While(WhileStmtView, bool),
}

spec fn frame_view(f: Frame) -> FrameView {
    match f {
        Frame::Block(stmts, idx) => FrameView::Block(block_view(stmts@), idx as int),
        Frame::If(cons, alt) => FrameView::If(
            block_view(cons@),
            match alt {
                Some(a) => Some(block_view(a@)),
                None => None,
            },
        ),
        Frame::While(st, testing) => FrameView::While(
            WhileStmtView { test: st.test@, body: block_view(st.body@) },
            testing,
        ),
    }
}

/// A frame that may sit below the top of the stack: plain block work or a
/// `while` whose body is running.
pub open spec fn resting_frame(f: FrameView) -> bool {
    match f {
        FrameView::Block(stmts, idx) => 0 <= idx <= stmts.len(),
        FrameView::If(_, _) => false,
        FrameView::While(_, testing) => !testing,
    }
}

pub open spec fn test_frame(f: FrameView) -> bool {
    match f {
        FrameView::If(_, _) => true,
        FrameView::While(_, testing) => testing,
        FrameView::Block(_, _) => false,
    }
}

/// Which purpose an outstanding wait serves, if any.
pub open spec fn purpose_of(w: Waiting) -> Option<Purpose> {
    match w {
        Waiting::Idle => None,
        Waiting::Command(p) => Some(p),
        Waiting::Chdir(p) => Some(p),
        Waiting::Diag(p) => Some(p),
        Waiting::Exited => None,
    }
}

pub open spec fn event_matches(w: Waiting, e: Event) -> bool {
    match (w, e) {
        (Waiting::Idle, Event::Start) => true,
        (Waiting::Command(_), Event::CommandDone(_)) => true,
        (Waiting::Chdir(_), Event::ChdirDone(_)) => true,
        (Waiting::Diag(_), Event::Acked) => true,
        _ => false,
    }
}

/// The status an event reports: a failed `chdir` and an acked diagnostic
/// count as failure.
pub open spec fn event_status(e: Event) -> Status {
    match e {
        Event::Start => Status::Success,
        Event::CommandDone(s) => s,
        Event::ChdirDone(o) => if o is Some {
            Status::Success
        } else {
            Status::Failure
        },
        Event::Acked => Status::Failure,
    }
}

/// How a test's status steers the stack: an `if` is replaced by the taken
/// branch; a successful `while` test queues the body and keeps the loop,
/// a failed one discards it.
pub open spec fn test_branch(frames: Seq<FrameView>, s: Status) -> Seq<FrameView> {
    if frames.len() == 0 {
        frames
    } else {
        let base = frames.drop_last();
        match frames.last() {
            FrameView::If(cons, alt) => if s == Status::Success {
                base.push(FrameView::Block(cons, 0))
            } else {
                match alt {
                    Some(a) => base.push(FrameView::Block(a, 0)),
                    None => base,
                }
            },
            FrameView::While(w, _) => if s == Status::Success {
                base.push(FrameView::While(w, false)).push(FrameView::Block(w.body, 0))
            } else {
                base
            },
            FrameView::Block(_, _) => frames,
        }
    }
}

/// What one step of the machine did.
pub enum Step {
    /// Every frame is finished.
    Done,
    /// Internal work ran (an assignment, an export, or a finished block
    /// was popped): nothing for the surroundings yet.
    Again,
    /// The surroundings must perform this action and report an event.
    Act(Action),
}

/// The environment after a list of assignments whose values expand
/// without the password database; the first failing expansion wins.
pub open spec fn assign_seq_spec(pre: Seq<VarView>, pairs: Seq<NameValuePairView>) -> Result<
    Seq<VarView>,
    ExpandErrorView,
>
    decreases pairs.len(),
{
    if pairs.len() == 0 {
        Ok(pre)
    } else {
        match expand_word_spec(pairs[0].value, pre, None) {
            Ok(v) => assign_seq_spec(assign_model(pre, pairs[0].name.value, v), pairs.skip(1)),
            Err(e) => Err(e),
        }
    }
}

/// The same for an `export` list: a valued item is expanded and bound
/// exported, a bare one marks its name exported.
pub open spec fn export_seq_spec(pre: Seq<VarView>, es: Seq<ExportableView>) -> Result<
    Seq<VarView>,
    ExpandErrorView,
>
    decreases es.len(),
{
    if es.len() == 0 {
        Ok(pre)
    } else {
        match es[0].value {
            Some(w) => match expand_word_spec(w, pre, None) {
                Ok(v) => export_seq_spec(export_value_model(pre, es[0].name.value, v), es.skip(1)),
                Err(e) => Err(e),
            },
            None => export_seq_spec(mark_exported_model(pre, es[0].name.value), es.skip(1)),
        }
    }
}

/// Some assigned value could expand through the password database.
pub open spec fn pairs_need_lookup(ps: Seq<NameValuePairView>) -> bool {
    exists|j: int| 0 <= j < ps.len() && word_needs_user_lookup((#[trigger] ps[j]).value)
}

pub open spec fn exports_need_lookup(es: Seq<ExportableView>) -> bool {
    exists|j: int|
        0 <= j < es.len() && (match (#[trigger] es[j]).value {
            Some(w) => word_needs_user_lookup(w),
            None => false,
        })
}

/// How a finished assignment list relates the environments: only the
/// assigned names changed, each of them is now bound, and when no value
/// consults the password database the result is exactly `assign_seq_spec`.
pub open spec fn assigned_ok(
    pre: Seq<VarView>,
    post: Seq<VarView>,
    ps: Seq<NameValuePairView>,
) -> bool {
    &&& forall|n: Seq<u8>|
        #![trigger env_lookup(post, n)]
        env_lookup(post, n) != env_lookup(pre, n) ==> exists|j: int|
            0 <= j < ps.len() && (#[trigger] ps[j]).name.value == n
    &&& forall|j: int|
        0 <= j < ps.len() ==> env_lookup(post, (#[trigger] ps[j]).name.value) is Some
    &&& !pairs_need_lookup(ps) ==> assign_seq_spec(pre, ps) == Ok::<
        Seq<VarView>,
        ExpandErrorView,
    >(post)
}

/// The same for an export list.
pub open spec fn exported_seq_ok(
    pre: Seq<VarView>,
    post: Seq<VarView>,
    es: Seq<ExportableView>,
) -> bool {
    &&& forall|n: Seq<u8>|
        #![trigger env_lookup(post, n)]
        env_lookup(post, n) != env_lookup(pre, n) ==> exists|j: int|
            0 <= j < es.len() && (#[trigger] es[j]).name.value == n
    &&& forall|j: int|
        0 <= j < es.len() ==> env_lookup(post, (#[trigger] es[j]).name.value) is Some
    &&& !exports_need_lookup(es) ==> export_seq_spec(pre, es) == Ok::<
        Seq<VarView>,
        ExpandErrorView,
    >(post)
}

/// What the machine waits on after handing out `a`.
pub open spec fn waiting_for(a: Action, testing: bool) -> Waiting {
    let p = if testing {
        Purpose::Test
    } else {
        Purpose::Statement
    };
    match a {
        Action::Run(_) => Waiting::Command(p),
        Action::Chdir(_) => Waiting::Chdir(p),
        Action::Diagnose(_) => Waiting::Diag(p),
        Action::Exit { .. } => Waiting::Exited,
    }
}

/// The action one expanded command decides: its name picks the builtin,
/// `cd` resolves its target against the tracker, `exit` reads its code,
/// anything else is an external spawn.
pub open spec fn action_matches(
    e: ExpandedCommandView,
    env: Seq<VarView>,
    cwd: CwdView,
    a: Action,
) -> bool {
    match builtin_of_spec(e.name) {
        BuiltinKind::Cd => e.pipeline is None && (match cd_resolve_spec(
            cwd,
            env_value(env, home_name()),
            e.arguments,
        ) {
            Some(p) => (match a {
                Action::Chdir(q) => q@ == p,
                _ => false,
            }),
            None => (match a {
                Action::Diagnose(b) => b == BuiltinError::CdTooManyArguments,
                _ => false,
            }),
        }),
        BuiltinKind::Exit => (match exit_decision_spec(e.arguments) {
            ExitDecision::TooManyArguments => (match a {
                Action::Diagnose(b) => b == BuiltinError::ExitTooManyArguments,
                _ => false,
            }),
            ExitDecision::Exit { code, bad_numeric } => (match a {
                Action::Exit { code: c, bad_numeric: b } => c == code && b == bad_numeric,
                _ => false,
            }),
        }),
        BuiltinKind::External => (match a {
            Action::Run(re) => re@ == e,
            _ => false,
        }),
    }
}

/// Which results deciding `c` may produce: some possible expansion of `c`
/// decides the action, or is a `cd` inside a pipeline (refused), or a
/// word failed to expand.
pub open spec fn decide_rel(
    c: CommandView,
    env: Seq<VarView>,
    cwd: CwdView,
    r: Result<Action, ShellError>,
) -> bool {
    match r {
        Ok(a) => exists|e: ExpandedCommandView|
            command_expands_to(c, env, e) && !(builtin_of_spec(e.name) == BuiltinKind::Cd
                && e.pipeline is Some) && action_matches(e, env, cwd, a),
        Err(ShellError::CdInPipeline) => exists|e: ExpandedCommandView|
            command_expands_to(c, env, e) && builtin_of_spec(e.name) == BuiltinKind::Cd
                && e.pipeline is Some,
        Err(ShellError::Expand(_)) => true,
    }
}

/// The exact result of deciding `c` when none of its words names a
/// `~user`: expansion per `expand_command_spec`, then the builtin rules.
pub open spec fn decide_exact(
    c: CommandView,
    env: Seq<VarView>,
    cwd: CwdView,
    r: Result<Action, ShellError>,
) -> bool {
    match expand_command_spec(c, env) {
        Err(e) => (match r {
            Err(ShellError::Expand(err)) => err@ == e,
            _ => false,
        }),
        Ok(e) => if builtin_of_spec(e.name) == BuiltinKind::Cd && e.pipeline is Some {
            (match r {
                Err(ShellError::CdInPipeline) => true,
                _ => false,
            })
        } else {
            (match r {
                Ok(a) => action_matches(e, env, cwd, a),
                _ => false,
            })
        },
    }
}

/// What one idle step does, by the shape of the frame stack: an empty
/// stack is done; a finished block is popped; an assignment or export
/// list runs against the environment; a command statement (or an
/// `if`/`while` test, whose frame is pushed) decides the next action and
/// what the machine then waits on.
pub open spec fn step_case_ok(
    pre_frames: Seq<FrameView>,
    pre_env: Seq<VarView>,
    cwd: CwdView,
    post_frames: Seq<FrameView>,
    post_env: Seq<VarView>,
    post_waiting: Waiting,
    r: Result<Step, ShellError>,
) -> bool {
    if pre_frames.len() == 0 {
        &&& (match r {
            Ok(Step::Done) => true,
            _ => false,
        })
        &&& post_frames == pre_frames
        &&& post_env == pre_env
        &&& post_waiting == Waiting::Idle
    } else {
        let base = pre_frames.drop_last();
        match pre_frames.last() {
            FrameView::Block(stmts, idx) => if idx >= stmts.len() {
                &&& (match r {
                    Ok(Step::Again) => true,
                    _ => false,
                })
                &&& post_frames == base
                &&& post_env == pre_env
                &&& post_waiting == Waiting::Idle
            } else {
                let advanced = base.push(FrameView::Block(stmts, idx + 1));
                match stmts[idx] {
                    StmtView::Assignment(ps) => {
                        &&& post_frames == advanced
                        &&& (match r {
                            Ok(Step::Again) => post_waiting == Waiting::Idle && assigned_ok(
                                pre_env,
                                post_env,
                                ps,
                            ),
                            Err(ShellError::Expand(e)) => post_waiting == Waiting::Idle && (
                            !pairs_need_lookup(ps) ==> assign_seq_spec(pre_env, ps) == Err::<
                                Seq<VarView>,
                                ExpandErrorView,
                            >(e@)),
                            _ => false,
                        })
                    },
                    StmtView::Export(es) => {
                        &&& post_frames == advanced
                        &&& (match r {
                            Ok(Step::Again) => post_waiting == Waiting::Idle && exported_seq_ok(
                                pre_env,
                                post_env,
                                es,
                            ),
                            Err(ShellError::Expand(e)) => post_waiting == Waiting::Idle && (
                            !exports_need_lookup(es) ==> export_seq_spec(pre_env, es) == Err::<
                                Seq<VarView>,
                                ExpandErrorView,
                            >(e@)),
                            _ => false,
                        })
                    },
                    StmtView::Command(c) => {
                        &&& post_frames == advanced
                        &&& post_env == pre_env
                        &&& (match r {
                            Ok(Step::Act(a)) => decide_rel(c, pre_env, cwd, Ok(a))
                                && post_waiting == waiting_for(a, false) && (
                            !command_needs_user_lookup(c) ==> decide_exact(
                                c,
                                pre_env,
                                cwd,
                                Ok(a),
                            )),
                            Err(e) => decide_rel(c, pre_env, cwd, Err(e)) && post_waiting
                                == Waiting::Idle && (!command_needs_user_lookup(c)
                                ==> decide_exact(c, pre_env, cwd, Err(e))),
                            _ => false,
                        })
                    },
                    StmtView::If(iv) => {
                        &&& post_env == pre_env
                        &&& (match r {
                            Ok(Step::Act(a)) => post_frames == advanced.push(
                                FrameView::If(iv.consequent, iv.alternate),
                            ) && decide_rel(iv.test, pre_env, cwd, Ok(a)) && post_waiting
                                == waiting_for(a, true) && (!command_needs_user_lookup(iv.test)
                                ==> decide_exact(iv.test, pre_env, cwd, Ok(a))),
                            Err(e) => post_frames == advanced && decide_rel(
                                iv.test,
                                pre_env,
                                cwd,
                                Err(e),
                            ) && post_waiting == Waiting::Idle && (!command_needs_user_lookup(
                                iv.test,
                            ) ==> decide_exact(iv.test, pre_env, cwd, Err(e))),
                            _ => false,
                        })
                    },
                    StmtView::While(wv) => {
                        &&& post_env == pre_env
                        &&& (match r {
                            Ok(Step::Act(a)) => post_frames == advanced.push(
                                FrameView::While(wv, true),
                            ) && decide_rel(wv.test, pre_env, cwd, Ok(a)) && post_waiting
                                == waiting_for(a, true) && (!command_needs_user_lookup(wv.test)
                                ==> decide_exact(wv.test, pre_env, cwd, Ok(a))),
                            Err(e) => post_frames == advanced && decide_rel(
                                wv.test,
                                pre_env,
                                cwd,
                                Err(e),
                            ) && post_waiting == Waiting::Idle && (!command_needs_user_lookup(
                                wv.test,
                            ) ==> decide_exact(wv.test, pre_env, cwd, Err(e))),
                            _ => false,
                        })
                    },
                }
            },
            FrameView::While(wv, _) => {
                &&& post_env == pre_env
                &&& (match r {
                    Ok(Step::Act(a)) => post_frames == base.push(FrameView::While(wv, true))
                        && decide_rel(wv.test, pre_env, cwd, Ok(a)) && post_waiting
                        == waiting_for(a, true) && (!command_needs_user_lookup(wv.test)
                        ==> decide_exact(wv.test, pre_env, cwd, Ok(a))),
                    Err(e) => post_frames == pre_frames && decide_rel(
                        wv.test,
                        pre_env,
                        cwd,
                        Err(e),
                    ) && post_waiting == Waiting::Idle && (!command_needs_user_lookup(wv.test)
                        ==> decide_exact(wv.test, pre_env, cwd, Err(e))),
                    _ => false,
                })
            },
            FrameView::If(_, _) => false,
        }
    }
}

/// The shell's evaluator: a machine that owns the environment and working
/// directory, walks the program, and at each step hands an `Action` to
/// its surroundings and receives an `Event` back.
pub struct Interpreter {
    frames: Vec<Frame>,
    env: Environment,
    cwd: Cwd,
    waiting: Waiting,
}

impl Interpreter {
    pub closed spec fn frames_view(&self) -> Seq<FrameView> {
        self.frames@.map_values(|f: Frame| frame_view(f))
    }

    pub closed spec fn env_view(&self) -> Seq<VarView> {
        self.env@
    }

    pub closed spec fn cwd_view(&self) -> CwdView {
        self.cwd@
    }

    pub closed spec fn waiting_view(&self) -> Waiting {
        self.waiting
    }

    pub open spec fn wf(&self) -> bool {
        &&& crate::environment::env_wf(self.env_view())
        &&& env_lookup(self.env_view(), home_name()) is Some
        &&& (if self.waiting_view() == Waiting::Exited {
            true
        } else if purpose_of(self.waiting_view()) == Some(Purpose::Test) {
            &&& self.frames_view().len() > 0
            &&& test_frame(self.frames_view().last())
            &&& forall|i: int|
                0 <= i < self.frames_view().len() - 1 ==> resting_frame(
                    #[trigger] self.frames_view()[i],
                )
        } else {
            forall|i: int|
                0 <= i < self.frames_view().len() ==> resting_frame(
                    #[trigger] self.frames_view()[i],
                )
        })
    }

    /// A fresh machine over the given environment and starting directory.
    pub fn new(env: Environment, cwd: Cwd) -> (r: Self)
        requires
            crate::environment::env_wf(env@),
            env_lookup(env@, home_name()) is Some,
        ensures
            r.wf(),
            r.frames_view().len() == 0,
            r.waiting_view() == Waiting::Idle,
            r.env_view() == env@,
            r.cwd_view() == cwd@,
    {
        let r = Self { frames: Vec::new(), env, cwd, waiting: Waiting::Idle };
        proof {
            assert(r.frames_view() =~= Seq::<FrameView>::empty());
        }
        r
    }

    /// Joins a target onto the current directory when it is relative, as
    /// the surroundings need before canonicalizing a completed `cd`.
    pub fn absolutize(&self, target: &[u8]) -> (r: Vec<u8>)
        ensures
            r@ == crate::cwd::absolutize_spec(self.cwd_view().path, target@),
    {
        self.cwd.absolutize(target)
    }

    /// The environment, for building a child's exec request.
    pub fn environment(&self) -> (r: &Environment)
        ensures
            r@ == self.env_view(),
    {
        &self.env
    }

    /// The current directory, for the prompt.
    pub fn cwd(&self) -> (r: &Vec<u8>)
        ensures
            r@ == self.cwd_view().path,
    {
        self.cwd.current()
    }

    /// Begins a program, discarding any unfinished work.
    pub fn start(&mut self, program: Vec<Stmt>)
        requires
            old(self).wf(),
        ensures
            final(self).wf(),
            final(self).waiting_view() == Waiting::Idle,
            final(self).frames_view() =~= seq![
                FrameView::Block(block_view(program@), 0),
            ],
            final(self).env_view() == old(self).env_view(),
            final(self).cwd_view() == old(self).cwd_view(),
    {
        let mut frames: Vec<Frame> = Vec::new();
        frames.push(Frame::Block(program, 0));
        self.frames = frames;
        self.waiting = Waiting::Idle;
        proof {
            assert(self.frames_view() =~= seq![
                FrameView::Block(block_view(self.frames@[0]->Block_0@), 0),
            ]);
        }
    }

    /// Feeds the surroundings' report back into the machine: a test's
    /// status steers its branch, a completed `chdir` is committed, and
    /// the machine becomes idle.
    pub fn apply_event(&mut self, event: Event)
        requires
            old(self).wf(),
            event_matches(old(self).waiting_view(), event),
        ensures
            final(self).wf(),
            final(self).waiting_view() == Waiting::Idle,
            final(self).env_view() == old(self).env_view(),
            (match event {
                Event::ChdirDone(Some(c)) => final(self).cwd_view() == cd_commit_model(
                    old(self).cwd_view(),
                    c@,
                ),
                _ => final(self).cwd_view() == old(self).cwd_view(),
            }),
            final(self).frames_view() == (if purpose_of(old(self).waiting_view()) == Some(
                Purpose::Test,
            ) {
                test_branch(old(self).frames_view(), event_status(event))
            } else {
                old(self).frames_view()
            }),
    {
        let ghost st = event_status(event);
        let w = self.waiting;
        self.waiting = Waiting::Idle;
        let succeeded = match event {
            Event::ChdirDone(opt) => {
                match opt {
                    Some(c) => {
                        self.cwd.commit(c);
                        true
                    },
                    None => false,
                }
            },
            Event::CommandDone(s) => s.is_success(),
            Event::Acked => false,
            Event::Start => true,
        };
        let is_test = match w {
            Waiting::Command(Purpose::Test) => true,
            Waiting::Chdir(Purpose::Test) => true,
            Waiting::Diag(Purpose::Test) => true,
            _ => false,
        };
        if is_test {
            proof {
                assert(st == (if succeeded {
                    Status::Success
                } else {
                    Status::Failure
                }));
            }
            self.apply_branch(succeeded);
        }
    }

    fn apply_branch(&mut self, succeeded: bool)
        requires
            crate::environment::env_wf(old(self).env_view()),
            env_lookup(old(self).env_view(), home_name()) is Some,
            old(self).waiting_view() == Waiting::Idle,
            old(self).frames_view().len() > 0,
            test_frame(old(self).frames_view().last()),
            forall|i: int|
                0 <= i < old(self).frames_view().len() - 1 ==> resting_frame(
                    #[trigger] old(self).frames_view()[i],
                ),
        ensures
            final(self).wf(),
            final(self).waiting_view() == Waiting::Idle,
            final(self).env_view() == old(self).env_view(),
            final(self).cwd_view() == old(self).cwd_view(),
            final(self).frames_view() == test_branch(
                old(self).frames_view(),
                if succeeded {
                    Status::Success
                } else {
                    Status::Failure
                },
            ),
    {
        let ghost fv0 = self.frames_view();
        let frame = match self.frames.pop() {
            Some(f) => f,
            None => vstd::pervasive::unreached(),
        };
        proof {
            assert(self.frames_view() =~= fv0.drop_last());
            assert(frame_view(frame) == fv0.last());
        }
        match frame {
            Frame::If(cons, alt) => {
                if succeeded {
                    let ghost fv1 = self.frames_view();
                    self.frames.push(Frame::Block(cons, 0));
                    proof {
                        assert(self.frames_view() =~= fv1.push(
                            FrameView::Block(block_view(cons@), 0),
                        ));
                        assert(self.frames_view() =~= test_branch(fv0, Status::Success));
                    }
                } else {
                    match alt {
                        Some(a) => {
                            let ghost fv1 = self.frames_view();
                            self.frames.push(Frame::Block(a, 0));
                            proof {
                                assert(self.frames_view() =~= fv1.push(
                                    FrameView::Block(block_view(a@), 0),
                                ));
                                assert(self.frames_view() =~= test_branch(
                                    fv0,
                                    Status::Failure,
                                ));
                            }
                        },
                        None => {
                            proof {
                                assert(self.frames_view() =~= test_branch(
                                    fv0,
                                    Status::Failure,
                                ));
                            }
                        },
                    }
                }
            },
            Frame::While(st, _) => {
                if succeeded {
                    let body = dup_block(&st.body);
                    let ghost fv1 = self.frames_view();
                    let ghost wv = WhileStmtView {
                        test: st.test@,
                        body: block_view(st.body@),
                    };
                    self.frames.push(Frame::While(st, false));
                    proof {
                        assert(self.frames_view() =~= fv1.push(FrameView::While(wv, false)));
                    }
                    let ghost fv2 = self.frames_view();
                    self.frames.push(Frame::Block(body, 0));
                    proof {
                        assert(self.frames_view() =~= fv2.push(
                            FrameView::Block(wv.body, 0),
                        ));
                        assert(self.frames_view() =~= test_branch(fv0, Status::Success));
                    }
                } else {
                    proof {
                        assert(self.frames_view() =~= test_branch(fv0, Status::Failure));
                    }
                }
            },
            Frame::Block(_, _) => {
                // The caller guarantees a test frame on top.
                proof {
                    assert(false);
                }
            },
        }
    }

    /// Performs one idle step: pops a finished block, runs the next
    /// assignment or export list against the environment, or decides the
    /// action for the next command (a statement's own, or an `if`/`while`
    /// test, whose frame is pushed). `step_case_ok` fixes the new frames,
    /// environment, waiting state and result from the old state.
    pub fn step(&mut self) -> (r: Result<Step, ShellError>)
        requires
            old(self).wf(),
            old(self).waiting_view() == Waiting::Idle,
        ensures
            final(self).wf(),
            final(self).cwd_view() == old(self).cwd_view(),
            step_case_ok(
                old(self).frames_view(),
                old(self).env_view(),
                old(self).cwd_view(),
                final(self).frames_view(),
                final(self).env_view(),
                final(self).waiting_view(),
                r,
            ),
    {
        if self.frames.len() == 0 {
            return Ok(Step::Done);
        }
        let ghost fv0 = self.frames_view();
        let ghost fseq0 = self.frames@;
        let frame = match self.frames.pop() {
            Some(f) => f,
            None => vstd::pervasive::unreached(),
        };
        proof {
            assert(self.frames@ =~= fseq0.drop_last());
            assert(self.frames_view() =~= fv0.drop_last());
        }
        match frame {
            Frame::Block(stmts, idx) => {
                proof {
                    assert(frame_view(Frame::Block(stmts, idx)) == fv0.last());
                    assert(resting_frame(fv0.last()));
                    assert(0 <= idx as int <= stmts@.len());
                }
                if idx >= stmts.len() {
                    // This block is finished.
                    return Ok(Step::Again);
                }
                let stmt = stmts[idx].duplicate();
                proof {
                    assert(stmt@ == block_view(stmts@)[idx as int]);
                }
                let ghost fv1 = self.frames_view();
                let ghost fseq1 = self.frames@;
                self.frames.push(Frame::Block(stmts, idx + 1));
                proof {
                    assert(self.frames@.drop_last() =~= fseq1);
                    assert(self.frames_view() =~= fv1.push(frame_view(self.frames@.last())));
                }
                match stmt {
                    Stmt::Assignment(ps) => {
                        match self.run_assignments(ps) {
                            Ok(_) => Ok(Step::Again),
                            Err(e) => Err(e),
                        }
                    },
                    Stmt::Export(es) => {
                        match self.run_exports(es) {
                            Ok(_) => Ok(Step::Again),
                            Err(e) => Err(e),
                        }
                    },
                    Stmt::Command(c) => {
                        match self.decide(c) {
                            Ok(a) => {
                                self.set_waiting(&a, false);
                                Ok(Step::Act(a))
                            },
                            Err(e) => Err(e),
                        }
                    },
                    Stmt::If(st) => {
                        let IfStmt { test, consequent, alternate } = st;
                        let ghost tv = test@;
                        match self.decide(test) {
                            Ok(a) => {
                                let ghost fv2 = self.frames_view();
                                let ghost fseq2 = self.frames@;
                                self.frames.push(Frame::If(consequent, alternate));
                                proof {
                                    assert(self.frames@.drop_last() =~= fseq2);
                                    assert(self.frames_view() =~= fv2.push(
                                        frame_view(self.frames@.last()),
                                    ));
                                }
                                self.set_waiting(&a, true);
                                Ok(Step::Act(a))
                            },
                            Err(e) => Err(e),
                        }
                    },
                    Stmt::While(st) => {
                        let test = st.test.duplicate();
                        let ghost tv = test@;
                        match self.decide(test) {
                            Ok(a) => {
                                let ghost fv2 = self.frames_view();
                                let ghost fseq2 = self.frames@;
                                self.frames.push(Frame::While(st, true));
                                proof {
                                    assert(self.frames@.drop_last() =~= fseq2);
                                    assert(self.frames_view() =~= fv2.push(
                                        frame_view(self.frames@.last()),
                                    ));
                                }
                                self.set_waiting(&a, true);
                                Ok(Step::Act(a))
                            },
                            Err(e) => Err(e),
                        }
                    },
                }
            },
            Frame::While(st, _) => {
                proof {
                    assert(frame_view(Frame::While(st, false)) == fv0.last() || frame_view(
                        Frame::While(st, true),
                    ) == fv0.last());
                    assert(resting_frame(fv0.last()));
                }
                // The body has finished: test again.
                let test = st.test.duplicate();
                let ghost tv = test@;
                match self.decide(test) {
                    Ok(a) => {
                        let ghost fv2 = self.frames_view();
                        let ghost fseq2 = self.frames@;
                        self.frames.push(Frame::While(st, true));
                        proof {
                            assert(self.frames@.drop_last() =~= fseq2);
                            assert(self.frames_view() =~= fv2.push(
                                frame_view(self.frames@.last()),
                            ));
                        }
                        self.set_waiting(&a, true);
                        Ok(Step::Act(a))
                    },
                    Err(e) => {
                        let ghost fv2 = self.frames_view();
                        let ghost fseq2 = self.frames@;
                        self.frames.push(Frame::While(st, false));
                        proof {
                            assert(self.frames@.drop_last() =~= fseq2);
                            assert(self.frames_view() =~= fv2.push(
                                frame_view(self.frames@.last()),
                            ));
                            assert(self.frames_view() =~= fv0);
                        }
                        Err(e)
                    },
                }
            },
            Frame::If(_, _) => {
                // An `if` frame exists only while its test is outstanding,
                // never when the machine is idle.
                proof {
                    assert(resting_frame(fv0.last()));
                    assert(false);
                }
                Ok(Step::Done)
            },
        }
    }

    fn set_waiting(&mut self, a: &Action, testing: bool)
        ensures
            final(self).waiting_view() == waiting_for(*a, testing),
            final(self).frames_view() == old(self).frames_view(),
            final(self).frames@ == old(self).frames@,
            final(self).env_view() == old(self).env_view(),
            final(self).cwd_view() == old(self).cwd_view(),
    {
        let p = if testing {
            Purpose::Test
        } else {
            Purpose::Statement
        };
        self.waiting = match a {
            Action::Run(_) => Waiting::Command(p),
            Action::Chdir(_) => Waiting::Chdir(p),
            Action::Diagnose(_) => Waiting::Diag(p),
            Action::Exit { .. } => Waiting::Exited,
        };
    }

    fn run_assignments(&mut self, ps: Vec<NameValuePair>) -> (r: Result<(), ShellError>)
        requires
            crate::environment::env_wf(old(self).env_view()),
            env_lookup(old(self).env_view(), home_name()) is Some,
        ensures
            crate::environment::env_wf(final(self).env_view()),
            env_lookup(final(self).env_view(), home_name()) is Some,
            final(self).frames@ == old(self).frames@,
            final(self).frames_view() == old(self).frames_view(),
            final(self).cwd_view() == old(self).cwd_view(),
            final(self).waiting_view() == old(self).waiting_view(),
            match r {
                Ok(_) => assigned_ok(
                    old(self).env_view(),
                    final(self).env_view(),
                    ps@.map_values(|p: NameValuePair| p@),
                ),
                Err(ShellError::Expand(e)) => !pairs_need_lookup(
                    ps@.map_values(|p: NameValuePair| p@),
                ) ==> assign_seq_spec(old(self).env_view(), ps@.map_values(|p: NameValuePair| p@))
                    == Err::<Seq<VarView>, ExpandErrorView>(e@),
                Err(_) => false,
            },
    {
        let ghost pre0 = self.env@;
        let ghost psv = ps@.map_values(|p: NameValuePair| p@);
        let mut i: usize = 0;
        proof {
            assert(psv.skip(0) =~= psv);
        }
        while i < ps.len()
            invariant
                0 <= i <= ps@.len(),
                psv == ps@.map_values(|p: NameValuePair| p@),
                crate::environment::env_wf(self.env_view()),
                env_lookup(self.env_view(), home_name()) is Some,
                self.frames@ == old(self).frames@,
                self.frames_view() == old(self).frames_view(),
                self.cwd_view() == old(self).cwd_view(),
                self.waiting_view() == old(self).waiting_view(),
                pre0 == old(self).env_view(),
                forall|n: Seq<u8>|
                    #![trigger env_lookup(self.env@, n)]
                    env_lookup(self.env@, n) != env_lookup(pre0, n) ==> exists|j: int|
                        0 <= j < i && (#[trigger] psv[j]).name.value == n,
                forall|j: int|
                    0 <= j < i ==> env_lookup(self.env@, (#[trigger] psv[j]).name.value) is Some,
                (forall|j: int| 0 <= j < i ==> !word_needs_user_lookup((#[trigger] psv[j]).value))
                    ==> assign_seq_spec(pre0, psv) == assign_seq_spec(
                    self.env@,
                    psv.skip(i as int),
                ),
            decreases ps@.len() - i,
        {
            let ghost env1 = self.env@;
            match self.env.assign(&ps[i]) {
                Ok(_) => {
                    proof {
                        assert(psv[i as int] == ps@[i as int]@);
                        if forall|j: int|
                            0 <= j < i + 1 ==> !word_needs_user_lookup((#[trigger] psv[j]).value) {
                            assert(!word_needs_user_lookup(ps@[i as int]@.value));
                            assert(crate::expand::assign_outcome(
                                Ok(()),
                                env1,
                                self.env@,
                                ps@[i as int]@,
                                None,
                            ));
                            assert(psv.skip(i as int)[0] == psv[i as int]);
                            assert(psv.skip(i as int).skip(1) =~= psv.skip(i + 1));
                        }
                    }
                },
                Err(e) => {
                    proof {
                        if !pairs_need_lookup(psv) {
                            assert(psv[i as int] == ps@[i as int]@);
                            assert(!word_needs_user_lookup(psv[i as int].value));
                            assert(crate::expand::assign_outcome(
                                Err(e),
                                env1,
                                self.env@,
                                ps@[i as int]@,
                                None,
                            ));
                            assert(psv.skip(i as int)[0] == psv[i as int]);
                        }
                    }
                    return Err(ShellError::Expand(e));
                },
            }
            i += 1;
        }
        proof {
            assert(psv.skip(psv.len() as int).len() == 0);
        }
        Ok(())
    }

    fn run_exports(&mut self, es: Vec<Exportable>) -> (r: Result<(), ShellError>)
        requires
            crate::environment::env_wf(old(self).env_view()),
            env_lookup(old(self).env_view(), home_name()) is Some,
        ensures
            crate::environment::env_wf(final(self).env_view()),
            env_lookup(final(self).env_view(), home_name()) is Some,
            final(self).frames@ == old(self).frames@,
            final(self).frames_view() == old(self).frames_view(),
            final(self).cwd_view() == old(self).cwd_view(),
            final(self).waiting_view() == old(self).waiting_view(),
            match r {
                Ok(_) => exported_seq_ok(
                    old(self).env_view(),
                    final(self).env_view(),
                    es@.map_values(|e: Exportable| e@),
                ),
                Err(ShellError::Expand(e)) => !exports_need_lookup(
                    es@.map_values(|x: Exportable| x@),
                ) ==> export_seq_spec(old(self).env_view(), es@.map_values(|x: Exportable| x@))
                    == Err::<Seq<VarView>, ExpandErrorView>(e@),
                Err(_) => false,
            },
    {
        let ghost pre0 = self.env@;
        let ghost esv = es@.map_values(|x: Exportable| x@);
        let mut i: usize = 0;
        proof {
            assert(esv.skip(0) =~= esv);
        }
        while i < es.len()
            invariant
                0 <= i <= es@.len(),
                esv == es@.map_values(|x: Exportable| x@),
                crate::environment::env_wf(self.env_view()),
                env_lookup(self.env_view(), home_name()) is Some,
                self.frames@ == old(self).frames@,
                self.frames_view() == old(self).frames_view(),
                self.cwd_view() == old(self).cwd_view(),
                self.waiting_view() == old(self).waiting_view(),
                pre0 == old(self).env_view(),
                forall|n: Seq<u8>|
                    #![trigger env_lookup(self.env@, n)]
                    env_lookup(self.env@, n) != env_lookup(pre0, n) ==> exists|j: int|
                        0 <= j < i && (#[trigger] esv[j]).name.value == n,
                forall|j: int|
                    0 <= j < i ==> env_lookup(self.env@, (#[trigger] esv[j]).name.value) is Some,
                (forall|j: int|
                    0 <= j < i ==> !(match (#[trigger] esv[j]).value {
                        Some(w) => word_needs_user_lookup(w),
                        None => false,
                    })) ==> export_seq_spec(pre0, esv) == export_seq_spec(
                    self.env@,
                    esv.skip(i as int),
                ),
            decreases es@.len() - i,
        {
            let ghost env1 = self.env@;
            match self.env.export(&es[i]) {
                Ok(_) => {
                    proof {
                        assert(esv[i as int] == es@[i as int]@);
                        if forall|j: int|
                            0 <= j < i + 1 ==> !(match (#[trigger] esv[j]).value {
                                Some(w) => word_needs_user_lookup(w),
                                None => false,
                            }) {
                            assert(crate::expand::export_outcome(
                                Ok(()),
                                env1,
                                self.env@,
                                es@[i as int]@.name.value,
                                es@[i as int]@.value,
                                None,
                            ));
                            assert(esv.skip(i as int)[0] == esv[i as int]);
                            assert(esv.skip(i as int).skip(1) =~= esv.skip(i + 1));
                        }
                    }
                },
                Err(e) => {
                    proof {
                        if !exports_need_lookup(esv) {
                            assert(esv[i as int] == es@[i as int]@);
                            assert(crate::expand::export_outcome(
                                Err(e),
                                env1,
                                self.env@,
                                es@[i as int]@.name.value,
                                es@[i as int]@.value,
                                None,
                            ));
                            assert(esv.skip(i as int)[0] == esv[i as int]);
                        }
                    }
                    return Err(ShellError::Expand(e));
                },
            }
            i += 1;
        }
        proof {
            assert(esv.skip(esv.len() as int).len() == 0);
        }
        Ok(())
    }

    /// Decides what one command asks of the surroundings: its expansion's
    /// name picks the builtin, `cd` resolves its target against the
    /// tracker, `exit` reads its code, anything else is an external spawn.
    fn decide(&self, c: Command) -> (r: Result<Action, ShellError>)
        requires
            crate::environment::env_wf(self.env_view()),
            env_lookup(self.env_view(), home_name()) is Some,
        ensures
            decide_rel(c@, self.env_view(), self.cwd_view(), r),
            !command_needs_user_lookup(c@) ==> decide_exact(
                c@,
                self.env_view(),
                self.cwd_view(),
                r,
            ),
    {
        let ghost cv = c@;
        let expanded = match c.expand(&self.env) {
            Ok(e) => e,
            Err(e) => {
                return Err(ShellError::Expand(e));
            },
        };
        let ghost ev = expanded@;
        proof {
            assert(command_expands_to(cv, self.env_view(), ev));
        }
        match builtin_of(expanded.name().as_slice()) {
            BuiltinKind::Cd => {
                let has_pipeline = match expanded.pipeline() {
                    Some(_) => true,
                    None => false,
                };
                if has_pipeline {
                    return Err(ShellError::CdInPipeline);
                }
                let home = copy_bytes(self.env.home().as_slice());
                match self.cwd.resolve(home.as_slice(), expanded.arguments()) {
                    CdResolution::TooManyArguments => {
                        let a = Action::Diagnose(BuiltinError::CdTooManyArguments);
                        proof {
                            assert(action_matches(ev, self.env_view(), self.cwd_view(), a));
                        }
                        Ok(a)
                    },
                    CdResolution::Target(p) => {
                        let a = Action::Chdir(p);
                        proof {
                            assert(action_matches(ev, self.env_view(), self.cwd_view(), a));
                        }
                        Ok(a)
                    },
                }
            },
            BuiltinKind::Exit => {
                match exit_decision(expanded.arguments()) {
                    ExitDecision::TooManyArguments => {
                        let a = Action::Diagnose(BuiltinError::ExitTooManyArguments);
                        proof {
                            assert(action_matches(ev, self.env_view(), self.cwd_view(), a));
                        }
                        Ok(a)
                    },
                    ExitDecision::Exit { code, bad_numeric } => {
                        let a = Action::Exit { code, bad_numeric };
                        proof {
                            assert(action_matches(ev, self.env_view(), self.cwd_view(), a));
                        }
                        Ok(a)
                    },
                }
            },
            BuiltinKind::External => {
                let a = Action::Run(expanded);
                proof {
                    assert(action_matches(ev, self.env_view(), self.cwd_view(), a));
                }
                Ok(a)
            },
        }
    }
}

} // verus!
