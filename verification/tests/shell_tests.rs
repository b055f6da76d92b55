use msh::ast::{Exportable, NameValuePair};
use msh::command::Execv;
use msh::cwd::{CdResolution, Cwd};
use msh::environment::Environment;
use msh::interpreter::{
    builtin_of, exit_decision, parse_i32, Action, BuiltinError, BuiltinKind, Event, ExitDecision,
    Interpreter, ShellError, Step,
};
use msh::parser::parse;
use msh::reaper::Reaper;
use msh::status::Status;
use msh::word::Word;
use msh::command::pair_to_execv;
use msh::command::path_candidates;
use msh::redirect::{Redirect, WriteMode};

fn unquoted(s: &str) -> Word {
    Word::unquoted(s.as_bytes().to_vec())
}

fn env_with(vars: &[(&str, &str)]) -> Environment {
    let mut env = Environment::new();
    for (name, value) in vars {
        env.set_exported_value(name.as_bytes().to_vec(), value.as_bytes().to_vec());
    }
    env
}

/// Steps the machine until it finishes or asks for an action.
fn next_act(m: &mut Interpreter) -> Result<Option<Action>, ShellError> {
    loop {
        match m.step()? {
            Step::Again => continue,
            Step::Done => return Ok(None),
            Step::Act(a) => return Ok(Some(a)),
        }
    }
}

fn machine(vars: &[(&str, &str)], cwd: &str, src: &[u8]) -> Interpreter {
    let env = env_with(vars);
    let mut interp = Interpreter::new(env, Cwd::new(cwd.as_bytes().to_vec()));
    interp.start(parse(src).unwrap());
    interp.apply_event(Event::Start);
    interp
}

// `echo hello world` becomes one external exec with the name first.
#[test]
fn simple_command_scenario() {
    let mut m = machine(&[("HOME", "/h"), ("PATH", "/bin")], "/start", b"echo hello world\n");
    match next_act(&mut m).unwrap() {
        Some(Action::Run(e)) => {
            assert_eq!(e.name(), &b"echo".to_vec());
            assert_eq!(
                e.arguments(),
                &vec![b"hello".to_vec(), b"world".to_vec()],
            );
            assert!(e.pipeline().is_none());
        }
        other => panic!("expected Run, got {:?}", action_name(&other)),
    }
    m.apply_event(Event::CommandDone(Status::Success));
    assert!(next_act(&mut m).unwrap().is_none());
}

fn action_name(a: &Option<Action>) -> &'static str {
    match a {
        None => "done",
        Some(Action::Run(_)) => "run",
        Some(Action::Chdir(_)) => "chdir",
        Some(Action::Diagnose(_)) => "diagnose",
        Some(Action::Exit { .. }) => "exit",
    }
}

// Inline assignments ride along after the exported environment.
#[test]
fn pipeline_with_inline_env_scenario() {
    let mut m = machine(
        &[("HOME", "/h"), ("PATH", "/usr/bin:/bin")],
        "/start",
        b"FOO=1 BAR=2 env | grep FOO\n",
    );
    let env = env_with(&[("HOME", "/h"), ("PATH", "/usr/bin:/bin")]);
    match next_act(&mut m).unwrap() {
        Some(Action::Run(e)) => {
            assert_eq!(e.name(), &b"env".to_vec());
            {
                let tail = e.pipeline().expect("pipeline expected");
                assert_eq!(tail.name(), &b"grep".to_vec());
                assert_eq!(tail.arguments(), &vec![b"FOO".to_vec()]);
                assert!(tail.pipeline().is_none());
            }
            match e.into_execv(&env) {
                Execv::Relative(name, argv, envp) => {
                    assert_eq!(name, b"env".to_vec());
                    assert_eq!(argv, vec![b"env".to_vec()]);
                    // The command-scoped pairs come last, so they win.
                    let n = envp.len();
                    assert_eq!(envp[n - 2], b"FOO=1".to_vec());
                    assert_eq!(envp[n - 1], b"BAR=2".to_vec());
                    assert!(envp.contains(&b"PATH=/usr/bin:/bin".to_vec()));
                }
                Execv::Exact(..) => panic!("`env` has no slash"),
            }
        }
        other => panic!("expected Run, got {:?}", action_name(&other)),
    }
}

// A failing test runs the alternate.
#[test]
fn if_else_scenario() {
    let mut m = machine(
        &[("HOME", "/h"), ("PATH", "/bin")],
        "/start",
        b"if /bin/false { echo a } else { echo b }\n",
    );
    match next_act(&mut m).unwrap() {
        Some(Action::Run(e)) => assert_eq!(e.name(), &b"/bin/false".to_vec()),
        other => panic!("expected Run, got {:?}", action_name(&other)),
    }
    m.apply_event(Event::CommandDone(Status::Failure));
    match next_act(&mut m).unwrap() {
        Some(Action::Run(e)) => {
            assert_eq!(e.name(), &b"echo".to_vec());
            assert_eq!(e.arguments(), &vec![b"b".to_vec()]);
        }
        other => panic!("expected Run, got {:?}", action_name(&other)),
    }
    m.apply_event(Event::CommandDone(Status::Success));
    assert!(next_act(&mut m).unwrap().is_none());
}

// `cd /tmp; cd -` returns to the starting directory.
#[test]
fn cd_dash_scenario() {
    let mut m = machine(
        &[("HOME", "/h"), ("PATH", "/bin")],
        "/startdir",
        b"cd /tmp; cd -; pwd\n",
    );
    match next_act(&mut m).unwrap() {
        Some(Action::Chdir(p)) => assert_eq!(p, b"/tmp".to_vec()),
        other => panic!("expected Chdir, got {:?}", action_name(&other)),
    }
    m.apply_event(Event::ChdirDone(Some(b"/tmp".to_vec())));
    match next_act(&mut m).unwrap() {
        Some(Action::Chdir(p)) => assert_eq!(p, b"/startdir".to_vec()),
        other => panic!("expected Chdir, got {:?}", action_name(&other)),
    }
    m.apply_event(Event::ChdirDone(Some(b"/startdir".to_vec())));
    assert_eq!(m.cwd(), &b"/startdir".to_vec());
    match next_act(&mut m).unwrap() {
        Some(Action::Run(e)) => assert_eq!(e.name(), &b"pwd".to_vec()),
        other => panic!("expected Run, got {:?}", action_name(&other)),
    }
}

// The redirect's path is expanded against the environment.
#[test]
fn redirect_scenario() {
    let mut m = machine(
        &[("HOME", "/h"), ("PATH", "/bin")],
        "/start",
        b"echo \"$HOME/x\" >out.txt\n",
    );
    match next_act(&mut m).unwrap() {
        Some(Action::Run(e)) => {
            assert_eq!(e.arguments(), &vec![b"/h/x".to_vec()]);
            assert_eq!(
                e.redirects(),
                &vec![Redirect::OutFile(b"out.txt".to_vec(), WriteMode::Truncate)],
            );
        }
        other => panic!("expected Run, got {:?}", action_name(&other)),
    }
}

// The child is asked to read the named file on stdin.
#[test]
fn input_redirect_scenario() {
    let mut m = machine(
        &[("HOME", "/h"), ("PATH", "/bin")],
        "/start",
        b"cat <missing.txt\n",
    );
    match next_act(&mut m).unwrap() {
        Some(Action::Run(e)) => {
            assert_eq!(e.name(), &b"cat".to_vec());
            assert_eq!(
                e.redirects(),
                &vec![Redirect::InFile(b"missing.txt".to_vec())],
            );
        }
        other => panic!("expected Run, got {:?}", action_name(&other)),
    }
}

#[test]
fn while_loop_scenario() {
    let mut m = machine(
        &[("HOME", "/h"), ("PATH", "/bin")],
        "/start",
        b"while check { work }\n",
    );
    for _ in 0..3 {
        match next_act(&mut m).unwrap() {
            Some(Action::Run(e)) => assert_eq!(e.name(), &b"check".to_vec()),
            other => panic!("expected test Run, got {:?}", action_name(&other)),
        }
        m.apply_event(Event::CommandDone(Status::Success));
        match next_act(&mut m).unwrap() {
            Some(Action::Run(e)) => assert_eq!(e.name(), &b"work".to_vec()),
            other => panic!("expected body Run, got {:?}", action_name(&other)),
        }
        m.apply_event(Event::CommandDone(Status::Success));
    }
    match next_act(&mut m).unwrap() {
        Some(Action::Run(e)) => assert_eq!(e.name(), &b"check".to_vec()),
        other => panic!("expected test Run, got {:?}", action_name(&other)),
    }
    m.apply_event(Event::CommandDone(Status::Failure));
    assert!(next_act(&mut m).unwrap().is_none());
}

#[test]
fn exit_builtin_scenarios() {
    let mut m = machine(&[("HOME", "/h")], "/s", b"exit 42\n");
    match next_act(&mut m).unwrap() {
        Some(Action::Exit { code, bad_numeric }) => {
            assert_eq!(code, 42);
            assert!(!bad_numeric);
        }
        other => panic!("expected Exit, got {:?}", action_name(&other)),
    }

    let mut m = machine(&[("HOME", "/h")], "/s", b"exit nope\n");
    match next_act(&mut m).unwrap() {
        Some(Action::Exit { code, bad_numeric }) => {
            assert_eq!(code, 2);
            assert!(bad_numeric);
        }
        other => panic!("expected Exit, got {:?}", action_name(&other)),
    }

    let mut m = machine(&[("HOME", "/h")], "/s", b"exit 1 2\n");
    match next_act(&mut m).unwrap() {
        Some(Action::Diagnose(BuiltinError::ExitTooManyArguments)) => {}
        other => panic!("expected Diagnose, got {:?}", action_name(&other)),
    }
}

#[test]
fn cd_too_many_arguments() {
    let mut m = machine(&[("HOME", "/h")], "/s", b"cd a b\n");
    match next_act(&mut m).unwrap() {
        Some(Action::Diagnose(BuiltinError::CdTooManyArguments)) => {}
        other => panic!("expected Diagnose, got {:?}", action_name(&other)),
    }
    m.apply_event(Event::Acked);
    assert!(next_act(&mut m).unwrap().is_none());
}

#[test]
fn cd_in_pipeline_is_an_error() {
    let mut m = machine(&[("HOME", "/h")], "/s", b"cd /tmp | cat\n");
    assert!(next_act(&mut m).is_err());
}

#[test]
fn bare_cd_goes_home() {
    let mut m = machine(&[("HOME", "/homedir")], "/s", b"cd\n");
    match next_act(&mut m).unwrap() {
        Some(Action::Chdir(p)) => assert_eq!(p, b"/homedir".to_vec()),
        other => panic!("expected Chdir, got {:?}", action_name(&other)),
    }
}

// Two rotations through the previous slot restore the current directory.
#[test]
fn cd_dash_twice_restores() {
    let mut cwd = Cwd::new(b"/origin".to_vec());
    let dash = vec![b"-".to_vec()];
    let t1 = match cwd.resolve(b"/h", &dash) {
        CdResolution::Target(p) => p,
        CdResolution::TooManyArguments => panic!("one argument"),
    };
    assert_eq!(t1, b"/origin".to_vec());
    cwd.commit(t1);
    let t2 = match cwd.resolve(b"/h", &dash) {
        CdResolution::Target(p) => p,
        CdResolution::TooManyArguments => panic!("one argument"),
    };
    cwd.commit(t2);
    assert_eq!(cwd.current(), &b"/origin".to_vec());

    // And with an intervening real change.
    let mut cwd = Cwd::new(b"/origin".to_vec());
    cwd.commit(b"/elsewhere".to_vec());
    let t = match cwd.resolve(b"/h", &dash) {
        CdResolution::Target(p) => p,
        CdResolution::TooManyArguments => panic!("one argument"),
    };
    assert_eq!(t, b"/origin".to_vec());
}

// A plain assignment stays out of the exported view, even after an
// export of another name.
#[test]
fn assignment_stays_unexported() {
    let mut env = env_with(&[("HOME", "/h")]);
    env.assign(&NameValuePair::new(unquoted("SECRET"), unquoted("x")))
        .unwrap();
    env.export(&Exportable::new(unquoted("OTHER"), Some(unquoted("y"))))
        .unwrap();
    let exported = env.iter_exported();
    assert!(exported.iter().any(|(n, _)| n == b"OTHER"));
    assert!(!exported.iter().any(|(n, _)| n == b"SECRET"));
    assert_eq!(env.get(b"SECRET"), Some(&b"x".to_vec()));
}

// `export FOO=bar` then `export FOO` keeps value and flag.
#[test]
fn export_then_export_name() {
    let mut env = env_with(&[("HOME", "/h")]);
    env.export(&Exportable::new(unquoted("FOO"), Some(unquoted("bar"))))
        .unwrap();
    env.export(&Exportable::new(unquoted("FOO"), None)).unwrap();
    assert_eq!(env.get(b"FOO"), Some(&b"bar".to_vec()));
    let exported = env.iter_exported();
    assert!(exported
        .iter()
        .any(|(n, v)| n == b"FOO" && v == b"bar"));
}

#[test]
fn assignment_value_is_expanded() {
    let mut env = env_with(&[("HOME", "/h"), ("BASE", "/opt")]);
    env.assign(&NameValuePair::new(unquoted("DIR"), unquoted("$BASE/bin")))
        .unwrap();
    assert_eq!(env.get(b"DIR"), Some(&b"/opt/bin".to_vec()));
}

// Each child is reaped once; the last child's code is
// the pipeline status.
#[test]
fn reaper_counts_and_status() {
    let mut r = Reaper::new(vec![11, 22, 33], 33);
    assert!(!r.is_done());
    assert!(r.note_exited(22, 0));
    assert!(r.note_exited(33, 7));
    assert_eq!(r.status(), Status::Failure);
    assert!(!r.note_exited(22, 0)); // already reaped
    assert!(r.note_signaled(11));
    assert!(r.is_done());
    // 33 exited nonzero, so the pipeline failed.
    assert_eq!(r.status(), Status::Failure);

    let mut r = Reaper::new(vec![5, 6], 6);
    assert!(r.note_exited(6, 0));
    assert!(r.note_exited(5, 1));
    assert!(r.is_done());
    assert_eq!(r.status(), Status::Success);
}

#[test]
fn parse_i32_cases() {
    assert_eq!(parse_i32(b"0"), Some(0));
    assert_eq!(parse_i32(b"42"), Some(42));
    assert_eq!(parse_i32(b"+42"), Some(42));
    assert_eq!(parse_i32(b"-42"), Some(-42));
    assert_eq!(parse_i32(b"2147483647"), Some(i32::MAX));
    assert_eq!(parse_i32(b"-2147483648"), Some(i32::MIN));
    assert_eq!(parse_i32(b"2147483648"), None);
    assert_eq!(parse_i32(b"-2147483649"), None);
    assert_eq!(parse_i32(b"00000000000000001"), Some(1));
    assert_eq!(parse_i32(b""), None);
    assert_eq!(parse_i32(b"-"), None);
    assert_eq!(parse_i32(b"12a"), None);
    assert_eq!(parse_i32(b" 1"), None);
}

#[test]
fn exit_decision_cases() {
    assert_eq!(
        exit_decision(&vec![]),
        ExitDecision::Exit { code: 0, bad_numeric: false },
    );
    assert_eq!(
        exit_decision(&vec![b"3".to_vec()]),
        ExitDecision::Exit { code: 3, bad_numeric: false },
    );
    assert_eq!(
        exit_decision(&vec![b"x".to_vec()]),
        ExitDecision::Exit { code: 2, bad_numeric: true },
    );
    assert_eq!(
        exit_decision(&vec![b"1".to_vec(), b"2".to_vec()]),
        ExitDecision::TooManyArguments,
    );
}

#[test]
fn builtin_dispatch() {
    assert_eq!(builtin_of(b"cd"), BuiltinKind::Cd);
    assert_eq!(builtin_of(b"exit"), BuiltinKind::Exit);
    assert_eq!(builtin_of(b"echo"), BuiltinKind::External);
    assert_eq!(builtin_of(b"cdd"), BuiltinKind::External);
}

#[test]
fn path_candidates_walk_in_order() {
    let c = path_candidates(b"/usr/bin:/bin:", b"ls");
    assert_eq!(
        c,
        vec![b"/usr/bin/ls".to_vec(), b"/bin/ls".to_vec(), b"ls".to_vec()],
    );
    let c = path_candidates(b"", b"ls");
    assert_eq!(c, vec![b"ls".to_vec()]);
    let c = path_candidates(b"/opt/", b"x");
    assert_eq!(c, vec![b"/opt/x".to_vec()]);
}

#[test]
fn pair_to_execv_format() {
    assert_eq!(pair_to_execv(b"A", b"b c"), b"A=b c".to_vec());
    assert_eq!(pair_to_execv(b"EMPTY", b""), b"EMPTY=".to_vec());
}
