use yake::error::YakeError;
use yake::execution::{append_commands, Action, Execution, Outcome, Phase};
use yake::name_map::NameMap;
use yake::target::{YakeTarget, YakeTargetMeta, YakeTargetType};
use yake::yake::{contains_name, Yake, YakeMeta};

fn texts(items: &[&str]) -> Vec<String> {
    items.iter().map(|s| s.to_string()).collect()
}

fn cmd(depends: &[&str], commands: &[&str]) -> YakeTarget {
    YakeTarget {
        targets: None,
        meta: YakeTargetMeta {
            doc: "".to_string(),
            target_type: YakeTargetType::Cmd,
            depends: if depends.is_empty() {
                None
            } else {
                Some(texts(depends))
            },
        },
        env: None,
        commands: Some(texts(commands)),
    }
}

fn fabricated(top: Vec<(&str, YakeTarget)>) -> Yake {
    let mut targets = NameMap::new();
    for (name, target) in top {
        targets.insert(name.to_string(), target);
    }
    Yake::new(
        YakeMeta {
            doc: "".to_string(),
            version: "1".to_string(),
        },
        None,
        targets,
    )
    .fabricate()
    .unwrap()
}

/// Drives a run: the command at `fails`, counted among those invoked, fails.
fn drive(run: Execution, fails: Option<usize>) -> (Vec<String>, Action) {
    let mut invoked = Vec::new();
    let mut run = run;
    let mut action = run.action();
    loop {
        match action {
            Action::Invoke(command) => {
                let outcome = if Some(invoked.len()) == fails {
                    Outcome::Failed
                } else {
                    Outcome::Succeeded
                };
                invoked.push(command);
                let (next, following) = run.step(outcome);
                run = next;
                action = following;
            }
            last => return (invoked, last),
        }
    }
}

#[test]
fn build_runs_clean_first() {
    let yake = fabricated(vec![
        ("build", cmd(&["clean"], &["echo built"])),
        ("clean", cmd(&[], &["echo cleaned"])),
    ]);
    let run = yake.execute("build").unwrap();
    let (invoked, last) = drive(run, None);
    assert_eq!(invoked, texts(&["echo cleaned", "echo built"]));
    assert_eq!(last, Action::Finish("All cool".to_string()));
}

#[test]
fn missing_target_lists_what_there_is() {
    let yake = fabricated(vec![
        ("build", cmd(&["clean"], &["echo built"])),
        ("clean", cmd(&[], &["echo cleaned"])),
    ]);
    let failed = yake.execute("missing").unwrap_err();
    assert_eq!(
        failed,
        YakeError::UnknownTarget {
            name: "missing".to_string(),
            available: texts(&["build", "clean"]),
        }
    );
    assert_eq!(failed.message(), "Unknown target: missing");
}

#[test]
fn unfabricated_definition_knows_no_target() {
    let mut targets = NameMap::new();
    targets.insert("a".to_string(), cmd(&[], &["echo a"]));
    let yake = Yake::new(
        YakeMeta {
            doc: "".to_string(),
            version: "1".to_string(),
        },
        None,
        targets,
    );
    assert_eq!(
        yake.execute("a"),
        Err(YakeError::UnknownTarget {
            name: "a".to_string(),
            available: vec![],
        })
    );
}

#[test]
fn a_group_cannot_be_executed() {
    let mut children = NameMap::new();
    children.insert("migrate".to_string(), cmd(&[], &["migrate"]));
    let db = YakeTarget {
        targets: Some(children),
        meta: YakeTargetMeta {
            doc: "".to_string(),
            target_type: YakeTargetType::Group,
            depends: None,
        },
        env: None,
        commands: None,
    };
    let yake = fabricated(vec![("db", db)]);
    assert!(yake.execute("db").is_err());
    let (invoked, _) = drive(yake.execute("db.migrate").unwrap(), None);
    assert_eq!(invoked, texts(&["migrate"]));
}

#[test]
fn two_dependencies_run_in_full_and_in_order() {
    let yake = fabricated(vec![
        ("d2", cmd(&[], &["d2 a", "d2 b"])),
        ("t", cmd(&["d1", "d2"], &["t a", "t b"])),
        ("d1", cmd(&["d2"], &["d1 a", "d1 b", "d1 c"])),
    ]);
    let (invoked, last) = drive(yake.execute("t").unwrap(), None);
    assert_eq!(
        invoked,
        texts(&["d1 a", "d1 b", "d1 c", "d2 a", "d2 b", "t a", "t b"])
    );
    assert_eq!(last, Action::Finish("All cool".to_string()));
}

#[test]
fn failure_in_first_dependency_stops_the_run() {
    let yake = fabricated(vec![
        ("d1", cmd(&[], &["d1 a", "d1 b", "d1 c"])),
        ("d2", cmd(&[], &["d2 a"])),
        ("t", cmd(&["d1", "d2"], &["t a"])),
    ]);
    let (invoked, last) = drive(yake.execute("t").unwrap(), Some(1));
    assert_eq!(invoked, texts(&["d1 a", "d1 b"]));
    let expected = YakeError::CommandFailed {
        command: "d1 b".to_string(),
    };
    assert_eq!(expected.message(), "failed to execute command \"d1 b\"");
    assert_eq!(last, Action::Abort(expected));
}

#[test]
fn failure_of_the_last_command_aborts() {
    let yake = fabricated(vec![("t", cmd(&[], &["one", "two"]))]);
    let (invoked, last) = drive(yake.execute("t").unwrap(), Some(1));
    assert_eq!(invoked, texts(&["one", "two"]));
    assert_eq!(
        last,
        Action::Abort(YakeError::CommandFailed {
            command: "two".to_string()
        })
    );
}

#[test]
fn target_without_commands_finishes_at_once() {
    let mut bare = cmd(&[], &[]);
    bare.commands = None;
    let yake = fabricated(vec![("t", bare), ("u", cmd(&["t"], &[]))]);
    assert_eq!(
        yake.execute("t").unwrap().action(),
        Action::Finish("All cool".to_string())
    );
    assert_eq!(
        yake.execute("u").unwrap().action(),
        Action::Finish("All cool".to_string())
    );
}

#[test]
fn dependency_named_twice_runs_twice() {
    let yake = fabricated(vec![
        ("d", cmd(&[], &["d"])),
        ("t", cmd(&["d", "d"], &["t"])),
    ]);
    let (invoked, _) = drive(yake.execute("t").unwrap(), None);
    assert_eq!(invoked, texts(&["d", "d", "t"]));
}

#[test]
fn final_states_stay_as_they_are() {
    let mut done = Execution::new(texts(&["a"]));
    done.advance(Outcome::Succeeded);
    assert_eq!(done.action(), Action::Finish("All cool".to_string()));
    done.advance(Outcome::Failed);
    assert_eq!(done.action(), Action::Finish("All cool".to_string()));

    let mut failed = Execution::new(texts(&["a", "b"]));
    failed.advance(Outcome::Failed);
    let aborted = Action::Abort(YakeError::CommandFailed {
        command: "a".to_string(),
    });
    assert_eq!(failed.action(), aborted);
    failed.advance(Outcome::Succeeded);
    assert_eq!(failed.action(), aborted);
    let (same, action) = failed.step(Outcome::Succeeded);
    assert_eq!(action, aborted);
    assert_eq!(same.action(), aborted);
}

#[test]
fn step_moves_to_the_next_command() {
    let run = Execution::new(texts(&["a", "b"]));
    assert_eq!(run.action(), Action::Invoke("a".to_string()));
    let (run, action) = run.step(Outcome::Succeeded);
    assert_eq!(action, Action::Invoke("b".to_string()));
    let (run, action) = run.step(Outcome::Succeeded);
    assert_eq!(action, Action::Finish("All cool".to_string()));
    assert_eq!(run.action(), Action::Finish("All cool".to_string()));
    assert_eq!(
        Execution::new(vec![]).action(),
        Action::Finish("All cool".to_string())
    );
}

#[test]
fn helpers_on_lists_of_text() {
    assert!(contains_name(&texts(&["a", "b"]), "b"));
    assert!(!contains_name(&texts(&["a", "b"]), "c"));
    assert!(!contains_name(&vec![], ""));
    let mut commands = texts(&["x"]);
    append_commands(&cmd(&[], &["y", "z"]), &mut commands);
    assert_eq!(commands, texts(&["x", "y", "z"]));
    let mut none = cmd(&[], &[]);
    none.commands = None;
    append_commands(&none, &mut commands);
    assert_eq!(commands, texts(&["x", "y", "z"]));
}

#[test]
fn phases_follow_the_dependencies() {
    let yake = fabricated(vec![
        ("d1", cmd(&[], &["d1 a", "d1 b"])),
        ("d2", cmd(&[], &[])),
        ("d3", cmd(&[], &["d3 a"])),
        ("t", cmd(&["d1", "d2", "d3"], &["t a"])),
    ]);
    let mut run = yake.execute("t").unwrap();
    assert_eq!(run.phase(), Phase::RunningDependency(0));
    run.advance(Outcome::Succeeded);
    assert_eq!(run.phase(), Phase::RunningDependency(0));
    run.advance(Outcome::Succeeded);
    assert_eq!(run.phase(), Phase::RunningDependency(2));
    assert_eq!(run.action(), Action::Invoke("d3 a".to_string()));
    run.advance(Outcome::Succeeded);
    assert_eq!(run.phase(), Phase::RunningOwnCommands);
    assert_eq!(run.action(), Action::Invoke("t a".to_string()));
    run.advance(Outcome::Succeeded);
    assert_eq!(run.phase(), Phase::Done);
    run.advance(Outcome::Succeeded);
    assert_eq!(run.phase(), Phase::Done);
}

#[test]
fn a_failed_run_is_in_the_failed_phase() {
    let yake = fabricated(vec![
        ("d", cmd(&[], &["d a"])),
        ("t", cmd(&["d"], &["t a"])),
    ]);
    let mut run = yake.execute("t").unwrap();
    run.advance(Outcome::Failed);
    assert_eq!(run.phase(), Phase::Failed);
    run.advance(Outcome::Succeeded);
    assert_eq!(run.phase(), Phase::Failed);
}

#[test]
fn plan_lists_dependencies_before_the_target() {
    let run = Execution::plan(
        &vec![cmd(&[], &["one"]), cmd(&[], &["two", "three"])],
        &cmd(&[], &["four"]),
    );
    let (invoked, last) = drive(run, None);
    assert_eq!(invoked, texts(&["one", "two", "three", "four"]));
    assert_eq!(last, Action::Finish("All cool".to_string()));
    let own = Execution::new(texts(&["x"]));
    assert_eq!(own.phase(), Phase::RunningOwnCommands);
    assert_eq!(Execution::plan(&vec![], &cmd(&[], &[])).phase(), Phase::Done);
}
