use scriptfile::error::Error;
use scriptfile::parser::parse;
use scriptfile::runner::{choose_shell, finish, plan, ShellChoice, Step};
use scriptfile::task::{resolve, Task};

fn strings(v: &[&str]) -> Vec<String> {
    v.iter().map(|s| s.to_string()).collect()
}

fn task(name: &str, parameters: &[&str], variadic: bool, body: &[&str]) -> Task {
    Task {
        name: name.to_string(),
        parameters: strings(parameters),
        variadic,
        body: strings(body),
    }
}

#[test]
fn variadic_task_takes_one_or_more_arguments() {
    let tasks = vec![task("build", &["src"], true, &["  cc $src"])];
    let name = "build".to_string();
    assert!(resolve(&tasks, &name, 0).is_err());
    assert_eq!(resolve(&tasks, &name, 1), Ok(0));
    assert_eq!(resolve(&tasks, &name, 2), Ok(0));
    assert_eq!(resolve(&tasks, &name, 5), Ok(0));
}

#[test]
fn plain_task_takes_exactly_its_parameters() {
    let tasks = vec![task("greet", &["name"], false, &["  echo"])];
    let name = "greet".to_string();
    assert_eq!(resolve(&tasks, &name, 1), Ok(0));
    assert_eq!(
        resolve(&tasks, &name, 0),
        Err(Error::NoMatchingTask { name: name.clone(), arity: 0 })
    );
    assert_eq!(
        resolve(&tasks, &name, 2),
        Err(Error::NoMatchingTask { name: name.clone(), arity: 2 })
    );
    assert!(resolve(&tasks, &"other".to_string(), 1).is_err());
}

#[test]
fn first_match_in_file_order_wins() {
    let tasks = vec![
        task("x", &["a"], false, &[]),
        task("x", &[], true, &[]),
        task("x", &["a"], false, &[]),
    ];
    let name = "x".to_string();
    assert_eq!(resolve(&tasks, &name, 1), Ok(0));
    assert_eq!(resolve(&tasks, &name, 1), Ok(0));
    assert_eq!(resolve(&tasks, &name, 0), Ok(1));
    assert_eq!(resolve(&tasks, &name, 3), Ok(1));
}

#[test]
fn leading_arguments_bind_parameters_and_the_rest_pass_through() {
    let t = task("pair", &["a", "b"], true, &["  echo $a $b", "  echo \"$@\""]);
    let inv = t.invocation(&strings(&["x", "y", "z"]));
    assert_eq!(
        inv.environment,
        vec![
            ("a".to_string(), "x".to_string()),
            ("b".to_string(), "y".to_string())
        ]
    );
    assert_eq!(
        inv.arguments,
        strings(&["-c", "  echo $a $b\n  echo \"$@\"", "pair", "z"])
    );
}

#[test]
fn variadic_invocation_passes_the_rest() {
    let t = task("build", &["src"], true, &["  cc"]);
    let inv = t.invocation(&strings(&["main.c", "-O2", "-g"]));
    assert_eq!(inv.environment, vec![("src".to_string(), "main.c".to_string())]);
    assert_eq!(inv.arguments, strings(&["-c", "  cc", "build", "-O2", "-g"]));
}

#[test]
fn script_joins_body_lines() {
    assert_eq!(task("t", &[], false, &[]).script(), "");
    assert_eq!(task("t", &[], false, &[" a", "", " b"]).script(), " a\n\n b");
}

#[test]
fn uniform_indentation_is_removed() {
    let t = task("t", &[], false, &["    echo one", "    echo two"]);
    assert_eq!(t.common_indent(), 4);
    assert_eq!(t.preview(), strings(&["echo one", "echo two"]));
}

#[test]
fn mixed_indentation_strips_the_minimum() {
    let t = task("t", &[], false, &["  if true; then", "    echo yes", "  fi"]);
    assert_eq!(t.common_indent(), 2);
    assert_eq!(t.preview(), strings(&["if true; then", "  echo yes", "fi"]));
}

#[test]
fn short_lines_are_not_over_trimmed() {
    let t = task("t", &[], false, &["    a", "", "  ", "    b"]);
    assert_eq!(t.common_indent(), 4);
    assert_eq!(t.preview(), strings(&["a", "", "", "b"]));
    let first_line_deeper = task("t", &[], false, &["    a", "  b"]);
    assert_eq!(first_line_deeper.preview(), strings(&["  a", "b"]));
}

#[test]
fn greet_world_end_to_end_plan() {
    let tasks = parse("greet name\n    echo \"hello $name\"\n").unwrap();
    let args = strings(&["greet", "world"]);
    match plan(&tasks, &args) {
        Ok(Step::Run { task, invocation }) => {
            assert_eq!(task, 0);
            assert_eq!(
                invocation.environment,
                vec![("name".to_string(), "world".to_string())]
            );
            assert_eq!(
                invocation.arguments,
                strings(&["-c", "    echo \"hello $name\"", "greet"])
            );
            assert_eq!(tasks[task].preview(), strings(&["echo \"hello $name\""]));
        }
        other => panic!("unexpected plan {other:?}"),
    }
}

#[test]
fn no_arguments_shows_the_definitions() {
    let tasks = parse("greet name\n    echo hi\n").unwrap();
    assert_eq!(plan(&tasks, &vec![]), Ok(Step::ShowDefinitions));
}

#[test]
fn wrong_arity_fails_without_launching() {
    let tasks = parse("greet name\n    echo hi\n").unwrap();
    for args in [strings(&["greet"]), strings(&["greet", "a", "b"])] {
        let arity = args.len() - 1;
        let r = plan(&tasks, &args);
        assert_eq!(
            r,
            Err(Error::NoMatchingTask { name: "greet".to_string(), arity })
        );
        assert_eq!(r.unwrap_err().exit_code(), 1);
    }
}

#[test]
fn exit_status_decides_success() {
    assert_eq!(finish(Some(0)), Ok(()));
    let failed = finish(Some(3)).unwrap_err();
    assert_eq!(failed, Error::SubprocessFailed { code: Some(3) });
    assert_eq!(failed.exit_code(), 3);
    let killed = finish(None).unwrap_err();
    assert_eq!(killed, Error::SubprocessFailed { code: None });
    assert_eq!(killed.exit_code(), 1);
}

#[test]
fn shell_comes_from_the_environment_or_the_system() {
    assert_eq!(
        choose_shell(ShellChoice::Environment, Some("/bin/zsh".to_string())),
        Ok("/bin/zsh".to_string())
    );
    assert_eq!(
        choose_shell(ShellChoice::Environment, None),
        Err(Error::ShellResolutionFailed)
    );
    assert_eq!(
        choose_shell(ShellChoice::SystemDefault, Some("/bin/zsh".to_string())),
        Ok("/bin/sh".to_string())
    );
    assert_eq!(Error::ShellResolutionFailed.exit_code(), 1);
}
