use durrrrrenv::executor::{CompileError, Executor};
use durrrrrenv::parser::Command;

fn home() -> Option<String> {
    Some("/home/u".to_string())
}

#[test]
fn resolve_rules() {
    assert_eq!(Executor::resolve_path("~/.bashrc", "/w", &home()).unwrap(), "/home/u/.bashrc");
    assert_eq!(Executor::resolve_path("~other/x", "/w", &home()).unwrap(), "~other/x");
    assert_eq!(Executor::resolve_path("/etc/p", "/w", &home()).unwrap(), "/etc/p");
    assert_eq!(Executor::resolve_path("env.sh", "/w", &home()).unwrap(), "/w/env.sh");
    assert_eq!(Executor::resolve_path("env.sh", "/w/", &home()).unwrap(), "/w/env.sh");
    assert_eq!(Executor::resolve_path("~/x", "/w", &None), Err(CompileError::HomeDirUnknown));
    assert_eq!(Executor::join("/home/u", "/abs"), "/abs");
    assert_eq!(Executor::join("", "rel"), "rel");
}

#[test]
fn compiles_each_kind() {
    let cmds = vec![
        Command::Source { path: "~/.bashrc".to_string() },
        Command::PythonVenv { path: ".venv".to_string() },
        Command::ProcessSubstitution { command: "west completion zsh".to_string() },
    ];
    let script = Executor::generate_shell_script(&cmds, "/w", &home(), &[false, true, false]).unwrap();
    assert_eq!(
        script,
        "source '/home/u/.bashrc'\nsource '/w/.venv/bin/activate'\nsource <(west completion zsh)\n"
    );
}

#[test]
fn missing_activate_script_fails_whole_compile() {
    let cmds = vec![
        Command::Source { path: "a".to_string() },
        Command::PythonVenv { path: "venv".to_string() },
    ];
    assert_eq!(
        Executor::generate_shell_script(&cmds, "/w", &home(), &[true, false]),
        Err(CompileError::MissingActivateScript { path: "/w/venv/bin/activate".to_string() })
    );
}

#[test]
fn home_error_from_compile() {
    let cmds = vec![Command::Source { path: "~/x".to_string() }];
    assert_eq!(
        Executor::generate_shell_script(&cmds, "/w", &None, &[false]),
        Err(CompileError::HomeDirUnknown)
    );
    assert_eq!(Executor::generate_shell_script(&[], "/w", &None, &[]).unwrap(), "");
}

#[test]
fn activate_paths() {
    let venv = Command::PythonVenv { path: "~/envs/a".to_string() };
    assert_eq!(
        Executor::activate_script_path(&venv, "/w", &home()),
        Some("/home/u/envs/a/bin/activate".to_string())
    );
    assert_eq!(Executor::activate_script_path(&venv, "/w", &None), None);
    let src = Command::Source { path: "x".to_string() };
    assert_eq!(Executor::activate_script_path(&src, "/w", &home()), None);
    let cmds = vec![src, Command::PythonVenv { path: "/opt/v".to_string() }];
    let (_home, targets) = Executor::prepare(&cmds, "/w");
    assert_eq!(targets.len(), 2);
    assert_eq!(targets[0], None);
    assert_eq!(targets[1], Some("/opt/v/bin/activate".to_string()));
}

#[test]
fn command_lines() {
    assert_eq!(
        Executor::command_to_shell(&Command::Source { path: "/a b".to_string() }, "/w", &None, false)
            .unwrap(),
        "source '/a b'"
    );
    assert_eq!(
        Executor::command_to_shell(
            &Command::ProcessSubstitution { command: "x; y".to_string() },
            "/w",
            &None,
            false
        )
        .unwrap(),
        "source <(x; y)"
    );
}
