use durrrrrenv::parser::{Command, LineError, Parser};

#[test]
fn test_parse_source() {
    let cmd = Parser::parse_line("source ~/.bashrc").unwrap();
    assert_eq!(
        cmd,
        Command::Source {
            path: "~/.bashrc".to_string()
        }
    );
}

#[test]
fn test_parse_python_venv_default() {
    let cmd = Parser::parse_line("python_venv").unwrap();
    assert_eq!(
        cmd,
        Command::PythonVenv {
            path: ".venv".to_string()
        }
    );
}

#[test]
fn test_parse_python_venv_custom() {
    let cmd = Parser::parse_line("python_venv venv").unwrap();
    assert_eq!(
        cmd,
        Command::PythonVenv {
            path: "venv".to_string()
        }
    );
}

#[test]
fn test_parse_process_substitution() {
    let cmd = Parser::parse_line("source <(west completion zsh)").unwrap();
    assert_eq!(
        cmd,
        Command::ProcessSubstitution {
            command: "west completion zsh".to_string()
        }
    );
}

#[test]
fn test_parse_multi_line() {
    let content = r#"
# This is a comment
source ~/.bashrc

python_venv .venv
source <(west completion zsh)
        "#;

    let commands = Parser::parse(content).unwrap();
    assert_eq!(commands.len(), 3);
}

#[test]
fn multi_line_keeps_order_and_values() {
    let content = "# c\nsource ~/.bashrc\n\n  python_venv .venv  \r\nsource <(west completion zsh)\n";
    let commands = Parser::parse(content).unwrap();
    assert_eq!(
        commands,
        vec![
            Command::Source { path: "~/.bashrc".to_string() },
            Command::PythonVenv { path: ".venv".to_string() },
            Command::ProcessSubstitution { command: "west completion zsh".to_string() },
        ]
    );
}

#[test]
fn empty_and_comment_and_blank_parse_to_nothing() {
    assert_eq!(Parser::parse("").unwrap(), vec![]);
    assert_eq!(Parser::parse("# comment only").unwrap(), vec![]);
    assert_eq!(Parser::parse("   \n\t\n  \r\n").unwrap(), vec![]);
    assert_eq!(Parser::parse("\u{3000}\u{a0}").unwrap(), vec![]);
}

#[test]
fn parse_source_whole_file() {
    assert_eq!(
        Parser::parse("source ~/.bashrc").unwrap(),
        vec![Command::Source { path: "~/.bashrc".to_string() }]
    );
}

#[test]
fn python_venv_with_two_arguments_fails() {
    assert_eq!(Parser::parse_line("python_venv a b"), Err(LineError::VenvArity));
    let e = Parser::parse("python_venv a b").unwrap_err();
    assert_eq!(e.line_number, 1);
    assert_eq!(e.line, "python_venv a b");
    assert_eq!(e.kind, LineError::VenvArity);
}

#[test]
fn source_arity_errors() {
    assert_eq!(Parser::parse_line("source"), Err(LineError::SourceArity));
    assert_eq!(Parser::parse_line("source a b"), Err(LineError::SourceArity));
}

#[test]
fn substitution_ignores_text_after_last_paren() {
    assert_eq!(
        Parser::parse_line("source <( a (b) ) trailing").unwrap(),
        Command::ProcessSubstitution { command: "a (b)".to_string() }
    );
}

#[test]
fn empty_substitution_fails() {
    assert_eq!(Parser::parse_line("source <()"), Err(LineError::MalformedSubstitution));
    assert_eq!(Parser::parse_line("source ) <("), Err(LineError::MalformedSubstitution));
}

#[test]
fn source_with_only_open_is_plain_source() {
    assert_eq!(
        Parser::parse_line("source <(x"),
        Ok(Command::Source { path: "<(x".to_string() })
    );
}

#[test]
fn unknown_directive_reports_line() {
    assert_eq!(
        Parser::parse_line("export A=1"),
        Err(LineError::UnrecognizedDirective { line: "export A=1".to_string() })
    );
    let e = Parser::parse("source a\n\n   export A=1  \nsource b").unwrap_err();
    assert_eq!(e.line_number, 3);
    assert_eq!(e.line, "export A=1");
    assert_eq!(e.kind, LineError::UnrecognizedDirective { line: "export A=1".to_string() });
}

#[test]
fn keyword_must_be_whole_first_word() {
    assert_eq!(
        Parser::parse_line("sourcefile x"),
        Err(LineError::UnrecognizedDirective { line: "sourcefile x".to_string() })
    );
    assert_eq!(
        Parser::parse_line("python_venvx"),
        Err(LineError::UnrecognizedDirective { line: "python_venvx".to_string() })
    );
    assert_eq!(
        Parser::parse_line("source<(cmd)"),
        Err(LineError::UnrecognizedDirective { line: "source<(cmd)".to_string() })
    );
    assert_eq!(
        Parser::parse_line("source\t<(a b)"),
        Ok(Command::ProcessSubstitution { command: "a b".to_string() })
    );
    assert_eq!(
        Parser::parse_line("python_venv\u{a0}env"),
        Ok(Command::PythonVenv { path: "env".to_string() })
    );
}

#[test]
fn non_ascii_paths_survive() {
    assert_eq!(
        Parser::parse_line("source  ~/é x").unwrap_err(),
        LineError::SourceArity
    );
    assert_eq!(
        Parser::parse("source ~/é/ü.sh").unwrap(),
        vec![Command::Source { path: "~/é/ü.sh".to_string() }]
    );
}
