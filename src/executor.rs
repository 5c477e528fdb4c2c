//! Compiling directives into shell text.

use crate::parser::{starts_with, Command, CommandView};
use vstd::prelude::*;

verus! {

/// `base` joined with `p` as `PathBuf::join` does on Unix: an absolute `p`
/// replaces `base`; otherwise a `/` separates them where `base` does not
/// already end in one.
pub open spec fn join_path(base: Seq<char>, p: Seq<char>) -> Seq<char> {
    if p.len() > 0 && p[0] == '/' {
        p
    } else if base.len() > 0 && base.last() != '/' {
        base + seq!['/'] + p
    } else {
        base + p
    }
}

pub open spec fn opt_view(o: Option<String>) -> Option<Seq<char>> {
    match o {
        Some(s) => Some(s@),
        None => None,
    }
}

/// Why a list of directives could not be compiled.
#[derive(Debug, Clone, PartialEq)]
pub enum CompileError {
    /// A `~/` path, and no home directory is known.
    HomeDirUnknown,
    /// A virtual environment without the activate script at this path.
    MissingActivateScript { path: String },
}

pub enum CompileErrorView {
    HomeDirUnknown,
    MissingActivateScript { path: Seq<char> },
}

impl View for CompileError {
    type V = CompileErrorView;

    open spec fn view(&self) -> CompileErrorView {
        match self {
            CompileError::HomeDirUnknown => CompileErrorView::HomeDirUnknown,
            CompileError::MissingActivateScript { path } => CompileErrorView::MissingActivateScript {
                path: path@,
            },
        }
    }
}

pub open spec fn result_view(r: Result<String, CompileError>) -> Result<Seq<char>, CompileErrorView> {
    match r {
        Ok(s) => Ok(s@),
        Err(e) => Err(e@),
    }
}

/// The path that `path` names, seen from `working_dir`, with `home` the
/// home directory if one is known: `~/` is the home directory, another
/// leading `~` is left for the shell, an absolute path stands as it is, and
/// anything else is relative to `working_dir`.
pub open spec fn resolve_spec(
    path: Seq<char>,
    working_dir: Seq<char>,
    home: Option<Seq<char>>,
) -> Result<Seq<char>, CompileErrorView> {
    if starts_with(path, seq!['~', '/']) {
        match home {
            Some(h) => Ok(join_path(h, path.subrange(2, path.len() as int))),
            None => Err(CompileErrorView::HomeDirUnknown),
        }
    } else if path.len() > 0 && (path[0] == '~' || path[0] == '/') {
        Ok(path)
    } else {
        Ok(join_path(working_dir, path))
    }
}

/// The activate script of the environment directory `dir`.
pub open spec fn activate_of(dir: Seq<char>) -> Seq<char> {
    join_path(
        join_path(dir, seq!['b', 'i', 'n']),
        seq!['a', 'c', 't', 'i', 'v', 'a', 't', 'e'],
    )
}

/// The activate script that a directive needs, where it needs one and its
/// path resolves.
pub open spec fn activate_target(
    cmd: CommandView,
    working_dir: Seq<char>,
    home: Option<Seq<char>>,
) -> Option<Seq<char>> {
    match cmd {
        CommandView::PythonVenv { path } => match resolve_spec(path, working_dir, home) {
            Ok(dir) => Some(activate_of(dir)),
            Err(_) => None,
        },
        _ => None,
    }
}

/// `source '<file>'`
pub open spec fn source_quoted(file: Seq<char>) -> Seq<char> {
    seq!['s', 'o', 'u', 'r', 'c', 'e', ' ', '\''] + file + seq!['\'']
}

/// The shell line of one directive; `activate_exists` tells whether the
/// activate script of a virtual environment is there.
pub open spec fn line_of(
    cmd: CommandView,
    working_dir: Seq<char>,
    home: Option<Seq<char>>,
    activate_exists: bool,
) -> Result<Seq<char>, CompileErrorView> {
    match cmd {
        CommandView::Source { path } => match resolve_spec(path, working_dir, home) {
            Ok(file) => Ok(source_quoted(file)),
            Err(e) => Err(e),
        },
        CommandView::PythonVenv { path } => match resolve_spec(path, working_dir, home) {
            Ok(dir) => if activate_exists {
                Ok(source_quoted(activate_of(dir)))
            } else {
                Err(CompileErrorView::MissingActivateScript { path: activate_of(dir) })
            },
            Err(e) => Err(e),
        },
        CommandView::ProcessSubstitution { command } => Ok(
            seq!['s', 'o', 'u', 'r', 'c', 'e', ' ', '<', '('] + command + seq![')'],
        ),
    }
}

/// The script of `cmds`: each directive's line followed by a newline, in
/// order; or the error of the first directive that fails.
pub open spec fn script_of(
    cmds: Seq<CommandView>,
    working_dir: Seq<char>,
    home: Option<Seq<char>>,
    activate_exists: Seq<bool>,
) -> Result<Seq<char>, CompileErrorView>
    decreases cmds.len(),
{
    if cmds.len() == 0 {
        Ok(seq![])
    } else {
        let n = cmds.len() - 1;
        match script_of(cmds.drop_last(), working_dir, home, activate_exists) {
            Err(e) => Err(e),
            Ok(s) => match line_of(cmds[n], working_dir, home, activate_exists[n]) {
                Ok(l) => Ok(s + l + seq!['\n']),
                Err(e) => Err(e),
            },
        }
    }
}

/// Relies on `dirs::home_dir`: the current user's home directory, if it can be
/// determined; it depends on the environment, so nothing is stated of it.
#[verifier::external_body]
fn home_dir() -> (r: Option<String>) {
    match dirs::home_dir() {
        Some(h) => Some(h.to_string_lossy().into_owned()),
        None => None,
    }
}

pub struct Executor;

impl Executor {
    /// `base` joined with `p`, as `join_path` states.
    pub fn join(base: &str, p: &str) -> (r: String)
        ensures
            r@ == join_path(base@, p@),
    {
        let absolute = p.unicode_len() > 0 && p.get_char(0) == '/';
        if absolute {
            return String::from_str(p);
        }
        let n = base.unicode_len();
        let mut r = String::from_str(base);
        if n > 0 && base.get_char(n - 1) != '/' {
            proof {
                reveal_strlit("/");
            }
            r.append("/");
        }
        r.append(p);
        r
    }

    /// The path that `path` names from `working_dir`; `home` is the home
    /// directory, if one is known.
    pub fn resolve_path(path: &str, working_dir: &str, home: &Option<String>) -> (r: Result<
        String,
        CompileError,
    >)
        ensures
            result_view(r) == resolve_spec(path@, working_dir@, opt_view(*home)),
    {
        let n = path.unicode_len();
        if n >= 2 && path.get_char(0) == '~' && path.get_char(1) == '/' {
            assert(path@.subrange(0, 2) =~= seq!['~', '/']);
            return match home {
                Some(h) => Ok(Self::join(h.as_str(), path.substring_char(2, n))),
                None => Err(CompileError::HomeDirUnknown),
            };
        }
        if n >= 2 {
            assert(!(path@.subrange(0, 2) =~= seq!['~', '/']) ==> path@[0] != '~' || path@[1]
                != '/');
        }
        if n > 0 && (path.get_char(0) == '~' || path.get_char(0) == '/') {
            return Ok(String::from_str(path));
        }
        Ok(Self::join(working_dir, path))
    }

    /// The activate script of the environment directory `dir`.
    fn activate_script(dir: &str) -> (r: String)
        ensures
            r@ == activate_of(dir@),
    {
        proof {
            reveal_strlit("bin");
            reveal_strlit("activate");
        }
        let bin = Self::join(dir, "bin");
        assert("bin"@ =~= seq!['b', 'i', 'n']);
        assert("activate"@ =~= seq!['a', 'c', 't', 'i', 'v', 'a', 't', 'e']);
        Self::join(bin.as_str(), "activate")
    }

    /// The activate script that `cmd` needs, where it is a virtual
    /// environment whose path resolves.
    pub fn activate_script_path(cmd: &Command, working_dir: &str, home: &Option<String>) -> (r:
        Option<String>)
        ensures
            opt_view(r) == activate_target(cmd@, working_dir@, opt_view(*home)),
    {
        match cmd {
            Command::PythonVenv { path } => match Self::resolve_path(
                path.as_str(),
                working_dir,
                home,
            ) {
                Ok(dir) => Some(Self::activate_script(dir.as_str())),
                Err(_) => None,
            },
            _ => None,
        }
    }

    /// `source '<file>'`
    fn source_line(file: &str) -> (r: String)
        ensures
            r@ == source_quoted(file@),
    {
        proof {
            reveal_strlit("source '");
            reveal_strlit("'");
        }
        let mut r = String::from_str("source '");
        r.append(file);
        r.append("'");
        assert(r@ =~= source_quoted(file@));
        r
    }

    /// The shell line of one directive; `activate_exists` tells whether the
    /// activate script of a virtual environment is there.
    pub fn command_to_shell(
        cmd: &Command,
        working_dir: &str,
        home: &Option<String>,
        activate_exists: bool,
    ) -> (r: Result<String, CompileError>)
        ensures
            result_view(r) == line_of(cmd@, working_dir@, opt_view(*home), activate_exists),
    {
        match cmd {
            Command::Source { path } => match Self::resolve_path(path.as_str(), working_dir, home) {
                Ok(file) => Ok(Self::source_line(file.as_str())),
                Err(e) => Err(e),
            },
            Command::PythonVenv { path } => match Self::resolve_path(
                path.as_str(),
                working_dir,
                home,
            ) {
                Ok(dir) => {
                    let script = Self::activate_script(dir.as_str());
                    if !activate_exists {
                        return Err(CompileError::MissingActivateScript { path: script });
                    }
                    Ok(Self::source_line(script.as_str()))
                },
                Err(e) => Err(e),
            },
            Command::ProcessSubstitution { command } => {
                proof {
                    reveal_strlit("source <(");
                    reveal_strlit(")");
                }
                let mut r = String::from_str("source <(");
                r.append(command.as_str());
                r.append(")");
                assert(r@ =~= seq!['s', 'o', 'u', 'r', 'c', 'e', ' ', '<', '('] + command@ + seq![
                    ')',
                ]);
                Ok(r)
            },
        }
    }

    /// The script of `commands`: one line per directive, each ended by a
    /// newline, in order; or the error of the first directive that fails, and
    /// no script. `activate_exists[i]` tells whether the activate script of
    /// `commands[i]` is there (see `activate_script_path`).
    pub fn generate_shell_script(
        commands: &[Command],
        working_dir: &str,
        home: &Option<String>,
        activate_exists: &[bool],
    ) -> (r: Result<String, CompileError>)
        requires
            activate_exists@.len() == commands@.len(),
        ensures
            result_view(r) == script_of(
                commands@.map_values(|c: Command| c@),
                working_dir@,
                opt_view(*home),
                activate_exists@,
            ),
    {
        let ghost cmds = commands@.map_values(|c: Command| c@);
        let mut script = String::new();
        let mut i: usize = 0;
        while i < commands.len()
            invariant
                activate_exists@.len() == commands@.len(),
                cmds == commands@.map_values(|c: Command| c@),
                i <= commands@.len(),
                script_of(cmds.take(i as int), working_dir@, opt_view(*home), activate_exists@)
                    == Ok::<Seq<char>, CompileErrorView>(script@),
            decreases commands@.len() - i,
        {
            assert(cmds.take(i + 1).drop_last() =~= cmds.take(i as int));
            let line = Self::command_to_shell(&commands[i], working_dir, home, activate_exists[i]);
            match line {
                Ok(l) => {
                    proof {
                        reveal_strlit("\n");
                    }
                    let ghost before = script@;
                    script.append(l.as_str());
                    script.append("\n");
                    assert(cmds.take(i + 1)[i as int] == commands@[i as int]@);
                    assert("\n"@ =~= seq!['\n']);
                    assert(script@ =~= before + l@ + seq!['\n']);
                },
                Err(e) => {
                    proof {
                        lemma_script_error_persists(
                            cmds,
                            i as int + 1,
                            working_dir@,
                            opt_view(*home),
                            activate_exists@,
                        );
                        assert(cmds.take(cmds.len() as int) =~= cmds);
                    }
                    return Err(e);
                },
            }
            i += 1;
        }
        assert(cmds.take(cmds.len() as int) =~= cmds);
        Ok(script)
    }

    /// The home directory, and the activate script that each of `commands`
    /// needs from `working_dir` with that home directory: what a caller checks
    /// for on disk before `generate_shell_script`.
    pub fn prepare(commands: &[Command], working_dir: &str) -> (r: (
        Option<String>,
        Vec<Option<String>>,
    ))
        ensures
            r.1@.len() == commands@.len(),
            forall|i: int|
                0 <= i < commands@.len() ==> #[trigger] opt_view(r.1@[i]) == activate_target(
                    commands@[i]@,
                    working_dir@,
                    opt_view(r.0),
                ),
    {
        let home = home_dir();
        let mut targets: Vec<Option<String>> = Vec::new();
        let mut i: usize = 0;
        while i < commands.len()
            invariant
                i <= commands@.len(),
                targets@.len() == i,
                forall|j: int|
                    0 <= j < i ==> #[trigger] opt_view(targets@[j]) == activate_target(
                        commands@[j]@,
                        working_dir@,
                        opt_view(home),
                    ),
            decreases commands@.len() - i,
        {
            targets.push(Self::activate_script_path(&commands[i], working_dir, &home));
            i += 1;
        }
        (home, targets)
    }
}

/// A failing directive fails every longer script that holds it.
proof fn lemma_script_error_persists(
    cmds: Seq<CommandView>,
    k: int,
    working_dir: Seq<char>,
    home: Option<Seq<char>>,
    activate_exists: Seq<bool>,
)
    requires
        0 < k <= cmds.len(),
        script_of(cmds.take(k), working_dir, home, activate_exists) is Err,
    ensures
        script_of(cmds.take(cmds.len() as int), working_dir, home, activate_exists) == script_of(
            cmds.take(k),
            working_dir,
            home,
            activate_exists,
        ),
    decreases cmds.len() - k,
{
    if k < cmds.len() {
        assert(cmds.take(k + 1).drop_last() =~= cmds.take(k));
        lemma_script_error_persists(cmds, k + 1, working_dir, home, activate_exists);
    }
}

/// A virtual environment without its activate script fails the compile with
/// the path of the missing script, and leaves no script at all.
pub proof fn lemma_missing_activate_script_fails(
    path: Seq<char>,
    working_dir: Seq<char>,
    home: Option<Seq<char>>,
)
    requires
        resolve_spec(path, working_dir, home) is Ok,
    ensures
        script_of(
            seq![CommandView::PythonVenv { path }],
            working_dir,
            home,
            seq![false],
        ) == Err::<Seq<char>, CompileErrorView>(
            CompileErrorView::MissingActivateScript {
                path: activate_of(resolve_spec(path, working_dir, home)->Ok_0),
            },
        ),
{
    let cmds = seq![CommandView::PythonVenv { path }];
    assert(cmds.drop_last() =~= seq![]);
    assert(script_of(cmds.drop_last(), working_dir, home, seq![false]) == Ok::<
        Seq<char>,
        CompileErrorView,
    >(seq![]));
    assert(cmds[0] == CommandView::PythonVenv { path });
}

/// If one directive's line fails, the whole compile fails: no script is
/// produced from the directives around it.
pub proof fn lemma_failing_directive_fails_script(
    cmds: Seq<CommandView>,
    k: int,
    working_dir: Seq<char>,
    home: Option<Seq<char>>,
    activate_exists: Seq<bool>,
)
    requires
        0 <= k < cmds.len(),
        activate_exists.len() == cmds.len(),
        line_of(cmds[k], working_dir, home, activate_exists[k]) is Err,
    ensures
        script_of(cmds, working_dir, home, activate_exists) is Err,
{
    assert(cmds.take(k + 1).drop_last() =~= cmds.take(k));
    assert(cmds.take(k + 1)[k] == cmds[k]);
    lemma_script_error_persists(cmds, k + 1, working_dir, home, activate_exists);
    assert(cmds.take(cmds.len() as int) =~= cmds);
}

} // verus!
