//! The shell function that lets the program change the shell it runs in.
use vstd::prelude::*;

verus! {

/// A shell that the integration supports.
#[derive(Clone, Copy, Debug, PartialEq, Eq, Structural)]
pub enum Shell {
    Bash,
    Zsh,
}

#[derive(Clone, Copy, Debug, PartialEq, Eq, Structural)]
pub enum Error {
    ShellNotSupported,
}

/// Picks the shell named `shell`: `bash` or `zsh`.
pub fn init_shell(shell: &str) -> (r: Result<Shell, Error>)
    ensures
        shell@ == "bash"@ ==> r == Ok::<Shell, Error>(Shell::Bash),
        shell@ == "zsh"@ ==> r == Ok::<Shell, Error>(Shell::Zsh),
        shell@ != "bash"@ && shell@ != "zsh"@ ==> r == Err::<Shell, Error>(Error::ShellNotSupported),
{
    proof {
        reveal_strlit("bash");
        reveal_strlit("zsh");
        assert("bash"@.len() == 4 && "zsh"@.len() == 3);
    }
    let s = shell.to_owned();
    let bash = "bash".to_owned();
    let zsh = "zsh".to_owned();
    if s == bash {
        Ok(Shell::Bash)
    } else if s == zsh {
        Ok(Shell::Zsh)
    } else {
        Err(Error::ShellNotSupported)
    }
}

/// Text of the shell function before the program's path.
pub open spec fn function_head(shell: Shell) -> Seq<char> {
    match shell {
        Shell::Bash => "\nxadb () {\n    export XADB_INIT_SHELL=bash\n    export XADB_TEMP_FILE=$(mktemp /tmp/xadb-script.XXXXXX)\n    "@,
        Shell::Zsh => "\nxadb () {\n    export XADB_INIT_SHELL=zsh\n    export XADB_TEMP_FILE=$(mktemp /tmp/xadb-script.XXXXXX)\n    "@,
    }
}

/// Text of the shell function after the program's path.
pub open spec fn function_tail() -> Seq<char> {
    " $@\n    source \"${XADB_TEMP_FILE}\"\n    rm \"${XADB_TEMP_FILE}\"\n    unset XADB_TEMP_FILE\n    unset XADB_INIT_SHELL\n}\n    "@
}

/// The shell function `xadb` for `shell`, which runs the program at `exe`
/// and then sources the script it leaves.
pub fn shell_function(shell: Shell, exe: &str) -> (r: String)
    ensures
        r@ == function_head(shell) + exe@ + function_tail(),
{
    let mut s = String::new();
    match shell {
        Shell::Bash => s.append("\nxadb () {\n    export XADB_INIT_SHELL=bash\n    export XADB_TEMP_FILE=$(mktemp /tmp/xadb-script.XXXXXX)\n    "),
        Shell::Zsh => s.append("\nxadb () {\n    export XADB_INIT_SHELL=zsh\n    export XADB_TEMP_FILE=$(mktemp /tmp/xadb-script.XXXXXX)\n    "),
    }
    s.append(exe);
    s.append(" $@\n    source \"${XADB_TEMP_FILE}\"\n    rm \"${XADB_TEMP_FILE}\"\n    unset XADB_TEMP_FILE\n    unset XADB_INIT_SHELL\n}\n    ");
    assert(s@ =~= function_head(shell) + exe@ + function_tail());
    s
}

} // verus!
