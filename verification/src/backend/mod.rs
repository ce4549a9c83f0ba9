//! What running a command yields, and the decision part of watching
//! terminal windows.

pub mod watch;

use vstd::prelude::*;

verus! {

/// The exit code and the captured output (stdout and stderr) of a command.
#[derive(Debug, Clone, PartialEq)]
pub struct CmdOutput {
    pub exit_code: i32,
    pub stdout: String,
}

impl View for CmdOutput {
    type V = (i32, Seq<char>);

    open spec fn view(&self) -> (i32, Seq<char>) {
        (self.exit_code, self.stdout@)
    }
}

impl CmdOutput {
    /// A copy of the output, equal to it.
    pub fn duplicate(&self) -> (r: CmdOutput)
        ensures
            r == *self,
    {
        CmdOutput { exit_code: self.exit_code, stdout: self.stdout.clone() }
    }
}

/// The id a terminal backend gives a window.
#[derive(Debug, Clone, PartialEq, Eq, Hash)]
pub struct WindowId(pub String);

impl WindowId {
    pub fn new(id: &str) -> (w: WindowId)
        ensures
            w.0@ == id@,
    {
        WindowId(String::from_str(id))
    }

    /// The id's text (what `Display` writes).
    pub fn to_string(&self) -> (s: String)
        ensures
            s@ == self.0@,
    {
        self.0.clone()
    }

    /// A copy of the id, equal to it.
    pub fn duplicate(&self) -> (r: WindowId)
        ensures
            r == *self,
    {
        WindowId(self.0.clone())
    }
}

/// A terminal window as the backend lists it.
#[derive(Debug, Clone, PartialEq)]
pub struct Terminal {
    pub id: WindowId,
    pub title: String,
    pub pid: u32,
    pub is_at_prompt: bool,
    pub last_cmd_exit_status: Option<i32>,
}

impl Terminal {
    /// A copy of the window, equal to it.
    pub fn duplicate(&self) -> (r: Terminal)
        ensures
            r == *self,
    {
        Terminal {
            id: self.id.duplicate(),
            title: self.title.clone(),
            pid: self.pid,
            is_at_prompt: self.is_at_prompt,
            last_cmd_exit_status: self.last_cmd_exit_status,
        }
    }
}

/// The script a command runs as: failing on the first error, also inside
/// pipelines.
pub open spec fn run_script_spec(command: Seq<char>) -> Seq<char> {
    "set -e -o pipefail;\n"@ + command
}

pub fn run_script(command: &str) -> (s: String)
    ensures
        s@ == run_script_spec(command@),
{
    let mut s = String::from_str("set -e -o pipefail;\n");
    s.append(command);
    s
}

/// The command that shows a file window: `cat "title"`.
pub open spec fn file_command_spec(title: Seq<char>) -> Seq<char> {
    "cat \""@ + title + "\""@
}

pub fn file_command(title: &str) -> (s: String)
    ensures
        s@ == file_command_spec(title@),
{
    let mut s = String::from_str("cat \"");
    s.append(title);
    s.append("\"");
    s
}

/// The output recorded when a command could not be started or its task
/// failed: exit code 1 and the reason after a label.
pub fn failure_output(label: &str, reason: &str) -> (o: CmdOutput)
    ensures
        o.exit_code == 1,
        o.stdout@ == label@ + reason@,
{
    let mut s = String::from_str(label);
    s.append(reason);
    CmdOutput { exit_code: 1, stdout: s }
}

/// Runs commands in a working directory on this machine.
pub struct LocalBackend {
    pub cwd: String,
}

impl LocalBackend {
    pub fn new(cwd: String) -> (b: LocalBackend)
        ensures
            b.cwd == cwd,
    {
        LocalBackend { cwd }
    }
}

} // verus!
