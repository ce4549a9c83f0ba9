//! Block modes and parsed blocks: the vocabulary of the response protocol.

use crate::response::edit_command::EditCommand;
use crate::text::chars_of;
use crate::text::chars_eq;
use vstd::prelude::*;

verus! {

/// What a fenced block in an agent response asks the kernel to do.
#[derive(Debug, Clone, PartialEq, Eq)]
pub enum BlockMode {
    Watch,
    Close,
    Exec,
    Ask,
    File,
    Edit(Option<EditCommand>),
    Write,
    Task,
    Delegate,
}

/// A block mode as plain values (an edit's command as its two texts).
pub enum ModeV {
    Watch,
    Close,
    Exec,
    Ask,
    File,
    Edit(Option<(Seq<char>, Seq<char>)>),
    Write,
    Task,
    Delegate,
}

impl View for BlockMode {
    type V = ModeV;

    open spec fn view(&self) -> ModeV {
        match self {
            BlockMode::Watch => ModeV::Watch,
            BlockMode::Close => ModeV::Close,
            BlockMode::Exec => ModeV::Exec,
            BlockMode::Ask => ModeV::Ask,
            BlockMode::File => ModeV::File,
            BlockMode::Edit(c) => ModeV::Edit(
                match c {
                    Some(cmd) => Some(cmd@),
                    None => None,
                },
            ),
            BlockMode::Write => ModeV::Write,
            BlockMode::Task => ModeV::Task,
            BlockMode::Delegate => ModeV::Delegate,
        }
    }
}

/// The canonical name of a mode, as it is written in block headers.
pub open spec fn mode_name(m: ModeV) -> Seq<char> {
    match m {
        ModeV::Watch => "watch"@,
        ModeV::Close => "close"@,
        ModeV::Exec => "exec"@,
        ModeV::Ask => "ask"@,
        ModeV::File => "file"@,
        ModeV::Edit(_) => "edit"@,
        ModeV::Write => "write"@,
        ModeV::Task => "task"@,
        ModeV::Delegate => "delegate"@,
    }
}

/// The mode a header names; `view` is an alias of `watch`, and an edit
/// block starts without a parsed command.
pub open spec fn mode_from_name(s: Seq<char>) -> Option<ModeV> {
    if s == "watch"@ || s == "view"@ {
        Some(ModeV::Watch)
    } else if s == "close"@ {
        Some(ModeV::Close)
    } else if s == "exec"@ {
        Some(ModeV::Exec)
    } else if s == "ask"@ {
        Some(ModeV::Ask)
    } else if s == "file"@ {
        Some(ModeV::File)
    } else if s == "edit"@ {
        Some(ModeV::Edit(None))
    } else if s == "write"@ {
        Some(ModeV::Write)
    } else if s == "task"@ {
        Some(ModeV::Task)
    } else if s == "delegate"@ {
        Some(ModeV::Delegate)
    } else {
        None
    }
}

/// Whether two string slices hold the same characters.
pub fn str_eq(a: &str, b: &str) -> (r: bool)
    ensures
        r == (a@ == b@),
{
    let x = chars_of(a);
    let y = chars_of(b);
    chars_eq(x.as_slice(), y.as_slice())
}

/// Reads a mode name (`FromStr`); an unknown name is refused with a message
/// that quotes it.
pub fn parse_block_mode(s: &str) -> (r: Result<BlockMode, String>)
    ensures
        r is Ok <==> mode_from_name(s@) is Some,
        r matches Ok(m) ==> mode_from_name(s@) == Some(m@),
        r matches Err(e) ==> e@ == "unknown block mode: "@ + s@,
{
    if str_eq(s, "watch") || str_eq(s, "view") {
        Ok(BlockMode::Watch)
    } else if str_eq(s, "close") {
        Ok(BlockMode::Close)
    } else if str_eq(s, "exec") {
        Ok(BlockMode::Exec)
    } else if str_eq(s, "ask") {
        Ok(BlockMode::Ask)
    } else if str_eq(s, "file") {
        Ok(BlockMode::File)
    } else if str_eq(s, "edit") {
        Ok(BlockMode::Edit(None))
    } else if str_eq(s, "write") {
        Ok(BlockMode::Write)
    } else if str_eq(s, "task") {
        Ok(BlockMode::Task)
    } else if str_eq(s, "delegate") {
        Ok(BlockMode::Delegate)
    } else {
        let mut e = String::new();
        e.append("unknown block mode: ");
        e.append(s);
        Err(e)
    }
}

impl std::str::FromStr for BlockMode {
    type Err = String;

    fn from_str(s: &str) -> (r: Result<Self, Self::Err>)
        ensures
            r is Ok <==> mode_from_name(s@) is Some,
            r matches Ok(m) ==> mode_from_name(s@) == Some(m@),
            r matches Err(e) ==> e@ == "unknown block mode: "@ + s@,
    {
        parse_block_mode(s)
    }
}

/// Whether a block of this mode must carry its body as a heredoc.
pub open spec fn spec_requires_heredoc(m: ModeV) -> bool {
    m is Write || m is Edit
}

/// Whether a block of this mode ends the life of its window or the session.
pub open spec fn spec_is_terminal(m: ModeV) -> bool {
    m is Close || m is Task || m is Delegate
}

impl BlockMode {
    /// The mode's name as a static string.
    pub fn name(&self) -> (s: &'static str)
        ensures
            s@ == mode_name(self@),
    {
        match self {
            BlockMode::Watch => "watch",
            BlockMode::Close => "close",
            BlockMode::Exec => "exec",
            BlockMode::Ask => "ask",
            BlockMode::File => "file",
            BlockMode::Edit(_) => "edit",
            BlockMode::Write => "write",
            BlockMode::Task => "task",
            BlockMode::Delegate => "delegate",
        }
    }

    /// The mode's name (what `Display` writes).
    pub fn to_string(&self) -> (s: String)
        ensures
            s@ == mode_name(self@),
    {
        String::from_str(self.name())
    }

    pub fn requires_heredoc(&self) -> (b: bool)
        ensures
            b == spec_requires_heredoc(self@),
    {
        match self {
            BlockMode::Write | BlockMode::Edit(_) => true,
            _ => false,
        }
    }

    pub fn is_terminal(self) -> (b: bool)
        ensures
            b == spec_is_terminal(self@),
    {
        match self {
            BlockMode::Close | BlockMode::Task | BlockMode::Delegate => true,
            _ => false,
        }
    }

    /// A copy of the mode, equal to it.
    pub fn duplicate(&self) -> (r: BlockMode)
        ensures
            r == *self,
    {
        match self {
            BlockMode::Watch => BlockMode::Watch,
            BlockMode::Close => BlockMode::Close,
            BlockMode::Exec => BlockMode::Exec,
            BlockMode::Ask => BlockMode::Ask,
            BlockMode::File => BlockMode::File,
            BlockMode::Edit(c) => BlockMode::Edit(
                match c {
                    Some(cmd) => Some(cmd.duplicate()),
                    None => None,
                },
            ),
            BlockMode::Write => BlockMode::Write,
            BlockMode::Task => BlockMode::Task,
            BlockMode::Delegate => BlockMode::Delegate,
        }
    }
}

/// A mode's name read back gives the mode (an edit comes back unparsed).
pub proof fn lemma_mode_name_roundtrip(m: ModeV)
    ensures
        mode_from_name(mode_name(m)) == Some(
            match m {
                ModeV::Edit(_) => ModeV::Edit(None),
                _ => m,
            },
        ),
{
    reveal_strlit("watch");
    reveal_strlit("view");
    reveal_strlit("close");
    reveal_strlit("exec");
    reveal_strlit("ask");
    reveal_strlit("file");
    reveal_strlit("edit");
    reveal_strlit("write");
    reveal_strlit("task");
    reveal_strlit("delegate");
    assert("watch"@.len() != "view"@.len());
    assert("watch"@ != "view"@);
    assert("watch"@[0] != "close"@[0]);
    assert("watch"@ != "close"@);
    assert("watch"@.len() != "exec"@.len());
    assert("watch"@ != "exec"@);
    assert("watch"@.len() != "ask"@.len());
    assert("watch"@ != "ask"@);
    assert("watch"@.len() != "file"@.len());
    assert("watch"@ != "file"@);
    assert("watch"@.len() != "edit"@.len());
    assert("watch"@ != "edit"@);
    assert("watch"@[1] != "write"@[1]);
    assert("watch"@ != "write"@);
    assert("watch"@.len() != "task"@.len());
    assert("watch"@ != "task"@);
    assert("watch"@.len() != "delegate"@.len());
    assert("watch"@ != "delegate"@);
    assert("view"@.len() != "close"@.len());
    assert("view"@ != "close"@);
    assert("view"@[0] != "exec"@[0]);
    assert("view"@ != "exec"@);
    assert("view"@.len() != "ask"@.len());
    assert("view"@ != "ask"@);
    assert("view"@[0] != "file"@[0]);
    assert("view"@ != "file"@);
    assert("view"@[0] != "edit"@[0]);
    assert("view"@ != "edit"@);
    assert("view"@.len() != "write"@.len());
    assert("view"@ != "write"@);
    assert("view"@[0] != "task"@[0]);
    assert("view"@ != "task"@);
    assert("view"@.len() != "delegate"@.len());
    assert("view"@ != "delegate"@);
    assert("close"@.len() != "exec"@.len());
    assert("close"@ != "exec"@);
    assert("close"@.len() != "ask"@.len());
    assert("close"@ != "ask"@);
    assert("close"@.len() != "file"@.len());
    assert("close"@ != "file"@);
    assert("close"@.len() != "edit"@.len());
    assert("close"@ != "edit"@);
    assert("close"@[0] != "write"@[0]);
    assert("close"@ != "write"@);
    assert("close"@.len() != "task"@.len());
    assert("close"@ != "task"@);
    assert("close"@.len() != "delegate"@.len());
    assert("close"@ != "delegate"@);
    assert("exec"@.len() != "ask"@.len());
    assert("exec"@ != "ask"@);
    assert("exec"@[0] != "file"@[0]);
    assert("exec"@ != "file"@);
    assert("exec"@[1] != "edit"@[1]);
    assert("exec"@ != "edit"@);
    assert("exec"@.len() != "write"@.len());
    assert("exec"@ != "write"@);
    assert("exec"@[0] != "task"@[0]);
    assert("exec"@ != "task"@);
    assert("exec"@.len() != "delegate"@.len());
    assert("exec"@ != "delegate"@);
    assert("ask"@.len() != "file"@.len());
    assert("ask"@ != "file"@);
    assert("ask"@.len() != "edit"@.len());
    assert("ask"@ != "edit"@);
    assert("ask"@.len() != "write"@.len());
    assert("ask"@ != "write"@);
    assert("ask"@.len() != "task"@.len());
    assert("ask"@ != "task"@);
    assert("ask"@.len() != "delegate"@.len());
    assert("ask"@ != "delegate"@);
    assert("file"@[0] != "edit"@[0]);
    assert("file"@ != "edit"@);
    assert("file"@.len() != "write"@.len());
    assert("file"@ != "write"@);
    assert("file"@[0] != "task"@[0]);
    assert("file"@ != "task"@);
    assert("file"@.len() != "delegate"@.len());
    assert("file"@ != "delegate"@);
    assert("edit"@.len() != "write"@.len());
    assert("edit"@ != "write"@);
    assert("edit"@[0] != "task"@[0]);
    assert("edit"@ != "task"@);
    assert("edit"@.len() != "delegate"@.len());
    assert("edit"@ != "delegate"@);
    assert("write"@.len() != "task"@.len());
    assert("write"@ != "task"@);
    assert("write"@.len() != "delegate"@.len());
    assert("write"@ != "delegate"@);
    assert("task"@.len() != "delegate"@.len());
    assert("task"@ != "delegate"@);
}

/// One block of an agent response: the window (or file) it addresses, what
/// to do, its body, the prose written before it, and whether it is pinned
/// to the dashboard.
#[derive(Debug, Clone, PartialEq)]
pub struct ParsedBlock {
    pub window: String,
    pub mode: BlockMode,
    pub content: String,
    pub prose: Option<String>,
    pub dashboard: bool,
}

/// A parsed block as plain values.
pub struct BlockV {
    pub window: Seq<char>,
    pub mode: ModeV,
    pub content: Seq<char>,
    pub prose: Option<Seq<char>>,
    pub dashboard: bool,
}

pub open spec fn opt_view(o: Option<String>) -> Option<Seq<char>> {
    match o {
        Some(s) => Some(s@),
        None => None,
    }
}

impl View for ParsedBlock {
    type V = BlockV;

    open spec fn view(&self) -> BlockV {
        BlockV {
            window: self.window@,
            mode: self.mode@,
            content: self.content@,
            prose: opt_view(self.prose),
            dashboard: self.dashboard,
        }
    }
}

/// The views of a sequence of blocks.
pub open spec fn blocks_view(v: Seq<ParsedBlock>) -> Seq<BlockV> {
    v.map_values(|b: ParsedBlock| b@)
}

/// The views of a sequence of strings.
pub open spec fn strings_view(v: Seq<String>) -> Seq<Seq<char>> {
    v.map_values(|s: String| s@)
}

impl ParsedBlock {
    /// A copy of the block, equal to it.
    pub fn duplicate(&self) -> (r: ParsedBlock)
        ensures
            r == *self,
    {
        ParsedBlock {
            window: self.window.clone(),
            mode: self.mode.duplicate(),
            content: self.content.clone(),
            prose: match &self.prose {
                Some(p) => Some(p.clone()),
                None => None,
            },
            dashboard: self.dashboard,
        }
    }
}

} // verus!
