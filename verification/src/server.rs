//! The kernel's decisions on a tick: how an agent response changes the
//! windows and their outputs, as a state machine that asks its driver to
//! run commands, read files and ask the user, one at a time.

use crate::agent::{AgentError, AgentResponse, ResponseV};
use crate::backend::CmdOutput;
use crate::numfmt::{dec, u64_to_string};
use crate::response::edit_command::{EditCommand, EditError, EditFault, fault_message};
use crate::state::{OutputMap, State};
use crate::text::{chars_eq, chars_of, find, find_from, lemma_find_from, slice, string_of};
use crate::types::{BlockMode, BlockV, ModeV, ParsedBlock, blocks_view};
use vstd::prelude::*;

verus! {

/// Why a tick could not be run.
#[derive(Debug)]
pub enum CoreError {
    /// Reading or writing the session failed; the text is the I/O error's
    /// message.
    Io(String),
    Agent(AgentError),
    Edit(EditError),
    Interrupted,
}

impl CoreError {
    /// The error's message (what `Display` writes).
    pub fn to_string(&self) -> (s: String)
        ensures
            match self {
                CoreError::Io(m) => s@ == "IO error: "@ + m@,
                CoreError::Agent(e) => s@ == "agent error: "@ + crate::agent::agent_error_message(*e),
                CoreError::Edit(e) => s@ == "edit error: "@ + fault_message(e@),
                CoreError::Interrupted => s@ == "Ctrl-C received"@,
            },
    {
        match self {
            CoreError::Io(m) => {
                let mut s = String::from_str("IO error: ");
                s.append(m.as_str());
                s
            },
            CoreError::Agent(e) => {
                let mut s = String::from_str("agent error: ");
                s.append(e.to_string().as_str());
                s
            },
            CoreError::Edit(e) => {
                let mut s = String::from_str("edit error: ");
                s.append(e.to_string().as_str());
                s
            },
            CoreError::Interrupted => String::from_str("Ctrl-C received"),
        }
    }
}

/// The position of the first block for this window.
pub open spec fn window_pos(segs: Seq<BlockV>, w: Seq<char>) -> Option<int>
    decreases segs.len(),
{
    if segs.len() == 0 {
        None
    } else {
        match window_pos(segs.drop_last(), w) {
            Some(i) => Some(i),
            None => if segs.last().window == w {
                Some(segs.len() - 1)
            } else {
                None
            },
        }
    }
}

pub proof fn lemma_window_pos(segs: Seq<BlockV>, w: Seq<char>)
    ensures
        match window_pos(segs, w) {
            Some(i) => 0 <= i < segs.len() && segs[i].window == w && forall|j: int|
                0 <= j < i ==> segs[j].window != w,
            None => forall|j: int| 0 <= j < segs.len() ==> segs[j].window != w,
        },
    decreases segs.len(),
{
    if segs.len() > 0 {
        lemma_window_pos(segs.drop_last(), w);
        assert forall|j: int| 0 <= j < segs.len() - 1 implies segs[j] == segs.drop_last()[j] by {}
    }
}

/// A block put in place of the first block for its window, or added at the
/// end.
pub open spec fn upsert_spec(segs: Seq<BlockV>, b: BlockV) -> Seq<BlockV> {
    match window_pos(segs, b.window) {
        Some(i) => segs.update(i, b),
        None => segs.push(b),
    }
}

/// The first block for the window moved to the end.
pub open spec fn move_to_end_spec(segs: Seq<BlockV>, w: Seq<char>) -> Seq<BlockV> {
    match window_pos(segs, w) {
        Some(i) => segs.remove(i).push(segs[i]),
        None => segs,
    }
}

/// The blocks for other windows than `w`, in order.
pub open spec fn without_window(segs: Seq<BlockV>, w: Seq<char>) -> Seq<BlockV>
    decreases segs.len(),
{
    if segs.len() == 0 {
        seq![]
    } else if segs.last().window == w {
        without_window(segs.drop_last(), w)
    } else {
        without_window(segs.drop_last(), w).push(segs.last())
    }
}

fn window_index(segments: &Vec<ParsedBlock>, window: &str) -> (r: Option<usize>)
    ensures
        match r {
            Some(i) => window_pos(blocks_view(segments@), window@) == Some(i as int) && i
                < segments@.len(),
            None => window_pos(blocks_view(segments@), window@) is None,
        },
{
    let ghost bv = blocks_view(segments@);
    proof {
        lemma_window_pos(bv, window@);
    }
    let w = chars_of(window);
    let mut i: usize = 0;
    while i < segments.len()
        invariant
            0 <= i <= segments@.len(),
            bv == blocks_view(segments@),
            w@ == window@,
            forall|j: int| 0 <= j < i ==> bv[j].window != window@,
        decreases segments@.len() - i,
    {
        let c = chars_of(segments[i].window.as_str());
        assert(bv[i as int] == segments@[i as int]@);
        if chars_eq(c.as_slice(), w.as_slice()) {
            proof {
                lemma_window_pos(bv, window@);
                match window_pos(bv, window@) {
                    Some(k) => {
                        if k != i {
                            assert(bv[k].window == window@);
                        }
                    },
                    None => {},
                }
            }
            return Some(i);
        }
        i = i + 1;
    }
    proof {
        lemma_window_pos(bv, window@);
        match window_pos(bv, window@) {
            Some(k) => {
                assert(bv[k].window == window@);
            },
            None => {},
        }
    }
    None
}

/// Puts a block in place of the first block for its window, or adds it at
/// the end.
pub fn upsert_segment(segments: &mut Vec<ParsedBlock>, block: ParsedBlock)
    ensures
        blocks_view(final(segments)@) == upsert_spec(blocks_view(old(segments)@), block@),
{
    let ghost bv = blocks_view(segments@);
    match window_index(segments, block.window.as_str()) {
        Some(i) => {
            let ghost b = block@;
            segments.set(i, block);
            assert(blocks_view(segments@) =~= bv.update(i as int, b));
        },
        None => {
            let ghost b = block@;
            segments.push(block);
            assert(blocks_view(segments@) =~= bv.push(b));
        },
    }
}

/// Moves the first block for the window to the end.
pub fn move_to_end(segments: &mut Vec<ParsedBlock>, window: &str)
    ensures
        blocks_view(final(segments)@) == move_to_end_spec(blocks_view(old(segments)@), window@),
{
    let ghost bv = blocks_view(segments@);
    match window_index(segments, window) {
        Some(i) => {
            let seg = segments.remove(i);
            assert(blocks_view(segments@) =~= bv.remove(i as int));
            assert(seg@ == bv[i as int]);
            let ghost mid = blocks_view(segments@);
            segments.push(seg);
            assert(blocks_view(segments@) =~= mid.push(bv[i as int]));
        },
        None => {},
    }
}

/// Drops every block for the window.
pub fn remove_window(segments: &mut Vec<ParsedBlock>, window: &str)
    ensures
        blocks_view(final(segments)@) == without_window(blocks_view(old(segments)@), window@),
{
    let ghost bv = blocks_view(segments@);
    let w = chars_of(window);
    let mut kept: Vec<ParsedBlock> = Vec::new();
    let mut i: usize = 0;
    while i < segments.len()
        invariant
            0 <= i <= segments@.len(),
            bv == blocks_view(segments@),
            w@ == window@,
            blocks_view(kept@) == without_window(bv.take(i as int), window@),
        decreases segments@.len() - i,
    {
        let c = chars_of(segments[i].window.as_str());
        assert(bv[i as int] == segments@[i as int]@);
        assert(bv.take(i + 1).drop_last() =~= bv.take(i as int));
        if !chars_eq(c.as_slice(), w.as_slice()) {
            let ghost pre = blocks_view(kept@);
            kept.push(segments[i].duplicate());
            assert(blocks_view(kept@) =~= pre.push(bv[i as int]));
        }
        i = i + 1;
    }
    assert(bv.take(bv.len() as int) =~= bv);
    *segments = kept;
}

/// A word quoted for the shell: in single quotes, each single quote
/// written as `'"'"'`.
pub open spec fn shell_quote_from(s: Seq<char>, i: int) -> Seq<char>
    decreases s.len() - i,
{
    if i < 0 || i >= s.len() {
        seq![]
    } else if s[i] == '\'' {
        seq!['\'', '"', '\'', '"', '\''] + shell_quote_from(s, i + 1)
    } else {
        seq![s[i]] + shell_quote_from(s, i + 1)
    }
}

pub open spec fn shell_escape_spec(s: Seq<char>) -> Seq<char> {
    seq!['\''] + shell_quote_from(s, 0) + seq!['\'']
}

/// Quotes a word for the shell.
pub fn shell_escape(s: &str) -> (r: String)
    ensures
        r@ == shell_escape_spec(s@),
{
    let v = chars_of(s);
    let mut tail: Vec<char> = Vec::new();
    let mut i = v.len();
    while i > 0
        invariant
            i <= v@.len(),
            v@ == s@,
            tail@ == shell_quote_from(s@, i as int),
        decreases i,
    {
        i = i - 1;
        let mut t: Vec<char> = Vec::new();
        if v[i] == '\'' {
            t.push('\'');
            t.push('"');
            t.push('\'');
            t.push('"');
            t.push('\'');
        } else {
            t.push(v[i]);
        }
        let mut k: usize = 0;
        let ghost pre = t@;
        while k < tail.len()
            invariant
                0 <= k <= tail@.len(),
                t@ == pre + tail@.take(k as int),
            decreases tail@.len() - k,
        {
            t.push(tail[k]);
            assert(t@ =~= pre + tail@.take(k + 1));
            k = k + 1;
        }
        assert(tail@.take(tail@.len() as int) =~= tail@);
        tail = t;
    }
    let mut out: Vec<char> = Vec::new();
    out.push('\'');
    let mut k: usize = 0;
    while k < tail.len()
        invariant
            0 <= k <= tail@.len(),
            out@ == seq!['\''] + tail@.take(k as int),
        decreases tail@.len() - k,
    {
        out.push(tail[k]);
        assert(out@ =~= seq!['\''] + tail@.take(k + 1));
        k = k + 1;
    }
    out.push('\'');
    assert(out@ =~= shell_escape_spec(s@));
    string_of(out.as_slice())
}

/// The command that writes a file's content: a quoted heredoc.
pub open spec fn write_script_spec(path: Seq<char>, content: Seq<char>) -> Seq<char> {
    "cat > "@ + path + " << 'TAIWRITE'\n"@ + content + "\nTAIWRITE"@
}

pub fn write_script(path: &str, content: &str) -> (s: String)
    ensures
        s@ == write_script_spec(path@, content@),
{
    let mut s = String::from_str("cat > ");
    s.append(path);
    s.append(" << 'TAIWRITE'\n");
    s.append(content);
    s.append("\nTAIWRITE");
    s
}

/// How a delegate runs: a child session of this program under the
/// session's `delegates` directory, without delegates of its own, with the
/// block's content as its task.
pub struct TickConfig {
    pub no_delegate: bool,
    pub max_ticks: Option<u64>,
    /// The path of this program.
    pub exe: String,
    /// The path of this session.
    pub session_path: String,
}

/// A path joined to a base as `Path::join` does on Unix: an absolute path
/// replaces the base; otherwise it follows the base, after a `/` unless
/// the base is empty or already ends in one.
pub open spec fn path_join_spec(base: Seq<char>, p: Seq<char>) -> Seq<char> {
    if p.len() > 0 && p[0] == '/' {
        p
    } else if base.len() == 0 || base.last() == '/' {
        base + p
    } else {
        base + seq!['/'] + p
    }
}

/// Joins a path to a base (`Path::join` on Unix).
pub fn path_join(base: &str, p: &str) -> (r: String)
    ensures
        r@ == path_join_spec(base@, p@),
{
    let pv = chars_of(p);
    let bv = chars_of(base);
    if pv.len() > 0 && pv[0] == '/' {
        return p.to_string();
    }
    let mut r = base.to_string();
    if !(bv.len() == 0 || bv[bv.len() - 1] == '/') {
        r.append("/");
    }
    r.append(p);
    proof {
        reveal_strlit("/");
    }
    r
}

pub open spec fn delegate_command_spec(cfg: TickConfig, window: Seq<char>, task: Seq<char>) -> Seq<
    char,
> {
    let child = path_join_spec(path_join_spec(cfg.session_path@, "delegates"@), window);
    shell_escape_spec(cfg.exe@) + " --session "@ + shell_escape_spec(child) + match cfg.max_ticks {
        Some(m) => " --max-ticks "@ + dec(m as nat),
        None => seq![],
    } + " --no-delegate"@ + " <<'TAIEOF'\n"@ + task + "\nTAIEOF"@
}

pub fn delegate_command(cfg: &TickConfig, window: &str, task: &str) -> (s: String)
    ensures
        s@ == delegate_command_spec(*cfg, window@, task@),
{
    let dir = path_join(cfg.session_path.as_str(), "delegates");
    let child = path_join(dir.as_str(), window);
    let mut s = shell_escape(cfg.exe.as_str());
    s.append(" --session ");
    s.append(shell_escape(child.as_str()).as_str());
    match cfg.max_ticks {
        Some(m) => {
            s.append(" --max-ticks ");
            s.append(u64_to_string(m).as_str());
        },
        None => {},
    }
    s.append(" --no-delegate");
    s.append(" <<'TAIEOF'\n");
    s.append(task);
    s.append("\nTAIEOF");
    s
}

/// The text with the first occurrence of `search` replaced, or why not.
pub open spec fn replace_first(c: Seq<char>, search: Seq<char>, replace: Seq<char>) -> Result<
    Seq<char>,
    EditFault,
> {
    match find_from(c, search, 0) {
        Some(i) => Ok(c.take(i) + replace + c.skip(i + search.len())),
        None => Err(EditFault::SearchNotFound { search }),
    }
}

/// The commands applied one after the other.
pub open spec fn apply_commands_spec(c: Seq<char>, cmds: Seq<(Seq<char>, Seq<char>)>) -> Result<
    Seq<char>,
    EditFault,
>
    decreases cmds.len(),
{
    if cmds.len() == 0 {
        Ok(c)
    } else {
        match apply_commands_spec(c, cmds.drop_last()) {
            Ok(d) => replace_first(d, cmds.last().0, cmds.last().1),
            Err(f) => Err(f),
        }
    }
}

pub open spec fn cmds_view(v: Seq<EditCommand>) -> Seq<(Seq<char>, Seq<char>)> {
    v.map_values(|c: EditCommand| c@)
}

/// Once a command fails, the rest fail the same way.
pub proof fn lemma_apply_err_prefix(c: Seq<char>, cmds: Seq<(Seq<char>, Seq<char>)>, k: int, m: int)
    requires
        0 <= k <= m <= cmds.len(),
        apply_commands_spec(c, cmds.take(k)) is Err,
    ensures
        apply_commands_spec(c, cmds.take(m)) == apply_commands_spec(c, cmds.take(k)),
    decreases m - k,
{
    if k < m {
        lemma_apply_err_prefix(c, cmds, k, m - 1);
        assert(cmds.take(m).drop_last() =~= cmds.take(m - 1));
    }
}

/// Applies edit commands to a file's content, each replacing the first
/// occurrence of its search text in what the ones before it left.
pub fn apply_commands(content: &str, cmds: &Vec<EditCommand>) -> (r: Result<String, EditError>)
    ensures
        match apply_commands_spec(content@, cmds_view(cmds@)) {
            Ok(c) => r matches Ok(s) && s@ == c,
            Err(f) => r matches Err(e) && e@ == f,
        },
{
    let ghost cv = cmds_view(cmds@);
    let mut cur = chars_of(content);
    let mut i: usize = 0;
    assert(cv.take(0) =~= Seq::<(Seq<char>, Seq<char>)>::empty());
    while i < cmds.len()
        invariant
            0 <= i <= cmds@.len(),
            cv == cmds_view(cmds@),
            apply_commands_spec(content@, cv.take(i as int)) == Ok::<Seq<char>, EditFault>(cur@),
        decreases cmds@.len() - i,
    {
        let c = &cmds[i];
        assert(cv[i as int] == c@);
        assert(cv.take(i + 1).drop_last() =~= cv.take(i as int));
        let p = chars_of(c.search.as_str());
        match find(cur.as_slice(), p.as_slice(), 0) {
            Some(k) => {
                proof {
                    lemma_find_from(cur@, p@, 0);
                }
                let n = cur.len();
                let mut next = slice(cur.as_slice(), 0, k);
                let rv = chars_of(c.replace.as_str());
                let mut j: usize = 0;
                let ghost pre = next@;
                while j < rv.len()
                    invariant
                        0 <= j <= rv@.len(),
                        next@ == pre + rv@.take(j as int),
                    decreases rv@.len() - j,
                {
                    next.push(rv[j]);
                    assert(next@ =~= pre + rv@.take(j + 1));
                    j = j + 1;
                }
                assert(rv@.take(rv@.len() as int) =~= rv@);
                let ghost mid = next@;
                let mut t = k + p.len();
                while t < n
                    invariant
                        k + p@.len() <= t <= n == cur@.len(),
                        next@ == mid + cur@.subrange(k + p@.len(), t as int),
                    decreases n - t,
                {
                    next.push(cur[t]);
                    assert(next@ =~= mid + cur@.subrange(k + p@.len(), t + 1));
                    t = t + 1;
                }
                assert(next@ =~= cur@.take(k as int) + c.replace@ + cur@.skip(k + p@.len()));
                cur = next;
            },
            None => {
                proof {
                    lemma_apply_err_prefix(content@, cv, i + 1, cv.len() as int);
                    assert(cv.take(cv.len() as int) =~= cv);
                }
                return Err(EditError::SearchNotFound { search: c.search.clone() });
            },
        }
        i = i + 1;
    }
    assert(cv.take(cmds@.len() as int) =~= cv);
    Ok(string_of(cur.as_slice()))
}

/// The tick state as plain values.
pub struct StateV {
    pub segments: Seq<BlockV>,
    pub outputs: Map<Seq<char>, (i32, Seq<char>)>,
    pub tick_n: u64,
    pub task: Seq<char>,
    pub completed: bool,
}

pub open spec fn state_v(s: State) -> StateV {
    StateV {
        segments: blocks_view(s.segments@),
        outputs: s.outputs.map(),
        tick_n: s.tick_n,
        task: s.task@,
        completed: s.is_completed,
    }
}

/// What a tick's state must be for the machine to run on it: a readable
/// output map.
pub open spec fn state_ok(s: State) -> bool {
    s.outputs.wf()
}

/// The kinds of block, by what the tick does with them.
#[derive(PartialEq, Eq, Structural)]
pub enum Kind {
    Close,
    Ask,
    Exec,
    Watch,
    File,
    Write,
    Edit,
    Delegate,
    Task,
}

pub open spec fn kind_of(m: ModeV) -> Kind {
    match m {
        ModeV::Close => Kind::Close,
        ModeV::Ask => Kind::Ask,
        ModeV::Exec => Kind::Exec,
        ModeV::Watch => Kind::Watch,
        ModeV::File => Kind::File,
        ModeV::Write => Kind::Write,
        ModeV::Edit(_) => Kind::Edit,
        ModeV::Delegate => Kind::Delegate,
        ModeV::Task => Kind::Task,
    }
}

/// The first `k` blocks of a kind, in order.
pub open spec fn select_upto(bs: Seq<BlockV>, kind: Kind, k: int) -> Seq<BlockV>
    decreases k,
{
    if k <= 0 || k > bs.len() {
        seq![]
    } else if kind_of(bs[k - 1].mode) == kind {
        select_upto(bs, kind, k - 1).push(bs[k - 1])
    } else {
        select_upto(bs, kind, k - 1)
    }
}

pub open spec fn select(bs: Seq<BlockV>, kind: Kind) -> Seq<BlockV> {
    select_upto(bs, kind, bs.len() as int)
}

/// Edit blocks grouped by window, the groups in order of first
/// appearance, each group's blocks in order.
pub open spec fn group_of(groups: Seq<(Seq<char>, Seq<BlockV>)>, w: Seq<char>) -> Option<int>
    decreases groups.len(),
{
    if groups.len() == 0 {
        None
    } else if groups.last().0 == w {
        Some(groups.len() - 1)
    } else {
        group_of(groups.drop_last(), w)
    }
}

pub open spec fn add_to_groups(groups: Seq<(Seq<char>, Seq<BlockV>)>, b: BlockV) -> Seq<
    (Seq<char>, Seq<BlockV>),
> {
    match group_of(groups, b.window) {
        Some(g) => groups.update(g, (groups[g].0, groups[g].1.push(b))),
        None => groups.push((b.window, seq![b])),
    }
}

pub open spec fn groups_upto(edits: Seq<BlockV>, k: int) -> Seq<(Seq<char>, Seq<BlockV>)>
    decreases k,
{
    if k <= 0 || k > edits.len() {
        seq![]
    } else {
        add_to_groups(groups_upto(edits, k - 1), edits[k - 1])
    }
}

pub open spec fn edit_groups(edits: Seq<BlockV>) -> Seq<(Seq<char>, Seq<BlockV>)> {
    groups_upto(edits, edits.len() as int)
}

/// The windows closed one after the other: their blocks dropped from the
/// segments.
pub open spec fn close_segments(segs: Seq<BlockV>, closes: Seq<BlockV>) -> Seq<BlockV>
    decreases closes.len(),
{
    if closes.len() == 0 {
        segs
    } else {
        without_window(close_segments(segs, closes.drop_last()), closes.last().window)
    }
}

/// ... and their outputs dropped.
pub open spec fn close_outputs(
    outs: Map<Seq<char>, (i32, Seq<char>)>,
    closes: Seq<BlockV>,
) -> Map<Seq<char>, (i32, Seq<char>)>
    decreases closes.len(),
{
    if closes.len() == 0 {
        outs
    } else {
        close_outputs(outs, closes.drop_last()).remove(closes.last().window)
    }
}

/// Blocks put in one after the other.
pub open spec fn upsert_all(segs: Seq<BlockV>, bs: Seq<BlockV>) -> Seq<BlockV>
    decreases bs.len(),
{
    if bs.len() == 0 {
        segs
    } else {
        upsert_spec(upsert_all(segs, bs.drop_last()), bs.last())
    }
}

/// An edit group's commands, or the first reason one of its blocks cannot
/// be applied: a command that did not parse, or (when the window shows the
/// file) a search text that does not occur there exactly once.
pub open spec fn group_check_upto(bs: Seq<BlockV>, prev: Option<Seq<char>>, k: int) -> Result<
    Seq<(Seq<char>, Seq<char>)>,
    EditFault,
>
    decreases k,
{
    if k <= 0 || k > bs.len() {
        Ok(seq![])
    } else {
        match group_check_upto(bs, prev, k - 1) {
            Err(f) => Err(f),
            Ok(cmds) => match bs[k - 1].mode {
                ModeV::Edit(None) => Err(
                    EditFault::Parse { line: 0, message: "edit commands not parsed"@ },
                ),
                ModeV::Edit(Some(c)) => match prev {
                    Some(p) => match crate::response::edit_command::texts_check_spec(c.0, p) {
                        Err(f) => Err(f),
                        Ok(_) => Ok(cmds.push(c)),
                    },
                    None => Ok(cmds.push(c)),
                },
                _ => Ok(cmds),
            },
        }
    }
}

pub open spec fn group_check(bs: Seq<BlockV>, prev: Option<Seq<char>>) -> Result<
    Seq<(Seq<char>, Seq<char>)>,
    EditFault,
> {
    group_check_upto(bs, prev, bs.len() as int)
}

/// The output recorded for an edit that cannot be applied.
pub open spec fn edit_error_output(f: EditFault) -> (i32, Seq<char>) {
    (1, "edit error: "@ + fault_message(f))
}

/// The content an edit writes back: without one trailing newline, which
/// the write adds again.
pub open spec fn write_body(c: Seq<char>) -> Seq<char> {
    if c.len() > 0 && c.last() == '\n' {
        c.drop_last()
    } else {
        c
    }
}

/// Where a tick stands.
#[derive(Debug, Clone, Copy, PartialEq, Eq, Structural)]
pub enum Stage {
    Ask,
    Exec,
    WriteRun,
    WriteRead,
    Edit,
    EditFetch,
    EditRun,
    EditRead,
    Delegate,
    Settle,
    Refresh,
    Finished,
}

/// The edit blocks for one window.
pub struct EditGroup {
    pub path: String,
    pub blocks: Vec<ParsedBlock>,
}

pub open spec fn groups_view(v: Seq<EditGroup>) -> Seq<(Seq<char>, Seq<BlockV>)> {
    v.map_values(|g: EditGroup| (g.path@, blocks_view(g.blocks@)))
}

/// What the driver of a tick is asked to do next.
pub enum Op {
    /// Ask the user the question; hand the answer to `deliver_answer`.
    Ask { window: String, question: String },
    /// Run the command for the window; hand its output to `deliver`.
    Run { window: String, command: String },
    /// Show the file; hand its output to `deliver`.
    ReadFile { window: String },
    /// Call `step` again.
    Continue,
    /// The tick is over; whether the task is complete.
    Done(bool),
}

pub enum OpV {
    Ask { window: Seq<char>, question: Seq<char> },
    Run { window: Seq<char>, command: Seq<char> },
    ReadFile { window: Seq<char> },
    Continue,
    Done(bool),
}

impl View for Op {
    type V = OpV;

    open spec fn view(&self) -> OpV {
        match self {
            Op::Ask { window, question } => OpV::Ask { window: window@, question: question@ },
            Op::Run { window, command } => OpV::Run { window: window@, command: command@ },
            Op::ReadFile { window } => OpV::ReadFile { window: window@ },
            Op::Continue => OpV::Continue,
            Op::Done(b) => OpV::Done(*b),
        }
    }
}

/// An agent response being applied to the tick state.
pub struct TickRun {
    asks: Vec<ParsedBlock>,
    execs: Vec<ParsedBlock>,
    writes: Vec<ParsedBlock>,
    groups: Vec<EditGroup>,
    delegates: Vec<ParsedBlock>,
    files: Vec<ParsedBlock>,
    watches: Vec<ParsedBlock>,
    stage: Stage,
    i: usize,
    edited: String,
    complete: bool,
    cfg: TickConfig,
}

/// A tick being applied, as plain values.
pub struct TickV {
    pub stage: Stage,
    pub i: nat,
    pub asks: Seq<BlockV>,
    pub execs: Seq<BlockV>,
    pub writes: Seq<BlockV>,
    pub groups: Seq<(Seq<char>, Seq<BlockV>)>,
    pub delegates: Seq<BlockV>,
    pub files: Seq<BlockV>,
    pub watches: Seq<BlockV>,
    pub edited: Seq<char>,
    pub complete: bool,
}

impl View for TickRun {
    type V = TickV;

    closed spec fn view(&self) -> TickV {
        TickV {
            stage: self.stage,
            i: self.i as nat,
            asks: blocks_view(self.asks@),
            execs: blocks_view(self.execs@),
            writes: blocks_view(self.writes@),
            groups: groups_view(self.groups@),
            delegates: blocks_view(self.delegates@),
            files: blocks_view(self.files@),
            watches: blocks_view(self.watches@),
            edited: self.edited@,
            complete: self.complete,
        }
    }
}

/// The tick's blocks sorted into what is done with them.
pub open spec fn tick_for(r: ResponseV, stage: Stage) -> TickV {
    let edits = select(r.segments, Kind::Edit);
    TickV {
        stage,
        i: 0,
        asks: select(r.segments, Kind::Ask),
        execs: select(r.segments, Kind::Exec),
        writes: select(r.segments, Kind::Write),
        groups: edit_groups(edits),
        delegates: select(r.segments, Kind::Delegate),
        files: select(r.segments, Kind::File),
        watches: select(r.segments, Kind::Watch),
        edited: seq![],
        complete: r.complete,
    }
}

/// The state once a response is taken in: the tick advances, the task is
/// the response's, and the closed windows are gone with their outputs.
pub open spec fn begin_state(sv: StateV, r: ResponseV) -> StateV {
    let closes = select(r.segments, Kind::Close);
    StateV {
        tick_n: (sv.tick_n + 1) as u64,
        task: r.task,
        segments: close_segments(sv.segments, closes),
        outputs: close_outputs(sv.outputs, closes),
        ..sv
    }
}

/// A step of the tick: the next outside action, or what is done without
/// one (see each stage).
pub open spec fn step_spec(t: TickV, cfg: TickConfig, sv: StateV) -> (TickV, StateV, OpV) {
    let i = t.i as int;
    match t.stage {
        Stage::Ask => if i < t.asks.len() {
            (t, sv, OpV::Ask { window: t.asks[i].window, question: t.asks[i].content })
        } else {
            (TickV { stage: Stage::Exec, i: 0, ..t }, sv, OpV::Continue)
        },
        Stage::Exec => if i < t.execs.len() {
            (t, sv, OpV::Run { window: t.execs[i].window, command: t.execs[i].content })
        } else {
            (TickV { stage: Stage::WriteRun, i: 0, ..t }, sv, OpV::Continue)
        },
        Stage::WriteRun => if i < t.writes.len() {
            (
                t,
                sv,
                OpV::Run {
                    window: t.writes[i].window,
                    command: write_script_spec(t.writes[i].window, t.writes[i].content),
                },
            )
        } else {
            (TickV { stage: Stage::Edit, i: 0, ..t }, sv, OpV::Continue)
        },
        Stage::WriteRead => if i < t.writes.len() {
            (t, sv, OpV::ReadFile { window: t.writes[i].window })
        } else {
            (TickV { stage: Stage::WriteRun, ..t }, sv, OpV::Continue)
        },
        Stage::Edit => if i < t.groups.len() {
            edit_step(t, sv)
        } else {
            (TickV { stage: Stage::Delegate, i: 0, ..t }, sv, OpV::Continue)
        },
        Stage::EditFetch => if i < t.groups.len() {
            (t, sv, OpV::ReadFile { window: t.groups[i].0 })
        } else {
            (TickV { stage: Stage::Edit, ..t }, sv, OpV::Continue)
        },
        Stage::EditRun => if i < t.groups.len() {
            (
                t,
                sv,
                OpV::Run {
                    window: t.groups[i].0,
                    command: write_script_spec(t.groups[i].0, write_body(t.edited)),
                },
            )
        } else {
            (TickV { stage: Stage::Edit, ..t }, sv, OpV::Continue)
        },
        Stage::EditRead => if i < t.groups.len() {
            (t, sv, OpV::ReadFile { window: t.groups[i].0 })
        } else {
            (TickV { stage: Stage::Edit, ..t }, sv, OpV::Continue)
        },
        Stage::Delegate => if i < t.delegates.len() {
            let b = t.delegates[i];
            if sv.outputs.dom().contains(b.window) {
                (TickV { i: t.i + 1, ..t }, sv, OpV::Continue)
            } else if cfg.no_delegate {
                (
                    TickV { i: t.i + 1, ..t },
                    StateV {
                        outputs: sv.outputs.insert(b.window, (1, "delegate disabled"@)),
                        segments: upsert_spec(sv.segments, b),
                        ..sv
                    },
                    OpV::Continue,
                )
            } else {
                (
                    t,
                    sv,
                    OpV::Run {
                        window: b.window,
                        command: delegate_command_spec(cfg, b.window, b.content),
                    },
                )
            }
        } else {
            (TickV { stage: Stage::Settle, i: 0, ..t }, sv, OpV::Continue)
        },
        Stage::Settle => (
            TickV { stage: Stage::Refresh, i: 0, ..t },
            StateV { segments: upsert_all(upsert_all(sv.segments, t.files), t.watches), ..sv },
            OpV::Continue,
        ),
        Stage::Refresh => if i < sv.segments.len() {
            let b = sv.segments[i];
            if b.mode == ModeV::Watch {
                (t, sv, OpV::Run { window: b.window, command: b.content })
            } else if b.mode == ModeV::File {
                (t, sv, OpV::ReadFile { window: b.window })
            } else {
                (TickV { i: t.i + 1, ..t }, sv, OpV::Continue)
            }
        } else {
            (
                TickV { stage: Stage::Finished, ..t },
                StateV { completed: t.complete, ..sv },
                OpV::Done(t.complete),
            )
        },
        Stage::Finished => (t, sv, OpV::Done(sv.completed)),
    }
}

/// An edit group's step: its texts are checked against what the window
/// shows, if anything; a group that fails records the reason as its
/// window's output; otherwise the file is read afresh, and the edits are
/// applied to what is read.
pub open spec fn edit_step(t: TickV, sv: StateV) -> (TickV, StateV, OpV) {
    let (path, bs) = t.groups[t.i as int];
    let prev = if sv.outputs.dom().contains(path) {
        Some(sv.outputs[path].1)
    } else {
        None
    };
    match group_check(bs, prev) {
        Err(f) => (
            TickV { i: t.i + 1, ..t },
            StateV { outputs: sv.outputs.insert(path, edit_error_output(f)), ..sv },
            OpV::Continue,
        ),
        Ok(cmds) => if cmds.len() == 0 {
            (TickV { i: t.i + 1, ..t }, sv, OpV::Continue)
        } else {
            (TickV { stage: Stage::EditFetch, ..t }, sv, OpV::ReadFile { window: path })
        },
    }
}

/// A result handed back for the pending action: it is recorded as the
/// window's output, and the block is put into the segments (a written or
/// edited file's block moved to the end first); the result of a write or
/// an edit's write only moves on to reading the file back.
pub open spec fn deliver_spec(t: TickV, sv: StateV, out: (i32, Seq<char>)) -> (TickV, StateV) {
    let i = t.i as int;
    let next = TickV { i: t.i + 1, ..t };
    match t.stage {
        Stage::Ask => if i < t.asks.len() {
            let b = t.asks[i];
            (next, StateV { outputs: sv.outputs.insert(b.window, out), segments: upsert_spec(sv.segments, b), ..sv })
        } else {
            (t, sv)
        },
        Stage::Exec => if i < t.execs.len() {
            let b = t.execs[i];
            (next, StateV { outputs: sv.outputs.insert(b.window, out), segments: upsert_spec(sv.segments, b), ..sv })
        } else {
            (t, sv)
        },
        Stage::WriteRun => (TickV { stage: Stage::WriteRead, ..t }, sv),
        Stage::WriteRead => if i < t.writes.len() {
            let b = t.writes[i];
            (
                TickV { stage: Stage::WriteRun, ..next },
                StateV {
                    outputs: sv.outputs.insert(b.window, out),
                    segments: upsert_spec(move_to_end_spec(sv.segments, b.window), b),
                    ..sv
                },
            )
        } else {
            (t, sv)
        },
        Stage::EditFetch => if i < t.groups.len() {
            let (path, bs) = t.groups[i];
            match group_check(bs, None) {
                Ok(cmds) => match apply_commands_spec(out.1, cmds) {
                    Ok(c) => (TickV { stage: Stage::EditRun, edited: c, ..t }, sv),
                    Err(f) => (
                        TickV { stage: Stage::Edit, ..next },
                        StateV { outputs: sv.outputs.insert(path, edit_error_output(f)), ..sv },
                    ),
                },
                Err(f) => (
                    TickV { stage: Stage::Edit, ..next },
                    StateV { outputs: sv.outputs.insert(path, edit_error_output(f)), ..sv },
                ),
            }
        } else {
            (t, sv)
        },
        Stage::EditRun => (TickV { stage: Stage::EditRead, ..t }, sv),
        Stage::EditRead => if i < t.groups.len() && t.groups[i].1.len() > 0 {
            let (path, bs) = t.groups[i];
            (
                TickV { stage: Stage::Edit, ..next },
                StateV {
                    outputs: sv.outputs.insert(path, out),
                    segments: upsert_spec(move_to_end_spec(sv.segments, path), bs[0]),
                    ..sv
                },
            )
        } else {
            (t, sv)
        },
        Stage::Delegate => if i < t.delegates.len() {
            let b = t.delegates[i];
            (next, StateV { outputs: sv.outputs.insert(b.window, out), segments: upsert_spec(sv.segments, b), ..sv })
        } else {
            (t, sv)
        },
        Stage::Refresh => if i < sv.segments.len() {
            (next, StateV { outputs: sv.outputs.insert(sv.segments[i].window, out), ..sv })
        } else {
            (t, sv)
        },
        _ => (t, sv),
    }
}

fn kind(m: &BlockMode) -> (k: Kind)
    ensures
        k == kind_of(m@),
{
    match m {
        BlockMode::Close => Kind::Close,
        BlockMode::Ask => Kind::Ask,
        BlockMode::Exec => Kind::Exec,
        BlockMode::Watch => Kind::Watch,
        BlockMode::File => Kind::File,
        BlockMode::Write => Kind::Write,
        BlockMode::Edit(_) => Kind::Edit,
        BlockMode::Delegate => Kind::Delegate,
        BlockMode::Task => Kind::Task,
    }
}

fn select_blocks(bs: &Vec<ParsedBlock>, k: &Kind) -> (r: Vec<ParsedBlock>)
    ensures
        blocks_view(r@) == select(blocks_view(bs@), *k),
{
    let ghost bv = blocks_view(bs@);
    let mut r: Vec<ParsedBlock> = Vec::new();
    let mut i: usize = 0;
    while i < bs.len()
        invariant
            0 <= i <= bs@.len(),
            bv == blocks_view(bs@),
            blocks_view(r@) == select_upto(bv, *k, i as int),
        decreases bs@.len() - i,
    {
        assert(bv[i as int] == bs@[i as int]@);
        if kind(&bs[i].mode) == *k {
            let ghost pre = blocks_view(r@);
            r.push(bs[i].duplicate());
            assert(blocks_view(r@) =~= pre.push(bv[i as int]));
        }
        i = i + 1;
    }
    r
}

fn group_index(groups: &Vec<EditGroup>, w: &String) -> (r: Option<usize>)
    ensures
        match r {
            Some(g) => group_of(groups_view(groups@), w@) == Some(g as int) && g < groups@.len(),
            None => group_of(groups_view(groups@), w@) is None,
        },
{
    let ghost gv = groups_view(groups@);
    let mut i = groups.len();
    assert(gv.take(i as int) =~= gv);
    while i > 0
        invariant
            i <= groups@.len(),
            gv == groups_view(groups@),
            group_of(gv, w@) == group_of(gv.take(i as int), w@),
        decreases i,
    {
        assert(gv.take(i as int).last() == gv[i - 1]);
        assert(gv[i - 1].0 == groups@[i - 1].path@);
        if crate::types::str_eq(groups[i - 1].path.as_str(), w.as_str()) {
            return Some(i - 1);
        }
        assert(gv.take(i as int).drop_last() =~= gv.take(i - 1));
        i = i - 1;
    }
    assert(gv.take(0) =~= Seq::<(Seq<char>, Seq<BlockV>)>::empty());
    None
}

fn build_groups(edits: &Vec<ParsedBlock>) -> (r: Vec<EditGroup>)
    ensures
        groups_view(r@) == edit_groups(blocks_view(edits@)),
{
    let ghost ev = blocks_view(edits@);
    let mut groups: Vec<EditGroup> = Vec::new();
    let mut i: usize = 0;
    while i < edits.len()
        invariant
            0 <= i <= edits@.len(),
            ev == blocks_view(edits@),
            groups_view(groups@) == groups_upto(ev, i as int),
        decreases edits@.len() - i,
    {
        let b = &edits[i];
        assert(ev[i as int] == b@);
        let ghost gv = groups_view(groups@);
        match group_index(&groups, &b.window) {
            Some(g) => {
                let mut grp = groups.remove(g);
                let ghost old_g = (grp.path@, blocks_view(grp.blocks@));
                let ghost bb = blocks_view(grp.blocks@);
                grp.blocks.push(b.duplicate());
                assert(blocks_view(grp.blocks@) =~= bb.push(b@));
                groups.insert(g, grp);
                assert(groups_view(groups@) =~= gv.update(g as int, (gv[g as int].0, gv[g as int].1.push(b@))));
            },
            None => {
                let mut bs: Vec<ParsedBlock> = Vec::new();
                bs.push(b.duplicate());
                assert(blocks_view(bs@) =~= seq![b@]);
                groups.push(EditGroup { path: b.window.clone(), blocks: bs });
                assert(groups_view(groups@) =~= gv.push((b@.window, seq![b@])));
            },
        }
        i = i + 1;
    }
    groups
}

proof fn lemma_without_window_len(segs: Seq<BlockV>, w: Seq<char>)
    ensures
        without_window(segs, w).len() <= segs.len(),
    decreases segs.len(),
{
    if segs.len() > 0 {
        lemma_without_window_len(segs.drop_last(), w);
    }
}

fn close_windows(state: &mut State, closes: &Vec<ParsedBlock>)
    requires
        state_ok(*old(state)),
    ensures
        state_ok(*final(state)),
        state_v(*final(state)) == (StateV {
            segments: close_segments(state_v(*old(state)).segments, blocks_view(closes@)),
            outputs: close_outputs(state_v(*old(state)).outputs, blocks_view(closes@)),
            ..state_v(*old(state))
        }),
        final(state).system == old(state).system,
        final(state).instructions == old(state).instructions,
{
    let ghost cv = blocks_view(closes@);
    let ghost sv0 = state_v(*state);
    let mut i: usize = 0;
    assert(cv.take(0) =~= Seq::<BlockV>::empty());
    while i < closes.len()
        invariant
            0 <= i <= closes@.len(),
            cv == blocks_view(closes@),
            state_ok(*state),
            state_v(*state) == (StateV {
                segments: close_segments(sv0.segments, cv.take(i as int)),
                outputs: close_outputs(sv0.outputs, cv.take(i as int)),
                ..sv0
            }),
            state.system == old(state).system,
            state.instructions == old(state).instructions,
        decreases closes@.len() - i,
    {
        let w = &closes[i].window;
        assert(cv[i as int] == closes@[i as int]@);
        assert(cv.take(i + 1).drop_last() =~= cv.take(i as int));
        state.outputs.remove(w.as_str());
        remove_window(&mut state.segments, w.as_str());
        i = i + 1;
    }
    assert(cv.take(cv.len() as int) =~= cv);
}

impl TickRun {
    /// How the tick runs delegates.
    pub closed spec fn config(&self) -> TickConfig {
        self.cfg
    }

    /// Takes in an agent response: unless the task is already complete,
    /// the tick advances, the task becomes the response's, and the closed
    /// windows go; the other blocks wait for their stages.
    pub fn begin(state: &mut State, response: &AgentResponse, cfg: TickConfig) -> (run: TickRun)
        requires
            state_ok(*old(state)),
            !old(state).is_completed ==> old(state).tick_n < u64::MAX,
        ensures
            state_ok(*final(state)),
            final(state).system == old(state).system,
            final(state).instructions == old(state).instructions,
            run.config() == cfg,
            old(state).is_completed ==> state_v(*final(state)) == state_v(*old(state))
                && run@ == tick_for(response@, Stage::Finished),
            !old(state).is_completed ==> state_v(*final(state)) == begin_state(
                state_v(*old(state)),
                response@,
            ) && run@ == tick_for(response@, Stage::Ask),
    {
        let done = state.is_completed;
        let segs = &response.segments;
        let edits = select_blocks(segs, &Kind::Edit);
        let run = TickRun {
            asks: select_blocks(segs, &Kind::Ask),
            execs: select_blocks(segs, &Kind::Exec),
            writes: select_blocks(segs, &Kind::Write),
            groups: build_groups(&edits),
            delegates: select_blocks(segs, &Kind::Delegate),
            files: select_blocks(segs, &Kind::File),
            watches: select_blocks(segs, &Kind::Watch),
            stage: if done {
                Stage::Finished
            } else {
                Stage::Ask
            },
            i: 0,
            edited: String::new(),
            complete: response.complete,
            cfg,
        };
        if !done {
            state.tick_n = state.tick_n + 1;
            state.task = response.task.clone();
            let closes = select_blocks(segs, &Kind::Close);
            close_windows(state, &closes);
        }
        assert(run@.edited =~= Seq::<char>::empty());
        run
    }
}

fn check_group(bs: &Vec<ParsedBlock>, prev: Option<&String>) -> (r: Result<Vec<EditCommand>, EditError>)
    ensures
        match group_check(blocks_view(bs@), match prev {
            Some(p) => Some(p@),
            None => None,
        }) {
            Ok(cmds) => r matches Ok(v) && cmds_view(v@) == cmds,
            Err(f) => r matches Err(e) && e@ == f,
        },
{
    let ghost bv = blocks_view(bs@);
    let ghost pv: Option<Seq<char>> = match prev {
        Some(p) => Some(p@),
        None => None,
    };
    let mut cmds: Vec<EditCommand> = Vec::new();
    let mut i: usize = 0;
    assert(cmds_view(cmds@) =~= Seq::<(Seq<char>, Seq<char>)>::empty());
    while i < bs.len()
        invariant
            0 <= i <= bs@.len(),
            bv == blocks_view(bs@),
            pv == match prev {
                Some(p) => Some(p@),
                None => None::<Seq<char>>,
            },
            group_check_upto(bv, pv, i as int) == Ok::<Seq<(Seq<char>, Seq<char>)>, EditFault>(cmds_view(cmds@)),
        decreases bs@.len() - i,
    {
        assert(bv[i as int] == bs@[i as int]@);
        let ghost pre = cmds_view(cmds@);
        match &bs[i].mode {
            BlockMode::Edit(None) => {
                proof {
                    lemma_group_err_prefix(bv, pv, i + 1, bv.len() as int);
                    assert(bv.len() == bs@.len());
                }
                return Err(
                    EditError::Parse { line: 0, message: String::from_str("edit commands not parsed") },
                );
            },
            BlockMode::Edit(Some(c)) => {
                match prev {
                    Some(p) => {
                        match crate::response::edit_command::validate_texts_against_output(c, p.as_str()) {
                            Err(e) => {
                                proof {
                                    lemma_group_err_prefix(bv, pv, i + 1, bv.len() as int);
                                }
                                return Err(e);
                            },
                            Ok(()) => {},
                        }
                    },
                    None => {},
                }
                cmds.push(c.duplicate());
                assert(cmds_view(cmds@) =~= pre.push(c@));
            },
            _ => {},
        }
        i = i + 1;
    }
    Ok(cmds)
}

proof fn lemma_group_err_prefix(bs: Seq<BlockV>, prev: Option<Seq<char>>, k: int, m: int)
    requires
        0 <= k <= m <= bs.len(),
        group_check_upto(bs, prev, k) is Err,
    ensures
        group_check_upto(bs, prev, m) == group_check_upto(bs, prev, k),
    decreases m - k,
{
    if k < m {
        lemma_group_err_prefix(bs, prev, k, m - 1);
    }
}

fn error_output(e: &EditError) -> (o: CmdOutput)
    ensures
        o@ == edit_error_output(e@),
{
    let mut s = String::from_str("edit error: ");
    s.append(e.to_string().as_str());
    CmdOutput { exit_code: 1, stdout: s }
}

fn write_body_of(c: &String) -> (s: String)
    ensures
        s@ == write_body(c@),
{
    let v = chars_of(c.as_str());
    let n = v.len();
    if n > 0 && v[n - 1] == '\n' {
        let t = slice(v.as_slice(), 0, n - 1);
        assert(t@ =~= v@.drop_last());
        string_of(t.as_slice())
    } else {
        c.clone()
    }
}

pub open spec fn same_frame(a: State, b: State) -> bool {
    a.system == b.system && a.instructions == b.instructions
}

impl TickRun {
    fn edit_step_exec(&mut self, state: &mut State) -> (op: Op)
        requires
            state_ok(*old(state)),
            old(self)@.stage == Stage::Edit,
            old(self)@.i < old(self)@.groups.len(),
        ensures
            state_ok(*final(state)),
            same_frame(*old(state), *final(state)),
            final(self).config() == old(self).config(),
            (final(self)@, state_v(*final(state)), op@) == edit_step(old(self)@, state_v(*old(state))),
    {
        let i = self.i;
        let ghost t = self@;
        assert(i < self.groups.len());
        assert(t.groups[i as int] == (self.groups@[i as int].path@, blocks_view(self.groups@[i as int].blocks@)));
        let path = self.groups[i].path.clone();
        let checked = match state.outputs.get(path.as_str()) {
            Some(o) => check_group(&self.groups[i].blocks, Some(&o.stdout)),
            None => check_group(&self.groups[i].blocks, None),
        };
        match checked {
            Err(e) => {
                state.outputs.insert(path, error_output(&e));
                self.i = i + 1;
                Op::Continue
            },
            Ok(cmds) => {
                if cmds.len() == 0 {
                    self.i = i + 1;
                    return Op::Continue;
                }
                self.stage = Stage::EditFetch;
                Op::ReadFile { window: path }
            },
        }
    }
}

impl TickRun {
    fn settle(&self, state: &mut State)
        requires
            state_ok(*old(state)),
        ensures
            state_ok(*final(state)),
            same_frame(*old(state), *final(state)),
            state_v(*final(state)) == (StateV {
                segments: upsert_all(upsert_all(state_v(*old(state)).segments, self@.files), self@.watches),
                ..state_v(*old(state))
            }),
    {
        let ghost s0 = state_v(*state).segments;
        let ghost fv = blocks_view(self.files@);
        let ghost wv = blocks_view(self.watches@);
        let mut i: usize = 0;
        assert(fv.take(0) =~= Seq::<BlockV>::empty());
        while i < self.files.len()
            invariant
                0 <= i <= self.files@.len(),
                fv == blocks_view(self.files@),
                blocks_view(state.segments@) == upsert_all(s0, fv.take(i as int)),
                state_ok(*state),
                state_v(*state) == (StateV { segments: blocks_view(state.segments@), ..state_v(*old(state)) }),
                same_frame(*old(state), *state),
            decreases self.files@.len() - i,
        {
            assert(fv[i as int] == self.files@[i as int]@);
            assert(fv.take(i + 1).drop_last() =~= fv.take(i as int));
            upsert_segment(&mut state.segments, self.files[i].duplicate());
            i = i + 1;
        }
        assert(fv.take(fv.len() as int) =~= fv);
        let ghost s1 = blocks_view(state.segments@);
        let mut j: usize = 0;
        assert(wv.take(0) =~= Seq::<BlockV>::empty());
        while j < self.watches.len()
            invariant
                0 <= j <= self.watches@.len(),
                wv == blocks_view(self.watches@),
                blocks_view(state.segments@) == upsert_all(s1, wv.take(j as int)),
                state_ok(*state),
                state_v(*state) == (StateV { segments: blocks_view(state.segments@), ..state_v(*old(state)) }),
                same_frame(*old(state), *state),
            decreases self.watches@.len() - j,
        {
            assert(wv[j as int] == self.watches@[j as int]@);
            assert(wv.take(j + 1).drop_last() =~= wv.take(j as int));
            upsert_segment(&mut state.segments, self.watches[j].duplicate());
            j = j + 1;
        }
        assert(wv.take(wv.len() as int) =~= wv);
    }

    fn delegate_step(&mut self, state: &mut State) -> (op: Op)
        requires
            state_ok(*old(state)),
            old(self)@.stage == Stage::Delegate,
            old(self)@.i < old(self)@.delegates.len(),
        ensures
            state_ok(*final(state)),
            same_frame(*old(state), *final(state)),
            final(self).config() == old(self).config(),
            (final(self)@, state_v(*final(state)), op@) == step_spec(old(self)@, old(self).config(), state_v(*old(state))),
    {
        let i = self.i;
        assert(i < self.delegates.len());
        let b = &self.delegates[i];
        assert(self@.delegates[i as int] == b@);
        if state.outputs.contains_key(b.window.as_str()) {
            self.i = i + 1;
            return Op::Continue;
        }
        if self.cfg.no_delegate {
            state.outputs.insert(b.window.clone(), CmdOutput { exit_code: 1, stdout: String::from_str("delegate disabled") });
            upsert_segment(&mut state.segments, b.duplicate());
            self.i = i + 1;
            return Op::Continue;
        }
        let command = delegate_command(&self.cfg, b.window.as_str(), b.content.as_str());
        Op::Run { window: b.window.clone(), command }
    }

    fn refresh_step(&mut self, state: &mut State) -> (op: Op)
        requires
            state_ok(*old(state)),
            old(self)@.stage == Stage::Refresh,
        ensures
            state_ok(*final(state)),
            same_frame(*old(state), *final(state)),
            final(self).config() == old(self).config(),
            (final(self)@, state_v(*final(state)), op@) == step_spec(old(self)@, old(self).config(), state_v(*old(state))),
    {
        let i = self.i;
        if i < state.segments.len() {
            let b = &state.segments[i];
            assert(state_v(*state).segments[i as int] == b@);
            match &b.mode {
                BlockMode::Watch => Op::Run { window: b.window.clone(), command: b.content.clone() },
                BlockMode::File => Op::ReadFile { window: b.window.clone() },
                _ => {
                    self.i = i + 1;
                    Op::Continue
                },
            }
        } else {
            state.is_completed = self.complete;
            self.stage = Stage::Finished;
            Op::Done(self.complete)
        }
    }

    /// Takes the next step of the tick (see `step_spec`): asks for the next
    /// outside action, or does what needs none.
    pub fn step(&mut self, state: &mut State) -> (op: Op)
        requires
            state_ok(*old(state)),
        ensures
            state_ok(*final(state)),
            same_frame(*old(state), *final(state)),
            final(self).config() == old(self).config(),
            (final(self)@, state_v(*final(state)), op@) == step_spec(old(self)@, old(self).config(), state_v(*old(state))),
    {
        let i = self.i;
        match self.stage {
            Stage::Ask => {
                if i < self.asks.len() {
                    let b = &self.asks[i];
                    assert(self@.asks[i as int] == b@);
                    Op::Ask { window: b.window.clone(), question: b.content.clone() }
                } else {
                    self.stage = Stage::Exec;
                    self.i = 0;
                    Op::Continue
                }
            },
            Stage::Exec => {
                if i < self.execs.len() {
                    let b = &self.execs[i];
                    assert(self@.execs[i as int] == b@);
                    Op::Run { window: b.window.clone(), command: b.content.clone() }
                } else {
                    self.stage = Stage::WriteRun;
                    self.i = 0;
                    Op::Continue
                }
            },
            Stage::WriteRun => {
                if i < self.writes.len() {
                    let b = &self.writes[i];
                    assert(self@.writes[i as int] == b@);
                    Op::Run {
                        window: b.window.clone(),
                        command: write_script(b.window.as_str(), b.content.as_str()),
                    }
                } else {
                    self.stage = Stage::Edit;
                    self.i = 0;
                    Op::Continue
                }
            },
            Stage::WriteRead => {
                if i < self.writes.len() {
                    let b = &self.writes[i];
                    assert(self@.writes[i as int] == b@);
                    Op::ReadFile { window: b.window.clone() }
                } else {
                    self.stage = Stage::WriteRun;
                    Op::Continue
                }
            },
            Stage::Edit => {
                if i < self.groups.len() {
                    self.edit_step_exec(state)
                } else {
                    self.stage = Stage::Delegate;
                    self.i = 0;
                    Op::Continue
                }
            },
            Stage::EditFetch | Stage::EditRead => {
                if i < self.groups.len() {
                    assert(self@.groups[i as int].0 == self.groups@[i as int].path@);
                    Op::ReadFile { window: self.groups[i].path.clone() }
                } else {
                    self.stage = Stage::Edit;
                    Op::Continue
                }
            },
            Stage::EditRun => {
                if i < self.groups.len() {
                    assert(self@.groups[i as int].0 == self.groups@[i as int].path@);
                    let body = write_body_of(&self.edited);
                    Op::Run {
                        window: self.groups[i].path.clone(),
                        command: write_script(self.groups[i].path.as_str(), body.as_str()),
                    }
                } else {
                    self.stage = Stage::Edit;
                    Op::Continue
                }
            },
            Stage::Delegate => {
                if i < self.delegates.len() {
                    self.delegate_step(state)
                } else {
                    self.stage = Stage::Settle;
                    self.i = 0;
                    Op::Continue
                }
            },
            Stage::Settle => {
                self.settle(state);
                self.stage = Stage::Refresh;
                self.i = 0;
                Op::Continue
            },
            Stage::Refresh => self.refresh_step(state),
            Stage::Finished => Op::Done(state.is_completed),
        }
    }
}

impl TickRun {
    fn record(state: &mut State, b: &ParsedBlock, out: CmdOutput, moved: bool)
        requires
            state_ok(*old(state)),
        ensures
            state_ok(*final(state)),
            same_frame(*old(state), *final(state)),
            state_v(*final(state)) == (StateV {
                outputs: state_v(*old(state)).outputs.insert(b.window@, out@),
                segments: upsert_spec(
                    if moved {
                        move_to_end_spec(state_v(*old(state)).segments, b.window@)
                    } else {
                        state_v(*old(state)).segments
                    },
                    b@,
                ),
                ..state_v(*old(state))
            }),
    {
        state.outputs.insert(b.window.clone(), out);
        if moved {
            move_to_end(&mut state.segments, b.window.as_str());
        }
        upsert_segment(&mut state.segments, b.duplicate());
    }

    fn fetched(&mut self, state: &mut State, out: CmdOutput)
        requires
            state_ok(*old(state)),
            old(self)@.stage == Stage::EditFetch,
            old(self)@.i < old(self)@.groups.len(),
        ensures
            state_ok(*final(state)),
            same_frame(*old(state), *final(state)),
            final(self).config() == old(self).config(),
            (final(self)@, state_v(*final(state))) == deliver_spec(old(self)@, state_v(*old(state)), out@),
    {
        let i = self.i;
        assert(i < self.groups.len());
        assert(self@.groups[i as int] == (self.groups@[i as int].path@, blocks_view(self.groups@[i as int].blocks@)));
        let path = self.groups[i].path.clone();
        match check_group(&self.groups[i].blocks, None) {
            Ok(cmds) => {
                match apply_commands(out.stdout.as_str(), &cmds) {
                    Ok(c) => {
                        self.edited = c;
                        self.stage = Stage::EditRun;
                    },
                    Err(e) => {
                        state.outputs.insert(path, error_output(&e));
                        self.stage = Stage::Edit;
                        self.i = i + 1;
                    },
                }
            },
            Err(e) => {
                state.outputs.insert(path, error_output(&e));
                self.stage = Stage::Edit;
                self.i = i + 1;
            },
        }
    }

    /// Hands back the result of the pending `Run` or `ReadFile` (see
    /// `deliver_spec`).
    pub fn deliver(&mut self, state: &mut State, out: CmdOutput)
        requires
            state_ok(*old(state)),
        ensures
            state_ok(*final(state)),
            same_frame(*old(state), *final(state)),
            final(self).config() == old(self).config(),
            (final(self)@, state_v(*final(state))) == deliver_spec(old(self)@, state_v(*old(state)), out@),
    {
        let i = self.i;
        match self.stage {
            Stage::Ask => {
                if i < self.asks.len() {
                    assert(self@.asks[i as int] == self.asks@[i as int]@);
                    TickRun::record(state, &self.asks[i], out, false);
                    self.i = i + 1;
                }
            },
            Stage::Exec => {
                if i < self.execs.len() {
                    assert(self@.execs[i as int] == self.execs@[i as int]@);
                    TickRun::record(state, &self.execs[i], out, false);
                    self.i = i + 1;
                }
            },
            Stage::WriteRun => {
                self.stage = Stage::WriteRead;
            },
            Stage::WriteRead => {
                if i < self.writes.len() {
                    assert(self@.writes[i as int] == self.writes@[i as int]@);
                    TickRun::record(state, &self.writes[i], out, true);
                    self.stage = Stage::WriteRun;
                    self.i = i + 1;
                }
            },
            Stage::EditFetch => {
                if i < self.groups.len() {
                    self.fetched(state, out);
                }
            },
            Stage::EditRun => {
                self.stage = Stage::EditRead;
            },
            Stage::EditRead => {
                if i < self.groups.len() && self.groups[i].blocks.len() > 0 {
                    assert(self@.groups[i as int] == (self.groups@[i as int].path@, blocks_view(self.groups@[i as int].blocks@)));
                    let first = self.groups[i].blocks[0].duplicate();
                    assert(first.window@ == self.groups@[i as int].blocks@[0].window@);
                    let ghost path = self.groups@[i as int].path@;
                    state.outputs.insert(self.groups[i].path.clone(), out);
                    move_to_end(&mut state.segments, self.groups[i].path.as_str());
                    upsert_segment(&mut state.segments, first);
                    self.stage = Stage::Edit;
                    self.i = i + 1;
                }
            },
            Stage::Delegate => {
                if i < self.delegates.len() {
                    assert(self@.delegates[i as int] == self.delegates@[i as int]@);
                    TickRun::record(state, &self.delegates[i], out, false);
                    self.i = i + 1;
                }
            },
            Stage::Refresh => {
                if i < state.segments.len() {
                    let w = state.segments[i].window.clone();
                    assert(state_v(*state).segments[i as int].window == w@);
                    state.outputs.insert(w, out);
                    self.i = i + 1;
                }
            },
            _ => {},
        }
    }

    /// Hands back the user's answer to the pending `Ask`: recorded with exit
    /// code 0, without trailing whitespace.
    pub fn deliver_answer(&mut self, state: &mut State, answer: &str)
        requires
            state_ok(*old(state)),
        ensures
            state_ok(*final(state)),
            same_frame(*old(state), *final(state)),
            final(self).config() == old(self).config(),
            (final(self)@, state_v(*final(state))) == deliver_spec(
                old(self)@,
                state_v(*old(state)),
                (0i32, crate::text::trim_end(answer@)),
            ),
    {
        let v = chars_of(answer);
        let k = crate::text::skip_ws_back(v.as_slice(), 0, v.len());
        assert(v@.subrange(0, v@.len() as int) =~= v@);
        let t = slice(v.as_slice(), 0, k);
        self.deliver(state, CmdOutput { exit_code: 0, stdout: string_of(t.as_slice()) });
    }

    /// Whether the tick is over.
    pub fn is_finished(&self) -> (b: bool)
        ensures
            b == (self@.stage == Stage::Finished),
    {
        self.stage == Stage::Finished
    }
}

/// What changed between two output maps: the titles that are gone (in
/// the old order), and the outputs that are new or differ (in the new
/// order); the first are removed from the session, the second written.
pub open spec fn removed_titles_upto(old_keys: Seq<Seq<char>>, new_map: Map<Seq<char>, (i32, Seq<char>)>, k: int) -> Seq<Seq<char>>
    decreases k,
{
    if k <= 0 || k > old_keys.len() {
        seq![]
    } else if new_map.dom().contains(old_keys[k - 1]) {
        removed_titles_upto(old_keys, new_map, k - 1)
    } else {
        removed_titles_upto(old_keys, new_map, k - 1).push(old_keys[k - 1])
    }
}

pub open spec fn changed_upto(
    old_map: Map<Seq<char>, (i32, Seq<char>)>,
    new_outs: OutputMap,
    k: int,
) -> Seq<(Seq<char>, (i32, Seq<char>))>
    decreases k,
{
    if k <= 0 || k > new_outs.keys().len() {
        seq![]
    } else {
        let key = new_outs.keys()[k - 1];
        let v = new_outs.value_at(k - 1);
        if old_map.dom().contains(key) && old_map[key] == v {
            changed_upto(old_map, new_outs, k - 1)
        } else {
            changed_upto(old_map, new_outs, k - 1).push((key, v))
        }
    }
}

fn same_output(a: &CmdOutput, b: &CmdOutput) -> (r: bool)
    ensures
        r == (a@ == b@),
{
    a.exit_code == b.exit_code && crate::types::str_eq(a.stdout.as_str(), b.stdout.as_str())
}

/// The session changes after a tick (see `removed_titles_upto` and
/// `changed_upto`).
pub fn sync_plan(old_outs: &OutputMap, new_outs: &OutputMap) -> (r: (Vec<String>, Vec<(String, CmdOutput)>))
    requires
        old_outs.wf(),
        new_outs.wf(),
    ensures
        crate::types::strings_view(r.0@) == removed_titles_upto(old_outs.keys(), new_outs.map(), old_outs.keys().len() as int),
        r.1@.map_values(|p: (String, CmdOutput)| (p.0@, p.1@)) == changed_upto(old_outs.map(), *new_outs, new_outs.keys().len() as int),
{
    let mut removed: Vec<String> = Vec::new();
    let mut i: usize = 0;
    while i < old_outs.len()
        invariant
            0 <= i <= old_outs.keys().len(),
            new_outs.wf(),
            crate::types::strings_view(removed@) == removed_titles_upto(old_outs.keys(), new_outs.map(), i as int),
        decreases old_outs.keys().len() - i,
    {
        let k = old_outs.key_at(i);
        if !new_outs.contains_key(k.as_str()) {
            let ghost pre = crate::types::strings_view(removed@);
            removed.push(k.clone());
            assert(crate::types::strings_view(removed@) =~= pre.push(k@));
        }
        i = i + 1;
    }
    let mut written: Vec<(String, CmdOutput)> = Vec::new();
    let mut j: usize = 0;
    while j < new_outs.len()
        invariant
            0 <= j <= new_outs.keys().len(),
            old_outs.wf(),
            written@.map_values(|p: (String, CmdOutput)| (p.0@, p.1@)) == changed_upto(old_outs.map(), *new_outs, j as int),
        decreases new_outs.keys().len() - j,
    {
        let k = new_outs.key_at(j);
        let v = new_outs.value_at_index(j);
        let same = match old_outs.get(k.as_str()) {
            Some(o) => same_output(o, v),
            None => false,
        };
        if !same {
            let ghost pre = written@.map_values(|p: (String, CmdOutput)| (p.0@, p.1@));
            written.push((k.clone(), v.duplicate()));
            assert(written@.map_values(|p: (String, CmdOutput)| (p.0@, p.1@)) =~= pre.push((k@, v@)));
        }
        j = j + 1;
    }
    (removed, written)
}

/// Whether the tick loop stops after a tick that did not complete the
/// task: the tick limit is reached, or the loop runs one tick at a time.
pub fn stop_after_tick(tick_n: u64, max_ticks: Option<u64>, debug: bool) -> (b: bool)
    ensures
        b == ((max_ticks matches Some(m) && tick_n >= m) || debug),
{
    match max_ticks {
        Some(m) => tick_n >= m || debug,
        None => debug,
    }
}

/// The windows whose saved outputs are loaded when a session resumes:
/// those of every block but a close block.
pub fn output_windows(segments: &Vec<ParsedBlock>) -> (r: Vec<String>)
    ensures
        crate::types::strings_view(r@) == select_not_closed(blocks_view(segments@), segments@.len() as int),
{
    let ghost bv = blocks_view(segments@);
    let mut r: Vec<String> = Vec::new();
    let mut i: usize = 0;
    while i < segments.len()
        invariant
            0 <= i <= segments@.len(),
            bv == blocks_view(segments@),
            crate::types::strings_view(r@) == select_not_closed(bv, i as int),
        decreases segments@.len() - i,
    {
        assert(bv[i as int] == segments@[i as int]@);
        if kind(&segments[i].mode) != Kind::Close {
            let ghost pre = crate::types::strings_view(r@);
            r.push(segments[i].window.clone());
            assert(crate::types::strings_view(r@) =~= pre.push(bv[i as int].window));
        }
        i = i + 1;
    }
    r
}

pub open spec fn select_not_closed(bs: Seq<BlockV>, k: int) -> Seq<Seq<char>>
    decreases k,
{
    if k <= 0 || k > bs.len() {
        seq![]
    } else if kind_of(bs[k - 1].mode) == Kind::Close {
        select_not_closed(bs, k - 1)
    } else {
        select_not_closed(bs, k - 1).push(bs[k - 1].window)
    }
}

/// Putting a block in keeps one block per window.
pub proof fn lemma_upsert_distinct(segs: Seq<BlockV>, b: BlockV)
    requires
        forall|i: int, j: int| 0 <= i < j < segs.len() ==> segs[i].window != segs[j].window,
    ensures
        forall|i: int, j: int|
            0 <= i < j < upsert_spec(segs, b).len() ==> upsert_spec(segs, b)[i].window != upsert_spec(segs, b)[j].window,
        exists|i: int| 0 <= i < upsert_spec(segs, b).len() && upsert_spec(segs, b)[i] == b,
{
    lemma_window_pos(segs, b.window);
    let u = upsert_spec(segs, b);
    match window_pos(segs, b.window) {
        Some(p) => {
            assert(u[p] == b);
        },
        None => {
            assert(u[segs.len() as int] == b);
        },
    }
}

} // verus!
