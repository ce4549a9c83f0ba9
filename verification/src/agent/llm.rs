//! The decisions of the model-backed agent: what it shows the model, how
//! it judges the model's answer, and when it asks again.

use crate::agent::{AgentError, AgentResponse, ResponseV};
use crate::numfmt::{dec, dec_int, i32_to_string, u64_to_string, usize_to_string};
use crate::response::edit_command::{
    byte_len, fault_message, texts_check_spec, utf8_len, validate_texts_against_output,
};
use crate::response::{blocks_text, serialize_blocks};
use crate::state::{OutputMap, State};
use crate::text::{chars_of, push_char, trim};
use crate::types::{BlockMode, BlockV, ModeV, ParsedBlock, blocks_view, strings_view};
use vstd::prelude::*;

verus! {

/// One chat message, by role.
#[derive(Debug, Clone, PartialEq)]
pub enum Message {
    System(String),
    User(String),
    Assistant(String),
}

/// A chat message as plain values.
pub enum MsgV {
    System(Seq<char>),
    User(Seq<char>),
    Assistant(Seq<char>),
}

impl View for Message {
    type V = MsgV;

    open spec fn view(&self) -> MsgV {
        match self {
            Message::System(t) => MsgV::System(t@),
            Message::User(t) => MsgV::User(t@),
            Message::Assistant(t) => MsgV::Assistant(t@),
        }
    }
}

pub open spec fn msgs_view(v: Seq<Message>) -> Seq<MsgV> {
    v.map_values(|m: Message| m@)
}

/// What is wrong with an edit block before it may run: its command did
/// not parse, there is no view of its file, or its search text does not
/// occur exactly once in that view.
pub open spec fn edit_violation(b: BlockV, outs: Map<Seq<char>, (i32, Seq<char>)>) -> Option<
    Seq<char>,
> {
    match b.mode {
        ModeV::Edit(None) => Some("edit:"@ + b.window + " — edit command not parsed."@),
        ModeV::Edit(Some((se, _))) => if !outs.dom().contains(b.window) {
            Some(
                "edit:"@ + b.window
                    + " — no file output available. View the file first with a file block."@,
            )
        } else {
            match texts_check_spec(se, outs[b.window].1) {
                Err(f) => Some("edit:"@ + b.window + " — "@ + fault_message(f)),
                Ok(_) => None,
            }
        },
        _ => None,
    }
}

/// The edit violations among the first `k` blocks, in order.
pub open spec fn edit_violations_upto(
    bs: Seq<BlockV>,
    outs: Map<Seq<char>, (i32, Seq<char>)>,
    k: int,
) -> Seq<Seq<char>>
    decreases k,
{
    if k <= 0 || k > bs.len() {
        seq![]
    } else {
        match edit_violation(bs[k - 1], outs) {
            Some(v) => edit_violations_upto(bs, outs, k - 1).push(v),
            None => edit_violations_upto(bs, outs, k - 1),
        }
    }
}

pub open spec fn edit_violations(bs: Seq<BlockV>, outs: Map<Seq<char>, (i32, Seq<char>)>) -> Seq<
    Seq<char>,
> {
    edit_violations_upto(bs, outs, bs.len() as int)
}

/// Checks the edit blocks against the file views the agent has seen.
pub fn check_edit_violations(segments: &[ParsedBlock], outputs: &OutputMap) -> (r: Vec<String>)
    requires
        outputs.wf(),
    ensures
        strings_view(r@) == edit_violations(blocks_view(segments@), outputs.map()),
{
    let ghost bv = blocks_view(segments@);
    let mut out: Vec<String> = Vec::new();
    let mut i: usize = 0;
    while i < segments.len()
        invariant
            0 <= i <= segments@.len(),
            bv == blocks_view(segments@),
            outputs.wf(),
            strings_view(out@) == edit_violations_upto(bv, outputs.map(), i as int),
        decreases segments@.len() - i,
    {
        let b = &segments[i];
        assert(bv[i as int] == b@);
        let ghost pre = strings_view(out@);
        match &b.mode {
            BlockMode::Edit(None) => {
                let mut m = String::from_str("edit:");
                m.append(b.window.as_str());
                m.append(" — edit command not parsed.");
                out.push(m);
                assert(strings_view(out@) =~= pre.push(edit_violation(b@, outputs.map())->0));
            },
            BlockMode::Edit(Some(cmd)) => {
                match outputs.get(b.window.as_str()) {
                    None => {
                        let mut m = String::from_str("edit:");
                        m.append(b.window.as_str());
                        m.append(
                            " — no file output available. View the file first with a file block.",
                        );
                        out.push(m);
                        assert(strings_view(out@) =~= pre.push(
                            edit_violation(b@, outputs.map())->0,
                        ));
                    },
                    Some(o) => {
                        match validate_texts_against_output(cmd, o.stdout.as_str()) {
                            Err(e) => {
                                let mut m = String::from_str("edit:");
                                m.append(b.window.as_str());
                                m.append(" — ");
                                m.append(e.to_string().as_str());
                                out.push(m);
                                assert(strings_view(out@) =~= pre.push(
                                    edit_violation(b@, outputs.map())->0,
                                ));
                            },
                            Ok(()) => {},
                        }
                    },
                }
            },
            _ => {},
        }
        i = i + 1;
    }
    out
}

/// A rough token count: a quarter of the text's bytes, rounded up.
pub open spec fn est_tokens(s: Seq<char>) -> nat {
    let b = byte_len(s);
    b / 4 + if b % 4 > 0 {
        1nat
    } else {
        0nat
    }
}

pub fn estimate_tokens(text: &str) -> (n: usize)
    ensures
        n as nat == est_tokens(text@),
{
    let b = utf8_len(text);
    b / 4 + if b % 4 > 0 {
        1
    } else {
        0
    }
}

/// The summary's lines for the first `k` windows that have an output, and
/// the tokens they add up to.
pub open spec fn window_lines_upto(
    bs: Seq<BlockV>,
    outs: Map<Seq<char>, (i32, Seq<char>)>,
    k: int,
) -> (Seq<char>, nat)
    decreases k,
{
    if k <= 0 || k > bs.len() {
        (seq![], 0)
    } else {
        let prev = window_lines_upto(bs, outs, k - 1);
        let b = bs[k - 1];
        if outs.dom().contains(b.window) {
            let t = est_tokens(outs[b.window].1);
            let tag = if b.dashboard {
                "dashboard"@
            } else {
                "active"@
            };
            (prev.0 + b.window + ": ~"@ + dec(t) + " tok ("@ + tag + ")\n"@, prev.1 + t)
        } else {
            prev
        }
    }
}

/// The tokens the whole context is estimated at: system prompt,
/// instructions, task, and the windows' outputs.
pub open spec fn context_tokens(s: State) -> nat {
    est_tokens(s.system@) + est_tokens(s.instructions@) + (if s.task@.len() > 0 {
        est_tokens(s.task@)
    } else {
        0
    }) + window_lines_upto(blocks_view(s.segments@), s.outputs.map(), s.segments@.len() as int).1
}

/// The window summary shown to the model each tick.
pub open spec fn window_summary(s: State) -> Seq<char> {
    "== Windows ==\n"@ + window_lines_upto(
        blocks_view(s.segments@),
        s.outputs.map(),
        s.segments@.len() as int,
    ).0 + "\n== Context: ~"@ + dec(context_tokens(s)) + " tokens | Tick #"@ + dec(
        s.tick_n as nat,
    ) + " =="@
}

proof fn lemma_window_lines_mono(
    bs: Seq<BlockV>,
    outs: Map<Seq<char>, (i32, Seq<char>)>,
    i: int,
    k: int,
)
    requires
        0 <= i <= k <= bs.len(),
    ensures
        window_lines_upto(bs, outs, i).1 <= window_lines_upto(bs, outs, k).1,
    decreases k - i,
{
    if i < k {
        lemma_window_lines_mono(bs, outs, i, k - 1);
    }
}

/// Renders the window summary.
pub fn render_window_summary(state: &State) -> (s: String)
    requires
        state.outputs.wf(),
        context_tokens(*state) <= usize::MAX,
    ensures
        s@ == window_summary(*state),
{
    let ghost bv = blocks_view(state.segments@);
    let ghost outs = state.outputs.map();
    let ghost n = state.segments@.len() as int;
    let mut body = String::from_str("== Windows ==\n");
    let ghost base = est_tokens(state.system@) + est_tokens(state.instructions@) + (
    if state.task@.len() > 0 {
        est_tokens(state.task@)
    } else {
        0
    });
    let mut total: usize = estimate_tokens(state.system.as_str());
    total = total + estimate_tokens(state.instructions.as_str());
    if state.task.as_str().unicode_len() > 0 {
        total = total + estimate_tokens(state.task.as_str());
    }
    let mut i: usize = 0;
    proof {
        reveal_strlit("== Windows ==\n");
    }
    let ghost head = body@;
    while i < state.segments.len()
        invariant
            0 <= i <= state.segments@.len(),
            bv == blocks_view(state.segments@),
            outs == state.outputs.map(),
            n == state.segments@.len(),
            state.outputs.wf(),
            context_tokens(*state) <= usize::MAX,
            context_tokens(*state) == base + window_lines_upto(bv, outs, n).1,
            body@ == head + window_lines_upto(bv, outs, i as int).0,
            total as nat == base + window_lines_upto(bv, outs, i as int).1,
        decreases state.segments@.len() - i,
    {
        let b = &state.segments[i];
        assert(bv[i as int] == b@);
        proof {
            lemma_window_lines_mono(bv, outs, i + 1, n);
        }
        match state.outputs.get(b.window.as_str()) {
            Some(o) => {
                let t = estimate_tokens(o.stdout.as_str());
                total = total + t;
                let ghost pre = body@;
                body.append(b.window.as_str());
                body.append(": ~");
                body.append(usize_to_string(t).as_str());
                body.append(" tok (");
                if b.dashboard {
                    body.append("dashboard");
                } else {
                    body.append("active");
                }
                body.append(")\n");
                assert(body@ =~= head + window_lines_upto(bv, outs, i + 1).0);
            },
            None => {},
        }
        i = i + 1;
    }
    body.append("\n== Context: ~");
    body.append(usize_to_string(total).as_str());
    body.append(" tokens | Tick #");
    body.append(u64_to_string(state.tick_n).as_str());
    body.append(" ==");
    assert(body@ =~= window_summary(*state));
    body
}

/// The text of the user message that shows a window's output.
pub open spec fn window_message_text(w: Seq<char>, outs: Map<Seq<char>, (i32, Seq<char>)>) -> Seq<
    char,
> {
    "## ["@ + w + "]\n"@ + if outs.dom().contains(w) {
        let o = outs[w];
        (if o.1.len() > 0 {
            o.1 + if o.1.last() == '\n' {
                seq![]
            } else {
                seq!['\n']
            }
        } else {
            seq![]
        }) + "exit "@ + dec_int(o.0 as int) + "\n\n"@
    } else {
        "UNKNOWN OUTPUT\n\n"@
    }
}

/// The user message that shows a block's window.
pub fn build_user_window_message(segment: &ParsedBlock, state: &State) -> (m: Message)
    requires
        state.outputs.wf(),
    ensures
        m@ == MsgV::User(window_message_text(segment.window@, state.outputs.map())),
{
    let mut text = String::from_str("## [");
    text.append(segment.window.as_str());
    text.append("]\n");
    let ghost head = text@;
    match state.outputs.get(segment.window.as_str()) {
        Some(o) => {
            let v = chars_of(o.stdout.as_str());
            if v.len() > 0 {
                text.append(o.stdout.as_str());
                if v[v.len() - 1] != '\n' {
                    push_char(&mut text, '\n');
                }
            }
            text.append("exit ");
            text.append(i32_to_string(o.exit_code).as_str());
            text.append("\n\n");
        },
        None => {
            text.append("UNKNOWN OUTPUT\n\n");
        },
    }
    assert(text@ =~= window_message_text(segment.window@, state.outputs.map()));
    Message::User(text)
}

/// The messages for one block: the block as the agent wrote it (when it
/// is not blank), then its window.
pub open spec fn block_messages(b: BlockV, outs: Map<Seq<char>, (i32, Seq<char>)>) -> Seq<MsgV> {
    let t = blocks_text(seq![b]);
    (if trim(t).len() > 0 {
        seq![MsgV::Assistant(t)]
    } else {
        seq![]
    }) + seq![MsgV::User(window_message_text(b.window, outs))]
}

/// The messages for the first `k` blocks that are (or are not) pinned to
/// the dashboard, in order.
pub open spec fn group_messages(
    bs: Seq<BlockV>,
    outs: Map<Seq<char>, (i32, Seq<char>)>,
    dashboard: bool,
    k: int,
) -> Seq<MsgV>
    decreases k,
{
    if k <= 0 || k > bs.len() {
        seq![]
    } else if bs[k - 1].dashboard == dashboard {
        group_messages(bs, outs, dashboard, k - 1) + block_messages(bs[k - 1], outs)
    } else {
        group_messages(bs, outs, dashboard, k - 1)
    }
}

/// The closing user message of a tick: the task, the window summary, and
/// the instructions.
pub open spec fn tick_body(s: State) -> Seq<char> {
    (if s.task@.len() > 0 {
        "## Task\n"@ + s.task@ + "\n\n"@
    } else {
        seq![]
    }) + window_summary(s) + "\n\n"@ + s.instructions@
}

/// What the model is shown on a tick: the system prompt, the windows not
/// pinned to the dashboard, then the pinned ones, each as the block and its
/// output, then the tick body.
pub open spec fn tick_messages(s: State) -> Seq<MsgV> {
    let bs = blocks_view(s.segments@);
    let outs = s.outputs.map();
    seq![MsgV::System(s.system@)] + group_messages(bs, outs, false, bs.len() as int)
        + group_messages(bs, outs, true, bs.len() as int) + seq![MsgV::User(tick_body(s))]
}

fn push_group(state: &State, dashboard: bool, ms: &mut Vec<Message>)
    requires
        state.outputs.wf(),
    ensures
        msgs_view(final(ms)@) == msgs_view(old(ms)@) + group_messages(
            blocks_view(state.segments@),
            state.outputs.map(),
            dashboard,
            state.segments@.len() as int,
        ),
{
    let ghost bv = blocks_view(state.segments@);
    let ghost outs = state.outputs.map();
    let ghost start = msgs_view(ms@);
    let mut i: usize = 0;
    while i < state.segments.len()
        invariant
            0 <= i <= state.segments@.len(),
            bv == blocks_view(state.segments@),
            outs == state.outputs.map(),
            state.outputs.wf(),
            msgs_view(ms@) == start + group_messages(bv, outs, dashboard, i as int),
        decreases state.segments@.len() - i,
    {
        let b = &state.segments[i];
        assert(bv[i as int] == b@);
        if b.dashboard == dashboard {
            let ghost pre = msgs_view(ms@);
            let one = vec![b.duplicate()];
            let t = serialize_blocks(one.as_slice());
            assert(blocks_view(one@) =~= seq![b@]);
            let tv = chars_of(t.as_str());
            let (x, y) = crate::text::trim_bounds(tv.as_slice(), 0, tv.len());
            assert(tv@.subrange(0, tv@.len() as int) =~= tv@);
            let ghost mid = pre;
            if x < y {
                ms.push(Message::Assistant(t));
                assert(msgs_view(ms@) =~= pre + seq![MsgV::Assistant(blocks_text(seq![b@]))]);
            } else {
                assert(msgs_view(ms@) =~= pre + Seq::<MsgV>::empty());
            }
            let ghost mid2 = msgs_view(ms@);
            ms.push(build_user_window_message(b, state));
            assert(msgs_view(ms@) =~= mid2.push(MsgV::User(window_message_text(b@.window, outs))));
            assert(msgs_view(ms@) =~= pre + block_messages(b@, outs));
        }
        i = i + 1;
    }
}

/// The messages the model is shown on a tick (see `tick_messages`).
pub fn state_to_messages(state: &State) -> (ms: Vec<Message>)
    requires
        state.outputs.wf(),
        context_tokens(*state) <= usize::MAX,
    ensures
        msgs_view(ms@) == tick_messages(*state),
{
    let mut ms: Vec<Message> = Vec::new();
    ms.push(Message::System(state.system.clone()));
    assert(msgs_view(ms@) =~= seq![MsgV::System(state.system@)]);
    push_group(state, false, &mut ms);
    push_group(state, true, &mut ms);
    let mut body = String::new();
    if state.task.as_str().unicode_len() > 0 {
        body.append("## Task\n");
        body.append(state.task.as_str());
        body.append("\n\n");
    }
    body.append(render_window_summary(state).as_str());
    body.append("\n\n");
    body.append(state.instructions.as_str());
    assert(body@ =~= tick_body(*state));
    let ghost pre = msgs_view(ms@);
    ms.push(Message::User(body));
    assert(msgs_view(ms@) =~= pre.push(MsgV::User(tick_body(*state))));
    ms
}

/// The navigator's role, as its system message says it.
pub const NAVIGATOR_SYSTEM: &'static str = "You are the navigator in a pair programming session with an AI agent (the driver). The driver has zero memory between ticks and relies entirely on your task note. You see the driver's reasoning, prose, and commands, plus brief previews of command outputs (not full files or large outputs). Your job is to track the overall strategy, detect circular reasoning, question flawed assumptions, and set a clear task for the next tick. You are NOT the driver. Do not write code or commands.";

/// What the navigator is asked to write.
pub const NAVIGATOR_PROMPT: &'static str = "You are the navigator in a pair programming session with an AI agent (the driver). The driver has zero memory between ticks and relies entirely on your task note.

The driver operates in ticks:
1. Wakes up with ZERO memory. Sees only your task note + current system state.
2. Reasons and decides what to do.
3. Sends commands.
4. Commands execute. Results appear on the NEXT tick.
5. You see the driver's full response (prose + commands) and known results.

Your job: write the task/status note that the driver will see at step 1 of the next tick.

Format (use ALL sections):
Goal: [original goal from Previous task — preserve exactly]
Plan:
[x] completed subtask
[ ] pending subtask
[ ] pending subtask
Log: [last 3-5 actions across ticks; collapse older ones into summaries like \"Ticks 2-4: explored codebase\"]
Done: [what was accomplished this tick]
Known: [confirmed facts and state]
Next: [concrete next step]

Rules:
- Plan is your todo list / roadmap. Update it every tick. Mark completed items [x], add new items as they emerge, remove irrelevant ones.
- Log is a rolling window of recent driver actions. Keep 3-5 most recent entries. When older entries become irrelevant, collapse them into a single summary line.
- Detect circular trajectories using Log. If the driver repeats an action already logged, call it out explicitly and propose a different angle.
- Question flawed assumptions. If the driver's reasoning is wrong, say so and explain why.
- Commands the driver JUST sent have NOT executed yet. Their results are unknown.
- Be specific. Write enough to capture the essential context, but keep it concise.
- If the original goal has been fully achieved, say so explicitly and set the next step to \"Finish — use task:complete\".";

/// The line for one known result: its window, code, status, size in
/// bytes, and the first 80 characters of its text.
pub open spec fn result_line(key: Seq<char>, o: (i32, Seq<char>)) -> Seq<char> {
    "- "@ + key + ": exit "@ + dec_int(o.0 as int) + " ("@ + (if o.0 == 0 {
        "OK"@
    } else {
        "FAIL"@
    }) + ", "@ + dec(byte_len(o.1)) + " chars) — "@ + o.1.take(
        if o.1.len() < 80 {
            o.1.len() as int
        } else {
            80
        },
    ) + "\n"@
}

/// The lines for the first `k` known results, in the map's order.
pub open spec fn result_lines_upto(outs: OutputMap, k: int) -> Seq<char>
    decreases k,
{
    if k <= 0 || k > outs.keys().len() {
        seq![]
    } else {
        result_lines_upto(outs, k - 1) + result_line(outs.keys()[k - 1], outs.value_at(k - 1))
    }
}

/// What the navigator is told: the known results, the previous task, the
/// driver's reasoning, and the driver's response.
pub open spec fn navigator_context(s: State, r: ResponseV) -> Seq<char> {
    (if s.outputs.keys().len() > 0 {
        "## Known results from previous ticks\n"@ + result_lines_upto(
            s.outputs,
            s.outputs.keys().len() as int,
        ) + "\n"@
    } else {
        seq![]
    }) + (if s.task@.len() > 0 {
        "## Previous task (for context only)\n"@ + s.task@ + "\n\n"@
    } else {
        seq![]
    }) + (if r.reasoning.len() > 0 {
        "## Agent reasoning this tick\n"@ + r.reasoning + "\n\n"@
    } else {
        seq![]
    }) + (if r.segments.len() > 0 {
        "## Agent's full raw response (prose + commands)\n``````markdown\n"@ + blocks_text(
            r.segments,
        ) + "\n``````\n\n"@
    } else {
        seq![]
    })
}

/// The messages that ask the navigator for the next task note.
pub open spec fn task_messages(s: State, r: ResponseV) -> Seq<MsgV> {
    seq![MsgV::System(NAVIGATOR_SYSTEM@), MsgV::User(navigator_context(s, r))] + (
    if r.segments.len() > 0 {
        seq![MsgV::Assistant(blocks_text(r.segments))]
    } else {
        seq![]
    }) + seq![MsgV::User(NAVIGATOR_PROMPT@)]
}

fn result_line_text(key: &String, o: &crate::backend::CmdOutput) -> (s: String)
    ensures
        s@ == result_line(key@, o@),
{
    let mut s = String::from_str("- ");
    s.append(key.as_str());
    s.append(": exit ");
    s.append(i32_to_string(o.exit_code).as_str());
    s.append(" (");
    if o.exit_code == 0 {
        s.append("OK");
    } else {
        s.append("FAIL");
    }
    s.append(", ");
    s.append(usize_to_string(utf8_len(o.stdout.as_str())).as_str());
    s.append(" chars) — ");
    let v = chars_of(o.stdout.as_str());
    let k = if v.len() < 80 {
        v.len()
    } else {
        80
    };
    let pv = crate::text::slice(v.as_slice(), 0, k);
    assert(pv@ =~= v@.take(k as int));
    s.append(crate::text::string_of(pv.as_slice()).as_str());
    s.append("\n");
    assert(s@ =~= result_line(key@, o@));
    s
}

fn result_lines(outs: &OutputMap) -> (s: String)
    ensures
        s@ == result_lines_upto(*outs, outs.keys().len() as int),
{
    let mut s = String::new();
    let n = outs.len();
    let mut i: usize = 0;
    while i < n
        invariant
            0 <= i <= n == outs.keys().len(),
            s@ == result_lines_upto(*outs, i as int),
        decreases n - i,
    {
        let line = result_line_text(outs.key_at(i), outs.value_at_index(i));
        s.append(line.as_str());
        i = i + 1;
    }
    s
}

/// The messages that ask the navigator for the next task note (see
/// `task_messages`).
pub fn build_task_messages(state: &State, resp: &AgentResponse) -> (ms: Vec<Message>)
    ensures
        msgs_view(ms@) == task_messages(*state, resp@),
{
    let mut context = String::new();
    if !state.outputs.is_empty() {
        context.append("## Known results from previous ticks\n");
        context.append(result_lines(&state.outputs).as_str());
        context.append("\n");
    }
    if state.task.as_str().unicode_len() > 0 {
        context.append("## Previous task (for context only)\n");
        context.append(state.task.as_str());
        context.append("\n\n");
    }
    if resp.reasoning.as_str().unicode_len() > 0 {
        context.append("## Agent reasoning this tick\n");
        context.append(resp.reasoning.as_str());
        context.append("\n\n");
    }
    if resp.segments.len() > 0 {
        context.append("## Agent's full raw response (prose + commands)\n``````markdown\n");
        context.append(serialize_blocks(resp.segments.as_slice()).as_str());
        context.append("\n``````\n\n");
    }
    assert(context@ =~= navigator_context(*state, resp@));
    let mut ms: Vec<Message> = Vec::new();
    ms.push(Message::System(String::from_str(NAVIGATOR_SYSTEM)));
    ms.push(Message::User(context));
    if resp.segments.len() > 0 {
        let raw = serialize_blocks(resp.segments.as_slice());
        ms.push(Message::Assistant(raw));
    }
    ms.push(Message::User(String::from_str(NAVIGATOR_PROMPT)));
    assert(msgs_view(ms@) =~= task_messages(*state, resp@));
    ms
}

/// Items joined with a separator (`[&str]::join`).
pub open spec fn join_list(items: Seq<Seq<char>>, sep: Seq<char>) -> Seq<char>
    decreases items.len(),
{
    if items.len() == 0 {
        seq![]
    } else if items.len() == 1 {
        items[0]
    } else {
        join_list(items.drop_last(), sep) + sep + items.last()
    }
}

pub fn join_strings(items: &Vec<String>, sep: &str) -> (s: String)
    ensures
        s@ == join_list(strings_view(items@), sep@),
{
    let ghost v = strings_view(items@);
    let mut s = String::new();
    let mut i: usize = 0;
    while i < items.len()
        invariant
            0 <= i <= items@.len(),
            v == strings_view(items@),
            s@ == join_list(v.take(i as int), sep@),
        decreases items@.len() - i,
    {
        if i > 0 {
            s.append(sep);
        }
        s.append(items[i].as_str());
        assert(v.take(i + 1).drop_last() =~= v.take(i as int));
        assert(v.take(i + 1).last() == items@[i as int]@);
        if i == 0 {
            assert(v.take(0) =~= Seq::<Seq<char>>::empty());
        }
        i = i + 1;
    }
    assert(v.take(items@.len() as int) =~= v);
    s
}

/// The rule a write or edit block without a heredoc broke.
pub const HEREDOC_RULE: &'static str = "Write and edit blocks MUST use heredoc syntax: the content must start with <<'TAIDELIM' and end with TAIDELIM on its own line. Violations: ";

/// The rule an edit block that cannot be applied broke.
pub const EDIT_RULE: &'static str = "Edit block line references do not match the current file output, or edit commands could not be parsed. Each line reference must exactly match a line from the file view output. Violations: ";

/// How a complaint ends.
pub const COMPLAINT_END: &'static str = "You may also include action blocks if needed.";

/// What the model is told when its answer broke the rules, or nothing when
/// it broke none.
pub open spec fn complaint_text(
    heredoc: Seq<Seq<char>>,
    parse_errors: Seq<Seq<char>>,
    edit: Seq<Seq<char>>,
) -> Option<Seq<char>> {
    let has_h = heredoc.len() > 0;
    let has_e = edit.len() > 0 || parse_errors.len() > 0;
    if !has_h && !has_e {
        None
    } else {
        Some(
            (if has_h {
                HEREDOC_RULE@ + join_list(heredoc, ", "@) + ". "@
            } else {
                seq![]
            }) + (if has_e {
                EDIT_RULE@ + join_list(parse_errors + edit, ", "@) + ". "@
            } else {
                seq![]
            }) + COMPLAINT_END@,
        )
    }
}

/// Builds the complaint (see `complaint_text`).
pub fn retry_complaint(resp: &AgentResponse, edit_violations: &Vec<String>) -> (r: Option<String>)
    ensures
        match complaint_text(resp@.heredoc_violations, resp@.edit_parse_errors, strings_view(edit_violations@)) {
            Some(c) => r matches Some(t) && t@ == c,
            None => r is None,
        },
{
    let has_h = resp.heredoc_violations.len() > 0;
    let has_e = edit_violations.len() > 0 || resp.edit_parse_errors.len() > 0;
    if !has_h && !has_e {
        return None;
    }
    let mut c = String::new();
    if has_h {
        c.append(HEREDOC_RULE);
        c.append(join_strings(&resp.heredoc_violations, ", ").as_str());
        c.append(". ");
    }
    if has_e {
        c.append(EDIT_RULE);
        let mut all = crate::agent::copy_strings(&resp.edit_parse_errors);
        let mut more = crate::agent::copy_strings(edit_violations);
        let ghost a = all@;
        let ghost b = more@;
        all.append(&mut more);
        assert(strings_view(all@) =~= strings_view(a) + strings_view(b));
        c.append(join_strings(&all, ", ").as_str());
        c.append(". ");
    }
    c.append(COMPLAINT_END);
    Some(c)
}

/// The window a complaint names: in `mode:window — reason`, the text
/// between the first colon and the first ` — `.
pub open spec fn complaint_window(e: Seq<char>) -> Option<Seq<char>> {
    match crate::text::find_from(e, seq![' ', '—', ' '], 0) {
        Some(p) => match crate::text::find_from(e.take(p), seq![':'], 0) {
            Some(c) => Some(e.take(p).skip(c + 1)),
            None => None,
        },
        None => None,
    }
}

/// The windows named by the first `k` complaints, in order.
pub open spec fn complaint_windows_upto(errs: Seq<Seq<char>>, k: int) -> Seq<Seq<char>>
    decreases k,
{
    if k <= 0 || k > errs.len() {
        seq![]
    } else {
        match complaint_window(errs[k - 1]) {
            Some(w) => complaint_windows_upto(errs, k - 1).push(w),
            None => complaint_windows_upto(errs, k - 1),
        }
    }
}

/// The first `k` blocks whose window is not among `ws`.
pub open spec fn drop_windows_upto(bs: Seq<BlockV>, ws: Seq<Seq<char>>, k: int) -> Seq<BlockV>
    decreases k,
{
    if k <= 0 || k > bs.len() {
        seq![]
    } else if ws.contains(bs[k - 1].window) {
        drop_windows_upto(bs, ws, k - 1)
    } else {
        drop_windows_upto(bs, ws, k - 1).push(bs[k - 1])
    }
}

pub open spec fn drop_windows(bs: Seq<BlockV>, ws: Seq<Seq<char>>) -> Seq<BlockV> {
    drop_windows_upto(bs, ws, bs.len() as int)
}

/// A response corrected by the model's next answer: the answer's blocks
/// replace the blocks for the same windows, except that blocks for windows
/// the answer still got wrong are left out; a non-empty task in the answer
/// replaces the task; the answer's complaints replace the complaints.
pub open spec fn merge_spec(r: ResponseV, re: ResponseV) -> ResponseV {
    let re_windows = re.segments.map_values(|b: BlockV| b.window);
    let errs = re.heredoc_violations + re.edit_parse_errors;
    let bad = complaint_windows_upto(errs, errs.len() as int);
    ResponseV {
        segments: drop_windows(r.segments, re_windows) + drop_windows(re.segments, bad),
        task: if re.task.len() > 0 {
            re.task
        } else {
            r.task
        },
        heredoc_violations: re.heredoc_violations,
        edit_parse_errors: re.edit_parse_errors,
        ..r
    }
}

fn complaint_window_of(e: &String) -> (r: Option<String>)
    ensures
        match complaint_window(e@) {
            Some(w) => r matches Some(x) && x@ == w,
            None => r is None,
        },
{
    let v = chars_of(e.as_str());
    let dash = vec![' ', '—', ' '];
    assert(dash@ =~= seq![' ', '—', ' ']);
    match crate::text::find(v.as_slice(), dash.as_slice(), 0) {
        Some(p) => {
            proof {
                crate::text::lemma_find_from(v@, dash@, 0);
            }
            let pre = crate::text::slice(v.as_slice(), 0, p);
            assert(pre@ =~= v@.take(p as int));
            match crate::text::find_char(pre.as_slice(), ':', 0) {
                Some(c) => {
                    proof {
                        crate::text::lemma_find_from(pre@, seq![':'], 0);
                    }
                    let w = crate::text::slice(pre.as_slice(), c + 1, pre.len());
                    assert(w@ =~= pre@.skip(c + 1));
                    Some(crate::text::string_of(w.as_slice()))
                },
                None => None,
            }
        },
        None => None,
    }
}

fn contains_window(ws: &Vec<String>, w: &String) -> (b: bool)
    ensures
        b == strings_view(ws@).contains(w@),
{
    let mut i: usize = 0;
    while i < ws.len()
        invariant
            0 <= i <= ws@.len(),
            forall|j: int| 0 <= j < i ==> ws@[j]@ != w@,
        decreases ws@.len() - i,
    {
        if crate::types::str_eq(ws[i].as_str(), w.as_str()) {
            assert(strings_view(ws@)[i as int] == w@);
            return true;
        }
        i = i + 1;
    }
    assert(!strings_view(ws@).contains(w@)) by {
        if strings_view(ws@).contains(w@) {
            let j = choose|j: int| 0 <= j < strings_view(ws@).len() && strings_view(ws@)[j] == w@;
            assert(ws@[j]@ == w@);
        }
    }
    false
}

fn keep_blocks_not_in(bs: &Vec<ParsedBlock>, ws: &Vec<String>, out: &mut Vec<ParsedBlock>)
    ensures
        blocks_view(final(out)@) == blocks_view(old(out)@) + drop_windows(
            blocks_view(bs@),
            strings_view(ws@),
        ),
{
    let ghost bv = blocks_view(bs@);
    let ghost start = blocks_view(out@);
    let mut i: usize = 0;
    while i < bs.len()
        invariant
            0 <= i <= bs@.len(),
            bv == blocks_view(bs@),
            blocks_view(out@) == start + drop_windows_upto(bv, strings_view(ws@), i as int),
        decreases bs@.len() - i,
    {
        assert(bv[i as int] == bs@[i as int]@);
        if !contains_window(ws, &bs[i].window) {
            let ghost pre = blocks_view(out@);
            out.push(bs[i].duplicate());
            assert(blocks_view(out@) =~= pre.push(bv[i as int]));
        }
        i = i + 1;
    }
}

/// Folds the model's next answer into the response (see `merge_spec`).
pub fn merge_retry(resp: AgentResponse, re: AgentResponse) -> (r: AgentResponse)
    ensures
        r@ == merge_spec(resp@, re@),
{
    let mut re_windows: Vec<String> = Vec::new();
    let mut i: usize = 0;
    let ghost rv = blocks_view(re.segments@);
    while i < re.segments.len()
        invariant
            0 <= i <= re.segments@.len(),
            rv == blocks_view(re.segments@),
            strings_view(re_windows@) == rv.take(i as int).map_values(|b: BlockV| b.window),
        decreases re.segments@.len() - i,
    {
        assert(rv[i as int] == re.segments@[i as int]@);
        let ghost pre = strings_view(re_windows@);
        let w = re.segments[i].window.clone();
        re_windows.push(w);
        assert(strings_view(re_windows@) =~= pre.push(rv[i as int].window));
        assert(rv.take(i + 1).map_values(|b: BlockV| b.window) =~= rv.take(i as int).map_values(
            |b: BlockV| b.window,
        ).push(rv[i as int].window));
        i = i + 1;
    }
    assert(rv.take(rv.len() as int) =~= rv);
    let mut errs = crate::agent::copy_strings(&re.heredoc_violations);
    let mut more = crate::agent::copy_strings(&re.edit_parse_errors);
    let ghost a = errs@;
    let ghost b = more@;
    errs.append(&mut more);
    let ghost ev = strings_view(errs@);
    assert(ev =~= re@.heredoc_violations + re@.edit_parse_errors);
    let mut bad: Vec<String> = Vec::new();
    let mut j: usize = 0;
    while j < errs.len()
        invariant
            0 <= j <= errs@.len(),
            ev == strings_view(errs@),
            strings_view(bad@) == complaint_windows_upto(ev, j as int),
        decreases errs@.len() - j,
    {
        assert(ev[j as int] == errs@[j as int]@);
        let ghost pre = strings_view(bad@);
        match complaint_window_of(&errs[j]) {
            Some(w) => {
                bad.push(w);
                assert(strings_view(bad@) =~= pre.push(complaint_window(ev[j as int])->0));
            },
            None => {},
        }
        j = j + 1;
    }
    let mut segs: Vec<ParsedBlock> = Vec::new();
    assert(blocks_view(segs@) =~= Seq::<BlockV>::empty());
    keep_blocks_not_in(&resp.segments, &re_windows, &mut segs);
    keep_blocks_not_in(&re.segments, &bad, &mut segs);
    let task = if re.task.as_str().unicode_len() > 0 {
        re.task
    } else {
        resp.task
    };
    let r = AgentResponse {
        reasoning: resp.reasoning,
        segments: segs,
        task,
        complete: resp.complete,
        heredoc_violations: re.heredoc_violations,
        edit_parse_errors: re.edit_parse_errors,
    };
    assert(r@.segments =~= merge_spec(resp@, re@).segments);
    r
}

/// How many times the model is asked again after a broken answer.
pub const MAX_RETRIES: usize = 3;

/// Where a model-backed step stands: waiting for the first answer, for a
/// corrected answer, for the navigator's task note, or finished.
#[derive(Debug, Clone, Copy, PartialEq, Eq, Structural)]
pub enum TurnPhase {
    Answer,
    Retry,
    Summary,
    Done,
}

/// What the step does next: ask the model with these messages, or end
/// with an answer, with the complaints that remained, or with a failure.
pub enum LlmAction {
    Call(Vec<Message>),
    Finish(Result<AgentResponse, AgentError>),
}

/// An action as plain values.
pub enum ActionV {
    Call(Seq<MsgV>),
    Answer(ResponseV),
    Invalid(Seq<Seq<char>>),
    Failed(AgentError),
}

impl View for LlmAction {
    type V = ActionV;

    open spec fn view(&self) -> ActionV {
        match self {
            LlmAction::Call(ms) => ActionV::Call(msgs_view(ms@)),
            LlmAction::Finish(Ok(r)) => ActionV::Answer(r@),
            LlmAction::Finish(Err(AgentError::InvalidResponse(v))) => ActionV::Invalid(
                strings_view(v@),
            ),
            LlmAction::Finish(Err(e)) => ActionV::Failed(*e),
        }
    }
}

/// One model-backed step of the agent, driven by the answers it is given.
pub struct LlmTurn {
    phase: TurnPhase,
    resp: AgentResponse,
    messages: Vec<Message>,
    attempt: usize,
}

/// A step's state as plain values.
pub struct TurnV {
    pub phase: TurnPhase,
    pub resp: ResponseV,
    pub messages: Seq<MsgV>,
    pub attempt: nat,
}

impl View for LlmTurn {
    type V = TurnV;

    closed spec fn view(&self) -> TurnV {
        TurnV {
            phase: self.phase,
            resp: self.resp@,
            messages: msgs_view(self.messages@),
            attempt: self.attempt as nat,
        }
    }
}

/// All the complaints left: the heredoc ones, the parse errors, and the
/// edit violations.
pub open spec fn remaining_violations(r: ResponseV, ev: Seq<Seq<char>>) -> Seq<Seq<char>> {
    r.heredoc_violations + r.edit_parse_errors + ev
}

/// The end of the checks: a response with complaints left is refused with
/// them; else the navigator is asked for the task note, unless the
/// response completes the task.
pub open spec fn finalize_spec(t: TurnV, s: State) -> (TurnV, ActionV) {
    let ev = edit_violations(t.resp.segments, s.outputs.map());
    if remaining_violations(t.resp, ev).len() > 0 {
        (TurnV { phase: TurnPhase::Done, ..t }, ActionV::Invalid(remaining_violations(t.resp, ev)))
    } else if !t.resp.complete {
        (TurnV { phase: TurnPhase::Summary, ..t }, ActionV::Call(task_messages(s, t.resp)))
    } else {
        (TurnV { phase: TurnPhase::Done, ..t }, ActionV::Answer(t.resp))
    }
}

/// Checking a response: while retries are left, a response that broke the
/// rules makes the model be asked again with the complaint added to the
/// conversation; otherwise the checks end.
pub open spec fn check_spec(t: TurnV, s: State) -> (TurnV, ActionV) {
    let ev = edit_violations(t.resp.segments, s.outputs.map());
    if t.attempt <= MAX_RETRIES {
        match complaint_text(t.resp.heredoc_violations, t.resp.edit_parse_errors, ev) {
            Some(c) => {
                let m = t.messages.push(MsgV::User(c));
                (TurnV { phase: TurnPhase::Retry, messages: m, ..t }, ActionV::Call(m))
            },
            None => finalize_spec(t, s),
        }
    } else {
        finalize_spec(t, s)
    }
}

/// A model answer read as a response, with its reasoning.
pub open spec fn answer_of(text: Seq<char>, reasoning: Seq<char>) -> ResponseV {
    ResponseV { reasoning, ..crate::response::response_of(text) }
}

/// What a step does with an answer.
pub open spec fn reply_spec(t: TurnV, s: State, text: Seq<char>, reasoning: Seq<char>) -> (
    TurnV,
    ActionV,
) {
    match t.phase {
        TurnPhase::Answer => check_spec(
            TurnV {
                resp: answer_of(text, reasoning),
                messages: t.messages.push(MsgV::Assistant(text)),
                attempt: 1,
                ..t
            },
            s,
        ),
        TurnPhase::Retry => check_spec(
            TurnV {
                resp: merge_spec(t.resp, answer_of(text, reasoning)),
                messages: t.messages.push(MsgV::Assistant(text)),
                attempt: t.attempt + 1,
                ..t
            },
            s,
        ),
        _ => {
            let r = ResponseV { task: trim(text), ..t.resp };
            (TurnV { phase: TurnPhase::Done, resp: r, ..t }, ActionV::Answer(r))
        },
    }
}

/// What a step may be given: an output map it can read, and a context
/// whose token estimate fits `usize`.
pub open spec fn state_ready(s: State) -> bool {
    s.outputs.wf() && context_tokens(s) <= usize::MAX
}

fn copy_messages(ms: &Vec<Message>) -> (r: Vec<Message>)
    ensures
        msgs_view(r@) == msgs_view(ms@),
{
    let mut r: Vec<Message> = Vec::new();
    let mut i: usize = 0;
    while i < ms.len()
        invariant
            0 <= i <= ms@.len(),
            msgs_view(r@) == msgs_view(ms@).take(i as int),
        decreases ms@.len() - i,
    {
        let m = match &ms[i] {
            Message::System(t) => Message::System(t.clone()),
            Message::User(t) => Message::User(t.clone()),
            Message::Assistant(t) => Message::Assistant(t.clone()),
        };
        assert(m@ == ms@[i as int]@);
        let ghost pre = msgs_view(r@);
        r.push(m);
        assert(msgs_view(r@) =~= pre.push(ms@[i as int]@));
        assert(msgs_view(ms@).take(i + 1) =~= msgs_view(ms@).take(i as int).push(ms@[i as int]@));
        i = i + 1;
    }
    assert(msgs_view(ms@).take(ms@.len() as int) =~= msgs_view(ms@));
    r
}

fn trimmed(text: &str) -> (s: String)
    ensures
        s@ == trim(text@),
{
    let v = chars_of(text);
    assert(v@.subrange(0, v@.len() as int) =~= v@);
    crate::text::trimmed_string(v.as_slice(), 0, v.len())
}

impl LlmTurn {
    /// Starts a step: the model is asked with the tick's messages.
    pub fn start(state: &State) -> (r: (LlmTurn, LlmAction))
        requires
            state_ready(*state),
        ensures
            r.0@.phase == TurnPhase::Answer,
            r.0@.attempt == 0,
            r.0@.messages == tick_messages(*state),
            r.1@ == ActionV::Call(tick_messages(*state)),
    {
        let ms = state_to_messages(state);
        let call = copy_messages(&ms);
        (LlmTurn { phase: TurnPhase::Answer, resp: AgentResponse::new(), messages: ms, attempt: 0 }, LlmAction::Call(call))
    }

    fn finalize(&mut self, state: &State) -> (a: LlmAction)
        requires
            state_ready(*state),
        ensures
            (final(self)@, a@) == finalize_spec(old(self)@, *state),
    {
        let ev = check_edit_violations(self.resp.segments.as_slice(), &state.outputs);
        if self.resp.heredoc_violations.len() > 0 || self.resp.edit_parse_errors.len() > 0
            || ev.len() > 0 {
            let mut all = crate::agent::copy_strings(&self.resp.heredoc_violations);
            let mut b = crate::agent::copy_strings(&self.resp.edit_parse_errors);
            let mut c = ev;
            let ghost x = all@;
            let ghost y = b@;
            let ghost z = c@;
            all.append(&mut b);
            all.append(&mut c);
            assert(strings_view(all@) =~= strings_view(x) + strings_view(y) + strings_view(z));
            self.phase = TurnPhase::Done;
            return LlmAction::Finish(Err(AgentError::InvalidResponse(all)));
        }
        if !self.resp.complete {
            self.phase = TurnPhase::Summary;
            LlmAction::Call(build_task_messages(state, &self.resp))
        } else {
            self.phase = TurnPhase::Done;
            LlmAction::Finish(Ok(self.resp.duplicate()))
        }
    }

    fn check(&mut self, state: &State) -> (a: LlmAction)
        requires
            state_ready(*state),
        ensures
            (final(self)@, a@) == check_spec(old(self)@, *state),
    {
        if self.attempt <= MAX_RETRIES {
            let ev = check_edit_violations(self.resp.segments.as_slice(), &state.outputs);
            match retry_complaint(&self.resp, &ev) {
                Some(c) => {
                    let ghost pre = msgs_view(self.messages@);
                    self.messages.push(Message::User(c));
                    assert(msgs_view(self.messages@) =~= pre.push(MsgV::User(c@)));
                    self.phase = TurnPhase::Retry;
                    return LlmAction::Call(copy_messages(&self.messages));
                },
                None => {},
            }
        }
        self.finalize(state)
    }

    /// Takes in the model's answer (see `reply_spec`).
    pub fn on_reply(&mut self, state: &State, text: &str, reasoning: &str) -> (a: LlmAction)
        requires
            state_ready(*state),
            old(self)@.phase != TurnPhase::Done,
            old(self)@.phase == TurnPhase::Retry ==> old(self)@.attempt <= MAX_RETRIES,
        ensures
            (final(self)@, a@) == reply_spec(old(self)@, *state, text@, reasoning@),
            final(self)@.phase == TurnPhase::Retry ==> final(self)@.attempt <= MAX_RETRIES,
    {
        match self.phase {
            TurnPhase::Answer => {
                self.resp = crate::response::parse_response(text).with_reasoning(reasoning);
                let ghost pre = msgs_view(self.messages@);
                self.messages.push(Message::Assistant(String::from_str(text)));
                assert(msgs_view(self.messages@) =~= pre.push(MsgV::Assistant(text@)));
                self.attempt = 1;
                self.check(state)
            },
            TurnPhase::Retry => {
                let re = crate::response::parse_response(text).with_reasoning(reasoning);
                let mut cur = AgentResponse::new();
                std::mem::swap(&mut cur, &mut self.resp);
                self.resp = merge_retry(cur, re);
                let ghost pre = msgs_view(self.messages@);
                self.messages.push(Message::Assistant(String::from_str(text)));
                assert(msgs_view(self.messages@) =~= pre.push(MsgV::Assistant(text@)));
                self.attempt = self.attempt + 1;
                self.check(state)
            },
            _ => {
                self.resp.task = trimmed(text);
                self.phase = TurnPhase::Done;
                LlmAction::Finish(Ok(self.resp.duplicate()))
            },
        }
    }

    /// Takes in a failed call: waiting for the task note, the step ends
    /// with its response as it is; otherwise it ends with the failure.
    pub fn on_failure(&mut self, err: AgentError) -> (a: LlmAction)
        requires
            old(self)@.phase != TurnPhase::Done,
        ensures
            final(self)@ == (TurnV { phase: TurnPhase::Done, ..old(self)@ }),
            old(self)@.phase == TurnPhase::Summary ==> a@ == ActionV::Answer(old(self)@.resp),
            old(self)@.phase != TurnPhase::Summary ==> (a matches LlmAction::Finish(Err(e)) && e == err),
    {
        let was_summary = self.phase == TurnPhase::Summary;
        self.phase = TurnPhase::Done;
        if was_summary {
            LlmAction::Finish(Ok(self.resp.duplicate()))
        } else {
            LlmAction::Finish(Err(err))
        }
    }

    /// Whether the step has ended.
    pub fn is_done(&self) -> (b: bool)
        ensures
            b == (self@.phase == TurnPhase::Done),
    {
        self.phase == TurnPhase::Done
    }
}

proof fn lemma_drop_windows_has(bs: Seq<BlockV>, ws: Seq<Seq<char>>, k: int, b: BlockV)
    requires
        0 <= k <= bs.len(),
    ensures
        drop_windows_upto(bs, ws, k).contains(b) <==> (exists|j: int| 0 <= j < k && bs[j] == b)
            && !ws.contains(b.window),
    decreases k,
{
    if k > 0 {
        lemma_drop_windows_has(bs, ws, k - 1, b);
        let p = drop_windows_upto(bs, ws, k - 1);
        let q = drop_windows_upto(bs, ws, k);
        if !ws.contains(bs[k - 1].window) {
            assert(q == p.push(bs[k - 1]));
            if q.contains(b) {
                let i = choose|i: int| 0 <= i < q.len() && q[i] == b;
                if i < p.len() {
                    assert(p[i] == b);
                } else {
                    assert(bs[k - 1] == b);
                }
            }
            if (exists|j: int| 0 <= j < k && bs[j] == b) && !ws.contains(b.window) {
                let j = choose|j: int| 0 <= j < k && bs[j] == b;
                if j == k - 1 {
                    assert(q[p.len() as int] == b);
                } else {
                    assert(p.contains(b));
                    let i = choose|i: int| 0 <= i < p.len() && p[i] == b;
                    assert(q[i] == b);
                }
            }
        } else {
            if (exists|j: int| 0 <= j < k && bs[j] == b) && !ws.contains(b.window) {
                let j = choose|j: int| 0 <= j < k && bs[j] == b;
                assert(j != k - 1);
            }
        }
    }
}

/// Merging a corrected answer into a response: a non-empty task in the
/// answer replaces the task, an empty one keeps it; every block of the
/// response for a window the answer does not touch is kept; every block of
/// the answer for a window it got right is taken; and nothing else comes
/// in.
pub proof fn lemma_merge_retry_laws(r: ResponseV, re: ResponseV, b: BlockV)
    ensures
        re.task.len() > 0 ==> merge_spec(r, re).task == re.task,
        re.task.len() == 0 ==> merge_spec(r, re).task == r.task,
        r.segments.contains(b) && !(exists|j: int|
            0 <= j < re.segments.len() && #[trigger] re.segments[j].window == b.window)
            ==> merge_spec(r, re).segments.contains(b),
        re.segments.contains(b) && !complaint_windows_upto(
            re.heredoc_violations + re.edit_parse_errors,
            (re.heredoc_violations + re.edit_parse_errors).len() as int,
        ).contains(b.window) ==> merge_spec(r, re).segments.contains(b),
        merge_spec(r, re).segments.contains(b) ==> r.segments.contains(b) || re.segments.contains(b),
{
    let re_windows = re.segments.map_values(|x: BlockV| x.window);
    let errs = re.heredoc_violations + re.edit_parse_errors;
    let bad = complaint_windows_upto(errs, errs.len() as int);
    let a = drop_windows(r.segments, re_windows);
    let c = drop_windows(re.segments, bad);
    lemma_drop_windows_has(r.segments, re_windows, r.segments.len() as int, b);
    lemma_drop_windows_has(re.segments, bad, re.segments.len() as int, b);
    let m = merge_spec(r, re).segments;
    assert(m == a + c);
    if re_windows.contains(b.window) {
        let j = choose|j: int| 0 <= j < re_windows.len() && re_windows[j] == b.window;
        assert(re.segments[j].window == b.window);
    }
    if a.contains(b) {
        let i = choose|i: int| 0 <= i < a.len() && a[i] == b;
        assert(m[i] == b);
    }
    if c.contains(b) {
        let i = choose|i: int| 0 <= i < c.len() && c[i] == b;
        assert(m[a.len() + i] == b);
    }
    if m.contains(b) {
        let i = choose|i: int| 0 <= i < m.len() && m[i] == b;
        if i < a.len() {
            assert(a[i] == b);
        } else {
            assert(c[i - a.len()] == b);
        }
    }
    if r.segments.contains(b) {
        let j = choose|j: int| 0 <= j < r.segments.len() && r.segments[j] == b;
        assert(exists|jj: int| 0 <= jj < r.segments.len() && r.segments[jj] == b);
    }
    if re.segments.contains(b) {
        let j = choose|j: int| 0 <= j < re.segments.len() && re.segments[j] == b;
        assert(exists|jj: int| 0 <= jj < re.segments.len() && re.segments[jj] == b);
    }
}

} // verus!
