//! What an agent answers on a tick, and the scripted agents used to drive
//! the kernel without a model.

pub mod llm;
pub mod test_agent;

pub use test_agent::{TestAgent, TestStep};

use crate::response::edit_command::{parse_edit_command, parse_edit_spec};
use crate::text::debug_quoted;
use crate::text::debug_str;
use crate::types::{BlockMode, BlockV, ModeV, ParsedBlock, blocks_view, strings_view};
use vstd::prelude::*;

verus! {

/// An agent's answer: its reasoning, the blocks it asks for, its task
/// line, whether it declares the task complete, and what the response
/// parser flagged.
#[derive(Debug, Clone, Default)]
pub struct AgentResponse {
    pub reasoning: String,
    pub segments: Vec<ParsedBlock>,
    pub task: String,
    pub complete: bool,
    pub heredoc_violations: Vec<String>,
    pub edit_parse_errors: Vec<String>,
}

/// An agent response as plain values.
pub struct ResponseV {
    pub reasoning: Seq<char>,
    pub segments: Seq<BlockV>,
    pub task: Seq<char>,
    pub complete: bool,
    pub heredoc_violations: Seq<Seq<char>>,
    pub edit_parse_errors: Seq<Seq<char>>,
}

impl View for AgentResponse {
    type V = ResponseV;

    open spec fn view(&self) -> ResponseV {
        ResponseV {
            reasoning: self.reasoning@,
            segments: blocks_view(self.segments@),
            task: self.task@,
            complete: self.complete,
            heredoc_violations: strings_view(self.heredoc_violations@),
            edit_parse_errors: strings_view(self.edit_parse_errors@),
        }
    }
}

/// The response with nothing in it.
pub open spec fn empty_response() -> ResponseV {
    ResponseV {
        reasoning: Seq::empty(),
        segments: Seq::empty(),
        task: Seq::empty(),
        complete: false,
        heredoc_violations: Seq::empty(),
        edit_parse_errors: Seq::empty(),
    }
}

/// The mode a block is built with: an edit block carries the command its
/// content parses to, or none when it does not parse.
pub open spec fn built_mode(m: ModeV, content: Seq<char>) -> ModeV {
    if m is Edit {
        match parse_edit_spec(content) {
            Ok(c) => ModeV::Edit(Some(c)),
            Err(_) => ModeV::Edit(None),
        }
    } else {
        m
    }
}

/// A copy of a sequence of blocks.
pub fn copy_blocks(v: &Vec<ParsedBlock>) -> (r: Vec<ParsedBlock>)
    ensures
        r@ == v@,
{
    let mut r: Vec<ParsedBlock> = Vec::new();
    let mut i: usize = 0;
    while i < v.len()
        invariant
            0 <= i <= v@.len(),
            r@ == v@.take(i as int),
        decreases v@.len() - i,
    {
        r.push(v[i].duplicate());
        assert(r@ =~= v@.take(i + 1));
        i = i + 1;
    }
    assert(r@ =~= v@);
    r
}

/// A copy of a sequence of strings.
pub fn copy_strings(v: &Vec<String>) -> (r: Vec<String>)
    ensures
        r@ == v@,
{
    let mut r: Vec<String> = Vec::new();
    let mut i: usize = 0;
    while i < v.len()
        invariant
            0 <= i <= v@.len(),
            r@ == v@.take(i as int),
        decreases v@.len() - i,
    {
        r.push(v[i].clone());
        assert(r@ =~= v@.take(i + 1));
        i = i + 1;
    }
    assert(r@ =~= v@);
    r
}

impl AgentResponse {
    /// The empty response.
    pub fn new() -> (r: AgentResponse)
        ensures
            r@ == empty_response(),
    {
        let r = AgentResponse {
            reasoning: String::new(),
            segments: Vec::new(),
            task: String::new(),
            complete: false,
            heredoc_violations: Vec::new(),
            edit_parse_errors: Vec::new(),
        };
        assert(r@.segments =~= Seq::<BlockV>::empty());
        assert(r@.heredoc_violations =~= Seq::<Seq<char>>::empty());
        assert(r@.edit_parse_errors =~= Seq::<Seq<char>>::empty());
        r
    }

    /// A response with one block; an edit block's command is parsed from
    /// its content.
    pub fn block(window: &str, mode: BlockMode, content: &str) -> (r: AgentResponse)
        ensures
            r@ == (ResponseV {
                segments: seq![
                    BlockV {
                        window: window@,
                        mode: built_mode(mode@, content@),
                        content: content@,
                        prose: None,
                        dashboard: false,
                    },
                ],
                ..empty_response()
            }),
    {
        let mode = match mode {
            BlockMode::Edit(_) => match parse_edit_command(content) {
                Ok(cmd) => BlockMode::Edit(Some(cmd)),
                Err(_) => BlockMode::Edit(None),
            },
            other => other,
        };
        let b = ParsedBlock {
            window: String::from_str(window),
            mode,
            content: String::from_str(content),
            prose: None,
            dashboard: false,
        };
        let mut segments: Vec<ParsedBlock> = Vec::new();
        segments.push(b);
        let r = AgentResponse {
            reasoning: String::new(),
            segments,
            task: String::new(),
            complete: false,
            heredoc_violations: Vec::new(),
            edit_parse_errors: Vec::new(),
        };
        assert(r@.segments =~= seq![b@]);
        assert(r@.heredoc_violations =~= Seq::<Seq<char>>::empty());
        assert(r@.edit_parse_errors =~= Seq::<Seq<char>>::empty());
        r
    }

    /// This response with the other's blocks appended after its own; all
    /// else is this response's.
    pub fn and(self, other: AgentResponse) -> (r: AgentResponse)
        ensures
            r@ == (ResponseV { segments: self@.segments + other@.segments, ..self@ }),
    {
        let mut s = self;
        let mut o = other;
        let ghost a = s.segments@;
        let ghost b = o.segments@;
        s.segments.append(&mut o.segments);
        assert(blocks_view(a + b) =~= blocks_view(a) + blocks_view(b));
        s
    }

    /// This response with the reasoning replaced.
    pub fn with_reasoning(self, reasoning: &str) -> (r: AgentResponse)
        ensures
            r@ == (ResponseV { reasoning: reasoning@, ..self@ }),
    {
        let mut s = self;
        s.reasoning = String::from_str(reasoning);
        s
    }

    /// This response with the task replaced.
    pub fn with_task(self, task: &str) -> (r: AgentResponse)
        ensures
            r@ == (ResponseV { task: task@, ..self@ }),
    {
        let mut s = self;
        s.task = String::from_str(task);
        s
    }

    /// A copy of the response, with the same view.
    pub fn duplicate(&self) -> (r: AgentResponse)
        ensures
            r@ == self@,
            r.segments@ == self.segments@,
    {
        AgentResponse {
            reasoning: self.reasoning.clone(),
            segments: copy_blocks(&self.segments),
            task: self.task.clone(),
            complete: self.complete,
            heredoc_violations: copy_strings(&self.heredoc_violations),
            edit_parse_errors: copy_strings(&self.edit_parse_errors),
        }
    }
}

/// Why an agent could not answer.
#[derive(Debug, Clone, PartialEq)]
pub enum AgentError {
    Api(String),
    Timeout,
    /// The model service failed; the text is the service error's message.
    Llm(String),
    InvalidResponse(Vec<String>),
}

/// `[a, b, ...]` with each item quoted as `{:?}` quotes a string.
pub open spec fn debug_list_from(items: Seq<Seq<char>>, i: int) -> Seq<char>
    decreases items.len() - i,
{
    if i < 0 || i >= items.len() {
        Seq::empty()
    } else if i == 0 {
        debug_quoted(items[i]) + debug_list_from(items, i + 1)
    } else {
        seq![',', ' '] + debug_quoted(items[i]) + debug_list_from(items, i + 1)
    }
}

pub open spec fn debug_list(items: Seq<Seq<char>>) -> Seq<char> {
    seq!['['] + debug_list_from(items, 0) + seq![']']
}

/// The message an agent error displays.
pub open spec fn agent_error_message(e: AgentError) -> Seq<char> {
    match e {
        AgentError::Api(m) => "API error: "@ + m@,
        AgentError::Timeout => "timeout"@,
        AgentError::Llm(m) => "LLM error: "@ + m@,
        AgentError::InvalidResponse(v) => "response validation failed after retries: "@
            + debug_list(strings_view(v@)),
    }
}

/// Writes `items` as `{:?}` writes a list of strings.
pub fn debug_string_list(items: &Vec<String>) -> (s: String)
    ensures
        s@ == debug_list(strings_view(items@)),
{
    let ghost sv = strings_view(items@);
    let mut tail = String::new();
    let mut i: usize = items.len();
    while i > 0
        invariant
            0 <= i <= items@.len(),
            sv == strings_view(items@),
            tail@ == debug_list_from(sv, i as int),
        decreases i,
    {
        i = i - 1;
        let q = debug_str(items[i].as_str());
        let mut t = String::new();
        if i > 0 {
            t.append(", ");
        }
        t.append(q.as_str());
        t.append(tail.as_str());
        proof {
            reveal_strlit(", ");
            assert(sv[i as int] == items@[i as int]@);
        }
        tail = t;
    }
    let mut s = String::from_str("[");
    s.append(tail.as_str());
    s.append("]");
    proof {
        reveal_strlit("[");
        reveal_strlit("]");
    }
    s
}

impl AgentError {
    /// The error's message (what `Display` writes).
    pub fn to_string(&self) -> (s: String)
        ensures
            s@ == agent_error_message(*self),
    {
        match self {
            AgentError::Api(m) => {
                let mut s = String::from_str("API error: ");
                s.append(m.as_str());
                s
            },
            AgentError::Timeout => String::from_str("timeout"),
            AgentError::Llm(m) => {
                let mut s = String::from_str("LLM error: ");
                s.append(m.as_str());
                s
            },
            AgentError::InvalidResponse(v) => {
                let mut s = String::from_str("response validation failed after retries: ");
                let l = debug_string_list(v);
                s.append(l.as_str());
                s
            },
        }
    }
}

/// An agent that always answers with the empty response.
pub struct NopAgent;

impl NopAgent {
    pub fn step(&self) -> (r: Result<AgentResponse, AgentError>)
        ensures
            r matches Ok(resp) && resp@ == empty_response(),
    {
        Ok(AgentResponse::new())
    }
}

/// An agent that answers with the given responses, one per step, in order,
/// and fails once they are used up.
pub struct MockAgent {
    responses: Vec<AgentResponse>,
    current: usize,
}

impl MockAgent {
    /// The responses, in the order they are given out.
    pub closed spec fn responses(&self) -> Seq<AgentResponse> {
        self.responses@
    }

    /// How many steps have been taken.
    pub closed spec fn current(&self) -> usize {
        self.current
    }

    pub fn new(responses: Vec<AgentResponse>) -> (m: MockAgent)
        ensures
            m.responses() == responses@,
            m.current() == 0,
    {
        MockAgent { responses, current: 0 }
    }

    pub fn single(response: AgentResponse) -> (m: MockAgent)
        ensures
            m.responses() == seq![response],
            m.current() == 0,
    {
        let mut v: Vec<AgentResponse> = Vec::new();
        v.push(response);
        assert(v@ =~= seq![response]);
        MockAgent::new(v)
    }

    /// The next response, or an API error when none is left; the step
    /// counter advances (wrapping) either way.
    pub fn step(&mut self) -> (r: Result<AgentResponse, AgentError>)
        ensures
            final(self).responses() == old(self).responses(),
            final(self).current() == (if old(self).current() == usize::MAX {
                0
            } else {
                old(self).current() + 1
            }),
            old(self).current() < old(self).responses().len() ==> (r matches Ok(resp) && resp@
                == old(self).responses()[old(self).current() as int]@),
            old(self).current() >= old(self).responses().len() ==> (r matches Err(
                AgentError::Api(m),
            ) && m@ == "no more responses"@),
    {
        let idx = self.current;
        self.current = self.current.wrapping_add(1);
        if idx < self.responses.len() {
            Ok(self.responses[idx].duplicate())
        } else {
            Err(AgentError::Api(String::from_str("no more responses")))
        }
    }
}

} // verus!
