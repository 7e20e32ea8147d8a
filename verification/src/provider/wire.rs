//! The input side of a responses-API request: messages, prior function
//! calls and tool results, and the conversion of a stored tool output into
//! the content the API carries.

use crate::text::{append_str, chars_of, string_of};
use vstd::prelude::*;

verus! {

/// The kind of a model-facing tool definition.
#[derive(Debug, Clone, Copy, PartialEq, Eq, Structural)]
pub enum ToolKind {
    Function,
}

/// The reasoning effort in the responses-API shape (`none` on the wire is
/// `NoReasoning`); no effort at all leaves the server default.
#[derive(Debug, Clone, Copy, PartialEq, Eq, Structural)]
pub enum ReasoningEffort {
    NoReasoning,
    Low,
    Medium,
    High,
}

/// A plain input message.
#[derive(Debug, Clone)]
pub struct InputMessage {
    pub role: String,
    pub content: String,
}

/// One input item: a plain message, a prior function call, or a tool
/// result riding back to the model on the next call.
#[derive(Debug, Clone)]
pub enum InputEntry {
    Message(InputMessage),
    Call(FunctionCallInput),
    CallOutput(FunctionCallOutputInput),
}

/// A prior function call as an input item.
#[derive(Debug, Clone)]
pub struct FunctionCallInput {
    pub kind: &'static str,
    pub id: String,
    pub call_id: String,
    pub name: String,
    pub arguments: String,
}

/// A tool result as an input item.
#[derive(Debug, Clone)]
pub struct FunctionCallOutputInput {
    pub kind: &'static str,
    pub call_id: String,
    pub output: CallOutput,
}

/// An `input_image` content part: the base64 payload in a data URL.
#[derive(Debug, Clone, PartialEq, Eq)]
pub struct InputImagePart {
    pub kind: &'static str,
    pub image_url: String,
}

/// A tool result as the API carries it: a plain string, or content parts
/// (an image is one `input_image` part).
#[derive(Debug, Clone, PartialEq, Eq)]
pub enum CallOutput {
    Text(String),
    Image(Vec<InputImagePart>),
}

/// A stored tool output as the conversion reads it: a JSON string, a JSON
/// object (its `type`, `media_type` and `data_base64` members where they
/// are strings), or any other JSON value.
#[derive(Debug, Clone)]
pub enum StoredOutput {
    Text(String),
    Object { kind: Option<String>, media_type: Option<String>, data_base64: Option<String> },
    Other,
}

/// A string member's text, empty when absent.
pub open spec fn or_empty(o: Option<String>) -> Seq<char> {
    match o {
        Some(s) => s@,
        None => Seq::empty(),
    }
}

/// The data URL of an image payload.
pub open spec fn data_url(media_type: Seq<char>, data: Seq<char>) -> Seq<char> {
    "data:"@ + media_type + ";base64,"@ + data
}

/// The object is an image block: its `type` member is `image`.
pub open spec fn is_image(kind: Option<String>) -> bool {
    kind matches Some(k) && k@ == "image"@
}

impl CallOutput {
    /// A stored tool output as wire content: a string passes through; an
    /// object whose `type` is `image` becomes one `input_image` data-URL
    /// part (absent members read as empty); anything else has none.
    pub fn from_payload(v: &StoredOutput) -> (r: Option<CallOutput>)
        ensures
            match *v {
                StoredOutput::Text(s) => r matches Some(CallOutput::Text(t)) && t@ == s@,
                StoredOutput::Object { kind, media_type, data_base64 } => if is_image(kind) {
                    &&& r matches Some(CallOutput::Image(parts))
                    &&& parts@.len() == 1
                    &&& parts@[0].kind@ == "input_image"@
                    &&& parts@[0].image_url@ == data_url(or_empty(media_type), or_empty(data_base64))
                } else {
                    r is None
                },
                StoredOutput::Other => r is None,
            },
    {
        match v {
            StoredOutput::Text(s) => Some(CallOutput::Text(s.clone())),
            StoredOutput::Object { kind, media_type, data_base64 } => {
                let image = match kind {
                    Some(k) => crate::text::chars_eq(&chars_of(k.as_str()), &chars_of("image")),
                    None => false,
                };
                if !image {
                    return None;
                }
                let mut url = chars_of("data:");
                match media_type {
                    Some(m) => append_str(&mut url, m.as_str()),
                    None => {},
                }
                append_str(&mut url, ";base64,");
                match data_base64 {
                    Some(d) => append_str(&mut url, d.as_str()),
                    None => {},
                }
                let part = InputImagePart { kind: "input_image", image_url: string_of(&url) };
                let mut parts: Vec<InputImagePart> = Vec::new();
                parts.push(part);
                Some(CallOutput::Image(parts))
            },
            StoredOutput::Other => None,
        }
    }
}

/// The output cap clamped to a model's declared context window: the
/// window less the prompt when the window is declared and larger than the
/// prompt; the cap itself otherwise (the server's own rejection decides).
pub fn clamp_max_output(max: u64, context_window: Option<u32>, prompt_tokens: u32) -> (r: u64)
    ensures
        r == match context_window {
            Some(w) => if w > prompt_tokens {
                if max < w - prompt_tokens {
                    max as int
                } else {
                    w - prompt_tokens
                }
            } else {
                max as int
            },
            None => max as int,
        },
{
    match context_window {
        Some(w) => {
            if (w as u64) > (prompt_tokens as u64) {
                let room = (w as u64) - (prompt_tokens as u64);
                if max < room {
                    max
                } else {
                    room
                }
            } else {
                max
            }
        },
        None => max,
    }
}

/// The token estimate of one input item: its message text, its call's
/// arguments, or its text result (an image counts nothing).
pub open spec fn entry_tokens(e: InputEntry) -> int {
    match e {
        InputEntry::Message(m) => crate::om::token_count_of(m.content@) as int,
        InputEntry::Call(c) => crate::om::token_count_of(c.arguments@) as int,
        InputEntry::CallOutput(o) => match o.output {
            CallOutput::Text(s) => crate::om::token_count_of(s@) as int,
            CallOutput::Image(_) => 0,
        },
    }
}

pub open spec fn entries_tokens(es: Seq<InputEntry>) -> int
    decreases es.len(),
{
    if es.len() == 0 {
        0
    } else {
        entries_tokens(es.drop_last()) + entry_tokens(es.last())
    }
}

/// The soft prompt size in tokens: the system prompt, every input item,
/// and the serialized tool specs (`tools_json`; nothing when they did not
/// serialize).
pub open spec fn prompt_tokens_of(system_prompt: Seq<char>, input: Seq<InputEntry>, tools_json: Option<Seq<char>>) -> int {
    crate::om::token_count_of(system_prompt) as int + entries_tokens(input) + match tools_json {
        Some(j) => crate::om::token_count_of(j) as int,
        None => 0,
    }
}

proof fn lemma_entries_tokens_nonneg(es: Seq<InputEntry>)
    ensures
        0 <= entries_tokens(es),
    decreases es.len(),
{
    if es.len() > 0 {
        lemma_entries_tokens_nonneg(es.drop_last());
    }
}

proof fn lemma_entries_tokens_prefix(es: Seq<InputEntry>, k: int)
    requires
        0 <= k <= es.len(),
    ensures
        0 <= entries_tokens(es.take(k)) <= entries_tokens(es),
    decreases es.len() - k,
{
    lemma_entries_tokens_nonneg(es.take(k));
    if k < es.len() {
        lemma_entries_tokens_prefix(es, k + 1);
        assert(es.take(k + 1).drop_last() =~= es.take(k));
    } else {
        assert(es.take(k) =~= es);
    }
}

/// The soft prompt size of a request: the shared ~4-characters-per-token
/// estimate of the system prompt, the input items and the serialized tool
/// specs.
pub fn prompt_token_estimate(system_prompt: &str, input: &[InputEntry], tools_json: Option<&str>) -> (r: u32)
    requires
        prompt_tokens_of(
            system_prompt@,
            input@,
            match tools_json {
                Some(j) => Some(j@),
                None => None,
            },
        ) <= u32::MAX,
    ensures
        r == prompt_tokens_of(
            system_prompt@,
            input@,
            match tools_json {
                Some(j) => Some(j@),
                None => None,
            },
        ),
{
    let mut n = crate::om::token_count(system_prompt);
    let mut i: usize = 0;
    proof {
        lemma_entries_tokens_prefix(input@, input@.len() as int);
    }
    while i < input.len()
        invariant
            i <= input@.len(),
            n == crate::om::token_count_of(system_prompt@) + entries_tokens(input@.take(i as int)),
            prompt_tokens_of(
                system_prompt@,
                input@,
                match tools_json {
                    Some(j) => Some(j@),
                    None => None,
                },
            ) <= u32::MAX,
        decreases input@.len() - i,
    {
        proof {
            lemma_entries_tokens_prefix(input@, i + 1);
            assert(input@.take(i + 1).drop_last() =~= input@.take(i as int));
        }
        let t = match &input[i] {
            InputEntry::Message(m) => crate::om::token_count(m.content.as_str()),
            InputEntry::Call(c) => crate::om::token_count(c.arguments.as_str()),
            InputEntry::CallOutput(o) => match &o.output {
                CallOutput::Text(s) => crate::om::token_count(s.as_str()),
                CallOutput::Image(_) => 0,
            },
        };
        assert(t == entry_tokens(input@[i as int]));
        n = n + t;
        i = i + 1;
    }
    assert(input@.take(input@.len() as int) =~= input@);
    match tools_json {
        Some(j) => n + crate::om::token_count(j),
        None => n,
    }
}

/// One model-facing tool definition: its kind, name, description and JSON
/// parameter schema (carried as written).
#[derive(Debug)]
pub struct ToolSpec {
    pub kind: ToolKind,
    pub name: String,
    pub description: String,
    pub parameters: serde_json::Value,
}

/// One request to the responses endpoint (always streaming).
#[derive(Debug)]
pub struct ResponseRequest {
    model: String,
    instructions: Option<String>,
    input: Vec<InputEntry>,
    tools: Vec<ToolSpec>,
    max_output_tokens: Option<u64>,
    reasoning: Option<ReasoningEffort>,
    stream: bool,
}

impl ResponseRequest {
    pub closed spec fn model_of(&self) -> Seq<char> {
        self.model@
    }

    pub closed spec fn instructions_of(&self) -> Option<Seq<char>> {
        match self.instructions {
            Some(s) => Some(s@),
            None => None,
        }
    }

    pub closed spec fn input_of(&self) -> Seq<InputEntry> {
        self.input@
    }

    pub closed spec fn tools_of(&self) -> Seq<ToolSpec> {
        self.tools@
    }

    pub closed spec fn max_output_tokens_of(&self) -> Option<u64> {
        self.max_output_tokens
    }

    pub closed spec fn reasoning_of(&self) -> Option<ReasoningEffort> {
        self.reasoning
    }

    pub closed spec fn streams(&self) -> bool {
        self.stream
    }

    /// A streaming request for the model with the instructions and input;
    /// no tools, no output cap, no reasoning effort (the server defaults).
    pub fn new(model: &str, instructions: Option<&str>, input: Vec<InputEntry>) -> (r: Self)
        ensures
            r.model_of() == model@,
            r.instructions_of() == match instructions {
                Some(s) => Some(s@),
                None => None::<Seq<char>>,
            },
            r.input_of() == input@,
            r.tools_of().len() == 0,
            r.max_output_tokens_of() is None,
            r.reasoning_of() is None,
            r.streams(),
    {
        ResponseRequest {
            model: String::from_str(model),
            instructions: match instructions {
                Some(s) => Some(String::from_str(s)),
                None => None,
            },
            input,
            tools: Vec::new(),
            max_output_tokens: None,
            reasoning: None,
            stream: true,
        }
    }

    /// The request with these tools offered.
    pub fn with_tools(self, tools: Vec<ToolSpec>) -> (r: Self)
        ensures
            r.tools_of() == tools@,
            r.model_of() == self.model_of(),
            r.instructions_of() == self.instructions_of(),
            r.input_of() == self.input_of(),
            r.max_output_tokens_of() == self.max_output_tokens_of(),
            r.reasoning_of() == self.reasoning_of(),
            r.streams() == self.streams(),
    {
        let mut r = self;
        r.tools = tools;
        r
    }

    /// The request with an output cap.
    pub fn with_max_output_tokens(self, n: u64) -> (r: Self)
        ensures
            r.max_output_tokens_of() == Some(n),
            r.model_of() == self.model_of(),
            r.instructions_of() == self.instructions_of(),
            r.input_of() == self.input_of(),
            r.tools_of() == self.tools_of(),
            r.reasoning_of() == self.reasoning_of(),
            r.streams() == self.streams(),
    {
        let mut r = self;
        r.max_output_tokens = Some(n);
        r
    }

    /// The request with a reasoning effort.
    pub fn with_reasoning(self, effort: ReasoningEffort) -> (r: Self)
        ensures
            r.reasoning_of() == Some(effort),
            r.model_of() == self.model_of(),
            r.instructions_of() == self.instructions_of(),
            r.input_of() == self.input_of(),
            r.tools_of() == self.tools_of(),
            r.max_output_tokens_of() == self.max_output_tokens_of(),
            r.streams() == self.streams(),
    {
        let mut r = self;
        r.reasoning = Some(effort);
        r
    }

    /// The model the request names.
    pub fn model(&self) -> (r: &str)
        ensures
            r@ == self.model_of(),
    {
        self.model.as_str()
    }

    /// The system instructions, if any.
    pub fn instructions(&self) -> (r: Option<&str>)
        ensures
            match r {
                Some(s) => self.instructions_of() == Some(s@),
                None => self.instructions_of() is None,
            },
    {
        match &self.instructions {
            Some(s) => Some(s.as_str()),
            None => None,
        }
    }

    /// The input items.
    pub fn input(&self) -> (r: &[InputEntry])
        ensures
            r@ == self.input_of(),
    {
        self.input.as_slice()
    }

    /// The tools offered.
    pub fn tools(&self) -> (r: &[ToolSpec])
        ensures
            r@ == self.tools_of(),
    {
        self.tools.as_slice()
    }

    /// The output cap, if any.
    pub fn max_output_tokens(&self) -> (r: Option<u64>)
        ensures
            r == self.max_output_tokens_of(),
    {
        self.max_output_tokens
    }

    /// The reasoning effort, if any.
    pub fn reasoning(&self) -> (r: Option<ReasoningEffort>)
        ensures
            r == self.reasoning_of(),
    {
        self.reasoning
    }

    /// Whether the response streams (always).
    pub fn stream(&self) -> (r: bool)
        ensures
            r == self.streams(),
    {
        self.stream
    }
}

} // verus!
