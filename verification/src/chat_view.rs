//! What the terminal chat client shows, and how each event of the host's stream changes it:
//! the message list, the status line, the busy label, and the loop state the client has
//! observed. Reading the stream, talking to the host, timing and drawing are the caller's:
//! where an event asks for one of them, the update returns it as an effect.

use vstd::prelude::*;

use crate::text::{ascii_lower, is_whitespace, is_ws, str_eq, to_ascii_lowercase, to_chars, trim, trimmed_string_of, ws_end};
use crate::tui::{
    commands_view, format_command_infos, format_commands_spec, is_remote_slash, local_command_catalog, local_commands,
    plot_path_from_text, plot_path_spec, png_artifact_spec, png_artifact_text, starts_with, CommandInfo, CommandModel,
};

verus! {

/// One entry of the message list: who it is from (`user`, `assistant`, `thinking`,
/// `tool_call`, `tool`, `artifact`, `command`, `state` or `error`) and its text.
#[derive(Debug, Clone)]
pub struct ChatMessage {
    pub role: &'static str,
    pub text: String,
}

/// A message as plain values: role and text.
pub type MessageModel = (Seq<char>, Seq<char>);

/// Messages as plain values.
pub open spec fn messages_view(m: Seq<ChatMessage>) -> Seq<MessageModel> {
    m.map_values(|x: ChatMessage| (x.role@, x.text@))
}

/// What the client shows and remembers of the stream.
pub struct ChatView {
    pub messages: Vec<ChatMessage>,
    pub status: String,
    /// What the client is busy with, while a command is in flight.
    pub busy_label: String,
    pub command_in_flight: bool,
    /// The loop state last reported by the host.
    pub observed_state: String,
    /// The sequence number of the last event seen.
    pub last_event_seq: Option<u64>,
    pub should_quit: bool,
}

/// The client's view as plain values.
pub struct ViewModel {
    pub messages: Seq<MessageModel>,
    pub status: Seq<char>,
    pub busy_label: Seq<char>,
    pub in_flight: bool,
    pub observed: Seq<char>,
    pub seq: Option<u64>,
    pub quit: bool,
}

impl View for ChatView {
    type V = ViewModel;

    open spec fn view(&self) -> ViewModel {
        ViewModel {
            messages: messages_view(self.messages@),
            status: self.status@,
            busy_label: self.busy_label@,
            in_flight: self.command_in_flight,
            observed: self.observed_state@,
            seq: self.last_event_seq,
            quit: self.should_quit,
        }
    }
}

/// `delta` streamed into role `role`: appended to the last message when it has that role,
/// else a new message; an empty delta changes nothing.
pub open spec fn append_delta_spec(ms: Seq<MessageModel>, role: Seq<char>, delta: Seq<char>) -> Seq<MessageModel> {
    if delta.len() == 0 {
        ms
    } else if ms.len() > 0 && ms.last().0 == role {
        ms.drop_last().push((role, ms.last().1 + delta))
    } else {
        ms.push((role, delta))
    }
}

/// An event of the model's token stream.
pub enum ModelEvent {
    Start,
    ThinkingStart,
    ThinkingDelta { delta: String },
    TextStart,
    TextDelta { delta: String },
    ToolCallStart,
    ToolCallDelta { delta: String },
    Done,
    /// Any other event type (ignored).
    Other,
}

/// The view after a model event.
pub open spec fn model_event_spec(v: ViewModel, e: ModelEvent) -> ViewModel {
    match e {
        ModelEvent::Start => ViewModel { busy_label: "Model started; waiting for first token..."@, ..v },
        ModelEvent::ThinkingStart => ViewModel {
            busy_label: "Streaming thinking..."@,
            messages: v.messages.push(("thinking"@, Seq::empty())),
            ..v
        },
        ModelEvent::ThinkingDelta { delta } => ViewModel {
            messages: append_delta_spec(v.messages, "thinking"@, delta@),
            ..v
        },
        ModelEvent::TextStart => ViewModel {
            busy_label: "Streaming answer..."@,
            messages: v.messages.push(("assistant"@, Seq::empty())),
            ..v
        },
        ModelEvent::TextDelta { delta } => ViewModel {
            messages: append_delta_spec(v.messages, "assistant"@, delta@),
            ..v
        },
        ModelEvent::ToolCallStart => ViewModel {
            busy_label: "Streaming tool call..."@,
            messages: v.messages.push(("tool_call"@, Seq::empty())),
            ..v
        },
        ModelEvent::ToolCallDelta { delta } => ViewModel {
            messages: append_delta_spec(v.messages, "tool_call"@, delta@),
            ..v
        },
        ModelEvent::Done => ViewModel { status: "model done"@, ..v },
        ModelEvent::Other => v,
    }
}

/// An event of the host's loop.
pub enum LoopEvent {
    /// The loop moved to state `to`.
    StateChange { to: String },
    /// A message started, from `source` when the event names one.
    MessageStart { source: Option<String> },
    /// An event of the model's token stream.
    Model(ModelEvent),
    /// A tool was called.
    ToolRequest { name: String },
    /// A tool returned `result` (as previewed text); `preview` is the terminal preview of
    /// the plot the result announces, when it announces one and a preview could be made.
    ToolResult { name: String, result: String, preview: Option<String> },
    /// A tool failed or was denied.
    ToolError { name: String, message: String },
    /// A slash command finished with `result`; `preview` as for [`LoopEvent::ToolResult`].
    CommandEnd { name: String, result: String, preview: Option<String> },
    CommandError { name: String, message: String },
    TurnEnd,
    CatalogChanged,
    LoopEnd,
    /// Any other event type (ignored).
    Other,
}

/// What the caller does after an event, besides showing the new view.
#[derive(Debug, PartialEq, Eq)]
pub enum LoopEffect {
    Nothing,
    /// Record the new loop state in the last loop-state snapshot.
    SetSnapshotState(String),
    /// Count one more tool call in the last loop-state snapshot.
    CountToolCall,
    /// Count one more turn in the last loop-state snapshot.
    CountTurn,
    /// Fetch the command catalog again.
    RefreshCatalog,
}

/// The busy label shown while the loop is in state `to`.
pub open spec fn state_label(to: Seq<char>) -> Seq<char> {
    if to == "running"@ {
        "Running loop..."@
    } else if to == "generating"@ {
        "Prefilling prompt / waiting for first token..."@
    } else if to == "tool_pending"@ {
        "Preparing tool call..."@
    } else if to == "tool_running"@ {
        "Running tool..."@
    } else {
        "state: "@ + to
    }
}

/// `s` viewed as an optional plain string.
pub open spec fn opt_view(s: Option<String>) -> Option<Seq<char>> {
    match s {
        Some(x) => Some(x@),
        None => None,
    }
}

/// The message a result shows: a plot artifact when the result announces a `.png` plot,
/// else `fallback`.
pub open spec fn result_message(
    result: Seq<char>,
    command: Option<Seq<char>>,
    preview: Option<String>,
    fallback: MessageModel,
) -> MessageModel {
    match plot_path_spec(result) {
        Some(path) => ("artifact"@, png_artifact_spec(path, command, opt_view(preview))),
        None => fallback,
    }
}

/// The view after a loop event (the sequence number aside), and the effect asked of the
/// caller.
pub open spec fn loop_event_spec(v: ViewModel, e: LoopEvent) -> (ViewModel, LoopEffect) {
    match e {
        LoopEvent::StateChange { to } => (
            ViewModel {
                observed: to@,
                busy_label: if v.in_flight {
                    state_label(to@)
                } else {
                    v.busy_label
                },
                status: "state: "@ + to@,
                ..v
            },
            LoopEffect::SetSnapshotState(to),
        ),
        LoopEvent::MessageStart { source } => (
            match source {
                Some(src) => ViewModel { status: "message: "@ + src@, ..v },
                None => v,
            },
            LoopEffect::Nothing,
        ),
        LoopEvent::Model(m) => (model_event_spec(v, m), LoopEffect::Nothing),
        LoopEvent::ToolRequest { name } => (
            ViewModel {
                busy_label: "Running tool "@ + name@ + "..."@,
                messages: v.messages.push(("tool"@, "request: "@ + name@)),
                ..v
            },
            LoopEffect::CountToolCall,
        ),
        LoopEvent::ToolResult { name, result, preview } => (
            ViewModel {
                messages: v.messages.push(
                    result_message(result@, None, preview, ("tool"@, "result "@ + name@ + ": "@ + result@)),
                ),
                ..v
            },
            LoopEffect::Nothing,
        ),
        LoopEvent::ToolError { name, message } => (
            ViewModel { messages: v.messages.push(("error"@, name@ + ": "@ + message@)), ..v },
            LoopEffect::Nothing,
        ),
        LoopEvent::CommandEnd { name, result, preview } => (
            ViewModel {
                messages: v.messages.push(
                    result_message(result@, Some(name@), preview, ("command"@, "/"@ + name@ + ": "@ + result@)),
                ),
                ..v
            },
            LoopEffect::Nothing,
        ),
        LoopEvent::CommandError { name, message } => (
            ViewModel { messages: v.messages.push(("error"@, "/"@ + name@ + ": "@ + message@)), ..v },
            LoopEffect::Nothing,
        ),
        LoopEvent::TurnEnd => (v, LoopEffect::CountTurn),
        LoopEvent::CatalogChanged => (v, LoopEffect::RefreshCatalog),
        LoopEvent::LoopEnd => (ViewModel { status: "loop ended"@, ..v }, LoopEffect::Nothing),
        LoopEvent::Other => (v, LoopEffect::Nothing),
    }
}

/// `a` followed by `b`, as a new string.
fn concat2(a: &str, b: &str) -> (r: String)
    ensures
        r@ == a@ + b@,
{
    let mut r = String::from_str(a);
    r.append(b);
    r
}

/// A record of the client's event stream: the stream opening, the outcome of a command the
/// client sent, or an event of the host's loop.
pub enum StreamRecord {
    /// The stream opened; `state_name` is the loop state its snapshot names, if any.
    Open { state_name: Option<String>, seq: Option<u64> },
    /// Sending a command failed.
    ClientError { message: String },
    /// A command the client sent finished. `is_command_result` tells a slash command's
    /// outcome from a turn's; `accepted` is the slash command's boolean result, if it has
    /// one; `text` is a turn's reply text, if it has one.
    CommandResult { is_command_result: bool, accepted: Option<bool>, text: Option<String> },
    /// An event of the host's loop.
    Event { seq: Option<u64>, event: LoopEvent },
    /// A record of any other type.
    Unhandled { kind: String },
}

/// Whether one of the last four messages is assistant text that is not empty.
pub open spec fn recent_assistant_text(ms: Seq<MessageModel>) -> bool {
    exists|j: int| ms.len() - 4 <= j < ms.len() && 0 <= j && (#[trigger] ms[j]).0 == "assistant"@ && ms[j].1.len() > 0
}

/// The view after a stream record that is no loop event.
pub open spec fn record_spec(v: ViewModel, r: StreamRecord) -> ViewModel {
    match r {
        StreamRecord::Open { state_name, seq } => ViewModel {
            observed: match state_name {
                Some(n) => n@,
                None => v.observed,
            },
            seq: if seq is Some {
                seq
            } else {
                v.seq
            },
            status: "Connected. /help or Tab after / for commands; /quit exits"@,
            ..v
        },
        StreamRecord::ClientError { message } => ViewModel {
            in_flight: false,
            busy_label: Seq::empty(),
            status: "Client error"@,
            messages: v.messages.push(("error"@, message@)),
            ..v
        },
        StreamRecord::CommandResult { is_command_result, accepted, text } => {
            let ended = ViewModel { in_flight: false, busy_label: Seq::empty(), status: "Ready"@, ..v };
            if is_command_result {
                if accepted == Some(false) {
                    ViewModel {
                        messages: v.messages.push(
                            ("error"@, "Unknown slash command. Try /help or press Tab after /."@),
                        ),
                        ..ended
                    }
                } else {
                    ended
                }
            } else if !recent_assistant_text(v.messages) && (text matches Some(t) && t@.len() > 0) {
                ViewModel { messages: v.messages.push(("assistant"@, text->0@)), ..ended }
            } else {
                ended
            }
        },
        StreamRecord::Event { .. } => v,
        StreamRecord::Unhandled { kind } => ViewModel { status: "Unhandled stream record: "@ + kind@, ..v },
    }
}

/// What submitting the input asks of the caller.
#[derive(Debug, PartialEq, Eq)]
pub enum SubmitAction {
    /// Nothing beyond the new view.
    Nothing,
    /// Quit the client.
    Quit,
    /// Show the loop state observed so far (a slash command while the host is busy).
    ShowState,
    /// Send the slash command to the host.
    RunCommand(String),
    /// Send the prompt to the host as a turn.
    RunTurn(String),
}

/// The index of the first whitespace character at or after `i` (or the end).
pub open spec fn word_end(s: Seq<char>, i: int) -> int
    decreases s.len() - i,
{
    if 0 <= i < s.len() && !is_ws(s[i]) {
        word_end(s, i + 1)
    } else {
        i
    }
}

/// The first whitespace-separated word of `s` (empty if there is none).
pub open spec fn first_word(s: Seq<char>) -> Seq<char> {
    let a = ws_end(s, 0);
    s.subrange(a, word_end(s, a))
}

/// `s` with ASCII letters in lower case.
pub open spec fn lower(s: Seq<char>) -> Seq<char> {
    s.map_values(|c: char| ascii_lower(c))
}

/// The help shown for `/help` while the host is busy: the cached catalog, then the
/// client's own commands.
pub open spec fn cached_help(catalog: Seq<CommandModel>) -> Seq<char> {
    format_commands_spec("Slash commands (cached)"@, catalog + local_commands())
}

/// The view after submitting `input` with `catalog` cached, and what it asks of the caller.
pub open spec fn submit_spec(v: ViewModel, input: Seq<char>, catalog: Seq<CommandModel>) -> (ViewModel, SubmitAction) {
    let prompt = trim(input);
    let cmd = lower(first_word(prompt));
    if prompt.len() == 0 {
        (ViewModel { status: "Prompt is empty"@, ..v }, SubmitAction::Nothing)
    } else if cmd == "/q"@ || cmd == "/quit"@ || cmd == "/exit"@ {
        (ViewModel { quit: true, ..v }, SubmitAction::Quit)
    } else if cmd == "/state"@ && v.in_flight {
        (v, SubmitAction::ShowState)
    } else if (cmd == "/help"@ || cmd == "/commands"@) && v.in_flight {
        (
            ViewModel {
                messages: v.messages.push(("command"@, cached_help(catalog))),
                status: "Showing cached command catalog while the R loop is busy"@,
                ..v
            },
            SubmitAction::Nothing,
        )
    } else if v.in_flight {
        (ViewModel { status: "Command already in flight; wait or use steer/followUp later"@, ..v }, SubmitAction::Nothing)
    } else {
        let label = if starts_with(prompt, "/"@) && !starts_with(prompt, "//"@) {
            "Executing slash command..."@
        } else {
            "Waiting for R/model prefill..."@
        };
        (
            ViewModel {
                messages: v.messages.push(("user"@, prompt)),
                in_flight: true,
                busy_label: label,
                status: label,
                ..v
            },
            SubmitAction::Nothing,
        )
    }
}

/// The commands of `cs` whose name starts with `prefix`, in order.
pub open spec fn matching(cs: Seq<CommandModel>, prefix: Seq<char>) -> Seq<CommandModel>
    decreases cs.len(),
{
    if cs.len() == 0 {
        Seq::empty()
    } else {
        matching(cs.drop_last(), prefix) + if starts_with(cs.last().0, prefix) {
            seq![cs.last()]
        } else {
            Seq::empty()
        }
    }
}

/// The names of `cs`, each after a `/`, separated by spaces.
pub open spec fn names_line(cs: Seq<CommandModel>) -> Seq<char>
    decreases cs.len(),
{
    if cs.len() == 0 {
        Seq::empty()
    } else if cs.len() == 1 {
        "/"@ + cs[0].0
    } else {
        names_line(cs.drop_last()) + " /"@ + cs.last().0
    }
}

/// The view after Tab on input `input` with `catalog` cached, and the completed input when
/// exactly one command matches.
pub open spec fn complete_spec(v: ViewModel, input: Seq<char>, catalog: Seq<CommandModel>) -> (ViewModel, Option<Seq<char>>) {
    if !(starts_with(input, "/"@) && !starts_with(input, "//"@)) {
        (ViewModel { status: "Tab completion is for slash commands"@, ..v }, None)
    } else {
        let prefix = first_word(input.drop_first());
        let ms = matching(catalog, prefix) + matching(local_commands(), prefix);
        if ms.len() == 0 {
            (ViewModel { status: "No command matches /"@ + prefix, ..v }, None)
        } else if ms.len() == 1 {
            (ViewModel { status: ms[0].2 + " \u{2014} "@ + ms[0].1, ..v }, Some("/"@ + ms[0].0 + " "@))
        } else {
            let shown = if ms.len() < 8 {
                ms.len() as int
            } else {
                8
            };
            (ViewModel { status: "Commands: "@ + names_line(ms.take(shown)), ..v }, None)
        }
    }
}

/// Whether `s` starts with `p`.
fn str_starts_with(s: &str, p: &str) -> (r: bool)
    ensures
        r == starts_with(s@, p@),
{
    let c = to_chars(s);
    let d = to_chars(p);
    if d.len() > c.len() {
        return false;
    }
    let mut i: usize = 0;
    while i < d.len()
        invariant
            c@ == s@,
            d@ == p@,
            d@.len() <= c@.len(),
            i <= d@.len(),
            forall|j: int| 0 <= j < i ==> c@[j] == d@[j],
        decreases d@.len() - i,
    {
        if c[i] != d[i] {
            assert(s@.subrange(0, p@.len() as int)[i as int] != p@[i as int]);
            return false;
        }
        i += 1;
    }
    assert(s@.subrange(0, p@.len() as int) =~= p@);
    true
}

/// The commands of `cs` whose name starts with `prefix`, appended to `out`.
fn push_matching(cs: &[CommandInfo], prefix: &str, out: &mut Vec<CommandInfo>)
    ensures
        commands_view(final(out)@) == commands_view(old(out)@) + matching(commands_view(cs@), prefix@),
{
    let ghost cv = commands_view(cs@);
    let mut i: usize = 0;
    assert(commands_view(out@) =~= commands_view(old(out)@) + matching(cv.take(0), prefix@));
    while i < cs.len()
        invariant
            cv == commands_view(cs@),
            i <= cs@.len(),
            commands_view(out@) == commands_view(old(out)@) + matching(cv.take(i as int), prefix@),
        decreases cs@.len() - i,
    {
        let ghost before = commands_view(out@);
        let c = &cs[i];
        assert(cv.take(i + 1 as int).drop_last() =~= cv.take(i as int));
        assert(cv.take(i + 1 as int).last() == (c.name@, c.description@, c.usage@));
        if str_starts_with(c.name.as_str(), prefix) {
            out.push(CommandInfo { name: c.name.clone(), description: c.description.clone(), usage: c.usage.clone() });
            assert(commands_view(out@) =~= before.push((c.name@, c.description@, c.usage@)));
        }
        i += 1;
        assert(commands_view(out@) =~= commands_view(old(out)@) + matching(cv.take(i as int), prefix@));
    }
    assert(cv.take(i as int) =~= cv);
}

/// The first whitespace-separated word of `s`.
fn first_word_of(s: &str) -> (r: String)
    ensures
        r@ == first_word(s@),
{
    let c = to_chars(s);
    let mut a: usize = 0;
    while a < c.len() && is_whitespace(c[a])
        invariant
            c@ == s@,
            a <= c@.len(),
            ws_end(c@, a as int) == ws_end(c@, 0),
        decreases c@.len() - a,
    {
        a += 1;
    }
    let mut b: usize = a;
    while b < c.len() && !is_whitespace(c[b])
        invariant
            c@ == s@,
            a <= b <= c@.len(),
            ws_end(c@, 0) == a,
            word_end(c@, b as int) == word_end(c@, a as int),
        decreases c@.len() - b,
    {
        b += 1;
    }
    crate::text::string_of(c.as_slice(), a, b)
}

impl ChatView {
    /// The view of a client that has just started.
    pub fn new() -> (r: ChatView)
        ensures
            r@ == (ViewModel {
                messages: Seq::empty(),
                status: "Connecting... /help or Tab after / for commands; /quit exits"@,
                busy_label: Seq::empty(),
                in_flight: false,
                observed: "unknown"@,
                seq: None,
                quit: false,
            }),
    {
        let r = ChatView {
            messages: Vec::new(),
            status: String::from_str("Connecting... /help or Tab after / for commands; /quit exits"),
            busy_label: String::new(),
            command_in_flight: false,
            observed_state: String::from_str("unknown"),
            last_event_seq: None,
            should_quit: false,
        };
        assert(messages_view(r.messages@) =~= Seq::<MessageModel>::empty());
        r
    }

    /// Add a message at the end of the list.
    pub fn push_message(&mut self, role: &'static str, text: String)
        ensures
            final(self)@ == (ViewModel { messages: old(self)@.messages.push((role@, text@)), ..old(self)@ }),
    {
        let ghost before = self@.messages;
        self.messages.push(ChatMessage { role, text });
        assert(self@.messages =~= before.push((role@, text@)));
    }

    /// Stream `delta` into role `role`.
    pub fn append_delta(&mut self, role: &'static str, delta: &str)
        ensures
            final(self)@ == (ViewModel {
                messages: append_delta_spec(old(self)@.messages, role@, delta@),
                ..old(self)@
            }),
    {
        if delta.is_empty() {
            return;
        }
        let ghost before = self@.messages;
        let n = self.messages.len();
        if n > 0 && str_eq(self.messages[n - 1].role, role) {
            let mut last = self.messages.pop().unwrap();
            last.text.append(delta);
            self.messages.push(last);
            assert(self@.messages =~= before.drop_last().push((role@, before.last().1 + delta@)));
        } else {
            self.messages.push(ChatMessage { role, text: delta.to_owned() });
            assert(self@.messages =~= before.push((role@, delta@)));
        }
    }

    /// Mark a command as in flight, labelled `label`.
    pub fn begin_busy(&mut self, label: &str)
        ensures
            final(self)@ == (ViewModel { in_flight: true, busy_label: label@, status: label@, ..old(self)@ }),
    {
        self.command_in_flight = true;
        self.busy_label = label.to_owned();
        self.status = label.to_owned();
    }

    /// Mark the command in flight as finished, with `status`.
    pub fn end_busy(&mut self, status: &str)
        ensures
            final(self)@ == (ViewModel {
                in_flight: false,
                busy_label: Seq::empty(),
                status: status@,
                ..old(self)@
            }),
    {
        self.command_in_flight = false;
        self.busy_label = String::new();
        self.status = status.to_owned();
    }

    /// The message a tool or command result shows.
    fn result_message(result: &str, command: Option<&str>, preview: Option<String>, fallback_role: &'static str, fallback: String) -> (r: (&'static str, String))
        ensures
            (r.0@, r.1@) == result_message(
                result@,
                match command {
                    Some(c) => Some(c@),
                    None => None,
                },
                preview,
                (fallback_role@, fallback@),
            ),
    {
        match plot_path_from_text(result) {
            Some(path) => ("artifact", png_artifact_text(path.as_str(), command, preview)),
            None => (fallback_role, fallback),
        }
    }

    /// Apply an event of the host's loop, with its sequence number when it has one.
    pub fn apply_loop_event(&mut self, seq: Option<u64>, e: LoopEvent) -> (effect: LoopEffect)
        ensures
            ({
                let v0 = ViewModel {
                    seq: if seq is Some {
                        seq
                    } else {
                        old(self)@.seq
                    },
                    ..old(self)@
                };
                (final(self)@, effect) == loop_event_spec(v0, e)
            }),
    {
        if seq.is_some() {
            self.last_event_seq = seq;
        }
        match e {
            LoopEvent::StateChange { to } => {
                proof {
                    reveal_strlit("running");
                    reveal_strlit("generating");
                    reveal_strlit("tool_pending");
                    reveal_strlit("tool_running");
                }
                self.observed_state = to.clone();
                if self.command_in_flight {
                    let t = to.as_str();
                    self.busy_label = if str_eq(t, "running") {
                        String::from_str("Running loop...")
                    } else if str_eq(t, "generating") {
                        String::from_str("Prefilling prompt / waiting for first token...")
                    } else if str_eq(t, "tool_pending") {
                        String::from_str("Preparing tool call...")
                    } else if str_eq(t, "tool_running") {
                        String::from_str("Running tool...")
                    } else {
                        concat2("state: ", t)
                    };
                }
                self.status = concat2("state: ", to.as_str());
                LoopEffect::SetSnapshotState(to)
            },
            LoopEvent::MessageStart { source } => {
                match source {
                    Some(src) => {
                        self.status = concat2("message: ", src.as_str());
                    },
                    None => {},
                }
                LoopEffect::Nothing
            },
            LoopEvent::Model(m) => {
                self.apply_model_event(m);
                LoopEffect::Nothing
            },
            LoopEvent::ToolRequest { name } => {
                let mut label = concat2("Running tool ", name.as_str());
                label.append("...");
                self.busy_label = label;
                self.push_message("tool", concat2("request: ", name.as_str()));
                LoopEffect::CountToolCall
            },
            LoopEvent::ToolResult { name, result, preview } => {
                let mut text = concat2("result ", name.as_str());
                text.append(": ");
                text.append(result.as_str());
                let (role, shown) = Self::result_message(result.as_str(), None, preview, "tool", text);
                self.push_message(role, shown);
                LoopEffect::Nothing
            },
            LoopEvent::ToolError { name, message } => {
                let mut text = concat2(name.as_str(), ": ");
                text.append(message.as_str());
                self.push_message("error", text);
                LoopEffect::Nothing
            },
            LoopEvent::CommandEnd { name, result, preview } => {
                let mut text = concat2("/", name.as_str());
                text.append(": ");
                text.append(result.as_str());
                let (role, shown) = Self::result_message(result.as_str(), Some(name.as_str()), preview, "command", text);
                self.push_message(role, shown);
                LoopEffect::Nothing
            },
            LoopEvent::CommandError { name, message } => {
                let mut text = concat2("/", name.as_str());
                text.append(": ");
                text.append(message.as_str());
                self.push_message("error", text);
                LoopEffect::Nothing
            },
            LoopEvent::TurnEnd => LoopEffect::CountTurn,
            LoopEvent::CatalogChanged => LoopEffect::RefreshCatalog,
            LoopEvent::LoopEnd => {
                self.status = String::from_str("loop ended");
                LoopEffect::Nothing
            },
            LoopEvent::Other => LoopEffect::Nothing,
        }
    }

    /// Whether one of the last four messages is assistant text that is not empty.
    pub fn has_recent_assistant_text(&self) -> (r: bool)
        ensures
            r == recent_assistant_text(self@.messages),
    {
        proof {
            reveal_strlit("assistant");
        }
        let ghost ms = self@.messages;
        let n = self.messages.len();
        let lo: usize = if n > 4 {
            n - 4
        } else {
            0
        };
        let mut j: usize = n;
        while j > lo
            invariant
                ms == messages_view(self.messages@),
                n == ms.len(),
                lo == (if n > 4 {
                    n - 4
                } else {
                    0
                }),
                lo <= j <= n,
                forall|k: int| j <= k < n ==> !((#[trigger] ms[k]).0 == "assistant"@ && ms[k].1.len() > 0),
            decreases j,
        {
            j -= 1;
            let m = &self.messages[j];
            assert(ms[j as int] == (m.role@, m.text@));
            if str_eq(m.role, "assistant") && !m.text.as_str().is_empty() {
                return true;
            }
        }
        false
    }

    /// Apply a record of the client's event stream; a loop event goes to
    /// [`ChatView::apply_loop_event`], whose effect is returned.
    pub fn apply_record(&mut self, r: StreamRecord) -> (effect: LoopEffect)
        ensures
            match r {
                StreamRecord::Event { seq, event } => {
                    let v0 = ViewModel {
                        seq: if seq is Some {
                            seq
                        } else {
                            old(self)@.seq
                        },
                        ..old(self)@
                    };
                    (final(self)@, effect) == loop_event_spec(v0, event)
                },
                _ => final(self)@ == record_spec(old(self)@, r) && effect == LoopEffect::Nothing,
            },
    {
        match r {
            StreamRecord::Open { state_name, seq } => {
                match state_name {
                    Some(n) => {
                        self.observed_state = n;
                    },
                    None => {},
                }
                if seq.is_some() {
                    self.last_event_seq = seq;
                }
                self.status = String::from_str("Connected. /help or Tab after / for commands; /quit exits");
                LoopEffect::Nothing
            },
            StreamRecord::ClientError { message } => {
                self.end_busy("Client error");
                self.push_message("error", message);
                LoopEffect::Nothing
            },
            StreamRecord::CommandResult { is_command_result, accepted, text } => {
                let recent = self.has_recent_assistant_text();
                self.end_busy("Ready");
                if is_command_result {
                    if accepted == Some(false) {
                        self.push_message("error", String::from_str("Unknown slash command. Try /help or press Tab after /."));
                    }
                } else if !recent {
                    match text {
                        Some(t) => {
                            if !t.as_str().is_empty() {
                                self.push_message("assistant", t);
                            }
                        },
                        None => {},
                    }
                }
                LoopEffect::Nothing
            },
            StreamRecord::Event { seq, event } => self.apply_loop_event(seq, event),
            StreamRecord::Unhandled { kind } => {
                self.status = concat2("Unhandled stream record: ", kind.as_str());
                LoopEffect::Nothing
            },
        }
    }

    /// Submit the input line with `catalog` cached: local slash commands are handled here,
    /// anything else is sent to the host unless a command is already in flight.
    pub fn submit(&mut self, input: &str, catalog: &[CommandInfo]) -> (a: SubmitAction)
        ensures
            ({
                let (v, act) = submit_spec(old(self)@, input@, commands_view(catalog@));
                &&& final(self)@ == v
                &&& match a {
                    SubmitAction::RunCommand(p) => act == SubmitAction::Nothing && p@ == trim(input@) && starts_with(p@, "/"@) && !starts_with(p@, "//"@) && !old(self)@.in_flight,
                    SubmitAction::RunTurn(p) => act == SubmitAction::Nothing && p@ == trim(input@) && !(starts_with(p@, "/"@) && !starts_with(p@, "//"@)) && !old(self)@.in_flight,
                    _ => a == act,
                }
            }),
    {
        let c = to_chars(input);
        let prompt = trimmed_string_of(c.as_slice(), 0, c.len());
        assert(c@.subrange(0, c@.len() as int) =~= input@);
        if prompt.as_str().is_empty() {
            self.status = String::from_str("Prompt is empty");
            return SubmitAction::Nothing;
        }
        let cmd = lowercase_first_word(prompt.as_str());
        proof {
            reveal_strlit("/q");
            reveal_strlit("/quit");
            reveal_strlit("/exit");
            reveal_strlit("/state");
            reveal_strlit("/help");
            reveal_strlit("/commands");
        }
        let k = cmd.as_str();
        if str_eq(k, "/q") || str_eq(k, "/quit") || str_eq(k, "/exit") {
            self.should_quit = true;
            return SubmitAction::Quit;
        }
        if str_eq(k, "/state") && self.command_in_flight {
            return SubmitAction::ShowState;
        }
        if (str_eq(k, "/help") || str_eq(k, "/commands")) && self.command_in_flight {
            let mut all: Vec<CommandInfo> = Vec::new();
            let mut i: usize = 0;
            while i < catalog.len()
                invariant
                    i <= catalog@.len(),
                    commands_view(all@) == commands_view(catalog@).take(i as int),
                decreases catalog@.len() - i,
            {
                let ghost before = commands_view(all@);
                let c = &catalog[i];
                all.push(CommandInfo { name: c.name.clone(), description: c.description.clone(), usage: c.usage.clone() });
                assert(commands_view(all@) =~= before.push((c.name@, c.description@, c.usage@)));
                assert(commands_view(catalog@).take(i + 1 as int) =~= commands_view(catalog@).take(i as int).push(
                    commands_view(catalog@)[i as int],
                ));
                i += 1;
            }
            let mut local = local_command_catalog();
            let ghost a0 = commands_view(all@);
            let ghost l0 = commands_view(local@);
            all.append(&mut local);
            assert(commands_view(all@) =~= a0 + l0);
            assert(commands_view(catalog@).take(catalog@.len() as int) =~= commands_view(catalog@));
            let text = format_command_infos("Slash commands (cached)", all.as_slice());
            self.push_message("command", text);
            self.status = String::from_str("Showing cached command catalog while the R loop is busy");
            return SubmitAction::Nothing;
        }
        if self.command_in_flight {
            self.status = String::from_str("Command already in flight; wait or use steer/followUp later");
            return SubmitAction::Nothing;
        }
        self.push_message("user", prompt.clone());
        if is_remote_slash(prompt.as_str()) {
            self.begin_busy("Executing slash command...");
            SubmitAction::RunCommand(prompt)
        } else {
            self.begin_busy("Waiting for R/model prefill...");
            SubmitAction::RunTurn(prompt)
        }
    }

    /// Complete the slash command being typed in `input` against `catalog` and the client's
    /// own commands: a single match gives the completed input, several are listed (the first
    /// eight) in the status line.
    pub fn complete_slash(&mut self, input: &str, catalog: &[CommandInfo]) -> (r: Option<String>)
        ensures
            ({
                let (v, completed) = complete_spec(old(self)@, input@, commands_view(catalog@));
                &&& final(self)@ == v
                &&& opt_view(r) == completed
            }),
    {
        proof {
            reveal_strlit("/");
            reveal_strlit("//");
        }
        if !(str_starts_with(input, "/") && !str_starts_with(input, "//")) {
            self.status = String::from_str("Tab completion is for slash commands");
            return None;
        }
        let c = to_chars(input);
        let rest = crate::text::string_of(c.as_slice(), 1, c.len());
        assert(rest@ =~= input@.drop_first());
        let prefix = first_word_of(rest.as_str());
        let mut ms: Vec<CommandInfo> = Vec::new();
        push_matching(catalog, prefix.as_str(), &mut ms);
        let local = local_command_catalog();
        push_matching(local.as_slice(), prefix.as_str(), &mut ms);
        let ghost mv = commands_view(ms@);
        assert(mv =~= matching(commands_view(catalog@), prefix@) + matching(local_commands(), prefix@));
        if ms.len() == 0 {
            self.status = concat2("No command matches /", prefix.as_str());
            None
        } else if ms.len() == 1 {
            let mut st = ms[0].usage.clone();
            st.append(" \u{2014} ");
            st.append(ms[0].description.as_str());
            self.status = st;
            let mut completed = concat2("/", ms[0].name.as_str());
            completed.append(" ");
            Some(completed)
        } else {
            let mut st = String::from_str("Commands: ");
            let shown: usize = if ms.len() < 8 {
                ms.len()
            } else {
                8
            };
            let mut i: usize = 0;
            while i < shown
                invariant
                    mv == commands_view(ms@),
                    shown <= ms@.len(),
                    i <= shown,
                    st@ == "Commands: "@ + names_line(mv.take(i as int)),
                decreases shown - i,
            {
                if i > 0 {
                    st.append(" /");
                } else {
                    st.append("/");
                }
                st.append(ms[i].name.as_str());
                assert(mv.take(i + 1 as int).drop_last() =~= mv.take(i as int));
                proof {
                    if i == 0 {
                        assert(mv.take(1)[0] == mv[0]);
                    }
                }
                i += 1;
                assert(st@ =~= "Commands: "@ + names_line(mv.take(i as int)));
            }
            self.status = st;
            None
        }
    }

    /// Clear the message list.
    pub fn clear(&mut self)
        ensures
            final(self)@ == (ViewModel { messages: Seq::empty(), status: "Local screen cleared"@, ..old(self)@ }),
    {
        self.messages.clear();
        assert(messages_view(self.messages@) =~= Seq::<MessageModel>::empty());
        self.status = String::from_str("Local screen cleared");
    }

    /// The command catalog was fetched again.
    pub fn catalog_refreshed(&mut self)
        ensures
            final(self)@ == (ViewModel { status: "Command catalog refreshed"@, ..old(self)@ }),
    {
        self.status = String::from_str("Command catalog refreshed");
    }

    /// Apply an event of the model's token stream.
    pub fn apply_model_event(&mut self, e: ModelEvent)
        ensures
            final(self)@ == model_event_spec(old(self)@, e),
    {
        match e {
            ModelEvent::Start => {
                self.busy_label = String::from_str("Model started; waiting for first token...");
            },
            ModelEvent::ThinkingStart => {
                self.busy_label = String::from_str("Streaming thinking...");
                self.push_message("thinking", String::new());
            },
            ModelEvent::ThinkingDelta { delta } => {
                self.append_delta("thinking", delta.as_str());
            },
            ModelEvent::TextStart => {
                self.busy_label = String::from_str("Streaming answer...");
                self.push_message("assistant", String::new());
            },
            ModelEvent::TextDelta { delta } => {
                self.append_delta("assistant", delta.as_str());
            },
            ModelEvent::ToolCallStart => {
                self.busy_label = String::from_str("Streaming tool call...");
                self.push_message("tool_call", String::new());
            },
            ModelEvent::ToolCallDelta { delta } => {
                self.append_delta("tool_call", delta.as_str());
            },
            ModelEvent::Done => {
                self.status = String::from_str("model done");
            },
            ModelEvent::Other => {},
        }
    }
}

/// The first whitespace-separated word of `s`, with ASCII letters in lower case.
fn lowercase_first_word(s: &str) -> (r: String)
    ensures
        r@ == lower(first_word(s@)),
{
    let c = to_chars(s);
    let mut a: usize = 0;
    while a < c.len() && is_whitespace(c[a])
        invariant
            c@ == s@,
            a <= c@.len(),
            ws_end(c@, a as int) == ws_end(c@, 0),
        decreases c@.len() - a,
    {
        a += 1;
    }
    let mut b: usize = a;
    let mut r = String::new();
    while b < c.len() && !is_whitespace(c[b])
        invariant
            c@ == s@,
            a <= b <= c@.len(),
            ws_end(c@, 0) == a,
            word_end(c@, b as int) == word_end(c@, a as int),
            r@ == lower(c@.subrange(a as int, b as int)),
        decreases c@.len() - b,
    {
        r.push(to_ascii_lowercase(c[b]));
        b += 1;
        assert(r@ =~= lower(c@.subrange(a as int, b as int)));
    }
    r
}

} // verus!

verus! {

/// Streaming one delta and then another into the same role shows the same messages as
/// streaming the two at once: deltas concatenate.
pub proof fn lemma_deltas_concatenate(ms: Seq<MessageModel>, role: Seq<char>, a: Seq<char>, b: Seq<char>)
    ensures
        append_delta_spec(append_delta_spec(ms, role, a), role, b) == append_delta_spec(ms, role, a + b),
{
    if a.len() == 0 {
        assert(a + b =~= b);
    } else if b.len() == 0 {
        assert(a + b =~= a);
    } else {
        let m1 = append_delta_spec(ms, role, a);
        assert(m1.last().0 == role);
        if ms.len() > 0 && ms.last().0 == role {
            assert(m1.drop_last() =~= ms.drop_last());
            assert(ms.last().1 + a + b =~= ms.last().1 + (a + b));
        } else {
            assert(m1.drop_last() =~= ms);
        }
    }
}

} // verus!
