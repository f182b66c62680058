//! Stream events for a generation run: the decisions of the streaming state machine.
//!
//! A [`StreamState`] turns the run's start, each generated token and the run's end into
//! the events a listener receives: blocks of text, thinking, tool lists and tool calls, each
//! opened, filled with deltas and closed with the block's whole content, then `done`. The
//! caller delivers the returned events in order.

use vstd::prelude::*;

use crate::tokenizer::{
    TOKEN_THINK, TOKEN_THINK_END, TOKEN_TOOL_CALL_END, TOKEN_TOOL_CALL_START, TOKEN_TOOL_LIST_END,
    TOKEN_TOOL_LIST_START,
};

verus! {

/// Why a generation run stopped.
#[derive(Clone, Copy, Debug, PartialEq, Eq, Structural)]
pub enum StopReason {
    /// The model emitted an end-of-turn (or other sequence-boundary) token.
    Eos,
    /// Hit the per-turn generation cap.
    MaxNew,
    /// The model finished a tool call.
    ToolCall,
}

/// The kind of block currently open in the stream.
#[derive(Clone, Copy, Debug, PartialEq, Eq, Structural)]
pub enum ActiveBlock {
    /// No block is open.
    Idle,
    Text,
    Thinking,
    ToolList,
    ToolCall,
}

/// The event type that opens a block of kind `b`.
pub open spec fn start_name(b: ActiveBlock) -> Option<Seq<char>> {
    match b {
        ActiveBlock::Idle => None,
        ActiveBlock::Text => Some("text_start"@),
        ActiveBlock::Thinking => Some("thinking_start"@),
        ActiveBlock::ToolList => Some("tool_list_start"@),
        ActiveBlock::ToolCall => Some("tool_call_start"@),
    }
}

/// The event type of a piece of a block of kind `b`.
pub open spec fn delta_name(b: ActiveBlock) -> Option<Seq<char>> {
    match b {
        ActiveBlock::Idle => None,
        ActiveBlock::Text => Some("text_delta"@),
        ActiveBlock::Thinking => Some("thinking_delta"@),
        ActiveBlock::ToolList => Some("tool_list_delta"@),
        ActiveBlock::ToolCall => Some("tool_call_delta"@),
    }
}

/// The event type that closes a block of kind `b`.
pub open spec fn end_name(b: ActiveBlock) -> Option<Seq<char>> {
    match b {
        ActiveBlock::Idle => None,
        ActiveBlock::Text => Some("text_end"@),
        ActiveBlock::Thinking => Some("thinking_end"@),
        ActiveBlock::ToolList => Some("tool_list_end"@),
        ActiveBlock::ToolCall => Some("tool_call_end"@),
    }
}

impl ActiveBlock {
    pub fn start_event(self) -> (r: Option<&'static str>)
        ensures
            match r {
                Some(s) => start_name(self) == Some(s@),
                None => start_name(self) is None,
            },
    {
        match self {
            ActiveBlock::Idle => None,
            ActiveBlock::Text => Some("text_start"),
            ActiveBlock::Thinking => Some("thinking_start"),
            ActiveBlock::ToolList => Some("tool_list_start"),
            ActiveBlock::ToolCall => Some("tool_call_start"),
        }
    }

    pub fn delta_event(self) -> (r: Option<&'static str>)
        ensures
            match r {
                Some(s) => delta_name(self) == Some(s@),
                None => delta_name(self) is None,
            },
    {
        match self {
            ActiveBlock::Idle => None,
            ActiveBlock::Text => Some("text_delta"),
            ActiveBlock::Thinking => Some("thinking_delta"),
            ActiveBlock::ToolList => Some("tool_list_delta"),
            ActiveBlock::ToolCall => Some("tool_call_delta"),
        }
    }

    pub fn end_event(self) -> (r: Option<&'static str>)
        ensures
            match r {
                Some(s) => end_name(self) == Some(s@),
                None => end_name(self) is None,
            },
    {
        match self {
            ActiveBlock::Idle => None,
            ActiveBlock::Text => Some("text_end"),
            ActiveBlock::Thinking => Some("thinking_end"),
            ActiveBlock::ToolList => Some("tool_list_end"),
            ActiveBlock::ToolCall => Some("tool_call_end"),
        }
    }
}

/// All stream event types, in the order a listener documents them.
pub open spec fn event_type_names() -> Seq<Seq<char>> {
    seq![
        "start"@,
        "thinking_start"@,
        "thinking_delta"@,
        "thinking_end"@,
        "text_start"@,
        "text_delta"@,
        "text_end"@,
        "tool_list_start"@,
        "tool_list_delta"@,
        "tool_list_end"@,
        "tool_call_start"@,
        "tool_call_delta"@,
        "tool_call_end"@,
        "done"@,
    ]
}

/// All stream event types.
pub fn event_types() -> (r: Vec<&'static str>)
    ensures
        r@.map_values(|s: &'static str| s@) == event_type_names(),
{
    let mut r: Vec<&'static str> = Vec::new();
    r.push("start");
    r.push("thinking_start");
    r.push("thinking_delta");
    r.push("thinking_end");
    r.push("text_start");
    r.push("text_delta");
    r.push("text_end");
    r.push("tool_list_start");
    r.push("tool_list_delta");
    r.push("tool_list_end");
    r.push("tool_call_start");
    r.push("tool_call_delta");
    r.push("tool_call_end");
    r.push("done");
    assert(r@.map_values(|s: &'static str| s@) =~= event_type_names());
    r
}

/// One event delivered to a listener. Fields that an event type does not carry are `None`.
#[derive(Clone, Debug)]
pub struct BebelStreamEvent {
    pub event_type: &'static str,
    pub index: Option<usize>,
    pub id: Option<u32>,
    pub marker: Option<String>,
    pub delta: Option<String>,
    pub content: Option<String>,
    pub stop: Option<&'static str>,
    pub text: Option<String>,
    pub generated_tokens: Option<usize>,
}

/// An event as plain values.
pub struct Ev {
    pub kind: Seq<char>,
    pub index: Option<usize>,
    pub id: Option<u32>,
    pub marker: Option<Seq<char>>,
    pub delta: Option<Seq<char>>,
    pub content: Option<Seq<char>>,
    pub stop: Option<Seq<char>>,
    pub text: Option<Seq<char>>,
    pub generated_tokens: Option<usize>,
}

/// An optional string as plain values.
pub open spec fn opt_view(s: Option<String>) -> Option<Seq<char>> {
    match s {
        Some(t) => Some(t@),
        None => None,
    }
}

impl View for BebelStreamEvent {
    type V = Ev;

    open spec fn view(&self) -> Ev {
        Ev {
            kind: self.event_type@,
            index: self.index,
            id: self.id,
            marker: opt_view(self.marker),
            delta: opt_view(self.delta),
            content: opt_view(self.content),
            stop: match self.stop {
                Some(s) => Some(s@),
                None => None,
            },
            text: opt_view(self.text),
            generated_tokens: self.generated_tokens,
        }
    }
}

/// An event of type `kind` carrying nothing else.
pub open spec fn bare(kind: Seq<char>) -> Ev {
    Ev {
        kind,
        index: None,
        id: None,
        marker: None,
        delta: None,
        content: None,
        stop: None,
        text: None,
        generated_tokens: None,
    }
}

/// A block-opening control event: the token's position, id and marker text.
pub open spec fn control(kind: Seq<char>, index: usize, id: u32, marker: Seq<char>) -> Ev {
    Ev { index: Some(index), id: Some(id), marker: Some(marker), ..bare(kind) }
}

/// A piece of a block.
pub open spec fn delta_piece(kind: Seq<char>, index: usize, id: u32, delta: Seq<char>) -> Ev {
    Ev { index: Some(index), id: Some(id), delta: Some(delta), ..bare(kind) }
}

/// A block closed without a control token, carrying the block's content.
pub open spec fn closing(kind: Seq<char>, content: Seq<char>) -> Ev {
    Ev { content: Some(content), ..bare(kind) }
}

/// A block closed by a control token, carrying the token and the block's content.
pub open spec fn control_closing(
    kind: Seq<char>,
    index: usize,
    id: u32,
    marker: Seq<char>,
    content: Seq<char>,
) -> Ev {
    Ev {
        index: Some(index),
        id: Some(id),
        marker: Some(marker),
        content: Some(content),
        ..bare(kind)
    }
}

/// The name a stop reason is reported with.
pub open spec fn stop_name(stop: StopReason) -> Seq<char> {
    match stop {
        StopReason::Eos => "eos"@,
        StopReason::MaxNew => "max_new"@,
        StopReason::ToolCall => "tool_call"@,
    }
}

/// The final event of a run.
pub open spec fn done(stop: StopReason, text: Seq<char>, generated_tokens: usize) -> Ev {
    Ev {
        stop: Some(stop_name(stop)),
        text: Some(text),
        generated_tokens: Some(generated_tokens),
        ..bare("done"@)
    }
}

impl BebelStreamEvent {
    pub fn new(event_type: &'static str) -> (e: Self)
        ensures
            e@ == bare(event_type@),
    {
        Self {
            event_type,
            index: None,
            id: None,
            marker: None,
            delta: None,
            content: None,
            stop: None,
            text: None,
            generated_tokens: None,
        }
    }
}

pub fn simple_event(event_type: &'static str) -> (e: BebelStreamEvent)
    ensures
        e@ == bare(event_type@),
{
    BebelStreamEvent::new(event_type)
}

pub fn control_event(event_type: &'static str, index: usize, id: u32, marker: &str) -> (e:
    BebelStreamEvent)
    ensures
        e@ == control(event_type@, index, id, marker@),
{
    let mut event = BebelStreamEvent::new(event_type);
    event.index = Some(index);
    event.id = Some(id);
    event.marker = Some(marker.to_owned());
    event
}

pub fn delta_event(event_type: &'static str, index: usize, id: u32, delta: &str) -> (e:
    BebelStreamEvent)
    ensures
        e@ == delta_piece(event_type@, index, id, delta@),
{
    let mut event = BebelStreamEvent::new(event_type);
    event.index = Some(index);
    event.id = Some(id);
    event.delta = Some(delta.to_owned());
    event
}

pub fn end_event(event_type: &'static str, content: &str) -> (e: BebelStreamEvent)
    ensures
        e@ == closing(event_type@, content@),
{
    let mut event = BebelStreamEvent::new(event_type);
    event.content = Some(content.to_owned());
    event
}

pub fn control_end_event(
    event_type: &'static str,
    index: usize,
    id: u32,
    marker: &str,
    content: &str,
) -> (e: BebelStreamEvent)
    ensures
        e@ == control_closing(event_type@, index, id, marker@, content@),
{
    let mut event = BebelStreamEvent::new(event_type);
    event.index = Some(index);
    event.id = Some(id);
    event.marker = Some(marker.to_owned());
    event.content = Some(content.to_owned());
    event
}

pub fn done_event(stop: StopReason, text: &str, generated_tokens: usize) -> (e: BebelStreamEvent)
    ensures
        e@ == done(stop, text@, generated_tokens),
{
    let stop: &'static str = match stop {
        StopReason::Eos => "eos",
        StopReason::MaxNew => "max_new",
        StopReason::ToolCall => "tool_call",
    };
    let mut event = BebelStreamEvent::new("done");
    event.stop = Some(stop);
    event.text = Some(text.to_owned());
    event.generated_tokens = Some(generated_tokens);
    event
}

/// The state of a stream as plain values: whether anyone listens, the open block and the
/// text it has received so far.
pub struct Stream {
    pub has_sink: bool,
    pub active: ActiveBlock,
    pub content: Seq<char>,
}

/// Closing the open block, if any.
pub open spec fn close_step(s: Stream) -> (Stream, Seq<Ev>) {
    if s.active == ActiveBlock::Idle {
        (s, Seq::empty())
    } else {
        (
            Stream { active: ActiveBlock::Idle, content: Seq::empty(), ..s },
            seq![closing(end_name(s.active).unwrap(), s.content)],
        )
    }
}

/// A control token that opens block `b`: the open block is closed first.
pub open spec fn start_block_step(
    s: Stream,
    b: ActiveBlock,
    index: usize,
    id: u32,
    marker: Seq<char>,
) -> (Stream, Seq<Ev>) {
    let (s1, evs) = close_step(s);
    (
        Stream { active: b, content: Seq::empty(), ..s1 },
        evs.push(control(start_name(b).unwrap(), index, id, marker)),
    )
}

/// A control token that closes block `b`. If another block is open, it is closed first and
/// `b` is closed with no content.
pub open spec fn end_block_step(
    s: Stream,
    b: ActiveBlock,
    index: usize,
    id: u32,
    marker: Seq<char>,
) -> (Stream, Seq<Ev>) {
    let (s1, evs) = if s.active != b {
        let (t, e) = close_step(s);
        (Stream { active: b, ..t }, e)
    } else {
        (s, Seq::empty())
    };
    (
        Stream { active: ActiveBlock::Idle, content: Seq::empty(), ..s1 },
        evs.push(control_closing(end_name(b).unwrap(), index, id, marker, s1.content)),
    )
}

/// An ordinary token: it goes to the open block, or opens a text block.
pub open spec fn delta_step(s: Stream, index: usize, id: u32, p: Seq<char>) -> (Stream, Seq<Ev>) {
    let (s1, evs) = if s.active == ActiveBlock::Idle {
        (
            Stream { active: ActiveBlock::Text, content: Seq::empty(), ..s },
            seq![bare("text_start"@)],
        )
    } else {
        (s, Seq::empty())
    };
    (
        Stream { content: s1.content + p, ..s1 },
        evs.push(delta_piece(delta_name(s1.active).unwrap(), index, id, p)),
    )
}

/// What a generated token does to the stream and which events it produces.
pub open spec fn token_step(s: Stream, index: usize, id: u32, p: Seq<char>) -> (Stream, Seq<Ev>) {
    if !s.has_sink {
        (s, Seq::empty())
    } else if id == TOKEN_THINK {
        start_block_step(s, ActiveBlock::Thinking, index, id, p)
    } else if id == TOKEN_THINK_END {
        end_block_step(s, ActiveBlock::Thinking, index, id, p)
    } else if id == TOKEN_TOOL_LIST_START {
        start_block_step(s, ActiveBlock::ToolList, index, id, p)
    } else if id == TOKEN_TOOL_LIST_END {
        end_block_step(s, ActiveBlock::ToolList, index, id, p)
    } else if id == TOKEN_TOOL_CALL_START {
        start_block_step(s, ActiveBlock::ToolCall, index, id, p)
    } else if id == TOKEN_TOOL_CALL_END {
        end_block_step(s, ActiveBlock::ToolCall, index, id, p)
    } else {
        delta_step(s, index, id, p)
    }
}

/// The end of a run: the open block is closed, then `done`.
pub open spec fn finish_step(s: Stream, stop: StopReason, text: Seq<char>, generated_tokens: usize) -> (
    Stream,
    Seq<Ev>,
) {
    if !s.has_sink {
        (s, Seq::empty())
    } else {
        let (s1, evs) = close_step(s);
        (s1, evs.push(done(stop, text, generated_tokens)))
    }
}

/// The start of a run.
pub open spec fn start_step(s: Stream) -> (Stream, Seq<Ev>) {
    if !s.has_sink {
        (s, Seq::empty())
    } else {
        (s, seq![bare("start"@)])
    }
}

/// The streaming state of one generation run.
pub struct StreamState {
    has_sink: bool,
    active: ActiveBlock,
    content: String,
}

impl View for StreamState {
    type V = Stream;

    closed spec fn view(&self) -> Stream {
        Stream { has_sink: self.has_sink, active: self.active, content: self.content@ }
    }
}

/// Events as plain values.
pub open spec fn evs_view(v: Seq<BebelStreamEvent>) -> Seq<Ev> {
    v.map_values(|e: BebelStreamEvent| e@)
}

impl StreamState {
    /// A stream with no open block; `has_sink` says whether anyone listens (without a
    /// listener, no event is produced and the state never changes).
    pub fn new(has_sink: bool) -> (s: Self)
        ensures
            s@ == (Stream { has_sink, active: ActiveBlock::Idle, content: Seq::empty() }),
    {
        Self { has_sink, active: ActiveBlock::Idle, content: String::new() }
    }

    /// The events of the start of a run.
    pub fn start(&mut self) -> (out: Vec<BebelStreamEvent>)
        ensures
            (final(self)@, evs_view(out@)) == start_step(old(self)@),
    {
        let mut out: Vec<BebelStreamEvent> = Vec::new();
        if !self.has_sink {
            assert(evs_view(out@) =~= Seq::<Ev>::empty());
            return out;
        }
        out.push(simple_event("start"));
        assert(evs_view(out@) =~= seq![bare("start"@)]);
        out
    }

    /// The events of generated token `id` at position `index`, whose text is `piece`.
    pub fn token(&mut self, index: usize, id: u32, piece: &str) -> (out: Vec<BebelStreamEvent>)
        ensures
            (final(self)@, evs_view(out@)) == token_step(old(self)@, index, id, piece@),
    {
        let mut out: Vec<BebelStreamEvent> = Vec::new();
        assert(evs_view(out@) =~= Seq::<Ev>::empty());
        if !self.has_sink {
            return out;
        }
        if id == TOKEN_THINK {
            self.start_control_block(ActiveBlock::Thinking, index, id, piece, &mut out);
        } else if id == TOKEN_THINK_END {
            self.end_control_block(ActiveBlock::Thinking, index, id, piece, &mut out);
        } else if id == TOKEN_TOOL_LIST_START {
            self.start_control_block(ActiveBlock::ToolList, index, id, piece, &mut out);
        } else if id == TOKEN_TOOL_LIST_END {
            self.end_control_block(ActiveBlock::ToolList, index, id, piece, &mut out);
        } else if id == TOKEN_TOOL_CALL_START {
            self.start_control_block(ActiveBlock::ToolCall, index, id, piece, &mut out);
        } else if id == TOKEN_TOOL_CALL_END {
            self.end_control_block(ActiveBlock::ToolCall, index, id, piece, &mut out);
        } else {
            self.delta(index, id, piece, &mut out);
        }
        out
    }

    /// The events of the end of a run.
    pub fn finish(&mut self, stop: StopReason, text: &str, generated_tokens: usize) -> (out: Vec<
        BebelStreamEvent,
    >)
        ensures
            (final(self)@, evs_view(out@)) == finish_step(old(self)@, stop, text@, generated_tokens),
    {
        let mut out: Vec<BebelStreamEvent> = Vec::new();
        assert(evs_view(out@) =~= Seq::<Ev>::empty());
        if !self.has_sink {
            return out;
        }
        self.close_active(&mut out);
        let ghost before = evs_view(out@);
        out.push(done_event(stop, text, generated_tokens));
        assert(evs_view(out@) =~= before.push(done(stop, text@, generated_tokens)));
        out
    }

    /// Whether anyone listens to this stream.
    pub fn has_sink(&self) -> (r: bool)
        ensures
            r == self@.has_sink,
    {
        self.has_sink
    }

    fn start_control_block(
        &mut self,
        block: ActiveBlock,
        index: usize,
        id: u32,
        marker: &str,
        out: &mut Vec<BebelStreamEvent>,
    )
        requires
            block != ActiveBlock::Idle,
            evs_view(old(out)@) == Seq::<Ev>::empty(),
        ensures
            (final(self)@, evs_view(final(out)@)) == start_block_step(old(self)@, block, index, id, marker@),
    {
        self.close_active(out);
        self.active = block;
        self.content = String::new();
        let kind = match block.start_event() {
            Some(k) => k,
            None => "",
        };
        let ghost before = evs_view(out@);
        out.push(control_event(kind, index, id, marker));
        assert(evs_view(out@) =~= before.push(control(start_name(block).unwrap(), index, id, marker@)));
    }

    fn end_control_block(
        &mut self,
        block: ActiveBlock,
        index: usize,
        id: u32,
        marker: &str,
        out: &mut Vec<BebelStreamEvent>,
    )
        requires
            block != ActiveBlock::Idle,
            evs_view(old(out)@) == Seq::<Ev>::empty(),
        ensures
            (final(self)@, evs_view(final(out)@)) == end_block_step(old(self)@, block, index, id, marker@),
    {
        if self.active != block {
            self.close_active(out);
            self.active = block;
        }
        let kind = match block.end_event() {
            Some(k) => k,
            None => "",
        };
        let event = control_end_event(kind, index, id, marker, self.content.as_str());
        self.active = ActiveBlock::Idle;
        self.content = String::new();
        let ghost before = evs_view(out@);
        out.push(event);
        assert(evs_view(out@) =~= before.push(event@));
    }

    fn delta(&mut self, index: usize, id: u32, piece: &str, out: &mut Vec<BebelStreamEvent>)
        requires
            evs_view(old(out)@) == Seq::<Ev>::empty(),
        ensures
            (final(self)@, evs_view(final(out)@)) == delta_step(old(self)@, index, id, piece@),
    {
        if self.active == ActiveBlock::Idle {
            self.active = ActiveBlock::Text;
            self.content = String::new();
            out.push(simple_event("text_start"));
            assert(evs_view(out@) =~= seq![bare("text_start"@)]);
        }
        self.content.append(piece);
        let kind = match self.active.delta_event() {
            Some(k) => k,
            None => "",
        };
        let ghost before = evs_view(out@);
        out.push(delta_event(kind, index, id, piece));
        assert(evs_view(out@) =~= before.push(delta_piece(delta_name(self.active).unwrap(), index, id, piece@)));
    }

    fn close_active(&mut self, out: &mut Vec<BebelStreamEvent>)
        requires
            evs_view(old(out)@) == Seq::<Ev>::empty(),
        ensures
            (final(self)@, evs_view(final(out)@)) == close_step(old(self)@),
            final(self)@.has_sink == old(self)@.has_sink,
    {
        if self.active == ActiveBlock::Idle {
            return;
        }
        let kind = match self.active.end_event() {
            Some(k) => k,
            None => "",
        };
        let event = end_event(kind, self.content.as_str());
        self.active = ActiveBlock::Idle;
        self.content = String::new();
        out.push(event);
        assert(evs_view(out@) =~= seq![event@]);
    }
}

/// What a listener has seen of the stream: the open block and the text its deltas carried.
pub type Listener = (ActiveBlock, Seq<char>);

/// One event as a listener checks it. `start` and `done` come while no block is open; a block
/// opens only while none is open; a delta belongs to the open block; a block closes with
/// exactly the text its deltas carried (a block closed by its control token without having
/// been opened carries the text received since the last close, which is none).
pub open spec fn listen(l: Listener, e: Ev) -> Option<Listener> {
    let (open, got) = l;
    if e.kind == "start"@ || e.kind == "done"@ {
        if open == ActiveBlock::Idle {
            Some(l)
        } else {
            None
        }
    } else if exists|b: ActiveBlock| start_name(b) == Some(e.kind) {
        let b = choose|b: ActiveBlock| start_name(b) == Some(e.kind);
        if open == ActiveBlock::Idle {
            Some((b, Seq::empty()))
        } else {
            None
        }
    } else if exists|b: ActiveBlock| delta_name(b) == Some(e.kind) {
        let b = choose|b: ActiveBlock| delta_name(b) == Some(e.kind);
        match e.delta {
            Some(d) => {
                if open == b {
                    Some((b, got + d))
                } else {
                    None
                }
            },
            None => None,
        }
    } else if exists|b: ActiveBlock| end_name(b) == Some(e.kind) {
        let b = choose|b: ActiveBlock| end_name(b) == Some(e.kind);
        if (open == b || open == ActiveBlock::Idle) && e.content == Some(got) {
            Some((ActiveBlock::Idle, Seq::empty()))
        } else {
            None
        }
    } else {
        None
    }
}

/// Events checked one after another; `None` as soon as one is refused.
pub open spec fn listen_all(l: Listener, evs: Seq<Ev>) -> Option<Listener>
    decreases evs.len(),
{
    if evs.len() == 0 {
        Some(l)
    } else {
        match listen(l, evs[0]) {
            Some(l2) => listen_all(l2, evs.drop_first()),
            None => None,
        }
    }
}

proof fn lemma_listen_all_concat(l: Listener, a: Seq<Ev>, b: Seq<Ev>)
    ensures
        listen_all(l, a + b) == match listen_all(l, a) {
            Some(l2) => listen_all(l2, b),
            None => None,
        },
    decreases a.len(),
{
    if a.len() > 0 {
        assert((a + b).drop_first() =~= a.drop_first() + b);
        assert((a + b)[0] == a[0]);
        match listen(l, a[0]) {
            Some(l2) => lemma_listen_all_concat(l2, a.drop_first(), b),
            None => {},
        }
    } else {
        assert(a + b =~= b);
    }
}

proof fn lemma_listen_one(l: Listener, e: Ev)
    ensures
        listen_all(l, seq![e]) == listen(l, e),
{
    assert(seq![e].drop_first() =~= Seq::<Ev>::empty());
    reveal_with_fuel(listen_all, 2);
}

/// The event type names are all different.
proof fn lemma_names_distinct()
    ensures
        forall|a: ActiveBlock, b: ActiveBlock| #![auto] start_name(a) == start_name(b) ==> a == b,
        forall|a: ActiveBlock, b: ActiveBlock| #![auto] delta_name(a) == delta_name(b) ==> a == b,
        forall|a: ActiveBlock, b: ActiveBlock| #![auto] end_name(a) == end_name(b) ==> a == b,
        forall|a: ActiveBlock, b: ActiveBlock| #![auto] start_name(a) is Some ==> start_name(a) != delta_name(b) && start_name(a) != end_name(b),
        forall|a: ActiveBlock, b: ActiveBlock| #![auto] delta_name(a) is Some ==> delta_name(a) != end_name(b),
        forall|a: ActiveBlock| #![auto] start_name(a) is Some ==> start_name(a) != Some("start"@) && start_name(a) != Some("done"@),
        forall|a: ActiveBlock| #![auto] delta_name(a) is Some ==> delta_name(a) != Some("start"@) && delta_name(a) != Some("done"@),
        forall|a: ActiveBlock| #![auto] end_name(a) is Some ==> end_name(a) != Some("start"@) && end_name(a) != Some("done"@),
{
    reveal_strlit("start");
    reveal_strlit("done");
    reveal_strlit("text_start");
    reveal_strlit("text_delta");
    reveal_strlit("text_end");
    reveal_strlit("thinking_start");
    reveal_strlit("thinking_delta");
    reveal_strlit("thinking_end");
    reveal_strlit("tool_list_start");
    reveal_strlit("tool_list_delta");
    reveal_strlit("tool_list_end");
    reveal_strlit("tool_call_start");
    reveal_strlit("tool_call_delta");
    reveal_strlit("tool_call_end");
    assert forall|a: ActiveBlock| #![auto] start_name(a) is Some ==> start_name(a) != Some("start"@) && start_name(a) != Some("done"@) by {
        if start_name(a) is Some {
            assert(start_name(a).unwrap().len() > 5);
        }
    }
    assert forall|a: ActiveBlock| #![auto] delta_name(a) is Some ==> delta_name(a) != Some("start"@) && delta_name(a) != Some("done"@) by {
        if delta_name(a) is Some {
            assert(delta_name(a).unwrap().len() > 5);
        }
    }
    assert forall|a: ActiveBlock| #![auto] end_name(a) is Some ==> end_name(a) != Some("start"@) && end_name(a) != Some("done"@) by {
        if end_name(a) is Some {
            assert(end_name(a).unwrap().len() > 5);
        }
    }
    assert forall|a: ActiveBlock, b: ActiveBlock| #![auto] start_name(a) is Some ==> start_name(a) != delta_name(b) && start_name(a) != end_name(b) by {
        if start_name(a) is Some && delta_name(b) is Some {
            assert(start_name(a).unwrap()[start_name(a).unwrap().len() - 1] != delta_name(b).unwrap()[delta_name(b).unwrap().len() - 1]);
        }
        if start_name(a) is Some && end_name(b) is Some {
            assert(start_name(a).unwrap()[start_name(a).unwrap().len() - 1] != end_name(b).unwrap()[end_name(b).unwrap().len() - 1]);
        }
    }
    assert forall|a: ActiveBlock, b: ActiveBlock| #![auto] delta_name(a) is Some ==> delta_name(a) != end_name(b) by {
        if delta_name(a) is Some && end_name(b) is Some {
            assert(delta_name(a).unwrap()[delta_name(a).unwrap().len() - 1] != end_name(b).unwrap()[end_name(b).unwrap().len() - 1]);
        }
    }
    assert forall|a: ActiveBlock, b: ActiveBlock| #![auto] start_name(a) == start_name(b) ==> a == b by {
        if start_name(a) == start_name(b) && a != b {
            assert(start_name(a).unwrap()[1] != start_name(b).unwrap()[1] || start_name(a).unwrap()[5] != start_name(b).unwrap()[5] || start_name(a).unwrap().len() != start_name(b).unwrap().len());
        }
    }
    assert forall|a: ActiveBlock, b: ActiveBlock| #![auto] delta_name(a) == delta_name(b) ==> a == b by {
        if delta_name(a) == delta_name(b) && a != b {
            assert(delta_name(a).unwrap()[1] != delta_name(b).unwrap()[1] || delta_name(a).unwrap()[5] != delta_name(b).unwrap()[5] || delta_name(a).unwrap().len() != delta_name(b).unwrap().len());
        }
    }
    assert forall|a: ActiveBlock, b: ActiveBlock| #![auto] end_name(a) == end_name(b) ==> a == b by {
        if end_name(a) == end_name(b) && a != b {
            assert(end_name(a).unwrap()[1] != end_name(b).unwrap()[1] || end_name(a).unwrap()[5] != end_name(b).unwrap()[5] || end_name(a).unwrap().len() != end_name(b).unwrap().len());
        }
    }
}

proof fn lemma_listen_start(l: Listener, b: ActiveBlock, e: Ev)
    requires
        b != ActiveBlock::Idle,
        e.kind == start_name(b).unwrap(),
    ensures
        listen(l, e) == (if l.0 == ActiveBlock::Idle {
            Some((b, Seq::<char>::empty()))
        } else {
            None
        }),
{
    lemma_names_distinct();
    assert(start_name(b) == Some(e.kind));
}

proof fn lemma_listen_delta(l: Listener, b: ActiveBlock, e: Ev, d: Seq<char>)
    requires
        b != ActiveBlock::Idle,
        e.kind == delta_name(b).unwrap(),
        e.delta == Some(d),
    ensures
        listen(l, e) == (if l.0 == b {
            Some((b, l.1 + d))
        } else {
            None
        }),
{
    lemma_names_distinct();
    assert(delta_name(b) == Some(e.kind));
    assert(!exists|a: ActiveBlock| start_name(a) == Some(e.kind));
}

proof fn lemma_listen_end(l: Listener, b: ActiveBlock, e: Ev, c: Seq<char>)
    requires
        b != ActiveBlock::Idle,
        e.kind == end_name(b).unwrap(),
        e.content == Some(c),
    ensures
        listen(l, e) == (if (l.0 == b || l.0 == ActiveBlock::Idle) && c == l.1 {
            Some((ActiveBlock::Idle, Seq::<char>::empty()))
        } else {
            None
        }),
{
    lemma_names_distinct();
    assert(end_name(b) == Some(e.kind));
    assert(!exists|a: ActiveBlock| start_name(a) == Some(e.kind));
    assert(!exists|a: ActiveBlock| delta_name(a) == Some(e.kind));
}

proof fn lemma_listen_plain(l: Listener, e: Ev)
    requires
        e.kind == "start"@ || e.kind == "done"@,
    ensures
        listen(l, e) == (if l.0 == ActiveBlock::Idle {
            Some(l)
        } else {
            None
        }),
{
}

/// A stream state in which no block is open holds no text.
pub open spec fn stream_inv(s: Stream) -> bool {
    s.active == ActiveBlock::Idle ==> s.content == Seq::<char>::empty()
}

proof fn lemma_close_step(s: Stream)
    requires
        stream_inv(s),
    ensures
        ({
            let (t, evs) = close_step(s);
            &&& listen_all((s.active, s.content), evs) == Some((t.active, t.content))
            &&& t.active == ActiveBlock::Idle && t.content == Seq::<char>::empty()
            &&& t.has_sink == s.has_sink
        }),
{
    if s.active != ActiveBlock::Idle {
        let e = closing(end_name(s.active).unwrap(), s.content);
        lemma_listen_one((s.active, s.content), e);
        lemma_listen_end((s.active, s.content), s.active, e, s.content);
    }
}

/// Each generated token keeps a listener in step with the stream: the events it produces
/// are accepted by a listener that has seen what the stream state records, and leave it
/// where the new state is. So blocks never interleave, deltas go to the open block, and
/// every block closes with exactly the text of its deltas.
pub proof fn lemma_token_keeps_listener(s: Stream, index: usize, id: u32, p: Seq<char>)
    requires
        stream_inv(s),
    ensures
        ({
            let (t, evs) = token_step(s, index, id, p);
            &&& listen_all((s.active, s.content), evs) == Some((t.active, t.content))
            &&& stream_inv(t)
            &&& t.has_sink == s.has_sink
        }),
{
    let l = (s.active, s.content);
    if !s.has_sink {
    } else if id == TOKEN_THINK || id == TOKEN_TOOL_LIST_START || id == TOKEN_TOOL_CALL_START {
        let b = if id == TOKEN_THINK {
            ActiveBlock::Thinking
        } else if id == TOKEN_TOOL_LIST_START {
            ActiveBlock::ToolList
        } else {
            ActiveBlock::ToolCall
        };
        assert(token_step(s, index, id, p) == start_block_step(s, b, index, id, p));
        let (s1, evs1) = close_step(s);
        lemma_close_step(s);
        let e = control(start_name(b).unwrap(), index, id, p);
        lemma_listen_start((s1.active, s1.content), b, e);
        lemma_listen_one((s1.active, s1.content), e);
        lemma_listen_all_concat(l, evs1, seq![e]);
        assert(evs1.push(e) =~= evs1 + seq![e]);
    } else if id == TOKEN_THINK_END || id == TOKEN_TOOL_LIST_END || id == TOKEN_TOOL_CALL_END {
        let b = if id == TOKEN_THINK_END {
            ActiveBlock::Thinking
        } else if id == TOKEN_TOOL_LIST_END {
            ActiveBlock::ToolList
        } else {
            ActiveBlock::ToolCall
        };
        assert(token_step(s, index, id, p) == end_block_step(s, b, index, id, p));
        let (s1, evs1) = if s.active != b {
            let (t, e) = close_step(s);
            (Stream { active: b, ..t }, e)
        } else {
            (s, Seq::empty())
        };
        if s.active != b {
            lemma_close_step(s);
        } else {
            assert(listen_all(l, evs1) == Some(l));
        }
        let lm = if s.active != b {
            (ActiveBlock::Idle, Seq::<char>::empty())
        } else {
            l
        };
        assert(listen_all(l, evs1) == Some(lm));
        let e = control_closing(end_name(b).unwrap(), index, id, p, s1.content);
        lemma_listen_end(lm, b, e, s1.content);
        lemma_listen_one(lm, e);
        lemma_listen_all_concat(l, evs1, seq![e]);
        assert(evs1.push(e) =~= evs1 + seq![e]);
    } else {
        assert(token_step(s, index, id, p) == delta_step(s, index, id, p));
        if s.active == ActiveBlock::Idle {
            let e0 = bare("text_start"@);
            let e1 = delta_piece(delta_name(ActiveBlock::Text).unwrap(), index, id, p);
            lemma_listen_start(l, ActiveBlock::Text, e0);
            let l1 = (ActiveBlock::Text, Seq::<char>::empty());
            lemma_listen_delta(l1, ActiveBlock::Text, e1, p);
            lemma_listen_one(l, e0);
            lemma_listen_one(l1, e1);
            lemma_listen_all_concat(l, seq![e0], seq![e1]);
            assert(seq![e0].push(e1) =~= seq![e0] + seq![e1]);
            assert(Seq::<char>::empty() + p =~= p);
        } else {
            let e1 = delta_piece(delta_name(s.active).unwrap(), index, id, p);
            lemma_listen_delta(l, s.active, e1, p);
            lemma_listen_one(l, e1);
            assert(Seq::<Ev>::empty().push(e1) =~= seq![e1]);
        }
    }
}

/// The end of a run closes whatever block is open and then reports `done`, leaving a
/// listener with no block open.
pub proof fn lemma_finish_closes(s: Stream, stop: StopReason, text: Seq<char>, n: usize)
    requires
        stream_inv(s),
        s.has_sink,
    ensures
        ({
            let (t, evs) = finish_step(s, stop, text, n);
            &&& listen_all((s.active, s.content), evs) == Some((ActiveBlock::Idle, Seq::<char>::empty()))
            &&& t.active == ActiveBlock::Idle
            &&& evs.last() == done(stop, text, n)
        }),
{
    let (s1, evs1) = close_step(s);
    lemma_close_step(s);
    let e = done(stop, text, n);
    reveal_strlit("done");
    lemma_listen_plain((s1.active, s1.content), e);
    lemma_listen_one((s1.active, s1.content), e);
    lemma_listen_all_concat((s.active, s.content), evs1, seq![e]);
    assert(evs1.push(e) =~= evs1 + seq![e]);
}

/// The stream after tokens `toks` (position, id, text), and the events they produced.
pub open spec fn tokens_step(s: Stream, toks: Seq<(usize, u32, Seq<char>)>) -> (Stream, Seq<Ev>)
    decreases toks.len(),
{
    if toks.len() == 0 {
        (s, Seq::empty())
    } else {
        let (s1, e1) = token_step(s, toks[0].0, toks[0].1, toks[0].2);
        let (s2, e2) = tokens_step(s1, toks.drop_first());
        (s2, e1 + e2)
    }
}

proof fn lemma_tokens_keep_listener(s: Stream, toks: Seq<(usize, u32, Seq<char>)>)
    requires
        stream_inv(s),
    ensures
        ({
            let (t, evs) = tokens_step(s, toks);
            &&& listen_all((s.active, s.content), evs) == Some((t.active, t.content))
            &&& stream_inv(t)
            &&& t.has_sink == s.has_sink
        }),
    decreases toks.len(),
{
    if toks.len() > 0 {
        let (s1, e1) = token_step(s, toks[0].0, toks[0].1, toks[0].2);
        lemma_token_keeps_listener(s, toks[0].0, toks[0].1, toks[0].2);
        lemma_tokens_keep_listener(s1, toks.drop_first());
        let (s2, e2) = tokens_step(s1, toks.drop_first());
        lemma_listen_all_concat((s.active, s.content), e1, e2);
    }
}

/// The events of a whole run seen by a listener: `start`, the events of each token, then
/// the close of the open block and `done`.
pub open spec fn run_events(
    toks: Seq<(usize, u32, Seq<char>)>,
    stop: StopReason,
    text: Seq<char>,
    n: usize,
) -> Seq<Ev> {
    let s0 = Stream { has_sink: true, active: ActiveBlock::Idle, content: Seq::empty() };
    let (s1, e1) = start_step(s0);
    let (s2, e2) = tokens_step(s1, toks);
    let (s3, e3) = finish_step(s2, stop, text, n);
    e1 + e2 + e3
}

/// A whole run is well formed: it begins with `start` and ends with `done`, every block is
/// opened before its deltas and closed, with exactly the text of its deltas, before the next
/// one opens, and no block is left open.
pub proof fn lemma_run_is_well_formed(
    toks: Seq<(usize, u32, Seq<char>)>,
    stop: StopReason,
    text: Seq<char>,
    n: usize,
)
    ensures
        listen_all((ActiveBlock::Idle, Seq::<char>::empty()), run_events(toks, stop, text, n))
            == Some((ActiveBlock::Idle, Seq::<char>::empty())),
        run_events(toks, stop, text, n)[0] == bare("start"@),
        run_events(toks, stop, text, n).last() == done(stop, text, n),
{
    let l0 = (ActiveBlock::Idle, Seq::<char>::empty());
    let s0 = Stream { has_sink: true, active: ActiveBlock::Idle, content: Seq::empty() };
    let (s1, e1) = start_step(s0);
    let (s2, e2) = tokens_step(s1, toks);
    let (s3, e3) = finish_step(s2, stop, text, n);
    lemma_listen_plain(l0, bare("start"@));
    lemma_listen_one(l0, bare("start"@));
    lemma_tokens_keep_listener(s1, toks);
    lemma_finish_closes(s2, stop, text, n);
    lemma_listen_all_concat(l0, e1, e2);
    lemma_listen_all_concat(l0, e1 + e2, e3);
    assert((e1 + e2 + e3)[0] == e1[0]);
}

/// Every event of `evs` has one of the documented event types.
pub open spec fn all_listed(evs: Seq<Ev>) -> bool {
    forall|i: int| 0 <= i < evs.len() ==> event_type_names().contains(#[trigger] evs[i].kind)
}

proof fn lemma_names_listed(b: ActiveBlock)
    requires
        b != ActiveBlock::Idle,
    ensures
        event_type_names().contains(start_name(b).unwrap()),
        event_type_names().contains(delta_name(b).unwrap()),
        event_type_names().contains(end_name(b).unwrap()),
{
    let n = event_type_names();
    match b {
        ActiveBlock::Thinking => {
            assert(n[1] == start_name(b).unwrap());
            assert(n[2] == delta_name(b).unwrap());
            assert(n[3] == end_name(b).unwrap());
        },
        ActiveBlock::Text => {
            assert(n[4] == start_name(b).unwrap());
            assert(n[5] == delta_name(b).unwrap());
            assert(n[6] == end_name(b).unwrap());
        },
        ActiveBlock::ToolList => {
            assert(n[7] == start_name(b).unwrap());
            assert(n[8] == delta_name(b).unwrap());
            assert(n[9] == end_name(b).unwrap());
        },
        ActiveBlock::ToolCall => {
            assert(n[10] == start_name(b).unwrap());
            assert(n[11] == delta_name(b).unwrap());
            assert(n[12] == end_name(b).unwrap());
        },
        ActiveBlock::Idle => {},
    }
}

proof fn lemma_concat_listed(a: Seq<Ev>, b: Seq<Ev>)
    requires
        all_listed(a),
        all_listed(b),
    ensures
        all_listed(a + b),
{
    assert forall|i: int| 0 <= i < (a + b).len() implies event_type_names().contains(
        #[trigger] (a + b)[i].kind,
    ) by {
        if i < a.len() {
            assert((a + b)[i] == a[i]);
        } else {
            assert((a + b)[i] == b[i - a.len()]);
        }
    }
}

proof fn lemma_close_listed(s: Stream)
    ensures
        all_listed(close_step(s).1),
{
    if s.active != ActiveBlock::Idle {
        lemma_names_listed(s.active);
        assert(close_step(s).1[0].kind == end_name(s.active).unwrap());
    }
}

proof fn lemma_start_block_listed(s: Stream, b: ActiveBlock, index: usize, id: u32, p: Seq<char>)
    requires
        b != ActiveBlock::Idle,
    ensures
        all_listed(start_block_step(s, b, index, id, p).1),
{
    let (s1, e1) = close_step(s);
    lemma_close_listed(s);
    lemma_names_listed(b);
    let evs = start_block_step(s, b, index, id, p).1;
    assert forall|i: int| 0 <= i < evs.len() implies event_type_names().contains(
        #[trigger] evs[i].kind,
    ) by {
        if i < e1.len() {
            assert(evs[i] == e1[i]);
        }
    }
}

proof fn lemma_end_block_listed(s: Stream, b: ActiveBlock, index: usize, id: u32, p: Seq<char>)
    requires
        b != ActiveBlock::Idle,
    ensures
        all_listed(end_block_step(s, b, index, id, p).1),
{
    lemma_close_listed(s);
    lemma_names_listed(b);
    let evs = end_block_step(s, b, index, id, p).1;
    if s.active != b {
        let (t, e) = close_step(s);
        assert forall|i: int| 0 <= i < evs.len() implies event_type_names().contains(
            #[trigger] evs[i].kind,
        ) by {
            if i < e.len() {
                assert(evs[i] == e[i]);
            }
        }
    }
}

proof fn lemma_delta_listed(s: Stream, index: usize, id: u32, p: Seq<char>)
    ensures
        all_listed(delta_step(s, index, id, p).1),
{
    lemma_names_listed(ActiveBlock::Text);
    if s.active != ActiveBlock::Idle {
        lemma_names_listed(s.active);
    }
    assert(event_type_names()[4] == "text_start"@);
}

proof fn lemma_token_listed(s: Stream, index: usize, id: u32, p: Seq<char>)
    ensures
        all_listed(token_step(s, index, id, p).1),
{
    if s.has_sink {
        if id == TOKEN_THINK {
            lemma_start_block_listed(s, ActiveBlock::Thinking, index, id, p);
        } else if id == TOKEN_THINK_END {
            lemma_end_block_listed(s, ActiveBlock::Thinking, index, id, p);
        } else if id == TOKEN_TOOL_LIST_START {
            lemma_start_block_listed(s, ActiveBlock::ToolList, index, id, p);
        } else if id == TOKEN_TOOL_LIST_END {
            lemma_end_block_listed(s, ActiveBlock::ToolList, index, id, p);
        } else if id == TOKEN_TOOL_CALL_START {
            lemma_start_block_listed(s, ActiveBlock::ToolCall, index, id, p);
        } else if id == TOKEN_TOOL_CALL_END {
            lemma_end_block_listed(s, ActiveBlock::ToolCall, index, id, p);
        } else {
            lemma_delta_listed(s, index, id, p);
        }
    }
}

proof fn lemma_tokens_listed(s: Stream, toks: Seq<(usize, u32, Seq<char>)>)
    ensures
        all_listed(tokens_step(s, toks).1),
    decreases toks.len(),
{
    if toks.len() > 0 {
        let (s1, e1) = token_step(s, toks[0].0, toks[0].1, toks[0].2);
        lemma_token_listed(s, toks[0].0, toks[0].1, toks[0].2);
        lemma_tokens_listed(s1, toks.drop_first());
        lemma_concat_listed(e1, tokens_step(s1, toks.drop_first()).1);
    }
}

/// Every event of a whole run has one of the types that [`event_types`] lists.
pub proof fn lemma_run_events_are_listed(
    toks: Seq<(usize, u32, Seq<char>)>,
    stop: StopReason,
    text: Seq<char>,
    n: usize,
)
    ensures
        all_listed(run_events(toks, stop, text, n)),
{
    let s0 = Stream { has_sink: true, active: ActiveBlock::Idle, content: Seq::empty() };
    let (s1, e1) = start_step(s0);
    let (s2, e2) = tokens_step(s1, toks);
    let (s3, e3) = finish_step(s2, stop, text, n);
    let names = event_type_names();
    assert(names[0] == "start"@);
    assert(names[13] == "done"@);
    assert(all_listed(e1)) by {
        assert(e1[0].kind == "start"@);
    }
    lemma_tokens_listed(s1, toks);
    lemma_close_listed(s2);
    assert(all_listed(e3)) by {
        let (t, c) = close_step(s2);
        assert forall|i: int| 0 <= i < e3.len() implies names.contains(#[trigger] e3[i].kind) by {
            if i < c.len() {
                assert(e3[i] == c[i]);
            } else {
                assert(e3[i] == done(stop, text, n));
            }
        }
    }
    lemma_concat_listed(e1, e2);
    lemma_concat_listed(e1 + e2, e3);
}

/// Generated tokens as plain values: position, id and text.
pub open spec fn toks_view(toks: Seq<(usize, u32, String)>) -> Seq<(usize, u32, Seq<char>)> {
    toks.map_values(|t: (usize, u32, String)| (t.0, t.1, t.2@))
}

proof fn lemma_tokens_step_push(s: Stream, toks: Seq<(usize, u32, Seq<char>)>, x: (usize, u32, Seq<char>))
    ensures
        ({
            let (s2, e2) = tokens_step(s, toks);
            let (s3, e3) = token_step(s2, x.0, x.1, x.2);
            tokens_step(s, toks.push(x)) == (s3, e2 + e3)
        }),
    decreases toks.len(),
{
    if toks.len() == 0 {
        let (s3, e3) = token_step(s, x.0, x.1, x.2);
        assert(toks.push(x).drop_first() =~= Seq::<(usize, u32, Seq<char>)>::empty());
        assert(toks.push(x)[0] == x);
        reveal_with_fuel(tokens_step, 2);
        assert(tokens_step(s3, toks.push(x).drop_first()) == tokens_step(s3, Seq::empty()));
        assert(tokens_step(s, toks.push(x)).0 == s3);
        assert(tokens_step(s, toks.push(x)).1 =~= e3 + Seq::<Ev>::empty());
        assert(e3 + Seq::<Ev>::empty() =~= e3);
        assert(Seq::<Ev>::empty() + e3 =~= e3);
        assert(tokens_step(s, toks).1 + e3 =~= e3);
    } else {
        assert(toks.push(x).drop_first() =~= toks.drop_first().push(x));
        assert(toks.push(x)[0] == toks[0]);
        let (s1, e1) = token_step(s, toks[0].0, toks[0].1, toks[0].2);
        lemma_tokens_step_push(s1, toks.drop_first(), x);
        let (s2, e2) = tokens_step(s1, toks.drop_first());
        let (s3, e3) = token_step(s2, x.0, x.1, x.2);
        assert(tokens_step(s, toks.push(x)).0 == s3);
        assert(tokens_step(s, toks.push(x)).1 =~= e1 + (e2 + e3));
        assert(tokens_step(s, toks).1 =~= e1 + e2);
        assert(e1 + (e2 + e3) =~= e1 + e2 + e3);
    }
}

/// Run a listened-to stream through its start, the generated tokens `toks` in order, and its
/// finish, with the stream's own calls, and collect every event. The events are those of the
/// run's model ([`run_events`]), so the run law holds of them: `start` first, `done` last,
/// every block closed with exactly the text of its deltas before the next opens, no block
/// left open, and every type one that [`event_types`] lists.
pub fn stream_run(toks: &[(usize, u32, String)], stop: StopReason, text: &str, generated_tokens: usize) -> (evs:
    Vec<BebelStreamEvent>)
    ensures
        evs_view(evs@) == run_events(toks_view(toks@), stop, text@, generated_tokens),
        evs_view(evs@)[0] == bare("start"@),
        evs_view(evs@).last() == done(stop, text@, generated_tokens),
        listen_all((ActiveBlock::Idle, Seq::<char>::empty()), evs_view(evs@)) == Some(
            (ActiveBlock::Idle, Seq::<char>::empty()),
        ),
        all_listed(evs_view(evs@)),
{
    let ghost tv = toks_view(toks@);
    let mut s = StreamState::new(true);
    let ghost s1 = start_step(s@).0;
    let mut out = s.start();
    let ghost e1 = evs_view(out@);
    let mut i: usize = 0;
    assert(tv.take(0) =~= Seq::<(usize, u32, Seq<char>)>::empty());
    assert(e1 + Seq::<Ev>::empty() =~= e1);
    while i < toks.len()
        invariant
            tv == toks_view(toks@),
            i <= toks@.len(),
            s@ == tokens_step(s1, tv.take(i as int)).0,
            evs_view(out@) == e1 + tokens_step(s1, tv.take(i as int)).1,
        decreases toks@.len() - i,
    {
        let (index, id, piece) = (toks[i].0, toks[i].1, toks[i].2.as_str());
        let ghost before = evs_view(out@);
        let mut more = s.token(index, id, piece);
        let ghost added = evs_view(more@);
        out.append(&mut more);
        proof {
            assert(tv.take(i + 1) =~= tv.take(i as int).push(tv[i as int]));
            lemma_tokens_step_push(s1, tv.take(i as int), tv[i as int]);
            assert(evs_view(out@) =~= before + added);
            assert(before + added =~= e1 + (tokens_step(s1, tv.take(i as int)).1 + added));
        }
        i = i + 1;
    }
    let mut last = s.finish(stop, text, generated_tokens);
    let ghost before = evs_view(out@);
    let ghost added = evs_view(last@);
    out.append(&mut last);
    proof {
        assert(tv.take(toks@.len() as int) =~= tv);
        assert(evs_view(out@) =~= before + added);
        lemma_run_is_well_formed(tv, stop, text@, generated_tokens);
        lemma_run_events_are_listed(tv, stop, text@, generated_tokens);
    }
    out
}

} // verus!
