//! The decisions of one assistant turn's decoding loop, kept apart from the model and the
//! sampler that they steer.
//!
//! Before each token the loop asks [`DecodeState::next_token`] whether to sample (and which
//! tokens to bar from sampling) or to force `</think>`; after each token it asks
//! [`DecodeState::accept`] whether the token ends the turn, is emitted, or is emitted as the
//! last one. The reasoning block is capped at `max_think` tokens, a `</think>` is never
//! followed directly by a turn-ender, and the reply never exceeds `max_gen` tokens.

use vstd::prelude::*;

use crate::bpe::{encode_spec, specials_nonempty, Tokenizer};
use crate::chatml::{turn, user_turn, ASSISTANT_OPEN};
use crate::tokenizer::{TOKEN_BOS, TOKEN_ENDOFTEXT, TOKEN_IM_END, TOKEN_IM_START, TOKEN_PAD, TOKEN_THINK, TOKEN_THINK_END};

verus! {

/// Default per-turn generation cap.
pub const DEFAULT_MAX_GEN: usize = 2048;

/// Default KV attention-window cap (tokens); past it the oldest context slides out.
pub const DEFAULT_MAX_CONTEXT: usize = 32_768;

/// Why decoding stopped.
#[derive(Clone, Copy, Debug, PartialEq, Eq, Structural)]
pub enum StopReason {
    /// The model emitted an end-of-turn (or other sequence-boundary) token.
    Eos,
    /// Hit the per-turn `max_gen` cap.
    MaxNew,
}

/// Timing and counts from a generation run.
pub struct GenStats {
    pub prompt_tokens: usize,
    pub generated_tokens: usize,
    pub prefill: std::time::Duration,
    pub decode: std::time::Duration,
}

/// One generated reply: the new token ids, their decoded text, timing, and why decoding
/// stopped.
pub struct Turn {
    pub ids: Vec<u32>,
    pub text: String,
    pub stats: GenStats,
    pub stop: StopReason,
}

/// Control tokens that end a turn besides EOS: document and turn boundaries that are never
/// valid reply content.
pub open spec fn is_stop_token_spec(t: u32) -> bool {
    t == TOKEN_ENDOFTEXT || t == TOKEN_BOS || t == TOKEN_PAD || t == TOKEN_IM_START
}

/// Whether `t` is one of the boundary tokens that end a turn besides EOS.
pub fn is_stop_token(t: u32) -> (r: bool)
    ensures
        r == is_stop_token_spec(t),
{
    t == TOKEN_ENDOFTEXT || t == TOKEN_BOS || t == TOKEN_PAD || t == TOKEN_IM_START
}

/// Whether `t` ends a turn under end-of-sequence id `eos`.
pub open spec fn ends_turn(t: u32, eos: u32) -> bool {
    t == eos || is_stop_token_spec(t)
}

/// The per-turn limits of decoding.
#[derive(Clone, Copy, Debug)]
pub struct DecodeLimits {
    /// Cap on generated tokens per turn.
    pub max_gen: usize,
    /// Cap on reasoning tokens inside `<think>…</think>`; `0` bars reasoning altogether.
    pub max_think: usize,
    /// The end-of-sequence id.
    pub eos: u32,
}

/// What the loop does for the next token.
#[derive(Clone, Copy, Debug, PartialEq, Eq, Structural)]
pub enum NextToken {
    /// Sample it, first barring `<think>` (`bar_think`) and every turn-ender (`bar_turn_end`).
    Sample { bar_think: bool, bar_turn_end: bool },
    /// Take `</think>` without sampling: the reasoning budget is spent.
    ForceThinkEnd,
}

/// What a chosen token does.
#[derive(Clone, Copy, Debug, PartialEq, Eq, Structural)]
pub enum TokenAction {
    /// The token ends the turn ([`StopReason::Eos`]) and is not part of the reply.
    EndTurn,
    /// The token is part of the reply, and decoding goes on.
    Emit,
    /// The token is part of the reply and the last one ([`StopReason::MaxNew`]).
    EmitAndStop,
}

/// What decoding remembers between tokens.
#[derive(Clone, Copy, Debug, PartialEq, Eq, Structural)]
pub struct DecodeState {
    /// Inside a `<think>` block.
    pub thinking: bool,
    /// Reasoning tokens so far in the open block.
    pub think_count: usize,
    /// `<think>` is barred from sampling.
    pub think_capped: bool,
    /// The previous token was `</think>`: the next may not end the turn.
    pub require_answer: bool,
    /// Tokens emitted so far.
    pub generated: usize,
    /// The turn has stopped.
    pub finished: bool,
}

/// The state at the start of a turn.
pub open spec fn start_spec(l: DecodeLimits) -> DecodeState {
    DecodeState {
        thinking: false,
        think_count: 0,
        think_capped: l.max_think == 0,
        require_answer: false,
        generated: 0,
        finished: l.max_gen == 0,
    }
}

/// The plan for the next token, and the state after planning it.
pub open spec fn plan_spec(s: DecodeState, l: DecodeLimits) -> (DecodeState, NextToken) {
    if s.thinking && s.think_count >= l.max_think {
        (
            DecodeState { think_capped: true, require_answer: false, ..s },
            NextToken::ForceThinkEnd,
        )
    } else {
        (
            DecodeState { require_answer: false, ..s },
            NextToken::Sample { bar_think: s.think_capped, bar_turn_end: s.require_answer },
        )
    }
}

/// What token `t` does, and the state after it.
pub open spec fn accept_spec(s: DecodeState, l: DecodeLimits, t: u32) -> (DecodeState, TokenAction) {
    if ends_turn(t, l.eos) {
        (DecodeState { finished: true, ..s }, TokenAction::EndTurn)
    } else {
        let s1 = if t == TOKEN_THINK {
            DecodeState { thinking: true, think_count: 0, ..s }
        } else if t == TOKEN_THINK_END {
            DecodeState { thinking: false, require_answer: true, ..s }
        } else if s.thinking {
            DecodeState { think_count: (s.think_count + 1) as usize, ..s }
        } else {
            s
        };
        let n = s.generated + 1;
        if n >= l.max_gen {
            (DecodeState { generated: n as usize, finished: true, ..s1 }, TokenAction::EmitAndStop)
        } else {
            (DecodeState { generated: n as usize, ..s1 }, TokenAction::Emit)
        }
    }
}

/// The state keeps its bounds: an open reasoning block holds at most `max_think` tokens
/// (unless `<think>` was sampled while barred, which resets the count), a running turn has
/// emitted fewer than `max_gen` tokens, and no turn emits more than `max_gen`.
pub open spec fn decode_inv(s: DecodeState, l: DecodeLimits) -> bool {
    &&& s.thinking ==> s.think_count <= l.max_think
    &&& !s.finished ==> s.generated < l.max_gen
    &&& s.generated <= l.max_gen
}

impl DecodeState {
    /// The state at the start of a turn: with no reasoning budget, `<think>` is barred from
    /// the first token; with a cap of zero tokens the turn is over before it starts.
    pub fn new(l: &DecodeLimits) -> (s: DecodeState)
        ensures
            s == start_spec(*l),
            decode_inv(s, *l),
    {
        DecodeState {
            thinking: false,
            think_count: 0,
            think_capped: l.max_think == 0,
            require_answer: false,
            generated: 0,
            finished: l.max_gen == 0,
        }
    }

    /// Decide how the next token is chosen. Once the reasoning budget is spent, `</think>` is
    /// forced and `<think>` barred from then on; right after a `</think>`, the turn-enders are
    /// barred for one token.
    pub fn next_token(&mut self, l: &DecodeLimits) -> (n: NextToken)
        requires
            decode_inv(*old(self), *l),
        ensures
            (*final(self), n) == plan_spec(*old(self), *l),
            decode_inv(*final(self), *l),
    {
        if self.thinking && self.think_count >= l.max_think {
            self.think_capped = true;
            self.require_answer = false;
            NextToken::ForceThinkEnd
        } else {
            let plan = NextToken::Sample { bar_think: self.think_capped, bar_turn_end: self.require_answer };
            self.require_answer = false;
            plan
        }
    }

    /// Take the chosen token `t` into account: a turn-ender stops the turn unemitted;
    /// `<think>` opens a reasoning block, `</think>` closes it, and any other token inside a
    /// block counts against the budget; the token that reaches `max_gen` is the last.
    pub fn accept(&mut self, l: &DecodeLimits, t: u32) -> (a: TokenAction)
        requires
            !old(self).finished,
            decode_inv(*old(self), *l),
            old(self).thinking ==> old(self).think_count < l.max_think || t == TOKEN_THINK || t == TOKEN_THINK_END
                || ends_turn(t, l.eos),
        ensures
            (*final(self), a) == accept_spec(*old(self), *l, t),
            decode_inv(*final(self), *l),
    {
        if t == l.eos || is_stop_token(t) {
            self.finished = true;
            return TokenAction::EndTurn;
        }
        if t == TOKEN_THINK {
            self.thinking = true;
            self.think_count = 0;
        } else if t == TOKEN_THINK_END {
            self.thinking = false;
            self.require_answer = true;
        } else if self.thinking {
            self.think_count = self.think_count + 1;
        }
        self.generated = self.generated + 1;
        if self.generated >= l.max_gen {
            self.finished = true;
            TokenAction::EmitAndStop
        } else {
            TokenAction::Emit
        }
    }
}

/// The token transcript of a conversation: every turn so far, only ever grown (or cleared).
pub struct Transcript {
    history: Vec<u32>,
}

impl View for Transcript {
    type V = Seq<u32>;

    closed spec fn view(&self) -> Seq<u32> {
        self.history@
    }
}

impl Transcript {
    /// An empty transcript.
    pub fn new() -> (t: Transcript)
        ensures
            t@ == Seq::<u32>::empty(),
    {
        Transcript { history: Vec::new() }
    }

    /// Tokenize raw `text` and append it. BOS is prepended only on the first append, while
    /// the transcript is still empty.
    pub fn append(&mut self, tok: &Tokenizer, text: &str)
        requires
            tok.wf(),
            specials_nonempty(tok@.specials),
        ensures
            final(self)@ == old(self)@ + encode_spec(text@, old(self)@.len() == 0, tok@),
    {
        let add_bos = self.history.len() == 0;
        let mut ids = tok.encode(text, add_bos);
        self.history.append(&mut ids);
    }

    /// Append a full ChatML user turn: `<|im_start|>user\n{msg}<|im_end|>\n`.
    pub fn append_user(&mut self, tok: &Tokenizer, msg: &str)
        requires
            tok.wf(),
            specials_nonempty(tok@.specials),
        ensures
            final(self)@ == old(self)@ + encode_spec(turn("user"@, msg@), old(self)@.len() == 0, tok@),
    {
        let text = user_turn(msg);
        self.append(tok, text.as_str());
    }

    /// Append already-tokenized ids verbatim (e.g. a replayed transcript or a tool result).
    pub fn append_tokens(&mut self, ids: &[u32])
        ensures
            final(self)@ == old(self)@ + ids@,
    {
        let mut i: usize = 0;
        while i < ids.len()
            invariant
                i <= ids@.len(),
                self.history@ == old(self)@ + ids@.take(i as int),
            decreases ids@.len() - i,
        {
            self.history.push(ids[i]);
            i += 1;
            assert(self.history@ =~= old(self)@ + ids@.take(i as int));
        }
        assert(ids@.take(i as int) =~= ids@);
    }

    /// Open an assistant turn before generating its reply.
    pub fn open_assistant(&mut self, tok: &Tokenizer)
        requires
            tok.wf(),
            specials_nonempty(tok@.specials),
        ensures
            final(self)@ == old(self)@ + encode_spec(ASSISTANT_OPEN@, old(self)@.len() == 0, tok@),
    {
        self.append(tok, ASSISTANT_OPEN);
    }

    /// Append a generated token.
    pub fn push(&mut self, id: u32)
        ensures
            final(self)@ == old(self)@.push(id),
    {
        self.history.push(id);
    }

    /// Close an assistant turn: the reply stops short of `<|im_end|>`, so append it and the
    /// newline the template puts between turns.
    pub fn close_assistant(&mut self, tok: &Tokenizer)
        requires
            tok.wf(),
            specials_nonempty(tok@.specials),
        ensures
            final(self)@ == old(self)@.push(TOKEN_IM_END) + encode_spec("\n"@, false, tok@),
    {
        self.history.push(TOKEN_IM_END);
        self.append(tok, "\n");
    }

    /// Clear the conversation.
    pub fn clear(&mut self)
        ensures
            final(self)@ == Seq::<u32>::empty(),
    {
        self.history.clear();
    }

    /// The full token transcript so far.
    pub fn history(&self) -> (h: &[u32])
        ensures
            h@ == self@,
    {
        self.history.as_slice()
    }
}

} // verus!

verus! {

// ---------------------------------------------------------------------------------------------
// Laws
// ---------------------------------------------------------------------------------------------

/// The reply of a turn from state `s` when the sampler, asked in turn, gives `samples` (a
/// forced `</think>` takes none); the turn stops at a turn-ender, at `max_gen`, or when the
/// samples run out.
pub open spec fn reply_from(s: DecodeState, l: DecodeLimits, samples: Seq<u32>) -> Seq<u32>
    decreases samples.len(), (if s.thinking { 1int } else { 0int }),
{
    if s.finished {
        Seq::empty()
    } else {
        let (s1, plan) = plan_spec(s, l);
        match plan {
            NextToken::ForceThinkEnd => {
                let (s2, a) = accept_spec(s1, l, TOKEN_THINK_END);
                match a {
                    TokenAction::EndTurn => Seq::empty(),
                    TokenAction::EmitAndStop => seq![TOKEN_THINK_END],
                    TokenAction::Emit => seq![TOKEN_THINK_END] + reply_from(s2, l, samples),
                }
            },
            NextToken::Sample { .. } => {
                if samples.len() == 0 {
                    Seq::empty()
                } else {
                    let t = samples[0];
                    let (s2, a) = accept_spec(s1, l, t);
                    match a {
                        TokenAction::EndTurn => Seq::empty(),
                        TokenAction::EmitAndStop => seq![t],
                        TokenAction::Emit => seq![t] + reply_from(s2, l, samples.drop_first()),
                    }
                }
            },
        }
    }
}

/// Why the turn of [`reply_from`] stops: `None` when the samples run out first. A turn that
/// is already over stopped at the cap when it holds `max_gen` tokens, else at a turn-ender.
pub open spec fn stop_from(s: DecodeState, l: DecodeLimits, samples: Seq<u32>) -> Option<StopReason>
    decreases samples.len(), (if s.thinking { 1int } else { 0int }),
{
    if s.finished {
        if s.generated >= l.max_gen {
            Some(StopReason::MaxNew)
        } else {
            Some(StopReason::Eos)
        }
    } else {
        let (s1, plan) = plan_spec(s, l);
        match plan {
            NextToken::ForceThinkEnd => {
                let (s2, a) = accept_spec(s1, l, TOKEN_THINK_END);
                match a {
                    TokenAction::EndTurn => Some(StopReason::Eos),
                    TokenAction::EmitAndStop => Some(StopReason::MaxNew),
                    TokenAction::Emit => stop_from(s2, l, samples),
                }
            },
            NextToken::Sample { .. } => {
                if samples.len() == 0 {
                    None
                } else {
                    let (s2, a) = accept_spec(s1, l, samples[0]);
                    match a {
                        TokenAction::EndTurn => Some(StopReason::Eos),
                        TokenAction::EmitAndStop => Some(StopReason::MaxNew),
                        TokenAction::Emit => stop_from(s2, l, samples.drop_first()),
                    }
                }
            },
        }
    }
}

proof fn lemma_reply_bounds(s: DecodeState, l: DecodeLimits, samples: Seq<u32>)
    requires
        decode_inv(s, l),
    ensures
        s.generated + reply_from(s, l, samples).len() <= l.max_gen,
        stop_from(s, l, samples) == Some(StopReason::MaxNew) <==> s.generated + reply_from(
            s,
            l,
            samples,
        ).len() == l.max_gen,
        forall|i: int| 0 <= i < reply_from(s, l, samples).len() ==> !ends_turn(#[trigger] reply_from(s, l, samples)[i], l.eos),
    decreases samples.len(), (if s.thinking { 1int } else { 0int }),
{
    if !s.finished {
        let (s1, plan) = plan_spec(s, l);
        match plan {
            NextToken::ForceThinkEnd => {
                let (s2, a) = accept_spec(s1, l, TOKEN_THINK_END);
                if a == TokenAction::Emit {
                    lemma_reply_bounds(s2, l, samples);
                    let rest = reply_from(s2, l, samples);
                    assert forall|i: int| 0 <= i < reply_from(s, l, samples).len() implies !ends_turn(
                        #[trigger] reply_from(s, l, samples)[i],
                        l.eos,
                    ) by {
                        if i > 0 {
                            assert(reply_from(s, l, samples)[i] == rest[i - 1]);
                        }
                    }
                }
            },
            NextToken::Sample { .. } => {
                if samples.len() > 0 {
                    let t = samples[0];
                    let (s2, a) = accept_spec(s1, l, t);
                    if a == TokenAction::Emit {
                        lemma_reply_bounds(s2, l, samples.drop_first());
                        let rest = reply_from(s2, l, samples.drop_first());
                        assert forall|i: int| 0 <= i < reply_from(s, l, samples).len() implies !ends_turn(
                            #[trigger] reply_from(s, l, samples)[i],
                            l.eos,
                        ) by {
                            if i > 0 {
                                assert(reply_from(s, l, samples)[i] == rest[i - 1]);
                            }
                        }
                    }
                }
            },
        }
    }
}

/// Whatever the sampler gives, a turn's reply holds at most `max_gen` tokens (none when
/// `max_gen` is zero), it stops for the cap exactly when it holds `max_gen` tokens, and it
/// holds no turn-ender: EOS and the boundary tokens end the turn without being emitted.
pub proof fn lemma_reply_is_bounded(l: DecodeLimits, samples: Seq<u32>)
    ensures
        reply_from(start_spec(l), l, samples).len() <= l.max_gen,
        stop_from(start_spec(l), l, samples) == Some(StopReason::MaxNew) <==> reply_from(
            start_spec(l),
            l,
            samples,
        ).len() == l.max_gen,
        forall|i: int|
            0 <= i < reply_from(start_spec(l), l, samples).len() ==> !ends_turn(
                #[trigger] reply_from(start_spec(l), l, samples)[i],
                l.eos,
            ),
{
    lemma_reply_bounds(start_spec(l), l, samples);
}

/// Right after an emitted `</think>`, the next token is sampled with every turn-ender barred,
/// so the turn cannot close on an empty answer.
pub proof fn lemma_answer_follows_think_end(s: DecodeState, l: DecodeLimits)
    requires
        !ends_turn(TOKEN_THINK_END, l.eos),
    ensures
        ({
            let (s1, a) = accept_spec(s, l, TOKEN_THINK_END);
            a == TokenAction::Emit ==> plan_spec(s1, l).1 == (NextToken::Sample {
                bar_think: s.think_capped,
                bar_turn_end: true,
            })
        }),
{
}

/// Once `<think>` is barred it stays barred: every later sampling bars it. With no reasoning
/// budget it is barred from the first token.
pub proof fn lemma_think_stays_barred(s: DecodeState, l: DecodeLimits, t: u32)
    requires
        s.think_capped,
    ensures
        plan_spec(s, l).0.think_capped,
        plan_spec(s, l).1 matches NextToken::Sample { bar_think, .. } ==> bar_think,
        accept_spec(s, l, t).0.think_capped,
        l.max_think == 0 ==> start_spec(l).think_capped,
{
}

/// How many tokens of `r` come before its first `<think>` or `</think>` (all of them when it
/// has none).
pub open spec fn run_before_control(r: Seq<u32>) -> nat
    decreases r.len(),
{
    if r.len() == 0 || r[0] == TOKEN_THINK || r[0] == TOKEN_THINK_END {
        0
    } else {
        1 + run_before_control(r.drop_first())
    }
}

/// After every `<think>` in `r`, at most `k` tokens come before the next `<think>` or
/// `</think>`.
pub open spec fn within_think_budget(r: Seq<u32>, k: nat) -> bool
    decreases r.len(),
{
    r.len() == 0 || ((r[0] == TOKEN_THINK ==> run_before_control(r.drop_first()) <= k)
        && within_think_budget(r.drop_first(), k))
}

/// The sampler honours the bars of every plan: it gives no barred `<think>` and no barred
/// turn-ender.
pub open spec fn honors_bars(s: DecodeState, l: DecodeLimits, samples: Seq<u32>) -> bool
    decreases samples.len(), (if s.thinking { 1int } else { 0int }),
{
    if s.finished {
        true
    } else {
        let (s1, plan) = plan_spec(s, l);
        match plan {
            NextToken::ForceThinkEnd => {
                let (s2, a) = accept_spec(s1, l, TOKEN_THINK_END);
                a == TokenAction::Emit ==> honors_bars(s2, l, samples)
            },
            NextToken::Sample { bar_think, bar_turn_end } => {
                samples.len() > 0 ==> {
                    let t = samples[0];
                    let (s2, a) = accept_spec(s1, l, t);
                    &&& bar_think ==> t != TOKEN_THINK
                    &&& bar_turn_end ==> !ends_turn(t, l.eos)
                    &&& a == TokenAction::Emit ==> honors_bars(s2, l, samples.drop_first())
                }
            },
        }
    }
}

proof fn lemma_think_budget(s: DecodeState, l: DecodeLimits, samples: Seq<u32>)
    requires
        decode_inv(s, l),
    ensures
        within_think_budget(reply_from(s, l, samples), l.max_think as nat),
        s.thinking && !s.finished ==> run_before_control(reply_from(s, l, samples)) + s.think_count
            <= l.max_think,
        s.think_capped && honors_bars(s, l, samples) ==> !reply_from(s, l, samples).contains(
            TOKEN_THINK,
        ),
    decreases samples.len(), (if s.thinking { 1int } else { 0int }),
{
    let r = reply_from(s, l, samples);
    if !s.finished {
        let (s1, plan) = plan_spec(s, l);
        match plan {
            NextToken::ForceThinkEnd => {
                let (s2, a) = accept_spec(s1, l, TOKEN_THINK_END);
                if a == TokenAction::Emit {
                    lemma_think_budget(s2, l, samples);
                    assert(r.drop_first() =~= reply_from(s2, l, samples));
                    assert(r[0] == TOKEN_THINK_END);
                    assert(run_before_control(r) == 0);
                    if s.think_capped && honors_bars(s, l, samples) {
                        assert forall|i: int| 0 <= i < r.len() implies r[i] != TOKEN_THINK by {
                            if i > 0 {
                                assert(r[i] == reply_from(s2, l, samples)[i - 1]);
                            }
                        }
                    }
                } else if a == TokenAction::EmitAndStop {
                    assert(r.drop_first() =~= Seq::<u32>::empty());
                    assert(r[0] == TOKEN_THINK_END);
                    assert(run_before_control(r) == 0);
                    assert(within_think_budget(r.drop_first(), l.max_think as nat));
                }
            },
            NextToken::Sample { .. } => {
                if samples.len() > 0 {
                    let t = samples[0];
                    let (s2, a) = accept_spec(s1, l, t);
                    if a == TokenAction::Emit {
                        lemma_think_budget(s2, l, samples.drop_first());
                        let rest = reply_from(s2, l, samples.drop_first());
                        assert(r.drop_first() =~= rest);
                        assert(r[0] == t);
                        if t != TOKEN_THINK && t != TOKEN_THINK_END {
                            assert(run_before_control(r) == 1 + run_before_control(rest));
                        } else {
                            assert(run_before_control(r) == 0);
                        }
                        if s.think_capped && honors_bars(s, l, samples) {
                            assert forall|i: int| 0 <= i < r.len() implies r[i] != TOKEN_THINK by {
                                if i > 0 {
                                    assert(r[i] == rest[i - 1]);
                                }
                            }
                        }
                    } else if a == TokenAction::EmitAndStop {
                        assert(r.drop_first() =~= Seq::<u32>::empty());
                        assert(r =~= seq![t]);
                        assert(r[0] == t);
                        assert(within_think_budget(r.drop_first(), l.max_think as nat));
                        assert(run_before_control(r.drop_first()) == 0);
                        if t != TOKEN_THINK && t != TOKEN_THINK_END {
                            assert(run_before_control(r) == 1);
                        } else {
                            assert(run_before_control(r) == 0);
                        }
                    }
                }
            },
        }
    }
}

/// The reasoning budget holds over a whole turn, whatever the sampler gives: after every
/// `<think>` in the reply at most `max_think` tokens come before the next `<think>` or
/// `</think>`. And with no budget, a sampler that honours the bars never gets `<think>` into
/// the reply.
pub proof fn lemma_reply_keeps_think_budget(l: DecodeLimits, samples: Seq<u32>)
    ensures
        within_think_budget(reply_from(start_spec(l), l, samples), l.max_think as nat),
        l.max_think == 0 && honors_bars(start_spec(l), l, samples) ==> !reply_from(
            start_spec(l),
            l,
            samples,
        ).contains(TOKEN_THINK),
{
    lemma_think_budget(start_spec(l), l, samples);
}

} // verus!
