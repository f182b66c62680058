use bebelm::agent::{
    is_stop_token, DecodeLimits, DecodeState, NextToken, StopReason, TokenAction, Transcript,
    DEFAULT_MAX_CONTEXT, DEFAULT_MAX_GEN,
};
use bebelm::tokenizer::{
    byte_to_unicode, Tokenizer, TOKEN_BOS, TOKEN_ENDOFTEXT, TOKEN_EOS, TOKEN_IM_END, TOKEN_IM_START, TOKEN_PAD,
    TOKEN_THINK, TOKEN_THINK_END,
};

/// Drive one turn the way the decode loop does, with `samples` standing in for the sampler.
/// Returns the reply, why it stopped, and each plan the controller made for a sampled token.
fn run(l: DecodeLimits, samples: &[u32]) -> (Vec<u32>, Option<StopReason>, Vec<NextToken>) {
    let mut s = DecodeState::new(&l);
    let mut it = samples.iter();
    let mut reply = Vec::new();
    let mut plans = Vec::new();
    if s.finished {
        return (reply, Some(StopReason::MaxNew), plans);
    }
    loop {
        let plan = s.next_token(&l);
        let t = match plan {
            NextToken::ForceThinkEnd => TOKEN_THINK_END,
            NextToken::Sample { .. } => {
                plans.push(plan);
                match it.next() {
                    Some(&t) => t,
                    None => return (reply, None, plans),
                }
            }
        };
        match s.accept(&l, t) {
            TokenAction::EndTurn => return (reply, Some(StopReason::Eos), plans),
            TokenAction::Emit => reply.push(t),
            TokenAction::EmitAndStop => {
                reply.push(t);
                return (reply, Some(StopReason::MaxNew), plans);
            }
        }
    }
}

fn limits(max_gen: usize, max_think: usize) -> DecodeLimits {
    DecodeLimits { max_gen, max_think, eos: TOKEN_EOS }
}

#[test]
fn eos_ends_the_turn_unemitted() {
    let (reply, stop, _) = run(limits(10, usize::MAX), &[5, 6, TOKEN_EOS, 7]);
    assert_eq!(reply, [5, 6]);
    assert_eq!(stop, Some(StopReason::Eos));
}

#[test]
fn boundary_tokens_end_the_turn() {
    for t in [TOKEN_ENDOFTEXT, TOKEN_BOS, TOKEN_PAD, TOKEN_IM_START] {
        assert!(is_stop_token(t));
        let (reply, stop, _) = run(limits(10, usize::MAX), &[5, t, 6]);
        assert_eq!(reply, [5]);
        assert_eq!(stop, Some(StopReason::Eos));
    }
    assert!(!is_stop_token(TOKEN_THINK));
    assert!(!is_stop_token(5));
}

#[test]
fn max_gen_caps_the_reply() {
    let (reply, stop, _) = run(limits(2, usize::MAX), &[5, 6, 7, 8]);
    assert_eq!(reply, [5, 6]);
    assert_eq!(stop, Some(StopReason::MaxNew));
    // A zero cap allows no token at all.
    let (reply, stop, plans) = run(limits(0, usize::MAX), &[5, 6]);
    assert!(reply.is_empty());
    assert!(plans.is_empty());
    assert_eq!(stop, Some(StopReason::MaxNew));
}

#[test]
fn spent_reasoning_budget_forces_think_end() {
    let (reply, stop, plans) = run(limits(100, 2), &[TOKEN_THINK, 10, 11, 12, TOKEN_EOS]);
    assert_eq!(reply, [TOKEN_THINK, 10, 11, TOKEN_THINK_END, 12]);
    assert_eq!(stop, Some(StopReason::Eos));
    // After the forced `</think>`, `<think>` stays barred and the next token may not end the turn.
    assert_eq!(plans[3], NextToken::Sample { bar_think: true, bar_turn_end: true });
    assert_eq!(plans[4], NextToken::Sample { bar_think: true, bar_turn_end: false });
}

#[test]
fn sampled_think_end_bars_turn_enders_once() {
    let (reply, _, plans) = run(limits(100, usize::MAX), &[TOKEN_THINK, 10, TOKEN_THINK_END, 11, 12]);
    assert_eq!(reply, [TOKEN_THINK, 10, TOKEN_THINK_END, 11, 12]);
    assert_eq!(plans[3], NextToken::Sample { bar_think: false, bar_turn_end: true });
    assert_eq!(plans[4], NextToken::Sample { bar_think: false, bar_turn_end: false });
}

#[test]
fn no_think_budget_bars_think_from_the_start() {
    let (_, _, plans) = run(limits(100, 0), &[5, 6]);
    assert!(plans.iter().all(|p| *p == NextToken::Sample { bar_think: true, bar_turn_end: false }));
}

fn toy() -> Tokenizer {
    let byte_encoder = byte_to_unicode();
    let vocab: Vec<(String, u32)> = (0u32..256).map(|b| (byte_encoder[b as usize].to_string(), b)).collect();
    Tokenizer::from_parts(
        Vec::new(),
        vocab,
        Vec::new(),
        vec![("<|im_start|>".to_string(), TOKEN_IM_START), ("<|im_end|>".to_string(), TOKEN_IM_END)],
        TOKEN_BOS,
        TOKEN_IM_END,
    )
}

#[test]
fn transcript_adds_bos_once_and_frames_turns() {
    let tok = toy();
    let mut t = Transcript::new();
    t.append(&tok, "hi");
    assert_eq!(t.history(), [TOKEN_BOS, b'h' as u32, b'i' as u32]);
    t.append(&tok, "!");
    assert_eq!(t.history().len(), 4);
    t.append_tokens(&[7, 8]);
    assert_eq!(&t.history()[4..], [7, 8]);
    t.clear();
    t.append_user(&tok, "x");
    let mut want = vec![TOKEN_BOS, TOKEN_IM_START];
    want.extend("user\nx".bytes().map(u32::from));
    want.push(TOKEN_IM_END);
    want.push(b'\n' as u32);
    assert_eq!(t.history(), want.as_slice());
    let before = t.history().len();
    t.open_assistant(&tok);
    t.push(42);
    t.close_assistant(&tok);
    let mut tail = vec![TOKEN_IM_START];
    tail.extend("assistant\n".bytes().map(u32::from));
    tail.extend([42, TOKEN_IM_END, b'\n' as u32]);
    assert_eq!(&t.history()[before..], tail.as_slice());
}
