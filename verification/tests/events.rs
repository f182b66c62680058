use bebelm::events::{event_types, stream_run, ActiveBlock, BebelStreamEvent, StopReason, StreamState};
use bebelm::tokenizer::{TOKEN_THINK, TOKEN_THINK_END, TOKEN_TOOL_CALL_END, TOKEN_TOOL_CALL_START};

fn kinds(evs: &[BebelStreamEvent]) -> Vec<&'static str> {
    evs.iter().map(|e| e.event_type).collect()
}

#[test]
fn text_thinking_and_done() {
    let mut s = StreamState::new(true);
    let mut all = s.start();
    all.extend(s.token(0, 10, "Hel"));
    all.extend(s.token(1, 11, "lo"));
    all.extend(s.token(2, TOKEN_THINK, "<think>"));
    all.extend(s.token(3, 12, "hmm"));
    all.extend(s.token(4, TOKEN_THINK_END, "</think>"));
    all.extend(s.finish(StopReason::Eos, "Hello", 5));
    assert_eq!(
        kinds(&all),
        vec![
            "start",
            "text_start",
            "text_delta",
            "text_delta",
            "text_end",
            "thinking_start",
            "thinking_delta",
            "thinking_end",
            "done"
        ]
    );
    assert_eq!(all[4].content.as_deref(), Some("Hello"));
    assert_eq!(all[7].content.as_deref(), Some("hmm"));
    assert_eq!(all[7].marker.as_deref(), Some("</think>"));
    assert_eq!(all[8].stop, Some("eos"));
    assert_eq!(all[8].generated_tokens, Some(5));
}

#[test]
fn end_marker_without_start_closes_an_empty_block() {
    let mut s = StreamState::new(true);
    let mut all = s.token(0, 7, "x");
    all.extend(s.token(1, TOKEN_TOOL_CALL_END, "<|tool_call_end|>"));
    assert_eq!(kinds(&all), vec!["text_start", "text_delta", "text_end", "tool_call_end"]);
    assert_eq!(all[2].content.as_deref(), Some("x"));
    assert_eq!(all[3].content.as_deref(), Some(""));
}

#[test]
fn finish_closes_open_tool_call() {
    let mut s = StreamState::new(true);
    let mut all = s.token(0, TOKEN_TOOL_CALL_START, "<|tool_call_start|>");
    all.extend(s.token(1, 5, "[f()]"));
    all.extend(s.finish(StopReason::ToolCall, "[f()]", 2));
    assert_eq!(kinds(&all), vec!["tool_call_start", "tool_call_delta", "tool_call_end", "done"]);
    assert_eq!(all[2].content.as_deref(), Some("[f()]"));
    assert_eq!(all[3].stop, Some("tool_call"));
}

#[test]
fn no_sink_means_no_events() {
    let mut s = StreamState::new(false);
    assert!(s.start().is_empty());
    assert!(s.token(0, 1, "a").is_empty());
    assert!(s.finish(StopReason::MaxNew, "", 0).is_empty());
    assert!(!s.has_sink());
}

#[test]
fn event_names() {
    assert_eq!(event_types().len(), 14);
    assert_eq!(event_types()[0], "start");
    assert_eq!(event_types()[13], "done");
    assert_eq!(ActiveBlock::Thinking.start_event(), Some("thinking_start"));
    assert_eq!(ActiveBlock::Idle.end_event(), None);
    assert_eq!(ActiveBlock::ToolList.delta_event(), Some("tool_list_delta"));
}

#[test]
fn a_whole_run_is_well_formed() {
    let toks: Vec<(usize, u32, String)> = vec![
        (0, TOKEN_THINK, "<think>".to_string()),
        (1, 10, "hmm".to_string()),
        (2, TOKEN_THINK_END, "</think>".to_string()),
        (3, 11, "Hi".to_string()),
        (4, 12, "!".to_string()),
    ];
    let evs = stream_run(&toks, StopReason::MaxNew, "Hi!", 5);
    assert_eq!(
        kinds(&evs),
        vec![
            "start",
            "thinking_start",
            "thinking_delta",
            "thinking_end",
            "text_start",
            "text_delta",
            "text_delta",
            "text_end",
            "done"
        ]
    );
    assert_eq!(evs[3].content.as_deref(), Some("hmm"));
    assert_eq!(evs[7].content.as_deref(), Some("Hi!"));
    let listed = event_types();
    assert!(evs.iter().all(|e| listed.contains(&e.event_type)));
    assert_eq!(evs[8].stop, Some("max_new"));
}
