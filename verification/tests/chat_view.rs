use bebelm::chat_view::{ChatView, LoopEffect, LoopEvent, ModelEvent, StreamRecord, SubmitAction};
use bebelm::tui::CommandInfo;

fn roles(v: &ChatView) -> Vec<&'static str> {
    v.messages.iter().map(|m| m.role).collect()
}

fn cmd(name: &str, description: &str, usage: &str) -> CommandInfo {
    CommandInfo { name: name.to_string(), description: description.to_string(), usage: usage.to_string() }
}

#[test]
fn a_new_view_is_connecting() {
    let v = ChatView::new();
    assert!(v.messages.is_empty());
    assert_eq!(v.status, "Connecting... /help or Tab after / for commands; /quit exits");
    assert_eq!(v.observed_state, "unknown");
    assert!(!v.command_in_flight && !v.should_quit);
}

#[test]
fn streamed_deltas_join_their_message() {
    let mut v = ChatView::new();
    v.apply_model_event(ModelEvent::ThinkingStart);
    v.apply_model_event(ModelEvent::ThinkingDelta { delta: "hmm".to_string() });
    v.apply_model_event(ModelEvent::ThinkingDelta { delta: "...".to_string() });
    v.apply_model_event(ModelEvent::TextStart);
    assert_eq!(v.busy_label, "Streaming answer...");
    v.apply_model_event(ModelEvent::TextDelta { delta: "Hi".to_string() });
    v.apply_model_event(ModelEvent::TextDelta { delta: String::new() });
    v.apply_model_event(ModelEvent::TextDelta { delta: " there".to_string() });
    // A delta for another role after the answer starts a message of its own.
    v.apply_model_event(ModelEvent::ToolCallDelta { delta: "[f()]".to_string() });
    v.apply_model_event(ModelEvent::Done);
    assert_eq!(roles(&v), ["thinking", "assistant", "tool_call"]);
    assert_eq!(v.messages[0].text, "hmm...");
    assert_eq!(v.messages[1].text, "Hi there");
    assert_eq!(v.messages[2].text, "[f()]");
    assert_eq!(v.status, "model done");
}

#[test]
fn loop_events_update_status_labels_and_messages() {
    let mut v = ChatView::new();
    v.begin_busy("Waiting for R/model prefill...");
    let e = v.apply_loop_event(Some(7), LoopEvent::StateChange { to: "generating".to_string() });
    assert_eq!(e, LoopEffect::SetSnapshotState("generating".to_string()));
    assert_eq!(v.busy_label, "Prefilling prompt / waiting for first token...");
    assert_eq!(v.status, "state: generating");
    assert_eq!(v.observed_state, "generating");
    assert_eq!(v.last_event_seq, Some(7));
    v.apply_loop_event(None, LoopEvent::StateChange { to: "paused".to_string() });
    assert_eq!(v.busy_label, "state: paused");
    assert_eq!(v.last_event_seq, Some(7));

    assert_eq!(v.apply_loop_event(None, LoopEvent::ToolRequest { name: "sum".to_string() }), LoopEffect::CountToolCall);
    assert_eq!(v.busy_label, "Running tool sum...");
    v.apply_loop_event(
        None,
        LoopEvent::ToolResult { name: "sum".to_string(), result: "3".to_string(), preview: None },
    );
    v.apply_loop_event(None, LoopEvent::ToolError { name: "sum".to_string(), message: "denied".to_string() });
    v.apply_loop_event(
        None,
        LoopEvent::CommandEnd { name: "plot".to_string(), result: "Plot saved to: /tmp/p.png".to_string(), preview: None },
    );
    v.apply_loop_event(None, LoopEvent::CommandError { name: "x".to_string(), message: "bad".to_string() });
    assert_eq!(roles(&v), ["tool", "tool", "error", "artifact", "error"]);
    assert_eq!(v.messages[0].text, "request: sum");
    assert_eq!(v.messages[1].text, "result sum: 3");
    assert_eq!(v.messages[2].text, "sum: denied");
    assert_eq!(v.messages[3].text, "/plot: image/png\n/tmp/p.png\nPreview unavailable; open the PNG path above.");
    assert_eq!(v.messages[4].text, "/x: bad");

    assert_eq!(v.apply_loop_event(None, LoopEvent::TurnEnd), LoopEffect::CountTurn);
    assert_eq!(v.apply_loop_event(None, LoopEvent::CatalogChanged), LoopEffect::RefreshCatalog);
    v.catalog_refreshed();
    assert_eq!(v.status, "Command catalog refreshed");
    v.apply_loop_event(None, LoopEvent::MessageStart { source: Some("user".to_string()) });
    assert_eq!(v.status, "message: user");
    v.apply_loop_event(None, LoopEvent::LoopEnd);
    assert_eq!(v.status, "loop ended");
}

#[test]
fn records_end_commands_and_report_results() {
    let mut v = ChatView::new();
    v.apply_record(StreamRecord::Open { state_name: Some("idle".to_string()), seq: Some(3) });
    assert_eq!(v.observed_state, "idle");
    assert_eq!(v.last_event_seq, Some(3));
    assert_eq!(v.status, "Connected. /help or Tab after / for commands; /quit exits");

    v.begin_busy("Executing slash command...");
    v.apply_record(StreamRecord::CommandResult { is_command_result: true, accepted: Some(false), text: None });
    assert!(!v.command_in_flight);
    assert_eq!(v.status, "Ready");
    assert_eq!(v.messages.last().unwrap().text, "Unknown slash command. Try /help or press Tab after /.");

    // A turn's reply text is shown unless the answer was already streamed.
    v.apply_record(StreamRecord::CommandResult { is_command_result: false, accepted: None, text: Some("Paris".to_string()) });
    assert_eq!(v.messages.last().unwrap().role, "assistant");
    let n = v.messages.len();
    v.apply_record(StreamRecord::CommandResult { is_command_result: false, accepted: None, text: Some("Paris".to_string()) });
    assert_eq!(v.messages.len(), n);

    v.apply_record(StreamRecord::ClientError { message: "refused".to_string() });
    assert_eq!(v.status, "Client error");
    assert_eq!(v.messages.last().unwrap().text, "refused");
    v.apply_record(StreamRecord::Unhandled { kind: "ping".to_string() });
    assert_eq!(v.status, "Unhandled stream record: ping");
    let e = v.apply_record(StreamRecord::Event { seq: Some(9), event: LoopEvent::TurnEnd });
    assert_eq!(e, LoopEffect::CountTurn);
    assert_eq!(v.last_event_seq, Some(9));
}

#[test]
fn submit_sends_turns_and_handles_local_commands() {
    let mut v = ChatView::new();
    assert_eq!(v.submit("   ", &[]), SubmitAction::Nothing);
    assert_eq!(v.status, "Prompt is empty");
    assert_eq!(v.submit("  hello  ", &[]), SubmitAction::RunTurn("hello".to_string()));
    assert!(v.command_in_flight);
    assert_eq!(v.status, "Waiting for R/model prefill...");
    assert_eq!(v.submit("again", &[]), SubmitAction::Nothing);
    assert_eq!(v.status, "Command already in flight; wait or use steer/followUp later");
    assert_eq!(v.submit("/STATE now", &[]), SubmitAction::ShowState);
    v.submit("/help", &[cmd("model", "Show the model.", "/model")]);
    assert_eq!(
        v.messages.last().unwrap().text,
        "Slash commands (cached):\n- /model - Show the model.\n- /quit - Quit the TUI.\n- /exit - Quit the TUI.\n- /q - Quit the TUI."
    );
    v.end_busy("Ready");
    assert_eq!(v.submit("/tools list", &[]), SubmitAction::RunCommand("/tools list".to_string()));
    assert_eq!(v.status, "Executing slash command...");
    assert_eq!(v.submit("/Quit", &[]), SubmitAction::Quit);
    assert!(v.should_quit);
    assert_eq!(roles(&v), ["user", "command", "user"]);
}

#[test]
fn tab_completes_slash_commands() {
    let catalog = [cmd("model", "Show the model.", "/model"), cmd("mode", "Set a mode.", "/mode NAME")];
    let mut v = ChatView::new();
    assert_eq!(v.complete_slash("hello", &catalog), None);
    assert_eq!(v.status, "Tab completion is for slash commands");
    assert_eq!(v.complete_slash("/e", &catalog), Some("/exit ".to_string()));
    assert_eq!(v.status, "/exit — Quit the TUI.");
    assert_eq!(v.complete_slash("/mod", &catalog), None);
    assert_eq!(v.status, "Commands: /model /mode");
    assert_eq!(v.complete_slash("/zz", &catalog), None);
    assert_eq!(v.status, "No command matches /zz");
    assert_eq!(v.complete_slash("/", &catalog), None);
    assert_eq!(v.status, "Commands: /model /mode /quit /exit /q");
    v.clear();
    assert_eq!(v.status, "Local screen cleared");
}
