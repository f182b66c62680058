use bebelm::tui::{
    bool_env, command_endpoint, endpoint, format_command_infos, is_remote_slash,
    local_command_catalog, next_arg, plot_path_from_text, png_artifact_text, rpc_endpoint,
    stream_endpoint, CommandInfo,
};

#[test]
fn endpoints() {
    assert_eq!(endpoint("http://h:1//", "/rpc"), "http://h:1/rpc");
    assert_eq!(rpc_endpoint("http://h:1/rpc"), "http://h:1/rpc");
    assert_eq!(rpc_endpoint("http://h:1/rpc/"), "http://h:1/rpc");
    assert_eq!(command_endpoint("http://h:1"), "http://h:1/command");
    assert_eq!(stream_endpoint("http://h:1", 0), "http://h:1/stream");
    assert_eq!(stream_endpoint("http://h:1/stream", 42), "http://h:1/stream?since=42");
    assert_eq!(bool_env(true), "true");
    assert_eq!(bool_env(false), "false");
}

#[test]
fn slash_commands() {
    assert!(is_remote_slash("/help"));
    assert!(!is_remote_slash("//not"));
    assert!(!is_remote_slash("hello"));
    assert!(is_remote_slash("/"));
    assert!(!is_remote_slash(""));
}

#[test]
fn plot_paths() {
    assert_eq!(
        plot_path_from_text("done.\nPlot saved to:  /tmp/a.png \nmore"),
        Some("/tmp/a.png".to_string())
    );
    assert_eq!(plot_path_from_text("Plot saved to: /tmp/a.svg"), None);
    assert_eq!(plot_path_from_text("nothing here"), None);
    assert_eq!(plot_path_from_text("Plot saved to:\n\n  x.png\r\n"), Some("x.png".to_string()));
}

#[test]
fn png_artifacts() {
    assert_eq!(
        png_artifact_text("/tmp/p.png", Some("plot"), None),
        "/plot: image/png\n/tmp/p.png\nPreview unavailable; open the PNG path above."
    );
    assert_eq!(
        png_artifact_text("/tmp/p.png", None, Some("##".to_string())),
        "image/png: /tmp/p.png\n##\nPreview: monochrome terminal thumbnail; open the PNG path above for full fidelity."
    );
}

#[test]
fn command_lists() {
    let local = local_command_catalog();
    assert_eq!(local.len(), 3);
    assert_eq!(
        format_command_infos("Local", &local),
        "Local:\n- /quit - Quit the TUI.\n- /exit - Quit the TUI.\n- /q - Quit the TUI."
    );
    assert_eq!(format_command_infos("Remote", &[]), "Remote\n(none)");
    let bare = CommandInfo { name: "x".to_string(), description: String::new(), usage: String::new() };
    assert_eq!(format_command_infos("T", &[bare]), "T:\n- /x");
}

#[test]
fn flag_values() {
    assert_eq!(next_arg(Some("3".to_string()), "--rows"), Ok("3".to_string()));
    assert_eq!(next_arg(None, "--rows"), Err("--rows requires a value".to_string()));
}
