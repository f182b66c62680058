use bebelm::tool::{render_system_turn, ToolListMismatch};
use bebelm::tool::{parse_tool_calls, Schema, Tool, ToolCall, Type};

fn noop(_: &ToolCall) -> String {
    String::new()
}

#[test]
fn schema_renders_typed_properties_and_required() {
    let s = Tool::new(
        "get_weather",
        "Current weather for a city.",
        Schema::new().req("city", Type::Str, "City to look up").opt("units", Type::Str, "C or F"),
        |_: &ToolCall| String::new(),
    );
    assert_eq!(
        s.schema(),
        r#"{"name":"get_weather","description":"Current weather for a city.","parameters":{"type":"object","properties":{"city":{"type":"string","description":"City to look up"},"units":{"type":"string","description":"C or F"}},"required":["city"]}}"#
    );
}

#[test]
fn schema_escapes_json_special_chars() {
    let t = Tool::new("q", "Say \"hi\"\nnow", Schema::new(), |_: &ToolCall| String::new());
    assert_eq!(
        t.schema(),
        r#"{"name":"q","description":"Say \"hi\"\nnow","parameters":{"type":"object","properties":{},"required":[]}}"#
    );
}

#[test]
fn schema_renders_all_types() {
    let t = Tool::new(
        "f",
        "d",
        Schema::new().req("a", Type::Int, "i").req("b", Type::Num, "n").req("c", Type::Bool, "b"),
        |_: &ToolCall| String::new(),
    );
    assert!(t.schema().contains(r#""a":{"type":"integer""#));
    assert!(t.schema().contains(r#""b":{"type":"number""#));
    assert!(t.schema().contains(r#""c":{"type":"boolean""#));
}

#[test]
fn parse_single_call_with_string_arg() {
    let calls = parse_tool_calls("[get_weather(city='Paris')]");
    assert_eq!(calls.len(), 1);
    assert_eq!(calls[0].name, "get_weather");
    assert_eq!(calls[0].arg("city"), Some("Paris"));
    assert_eq!(calls[0].raw, "get_weather(city='Paris')");
}

#[test]
fn parse_multiple_calls_and_arg_types() {
    let calls = parse_tool_calls("[get_weather(city='Paris', units='celsius'), add(a=21, b=21)]");
    assert_eq!(calls.len(), 2);
    assert_eq!(calls[0].arg("city"), Some("Paris"));
    assert_eq!(calls[0].arg("units"), Some("celsius"));
    assert_eq!(calls[1].name, "add");
    assert_eq!(calls[1].arg("a"), Some("21"));
    assert_eq!(calls[1].arg("b"), Some("21"));
    assert_eq!(calls[0].arg("missing"), None);
}

#[test]
fn parse_arg_parses_into_receiver_type() {
    let calls = parse_tool_calls("[add(a=21, b='oops', big=4000000000, r=2.5)]");
    assert_eq!(calls[0].parse_arg::<i64>("a"), Some(21));
    assert_eq!(calls[0].parse_arg::<u8>("a"), Some(21));
    assert_eq!(calls[0].parse_arg::<f32>("r"), Some(2.5));
    assert_eq!(calls[0].parse_arg::<u32>("b"), None);
    assert_eq!(calls[0].parse_arg::<i64>("missing"), None);
    assert_eq!(calls[0].parse_arg::<u8>("big"), None);
    assert_eq!(calls[0].parse_arg::<u64>("big"), Some(4_000_000_000));
}

#[test]
fn parse_bool_and_double_quoted() {
    let calls = parse_tool_calls(r#"[set(flag=True, name="Bob")]"#);
    assert_eq!(calls[0].arg("flag"), Some("True"));
    assert_eq!(calls[0].arg("name"), Some("Bob"));
}

#[test]
fn parse_keeps_dict_and_list_values_verbatim() {
    let calls = parse_tool_calls("[f(d={'k': 1, 'n': 2}, xs=[1, 2, 3])]");
    assert_eq!(calls[0].arg("d"), Some("{'k': 1, 'n': 2}"));
    assert_eq!(calls[0].arg("xs"), Some("[1, 2, 3]"));
}

#[test]
fn parse_unescapes_quoted_strings() {
    let calls = parse_tool_calls(r#"[note(text='line1\nline2', q='it\'s')]"#);
    assert_eq!(calls[0].arg("text"), Some("line1\nline2"));
    assert_eq!(calls[0].arg("q"), Some("it's"));
}

#[test]
fn parse_works_without_outer_brackets_and_no_args() {
    let calls = parse_tool_calls("now()");
    assert_eq!(calls.len(), 1);
    assert_eq!(calls[0].name, "now");
    assert!(calls[0].arg("anything").is_none());
}

#[test]
fn parse_empty_or_garbage_yields_no_calls() {
    assert!(parse_tool_calls("").is_empty());
    assert!(parse_tool_calls("   ").is_empty());
    assert!(parse_tool_calls("[]").is_empty());
}

#[test]
fn tool_raw_keeps_schema_and_invokes_nothing_else() {
    let t = Tool::raw("echo", "{\"name\":\"echo\"}", noop);
    assert_eq!(t.name(), "echo");
    assert_eq!(t.schema(), "{\"name\":\"echo\"}");
}

#[test]
fn control_characters_escape_as_unicode() {
    let t = Tool::new("x", "a\u{1}b\tc\\", Schema::new(), noop);
    assert!(t.schema().contains(r#""description":"a\u0001b\tc\\""#));
}

#[test]
fn args_keep_call_order_and_first_duplicate_wins() {
    let calls = parse_tool_calls("f(a=1, b = 'two' , a=3)");
    let args = calls[0].args();
    assert_eq!(args.len(), 3);
    assert_eq!(args[0], ("a".to_string(), "1".to_string()));
    assert_eq!(args[1], ("b".to_string(), "two".to_string()));
    assert_eq!(calls[0].arg("a"), Some("1"));
    assert_eq!(calls[0].raw, "f(a=1, b = 'two' , a=3)");
}

#[test]
fn text_after_the_list_is_not_a_call() {
    let calls = parse_tool_calls("[a(), b()] trailing");
    assert_eq!(calls.len(), 2);
    let calls = parse_tool_calls("a() !b()");
    assert_eq!(calls.len(), 1);
}

#[test]
fn system_turn_lists_tool_declarations() {
    let names = vec!["add".to_string(), "now".to_string()];
    let schemas = vec!["{\"name\":\"add\"}".to_string(), "{\"name\":\"now\"}".to_string()];
    assert_eq!(
        render_system_turn("Be brief.", &names, &schemas).unwrap(),
        "<|im_start|>system\nList of tools: [{\"name\":\"add\"}, {\"name\":\"now\"}]\n\nBe brief.<|im_end|>\n"
    );
    assert_eq!(render_system_turn("Hi", &[], &[]).unwrap(), "<|im_start|>system\nHi<|im_end|>\n");
    assert_eq!(render_system_turn("Hi", &names, &schemas[..1]), Err(ToolListMismatch));
}

#[test]
fn parser_stops_where_an_argument_reads_as_nothing() {
    // A `]` where an argument should start ends the call there instead of spinning.
    let calls = parse_tool_calls("[f(]");
    assert_eq!(calls.len(), 1);
    assert_eq!(calls[0].name, "f");
    assert!(calls[0].args().is_empty());
    assert_eq!(calls[0].raw, "f(");
    let calls = parse_tool_calls("f(a=1, }) g(b=2)");
    assert_eq!(calls.len(), 1);
    assert_eq!(calls[0].arg("a"), Some("1"));
}

#[test]
fn parser_keeps_an_unclosed_literal_to_the_end() {
    // A backslash at the very end of a quoted string inside `{…}` does not read past the input.
    let calls = parse_tool_calls("f(d={'\\");
    assert_eq!(calls.len(), 1);
    assert_eq!(calls[0].arg("d"), Some("{'\\"));
    let calls = parse_tool_calls("f(d=[1, 2");
    assert_eq!(calls[0].arg("d"), Some("[1, 2"));
}

fn escape_single_quoted(v: &str) -> String {
    let mut out = String::new();
    for ch in v.chars() {
        if ch == '\\' || ch == '\'' {
            out.push('\\');
        }
        out.push(ch);
    }
    out
}

#[test]
fn parsing_reads_back_a_rendered_call_list() {
    let calls: Vec<(&str, Vec<(&str, &str)>)> = vec![
        ("get_weather", vec![("city", "Paris"), ("unit", "it's \\ cold")]),
        ("now", vec![]),
        ("math.add", vec![("a", "1"), ("b", "{'x': [2]}")]),
    ];
    let rendered: Vec<String> = calls
        .iter()
        .map(|(name, args)| {
            let args: Vec<String> =
                args.iter().map(|(k, v)| format!("{k}='{}'", escape_single_quoted(v))).collect();
            format!("{name}({})", args.join(", "))
        })
        .collect();
    let text = format!("[{}]", rendered.join(", "));
    let parsed = parse_tool_calls(&text);
    assert_eq!(parsed.len(), calls.len());
    for (p, (name, args)) in parsed.iter().zip(&calls) {
        assert_eq!(p.name, *name);
        let got: Vec<(&str, &str)> = p.args().iter().map(|(k, v)| (k.as_str(), v.as_str())).collect();
        assert_eq!(got, *args);
    }
}
