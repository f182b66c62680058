use bebelm::cli::{parse_agent_options, parse_usize, AgentOptions, OptionsError};

fn args(list: &[&str]) -> Vec<String> {
    list.iter().map(|s| s.to_string()).collect()
}

#[test]
fn parse_usize_reads_like_from_str() {
    assert_eq!(parse_usize("0"), Some(0));
    assert_eq!(parse_usize("42"), Some(42));
    assert_eq!(parse_usize("+7"), Some(7));
    assert_eq!(parse_usize("007"), Some(7));
    assert_eq!(parse_usize(""), None);
    assert_eq!(parse_usize("+"), None);
    assert_eq!(parse_usize("-1"), None);
    assert_eq!(parse_usize(" 1"), None);
    assert_eq!(parse_usize("1e3"), None);
    assert_eq!(parse_usize(&usize::MAX.to_string()), Some(usize::MAX));
    assert_eq!(parse_usize("99999999999999999999999999"), None);
    for s in ["12", "+3", "x", "18446744073709551616", "", "-0"] {
        assert_eq!(parse_usize(s), s.parse::<usize>().ok(), "{s:?}");
    }
}

#[test]
fn flags_set_options_and_the_rest_is_positional() {
    let p = parse_agent_options(&args(&["--greedy", "hello", "--max-gen", "12", "world"])).unwrap();
    assert_eq!(p.options, AgentOptions { max_gen: Some(12), max_think: None, greedy: true });
    assert_eq!(p.positional, ["hello", "world"]);
    assert!(p.num_threads.is_empty());

    let p = parse_agent_options(&args(&["--no-think"])).unwrap();
    assert_eq!(p.options.max_think, Some(0));
    // The later of `--no-think` and `--max-think` wins.
    let p = parse_agent_options(&args(&["--no-think", "--max-think", "5"])).unwrap();
    assert_eq!(p.options.max_think, Some(5));
    let p = parse_agent_options(&args(&["--max-think", "5", "--no-think"])).unwrap();
    assert_eq!(p.options.max_think, Some(0));

    let p = parse_agent_options(&args(&["--num-threads", "4", "-x"])).unwrap();
    assert_eq!(p.num_threads, [4]);
    assert_eq!(p.positional, ["-x"]);
    assert_eq!(parse_agent_options(&[]).unwrap().options, AgentOptions::default());
}

#[test]
fn bad_flags_are_refused() {
    assert_eq!(
        parse_agent_options(&args(&["--max-gen"])).err(),
        Some(OptionsError::MissingValue { flag: "--max-gen".to_string() })
    );
    assert_eq!(
        parse_agent_options(&args(&["--max-think", "lots"])).err(),
        Some(OptionsError::InvalidValue { flag: "--max-think".to_string(), value: "lots".to_string() })
    );
    assert_eq!(parse_agent_options(&args(&["--num-threads", "0"])).err(), Some(OptionsError::ZeroThreads));
    assert_eq!(
        parse_agent_options(&args(&["--verbose"])).err(),
        Some(OptionsError::UnknownOption { option: "--verbose".to_string() })
    );
}
