use proctree::{ParseError, ProcessEvent};

#[test]
fn parses_start() {
    let event = ProcessEvent::parse_line("start 42 1 100 sshd").unwrap();
    assert_eq!(
        event,
        ProcessEvent::Start { pid: 42, ppid: 1, ts: 100, name: "sshd".to_string() }
    );
}

#[test]
fn parses_exit() {
    let event = ProcessEvent::parse_line("exit 42 200").unwrap();
    assert_eq!(event, ProcessEvent::Exit { pid: 42, ts: 200 });
}

#[test]
fn rejects_unknown_kind() {
    assert!(matches!(
        ProcessEvent::parse_line("fork 1 2 3"),
        Err(ParseError::UnknownKind(_))
    ));
}

#[test]
fn unknown_kind_keeps_the_word() {
    match ProcessEvent::parse_line("  fork 1 2 3") {
        Err(ParseError::UnknownKind(kind)) => assert_eq!(kind, "fork"),
        other => panic!("expected an unknown kind, got {other:?}"),
    }
}

#[test]
fn blank_line_is_empty() {
    assert!(matches!(ProcessEvent::parse_line(""), Err(ParseError::Empty)));
    assert!(matches!(ProcessEvent::parse_line(" \t \n"), Err(ParseError::Empty)));
    assert!(matches!(ProcessEvent::parse_line("\u{3000}\u{a0}"), Err(ParseError::Empty)));
}

#[test]
fn missing_fields_are_named_in_order() {
    let cases = [
        ("start", "pid"),
        ("start 1", "ppid"),
        ("start 1 0", "ts"),
        ("start 1 0 5", "name"),
        ("exit", "pid"),
        ("exit 7", "ts"),
    ];
    for (line, field) in cases {
        match ProcessEvent::parse_line(line) {
            Err(ParseError::MissingField(name)) => assert_eq!(name, field),
            other => panic!("{line}: expected missing {field}, got {other:?}"),
        }
    }
}

#[test]
fn bad_numbers_are_rejected() {
    for line in [
        "start x 1 2 a",
        "start 1 -1 2 a",
        "start 1 1 2x a",
        "start 4294967296 1 2 a",
        "exit 1 18446744073709551616",
        "exit + 3",
    ] {
        assert!(
            matches!(ProcessEvent::parse_line(line), Err(ParseError::BadNumber(_))),
            "{line}"
        );
    }
}

#[test]
fn bad_number_is_reported_before_a_later_missing_field() {
    assert!(matches!(ProcessEvent::parse_line("start 1x"), Err(ParseError::BadNumber(_))));
}

#[test]
fn numbers_take_an_optional_plus_and_the_full_range() {
    let event = ProcessEvent::parse_line("start +7 4294967295 18446744073709551615 a").unwrap();
    assert_eq!(
        event,
        ProcessEvent::Start {
            pid: 7,
            ppid: 4294967295,
            ts: 18446744073709551615,
            name: "a".to_string()
        }
    );
}

#[test]
fn fields_split_on_any_whitespace_and_extra_fields_are_ignored() {
    let event = ProcessEvent::parse_line("\tstart  3\u{2003}2 9 my script.sh\r\n").unwrap();
    assert_eq!(
        event,
        ProcessEvent::Start { pid: 3, ppid: 2, ts: 9, name: "my".to_string() }
    );
    let event = ProcessEvent::parse_line("exit 3 10 trailing words").unwrap();
    assert_eq!(event, ProcessEvent::Exit { pid: 3, ts: 10 });
}

#[test]
fn names_may_hold_any_other_characters() {
    let event = ProcessEvent::parse_line("start 1 0 0 démon-ß").unwrap();
    assert_eq!(
        event,
        ProcessEvent::Start { pid: 1, ppid: 0, ts: 0, name: "démon-ß".to_string() }
    );
}

#[test]
fn parse_errors_describe_themselves() {
    assert_eq!(ProcessEvent::parse_line("").unwrap_err().to_string(), "empty line");
    assert_eq!(
        ProcessEvent::parse_line("fork 1").unwrap_err().to_string(),
        "unknown event kind 'fork'"
    );
    assert_eq!(
        ProcessEvent::parse_line("exit 1").unwrap_err().to_string(),
        "missing field 'ts'"
    );
    let text = ProcessEvent::parse_line("exit q 1").unwrap_err().to_string();
    assert!(text.starts_with("bad number: "), "{text}");
}

#[test]
fn int_errors_convert_to_bad_number() {
    let e = "x".parse::<u32>().unwrap_err();
    assert!(matches!(ParseError::from(e), ParseError::BadNumber(_)));
}

#[test]
fn formatted_events_parse_back() {
    for (pid, ppid, ts, name) in [(0u32, 0u32, 0u64, "x"), (u32::MAX, 17, u64::MAX, "n-ü_1")] {
        let line = format!("start {pid} {ppid} {ts} {name}");
        assert_eq!(
            ProcessEvent::parse_line(&line).unwrap(),
            ProcessEvent::Start { pid, ppid, ts, name: name.to_string() }
        );
        let line = format!("exit {pid} {ts}");
        assert_eq!(ProcessEvent::parse_line(&line).unwrap(), ProcessEvent::Exit { pid, ts });
    }
}
