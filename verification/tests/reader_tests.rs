use proctree::{EventReader, LineRead, ProcessEvent, ReadError, ReaderStep};

/// Feeds `input` to an [`EventReader`] one line at a time, the way
/// `BufRead::read_line` hands lines out (line break included).
struct LineFeed<'a> {
    rest: &'a str,
    reader: EventReader,
}

impl<'a> LineFeed<'a> {
    fn new(input: &'a str) -> Self {
        LineFeed { rest: input, reader: EventReader::new() }
    }

    fn next_event(&mut self) -> Option<Result<ProcessEvent, ReadError>> {
        loop {
            let read = if self.rest.is_empty() {
                LineRead::End
            } else {
                let end = self.rest.find('\n').map(|i| i + 1).unwrap_or(self.rest.len());
                let (line, rest) = self.rest.split_at(end);
                self.rest = rest;
                LineRead::Line(line)
            };
            match self.reader.next_event(read) {
                ReaderStep::Yield(result) => return result,
                ReaderStep::ReadAgain => continue,
            }
        }
    }
}

#[test]
fn reads_events_and_skips_blank_lines() {
    let input = "start 1 0 0 init\n\nstart 2 1 5 sshd\nexit 2 10\n";
    let mut reader = LineFeed::new(input);

    assert!(matches!(reader.next_event(), Some(Ok(ProcessEvent::Start { pid: 1, .. }))));
    assert!(matches!(reader.next_event(), Some(Ok(ProcessEvent::Start { pid: 2, .. }))));
    assert!(matches!(reader.next_event(), Some(Ok(ProcessEvent::Exit { pid: 2, .. }))));
    assert!(reader.next_event().is_none());
}

#[test]
fn reports_line_number_on_bad_input() {
    let input = "start 1 0 0 init\nnonsense\n";
    let mut reader = LineFeed::new(input);

    reader.next_event().unwrap().unwrap();
    match reader.next_event() {
        Some(Err(ReadError::Parse { line, .. })) => assert_eq!(line, 2),
        other => panic!("expected a parse error on line 2, got {other:?}"),
    }
}

#[test]
fn blank_lines_count_toward_line_numbers() {
    let mut reader = LineFeed::new("\n  \n\t\nexit\n");
    match reader.next_event() {
        Some(Err(ReadError::Parse { line, .. })) => assert_eq!(line, 4),
        other => panic!("expected a parse error on line 4, got {other:?}"),
    }
    assert_eq!(reader.reader.line_no(), 4);
    assert!(reader.next_event().is_none());
}

#[test]
fn last_line_without_a_break_is_read() {
    let mut reader = LineFeed::new("exit 9 1");
    assert!(matches!(reader.next_event(), Some(Ok(ProcessEvent::Exit { pid: 9, ts: 1 }))));
    assert!(reader.next_event().is_none());
}

#[test]
fn each_step_of_the_reader() {
    let mut reader = EventReader::new();
    assert_eq!(reader.line_no(), 0);
    assert!(matches!(reader.next_event(LineRead::Line("   \n")), ReaderStep::ReadAgain));
    assert_eq!(reader.line_no(), 1);
    assert!(matches!(
        reader.next_event(LineRead::Line("start 5 1 2 cron\n")),
        ReaderStep::Yield(Some(Ok(ProcessEvent::Start { pid: 5, ppid: 1, ts: 2, .. })))
    ));
    assert_eq!(reader.line_no(), 2);
    let error = std::io::Error::new(std::io::ErrorKind::Other, "disk on fire");
    match reader.next_event(LineRead::Failed(error)) {
        ReaderStep::Yield(Some(Err(ReadError::Io(e)))) => {
            assert_eq!(e.to_string(), "disk on fire")
        }
        _ => panic!("expected the I/O error back"),
    }
    assert_eq!(reader.line_no(), 2);
    assert!(matches!(reader.next_event(LineRead::End), ReaderStep::Yield(None)));
    assert_eq!(reader.line_no(), 2);
}

#[test]
fn read_errors_describe_themselves() {
    let mut reader = EventReader::new();
    for _ in 0..11 {
        reader.next_event(LineRead::Line("\n"));
    }
    match reader.next_event(LineRead::Line("exit 1\n")) {
        ReaderStep::Yield(Some(Err(error))) => {
            assert_eq!(error.to_string(), "line 12: missing field 'ts'")
        }
        _ => panic!("expected a parse error"),
    }
    let error = ReadError::Io(std::io::Error::new(std::io::ErrorKind::Other, "gone"));
    assert_eq!(error.to_string(), "io error: gone");
}
