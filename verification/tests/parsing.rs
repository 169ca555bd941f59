use job_distributor::text::{blank, parse_record, ParseError};
use job_distributor::workers::{Action, Event};
use job_distributor::{parse_worker_config, Job, JobStream, Manager, Worker, WorkerConfig};

/// What the standard library makes of a line.
fn by_std(line: &str) -> Result<(u16, u32), ParseError> {
    let mut parts = line.split_whitespace();
    let a = parts.next().ok_or(ParseError::MissingNumber)?;
    let a: u16 = a.parse().map_err(|_| ParseError::NotANumber)?;
    let b = parts.next().ok_or(ParseError::MissingNumber)?;
    let b: u32 = b.parse().map_err(|_| ParseError::NotANumber)?;
    Ok((a, b))
}

fn lines(text: &[&str]) -> Vec<String> {
    text.iter().map(|line| line.to_string()).collect()
}

#[test]
fn a_record_is_two_numbers() {
    assert_eq!(parse_record("3 4"), Ok((3, 4)));
    assert_eq!(parse_record("3 4\n"), Ok((3, 4)));
    assert_eq!(parse_record("  12\t\t345  \r\n"), Ok((12, 345)));
    assert_eq!(parse_record("0 0"), Ok((0, 0)));
}

#[test]
fn what_follows_the_second_number_is_ignored() {
    assert_eq!(parse_record("1 2 3"), Ok((1, 2)));
    assert_eq!(parse_record("1 2 not a number at all"), Ok((1, 2)));
}

#[test]
fn numbers_may_have_a_plus_sign_and_leading_zeros() {
    assert_eq!(parse_record("+5 +6"), Ok((5, 6)));
    assert_eq!(parse_record("0007 000000000000000000000000012"), Ok((7, 12)));
    assert_eq!(parse_record("+00 +000"), Ok((0, 0)));
}

#[test]
fn numbers_are_bounded_by_their_types() {
    assert_eq!(parse_record("65535 4294967295"), Ok((65535, 4294967295)));
    assert_eq!(parse_record("65536 1"), Err(ParseError::NotANumber));
    assert_eq!(parse_record("1 4294967296"), Err(ParseError::NotANumber));
    assert_eq!(parse_record("1 99999999999999999999999999999999"), Err(ParseError::NotANumber));
    assert_eq!(parse_record("70000 70000"), Err(ParseError::NotANumber));
    assert_eq!(parse_record("1 70000"), Ok((1, 70000)));
}

#[test]
fn a_missing_field_is_reported() {
    assert_eq!(parse_record(""), Err(ParseError::MissingNumber));
    assert_eq!(parse_record("   \n"), Err(ParseError::MissingNumber));
    assert_eq!(parse_record("17"), Err(ParseError::MissingNumber));
    assert_eq!(parse_record("17 \n"), Err(ParseError::MissingNumber));
}

#[test]
fn a_field_that_is_no_number_is_reported() {
    assert_eq!(parse_record("a 1"), Err(ParseError::NotANumber));
    assert_eq!(parse_record("1 b"), Err(ParseError::NotANumber));
    assert_eq!(parse_record("-1 2"), Err(ParseError::NotANumber));
    assert_eq!(parse_record("1 -2"), Err(ParseError::NotANumber));
    assert_eq!(parse_record("+ 2"), Err(ParseError::NotANumber));
    assert_eq!(parse_record("++1 2"), Err(ParseError::NotANumber));
    assert_eq!(parse_record("1+ 2"), Err(ParseError::NotANumber));
    assert_eq!(parse_record("1 2x"), Err(ParseError::NotANumber));
    assert_eq!(parse_record("1_0 2"), Err(ParseError::NotANumber));
    assert_eq!(parse_record("0x10 2"), Err(ParseError::NotANumber));
    assert_eq!(parse_record("1.0 2"), Err(ParseError::NotANumber));
    assert_eq!(parse_record("\u{663} 4"), Err(ParseError::NotANumber));
}

#[test]
fn the_first_fault_of_a_line_decides() {
    // The first field is examined before the second is looked for.
    assert_eq!(parse_record("x"), Err(ParseError::NotANumber));
    assert_eq!(parse_record("99999 "), Err(ParseError::NotANumber));
    assert_eq!(parse_record("1"), Err(ParseError::MissingNumber));
    assert_eq!(parse_record("x y"), Err(ParseError::NotANumber));
}

#[test]
fn white_space_is_what_unicode_says() {
    assert_eq!(parse_record("1\u{3000}2"), Ok((1, 2)));
    assert_eq!(parse_record("\u{a0}1\u{2003}\u{85}2\u{2028}"), Ok((1, 2)));
    assert_eq!(parse_record("1\u{b}2\u{c}3"), Ok((1, 2)));
    assert_eq!(parse_record("1\u{1680}2\u{202f}\u{205f}\u{2029}"), Ok((1, 2)));
    // A zero-width space and a word joiner are not white space.
    assert_eq!(parse_record("1\u{200b}2"), Err(ParseError::NotANumber));
    assert_eq!(parse_record("1 2\u{2060}"), Err(ParseError::NotANumber));
    assert_eq!(parse_record("1\u{1c}2"), Err(ParseError::NotANumber));
}

#[test]
fn every_character_is_classed_as_the_standard_library_does() {
    for code in 0..=0x11_0000u32 {
        if let Some(c) = char::from_u32(code) {
            let text = c.to_string();
            assert_eq!(blank(&text), c.is_whitespace(), "U+{:04X}", code);
        }
    }
}

#[test]
fn records_agree_with_the_standard_library() {
    let samples = [
        "", " ", "\n", "1", "1 2", "1 2 3", " 1  2 ", "+1 +2", "-1 2", "1 -2", "a b", "1 b",
        "65535 4294967295", "65536 0", "0 4294967296", "00 00", "1\t2\n", "1\u{a0}2",
        "1\u{200b}2 3", "+ 1", "+", "1 +", "١ ٢", "12345678901234567890 1", "1 \u{3000} 2",
        "9 9 9 9", "4294967295 1", "1,2", "1 2,3", "  \t  ", "0", "+0 0", "０ 1",
    ];
    for line in samples {
        assert_eq!(parse_record(line), by_std(line), "line {:?}", line);
    }
}

#[test]
fn blank_lines_are_recognised() {
    assert!(blank(""));
    assert!(blank("\n"));
    assert!(blank(" \t\r\n\u{3000}"));
    assert!(!blank(" . "));
    assert!(!blank("0"));
}

#[test]
fn the_sizing_is_five_records() {
    let input = lines(&["1 2\n", "2 0\n", "3 1\n", "1 1\n", "9 4294967295\n"]);
    assert_eq!(
        parse_worker_config(&input),
        Ok(vec![
            WorkerConfig { worker_type: 1, worker_count: 2 },
            WorkerConfig { worker_type: 2, worker_count: 0 },
            WorkerConfig { worker_type: 3, worker_count: 1 },
            WorkerConfig { worker_type: 1, worker_count: 1 },
            WorkerConfig { worker_type: 9, worker_count: 4294967295 },
        ])
    );
}

#[test]
fn lines_past_the_fifth_are_not_sizing() {
    let input = lines(&["1 1", "2 2", "3 3", "4 4", "5 5", "7 0", "garbage"]);
    let configs = parse_worker_config(&input).unwrap();
    assert_eq!(configs.len(), 5);
    assert_eq!(configs[4], WorkerConfig { worker_type: 5, worker_count: 5 });
}

#[test]
fn too_few_sizing_lines_are_an_error() {
    assert_eq!(parse_worker_config(&[]), Err(ParseError::MissingNumber));
    let input = lines(&["1 1", "2 2", "3 3", "4 4"]);
    assert_eq!(parse_worker_config(&input), Err(ParseError::MissingNumber));
}

#[test]
fn the_first_bad_sizing_line_decides() {
    let input = lines(&["1 1", "x 2", "3", "4 4", "5 5"]);
    assert_eq!(parse_worker_config(&input), Err(ParseError::NotANumber));
    let input = lines(&["1 1", "2", "x 3", "4 4", "5 5"]);
    assert_eq!(parse_worker_config(&input), Err(ParseError::MissingNumber));
    let input = lines(&["1 1", "2 2", "3 3", "4 4", "\n"]);
    assert_eq!(parse_worker_config(&input), Err(ParseError::MissingNumber));
    let input = lines(&["1 1", "2 2", "3 3", "4 4", "5 x", "6"]);
    assert_eq!(parse_worker_config(&input), Err(ParseError::NotANumber));
}

#[test]
fn a_stream_yields_the_job_of_each_line() {
    let stream = JobStream::new(());
    assert_eq!(stream.next("3 4\n"), Ok(Some(Job { job_type: 3, job_duration: 4 })));
    assert_eq!(stream.next("0 0"), Ok(Some(Job { job_type: 0, job_duration: 0 })));
    assert_eq!(
        stream.next("65535 4294967295 trailing"),
        Ok(Some(Job { job_type: 65535, job_duration: 4294967295 }))
    );
}

#[test]
fn a_stream_ends_at_a_blank_line_or_the_end_of_input() {
    let stream = JobStream::new(());
    assert_eq!(stream.next(""), Ok(None));
    assert_eq!(stream.next("\n"), Ok(None));
    assert_eq!(stream.next("  \t \r\n"), Ok(None));
}

#[test]
fn a_malformed_job_line_is_an_error() {
    let stream = JobStream::new(());
    assert_eq!(stream.next("3\n"), Err(ParseError::MissingNumber));
    assert_eq!(stream.next("3 x\n"), Err(ParseError::NotANumber));
    assert_eq!(stream.next("job 1\n"), Err(ParseError::NotANumber));
    assert_eq!(stream.next("65536 1\n"), Err(ParseError::NotANumber));
}

#[test]
fn a_stream_keeps_its_source() {
    let mut stream = JobStream::new(vec![1u8, 2, 3]);
    stream.get_mut().push(4);
    assert_eq!(stream.get_mut().len(), 4);
    assert_eq!(stream.into_inner(), vec![1, 2, 3, 4]);
}

#[test]
fn dispatch_stops_at_the_terminating_line() {
    let input = ["1 0\n", "1 0\n", "1 0\n", "\n", "1 0\n", "1 0\n"];
    let configs = [WorkerConfig { worker_type: 1, worker_count: 3 }];
    let workers = (0..3)
        .map(|n| Worker {
            pid: 50 + n,
            worker_type: 1,
            completion_receiver: 2 * n + 3,
            job_sender: 2 * n + 4,
            working: false,
        })
        .collect();
    let mut manager = Manager::new(&configs, workers).unwrap();
    let stream = JobStream::new(());
    let mut dispatched = 0;
    let mut read = 0;
    for line in input {
        read += 1;
        match stream.next(line).unwrap() {
            None => break,
            Some(job) => {
                let answer = manager.process_jobs(&Event::Job(job));
                assert!(matches!(answer, Ok(Action::Send { .. })));
                dispatched += 1;
            }
        }
    }
    assert_eq!(dispatched, 3);
    assert_eq!(read, 4);
    assert_eq!(manager.shutdown().len(), 3);
}
