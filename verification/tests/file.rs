use yaoki::execution::ExecutionId;
use yaoki::execution::WorkflowErrorRecord;
use yaoki::execution::WorkflowName;
use yaoki::execution::WorkflowVersion;
use yaoki::journal::EventPayload;
use yaoki::journal::JournalError;
use yaoki::journal::JournalEvent;
use yaoki::journal::SeqNum;
use yaoki::random::RandomBytes;
use yaoki::random::RngSource;
use yaoki::step::Attempt;
use yaoki::step::StepErrorRecord;
use yaoki::step::StepName;
use yaoki::stores::crc::crc32;
use yaoki::stores::file::events_of;
use yaoki::stores::file::heal;
use yaoki::stores::file::hex_encode;
use yaoki::stores::file::journal_file_name;
use yaoki::stores::file::JournalEventRecord;
use yaoki::stores::frame::encode_frame;
use yaoki::stores::frame::parse_frames;
use yaoki::stores::frame::parse_one_frame;
use yaoki::stores::number::parse_number;
use yaoki::time::Deadline;
use yaoki::time::Timestamp;

struct FixedRng {
    bytes: [u8; 32],
}

impl RngSource for FixedRng {
    fn next_bytes(&mut self) -> RandomBytes {
        RandomBytes::new(self.bytes)
    }
}

fn signup_execution() -> ExecutionId {
    let mut bytes = [0u8; 32];
    bytes[0] = 0x51; // 'Q', arbitrary deterministic marker
    bytes[15] = 0x0f;
    let mut rng = FixedRng { bytes };
    ExecutionId::generate(&mut rng)
}

/// One event per `JournalEvent` variant, each with domain-meaningful field
/// values.
fn every_event() -> Vec<JournalEvent> {
    vec![
        JournalEvent::ExecutionStarted {
            workflow: WorkflowName::new("signup").unwrap(),
            version: WorkflowVersion::new("2026.07.18").unwrap(),
            input: EventPayload::new(br#"{"email":"john.smith@example.com"}"#.to_vec()),
        },
        JournalEvent::StepScheduled {
            seq: SeqNum::zero(),
            name: StepName::new("charge-card").unwrap(),
        },
        JournalEvent::StepStarted {
            seq: SeqNum::zero(),
            attempt: Attempt::first(),
        },
        JournalEvent::StepCompleted {
            seq: SeqNum::zero(),
            result: EventPayload::new(br#"{"charge_id":"ch_2026_0718"}"#.to_vec()),
        },
        JournalEvent::StepFailed {
            seq: SeqNum::zero(),
            attempt: Attempt::first(),
            error: StepErrorRecord::new("payment gateway timed out"),
        },
        JournalEvent::NowRecorded {
            seq: SeqNum::zero(),
            value: Timestamp::from_millis_since_epoch(1_753_401_600_000),
        },
        JournalEvent::RandomRecorded {
            seq: SeqNum::zero(),
            value: RandomBytes::new([0x7a; 32]),
        },
        JournalEvent::TimerScheduled {
            seq: SeqNum::zero(),
            deadline: Deadline::at(Timestamp::from_millis_since_epoch(1_753_401_600_000)),
        },
        JournalEvent::TimerFired {
            seq: SeqNum::zero(),
        },
        JournalEvent::ExecutionCompleted {
            output: EventPayload::new(br#"{"account_id":"acct_2026_0718"}"#.to_vec()),
        },
        JournalEvent::ExecutionFailed {
            error: WorkflowErrorRecord::new("account creation rolled back"),
        },
    ]
}

fn codec_message(record: JournalEventRecord) -> String {
    match JournalEvent::try_from(record) {
        Err(JournalError::Codec { message }) => message,
        other => panic!("expected a codec error, got {other:?}"),
    }
}

#[test]
fn crc32_matches_the_standard_check_value() {
    // The industry-standard CRC-32/ISO-HDLC conformance vector, not
    // domain data: every implementation is checked against this string.
    assert_eq!(crc32(b"123456789"), 0xCBF4_3926);
}

#[test]
fn crc32_of_nothing_is_zero() {
    assert_eq!(crc32(b""), 0);
    assert_eq!(crc32(b"a"), 0xE8B7_BE43);
}

#[test]
fn try_from_record_rejects_a_malformed_step_name() {
    // A CRC-valid, well-formed frame whose payload decodes to
    // a `StepName` the validated constructor rejects.
    let record = JournalEventRecord::StepScheduled {
        seq: 0,
        name: String::new(),
    };

    let result = JournalEvent::try_from(record);

    assert!(matches!(result, Err(JournalError::Codec { .. })));
}

#[test]
fn every_event_survives_its_record() {
    for event in every_event() {
        let record = JournalEventRecord::from(&event);
        let restored = JournalEvent::try_from(record).unwrap();

        assert_eq!(restored, event, "round trip mismatch for {event:?}");
    }
}

#[test]
fn a_journal_is_read_back_as_it_was_written() {
    let records = every_event().iter().map(JournalEventRecord::from).collect();

    assert_eq!(events_of(records).unwrap(), every_event());
    assert_eq!(events_of(Vec::new()).unwrap(), Vec::new());
}

#[test]
fn the_first_record_that_is_refused_gives_the_reason() {
    let records = vec![
        JournalEventRecord::TimerFired { seq: 0 },
        JournalEventRecord::StepScheduled {
            seq: 1,
            name: String::new(),
        },
        JournalEventRecord::StepStarted { seq: 2, attempt: 0 },
    ];

    assert_eq!(
        events_of(records),
        Err(JournalError::Codec {
            message: "step name is empty".to_owned()
        })
    );
}

#[test]
fn a_record_is_refused_with_the_reason() {
    assert_eq!(
        codec_message(JournalEventRecord::ExecutionStarted {
            workflow: "  ".to_owned(),
            version: String::new(),
            input: Vec::new(),
        }),
        "workflow name is empty"
    );
    assert_eq!(
        codec_message(JournalEventRecord::ExecutionStarted {
            workflow: "signup".to_owned(),
            version: "\t".to_owned(),
            input: Vec::new(),
        }),
        "workflow version is empty"
    );
    assert_eq!(
        codec_message(JournalEventRecord::StepScheduled {
            seq: 3,
            name: String::new(),
        }),
        "step name is empty"
    );
    assert_eq!(
        codec_message(JournalEventRecord::StepScheduled {
            seq: 3,
            name: " Charge \"Card\"".to_owned(),
        }),
        "step name \"Charge \\\"Card\\\"\" contains characters outside [a-z0-9-]"
    );
    assert_eq!(
        codec_message(JournalEventRecord::StepStarted { seq: 3, attempt: 0 }),
        "attempt number must be >= 1, got 0"
    );
    assert_eq!(
        codec_message(JournalEventRecord::StepFailed {
            seq: 3,
            attempt: 0,
            error: "x".to_owned(),
        }),
        "attempt number must be >= 1, got 0"
    );
}

#[test]
fn a_frame_is_checksum_length_and_payload() {
    assert_eq!(
        encode_frame(b"123456789"),
        b"cbf43926:9:123456789\n".to_vec()
    );
    assert_eq!(encode_frame(b""), b"00000000:0:\n".to_vec());
    assert_eq!(
        encode_frame(&[b'a'; 120])[8..13].to_vec(),
        b":120:".to_vec()
    );
}

#[test]
fn frames_read_back_in_order() {
    let mut file = encode_frame(b"first");
    file.extend(encode_frame(b"with:colons\nand newlines"));
    file.extend(encode_frame(b""));

    let (payloads, good) = parse_frames(&file);

    assert_eq!(
        payloads,
        vec![
            b"first".as_slice(),
            b"with:colons\nand newlines".as_slice(),
            b"".as_slice()
        ]
    );
    assert_eq!(good, file.len());
    assert_eq!(heal(&file).truncate_to, None);
}

#[test]
fn every_torn_frame_is_cut_off() {
    let good = encode_frame(b"durable");
    let next = encode_frame(br#"{"kind":"TimerFired","seq":9}"#);
    for cut in 0..next.len() {
        let mut file = good.clone();
        file.extend(&next[..cut]);

        let healed = heal(&file);

        assert_eq!(healed.payloads, vec![b"durable".as_slice()]);
        if cut == 0 {
            assert_eq!(healed.truncate_to, None);
        } else {
            assert_eq!(healed.truncate_to, Some(good.len() as u64));
        }
    }
}

#[test]
fn a_corrupted_payload_is_cut_off_and_writing_resumes_after_it() {
    let mut file = encode_frame(b"durable");
    let good = file.len();
    file.extend(b"00000000:29:{\"kind\":\"TimerFired\",\"seq\":9}\n");

    let healed = heal(&file);
    assert_eq!(healed.payloads, vec![b"durable".as_slice()]);
    assert_eq!(healed.truncate_to, Some(good as u64));

    file.truncate(good);
    assert_eq!(heal(&file).truncate_to, None);
    file.extend(encode_frame(b"next"));
    assert_eq!(
        parse_frames(&file).0,
        vec![b"durable".as_slice(), b"next".as_slice()]
    );
}

#[test]
fn headers_are_read_as_numbers() {
    // Upper-case digits, a plus sign and leading zeros all count.
    assert_eq!(
        parse_one_frame(b"CBF43926:9:123456789\n"),
        Some((b"123456789".as_slice(), 21))
    );
    assert_eq!(
        parse_one_frame(b"+0cbf43926:+009:123456789\nrest"),
        Some((b"123456789".as_slice(), 26))
    );
    assert_eq!(parse_one_frame(b":9:123456789\n"), None);
    assert_eq!(parse_one_frame(b"cbf43926::123456789\n"), None);
    assert_eq!(parse_one_frame(b"cbf43926:-9:123456789\n"), None);
    assert_eq!(parse_one_frame(b"1cbf43926:9:123456789\n"), None);
    assert_eq!(
        parse_one_frame(b"cbf43926:99999999999999999999:123456789\n"),
        None
    );
    assert_eq!(parse_one_frame(b"cbf43926:18446744073709551615:1\n"), None);
    assert_eq!(parse_one_frame(b"garbage-not-even-a-frame"), None);
}

#[test]
fn numbers_have_digits_and_a_limit() {
    assert_eq!(parse_number(b"ff", 16, 255), Some(255));
    assert_eq!(parse_number(b"100", 16, 255), None);
    assert_eq!(parse_number(b"+", 10, 255), None);
    assert_eq!(parse_number(b"", 10, 255), None);
    assert_eq!(parse_number(b"1a", 10, 255), None);
    assert_eq!(
        parse_number(b"18446744073709551615", 10, u64::MAX),
        Some(u64::MAX)
    );
    assert_eq!(parse_number(b"18446744073709551616", 10, u64::MAX), None);
}

#[test]
fn a_journal_file_is_named_after_its_execution() {
    assert_eq!(hex_encode(&[0x00, 0x9f, 0xab]), "009fab");
    assert_eq!(
        journal_file_name(&signup_execution()),
        "5100000000000000000000000000000f.journal"
    );
}
