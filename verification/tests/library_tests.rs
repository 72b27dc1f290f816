use fastexport_jsonl::cli::{to_fastexport, to_jsonl};
use fastexport_jsonl::fastexport;
use fastexport_jsonl::fastexport::ParseOptions;
use fastexport_jsonl::json;
use fastexport_jsonl::json::Value;
use fastexport_jsonl::model::{
    base64_decode, base64_encode, is_valid_tz_offset, redact_author_event, redact_authors, Blob, Commit,
    DataRef, Event, FileChange, FileModify, NoteModify, PersonStamp, Reset, Tag,
};

fn strict() -> ParseOptions {
    ParseOptions { lenient: false }
}

fn lenient() -> ParseOptions {
    ParseOptions { lenient: true }
}

fn person(name: Option<&str>, email: &str, timestamp: i64, tz: &str) -> PersonStamp {
    PersonStamp {
        name: name.map(|n| n.to_string()),
        email: email.to_string(),
        timestamp,
        tz_offset: tz.to_string(),
    }
}

fn parse_err(input: &[u8], opts: &ParseOptions) -> (usize, String) {
    match fastexport::parse(input, opts) {
        Ok(_) => panic!("expected an error"),
        Err(e) => (e.line, e.message),
    }
}

fn jsonl_round_trip(events: &[Event]) -> Vec<Event> {
    let mut out = Vec::new();
    for event in events {
        let text = event.to_json().to_compact_string();
        let value = json::parse(&text).expect("json should parse");
        out.push(Event::from_json(&value, false).expect("event should reparse"));
    }
    out
}

// ---------------------------------------------------------------------------
// base64
// ---------------------------------------------------------------------------

#[test]
fn base64_encodes_known_values() {
    assert_eq!(base64_encode(b""), "");
    assert_eq!(base64_encode(b"f"), "Zg==");
    assert_eq!(base64_encode(b"fo"), "Zm8=");
    assert_eq!(base64_encode(b"foo"), "Zm9v");
    assert_eq!(base64_encode(b"hello"), "aGVsbG8=");
    assert_eq!(base64_encode(&[0xff, 0xfe, 0x00]), "//4A");
}

#[test]
fn base64_decodes_known_values() {
    assert_eq!(base64_decode("").unwrap(), b"");
    assert_eq!(base64_decode("Zg==").unwrap(), b"f");
    assert_eq!(base64_decode("Zm8=").unwrap(), b"fo");
    assert_eq!(base64_decode("aGVsbG8=").unwrap(), b"hello");
    assert_eq!(base64_decode("//4A").unwrap(), vec![0xff, 0xfe, 0x00]);
}

#[test]
fn base64_decode_reports_errors() {
    assert_eq!(base64_decode("abc").unwrap_err(), "base64 input length must be a multiple of 4");
    assert_eq!(base64_decode("ab!c").unwrap_err(), "invalid base64 character: !");
}

#[test]
fn base64_round_trips_every_byte() {
    let data: Vec<u8> = (0..=255u8).collect();
    for len in 0..data.len() {
        let slice = &data[..len];
        assert_eq!(base64_decode(&base64_encode(slice)).unwrap(), slice);
    }
}

// ---------------------------------------------------------------------------
// JSON
// ---------------------------------------------------------------------------

#[test]
fn json_compact_text_round_trips() {
    let text = "{\"a\":[1,-2,true,false,null,\"x\\ny\"],\"b\":{},\"c\":\"\\u0001\\\\\\\"\"}";
    let value = json::parse(text).unwrap();
    assert_eq!(value.to_compact_string(), text);
}

#[test]
fn json_parse_skips_whitespace_and_decodes_escapes() {
    let value = json::parse(" { \"k\" : [ 1 , \"\\u00e9\\ud83d\\ude00\\/\" ] } ").unwrap();
    assert_eq!(value.to_compact_string(), "{\"k\":[1,\"\u{e9}\u{1F600}/\"]}");
}

#[test]
fn json_value_accessors() {
    let value = json::parse("{\"s\":\"text\",\"n\":42,\"z\":null}").unwrap();
    assert_eq!(value.get("s").and_then(Value::as_str), Some("text"));
    assert_eq!(value.get("n").and_then(Value::as_i64), Some(42));
    assert!(value.get("missing").is_none());
    assert_eq!(value.get("z").and_then(Value::as_str), None);
    assert_eq!(value.as_str(), None);
    assert_eq!(Value::Number(7).as_i64(), Some(7));
    assert_eq!(Value::String("q".to_string()).as_str(), Some("q"));
}

#[test]
fn json_parse_reports_errors() {
    assert_eq!(json::parse("").unwrap_err(), "unexpected end of input");
    assert_eq!(json::parse("[1,]").unwrap_err(), "unexpected character: ]");
    assert_eq!(json::parse("{\"a\" 1}").unwrap_err(), "expected ':' after object key");
    assert_eq!(json::parse("{1:2}").unwrap_err(), "expected string key in object");
    assert_eq!(json::parse("[1 2]").unwrap_err(), "expected ',' or ']' in array");
    assert_eq!(json::parse("{\"a\":1 \"b\"}").unwrap_err(), "expected ',' or '}' in object");
    assert_eq!(json::parse("1 2").unwrap_err(), "trailing characters after JSON value");
    assert_eq!(json::parse("\"abc").unwrap_err(), "unterminated string");
    assert_eq!(json::parse("\"\\q\"").unwrap_err(), "invalid escape sequence");
    assert_eq!(json::parse("\"\\u12zz\"").unwrap_err(), "invalid hex digits in \\u escape");
    assert_eq!(json::parse("\"\\u12").unwrap_err(), "truncated \\u escape");
    assert_eq!(json::parse("\"\\ud800x\"").unwrap_err(), "unpaired high surrogate in \\u escape");
    assert_eq!(json::parse("\"\\ud800\\u0041\"").unwrap_err(), "invalid low surrogate in \\u escape");
    assert_eq!(json::parse("\"\\udc00\"").unwrap_err(), "invalid unicode escape");
    assert_eq!(json::parse("tru").unwrap_err(), "expected literal 'true'");
    assert_eq!(json::parse("-").unwrap_err(), "invalid number: -");
    assert_eq!(json::parse("99999999999999999999").unwrap_err(), "invalid number: 99999999999999999999");
}

// ---------------------------------------------------------------------------
// Time zone offsets and redaction
// ---------------------------------------------------------------------------

#[test]
fn tz_offsets_are_sign_and_four_digits() {
    assert!(is_valid_tz_offset("+0000"));
    assert!(is_valid_tz_offset("-0700"));
    assert!(!is_valid_tz_offset("0700"));
    assert!(!is_valid_tz_offset("+07:0"));
    assert!(!is_valid_tz_offset("+070"));
    assert!(!is_valid_tz_offset("+07000"));
}

#[test]
fn redaction_is_idempotent_and_keeps_times() {
    let mut once = vec![Event::Tag(Tag {
        name: "v1".to_string(),
        mark: None,
        from: "refs/heads/main".to_string(),
        tagger: Some(person(Some("T"), "t@example.com", 5, "+0100")),
        message: b"m".to_vec(),
    })];
    let name = Some("Anon".to_string());
    redact_authors(&mut once, &name, "anon@example.com");
    let first = fastexport::write(&once);
    redact_authors(&mut once, &name, "anon@example.com");
    let second = fastexport::write(&once);
    assert_eq!(first, second);
    assert_eq!(
        String::from_utf8(first).unwrap(),
        "tag v1\nfrom refs/heads/main\ntagger Anon <anon@example.com> 5 +0100\ndata 1\nm\n"
    );
}

#[test]
fn redaction_leaves_other_events_alone() {
    let mut event = Event::Reset(Reset { branch: "refs/heads/x".to_string(), from: None });
    redact_author_event(&mut event, &None, "anon@example.com");
    assert_eq!(fastexport::write(&[event]), b"reset refs/heads/x\n");
}

// ---------------------------------------------------------------------------
// Reading a stream
// ---------------------------------------------------------------------------

#[test]
fn reading_stops_after_done_and_skips_comments() {
    let events = fastexport::parse(b"# a comment\n\ncheckpoint\ndone\nnot read\n", &strict()).unwrap();
    assert_eq!(events.len(), 2);
    assert!(matches!(events[0], Event::Checkpoint));
    assert!(matches!(events[1], Event::Done));
}

#[test]
fn unknown_commands_fail_strictly_and_are_skipped_leniently() {
    assert_eq!(parse_err(b"blob\ndata 0\n\nfrobnicate\n", &strict()), (4, "unsupported command: frobnicate".to_string()));
    let events = fastexport::parse(b"frobnicate\ndone\n", &lenient()).unwrap();
    assert_eq!(events.len(), 1);
}

#[test]
fn data_must_be_followed_by_a_newline_when_strict() {
    let input = b"blob\nmark :1\ndata 5\nhelloX";
    assert_eq!(parse_err(input, &strict()), (3, "data payload must be followed by a newline separator".to_string()));
    let events = fastexport::parse(input, &lenient()).unwrap();
    match &events[0] {
        Event::Blob(blob) => {
            assert_eq!(blob.mark, Some(1));
            assert_eq!(blob.data, b"hello");
        }
        _ => panic!("expected a blob"),
    }
}

#[test]
fn data_errors_carry_their_line() {
    assert_eq!(parse_err(b"blob\n", &strict()), (2, "expected data command, found end of input".to_string()));
    assert_eq!(parse_err(b"blob\nfoo\n", &strict()), (2, "expected data command, found: foo".to_string()));
    assert_eq!(parse_err(b"blob\ndata x\n", &strict()), (2, "invalid data length: x".to_string()));
    assert_eq!(parse_err(b"blob\ndata <<\n", &strict()), (2, "empty delimiter in data <<DELIM".to_string()));
    assert_eq!(
        parse_err(b"blob\ndata 10\nabc", &strict()),
        (3, "unexpected end of input while reading a data payload".to_string())
    );
}

#[test]
fn unterminated_delimited_data_is_kept_leniently() {
    let events = fastexport::parse(b"blob\ndata <<EOF\nline one\n", &lenient()).unwrap();
    match &events[0] {
        Event::Blob(blob) => assert_eq!(blob.data, b"line one\n"),
        _ => panic!("expected a blob"),
    }
    assert_eq!(
        parse_err(b"blob\ndata <<EOF\nline one\n", &strict()),
        (4, "unterminated delimited data block, expected a line matching 'EOF'".to_string())
    );
}

#[test]
fn mark_references_must_be_known_when_strict() {
    let input = b"commit refs/heads/main\ncommitter C <c@example.com> 1 +0000\ndata 0\n\nfrom :7\n";
    assert_eq!(parse_err(input, &strict()), (5, "reference to unknown mark: :7".to_string()));
    let events = fastexport::parse(input, &lenient()).unwrap();
    match &events[0] {
        Event::Commit(commit) => assert_eq!(commit.from.as_deref(), Some(":7")),
        _ => panic!("expected a commit"),
    }
}

#[test]
fn commits_need_a_committer() {
    assert_eq!(
        parse_err(b"commit refs/heads/main\ndata 0\n", &strict()),
        (2, "expected committer line, found: data 0".to_string())
    );
    assert_eq!(
        parse_err(b"commit refs/heads/main\n", &strict()),
        (2, "expected committer line, found end of input".to_string())
    );
    assert_eq!(parse_err(b"tag v1\n", &strict()), (2, "expected from line, found end of input".to_string()));
}

#[test]
fn person_lines_are_checked() {
    let bad_ts = b"commit refs/heads/main\ncommitter C <c@example.com> soon +0000\ndata 0\n\n";
    assert_eq!(
        parse_err(bad_ts, &strict()),
        (2, "invalid or missing timestamp in: C <c@example.com> soon +0000".to_string())
    );
    let bad_tz = b"commit refs/heads/main\ncommitter C <c@example.com> 1 0700\ndata 0\n\n";
    assert_eq!(
        parse_err(bad_tz, &strict()),
        (2, "invalid or missing timezone offset in: C <c@example.com> 1 0700".to_string())
    );
    let no_email = b"commit refs/heads/main\ncommitter Someone 12 +0100\ndata 0\n\n";
    assert_eq!(parse_err(no_email, &strict()), (2, "malformed person line: Someone 12 +0100".to_string()));
    let events = fastexport::parse(no_email, &lenient()).unwrap();
    match &events[0] {
        Event::Commit(commit) => {
            assert_eq!(commit.committer.name, None);
            assert_eq!(commit.committer.email, "unknown@invalid");
            assert_eq!(commit.committer.timestamp, 0);
            assert_eq!(commit.committer.tz_offset, "+0000");
        }
        _ => panic!("expected a commit"),
    }
}

#[test]
fn file_modes_and_sha1s_are_checked() {
    let bad_mode = b"commit refs/heads/main\ncommitter C <c@example.com> 1 +0000\ndata 0\n\nM 100600 da39a3ee5e6b4b0d3255bfef95601890afd80709 f\n";
    assert_eq!(parse_err(bad_mode, &strict()), (5, "invalid file mode: 100600".to_string()));
    let bad_sha = b"commit refs/heads/main\ncommitter C <c@example.com> 1 +0000\ndata 0\n\nM 100644 abc f\n";
    assert_eq!(parse_err(bad_sha, &strict()), (5, "invalid sha1: abc".to_string()));
    let short = b"commit refs/heads/main\ncommitter C <c@example.com> 1 +0000\ndata 0\n\nM 100644\n";
    assert_eq!(parse_err(short, &strict()), (5, "filemodify missing dataref".to_string()));
}

#[test]
fn quoted_paths_are_unescaped_and_written_back_quoted() {
    let input = b"commit refs/heads/main\ncommitter C <c@example.com> 1 +0000\ndata 0\n\nD \"a\\tb\\\\c\\\"d\\303\\251\"\n\n";
    let events = fastexport::parse(input, &strict()).unwrap();
    match &events[0] {
        Event::Commit(commit) => match &commit.file_changes[0] {
            FileChange::Delete { path } => assert_eq!(path, "a\tb\\c\"d\u{e9}"),
            _ => panic!("expected a delete"),
        },
        _ => panic!("expected a commit"),
    }
    let written = String::from_utf8(fastexport::write(&events)).unwrap();
    assert_eq!(
        written,
        "commit refs/heads/main\ncommitter C <c@example.com> 1 +0000\ndata 0\n\nD \"a\\tb\\\\c\\\"d\u{e9}\"\n\n"
    );
    assert_eq!(
        parse_err(b"commit refs/heads/main\ncommitter C <c@example.com> 1 +0000\ndata 0\n\nD \"a\\qb\"\n", &strict()),
        (5, "unsupported escape sequence: \\q".to_string())
    );
}

#[test]
fn invalid_utf8_is_reported_or_shown_lossily() {
    assert_eq!(parse_err(b"\xff\n", &strict()), (1, "unsupported command: \u{FFFD}".to_string()));
    assert_eq!(parse_err(b"blob\ndata \xff\n", &strict()), (2, "data length is not valid UTF-8".to_string()));
}

#[test]
fn parse_error_is_shown_with_its_line() {
    match fastexport::parse(b"blob\ndata 1\nab", &strict()) {
        Err(e) => assert_eq!(e.to_string(), "line 2: data payload must be followed by a newline separator"),
        Ok(_) => panic!("expected an error"),
    }
}

// ---------------------------------------------------------------------------
// Writing a stream
// ---------------------------------------------------------------------------

fn sample_events() -> Vec<Event> {
    vec![
        Event::Blob(Blob { mark: Some(1), data: b"hi\n".to_vec() }),
        Event::Commit(Commit {
            branch: "refs/heads/main".to_string(),
            mark: Some(2),
            author: Some(person(Some("A U Thor"), "a@example.com", -5, "-0700")),
            committer: person(None, "c@example.com", 1112911993, "+0100"),
            message: b"msg".to_vec(),
            from: None,
            merges: vec![":1".to_string()],
            file_changes: vec![
                FileChange::Modify(FileModify {
                    mode: "100644".to_string(),
                    dataref: DataRef::Mark(1),
                    path: "dir/a b.txt".to_string(),
                }),
                FileChange::Modify(FileModify {
                    mode: "100755".to_string(),
                    dataref: DataRef::Inline(b"x".to_vec()),
                    path: "ctl\u{1}".to_string(),
                }),
                FileChange::Note(NoteModify {
                    dataref: DataRef::Sha1("da39a3ee5e6b4b0d3255bfef95601890afd80709".to_string()),
                    commitish: ":1".to_string(),
                }),
                FileChange::Rename { src: "x y".to_string(), dst: "z".to_string() },
            ],
        }),
        Event::Ls { dataref: ":2".to_string(), path: "dir/a b.txt".to_string() },
        Event::Done,
    ]
}

const SAMPLE_STREAM: &str = "blob\nmark :1\ndata 3\nhi\n\n\
commit refs/heads/main\nmark :2\nauthor A U Thor <a@example.com> -5 -0700\n\
committer <c@example.com> 1112911993 +0100\ndata 3\nmsg\nmerge :1\n\
M 100644 :1 \"dir/a b.txt\"\nM 100755 inline \"ctl\\001\"\ndata 1\nx\n\
N da39a3ee5e6b4b0d3255bfef95601890afd80709 :1\nR \"x y\" z\n\n\
ls :2 \"dir/a b.txt\"\ndone\n";

#[test]
fn writes_the_expected_stream() {
    let written = String::from_utf8(fastexport::write(&sample_events())).unwrap();
    assert_eq!(written, SAMPLE_STREAM);
}

#[test]
fn reading_what_was_written_gives_the_events_back() {
    let written = fastexport::write(&sample_events());
    let events = fastexport::parse(&written, &strict()).unwrap();
    assert_eq!(fastexport::write(&events), written);
    assert_eq!(events.len(), 4);
}

#[test]
fn events_survive_the_json_lines_form() {
    let events = sample_events();
    let back = jsonl_round_trip(&events);
    assert_eq!(fastexport::write(&back), fastexport::write(&events));
}

// ---------------------------------------------------------------------------
// The two conversions
// ---------------------------------------------------------------------------

#[test]
fn to_jsonl_writes_one_object_per_line() {
    assert_eq!(to_jsonl(b"checkpoint\ndone\n", false, None).unwrap(), b"{\"type\":\"checkpoint\"}\n{\"type\":\"done\"}\n");
    assert_eq!(to_jsonl(b"x\n", false, None).unwrap_err(), "line 1: unsupported command: x");
}

#[test]
fn to_jsonl_can_redact() {
    let input = b"tag v1\nfrom refs/heads/main\ntagger T <t@example.com> 5 +0100\ndata 0\n\n";
    let redact = (None, "anon@example.com".to_string());
    let out = String::from_utf8(to_jsonl(input, false, Some(&redact)).unwrap()).unwrap();
    assert_eq!(
        out,
        "{\"type\":\"tag\",\"name\":\"v1\",\"mark\":null,\"from\":\"refs/heads/main\",\"tagger\":{\"name\":null,\"email\":\"anon@example.com\",\"timestamp\":5,\"tz_offset\":\"+0100\"},\"message_base64\":\"\"}\n"
    );
}

#[test]
fn to_fastexport_reads_json_lines() {
    let input = b"{\"type\":\"reset\",\"branch\":\"refs/heads/main\",\"from\":\":1\"}\r\n\n  \n{\"type\":\"done\"}";
    assert_eq!(to_fastexport(input, false, None).unwrap(), b"reset refs/heads/main\nfrom :1\ndone\n");
    assert_eq!(
        to_fastexport(b"{\"type\":\"done\"}\n\n{\"type\":\"nope\"}\n", false, None).unwrap_err(),
        "line 3: unknown event type: nope"
    );
    assert_eq!(to_fastexport(b"[1,\n", false, None).unwrap_err(), "line 1: unexpected end of input");
    assert_eq!(to_fastexport(b"\xff", false, None).unwrap_err(), "input is not valid UTF-8");
}

#[test]
fn stream_survives_both_conversions() {
    let jsonl = to_jsonl(SAMPLE_STREAM.as_bytes(), false, None).unwrap();
    let back = to_fastexport(&jsonl, false, None).unwrap();
    assert_eq!(String::from_utf8(back).unwrap(), SAMPLE_STREAM);
}

#[test]
fn lenient_reading_agrees_with_strict_where_strict_succeeds() {
    let strict_events = fastexport::parse(SAMPLE_STREAM.as_bytes(), &strict()).unwrap();
    let lenient_events = fastexport::parse(SAMPLE_STREAM.as_bytes(), &lenient()).unwrap();
    assert_eq!(fastexport::write(&strict_events), fastexport::write(&lenient_events));
    let strict_jsonl = to_jsonl(SAMPLE_STREAM.as_bytes(), false, None).unwrap();
    let lenient_jsonl = to_jsonl(SAMPLE_STREAM.as_bytes(), true, None).unwrap();
    assert_eq!(strict_jsonl, lenient_jsonl);
    assert_eq!(to_fastexport(&strict_jsonl, true, None), to_fastexport(&strict_jsonl, false, None));
}

#[test]
fn redaction_survives_the_conversions() {
    let redact = (Some("Anon".to_string()), "anon@example.com".to_string());
    let jsonl = to_jsonl(SAMPLE_STREAM.as_bytes(), false, Some(&redact)).unwrap();
    let back = String::from_utf8(to_fastexport(&jsonl, false, None).unwrap()).unwrap();
    assert!(back.contains("author Anon <anon@example.com> -5 -0700\n"));
    assert!(back.contains("committer Anon <anon@example.com> 1112911993 +0100\n"));
    assert!(!back.contains("a@example.com"));
}

fn from_json_err(text: &str, lenient_read: bool) -> String {
    let value = json::parse(text).unwrap();
    match Event::from_json(&value, lenient_read) {
        Ok(_) => panic!("expected an error"),
        Err(m) => m,
    }
}

#[test]
fn event_json_errors_name_what_is_missing() {
    assert_eq!(from_json_err("{}", false), "missing \"type\" field");
    assert_eq!(from_json_err("{\"type\":\"nope\"}", false), "unknown event type: nope");
    assert_eq!(from_json_err("{\"type\":\"blob\"}", false), "blob missing \"data_base64\"");
    assert_eq!(from_json_err("{\"type\":\"blob\",\"data_base64\":\"abc\"}", false), "base64 input length must be a multiple of 4");
    assert_eq!(from_json_err("{\"type\":\"reset\"}", false), "reset missing \"branch\"");
    assert_eq!(from_json_err("{\"type\":\"ls\",\"path\":\"p\"}", false), "ls missing \"dataref\"");
    assert_eq!(from_json_err("{\"type\":\"tag\",\"name\":\"v\"}", false), "tag missing \"from\"");
    assert_eq!(from_json_err("{\"type\":\"commit\",\"branch\":\"b\"}", false), "commit missing \"committer\"");
    assert_eq!(
        from_json_err("{\"type\":\"commit\",\"branch\":\"b\",\"committer\":{\"email\":\"e\",\"timestamp\":1}}", false),
        "person stamp has a missing or invalid \"tz_offset\""
    );
    assert_eq!(
        from_json_err("{\"type\":\"commit\",\"branch\":\"b\",\"committer\":{\"timestamp\":1,\"tz_offset\":\"+0000\"}}", false),
        "person stamp missing \"email\""
    );
    assert_eq!(
        from_json_err(
            "{\"type\":\"commit\",\"branch\":\"b\",\"committer\":{\"email\":\"e\",\"timestamp\":1,\"tz_offset\":\"+0000\"},\"message_base64\":\"\",\"merges\":[1]}",
            false
        ),
        "merge entry must be a string"
    );
    assert_eq!(
        from_json_err(
            "{\"type\":\"commit\",\"branch\":\"b\",\"committer\":{\"email\":\"e\",\"timestamp\":1,\"tz_offset\":\"+0000\"},\"message_base64\":\"\",\"file_changes\":[{\"op\":\"X\"}]}",
            false
        ),
        "unknown file change op: X"
    );
    assert_eq!(
        from_json_err(
            "{\"type\":\"commit\",\"branch\":\"b\",\"committer\":{\"email\":\"e\",\"timestamp\":1,\"tz_offset\":\"+0000\"},\"message_base64\":\"\",\"file_changes\":[{\"op\":\"M\",\"mode\":\"100644\",\"path\":\"p\",\"dataref\":{\"kind\":\"zip\"}}]}",
            false
        ),
        "unknown dataref kind: zip"
    );
}

#[test]
fn lenient_event_json_supplies_person_defaults() {
    let value = json::parse("{\"type\":\"tag\",\"name\":\"v\",\"from\":\"refs/heads/main\",\"tagger\":{},\"message_base64\":\"\"}").unwrap();
    let event = Event::from_json(&value, true).unwrap();
    assert_eq!(
        String::from_utf8(fastexport::write(&[event])).unwrap(),
        "tag v\nfrom refs/heads/main\ntagger <unknown@invalid> 0 +0000\ndata 0\n\n"
    );
}

#[test]
fn what_reading_gives_is_written_so_that_it_reads_back() {
    let input: &[u8] = b"# exported\n\ncommit  refs/heads/main \nmark :1\nauthor  Ann Lee  <ann@example.com> 10 +0100\ncommitter <c@example.com> 11 -0200\ndata <<END\nline\nEND\nM 100644 inline \"a b\"\ndata 2\nhi\nD old\nC x y\n\nreset refs/heads/x\nfrom :1\n\ntag v1\nfrom :1\ndata 0\n\nls :1 \"dir name\"\ndone\nnot read\n";
    for opts in [strict(), lenient()] {
        let first = fastexport::parse(input, &opts).unwrap();
        let written = fastexport::write(&first);
        let second = fastexport::parse(&written, &opts).unwrap();
        assert_eq!(second.len(), first.len());
        assert_eq!(fastexport::write(&second), written);
    }
}

#[test]
fn strict_reading_gives_only_checked_fields() {
    let input: &[u8] = b"blob\nmark :1\ndata 1\nx\ncommit refs/heads/main\nmark :2\ncommitter C <c@example.com> 1 -0700\ndata 0\n\nM 100755 :1 run.sh\nM 100644 0123456789abcdef0123456789abcdef01234567 b\n\ncommit refs/heads/main\ncommitter C <c@example.com> 2 +0000\ndata 0\n\nfrom :2\nmerge :1\n\n";
    let events = fastexport::parse(input, &strict()).unwrap();
    assert_eq!(events.len(), 3);
    match &events[1] {
        Event::Commit(commit) => {
            assert!(is_valid_tz_offset(&commit.committer.tz_offset));
            assert_eq!(commit.file_changes.len(), 2);
        }
        _ => panic!("expected a commit"),
    }
    match &events[2] {
        Event::Commit(commit) => {
            assert_eq!(commit.from.as_deref(), Some(":2"));
            assert_eq!(commit.merges, vec![":1".to_string()]);
        }
        _ => panic!("expected a commit"),
    }
    assert_eq!(parse_err(b"commit refs/heads/main\ncommitter C <c@example.com> 1 +0000\ndata 0\n\nM 100600 :1 f\n", &strict()).1, "invalid file mode: 100600");
    assert_eq!(parse_err(b"commit refs/heads/main\ncommitter C <c@example.com> 1 +0000\ndata 0\n\nM 100644 abc f\n", &strict()).1, "invalid sha1: abc");
    assert_eq!(parse_err(b"commit refs/heads/main\ncommitter C <c@example.com> 1 +0000\ndata 0\n\nmerge :3\n", &strict()).1, "reference to unknown mark: :3");
}
