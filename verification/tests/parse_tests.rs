use wiredef::{parse, strip, fmt_message, FieldType, MessageType};

#[test]
fn round_trip() {
    let description = "\
# protocol definition with comments and blank lines\n\
size[4] Tversion:100 tag[2] msize[4] version[s]\n\
size[4] Rversion:101 tag[2] msize[4] version[s]\n\
\n\
size[4] Tauth:102 tag[2] afid[4] uname[s] aname[s]\n\
size[4] Rauth:103 tag[2] aqid[13]\n\
size[4] Rerror:107 tag[2] ename[s]   # no Terror exists\n\
size[4] Twalk:110 tag[2] fid[4] newfid[4] nwname[2] nwname*(wname[s])\n\
size[4] Rwalk:111 tag[2] nwqid[2] nwqid*(wqid[13])\n\
size[4] Tread:116 tag[2] fid[4] offset[8] count[4]\n\
size[4] Rread:117 tag[2] count[4] count*(data[1])\n\
size[4] Tstat:124 tag[2] fid[4]\n\
size[4] Rstat:125 tag[2] stat[n]\n";

    let messages = match parse(&description) {
        Ok(messages) => messages,
        Err(error) => panic!("{}", error),
    };

    let mut stripped = String::new();
    for (_, line) in strip(&description) {
        stripped.push_str(line);
        stripped.push_str("\n");
    }

    let mut round_tripped = String::new();
    for message in &messages {
        round_tripped.push_str(&fmt_message(message));
        round_tripped.push_str("\n");
    }

    if round_tripped != stripped {
        println!("round tripped description does not match stripped description:");
        println!("stripped:\n{}", stripped);
        println!("round tripped:\n{}", round_tripped);
        assert!(false);
    }
}

#[test]
fn duplicate_numbers() {
    let description = r"
    size[4] Tversion:100 tag[2]
    size[4] Rversion:101 tag[2]

    size[4] Tauth:100 tag[2]
    size[4] Rauth:101 tag[2]
  ";

    if let Ok(_) = parse(description) {
        println!("successfully parsed message with duplicate number: {}", description);
        assert!(false);
    }
}

#[test]
fn duplicate_names() {
    let description = r"
    size[4] Thello:77 tag[2]
    size[4] Rhello:78 tag[2]

    size[4] Thello:33 tag[2]
    size[4] Rhello:34 tag[2]
  ";

    if let Ok(_) = parse(description) {
        println!("successfully parsed message with duplicate name: {}", description);
        assert!(false);
    }
}

#[test]
fn mismatched_numbers() {
    let description = r"
    size[4] Thello:77 tag[2]
    size[4] Rhello:76 tag[2]
  ";

    if let Ok(_) = parse(description) {
        println!("successfully parsed message with mismatched numbers: {}", description);
        assert!(false);
    }
}

#[test]
fn missing_request() {
    let description = r"
    size[4] Rhello:1 tag[2]
  ";

    if let Ok(_) = parse(description) {
        println!("successfully parsed message with missing request: {}", description);
        assert!(false);
    }
}

#[test]
fn missing_response() {
    let description = r"
    size[4] Thello:0 tag[2]
  ";

    if let Ok(_) = parse(description) {
        println!("successfully parsed message with missing request: {}", description);
        assert!(false);
    }
}

#[test]
fn two_messages_parse_and_round_trip() {
    let description = "size[4] Tversion:100 tag[2]\nsize[4] Rversion:101 tag[2]";
    let messages = parse(description).expect("well-formed definition must parse");
    assert_eq!(messages.len(), 2);
    assert_eq!(messages[0].full_name, "Tversion");
    assert_eq!(messages[0].name, "version");
    assert!(matches!(messages[0].message_type, MessageType::Request));
    assert_eq!(messages[0].number, 100);
    assert!(messages[0].fields.is_empty());
    assert_eq!(messages[1].full_name, "Rversion");
    assert!(matches!(messages[1].message_type, MessageType::Response));
    assert_eq!(messages[1].number, 101);
    assert_eq!(fmt_message(&messages[0]), "size[4] Tversion:100 tag[2]");
    assert_eq!(fmt_message(&messages[1]), "size[4] Rversion:101 tag[2]");
}

#[test]
fn duplicate_number_reports_the_reused_number() {
    let description = "size[4] Tversion:100 tag[2]\nsize[4] Rversion:101 tag[2]\nsize[4] Tauth:100 tag[2]";
    match parse(description) {
        Ok(_) => panic!("a reused number must be rejected"),
        Err(e) => {
            assert_eq!(
                e,
                "line 3: size[4] Tauth:100 tag[2]\nerror: duplicate message number: Tauth:100"
            );
        }
    }
}

#[test]
fn mismatched_number_reports_both_messages() {
    let description = "size[4] Thello:77 tag[2]\nsize[4] Rhello:76 tag[2]";
    match parse(description) {
        Ok(_) => panic!("a mismatched response number must be rejected"),
        Err(e) => {
            assert!(e.starts_with("error: Response number not equal to request number + 1: hello"));
            assert!(e.contains("Thello: 77"));
            assert!(e.contains("Rhello"));
        }
    }
}

#[test]
fn missing_request_is_an_error() {
    let description = "size[4] Rhello:1 tag[2]";
    match parse(description) {
        Ok(_) => panic!("a response without a request must be rejected"),
        Err(e) => {
            assert_eq!(e, "error: response without corresponding request: hello");
        }
    }
}

#[test]
fn bad_array_back_reference_is_rejected() {
    let description = "size[4] Tx:1 tag[2] count[1] count*(data[1])\nsize[4] Rx:2 tag[2]";
    // here the repetition marker names the preceding field: accepted
    let messages = parse(description).expect("correct back-reference must parse");
    assert_eq!(messages[0].fields.len(), 2);
    assert_eq!(messages[0].fields[1].name, "data");
    assert_eq!(messages[0].fields[1].times.as_deref(), Some("count"));

    // the marker does not name the preceding field: rejected
    let wrong = "size[4] Tx:1 tag[2] count[1] data*(count[1])\nsize[4] Rx:2 tag[2]";
    match parse(wrong) {
        Ok(_) => panic!("a wrong back-reference must be rejected"),
        Err(e) => {
            assert!(e.contains("array field must be preceded by integer times field"));
        }
    }

    // an array field with nothing before it: rejected
    let first = "size[4] Tx:1 tag[2] data*(count[1])\nsize[4] Rx:2 tag[2]";
    match parse(first) {
        Ok(_) => panic!("an array field with no predecessor must be rejected"),
        Err(e) => {
            assert!(e.contains("array field must be preceded by times field"));
        }
    }

    // the preceding field is not of integer class: rejected
    let noninteger = "size[4] Tx:1 tag[2] count[s] count*(data[s])\nsize[4] Rx:2 tag[2]";
    match parse(noninteger) {
        Ok(_) => panic!("a non-integer times field must be rejected"),
        Err(e) => {
            assert!(e.contains("array field must be preceded by integer times field"));
        }
    }
}

#[test]
fn error_response_needs_no_request() {
    let description = "size[4] Rerror:5 tag[2]";
    let messages = parse(description).expect("the error response is exempt from pairing");
    assert_eq!(messages.len(), 1);
    assert_eq!(messages[0].full_name, "Rerror");
    assert_eq!(messages[0].number, 5);
}

#[test]
fn missing_response_is_an_error() {
    let description = "size[4] Thello:7 tag[2]";
    match parse(description) {
        Ok(_) => panic!("a request without a response must be rejected"),
        Err(e) => {
            assert_eq!(e, "error: request without corresponding response: hello");
        }
    }
}

#[test]
fn empty_definition_parses_to_nothing() {
    assert!(parse("").unwrap().is_empty());
    assert!(parse("# only a comment\n\n   \n").unwrap().is_empty());
}

#[test]
fn strip_numbers_lines_and_drops_comments() {
    let text = "# header\nsize[4] Ta:1 tag[2]\n\n  size[4] Ra:2 tag[2]  # trailing\n";
    let lines = strip(text);
    assert_eq!(lines.len(), 2);
    assert_eq!(lines[0], (2, "size[4] Ta:1 tag[2]"));
    assert_eq!(lines[1], (4, "size[4] Ra:2 tag[2]"));
}

#[test]
fn malformed_lines_are_rejected() {
    // no size preamble
    let e = parse("Tversion:100 tag[2]").unwrap_err();
    assert_eq!(e, "line 1: Tversion:100 tag[2]\nerror: each message must begin with size[4]");
    // size has the wrong width
    let e = parse("size[2] Tversion:100 tag[2]").unwrap_err();
    assert!(e.contains("each message must begin with size[4]"));
    // no name token
    let e = parse("size[4] version tag[2]").unwrap_err();
    assert!(e.contains("size tag must be followed by a message name"));
    // no tag field
    let e = parse("size[4] Tversion:100").unwrap_err();
    assert!(e.contains("each message must have tag[2] as its first field"));
    // a trailing field that does not match the grammar
    let e = parse("size[4] Tversion:100 tag[2] junk![9]").unwrap_err();
    assert!(e.contains("bad field in message: junk![9]"));
}

#[test]
fn numbers_above_eight_bits_are_rejected() {
    let ok = parse("size[4] Tbig:255 tag[2]\nsize[4] Rbig:256 tag[2]");
    assert!(ok.is_err(), "256 does not fit an eight-bit number");
    let e = parse("size[4] Tbig:300 tag[2]").unwrap_err();
    assert!(e.contains("size tag must be followed by a message name"));
    // zero and leading zeros are not positive numbers in this grammar
    assert!(parse("size[4] Tzero:0 tag[2]").is_err());
    assert!(parse("size[4] Tzero:07 tag[2]").is_err());
}

#[test]
fn every_field_type_round_trips() {
    let line = "size[4] Tall:9 tag[2] a[1] b[2] c[4] d[8] e[13] f[n] g[count] h[s]\nsize[4] Rall:10 tag[2]";
    let messages = parse(line).expect("every size code must be recognized");
    let fields = &messages[0].fields;
    let expected = [
        FieldType::U8,
        FieldType::U16,
        FieldType::U32,
        FieldType::U64,
        FieldType::QID,
        FieldType::Stat,
        FieldType::Bytes,
        FieldType::String,
    ];
    assert_eq!(fields.len(), expected.len());
    for (f, want) in fields.iter().zip(expected.iter()) {
        assert_eq!(f.field_type, *want);
    }
    assert_eq!(
        fmt_message(&messages[0]),
        "size[4] Tall:9 tag[2] a[1] b[2] c[4] d[8] e[13] f[n] g[count] h[s]"
    );
}
