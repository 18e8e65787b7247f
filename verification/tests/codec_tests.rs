use servirtium::playback::PlaybackData;
use servirtium::servirtium_error::ServirtiumServerError;
use servirtium::servirtium_server::ServirtiumServer;

fn fixture_document() -> String {
    [
        "## pr/1980/1999/gbr.xml",
        "",
        "### Response headers recorded for playback",
        "",
        "```",
        "Content-Type: text/xml",
        "Date: Tue, 07 Jul 2020 14:42:14 GMT",
        "```",
        "",
        "### Response body recorded for playback",
        "",
        "```",
        "<root/>",
        "```",
        "",
    ]
    .join("\n")
}

#[test]
fn decode_well_formed_document_yields_exact_record() {
    let record = PlaybackData::decode(&fixture_document()).unwrap();
    assert_eq!(record.uri, "pr/1980/1999/gbr.xml");
    assert_eq!(
        record.headers,
        vec![
            ("Content-Type".to_string(), "text/xml".to_string()),
            ("Date".to_string(), "Tue, 07 Jul 2020 14:42:14 GMT".to_string()),
        ]
    );
    assert_eq!(record.response_body, "<root/>");
}

#[test]
fn decode_preserves_header_order_and_duplicates() {
    let doc = [
        "## a/b.xml",
        "### Response headers recorded for playback",
        "```",
        "Set-Cookie: one",
        "Date: d",
        "Set-Cookie: two",
        "```",
        "### Response body recorded for playback",
        "```",
        "body",
        "```",
    ]
    .join("\n");
    let record = PlaybackData::decode(&doc).unwrap();
    assert_eq!(
        record.headers,
        vec![
            ("Set-Cookie".to_string(), "one".to_string()),
            ("Date".to_string(), "d".to_string()),
            ("Set-Cookie".to_string(), "two".to_string()),
        ]
    );
}

#[test]
fn decode_missing_heading_fails_with_invalid_format() {
    let doc = fixture_document().replace("## pr/1980/1999/gbr.xml", "pr/1980/1999/gbr.xml");
    let err = PlaybackData::decode(&doc).unwrap_err();
    assert!(matches!(err, ServirtiumServerError::InvalidMarkdownFormat));
}

#[test]
fn decode_missing_headers_section_fails_with_invalid_format() {
    let doc = fixture_document().replace(
        "### Response headers recorded for playback",
        "### Something else entirely",
    );
    let err = PlaybackData::decode(&doc).unwrap_err();
    assert!(matches!(err, ServirtiumServerError::InvalidMarkdownFormat));
}

#[test]
fn decode_missing_body_section_fails_with_invalid_format() {
    let doc = fixture_document().replace(
        "### Response body recorded for playback",
        "### Another heading",
    );
    let err = PlaybackData::decode(&doc).unwrap_err();
    assert!(matches!(err, ServirtiumServerError::InvalidMarkdownFormat));
}

#[test]
fn decode_missing_final_fence_fails_with_invalid_format() {
    let doc = [
        "## a/b.xml",
        "### Response headers recorded for playback",
        "```",
        "```",
        "### Response body recorded for playback",
        "```",
        "body with no closing fence",
    ]
    .join("\n");
    let err = PlaybackData::decode(&doc).unwrap_err();
    assert!(matches!(err, ServirtiumServerError::InvalidMarkdownFormat));
}

#[test]
fn decode_without_any_fence_fails_with_invalid_format() {
    let doc = [
        "## a/b.xml",
        "### Response headers recorded for playback",
        "Content-Type: text/xml",
        "### Response body recorded for playback",
        "<root/>",
    ]
    .join("\n");
    let err = PlaybackData::decode(&doc).unwrap_err();
    assert!(matches!(err, ServirtiumServerError::InvalidMarkdownFormat));
}

#[test]
fn decode_empty_document_fails_with_invalid_format() {
    let err = PlaybackData::decode("").unwrap_err();
    assert!(matches!(err, ServirtiumServerError::InvalidMarkdownFormat));
}

#[test]
fn decode_ignores_surrounding_markdown() {
    let doc = [
        "# Captured interactions",
        "Some prose about the capture.",
        "## pr/1980/1999/gbr.xml",
        "More prose.",
        "### Response headers recorded for playback",
        "prose between label and fence is ignored",
        "```",
        "Content-Type: text/xml",
        "```",
        "### Response body recorded for playback",
        "```",
        "<root/>",
        "```",
        "Trailing notes.",
    ]
    .join("\n");
    let record = PlaybackData::decode(&doc).unwrap();
    assert_eq!(record.uri, "pr/1980/1999/gbr.xml");
    assert_eq!(
        record.headers,
        vec![("Content-Type".to_string(), "text/xml".to_string())]
    );
    assert_eq!(record.response_body, "<root/>");
}

#[test]
fn decode_trims_uri_and_body_and_values() {
    let doc = [
        "##   pr/a.xml  ",
        "### Response headers recorded for playback",
        "```",
        "  Date:   spaced out  ",
        "```",
        "### Response body recorded for playback",
        "```",
        "",
        "  body text",
        "",
        "```",
    ]
    .join("\n");
    let record = PlaybackData::decode(&doc).unwrap();
    assert_eq!(record.uri, "pr/a.xml");
    assert_eq!(
        record.headers,
        vec![("Date".to_string(), "spaced out".to_string())]
    );
    assert_eq!(record.response_body, "body text");
}

#[test]
fn decode_requires_xml_extension_in_heading() {
    let doc = fixture_document().replace("## pr/1980/1999/gbr.xml", "## pr/1980/1999/gbr.json");
    let err = PlaybackData::decode(&doc).unwrap_err();
    assert!(matches!(err, ServirtiumServerError::InvalidMarkdownFormat));
}

#[test]
fn parse_headers_ignores_lines_of_other_shapes() {
    let block = [
        "Content-Type: text/xml",
        "this line is prose and has no colon",
        "12bad: numbers in the name",
        "NoSpace:value",
        "Spaced : blank before the colon",
        "X-Empty: ",
        "",
        "Last-One: ok",
    ]
    .join("\n");
    let headers = ServirtiumServer::parse_headers(&block);
    assert_eq!(
        headers,
        vec![
            ("Content-Type".to_string(), "text/xml".to_string()),
            ("X-Empty".to_string(), "".to_string()),
            ("Last-One".to_string(), "ok".to_string()),
        ]
    );
}

#[test]
fn parse_headers_allows_leading_blanks_before_the_name() {
    let headers = ServirtiumServer::parse_headers("   Date: d");
    assert_eq!(headers, vec![("Date".to_string(), "d".to_string())]);
}

#[test]
fn parse_headers_of_empty_block_is_empty() {
    assert_eq!(ServirtiumServer::parse_headers(""), vec![]);
}

#[test]
fn parse_headers_keeps_value_with_colons() {
    let headers = ServirtiumServer::parse_headers("Location: http://localhost:61417/x");
    assert_eq!(
        headers,
        vec![("Location".to_string(), "http://localhost:61417/x".to_string())]
    );
}

#[test]
fn encode_then_decode_round_trips() {
    let record = PlaybackData {
        uri: "pr/1980/1999/gbr.xml".to_string(),
        headers: vec![
            ("Content-Type".to_string(), "text/xml".to_string()),
            ("Set-Cookie".to_string(), "a=1".to_string()),
            ("Set-Cookie".to_string(), "a=1".to_string()),
            ("X-Empty".to_string(), "".to_string()),
        ],
        response_body: "<root>\n  <row>1</row>\n</root>".to_string(),
    };
    let encoded = record.encode();
    let decoded = PlaybackData::decode(&encoded).unwrap();
    assert_eq!(decoded, record);
}

#[test]
fn encode_of_headerless_record_round_trips() {
    let record = PlaybackData {
        uri: "a/b.xml".to_string(),
        headers: vec![],
        response_body: "plain".to_string(),
    };
    let decoded = PlaybackData::decode(&record.encode()).unwrap();
    assert_eq!(decoded, record);
}

#[test]
fn encode_prints_the_fixture_format() {
    let record = PlaybackData {
        uri: "a/b.xml".to_string(),
        headers: vec![("Date".to_string(), "d".to_string())],
        response_body: "body".to_string(),
    };
    let expected = "## a/b.xml\n\
                    ### Response headers recorded for playback\n\
                    ```\n\
                    Date: d\n\
                    ```\n\
                    ### Response body recorded for playback\n\
                    ```\n\
                    body\n\
                    ```\n";
    assert_eq!(record.encode(), expected);
}

#[test]
fn decode_accepts_carriage_return_line_endings() {
    let doc = [
        "## pr/a.xml",
        "### Response headers recorded for playback",
        "```",
        "Content-Type: text/xml",
        "```",
        "### Response body recorded for playback",
        "```",
        "<root/>",
        "```",
    ]
    .join("\r\n");
    let record = PlaybackData::decode(&doc).unwrap();
    assert_eq!(record.uri, "pr/a.xml");
    assert_eq!(
        record.headers,
        vec![("Content-Type".to_string(), "text/xml".to_string())]
    );
    assert_eq!(record.response_body, "<root/>");
}

#[test]
fn decode_captures_the_first_heading() {
    let doc = [
        "## pr/first.xml",
        "## pr/second.xml",
        "### Response headers recorded for playback",
        "```",
        "```",
        "### Response body recorded for playback",
        "```",
        "body",
        "```",
    ]
    .join("\n");
    let record = PlaybackData::decode(&doc).unwrap();
    assert_eq!(record.uri, "pr/first.xml");
    assert_eq!(record.headers, vec![]);
    assert_eq!(record.response_body, "body");
}

#[test]
fn error_messages_name_the_failure() {
    assert_eq!(
        ServirtiumServerError::InvalidMarkdownFormat.message(),
        "The markdown format was poisoned"
    );
    assert_eq!(
        ServirtiumServerError::IoError("no such file".to_string()).message(),
        "IoError: no such file"
    );
    assert_eq!(
        ServirtiumServerError::PoisonedLock.message(),
        "The lock was poisoned"
    );
}
