use servirtium::servirtium_error::ServirtiumServerError;
use servirtium::servirtium_server::{ConnectionAction, ServirtiumMode, ServirtiumServer};

fn fixture_with_body(body: &str) -> String {
    [
        "## pr/1980/1999/gbr.xml",
        "### Response headers recorded for playback",
        "```",
        "Content-Type: text/xml",
        "```",
        "### Response body recorded for playback",
        "```",
        body,
        "```",
    ]
    .join("\n")
}

#[test]
fn unset_mode_gives_no_response() {
    let server = ServirtiumServer::new();
    assert!(matches!(server.handle_connection(), ConnectionAction::NoResponse));
}

#[test]
fn default_server_gives_no_response() {
    let server = ServirtiumServer::default();
    assert!(matches!(server.handle_connection(), ConnectionAction::NoResponse));
}

#[test]
fn playback_preparation_installs_the_fixture() {
    let mut server = ServirtiumServer::new();
    server
        .prepare_for_test(
            ServirtiumMode::Playback,
            &fixture_with_body("<root/>"),
            "http://climatedataapi.worldbank.org",
        )
        .unwrap();
    match server.handle_connection() {
        ConnectionAction::Reply(bytes) => {
            assert_eq!(bytes, "HTTP/1.1 200 OK\r\nContent-Type: text/xml\r\n\r\n<root/>");
        }
        other => panic!("expected a reply, got {:?}", other),
    }
}

#[test]
fn record_preparation_keeps_the_path() {
    let mut server = ServirtiumServer::new();
    server
        .prepare_for_test(
            ServirtiumMode::Record,
            "playback_data/capture.md",
            "http://climatedataapi.worldbank.org",
        )
        .unwrap();
    match server.handle_connection() {
        ConnectionAction::Record(path) => assert_eq!(path, "playback_data/capture.md"),
        other => panic!("expected a record action, got {:?}", other),
    }
}

#[test]
fn malformed_playback_document_is_rejected_and_mode_unchanged() {
    let mut server = ServirtiumServer::new();
    let err = server
        .prepare_for_test(ServirtiumMode::Playback, "not a fixture at all", "domain")
        .unwrap_err();
    assert!(matches!(err, ServirtiumServerError::InvalidMarkdownFormat));
    assert!(matches!(server.handle_connection(), ConnectionAction::NoResponse));
}

#[test]
fn failed_preparation_leaves_previous_fixture_in_place() {
    let mut server = ServirtiumServer::new();
    server
        .prepare_for_test(ServirtiumMode::Playback, &fixture_with_body("first"), "d")
        .unwrap();
    let err = server
        .prepare_for_test(ServirtiumMode::Playback, "broken document", "d")
        .unwrap_err();
    assert!(matches!(err, ServirtiumServerError::InvalidMarkdownFormat));
    match server.handle_connection() {
        ConnectionAction::Reply(bytes) => assert!(bytes.ends_with("first")),
        other => panic!("expected a reply, got {:?}", other),
    }
}

#[test]
fn each_preparation_replaces_the_previous_state() {
    let mut server = ServirtiumServer::new();
    server
        .prepare_for_test(ServirtiumMode::Playback, &fixture_with_body("old"), "d")
        .unwrap();
    server
        .prepare_for_test(ServirtiumMode::Record, "capture.md", "d")
        .unwrap();
    assert!(matches!(server.handle_connection(), ConnectionAction::Record(_)));
    server
        .prepare_for_test(ServirtiumMode::Playback, &fixture_with_body("new"), "d")
        .unwrap();
    match server.handle_connection() {
        ConnectionAction::Reply(bytes) => {
            assert!(bytes.ends_with("new"));
            assert!(!bytes.contains("old"));
        }
        other => panic!("expected a reply, got {:?}", other),
    }
}

#[test]
fn sequential_preparations_replay_only_their_own_fixture() {
    let mut server = ServirtiumServer::new();
    for i in 0..100 {
        let body = format!("payload-{}", i);
        server
            .prepare_for_test(ServirtiumMode::Playback, &fixture_with_body(&body), "d")
            .unwrap();
        match server.handle_connection() {
            ConnectionAction::Reply(bytes) => {
                let expected =
                    format!("HTTP/1.1 200 OK\r\nContent-Type: text/xml\r\n\r\npayload-{}", i);
                assert_eq!(bytes, expected);
                if i > 0 {
                    assert!(!bytes.contains(&format!("payload-{}", i - 1)));
                }
            }
            other => panic!("expected a reply, got {:?}", other),
        }
    }
}
