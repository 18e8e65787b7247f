use servirtium::playback::PlaybackData;
use servirtium::response::playback_response;

fn record(headers: Vec<(&str, &str)>, body: &str) -> PlaybackData {
    PlaybackData {
        uri: "a/b.xml".to_string(),
        headers: headers
            .into_iter()
            .map(|(k, v)| (k.to_string(), v.to_string()))
            .collect(),
        response_body: body.to_string(),
    }
}

#[test]
fn empty_header_list_emits_status_line_and_body_only() {
    let r = record(vec![], "<root/>");
    assert_eq!(playback_response(&r), "HTTP/1.1 200 OK\r\n\r\n<root/>");
}

#[test]
fn headers_are_emitted_in_recorded_order() {
    let r = record(
        vec![("Content-Type", "text/xml"), ("Date", "d"), ("Content-Type", "text/xml")],
        "<root/>",
    );
    assert_eq!(
        playback_response(&r),
        "HTTP/1.1 200 OK\r\nContent-Type: text/xml\r\nDate: d\r\nContent-Type: text/xml\r\n\r\n<root/>"
    );
}

#[test]
fn chunked_transfer_encoding_pair_is_never_emitted() {
    let r = record(
        vec![
            ("Content-Type", "text/xml"),
            ("Transfer-Encoding", "chunked"),
            ("Date", "d"),
        ],
        "<root/>",
    );
    let response = playback_response(&r);
    assert_eq!(
        response,
        "HTTP/1.1 200 OK\r\nContent-Type: text/xml\r\nDate: d\r\n\r\n<root/>"
    );
    assert!(!response.contains("Transfer-Encoding"));
    assert!(!response.contains("chunked"));
}

#[test]
fn transfer_encoding_with_another_coding_is_kept() {
    let r = record(vec![("Transfer-Encoding", "gzip")], "x");
    assert_eq!(
        playback_response(&r),
        "HTTP/1.1 200 OK\r\nTransfer-Encoding: gzip\r\n\r\nx"
    );
}

#[test]
fn chunked_filter_matches_name_and_value_exactly() {
    let r = record(vec![("transfer-encoding", "chunked"), ("Transfer-Encoding", "Chunked")], "x");
    assert_eq!(
        playback_response(&r),
        "HTTP/1.1 200 OK\r\ntransfer-encoding: chunked\r\nTransfer-Encoding: Chunked\r\n\r\nx"
    );
}

#[test]
fn all_headers_filtered_still_leaves_header_section_frame() {
    let r = record(vec![("Transfer-Encoding", "chunked")], "body");
    assert_eq!(playback_response(&r), "HTTP/1.1 200 OK\r\n\r\nbody");
}

#[test]
fn body_is_replayed_verbatim() {
    let body = "line one\nline two\r\nline three";
    let r = record(vec![], body);
    let response = playback_response(&r);
    assert_eq!(&response["HTTP/1.1 200 OK\r\n\r\n".len()..], body);
}
