use rustimo::http::{
    admission, editor_route, header_progress, parse_head, request_body, response_head, route,
    valid_request_origin, worker_request_head, worker_status, Admission, EditorRoute,
    HeaderProgress, RequestError, Route, WorkerResponseError, MAX_HEADER,
};

fn headers(pairs: &[(&str, &str)]) -> Vec<(String, String)> {
    pairs.iter().map(|(k, v)| (k.to_string(), v.to_string())).collect()
}

#[test]
fn a_head_is_complete_at_its_blank_line() {
    let bytes = b"GET / HTTP/1.1\r\nHost: x\r\n\r\nbody";
    match header_progress(bytes) {
        HeaderProgress::Complete(end) => assert_eq!(end, 27),
        _ => panic!("head should be complete"),
    }
    assert!(matches!(header_progress(b"GET / HTTP/1.1\r\nHost"), HeaderProgress::NeedMore));
}

#[test]
fn a_head_longer_than_the_limit_is_refused() {
    let mut long = vec![b'a'; MAX_HEADER + 1];
    assert!(matches!(header_progress(&long), HeaderProgress::TooLarge));
    long.extend_from_slice(b"\r\n\r\n");
    assert!(matches!(header_progress(&long), HeaderProgress::TooLarge));
    let mut exact = vec![b'a'; MAX_HEADER];
    exact.extend_from_slice(b"\r\n\r\n");
    match header_progress(&exact) {
        HeaderProgress::Complete(end) => assert_eq!(end, MAX_HEADER + 4),
        _ => panic!("a head of exactly the limit is accepted"),
    }
}

#[test]
fn a_head_gives_method_path_headers_and_length() {
    let head = parse_head(
        b"POST /api/signal HTTP/1.1\r\nHost:  127.0.0.1:3001 \r\nContent-Length: 12\r\nno colon here\r\nX-Thing: a:b\r\n\r\n",
    )
    .unwrap();
    assert_eq!(head.method, "POST");
    assert_eq!(head.path, "/api/signal");
    assert_eq!(
        head.headers,
        headers(&[("host", "127.0.0.1:3001"), ("content-length", "12"), ("x-thing", "a:b")])
    );
    assert_eq!(head.content_length, 12);
}

#[test]
fn a_head_without_length_has_an_empty_body() {
    let head = parse_head(b"GET / HTTP/1.0\r\n\r\n").unwrap();
    assert_eq!(head.content_length, 0);
    assert!(head.headers.is_empty());
}

#[test]
fn bad_heads_are_refused_with_their_reason() {
    assert!(parse_head(b"GET / HTTP/2\r\n\r\n").err() == Some(RequestError::InvalidRequestLine));
    assert!(parse_head(b"GET /\r\n\r\n").err() == Some(RequestError::InvalidRequestLine));
    assert!(parse_head(b"GET / HTTP/1.1\r\n\xff\r\n\r\n").err() == Some(RequestError::InvalidHeader));
    assert!(
        parse_head(b"GET / HTTP/1.1\r\nContent-Length: ten\r\n\r\n").err()
            == Some(RequestError::InvalidContentLength)
    );
    assert!(
        parse_head(b"GET / HTTP/1.1\r\nContent-Length: -1\r\n\r\n").err()
            == Some(RequestError::InvalidContentLength)
    );
    assert!(
        parse_head(b"GET / HTTP/1.1\r\nContent-Length: 99999999999999999999999\r\n\r\n").err()
            == Some(RequestError::InvalidContentLength)
    );
    assert!(
        parse_head(b"GET / HTTP/1.1\r\nContent-Length: 65537\r\n\r\n").err()
            == Some(RequestError::BodyTooLarge)
    );
    let head = parse_head(b"GET / HTTP/1.1\r\ncontent-length: +65536\r\n\r\n").unwrap();
    assert_eq!(head.content_length, 65536);
    assert_eq!(RequestError::BodyTooLarge.message(), "HTTP body too large");
    assert_eq!(RequestError::IncompleteHeader.message(), "incomplete HTTP header");
}

#[test]
fn the_first_content_length_counts() {
    let head = parse_head(b"GET / HTTP/1.1\r\nContent-Length: 3\r\nContent-Length: x\r\n\r\n").unwrap();
    assert_eq!(head.content_length, 3);
}

#[test]
fn the_body_is_taken_once_it_has_arrived() {
    let bytes = b"HEAD\r\n\r\nhello world";
    assert_eq!(request_body(bytes, 8, 5).unwrap(), b"hello".to_vec());
    assert_eq!(request_body(bytes, 8, 11).unwrap(), b"hello world".to_vec());
    assert!(request_body(bytes, 8, 12).is_none());
}

#[test]
fn only_this_servers_host_and_origin_are_admitted() {
    let host = "127.0.0.1:3001";
    assert!(admission(&headers(&[("host", host)]), host) == Admission::Allowed);
    assert!(admission(&headers(&[("host", "localhost:3001")]), host) == Admission::Allowed);
    assert!(admission(&headers(&[("host", "evil.example")]), host) == Admission::InvalidHost);
    assert!(admission(&headers(&[]), host) == Admission::InvalidHost);
    assert!(
        admission(&headers(&[("host", host), ("origin", "http://localhost:3001")]), host)
            == Admission::Allowed
    );
    assert!(
        admission(&headers(&[("host", host), ("origin", "http://127.0.0.1:3001")]), host)
            == Admission::Allowed
    );
    assert!(
        admission(&headers(&[("host", host), ("origin", "http://evil.example")]), host)
            == Admission::InvalidOrigin
    );
    assert!(
        admission(
            &headers(&[("host", host), ("origin", "http://evil.example"), ("origin", "http://localhost:3001")]),
            host
        ) == Admission::InvalidOrigin
    );
    assert!(valid_request_origin(&headers(&[("host", "localhost:3001")]), host));
    assert!(!valid_request_origin(&headers(&[("host", "localhost:3002")]), host));
}

#[test]
fn a_host_without_a_port_is_its_own_port() {
    assert!(admission(&headers(&[("host", "localhost:myhost")]), "myhost") == Admission::Allowed);
}

#[test]
fn requests_are_routed_by_method_and_path() {
    assert!(route("GET", "/") == Route::Page);
    assert!(route("GET", "/api/state") == Route::State);
    assert!(route("POST", "/api/signal") == Route::Signal);
    assert!(route("GET", "/api/signal") == Route::NotFound);
    assert!(editor_route("GET", "/api/source") == EditorRoute::Source);
    assert!(editor_route("POST", "/api/run") == EditorRoute::Forward);
    assert!(editor_route("POST", "/api/signal") == EditorRoute::Forward);
    assert!(editor_route("POST", "/api/source") == EditorRoute::SaveSource);
    assert!(editor_route("POST", "/api/cell") == EditorRoute::SaveCell);
    assert!(editor_route("GET", "/api/state") == EditorRoute::State);
    assert!(editor_route("GET", "/") == EditorRoute::Page);
    assert!(editor_route("PUT", "/") == EditorRoute::NotFound);
}

#[test]
fn a_response_head_announces_its_body() {
    assert_eq!(
        response_head("200 OK", "application/json", 1234),
        "HTTP/1.1 200 OK\r\nContent-Type: application/json\r\nContent-Length: 1234\r\nCache-Control: no-store\r\nX-Content-Type-Options: nosniff\r\nConnection: close\r\n\r\n"
    );
    assert!(response_head("404 Not Found", "text/plain", 0).contains("Content-Length: 0\r\n"));
    assert_eq!(
        worker_request_head("GET", "/api/state", "127.0.0.1:4000", 0),
        "GET /api/state HTTP/1.1\r\nHost: 127.0.0.1:4000\r\nContent-Type: application/json\r\nContent-Length: 0\r\nConnection: close\r\n\r\n"
    );
}

#[test]
fn a_worker_response_gives_its_status_and_body() {
    let response = b"HTTP/1.1 422 Unprocessable Entity\r\nContent-Length: 2\r\n\r\n{}";
    let (status, start) = worker_status(response).ok().unwrap();
    assert_eq!(status, 422);
    assert_eq!(&response[start..], b"{}");
    assert!(matches!(worker_status(b"HTTP/1.1 200 OK"), Err(WorkerResponseError::NoHeadEnd)));
    assert!(matches!(worker_status(b"HTTP/1.1 OK\r\n\r\n"), Err(WorkerResponseError::InvalidStatus)));
    assert!(matches!(worker_status(b"HTTP/1.1 70000\r\n\r\n"), Err(WorkerResponseError::InvalidStatus)));
    assert!(matches!(worker_status(b"\xff 200\r\n\r\n"), Err(WorkerResponseError::InvalidHead(_))));
    assert_eq!(WorkerResponseError::NoHeadEnd.message(), "invalid worker HTTP response");
    assert_eq!(WorkerResponseError::InvalidStatus.message(), "invalid worker status");
}
