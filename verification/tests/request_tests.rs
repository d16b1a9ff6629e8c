use rustweb::content_type::ContentType;
use rustweb::request::{parse_form, parse_request_header, parse_request_line, parse_usize, Request};
use rustweb::multimap::MultiMap;
use rustweb::ProtocolError;

#[test]
fn request_line_recovers_method_path_query_version() {
    let r = parse_request_line(b"POST /hello?name=sfdex&age=18 HTTP/1.1\r\n").unwrap();
    assert_eq!(r.method, b"POST".to_vec());
    assert_eq!(r.uri, b"/hello?name=sfdex&age=18".to_vec());
    assert_eq!(r.path, b"/hello".to_vec());
    assert_eq!(r.version, b"HTTP/1.1".to_vec());
    assert_eq!(r.queries.get_first(b"name"), b"sfdex".to_vec());
    assert_eq!(r.queries.get_first(b"age"), b"18".to_vec());
    assert_eq!(r.queries.len(), 2);
}

#[test]
fn request_line_without_query() {
    let r = parse_request_line(b"GET /index HTTP/1.0\r\n").unwrap();
    assert_eq!(r.method, b"GET".to_vec());
    assert_eq!(r.path, b"/index".to_vec());
    assert_eq!(r.version, b"HTTP/1.0".to_vec());
    assert_eq!(r.queries.len(), 0);
}

#[test]
fn request_line_with_wrong_token_count_is_malformed() {
    assert!(matches!(
        parse_request_line(b"GET /index\r\n"),
        Err(ProtocolError::MalformedRequestLine)
    ));
    assert!(matches!(
        parse_request_line(b"\r\n"),
        Err(ProtocolError::MalformedRequestLine)
    ));
}

#[test]
fn repeated_header_keeps_values_in_arrival_order() {
    let m = parse_request_header(b"Accept: text/html\r\nCookie: a=1\r\nCookie: b=2\r\nCookie: c=3\r\n");
    let cookies = m.get_all(b"Cookie");
    assert_eq!(cookies.len(), 3);
    assert_eq!(cookies[0], b"a=1".to_vec());
    assert_eq!(cookies[1], b"b=2".to_vec());
    assert_eq!(cookies[2], b"c=3".to_vec());
    assert_eq!(m.get_first(b"Accept"), b"text/html".to_vec());
}

#[test]
fn header_names_and_values_are_trimmed() {
    let m = parse_request_header(b"  Host :  www.example.com  \r\n");
    assert_eq!(m.get_first(b"Host"), b"www.example.com".to_vec());
}

#[test]
fn header_lines_without_colon_are_dropped() {
    let m = parse_request_header(b"garbage line\r\nHost: h\r\n");
    assert_eq!(m.len(), 1);
    assert_eq!(m.get_first(b"Host"), b"h".to_vec());
}

#[test]
fn form_pairs_without_equals_are_dropped() {
    let mut m = MultiMap::new();
    parse_form(b"name=John&Doe&age=30", &mut m);
    assert_eq!(m.len(), 2);
    assert_eq!(m.get_first(b"name"), b"John".to_vec());
    assert_eq!(m.get_first(b"age"), b"30".to_vec());
    assert!(!m.contains_key(b"Doe"));
}

#[test]
fn form_repeated_key_accumulates() {
    let mut m = MultiMap::new();
    parse_form(b"k=1&k=2&k=3", &mut m);
    let vs = m.get_all(b"k");
    assert_eq!(vs, vec![b"1".to_vec(), b"2".to_vec(), b"3".to_vec()]);
}

#[test]
fn init_populates_request() {
    let mut rq = Request::new();
    rq.init(
        b"POST /upload?tag=x HTTP/1.1\r\n",
        b"Host: www.example.com\r\nContent-Type: multipart/form-data; boundary=abc123\r\nContent-Length: 42\r\n",
    )
    .unwrap();
    assert_eq!(rq.method, b"POST".to_vec());
    assert_eq!(rq.path, b"/upload".to_vec());
    assert_eq!(rq.version, b"HTTP/1.1".to_vec());
    assert_eq!(rq.form.get_first(b"tag"), b"x".to_vec());
    assert_eq!(rq.content_length, 42);
    assert_eq!(rq.header_first(b"Host"), b"www.example.com".to_vec());
    assert!(matches!(
        rq.content_type,
        ContentType::MultiPart { ref boundary, .. } if boundary == &b"abc123".to_vec()
    ));
    assert_eq!(rq.boundary, b"abc123".to_vec());
}

#[test]
fn unsupported_method_aborts() {
    let mut rq = Request::new();
    let r = rq.init(b"PATCH /x HTTP/1.1\r\n", b"");
    assert!(matches!(r, Err(ProtocolError::UnsupportedMethod)));
    assert_eq!(rq.method, b"".to_vec());
}

#[test]
fn unsupported_version_aborts() {
    let mut rq = Request::new();
    let r = rq.init(b"GET /x HTTP/3\r\n", b"");
    assert!(matches!(r, Err(ProtocolError::UnsupportedVersion)));
}

#[test]
fn empty_request_line_aborts() {
    let mut rq = Request::new();
    assert!(matches!(rq.init(b"", b""), Err(ProtocolError::Empty)));
}

#[test]
fn content_length_defaults_to_zero_on_absence_or_garbage() {
    let mut rq = Request::new();
    rq.init(b"GET / HTTP/1.1\r\n", b"Host: h\r\n").unwrap();
    assert_eq!(rq.content_length, 0);
    let mut rq2 = Request::new();
    rq2.init(b"GET / HTTP/1.1\r\n", b"Content-Length: twelve\r\n").unwrap();
    assert_eq!(rq2.content_length, 0);
}

#[test]
fn body_reassembles_exactly_under_any_chunking() {
    let original: Vec<u8> = (0..=255u8).cycle().take(1000).collect();
    for chunk in [1usize, 2, 3, 7, 100, 999, 1000, 4096] {
        let mut rq = Request::new();
        let header = format!("Content-Length: {}\r\n", original.len());
        rq.init(b"POST /u HTTP/1.1\r\n", header.as_bytes()).unwrap();
        let mut fed = 0;
        while rq.body_wanted() > 0 {
            let end = (fed + chunk).min(original.len());
            let took = rq.body_push_chunk(&original[fed..end]);
            assert_eq!(took, end - fed);
            fed = end;
        }
        assert_eq!(rq.body(), original);
    }
}

#[test]
fn oversized_body_is_rejected_and_treated_as_empty() {
    let mut rq = Request::new();
    rq.init(b"POST /u HTTP/1.1\r\n", b"Content-Length: 15000000\r\n").unwrap();
    assert_eq!(rq.content_length, 15000000);
    assert!(rq.body_limit_exceeded());
    assert_eq!(rq.body_wanted(), 0);
    let took = rq.body_push_chunk(&[1, 2, 3]);
    assert_eq!(took, 0);
    assert_eq!(rq.body(), Vec::<u8>::new());
}

#[test]
fn post_form_parses_collected_body() {
    let mut rq = Request::new();
    rq.init(b"POST /u HTTP/1.1\r\n", b"Content-Length: 20\r\n").unwrap();
    rq.body_push_chunk(b"name=John&Doe&age=30");
    rq.parse_post_form();
    assert_eq!(rq.post_form.get_first(b"name"), b"John".to_vec());
    assert_eq!(rq.post_form.get_first(b"age"), b"30".to_vec());
}

#[test]
fn parse_usize_accepts_exact_digits_only() {
    assert_eq!(parse_usize(b"0"), Some(0));
    assert_eq!(parse_usize(b"18"), Some(18));
    assert_eq!(parse_usize(b"10485760"), Some(10485760));
    assert_eq!(parse_usize(b""), None);
    assert_eq!(parse_usize(b"1a2"), None);
    assert_eq!(parse_usize(b"-1"), None);
    assert_eq!(parse_usize(b" 1"), None);
}

#[test]
fn content_type_classification() {
    assert!(matches!(ContentType::parse(b""), ContentType::NoneType));
    assert!(matches!(
        ContentType::parse(b"text/html"),
        ContentType::Text(ref s) if s == &b"html".to_vec()
    ));
    assert!(matches!(
        ContentType::parse(b"image/png"),
        ContentType::Image(ref s) if s == &b"png".to_vec()
    ));
    assert!(matches!(
        ContentType::parse(b"audio/mpeg"),
        ContentType::Audio(ref s) if s == &b"mpeg".to_vec()
    ));
    assert!(matches!(
        ContentType::parse(b"video/mp4"),
        ContentType::Video(ref s) if s == &b"mp4".to_vec()
    ));
    assert!(matches!(
        ContentType::parse(b"application/json"),
        ContentType::Application(ref s) if s == &b"json".to_vec()
    ));
    assert!(matches!(
        ContentType::parse(b"application/x-www-form-urlencoded; charset=utf-8"),
        ContentType::Application(ref s) if s == &b"x-www-form-urlencoded".to_vec()
    ));
    assert!(matches!(
        ContentType::parse(b"multipart/form-data; boundary=----WebKit123"),
        ContentType::MultiPart { ref sub_type, ref boundary }
            if sub_type == &b"form-data".to_vec() && boundary == &b"----WebKit123".to_vec()
    ));
    assert!(matches!(ContentType::parse(b"nonsense"), ContentType::NoneType));
}
