use rustweb::build_server;
use rustweb::multimap::HeaderMap;
use rustweb::response::{Body, JsonBody, NoneContent, Response, ResponseBody, Status, TextBody};
use rustweb::router::{Router, RoutingItem};

#[test]
fn build_server_keeps_address_and_port() {
    let web = build_server("0.0.0.0", 7878);
    assert_eq!(web.address, "0.0.0.0".to_string());
    assert_eq!(web.port, 7878);
}

#[test]
fn status_lines_are_exact() {
    let r = Response::build();
    assert_eq!(r.get_status_line(), b"HTTP/1.1 200 OK\r\n".to_vec());
    let r = Response::build_error(Status::NotFound);
    assert_eq!(r.get_status_line(), b"HTTP/1.1 404 Not Found\r\n".to_vec());
    let r = Response::build_error(Status::MethodNotAllowed);
    assert_eq!(r.get_status_line(), b"HTTP/1.1 405 Method Not Allowed\r\n".to_vec());
    let mut r = Response::build();
    r.set_status(Status::InternalServerError);
    assert_eq!(r.get_status_line(), b"HTTP/1.1 500 Internal Server Error\r\n".to_vec());
}

#[test]
fn empty_response_header_is_just_the_blank_line() {
    let r = Response::build();
    assert_eq!(r.get_header(), b"\r\n".to_vec());
}

#[test]
fn headers_render_in_insertion_order() {
    let mut r = Response::build();
    r.add_header(b"Server", b"rustweb");
    r.add_header(b"Connection", b"close");
    assert_eq!(
        r.get_header(),
        b"Server: rustweb\r\nConnection: close\r\n\r\n".to_vec()
    );
    // overwriting keeps the position
    r.add_header(b"Server", b"other");
    assert_eq!(
        r.get_header(),
        b"Server: other\r\nConnection: close\r\n\r\n".to_vec()
    );
}

#[test]
fn body_block_announces_type_length_and_disposition() {
    let mut r = Response::build();
    r.set_body(ResponseBody::Text(TextBody::new(
        b"text/html".to_vec(),
        b"<p>hello</p>".to_vec(),
    )));
    assert_eq!(
        r.get_header(),
        b"Content-Type: text/html\r\nContent-Length: 12\r\n\r\n".to_vec()
    );
}

#[test]
fn json_body_announces_application_json() {
    let mut r = Response::build();
    r.set_body(ResponseBody::Json(JsonBody::new(b"{\"code\":200}")));
    assert_eq!(
        r.get_header(),
        b"Content-Type: application/json\r\nContent-Length: 12\r\n\r\n".to_vec()
    );
}

#[test]
fn new_assembles_all_three_parts() {
    let mut h = HeaderMap::new();
    h.insert(b"X".to_vec(), b"1".to_vec());
    let mut r = Response::new(Status::OK, h, ResponseBody::Empty(NoneContent));
    assert_eq!(r.get_header(), b"X: 1\r\n\r\n".to_vec());
    let mut h2 = HeaderMap::new();
    h2.insert(b"Y".to_vec(), b"2".to_vec());
    r.set_header(h2);
    assert_eq!(r.get_header(), b"Y: 2\r\n\r\n".to_vec());
}

#[test]
fn get_content_streams_in_buffer_sized_chunks() {
    let mut b = TextBody::new(b"text/plain".to_vec(), b"abcdefghij".to_vec());
    assert_eq!(b.get_content_length(), 10);
    let mut buf = vec![0u8; 4];
    assert_eq!(b.get_content(&mut buf), 4);
    assert_eq!(buf, b"abcd".to_vec());
    assert_eq!(b.get_content(&mut buf), 4);
    assert_eq!(buf, b"efgh".to_vec());
    assert_eq!(b.get_content(&mut buf), 2);
    assert_eq!(&buf[..2], b"ij");
    assert_eq!(b.get_content(&mut buf), 0);
}

#[test]
fn none_content_has_no_type_and_no_bytes() {
    let mut b = NoneContent;
    assert_eq!(b.get_content_type(), Vec::<u8>::new());
    assert_eq!(b.get_content_length(), 0);
    let mut buf = vec![7u8; 3];
    assert_eq!(b.get_content(&mut buf), 0);
    assert_eq!(buf, vec![7u8, 7, 7]);
}

#[test]
fn router_resolves_with_query_stripped() {
    let mut router: Router<u32> = Router::new();
    router.insert(
        b"/hello",
        RoutingItem { path: b"/hello".to_vec(), method: b"GET".to_vec(), func: 1 },
    );
    router.insert(
        b"/file/upload",
        RoutingItem { path: b"/file/upload".to_vec(), method: b"POST".to_vec(), func: 2 },
    );
    let hit = router.find(b"/hello?name=sfdex").unwrap();
    assert_eq!(hit.func, 1);
    assert_eq!(hit.method, b"GET".to_vec());
    let hit = router.find(b"/file/upload").unwrap();
    assert_eq!(hit.func, 2);
    assert!(router.find(b"/missing").is_none());
}

#[test]
fn router_insert_overwrites_same_key() {
    let mut router: Router<u32> = Router::new();
    router.insert(
        b"/a",
        RoutingItem { path: b"/a".to_vec(), method: b"GET".to_vec(), func: 1 },
    );
    router.insert(
        b"/a",
        RoutingItem { path: b"/a".to_vec(), method: b"POST".to_vec(), func: 9 },
    );
    let hit = router.find(b"/a").unwrap();
    assert_eq!(hit.func, 9);
    assert_eq!(hit.method, b"POST".to_vec());
}
