use wsm_toys::echoip::{bad_request, classify_request, generate_index, not_found, respond, route_request, Route};

#[test]
fn echoip_generate_index_formats_response() {
    let r = generate_index("127.0.0.1".to_string());
    assert_eq!(
        r,
        "HTTP/1.1 200 OK\r\nContent-Length: 9\r\nConnection: keep-alive\r\nContent-Type: text/plain\r\n\r\n127.0.0.1"
    );
    let empty = generate_index(String::new());
    assert!(empty.contains("Content-Length: 0\r\n"));
    let long = generate_index("2001:db8:0:0:0:0:0:1".to_string());
    assert!(long.starts_with("HTTP/1.1 200 OK\r\nContent-Length: 20\r\n"));
    assert!(long.ends_with("\r\n\r\n2001:db8:0:0:0:0:0:1"));
}

#[test]
fn echoip_routes_by_first_line() {
    assert_eq!(route_request("GET / HTTP/1.1"), Route::Index);
    assert_eq!(route_request("get / http/1.1"), Route::Index);
    assert_eq!(route_request("GET /favicon.ico HTTP/1.1"), Route::NotFound);
    assert_eq!(route_request("POST / HTTP/1.1"), Route::BadRequest);
    assert_eq!(route_request("GET /"), Route::NotFound);
    assert_eq!(classify_request("get / "), Route::Index);
    assert_eq!(classify_request(""), Route::BadRequest);
}

#[test]
fn echoip_respond_bytes() {
    assert_eq!(
        respond("GET / HTTP/1.1", "10.0.0.2".to_string()),
        b"HTTP/1.1 200 OK\r\nContent-Length: 8\r\nConnection: keep-alive\r\nContent-Type: text/plain\r\n\r\n10.0.0.2".to_vec()
    );
    assert_eq!(
        respond("GET /x HTTP/1.1", "10.0.0.2".to_string()),
        b"HTTP/1.1 404 Not Found\r\nContent-Length: 0\r\nConnection: keep-alive\r\n\r\n".to_vec()
    );
    assert_eq!(
        respond("HEAD / HTTP/1.1", "10.0.0.2".to_string()),
        b"HTTP/1.1 400 Bad Request\r\nContent-Length: 0\r\nConnection: keep-alive\r\n\r\n".to_vec()
    );
    assert_eq!(not_found().as_bytes(), &respond("get /a", String::new())[..]);
    assert_eq!(bad_request().len(), 71);
}
