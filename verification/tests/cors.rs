use solid_server::cors::cors_headers;

#[test]
fn origin_is_echoed() {
    let h = cors_headers(Some(b"https://app.example".to_vec()));
    assert_eq!(h.allow_origin, b"https://app.example".to_vec());
}

#[test]
fn missing_origin_allows_any() {
    let h = cors_headers(None);
    assert_eq!(h.allow_origin, b"*".to_vec());
    assert_eq!(
        h.allow_headers,
        "Authorization, Content-Type, If-Match, If-None-Match, If-Modified-Since, If-Unmodified-Since"
    );
    assert_eq!(h.expose_headers, "ETag, Last-Modified, Location, Link, WAC-Allow");
}
