use clog_core::slow_requests::normalise_path;

#[test]
fn normalise_strips_query_string() {
    assert_eq!(normalise_path("/foo?bar=1&baz=2"), "/foo");
}

#[test]
fn normalise_collapses_numeric_segments() {
    assert_eq!(normalise_path("/order/12345/edit"), "/order/{id}/edit");
    assert_eq!(normalise_path("/12/34/56"), "/{id}/{id}/{id}");
}

#[test]
fn normalise_collapses_uuid_segments() {
    assert_eq!(
        normalise_path("/job/3f3c8b58-0d2d-4f12-9f8f-1a0bb6e5e1aa/status"),
        "/job/{id}/status"
    );
}

#[test]
fn normalise_collapses_long_hex_runs() {
    assert_eq!(normalise_path("/asset/abcdef0123456789/preview"), "/asset/{id}/preview");
}

#[test]
fn normalise_preserves_trailing_slash() {
    assert_eq!(normalise_path("/foo/"), "/foo/");
    assert_eq!(normalise_path("/foo"), "/foo");
    assert_ne!(normalise_path("/foo/"), normalise_path("/foo"));
}

#[test]
fn normalise_root_path_is_root() {
    assert_eq!(normalise_path("/"), "/");
}

#[test]
fn normalise_leaves_human_segments_alone() {
    assert_eq!(
        normalise_path("/checkout/setdeliveryaddress.json"),
        "/checkout/setdeliveryaddress.json"
    );
}

#[test]
fn normalise_is_idempotent_and_keeps_segments() {
    for raw in [
        "/a/123/b?x=1",
        "//",
        "/",
        "",
        "api/550e8400-e29b-41d4-a716-446655440000/",
        "/asset/abcdef0123456789/preview",
        "/x//y/",
        "?only=query",
    ] {
        let once = normalise_path(raw);
        assert_eq!(normalise_path(&once), once, "{raw}");
        let before = raw.split('?').next().unwrap().split('/').filter(|s| !s.is_empty()).count();
        let after = once.split('/').filter(|s| !s.is_empty()).count();
        assert_eq!(before, after, "{raw}");
    }
}
