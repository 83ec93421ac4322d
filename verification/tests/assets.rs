use regexr_server::actions::stubs::{stub_response, StubData};
use regexr_server::http::static_assets::{asset_headers, cache_control, injected_init};

#[test]
fn init_script_carries_the_version() {
    let s = injected_init("10.42 2023-12-11");
    assert!(s.contains("regexr.init(false,"), "init injected");
    assert!(s.contains("\"PCREVersion\": \"10.42 2023-12-11\""));
    assert!(s.contains("private-rust-deploy"), "versions injected");
    assert!(s.contains("authenticated: false"));
}

#[test]
fn cache_policy() {
    assert_eq!(cache_control("assets/app.12ab.js"), "public, max-age=86400");
    assert_eq!(cache_control("regexr.js"), "no-cache");
    assert_eq!(cache_control("assets"), "no-cache");
    assert_eq!(cache_control("x/assets/a.png"), "no-cache");
}

#[test]
fn asset_content_types() {
    let h = asset_headers("regexr.css");
    assert_eq!(h.content_type, "text/css");
    assert_eq!(h.cache_control, "no-cache");
    let h = asset_headers("assets/app.js");
    assert_eq!(h.content_type, "text/javascript");
    assert_eq!(h.cache_control, "public, max-age=86400");
    assert_eq!(asset_headers("assets/blob").content_type, "application/octet-stream");
}

#[test]
fn stub_actions() {
    assert!(matches!(stub_response("patterns/search", "10.42"), StubData::NoResults));
    assert!(matches!(stub_response("account/patterns", "10.42"), StubData::NoResults));
    assert!(matches!(stub_response("account/verify", "10.42"), StubData::LoggedOut));
    match stub_response("regex/version", "10.42") {
        StubData::Version(v) => assert_eq!(v, "10.42"),
        other => panic!("unexpected {other:?}"),
    }
    assert!(matches!(stub_response("patterns/load", "10.42"), StubData::Empty));
    assert!(matches!(stub_response("account/logout", "10.42"), StubData::Empty));
}
