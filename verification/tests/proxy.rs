//! Upstream resolution and the redirect rewrite the proxy performs.

use vestibule::apps::App;
use vestibule::apps::AppWithUri;
use vestibule::apps::Scheme;
use vestibule::middlewares::strip_port_from_host;

fn app(host: &str, forward_to: &str) -> App {
    let mut a = App::default();
    a.host = host.to_string();
    a.forward_to = forward_to.to_string();
    a
}

#[test]
fn upstream_resolution_with_port() {
    let a = AppWithUri::from_app_domain_and_http_port(
        app("app2", "localhost:8081"),
        "vestibule.io",
        Some(8080),
    )
    .unwrap();
    assert_eq!(a.app_scheme, Scheme::Http);
    assert_eq!(a.app_authority, "app2.vestibule.io:8080");
    assert_eq!(a.forward_scheme, Scheme::Http);
    assert_eq!(a.forward_host, "localhost");
    assert_eq!(a.forward_authority.port, Some(8081));
    assert_eq!(a.forward_uri, "http://localhost:8081/");
}

#[test]
fn upstream_resolution_external_https() {
    let a = AppWithUri::from_app_domain_and_http_port(
        app("app1", "https://internal.example/base"),
        "vestibule.io",
        None,
    )
    .unwrap();
    assert_eq!(a.app_scheme, Scheme::Https);
    assert_eq!(a.app_authority, "app1.vestibule.io");
    assert_eq!(a.forward_scheme, Scheme::Https);
    assert_eq!(a.forward_host, "internal.example");
    assert_eq!(a.forward_authority.port, None);
    assert_eq!(a.forward_uri, "https://internal.example/");
}

#[test]
fn upstream_resolution_rejects_bad_ports() {
    assert!(
        AppWithUri::from_app_domain_and_http_port(app("x", "host:"), "vestibule.io", None)
            .is_none()
    );
    assert!(
        AppWithUri::from_app_domain_and_http_port(app("x", "host:99999"), "vestibule.io", None)
            .is_none()
    );
    assert!(
        AppWithUri::from_app_domain_and_http_port(app("x", "host:12x"), "vestibule.io", None)
            .is_none()
    );
}

#[test]
fn redirect_to_the_upstream_host_is_rewritten() {
    let a = AppWithUri::from_app_domain_and_http_port(
        app("fwdtoredirect", "localhost:8081"),
        "vestibule.io",
        Some(8080),
    )
    .unwrap();
    // the upstream names itself: the public authority replaces it
    let r = a.rewrite_location("http://localhost:8081/some/path");
    assert_eq!(r.unwrap(), "http://fwdtoredirect.vestibule.io:8080/some/path");
    // query and fragment after the authority survive
    let r = a.rewrite_location("http://localhost/a?b=c#d");
    assert_eq!(r.unwrap(), "http://fwdtoredirect.vestibule.io:8080/a?b=c#d");
}

#[test]
fn foreign_and_relative_redirects_pass_through() {
    let a = AppWithUri::from_app_domain_and_http_port(
        app("absoluteredirect", "localhost:8081"),
        "vestibule.io",
        Some(8080),
    )
    .unwrap();
    assert!(a.rewrite_location("http://absolute.redirect").is_none());
    assert!(a.rewrite_location("/relative/path").is_none());
    assert!(a.rewrite_location("").is_none());
}

#[test]
fn strip_port_keeps_the_bare_host() {
    assert_eq!(strip_port_from_host("vestibule.io:8080"), "vestibule.io");
    assert_eq!(strip_port_from_host("vestibule.io"), "vestibule.io");
}
