//! The configuration model: the textual round trip, the host map and its key
//! derivation, and the service admin rules.

use sha2::Digest;
use vestibule::apps::App;
use vestibule::apps::add_app;
use vestibule::apps::delete_app;
use vestibule::codec::parse_config;
use vestibule::codec::serialize_config;
use vestibule::configuration::Config;
use vestibule::configuration::HostType;
use vestibule::configuration::auto_tls;
use vestibule::configuration::build_config_map;
use vestibule::configuration::debug_mode;
use vestibule::configuration::hostname;
use vestibule::configuration::http_port;
use vestibule::davs::model::Dav;
use vestibule::davs::model::add_dav;
use vestibule::davs::model::delete_dav;
use vestibule::users::User;

fn sample_apps() -> Vec<App> {
    vec![
        App {
            id: 1,
            name: "App 1".to_owned(),
            icon: "app_1_icon".to_owned(),
            color: "#010101".to_owned(),
            is_proxy: true,
            host: "app1".to_owned(),
            forward_to: "192.168.1.8".to_owned(),
            secured: true,
            login: "admin".to_owned(),
            password: "ff54fds6f".to_owned(),
            openpath: "".to_owned(),
            roles: vec!["ADMINS".to_owned(), "USERS".to_owned()],
        },
        App {
            id: 2,
            name: "App 2".to_owned(),
            icon: "app_2_icon".to_owned(),
            color: "#020202".to_owned(),
            is_proxy: false,
            host: "app2".to_owned(),
            forward_to: "localhost:8081".to_owned(),
            secured: true,
            login: "admin".to_owned(),
            password: "ff54fds6f".to_owned(),
            openpath: "/javascript_simple.html".to_owned(),
            roles: vec!["ADMINS".to_owned()],
        },
    ]
}

fn sample_davs() -> Vec<Dav> {
    vec![
        Dav {
            id: 1,
            host: "files1".to_owned(),
            directory: "/data/file1".to_owned(),
            writable: true,
            name: "Files 1".to_owned(),
            icon: "file-invoice".to_owned(),
            color: "#2ce027".to_owned(),
            secured: true,
            allow_symlinks: false,
            roles: vec!["ADMINS".to_owned(), "USERS".to_owned()],
            passphrase: "ABCD123".to_owned(),
            key: None,
        },
        Dav {
            id: 2,
            host: "files2".to_owned(),
            directory: "/data/file2".to_owned(),
            writable: true,
            name: "Files 2".to_owned(),
            icon: "file-invoice".to_owned(),
            color: "#2ce027".to_owned(),
            secured: true,
            allow_symlinks: true,
            roles: vec!["USERS".to_owned()],
            passphrase: "".to_owned(),
            key: None,
        },
    ]
}

fn sample_users() -> Vec<User> {
    vec![
        User {
            login: "admin".to_owned(),
            password: "password".to_owned(),
            roles: vec!["ADMINS".to_owned()],
        },
        User {
            login: "user".to_owned(),
            password: "password".to_owned(),
            roles: vec!["USERS".to_owned()],
        },
    ]
}

fn sample_config() -> Config {
    Config {
        hostname: "vestibule.io".to_owned(),
        debug_mode: false,
        http_port: 8080,
        auto_tls: false,
        letsencrypt_email: "foo@bar.com".to_owned(),
        apps: sample_apps(),
        davs: sample_davs(),
        users: sample_users(),
    }
}

#[test]
fn test_config_to_file_and_back() {
    // Arrange
    let config = sample_config();

    // Act
    let written = serialize_config(&config);
    let new_config = parse_config(written.as_str()).unwrap();

    // Assert
    assert_eq!(new_config, config);
}

#[test]
fn serialized_document_names_the_model_fields() {
    let written = serialize_config(&sample_config());
    for key in [
        "hostname=", "debug_mode=", "http_port=", "auto_tls=", "letsencrypt_email=", "apps=",
        "davs=", "users=", "id=", "name=", "icon=", "color=", "is_proxy=", "host=",
        "forward_to=", "secured=", "login=", "password=", "openpath=", "roles=", "directory=",
        "writable=", "allow_symlinks=", "passphrase=",
    ] {
        assert!(written.contains(key), "missing field name {key}");
    }
    // derived keys are never written
    assert!(!written.contains("key="));
}

#[test]
fn parse_rejects_trailing_and_malformed_text() {
    let config = sample_config();
    let mut written = serialize_config(&config);
    written.push('x');
    assert!(parse_config(written.as_str()).is_none());
    assert!(parse_config("").is_none());
    assert!(parse_config("garbage").is_none());
}

#[test]
fn defaults_match_the_served_values() {
    assert_eq!(hostname(), "vestibule.io");
    assert_eq!(http_port(), 8080);
    assert!(!debug_mode());
    assert!(!auto_tls());
}

#[test]
fn host_map_keys_services_and_derives_dav_keys() {
    let config = sample_config();
    let map = build_config_map(&config);
    match map.get("app1.vestibule.io") {
        Some(HostType::App(a)) => assert_eq!(a.id, 1),
        other => panic!("unexpected resolution: {:?}", other),
    }
    match map.get("files1.vestibule.io") {
        Some(HostType::Dav(d)) => {
            let mut hasher = sha2::Sha256::new();
            hasher.update("ABCD123".as_bytes());
            let expected: [u8; 32] = hasher.finalize().into();
            assert_eq!(d.key, Some(expected));
        },
        other => panic!("unexpected resolution: {:?}", other),
    }
    match map.get("files2.vestibule.io") {
        Some(HostType::Dav(d)) => assert_eq!(d.key, None),
        other => panic!("unexpected resolution: {:?}", other),
    }
    // resolution is a function: the same host resolves the same way twice
    let first = map.get("app2.vestibule.io").cloned();
    let second = map.get("app2.vestibule.io").cloned();
    assert_eq!(first, second);
    assert!(map.get("unknown.vestibule.io").is_none());
}

#[test]
fn app_admin_rules() {
    let mut config = sample_config();
    let mut altered = sample_apps()[0].clone();
    altered.name = "App One".to_owned();
    add_app(&mut config, altered);
    assert_eq!(config.apps.len(), 2);
    assert_eq!(config.apps[0].name, "App One");
    let mut fresh = sample_apps()[1].clone();
    fresh.id = 101;
    add_app(&mut config, fresh);
    assert_eq!(config.apps.len(), 3);
    delete_app(&mut config, 101).unwrap();
    assert_eq!(config.apps.len(), 2);
    assert_eq!(delete_app(&mut config, 101).err().unwrap().status, 400);
}

#[test]
fn dav_admin_rules() {
    let mut config = sample_config();
    let mut fresh = sample_davs()[0].clone();
    fresh.id = 201;
    add_dav(&mut config, fresh);
    assert_eq!(config.davs.len(), 3);
    delete_dav(&mut config, 201).unwrap();
    assert_eq!(config.davs.len(), 2);
    assert_eq!(delete_dav(&mut config, 201).err().unwrap().status, 400);
}
