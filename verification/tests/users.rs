//! Authorization gate behavior for every combination of user and target
//! roles, and the user management rules.

use vestibule::apps::App;
use vestibule::apps::AppWithUri;
use vestibule::configuration::Config;
use vestibule::configuration::HostType;
use vestibule::users::Admin;
use vestibule::users::LocalAuth;
use vestibule::users::User;
use vestibule::users::add_user;
use vestibule::users::check_authorization;
use vestibule::users::check_user_has_role_or_forbid;
use vestibule::users::delete_user;
use vestibule::users::local_auth;

#[test]
fn test_no_user() {
    let user = &None;
    let mut app: App = App::default();
    app.forward_to = "www.example.com".to_string(); // to prevent failing when parsing url
    app.roles = vec!["role1".to_string(), "role2".to_string()];
    let app = AppWithUri::from_app_domain_and_http_port(app, "vestibule.io", None).unwrap();
    let target = HostType::App(app.inner);
    assert!(check_user_has_role_or_forbid(user, &target).is_some());
}

#[test]
fn test_user_has_all_roles() {
    let mut user = User::default();
    user.roles = vec!["role1".to_string(), "role2".to_string()];
    let mut app: App = App::default();
    app.forward_to = "www.example.com".to_string(); // to prevent failing when parsing url
    app.roles = vec!["role1".to_string(), "role2".to_string()];
    let app = AppWithUri::from_app_domain_and_http_port(app, "vestibule.io", None).unwrap();
    let target = HostType::App(app.inner);
    assert!(check_user_has_role_or_forbid(&Some(user), &target).is_none());
}

#[test]
fn test_user_has_one_role() {
    let mut user = User::default();
    user.roles = vec!["role1".to_string()];
    let mut app: App = App::default();
    app.forward_to = "www.example.com".to_string(); // to prevent failing when parsing url
    app.roles = vec!["role1".to_string(), "role2".to_string()];
    let app = AppWithUri::from_app_domain_and_http_port(app, "vestibule.io", None).unwrap();
    let target = HostType::App(app.inner);
    assert!(check_user_has_role_or_forbid(&Some(user), &target).is_none());
}

#[test]
fn test_user_has_no_role() {
    let mut user = User::default();
    user.roles = vec!["role3".to_string(), "role4".to_string()];
    let mut app: App = App::default();
    app.forward_to = "www.example.com".to_string(); // to prevent failing when parsing url
    app.roles = vec!["role1".to_string(), "role2".to_string()];
    let app = AppWithUri::from_app_domain_and_http_port(app, "vestibule.io", None).unwrap();
    let target = HostType::App(app.inner);
    assert!(check_user_has_role_or_forbid(&Some(user), &target).is_some());
}

#[test]
fn test_user_roles_are_empty() {
    let user = User::default();
    let mut app: App = App::default();
    app.forward_to = "www.example.com".to_string(); // to prevent failing when parsing url
    app.roles = vec!["role1".to_string(), "role2".to_string()];
    let app = AppWithUri::from_app_domain_and_http_port(app, "vestibule.io", None).unwrap();
    let target = HostType::App(app.inner);
    assert!(check_user_has_role_or_forbid(&Some(user), &target).is_some());
}

#[test]
fn test_allowed_roles_are_empty() {
    let mut user = User::default();
    user.roles = vec!["role1".to_string(), "role2".to_string()];
    let mut app: App = App::default();
    app.forward_to = "www.example.com".to_string(); // to prevent failing when parsing url
    let app = AppWithUri::from_app_domain_and_http_port(app, "vestibule.io", None).unwrap();
    let target = HostType::App(app.inner);
    assert!(check_user_has_role_or_forbid(&Some(user), &target).is_some());
}

#[test]
fn test_all_roles_are_empty() {
    let user = User::default();
    let mut app: App = App::default();
    app.forward_to = "www.example.com".to_string(); // to prevent failing when parsing url
    let app = AppWithUri::from_app_domain_and_http_port(app, "vestibule.io", None).unwrap();
    let target = HostType::App(app.inner);
    assert!(check_user_has_role_or_forbid(&Some(user), &target).is_some());
}

fn unsecured_target() -> HostType {
    let mut app = App::default();
    app.roles = vec![];
    app.secured = false;
    HostType::App(app)
}

fn secured_target(roles: Vec<&str>) -> HostType {
    let mut app = App::default();
    app.roles = roles.into_iter().map(|r| r.to_string()).collect();
    app.secured = true;
    HostType::App(app)
}

#[test]
fn authorization_passes_unsecured_without_user() {
    assert!(check_authorization(&unsecured_target(), &None).is_none());
}

#[test]
fn authorization_denies_secured_without_user() {
    let r = check_authorization(&secured_target(vec!["ADMINS"]), &None);
    assert_eq!(r.unwrap().status, 403);
}

#[test]
fn authorization_denies_secured_with_wrong_role() {
    let mut user = User::default();
    user.roles = vec!["USERS".to_string()];
    let r = check_authorization(&secured_target(vec!["ADMINS"]), &Some(user));
    assert_eq!(r.unwrap().status, 403);
}

#[test]
fn authorization_admits_secured_with_matching_role() {
    let mut user = User::default();
    user.roles = vec!["ADMINS".to_string()];
    assert!(check_authorization(&secured_target(vec!["ADMINS"]), &Some(user)).is_none());
}

#[test]
fn authorization_denies_secured_with_empty_target_roles() {
    let mut user = User::default();
    user.roles = vec!["ADMINS".to_string()];
    assert!(check_authorization(&secured_target(vec![]), &Some(user)).is_some());
}

#[test]
fn admin_requires_admins_role() {
    let mut user = User::default();
    user.roles = vec!["ADMINS".to_string()];
    assert!(Admin::from_user(user).is_ok());
    let mut plain = User::default();
    plain.roles = vec!["USERS".to_string()];
    let denied = Admin::from_user(plain);
    assert_eq!(denied.err().unwrap().status, 401);
}

#[test]
fn add_user_hashes_and_login_round_trip() {
    let mut config = Config::default();
    let payload = User {
        login: "nicolas".to_string(),
        password: "verystrongpassword".to_string(),
        roles: vec!["ADMINS".to_string()],
    };
    add_user(&mut config, payload).unwrap();
    assert_eq!(config.users.len(), 1);
    // the stored value is a PHC hash, not the password
    assert_ne!(config.users[0].password, "verystrongpassword");
    assert!(config.users[0].password.starts_with("$argon2"));

    let ok = local_auth(
        &config,
        &LocalAuth { login: "nicolas".to_string(), password: "verystrongpassword".to_string() },
    );
    let principal = ok.unwrap();
    assert_eq!(principal.login, "nicolas");
    assert_eq!(principal.password, "");
    assert_eq!(principal.roles, vec!["ADMINS".to_string()]);

    let bad = local_auth(
        &config,
        &LocalAuth { login: "nicolas".to_string(), password: "wrong".to_string() },
    );
    assert_eq!(bad.err().unwrap(), 401);

    let unknown = local_auth(
        &config,
        &LocalAuth { login: "nobody".to_string(), password: "x".to_string() },
    );
    assert_eq!(unknown.err().unwrap(), 401);
}

#[test]
fn local_auth_reports_malformed_hash() {
    let mut config = Config::default();
    config.users.push(User {
        login: "broken".to_string(),
        password: "not-a-phc-hash".to_string(),
        roles: vec![],
    });
    let r = local_auth(
        &config,
        &LocalAuth { login: "broken".to_string(), password: "x".to_string() },
    );
    assert_eq!(r.err().unwrap(), 500);
}

#[test]
fn passwords_are_trimmed_before_hashing() {
    let mut config = Config::default();
    add_user(
        &mut config,
        User { login: "u".to_string(), password: "  spaced  ".to_string(), roles: vec![] },
    )
    .unwrap();
    // the stored hash verifies the trimmed password, not the raw one
    let trimmed = local_auth(
        &config,
        &LocalAuth { login: "u".to_string(), password: "spaced".to_string() },
    );
    assert!(trimmed.is_ok());
    let raw = local_auth(
        &config,
        &LocalAuth { login: "u".to_string(), password: "  spaced  ".to_string() },
    );
    assert_eq!(raw.err().unwrap(), 401);
}

#[test]
fn add_user_updates_and_keeps_old_hash_on_empty_password() {
    let mut config = Config::default();
    add_user(
        &mut config,
        User {
            login: "u".to_string(),
            password: "first".to_string(),
            roles: vec!["A".to_string()],
        },
    )
    .unwrap();
    let old_hash = config.users[0].password.clone();
    add_user(
        &mut config,
        User { login: "u".to_string(), password: "".to_string(), roles: vec!["B".to_string()] },
    )
    .unwrap();
    assert_eq!(config.users.len(), 1);
    assert_eq!(config.users[0].password, old_hash);
    assert_eq!(config.users[0].roles, vec!["B".to_string()]);
}

#[test]
fn add_user_requires_password_for_new_login() {
    let mut config = Config::default();
    let r = add_user(
        &mut config,
        User { login: "u".to_string(), password: "".to_string(), roles: vec![] },
    );
    assert_eq!(r.err().unwrap().status, 406);
    assert!(config.users.is_empty());
}

#[test]
fn delete_user_removes_only_the_named_login() {
    let mut config = Config::default();
    add_user(
        &mut config,
        User { login: "a".to_string(), password: "pw".to_string(), roles: vec![] },
    )
    .unwrap();
    add_user(
        &mut config,
        User { login: "b".to_string(), password: "pw".to_string(), roles: vec![] },
    )
    .unwrap();
    delete_user(&mut config, "a").unwrap();
    assert_eq!(config.users.len(), 1);
    assert_eq!(config.users[0].login, "b");
    let missing = delete_user(&mut config, "a");
    assert_eq!(missing.err().unwrap().status, 400);
}
