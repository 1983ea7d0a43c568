//! Users, sessions and authorization: Argon2 password checks, the session
//! principal, and the role gate every secured service goes through.

use crate::configuration::Config;
use crate::configuration::HostType;
use crate::http::HttpResponse;
use crate::http::STATUS_BAD_REQUEST;
use crate::http::STATUS_FORBIDDEN;
use crate::http::STATUS_INTERNAL_SERVER_ERROR;
use crate::http::STATUS_NOT_ACCEPTABLE;
use crate::http::STATUS_UNAUTHORIZED;
use argon2::PasswordHasher;
use argon2::PasswordVerifier;
use vstd::prelude::*;
use vstd::string::StringExecFns;

verus! {

/// Name of the signed session cookie.
pub fn cookie_name() -> (r: &'static str)
    ensures
        r@ == "VESTIBULE_AUTH"@,
{
    "VESTIBULE_AUTH"
}

/// A user: login, Argon2id PHC password hash, and role names.
#[derive(Debug, Clone, Default, PartialEq)]
pub struct User {
    /// The login the user authenticates with.
    pub login: String,
    /// The stored Argon2id PHC hash; cleared before the user enters a cookie.
    pub password: String,
    /// The roles the user carries.
    pub roles: Vec<String>,
}

/// Whether a user carries the administrators' role.
pub open spec fn spec_is_admin(u: User) -> bool {
    exists|i: int| 0 <= i < u.roles@.len() && u.roles@[i]@ == "ADMINS"@
}

/// A session principal that carries the administrators' role.
#[derive(Debug, Clone)]
pub struct Admin(pub User);

impl Admin {
    /// Admits exactly the users that carry the administrators' role.
    pub fn from_user(user: User) -> (r: Result<Admin, HttpResponse>)
        ensures
            r matches Ok(a) ==> a.0 == user && spec_is_admin(user),
            r matches Err(resp) ==> resp.status == STATUS_UNAUTHORIZED && !spec_is_admin(user),
    {
        let admin_role = String::from_str("ADMINS");
        let mut i: usize = 0;
        while i < user.roles.len()
            invariant
                i <= user.roles@.len(),
                admin_role@ == "ADMINS"@,
                forall|k: int| 0 <= k < i ==> user.roles@[k]@ != "ADMINS"@,
            decreases user.roles@.len() - i,
        {
            if user.roles[i].eq(&admin_role) {
                return Ok(Admin(user));
            }
            i += 1;
        }
        Err(HttpResponse::with_status(STATUS_UNAUTHORIZED))
    }
}

/// A login request: the credentials a local login carries.
pub struct LocalAuth {
    /// The claimed login.
    pub login: String,
    /// The password to check.
    pub password: String,
}

/// Whether some role name appears in both sequences.
pub open spec fn role_overlap(user_roles: Seq<String>, target_roles: Seq<String>) -> bool {
    exists|i: int, j: int|
        0 <= i < user_roles.len() && 0 <= j < target_roles.len() && user_roles[i]@
            == target_roles[j]@
}

/// Authorization for a user on a target: forbids unless the user is present
/// and shares a role with the target. An absent user and an empty role list
/// on the target both deny.
pub fn check_user_has_role_or_forbid(user: &Option<User>, target: &HostType) -> (r: Option<
    HttpResponse,
>)
    ensures
        r is None <==> (user matches Some(u) && role_overlap(u.roles@, target.spec_roles())),
        r matches Some(resp) ==> resp.status == STATUS_FORBIDDEN && resp.body@.len() == 0,
{
    if let Some(inner) = user {
        let target_roles = target.roles();
        let mut i: usize = 0;
        while i < inner.roles.len()
            invariant
                *user == Some(*inner),
                i <= inner.roles@.len(),
                target_roles@ == target.spec_roles(),
                forall|k: int, j: int|
                    0 <= k < i && 0 <= j < target_roles@.len() ==> inner.roles@[k]@
                        != target_roles@[j]@,
            decreases inner.roles@.len() - i,
        {
            let mut j: usize = 0;
            while j < target_roles.len()
                invariant
                    *user == Some(*inner),
                    i < inner.roles@.len(),
                    j <= target_roles@.len(),
                    target_roles@ == target.spec_roles(),
                    forall|jk: int| 0 <= jk < j ==> inner.roles@[i as int]@ != target_roles@[jk]@,
                decreases target_roles@.len() - j,
            {
                if inner.roles[i].eq(&target_roles[j]) {
                    proof {
                        assert(inner.roles@[i as int]@ == target.spec_roles()[j as int]@);
                        assert(role_overlap(inner.roles@, target.spec_roles()));
                        assert(*user matches Some(u) && role_overlap(u.roles@, target.spec_roles()));
                    }
                    return None;
                }
                j += 1;
            }
            i += 1;
        }
    }
    Some(HttpResponse::with_status(STATUS_FORBIDDEN))
}

/// The router's authorization gate: a request passes iff the target is not
/// secured, or the user is present and shares a role with the target.
pub fn check_authorization(app: &HostType, user: &Option<User>) -> (r: Option<HttpResponse>)
    ensures
        r is None <==> (!app.spec_secured() || (user matches Some(u) && role_overlap(
            u.roles@,
            app.spec_roles(),
        ))),
        r matches Some(resp) ==> resp.status == STATUS_FORBIDDEN && resp.body@.len() == 0,
{
    if app.secured() {
        if let Some(response) = check_user_has_role_or_forbid(user, app) {
            return Some(response);
        }
    }
    None
}

/// Whether a stored string parses as a PHC-format password hash: a function
/// of the string alone.
pub uninterp spec fn phc_valid(hash: Seq<char>) -> bool;

/// Whether a password matches a PHC hash under Argon2 with the default
/// parameters: a function of the hash and the password alone (the salt is
/// part of the hash).
pub uninterp spec fn argon2_verifies(hash: Seq<char>, password: Seq<u8>) -> bool;

/// What `str::trim` leaves of a text: a function of the text alone.
pub uninterp spec fn trim_of(s: Seq<char>) -> Seq<char>;

/// Relies on argon2's `PasswordHash::new`: whether a stored string parses as
/// a PHC-format hash depends on the string alone.
#[verifier::external_body]
fn parse_phc_ok(stored: &str) -> (r: bool)
    ensures
        r == phc_valid(stored@),
{
    argon2::PasswordHash::new(stored).is_ok()
}

/// Relies on argon2's `Argon2::verify_password` under the default parameters:
/// whether a password matches a PHC hash depends on the hash and the password
/// alone.
#[verifier::external_body]
fn argon2_check(stored: &str, password: &[u8]) -> (r: bool)
    requires
        phc_valid(stored@),
    ensures
        r == argon2_verifies(stored@, password@),
{
    let parsed = argon2::PasswordHash::new(stored).expect("callers check the PHC form first");
    argon2::Argon2::default().verify_password(password, &parsed).is_ok()
}

/// Relies on argon2's `Argon2::hash_password` with a fresh salt from the
/// operating system's entropy source: whatever salt is drawn, the output is a
/// valid PHC string that verifies the hashed password.
#[verifier::external_body]
fn argon2_hash(password: &[u8]) -> (r: Result<String, ()>)
    ensures
        r matches Ok(h) ==> phc_valid(h@) && argon2_verifies(h@, password@),
{
    let salt = argon2::password_hash::SaltString::generate(&mut rand::rngs::OsRng);
    match argon2::Argon2::default().hash_password(password, &salt) {
        Ok(h) => Ok(h.to_string()),
        Err(_) => Err(()),
    }
}

/// Relies on `str::trim`: the trimmed text depends on the text alone.
#[verifier::external_body]
fn trim_str(s: &str) -> (r: &str)
    ensures
        r@ == trim_of(s@),
{
    s.trim()
}

/// The first user with the given login, if any.
pub open spec fn spec_find_user(users: Seq<User>, login: Seq<char>) -> Option<User>
    decreases users.len(),
{
    if users.len() == 0 {
        None
    } else if users[0].login@ == login {
        Some(users[0])
    } else {
        spec_find_user(users.skip(1), login)
    }
}

/// Index of the first user with the given login, or -1.
pub open spec fn spec_user_index(users: Seq<User>, login: Seq<char>) -> int
    decreases users.len(),
{
    if users.len() == 0 {
        -1
    } else if users[0].login@ == login {
        0
    } else {
        let rest = spec_user_index(users.skip(1), login);
        if rest < 0 {
            -1
        } else {
            rest + 1
        }
    }
}

/// Both user lookups agree: the index points at the found user.
proof fn lemma_find_user_index(users: Seq<User>, login: Seq<char>)
    ensures
        spec_user_index(users, login) >= 0 ==> (spec_find_user(users, login) matches Some(u) && 0
            <= spec_user_index(users, login) < users.len() && users[spec_user_index(users, login)]
            == u && users[spec_user_index(users, login)].login@ == login),
        spec_user_index(users, login) < 0 ==> spec_find_user(users, login) is None,
    decreases users.len(),
{
    if users.len() > 0 && users[0].login@ != login {
        lemma_find_user_index(users.skip(1), login);
    }
}

/// Finds the first user with the given login.
fn find_user(users: &Vec<User>, login: &str) -> (r: Option<usize>)
    ensures
        r matches Some(i) ==> 0 <= i < users@.len() && spec_user_index(users@, login@) == i as int,
        r is None ==> spec_user_index(users@, login@) < 0,
{
    let mut i: usize = 0;
    while i < users.len()
        invariant
            i <= users@.len(),
            forall|k: int| 0 <= k < i ==> users@[k].login@ != login@,
        decreases users@.len() - i,
    {
        if users[i].as_login_eq(login) {
            proof {
                lemma_user_index_at(users@, login@, i as int);
            }
            return Some(i);
        }
        i += 1;
    }
    proof {
        lemma_user_index_none(users@, login@);
    }
    None
}

/// A first match at `i` pins `spec_user_index` to `i`.
proof fn lemma_user_index_at(users: Seq<User>, login: Seq<char>, i: int)
    requires
        0 <= i < users.len(),
        users[i].login@ == login,
        forall|k: int| 0 <= k < i ==> users[k].login@ != login,
    ensures
        spec_user_index(users, login) == i,
    decreases i,
{
    if i > 0 {
        lemma_user_index_at(users.skip(1), login, i - 1);
    }
}

/// No match anywhere pins `spec_user_index` below zero.
proof fn lemma_user_index_none(users: Seq<User>, login: Seq<char>)
    requires
        forall|k: int| 0 <= k < users.len() ==> users[k].login@ != login,
    ensures
        spec_user_index(users, login) < 0,
    decreases users.len(),
{
    if users.len() > 0 {
        lemma_user_index_none(users.skip(1), login);
    }
}

impl User {
    /// Compares this user's login with a candidate.
    fn as_login_eq(&self, login: &str) -> (r: bool)
        ensures
            r == (self.login@ == login@),
    {
        self.login.eq(&login.to_owned())
    }
}

/// Checks a local login against the configured users. Succeeds exactly when
/// the login names a user whose stored hash is well-formed and verifies the
/// password; the returned principal is that user with the password cleared.
pub fn local_auth(config: &Config, payload: &LocalAuth) -> (r: Result<User, u16>)
    ensures
        ({
            let found = spec_find_user(config.users@, payload.login@);
            &&& (r is Ok <==> (found matches Some(u) && phc_valid(u.password@)
                && argon2_verifies(u.password@, vstd::utf8::encode_utf8(payload.password@))))
            &&& (r matches Ok(res) ==> found matches Some(u) && res.login@ == u.login@
                && res.roles@ == u.roles@ && res.password@ =~= Seq::<char>::empty())
            &&& (r == Err::<User, u16>(STATUS_UNAUTHORIZED) <==> (found is None || (
            found matches Some(u) && phc_valid(u.password@) && !argon2_verifies(
                u.password@,
                vstd::utf8::encode_utf8(payload.password@),
            ))))
            &&& (r == Err::<User, u16>(STATUS_INTERNAL_SERVER_ERROR) <==> (found matches Some(u)
                && !phc_valid(u.password@)))
        }),
{
    proof {
        lemma_find_user_index(config.users@, payload.login@);
    }
    let idx = match find_user(&config.users, payload.login.as_str()) {
        Some(i) => i,
        None => {
            return Err(STATUS_UNAUTHORIZED);
        },
    };
    let user = &config.users[idx];
    if !parse_phc_ok(user.password.as_str()) {
        return Err(STATUS_INTERNAL_SERVER_ERROR);
    }
    if !argon2_check(user.password.as_str(), payload.password.as_str().as_bytes()) {
        return Err(STATUS_UNAUTHORIZED);
    }
    let roles = user.roles.clone();
    proof {
        assert(roles@ =~= config.users@[idx as int].roles@);
    }
    Ok(User { login: user.login.clone(), password: String::new(), roles })
}

/// Removes the user with the given login. Fails with a bad-request response
/// exactly when no user has that login; otherwise the first user with the
/// login leaves the list and nothing else changes.
pub fn delete_user(config: &mut Config, user_login: &str) -> (r: Result<(), HttpResponse>)
    ensures
        ({
            let idx = spec_user_index(old(config).users@, user_login@);
            &&& (r is Ok <==> idx >= 0)
            &&& (r is Ok ==> final(config).users@ == old(config).users@.remove(idx))
            &&& (r matches Err(resp) ==> resp.status == STATUS_BAD_REQUEST && *final(config)
                == *old(config))
            &&& final(config).hostname == old(config).hostname
            &&& final(config).http_port == old(config).http_port
            &&& final(config).apps == old(config).apps
            &&& final(config).davs == old(config).davs
        }),
{
    match find_user(&config.users, user_login) {
        Some(i) => {
            config.users.remove(i);
            Ok(())
        },
        None => Err(
            HttpResponse { status: STATUS_BAD_REQUEST, body: String::from_str("user doesn't exist") },
        ),
    }
}

/// Adds or updates a user. For an existing login the record is replaced: an
/// empty password keeps the stored hash, a non-empty one is trimmed and
/// hashed. A new login requires a non-empty password, which is trimmed and
/// hashed; the stored hash then verifies the trimmed password.
pub fn add_user(config: &mut Config, payload: User) -> (r: Result<(), HttpResponse>)
    ensures
        ({
            let idx = spec_user_index(old(config).users@, payload.login@);
            &&& (idx >= 0 && payload.password@.len() == 0 ==> r is Ok)
            &&& (idx >= 0 && payload.password@.len() == 0 && r is Ok ==> final(config).users@
                =~= old(config).users@.update(
                idx,
                User {
                    password: old(config).users@[idx].password,
                    login: payload.login,
                    roles: payload.roles,
                },
            ))
            &&& (idx >= 0 && payload.password@.len() > 0 && r is Ok ==> final(config).users@.len()
                == old(config).users@.len() && final(config).users@[idx].login@ == payload.login@
                && final(config).users@[idx].roles@ == payload.roles@ && phc_valid(
                final(config).users@[idx].password@,
            ) && argon2_verifies(
                final(config).users@[idx].password@,
                vstd::utf8::encode_utf8(trim_of(payload.password@)),
            ) && (forall|k: int|
                0 <= k < old(config).users@.len() && k != idx ==> final(config).users@[k] == old(
                    config,
                ).users@[k]))
            &&& (idx < 0 && payload.password@.len() == 0 ==> (r matches Err(resp) && resp.status
                == STATUS_NOT_ACCEPTABLE && *final(config) == *old(config)))
            &&& (idx < 0 && payload.password@.len() > 0 && r is Ok ==> final(config).users@.len()
                == old(config).users@.len() + 1 && final(config).users@.take(
                old(config).users@.len() as int,
            ) == old(config).users@ && final(config).users@.last().login@ == payload.login@
                && final(config).users@.last().roles@ == payload.roles@ && phc_valid(
                final(config).users@.last().password@,
            ) && argon2_verifies(
                final(config).users@.last().password@,
                vstd::utf8::encode_utf8(trim_of(payload.password@)),
            ))
            &&& (r matches Err(resp) && resp.status == STATUS_INTERNAL_SERVER_ERROR
                ==> *final(config) == *old(config))
            &&& (r matches Err(resp) ==> resp.status == STATUS_NOT_ACCEPTABLE || resp.status
                == STATUS_INTERNAL_SERVER_ERROR)
            &&& (r matches Err(resp) && resp.status == STATUS_NOT_ACCEPTABLE ==> (idx < 0
                && payload.password@.len() == 0 && *final(config) == *old(config)))
            &&& final(config).hostname == old(config).hostname
            &&& final(config).http_port == old(config).http_port
            &&& final(config).apps == old(config).apps
            &&& final(config).davs == old(config).davs
        }),
{
    let found = find_user(&config.users, payload.login.as_str());
    match found {
        Some(i) => {
            if payload.password.as_str().is_empty() {
                let kept = config.users[i].password.clone();
                let updated = User { login: payload.login, password: kept, roles: payload.roles };
                config.users[i] = updated;
                Ok(())
            } else {
                let trimmed = trim_str(payload.password.as_str());
                let hashed = match argon2_hash(trimmed.as_bytes()) {
                    Ok(h) => h,
                    Err(_) => {
                        return Err(
                            HttpResponse {
                                status: STATUS_INTERNAL_SERVER_ERROR,
                                body: String::from_str("password hash failed"),
                            },
                        );
                    },
                };
                let updated = User { login: payload.login, password: hashed, roles: payload.roles };
                config.users[i] = updated;
                Ok(())
            }
        },
        None => {
            if payload.password.as_str().is_empty() {
                return Err(
                    HttpResponse {
                        status: STATUS_NOT_ACCEPTABLE,
                        body: String::from_str("password is required"),
                    },
                );
            }
            let trimmed = trim_str(payload.password.as_str());
            let hashed = match argon2_hash(trimmed.as_bytes()) {
                Ok(h) => h,
                Err(_) => {
                    return Err(
                        HttpResponse {
                            status: STATUS_INTERNAL_SERVER_ERROR,
                            body: String::from_str("password hash failed"),
                        },
                    );
                },
            };
            let added = User { login: payload.login, password: hashed, roles: payload.roles };
            config.users.push(added);
            Ok(())
        },
    }
}

} // verus!
