//! App services: reverse-proxied HTTP back-ends and the request and redirect
//! rewriting the proxy performs for them.

use vstd::prelude::*;
use vstd::string::StrSliceExecFns;
use vstd::string::StringExecFns;

verus! {

/// A reverse-proxied application service.
#[derive(Debug, Clone, Default, PartialEq)]
pub struct App {
    /// Identity of the entry in the configuration.
    pub id: usize,
    /// Display name.
    pub name: String,
    /// Display icon.
    pub icon: String,
    /// Display color.
    pub color: String,
    /// Display hint; the proxy does not read it.
    pub is_proxy: bool,
    /// Leaf label under the parent domain.
    pub host: String,
    /// Upstream authority, optionally prefixed with a scheme.
    pub forward_to: String,
    /// Whether a session with an overlapping role is required.
    pub secured: bool,
    /// Display hint: an upstream login.
    pub login: String,
    /// Display hint: an upstream password.
    pub password: String,
    /// Display hint: the path a client is sent to first.
    pub openpath: String,
    /// Role names that may access the service when secured.
    pub roles: Vec<String>,
}

/// Field-by-field sameness of two apps, lists compared by contents.
pub open spec fn same_app(a: App, b: App) -> bool {
    &&& a.id == b.id
    &&& a.name == b.name
    &&& a.icon == b.icon
    &&& a.color == b.color
    &&& a.is_proxy == b.is_proxy
    &&& a.host == b.host
    &&& a.forward_to == b.forward_to
    &&& a.secured == b.secured
    &&& a.login == b.login
    &&& a.password == b.password
    &&& a.openpath == b.openpath
    &&& a.roles@ == b.roles@
}

impl App {
    /// An equal copy; the role list is copied element by element.
    pub fn duplicate(&self) -> (r: App)
        ensures
            same_app(r, *self),
    {
        let roles = self.roles.clone();
        proof {
            assert(roles@ =~= self.roles@);
        }
        App {
            id: self.id,
            name: self.name.clone(),
            icon: self.icon.clone(),
            color: self.color.clone(),
            is_proxy: self.is_proxy,
            host: self.host.clone(),
            forward_to: self.forward_to.clone(),
            secured: self.secured,
            login: self.login.clone(),
            password: self.password.clone(),
            openpath: self.openpath.clone(),
            roles,
        }
    }
}


/// A URI scheme the proxy speaks.
#[derive(Debug, Clone, Copy, PartialEq, Eq, Structural)]
pub enum Scheme {
    /// Plain HTTP.
    Http,
    /// HTTP over TLS.
    Https,
}

/// The textual prefix of a scheme.
pub open spec fn spec_scheme_prefix(s: Scheme) -> Seq<char> {
    match s {
        Scheme::Http => "http://"@,
        Scheme::Https => "https://"@,
    }
}

/// The textual prefix of a scheme.
pub fn scheme_prefix(s: Scheme) -> (r: &'static str)
    ensures
        r@ == spec_scheme_prefix(s),
{
    match s {
        Scheme::Http => "http://",
        Scheme::Https => "https://",
    }
}

/// An authority split into host and optional port.
#[derive(Debug, Clone, PartialEq)]
pub struct Authority {
    /// The host component.
    pub host: String,
    /// The port, when the authority names one.
    pub port: Option<u16>,
}

/// Position of the first `://` in a text, or -1.
pub open spec fn spec_scheme_sep(s: Seq<char>) -> int
    decreases s.len(),
{
    if s.len() < 3 {
        -1
    } else if s[0] == ':' && s[1] == '/' && s[2] == '/' {
        0
    } else {
        let rest = spec_scheme_sep(s.skip(1));
        if rest < 0 {
            -1
        } else {
            rest + 1
        }
    }
}

/// A first separator at `i` pins `spec_scheme_sep` to `i`.
proof fn lemma_scheme_sep_at(s: Seq<char>, i: int)
    requires
        0 <= i,
        i + 3 <= s.len(),
        s[i] == ':' && s[i + 1] == '/' && s[i + 2] == '/',
        forall|k: int| #![trigger s[k]] 0 <= k < i ==> !(s[k] == ':' && s[k + 1] == '/' && s[k + 2] == '/'),
    ensures
        spec_scheme_sep(s) == i,
    decreases i,
{
    if i > 0 {
        lemma_scheme_sep_at(s.skip(1), i - 1);
    }
}

/// No separator anywhere pins `spec_scheme_sep` below zero.
proof fn lemma_scheme_sep_none(s: Seq<char>)
    requires
        forall|k: int|
            #![trigger s[k]]
            0 <= k && k + 3 <= s.len() ==> !(s[k] == ':' && s[k + 1] == '/' && s[k + 2] == '/'),
    ensures
        spec_scheme_sep(s) < 0,
    decreases s.len(),
{
    if s.len() >= 3 {
        lemma_scheme_sep_none(s.skip(1));
    }
}

/// Finds the first `://`.
fn find_scheme_sep(s: &str) -> (r: Option<usize>)
    ensures
        r matches Some(i) ==> i as int == spec_scheme_sep(s@) && i + 3 <= s@.len(),
        r is None ==> spec_scheme_sep(s@) < 0,
{
    let n = s.unicode_len();
    if n < 3 {
        proof {
            lemma_scheme_sep_none(s@);
        }
        return None;
    }
    let mut i: usize = 0;
    while i <= n - 3
        invariant
            n == s@.len(),
            n >= 3,
            i <= n - 2,
            forall|k: int|
                #![trigger s@[k]]
                0 <= k < i ==> !(s@[k] == ':' && s@[k + 1] == '/' && s@[k + 2] == '/'),
        decreases n - i,
    {
        if s.get_char(i) == ':' && s.get_char(i + 1) == '/' && s.get_char(i + 2) == '/' {
            proof {
                lemma_scheme_sep_at(s@, i as int);
            }
            return Some(i);
        }
        i += 1;
    }
    proof {
        lemma_scheme_sep_none(s@);
    }
    None
}

/// Length of the authority part: everything up to the first `/`, `?` or `#`.
pub open spec fn spec_authority_end(s: Seq<char>) -> int
    decreases s.len(),
{
    if s.len() == 0 {
        0
    } else if s[0] == '/' || s[0] == '?' || s[0] == '#' {
        0
    } else {
        1 + spec_authority_end(s.skip(1))
    }
}

/// The authority end lies within the text and behaves like a first match.
pub proof fn lemma_authority_end(s: Seq<char>)
    ensures
        0 <= spec_authority_end(s) <= s.len(),
        forall|k: int|
            0 <= k < spec_authority_end(s) ==> !(s[k] == '/' || s[k] == '?' || s[k] == '#'),
        spec_authority_end(s) < s.len() ==> (s[spec_authority_end(s)] == '/'
            || s[spec_authority_end(s)] == '?' || s[spec_authority_end(s)] == '#'),
    decreases s.len(),
{
    if s.len() > 0 && !(s[0] == '/' || s[0] == '?' || s[0] == '#') {
        lemma_authority_end(s.skip(1));
        assert forall|k: int| 0 <= k < spec_authority_end(s) implies !(s[k] == '/' || s[k] == '?'
            || s[k] == '#') by {
            if k > 0 {
                assert(s.skip(1)[k - 1] == s[k]);
            }
        }
    }
}

/// Where the authority part of a text ends.
fn authority_end(s: &str) -> (r: usize)
    ensures
        r as int == spec_authority_end(s@),
{
    let n = s.unicode_len();
    let mut i: usize = 0;
    while i < n
        invariant
            n == s@.len(),
            i <= n,
            forall|k: int| 0 <= k < i ==> !(s@[k] == '/' || s@[k] == '?' || s@[k] == '#'),
        decreases n - i,
    {
        let c = s.get_char(i);
        if c == '/' || c == '?' || c == '#' {
            proof {
                lemma_authority_end_at(s@, i as int);
            }
            return i;
        }
        i += 1;
    }
    proof {
        lemma_authority_end_full(s@);
    }
    n
}

/// A first stop character at `i` pins the authority end to `i`.
proof fn lemma_authority_end_at(s: Seq<char>, i: int)
    requires
        0 <= i < s.len(),
        s[i] == '/' || s[i] == '?' || s[i] == '#',
        forall|k: int| 0 <= k < i ==> !(s[k] == '/' || s[k] == '?' || s[k] == '#'),
    ensures
        spec_authority_end(s) == i,
    decreases i,
{
    if i > 0 {
        lemma_authority_end_at(s.skip(1), i - 1);
    }
}

/// No stop character anywhere pins the authority end to the length.
proof fn lemma_authority_end_full(s: Seq<char>)
    requires
        forall|k: int| 0 <= k < s.len() ==> !(s[k] == '/' || s[k] == '?' || s[k] == '#'),
    ensures
        spec_authority_end(s) == s.len(),
    decreases s.len(),
{
    if s.len() > 0 {
        lemma_authority_end_full(s.skip(1));
    }
}

/// The authority with any userinfo removed.
pub open spec fn spec_after_userinfo(auth: Seq<char>) -> Seq<char> {
    if crate::utils::spec_index_of(auth, '@') >= 0 {
        auth.skip(crate::utils::spec_index_of(auth, '@') + 1)
    } else {
        auth
    }
}

/// The host component of an authority: userinfo and port removed.
pub open spec fn spec_host_of(auth: Seq<char>) -> Seq<char> {
    let b = spec_after_userinfo(auth);
    if crate::utils::spec_index_of(b, ':') >= 0 {
        b.take(crate::utils::spec_index_of(b, ':'))
    } else {
        b
    }
}

/// The port digits of an authority, when a `:` names one.
pub open spec fn spec_port_seq_of(auth: Seq<char>) -> Option<Seq<char>> {
    let b = spec_after_userinfo(auth);
    if crate::utils::spec_index_of(b, ':') >= 0 {
        Some(b.skip(crate::utils::spec_index_of(b, ':') + 1))
    } else {
        None
    }
}

/// The authority with any userinfo removed.
fn after_userinfo<'a>(auth: &'a str) -> (r: &'a str)
    ensures
        r@ == spec_after_userinfo(auth@),
{
    proof {
        crate::utils::lemma_index_of(auth@, '@');
    }
    let n = auth.unicode_len();
    match crate::utils::find_char(auth, '@') {
        Some(i) => auth.substring_char(i + 1, n),
        None => auth,
    }
}

/// The host component of an authority.
pub fn host_of<'a>(auth: &'a str) -> (r: &'a str)
    ensures
        r@ == spec_host_of(auth@),
{
    let b = after_userinfo(auth);
    proof {
        crate::utils::lemma_index_of(b@, ':');
    }
    match crate::utils::find_char(b, ':') {
        Some(i) => b.substring_char(0, i),
        None => b,
    }
}

/// Whether an upstream authority is usable: a non-empty host, and digits
/// fitting a port number after `:` where one is named.
pub open spec fn spec_fwd_valid(auth: Seq<char>) -> bool {
    &&& spec_host_of(auth).len() > 0
    &&& match spec_port_seq_of(auth) {
        Some(p) => p.len() > 0 && crate::utils::spec_all_digits(p) && crate::utils::spec_decimal_val(p)
            <= u16::MAX as int,
        None => true,
    }
}

/// The upstream authority of `forward_to` with any scheme prefix removed.
pub open spec fn spec_fwd_auth(forward_to: Seq<char>) -> Seq<char> {
    let stripped = spec_strip_scheme(forward_to);
    stripped.take(spec_authority_end(stripped))
}

/// `forward_to` with a leading `http://` or `https://` removed.
pub open spec fn spec_strip_scheme(f: Seq<char>) -> Seq<char> {
    if f.len() >= 8 && f.take(8) == "https://"@ {
        f.skip(8)
    } else if f.len() >= 7 && f.take(7) == "http://"@ {
        f.skip(7)
    } else {
        f
    }
}

/// An app together with everything the proxy needs: the public-facing scheme
/// and authority, and the upstream scheme, authority and host.
#[derive(Debug, Clone)]
pub struct AppWithUri {
    /// The configured app.
    pub inner: App,
    /// Scheme clients reach the app by.
    pub app_scheme: Scheme,
    /// Public-facing authority: `<host>.<domain>` with the public port.
    pub app_authority: String,
    /// Scheme of the upstream.
    pub forward_scheme: Scheme,
    /// Upstream authority, split.
    pub forward_authority: Authority,
    /// Upstream host, for redirect detection.
    pub forward_host: String,
    /// Upstream URI the proxy client dials: scheme, authority and `/`.
    pub forward_uri: String,
}

impl AppWithUri {
    /// Resolves an app against the parent domain and public port. Fails
    /// exactly when `forward_to` names no usable upstream authority.
    pub fn from_app_domain_and_http_port(inner: App, domain: &str, port: Option<u16>) -> (r:
        Option<AppWithUri>)
        ensures
            r matches Some(a) ==> ({
                let auth = spec_fwd_auth(inner.forward_to@);
                &&& spec_fwd_valid(auth)
                &&& same_app(a.inner, inner)
                &&& a.app_scheme == (if port is Some {
                    Scheme::Http
                } else {
                    Scheme::Https
                })
                &&& a.app_authority@ == inner.host@ + "."@ + domain@ + (match port {
                    Some(p) => ":"@ + crate::utils::spec_decimal(p as int),
                    None => Seq::<char>::empty(),
                })
                &&& a.forward_scheme == (if inner.forward_to@.len() >= 8 && inner.forward_to@.take(8)
                    == "https://"@ {
                    Scheme::Https
                } else {
                    Scheme::Http
                })
                &&& a.forward_host@ == spec_host_of(auth)
                &&& a.forward_authority.host@ == spec_host_of(auth)
                &&& (match a.forward_authority.port {
                    Some(p) => spec_port_seq_of(auth) matches Some(d) && p as int
                        == crate::utils::spec_decimal_val(d),
                    None => spec_port_seq_of(auth) is None,
                })
                &&& a.forward_uri@ == spec_scheme_prefix(a.forward_scheme) + auth + "/"@
            }),
            r is None ==> !spec_fwd_valid(spec_fwd_auth(inner.forward_to@)),
    {
        let app_scheme = if port.is_some() {
            Scheme::Http
        } else {
            Scheme::Https
        };
        let mut app_authority = inner.host.clone();
        app_authority.append(".");
        app_authority.append(domain);
        match port {
            Some(p) => {
                app_authority.append(":");
                let digits = crate::utils::u64_to_decimal(p as u64);
                app_authority.append(digits.as_str());
            },
            None => {},
        }
        let fstr = inner.forward_to.as_str();
        let forward_scheme = if crate::utils::str_starts_with(fstr, "https://") {
            Scheme::Https
        } else {
            Scheme::Http
        };
        proof {
            reveal_strlit("https://");
            reveal_strlit("http://");
        }
        let stripped = if crate::utils::str_starts_with(fstr, "https://") {
            fstr.substring_char(8, fstr.unicode_len())
        } else if crate::utils::str_starts_with(fstr, "http://") {
            fstr.substring_char(7, fstr.unicode_len())
        } else {
            fstr
        };
        proof {
            assert(stripped@ =~= spec_strip_scheme(inner.forward_to@));
            lemma_authority_end(stripped@);
        }
        let ae = authority_end(stripped);
        let auth = stripped.substring_char(0, ae);
        proof {
            assert(auth@ =~= spec_fwd_auth(inner.forward_to@));
        }
        let host = host_of(auth);
        if host.unicode_len() == 0 {
            return None;
        }
        let b = after_userinfo(auth);
        proof {
            crate::utils::lemma_index_of(b@, ':');
        }
        let bn = b.unicode_len();
        let fwd_port: Option<u16> = match crate::utils::find_char(b, ':') {
            Some(i) => {
                let digits = b.substring_char(i + 1, bn);
                match crate::utils::parse_u64(digits) {
                    Some(v) => {
                        if v > u16::MAX as u64 {
                            return None;
                        }
                        Some(v as u16)
                    },
                    None => {
                        return None;
                    },
                }
            },
            None => None,
        };
        let mut forward_uri = scheme_prefix(forward_scheme).to_owned();
        forward_uri.append(auth);
        forward_uri.append("/");
        let authority_host = host.to_owned();
        let forward_host = host.to_owned();
        Some(
            AppWithUri {
                inner,
                app_scheme,
                app_authority,
                forward_scheme,
                forward_authority: Authority { host: authority_host, port: fwd_port },
                forward_host,
                forward_uri,
            },
        )
    }

    /// Rewrites an upstream redirect for the public side: when the Location
    /// is absolute and its host contains the upstream host, the scheme and
    /// authority become the app's public ones and everything after the
    /// authority is kept; any other Location passes through unchanged.
    pub fn rewrite_location(&self, location: &str) -> (r: Option<String>)
        ensures
            ({
                let k = spec_scheme_sep(location@);
                let after = location@.skip(k + 3);
                let auth = after.take(spec_authority_end(after));
                let rest = after.skip(spec_authority_end(after));
                if k > 0 && crate::utils::spec_contains(
                    spec_host_of(auth),
                    self.forward_host@,
                ) {
                    r matches Some(n) && n@ == spec_scheme_prefix(self.app_scheme)
                        + self.app_authority@ + rest
                } else {
                    r is None
                }
            }),
    {
        let k = match find_scheme_sep(location) {
            Some(k) => k,
            None => {
                return None;
            },
        };
        if k == 0 {
            return None;
        }
        let n = location.unicode_len();
        let after = location.substring_char(k + 3, n);
        proof {
            lemma_authority_end(after@);
        }
        let ae = authority_end(after);
        let auth = after.substring_char(0, ae);
        let rest = after.substring_char(ae, after.unicode_len());
        let host = host_of(auth);
        if crate::utils::str_contains(host, self.forward_host.as_str()) {
            let mut out = scheme_prefix(self.app_scheme).to_owned();
            out.append(self.app_authority.as_str());
            out.append(rest);
            proof {
                assert(after@ =~= location@.skip(k + 3));
                assert(auth@ =~= location@.skip(k + 3).take(spec_authority_end(location@.skip(k + 3))));
                assert(rest@ =~= location@.skip(k + 3).skip(spec_authority_end(location@.skip(k + 3))));
            }
            Some(out)
        } else {
            proof {
                assert(after@ =~= location@.skip(k + 3));
                assert(auth@ =~= location@.skip(k + 3).take(spec_authority_end(location@.skip(k + 3))));
            }
            None
        }
    }
}

/// Whether a Location value is well-formed enough to hand to a client
/// untouched: an absolute URI with a scheme, or a path reference starting
/// with `/`. Anything else is malformed upstream data and is surfaced as an
/// internal error rather than forwarded.
pub open spec fn spec_location_well_formed(loc: Seq<char>) -> bool {
    ||| spec_scheme_sep(loc) > 0
    ||| (loc.len() > 0 && loc[0] == '/')
}

/// Whether a Location value may pass to the client as it is.
pub fn location_well_formed(location: &str) -> (r: bool)
    ensures
        r == spec_location_well_formed(location@),
{
    match find_scheme_sep(location) {
        Some(k) => {
            if k > 0 {
                return true;
            }
        },
        None => {},
    }
    proof {
        lemma_scheme_sep_nonneg(location@);
    }
    location.unicode_len() > 0 && location.get_char(0) == '/'
}

/// The first-separator position is never negative twice over: it is -1 or a
/// real position, so a found separator at zero excludes a positive one.
proof fn lemma_scheme_sep_nonneg(s: Seq<char>)
    ensures
        spec_scheme_sep(s) >= -1,
    decreases s.len(),
{
    if s.len() >= 3 && !(s[0] == ':' && s[1] == '/' && s[2] == '/') {
        lemma_scheme_sep_nonneg(s.skip(1));
    }
}

/// Index of the first app with the given id, or -1.
pub open spec fn spec_app_index(apps: Seq<App>, id: usize) -> int
    decreases apps.len(),
{
    if apps.len() == 0 {
        -1
    } else if apps[0].id == id {
        0
    } else {
        let rest = spec_app_index(apps.skip(1), id);
        if rest < 0 {
            -1
        } else {
            rest + 1
        }
    }
}

/// A first match at `i` pins `spec_app_index` to `i`.
proof fn lemma_app_index_at(apps: Seq<App>, id: usize, i: int)
    requires
        0 <= i < apps.len(),
        apps[i].id == id,
        forall|k: int| 0 <= k < i ==> apps[k].id != id,
    ensures
        spec_app_index(apps, id) == i,
    decreases i,
{
    if i > 0 {
        lemma_app_index_at(apps.skip(1), id, i - 1);
    }
}

/// No match anywhere pins `spec_app_index` below zero.
proof fn lemma_app_index_none(apps: Seq<App>, id: usize)
    requires
        forall|k: int| 0 <= k < apps.len() ==> apps[k].id != id,
    ensures
        spec_app_index(apps, id) < 0,
    decreases apps.len(),
{
    if apps.len() > 0 {
        lemma_app_index_none(apps.skip(1), id);
    }
}

/// Finds the first app with the given id.
fn find_app(apps: &Vec<App>, id: usize) -> (r: Option<usize>)
    ensures
        r matches Some(i) ==> 0 <= i < apps@.len() && spec_app_index(apps@, id) == i as int
            && apps@[i as int].id == id,
        r is None ==> spec_app_index(apps@, id) < 0,
{
    let mut i: usize = 0;
    while i < apps.len()
        invariant
            i <= apps@.len(),
            forall|k: int| 0 <= k < i ==> apps@[k].id != id,
        decreases apps@.len() - i,
    {
        if apps[i].id == id {
            proof {
                lemma_app_index_at(apps@, id, i as int);
            }
            return Some(i);
        }
        i += 1;
    }
    proof {
        lemma_app_index_none(apps@, id);
    }
    None
}

/// Adds or updates an app: an existing id is replaced by the payload, a new
/// one is appended.
pub fn add_app(config: &mut crate::configuration::Config, payload: App)
    ensures
        ({
            let idx = spec_app_index(old(config).apps@, payload.id);
            &&& (idx >= 0 ==> final(config).apps@ == old(config).apps@.update(idx, payload))
            &&& (idx < 0 ==> final(config).apps@ == old(config).apps@.push(payload))
            &&& final(config).hostname == old(config).hostname
            &&& final(config).http_port == old(config).http_port
            &&& final(config).davs == old(config).davs
            &&& final(config).users == old(config).users
        }),
{
    match find_app(&config.apps, payload.id) {
        Some(i) => {
            config.apps[i] = payload;
        },
        None => {
            config.apps.push(payload);
        },
    }
}

/// Removes the app with the given id. Fails with a bad-request response
/// exactly when no app has that id.
pub fn delete_app(config: &mut crate::configuration::Config, app_id: usize) -> (r: Result<
    (),
    crate::http::HttpResponse,
>)
    ensures
        ({
            let idx = spec_app_index(old(config).apps@, app_id);
            &&& (r is Ok <==> idx >= 0)
            &&& (r is Ok ==> final(config).apps@ == old(config).apps@.remove(idx))
            &&& (r matches Err(resp) ==> resp.status == crate::http::STATUS_BAD_REQUEST
                && *final(config) == *old(config))
            &&& final(config).hostname == old(config).hostname
            &&& final(config).http_port == old(config).http_port
            &&& final(config).davs == old(config).davs
            &&& final(config).users == old(config).users
        }),
{
    match find_app(&config.apps, app_id) {
        Some(i) => {
            config.apps.remove(i);
            Ok(())
        },
        None => Err(
            crate::http::HttpResponse {
                status: crate::http::STATUS_BAD_REQUEST,
                body: String::from_str("app doesn't exist"),
            },
        ),
    }
}

} // verus!
