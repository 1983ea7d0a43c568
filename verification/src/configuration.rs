//! The configuration model and the host map derived from it: every service is
//! reachable at `<host>.<parent domain>`, and every Dav with a passphrase gets
//! its derived key on load.

use crate::apps::App;
use crate::apps::same_app;
use crate::davs::model::Dav;
use crate::users::User;
use sha2::Digest;
use vstd::string::StringSliceAdditionalSpecFns;
use vstd::prelude::*;

verus! {

/// Default: verbose request logging off.
pub fn debug_mode() -> (r: bool)
    ensures
        r == false,
{
    false
}

/// Default listening port.
pub fn http_port() -> (r: u16)
    ensures
        r == 8080,
{
    8080
}

/// Default: no automatic TLS.
pub fn auto_tls() -> (r: bool)
    ensures
        r == false,
{
    false
}

/// Default parent domain.
pub fn hostname() -> (r: String)
    ensures
        r@ == "vestibule.io"@,
{
    "vestibule.io".to_owned()
}

/// The whole configuration: the parent domain, the listening socket, and the
/// services and users.
#[derive(Debug, Clone, Default, PartialEq)]
pub struct Config {
    /// The parent domain; services live under it.
    pub hostname: String,
    /// Whether mock upstreams are started for manual testing.
    pub debug_mode: bool,
    /// The listening TCP port.
    pub http_port: u16,
    /// Whether TLS is terminated here with automatic certificates.
    pub auto_tls: bool,
    /// Contact for the certificate authority.
    pub letsencrypt_email: String,
    /// The proxied application services.
    pub apps: Vec<App>,
    /// The WebDAV services.
    pub davs: Vec<Dav>,
    /// The users.
    pub users: Vec<User>,
}

/// A resolved service: an app behind the proxy or a dav tree.
#[derive(Debug, Clone, PartialEq)]
pub enum HostType {
    /// A reverse-proxied application.
    App(App),
    /// A WebDAV service.
    Dav(Dav),
}

impl HostType {
    /// The roles that may access this service when secured.
    pub open spec fn spec_roles(&self) -> Seq<String> {
        match self {
            HostType::App(app) => app.roles@,
            HostType::Dav(dav) => dav.roles@,
        }
    }

    /// The roles that may access this service when secured.
    pub fn roles(&self) -> (r: &Vec<String>)
        ensures
            r@ == self.spec_roles(),
    {
        match self {
            HostType::App(app) => &app.roles,
            HostType::Dav(dav) => &dav.roles,
        }
    }

    /// Whether the service requires a session with an overlapping role.
    pub open spec fn spec_secured(&self) -> bool {
        match self {
            HostType::App(app) => app.secured,
            HostType::Dav(dav) => dav.secured,
        }
    }

    /// Whether the service requires a session with an overlapping role.
    pub fn secured(&self) -> (r: bool)
        ensures
            r == self.spec_secured(),
    {
        match self {
            HostType::App(app) => app.secured,
            HostType::Dav(dav) => dav.secured,
        }
    }
}

/// The host map: fully qualified hostname to service; the first entry with a
/// key wins.
pub struct ConfigMap {
    /// The entries, in configuration order: apps first, then davs.
    pub entries: Vec<(String, HostType)>,
}

/// The first service keyed by `host`, if any.
pub open spec fn spec_find_host(entries: Seq<(String, HostType)>, host: Seq<char>) -> Option<
    HostType,
>
    decreases entries.len(),
{
    if entries.len() == 0 {
        None
    } else if entries[0].0@ == host {
        Some(entries[0].1)
    } else {
        spec_find_host(entries.skip(1), host)
    }
}

impl ConfigMap {
    /// Resolves a hostname to its service. The result is exactly the map's
    /// first entry for the name, so resolution is a function of the map and
    /// the name.
    pub fn get(&self, host: &str) -> (r: Option<&HostType>)
        ensures
            match r {
                Some(t) => spec_find_host(self.entries@, host@) == Some(*t),
                None => spec_find_host(self.entries@, host@) is None,
            },
    {
        let host_owned = host.to_owned();
        let mut i: usize = 0;
        proof {
            assert(self.entries@.skip(0) =~= self.entries@);
        }
        while i < self.entries.len()
            invariant
                i <= self.entries@.len(),
                host_owned@ == host@,
                spec_find_host(self.entries@, host@) == spec_find_host(
                    self.entries@.skip(i as int),
                    host@,
                ),
            decreases self.entries@.len() - i,
        {
            proof {
                assert(self.entries@.skip(i as int).len() > 0);
                assert(self.entries@.skip(i as int)[0] == self.entries@[i as int]);
                assert(self.entries@.skip(i as int).skip(1) =~= self.entries@.skip(i as int + 1));
            }
            if self.entries[i].0.eq(&host_owned) {
                return Some(&self.entries[i].1);
            }
            i += 1;
        }
        proof {
            assert(self.entries@.skip(i as int).len() == 0);
        }
        None
    }
}

/// Host dispatch is a function: two resolutions of the same host against the
/// same snapshot are the same service.
pub proof fn lemma_dispatch_deterministic(
    entries: Seq<(String, HostType)>,
    host: Seq<char>,
    r1: Option<HostType>,
    r2: Option<HostType>,
)
    requires
        r1 == spec_find_host(entries, host),
        r2 == spec_find_host(entries, host),
    ensures
        r1 == r2,
{
}

/// What sha2's Sha256 digests an input to: a function of the bytes alone.
pub uninterp spec fn sha256_of(data: Seq<u8>) -> Seq<u8>;

/// Relies on sha2's `Sha256`: the 32-byte digest is a function of the input
/// bytes alone.
#[verifier::external_body]
fn sha256(data: &[u8]) -> (r: [u8; 32])
    ensures
        r@ == sha256_of(data@),
{
    let mut hasher = sha2::Sha256::new();
    hasher.update(data);
    hasher.finalize().into()
}

/// The at-rest key a passphrase derives.
pub open spec fn spec_dav_key(passphrase: Seq<char>) -> Seq<u8> {
    sha256_of(vstd::utf8::encode_utf8(passphrase))
}

/// Sameness of two davs up to the derived key: the second is the first with
/// its key filled from the passphrase when one is set.
pub open spec fn dav_with_key(d0: Dav, d: Dav) -> bool {
    &&& d.id == d0.id
    &&& d.host == d0.host
    &&& d.directory == d0.directory
    &&& d.writable == d0.writable
    &&& d.name == d0.name
    &&& d.icon == d0.icon
    &&& d.color == d0.color
    &&& d.secured == d0.secured
    &&& d.allow_symlinks == d0.allow_symlinks
    &&& d.roles@ == d0.roles@
    &&& d.passphrase == d0.passphrase
    &&& if d0.passphrase@.len() > 0 {
        d.key matches Some(k) && k@ == spec_dav_key(d0.passphrase@)
    } else {
        d.key == d0.key
    }
}

/// The fully qualified hostname of a service: `<host>.<domain>`.
pub fn fully_qualified(host: &String, domain: &String) -> (r: String)
    ensures
        r@ == host@ + "."@ + domain@,
{
    let mut s = host.clone();
    s.append(".");
    s.append(domain.as_str());
    s
}

/// Builds the host map of a configuration: every app and every dav is keyed
/// by its fully qualified hostname, apps first, and every dav with a
/// passphrase carries the key derived from it.
pub fn build_config_map(config: &Config) -> (r: ConfigMap)
    ensures
        r.entries@.len() == config.apps@.len() + config.davs@.len(),
        forall|i: int|
            0 <= i < config.apps@.len() ==> r.entries@[i].0@ == #[trigger] config.apps@[i].host@
                + "."@ + config.hostname@ && (r.entries@[i].1 matches HostType::App(a) && same_app(
                a,
                config.apps@[i],
            )),
        forall|i: int|
            0 <= i < config.davs@.len() ==> r.entries@[config.apps@.len() + i].0@
                == #[trigger] config.davs@[i].host@ + "."@ + config.hostname@ && (r.entries@[
                config.apps@.len() + i
            ].1 matches HostType::Dav(d) && dav_with_key(config.davs@[i], d)),
{
    let mut entries: Vec<(String, HostType)> = Vec::new();
    let mut i: usize = 0;
    while i < config.apps.len()
        invariant
            i <= config.apps@.len(),
            entries@.len() == i,
            forall|k: int|
                0 <= k < i ==> entries@[k].0@ == #[trigger] config.apps@[k].host@ + "."@
                    + config.hostname@ && (entries@[k].1 matches HostType::App(a) && same_app(
                    a,
                    config.apps@[k],
                )),
        decreases config.apps@.len() - i,
    {
        let key = fully_qualified(&config.apps[i].host, &config.hostname);
        let app = config.apps[i].duplicate();
        entries.push((key, HostType::App(app)));
        i += 1;
    }
    let ghost napps = config.apps@.len() as int;
    let mut j: usize = 0;
    while j < config.davs.len()
        invariant
            j <= config.davs@.len(),
            napps == config.apps@.len(),
            entries@.len() == napps + j,
            forall|k: int|
                0 <= k < napps ==> entries@[k].0@ == #[trigger] config.apps@[k].host@ + "."@
                    + config.hostname@ && (entries@[k].1 matches HostType::App(a) && same_app(
                    a,
                    config.apps@[k],
                )),
            forall|k: int|
                0 <= k < j ==> entries@[napps + k].0@ == #[trigger] config.davs@[k].host@ + "."@
                    + config.hostname@ && (entries@[napps + k].1 matches HostType::Dav(d)
                    && dav_with_key(config.davs@[k], d)),
        decreases config.davs@.len() - j,
    {
        let key = fully_qualified(&config.davs[j].host, &config.hostname);
        let mut dav = config.davs[j].duplicate();
        let pstr = dav.passphrase.as_str();
        if !pstr.is_empty() {
            let derived = sha256(pstr.as_bytes());
            proof {
                assert(pstr.spec_bytes() == vstd::utf8::encode_utf8(dav.passphrase@));
            }
            dav.key = Some(derived);
        }
        entries.push((key, HostType::Dav(dav)));
        j += 1;
    }
    proof {
        assert forall|i: int| 0 <= i < config.davs@.len() implies entries@[config.apps@.len() + i].0@
            == #[trigger] config.davs@[i].host@ + "."@ + config.hostname@ && (entries@[
            config.apps@.len() + i
        ].1 matches HostType::Dav(d) && dav_with_key(config.davs@[i], d)) by {
            assert(entries@[napps + i].0@ == config.davs@[i].host@ + "."@ + config.hostname@);
            assert(napps + i == config.apps@.len() + i);
        }
    }
    ConfigMap { entries }
}

} // verus!
