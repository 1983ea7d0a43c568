//! Dav services: WebDAV trees rooted at a local directory, optionally
//! encrypted at rest.

use vstd::prelude::*;
use vstd::string::StringExecFns;

verus! {

/// A WebDAV service.
#[derive(Debug, Clone, Default, PartialEq)]
pub struct Dav {
    /// Identity of the entry in the configuration.
    pub id: usize,
    /// Leaf label under the parent domain.
    pub host: String,
    /// Filesystem root of the served tree.
    pub directory: String,
    /// Whether mutating verbs are permitted.
    pub writable: bool,
    /// Display name.
    pub name: String,
    /// Display icon.
    pub icon: String,
    /// Display color.
    pub color: String,
    /// Whether a session with an overlapping role is required.
    pub secured: bool,
    /// Whether symlinks are followed without a containment check.
    pub allow_symlinks: bool,
    /// Role names that may access the service when secured.
    pub roles: Vec<String>,
    /// Key-derivation input; empty means plaintext on disk.
    pub passphrase: String,
    /// The derived 256-bit key; never serialized, filled on load.
    pub key: Option<[u8; 32]>,
}

/// Field-by-field sameness of two davs, lists compared by contents.
pub open spec fn same_dav(a: Dav, b: Dav) -> bool {
    &&& a.id == b.id
    &&& a.host == b.host
    &&& a.directory == b.directory
    &&& a.writable == b.writable
    &&& a.name == b.name
    &&& a.icon == b.icon
    &&& a.color == b.color
    &&& a.secured == b.secured
    &&& a.allow_symlinks == b.allow_symlinks
    &&& a.roles@ == b.roles@
    &&& a.passphrase == b.passphrase
    &&& a.key == b.key
}

impl Dav {
    /// An equal copy; the role list is copied element by element.
    pub fn duplicate(&self) -> (r: Dav)
        ensures
            same_dav(r, *self),
    {
        let roles = self.roles.clone();
        proof {
            assert(roles@ =~= self.roles@);
        }
        Dav {
            id: self.id,
            host: self.host.clone(),
            directory: self.directory.clone(),
            writable: self.writable,
            name: self.name.clone(),
            icon: self.icon.clone(),
            color: self.color.clone(),
            secured: self.secured,
            allow_symlinks: self.allow_symlinks,
            roles,
            passphrase: self.passphrase.clone(),
            key: self.key,
        }
    }
}


/// Index of the first dav with the given id, or -1.
pub open spec fn spec_dav_index(davs: Seq<Dav>, id: usize) -> int
    decreases davs.len(),
{
    if davs.len() == 0 {
        -1
    } else if davs[0].id == id {
        0
    } else {
        let rest = spec_dav_index(davs.skip(1), id);
        if rest < 0 {
            -1
        } else {
            rest + 1
        }
    }
}

/// A first match at `i` pins `spec_dav_index` to `i`.
proof fn lemma_dav_index_at(davs: Seq<Dav>, id: usize, i: int)
    requires
        0 <= i < davs.len(),
        davs[i].id == id,
        forall|k: int| 0 <= k < i ==> davs[k].id != id,
    ensures
        spec_dav_index(davs, id) == i,
    decreases i,
{
    if i > 0 {
        lemma_dav_index_at(davs.skip(1), id, i - 1);
    }
}

/// No match anywhere pins `spec_dav_index` below zero.
proof fn lemma_dav_index_none(davs: Seq<Dav>, id: usize)
    requires
        forall|k: int| 0 <= k < davs.len() ==> davs[k].id != id,
    ensures
        spec_dav_index(davs, id) < 0,
    decreases davs.len(),
{
    if davs.len() > 0 {
        lemma_dav_index_none(davs.skip(1), id);
    }
}

/// Finds the first dav with the given id.
fn find_dav(davs: &Vec<Dav>, id: usize) -> (r: Option<usize>)
    ensures
        r matches Some(i) ==> 0 <= i < davs@.len() && spec_dav_index(davs@, id) == i as int
            && davs@[i as int].id == id,
        r is None ==> spec_dav_index(davs@, id) < 0,
{
    let mut i: usize = 0;
    while i < davs.len()
        invariant
            i <= davs@.len(),
            forall|k: int| 0 <= k < i ==> davs@[k].id != id,
        decreases davs@.len() - i,
    {
        if davs[i].id == id {
            proof {
                lemma_dav_index_at(davs@, id, i as int);
            }
            return Some(i);
        }
        i += 1;
    }
    proof {
        lemma_dav_index_none(davs@, id);
    }
    None
}

/// Adds or updates a dav: an existing id is replaced by the payload, a new
/// one is appended.
pub fn add_dav(config: &mut crate::configuration::Config, payload: Dav)
    ensures
        ({
            let idx = spec_dav_index(old(config).davs@, payload.id);
            &&& (idx >= 0 ==> final(config).davs@ == old(config).davs@.update(idx, payload))
            &&& (idx < 0 ==> final(config).davs@ == old(config).davs@.push(payload))
            &&& final(config).hostname == old(config).hostname
            &&& final(config).http_port == old(config).http_port
            &&& final(config).apps == old(config).apps
            &&& final(config).users == old(config).users
        }),
{
    match find_dav(&config.davs, payload.id) {
        Some(i) => {
            config.davs[i] = payload;
        },
        None => {
            config.davs.push(payload);
        },
    }
}

/// Removes the dav with the given id. Fails with a bad-request response
/// exactly when no dav has that id.
pub fn delete_dav(config: &mut crate::configuration::Config, dav_id: usize) -> (r: Result<
    (),
    crate::http::HttpResponse,
>)
    ensures
        ({
            let idx = spec_dav_index(old(config).davs@, dav_id);
            &&& (r is Ok <==> idx >= 0)
            &&& (r is Ok ==> final(config).davs@ == old(config).davs@.remove(idx))
            &&& (r matches Err(resp) ==> resp.status == crate::http::STATUS_BAD_REQUEST
                && *final(config) == *old(config))
            &&& final(config).hostname == old(config).hostname
            &&& final(config).http_port == old(config).http_port
            &&& final(config).apps == old(config).apps
            &&& final(config).users == old(config).users
        }),
{
    match find_dav(&config.davs, dav_id) {
        Some(i) => {
            config.davs.remove(i);
            Ok(())
        },
        None => Err(
            crate::http::HttpResponse {
                status: crate::http::STATUS_BAD_REQUEST,
                body: String::from_str("dav doesn't exist"),
            },
        ),
    }
}

} // verus!
