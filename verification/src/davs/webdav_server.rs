//! The WebDAV request rules: which verb does what on which path state, how
//! conditional and range requests on files are answered, and the multi-status
//! bodies the server emits.

use crate::http::STATUS_NOT_MODIFIED;
use crate::http::STATUS_OK;
use crate::http::STATUS_PARTIAL_CONTENT;
use crate::http::STATUS_RANGE_NOT_SATISFIABLE;
use crate::utils::spec_all_digits;
use crate::utils::spec_decimal;
use crate::utils::spec_decimal_val;
use crate::utils::spec_index_of;
use chrono::TimeZone;
use vstd::prelude::*;
use vstd::string::StrSliceExecFns;
use vstd::string::StringExecFns;

verus! {

/// The WebDAV server: all state lives in the per-request arguments.
pub struct WebdavServer {}

impl WebdavServer {
    /// A server value.
    pub fn new() -> (r: Self) {
        WebdavServer {  }
    }
}

/// A WebDAV verb.
#[derive(Debug, Clone, Copy, PartialEq, Eq, Structural)]
pub enum DavMethod {
    /// GET.
    Get,
    /// HEAD.
    Head,
    /// OPTIONS.
    Options,
    /// PUT.
    Put,
    /// DELETE.
    Delete,
    /// PROPFIND.
    Propfind,
    /// PROPPATCH.
    Proppatch,
    /// MKCOL.
    Mkcol,
    /// COPY.
    Copy,
    /// MOVE.
    Move,
    /// LOCK.
    Lock,
    /// UNLOCK.
    Unlock,
    /// Anything else.
    Other,
}

/// What the filesystem says about the target path.
#[derive(Debug, Clone, Copy, PartialEq, Eq, Structural)]
pub struct PathState {
    /// No entry at the path.
    pub is_miss: bool,
    /// The entry is a directory.
    pub is_dir: bool,
    /// The entry is a regular file.
    pub is_file: bool,
    /// Stored size of the entry in bytes.
    pub size: u64,
}

/// What the server does with a request.
#[derive(Debug, Clone, Copy, PartialEq, Eq, Structural)]
pub enum DavAction {
    /// Stream a ZIP of the directory subtree.
    ZipDir,
    /// Search the subtree by name.
    QueryDir,
    /// Answer with an empty OK response.
    Empty,
    /// Send the file, honoring conditional and range headers.
    SendFile,
    /// Answer 404.
    NotFound,
    /// Answer 403.
    Forbidden,
    /// Emit the WebDAV OPTIONS headers.
    Options,
    /// Write the request body to the path.
    Upload,
    /// Remove the file or tree.
    Delete,
    /// List properties of a directory.
    PropfindDir,
    /// List properties of a file.
    PropfindFile,
    /// Reject the property patch with a fixed multi-status.
    Proppatch,
    /// Create the directory chain.
    Mkcol,
    /// Copy the file to the destination.
    CopyFile,
    /// Rename to the destination.
    MoveFile,
    /// Hand out a synthetic lock token.
    Lock,
    /// Answer 405.
    MethodNotAllowed,
}

/// The verb table of the server: what each method does given the path state,
/// the query, and whether the dav is writable.
pub open spec fn spec_route(
    method: DavMethod,
    query: Seq<char>,
    state: PathState,
    writable: bool,
) -> DavAction {
    match method {
        DavMethod::Get | DavMethod::Head => {
            if state.is_dir {
                if query == "zip"@ {
                    DavAction::ZipDir
                } else if query.len() >= 2 && query.take(2) == "q="@ {
                    DavAction::QueryDir
                } else {
                    DavAction::Empty
                }
            } else if state.is_file {
                DavAction::SendFile
            } else {
                DavAction::NotFound
            }
        },
        DavMethod::Options => DavAction::Options,
        DavMethod::Put => {
            if !writable {
                DavAction::Forbidden
            } else {
                DavAction::Upload
            }
        },
        DavMethod::Delete => {
            if !writable {
                DavAction::Forbidden
            } else if !state.is_miss {
                DavAction::Delete
            } else {
                DavAction::NotFound
            }
        },
        DavMethod::Propfind => {
            if state.is_dir {
                DavAction::PropfindDir
            } else if state.is_file {
                DavAction::PropfindFile
            } else {
                DavAction::NotFound
            }
        },
        DavMethod::Proppatch => {
            if state.is_file {
                DavAction::Proppatch
            } else {
                DavAction::NotFound
            }
        },
        DavMethod::Mkcol => {
            if !writable || !state.is_miss {
                DavAction::Forbidden
            } else {
                DavAction::Mkcol
            }
        },
        DavMethod::Copy => {
            if !writable {
                DavAction::Forbidden
            } else if state.is_miss {
                DavAction::NotFound
            } else {
                DavAction::CopyFile
            }
        },
        DavMethod::Move => {
            if !writable {
                DavAction::Forbidden
            } else if state.is_miss {
                DavAction::NotFound
            } else {
                DavAction::MoveFile
            }
        },
        DavMethod::Lock => {
            if state.is_file {
                DavAction::Lock
            } else {
                DavAction::NotFound
            }
        },
        DavMethod::Unlock => {
            if state.is_miss {
                DavAction::NotFound
            } else {
                DavAction::Empty
            }
        },
        DavMethod::Other => DavAction::MethodNotAllowed,
    }
}

/// Routes a request: the action is exactly the verb table's entry.
pub fn route_dav_request(method: DavMethod, query: &str, state: PathState, writable: bool) -> (r:
    DavAction)
    ensures
        r == spec_route(method, query@, state, writable),
{
    match method {
        DavMethod::Get | DavMethod::Head => {
            proof {
                reveal_strlit("q=");
            }
            if state.is_dir {
                let zip = String::from_str("zip");
                if query.to_owned().eq(&zip) {
                    DavAction::ZipDir
                } else if crate::utils::str_starts_with(query, "q=") {
                    DavAction::QueryDir
                } else {
                    DavAction::Empty
                }
            } else if state.is_file {
                DavAction::SendFile
            } else {
                DavAction::NotFound
            }
        },
        DavMethod::Options => DavAction::Options,
        DavMethod::Put => {
            if !writable {
                DavAction::Forbidden
            } else {
                DavAction::Upload
            }
        },
        DavMethod::Delete => {
            if !writable {
                DavAction::Forbidden
            } else if !state.is_miss {
                DavAction::Delete
            } else {
                DavAction::NotFound
            }
        },
        DavMethod::Propfind => {
            if state.is_dir {
                DavAction::PropfindDir
            } else if state.is_file {
                DavAction::PropfindFile
            } else {
                DavAction::NotFound
            }
        },
        DavMethod::Proppatch => {
            if state.is_file {
                DavAction::Proppatch
            } else {
                DavAction::NotFound
            }
        },
        DavMethod::Mkcol => {
            if !writable || !state.is_miss {
                DavAction::Forbidden
            } else {
                DavAction::Mkcol
            }
        },
        DavMethod::Copy => {
            if !writable {
                DavAction::Forbidden
            } else if state.is_miss {
                DavAction::NotFound
            } else {
                DavAction::CopyFile
            }
        },
        DavMethod::Move => {
            if !writable {
                DavAction::Forbidden
            } else if state.is_miss {
                DavAction::NotFound
            } else {
                DavAction::MoveFile
            }
        },
        DavMethod::Lock => {
            if state.is_file {
                DavAction::Lock
            } else {
                DavAction::NotFound
            }
        },
        DavMethod::Unlock => {
            if state.is_miss {
                DavAction::NotFound
            } else {
                DavAction::Empty
            }
        },
        DavMethod::Other => DavAction::MethodNotAllowed,
    }
}

/// A parsed byte range: a start and an optional inclusive end.
#[derive(Debug, Clone, Copy, PartialEq, Eq, Structural)]
pub struct RangeValue {
    /// First requested plaintext offset.
    pub start: u64,
    /// Last requested plaintext offset, when bounded.
    pub end: Option<u64>,
}

/// Whether a Range header reads `bytes=<start>-<end>` with these values: the
/// unit is `bytes`, the start is a digit run, and the end is absent, empty,
/// or a digit run.
pub open spec fn spec_is_range_of(s: Seq<char>, start: u64, end: Option<u64>) -> bool {
    let e = spec_index_of(s, '=');
    &&& e >= 0
    &&& s.take(e) == "bytes"@
    &&& ({
        let rest = s.skip(e + 1);
        let d = spec_index_of(rest, '-');
        if d < 0 {
            &&& rest.len() > 0
            &&& spec_all_digits(rest)
            &&& spec_decimal_val(rest) == start as int
            &&& spec_decimal_val(rest) <= u64::MAX as int
            &&& end is None
        } else {
            let sp = rest.take(d);
            let ep = rest.skip(d + 1);
            &&& sp.len() > 0
            &&& spec_all_digits(sp)
            &&& spec_decimal_val(sp) == start as int
            &&& spec_decimal_val(sp) <= u64::MAX as int
            &&& if ep.len() == 0 {
                end is None
            } else {
                &&& spec_all_digits(ep)
                &&& spec_decimal_val(ep) <= u64::MAX as int
                &&& (end matches Some(ev) && ev as int == spec_decimal_val(ep))
            }
        }
    })
}

/// Parses a Range header. Succeeds exactly on headers of the recognised
/// shape, with the values they carry.
pub fn parse_range(header: &str) -> (r: Option<RangeValue>)
    ensures
        r matches Some(rv) ==> spec_is_range_of(header@, rv.start, rv.end),
        r is None ==> forall|st: u64, en: Option<u64>| !spec_is_range_of(header@, st, en),
{
    proof {
        crate::utils::lemma_index_of(header@, '=');
    }
    let n = header.unicode_len();
    let eq = match crate::utils::find_char(header, '=') {
        Some(i) => i,
        None => {
            return None;
        },
    };
    let units = header.substring_char(0, eq);
    let bytes_word = String::from_str("bytes");
    if !units.to_owned().eq(&bytes_word) {
        return None;
    }
    let rest = header.substring_char(eq + 1, n);
    proof {
        crate::utils::lemma_index_of(rest@, '-');
    }
    let rn = rest.unicode_len();
    match crate::utils::find_char(rest, '-') {
        None => {
            match crate::utils::parse_u64(rest) {
                Some(v) => Some(RangeValue { start: v, end: None }),
                None => None,
            }
        },
        Some(d) => {
            let sp = rest.substring_char(0, d);
            let ep = rest.substring_char(d + 1, rn);
            let start = match crate::utils::parse_u64(sp) {
                Some(v) => v,
                None => {
                    return None;
                },
            };
            if ep.unicode_len() == 0 {
                Some(RangeValue { start, end: None })
            } else {
                match crate::utils::parse_u64(ep) {
                    Some(v) => Some(RangeValue { start, end: Some(v) }),
                    None => None,
                }
            }
        },
    }
}

/// The Content-Range text of a served range.
pub open spec fn spec_content_range(start: int, end: int, size: int) -> Seq<char> {
    "bytes "@ + spec_decimal(start) + "-"@ + spec_decimal(end) + "/"@ + spec_decimal(size)
}

/// The Content-Range text of an unsatisfiable range.
pub open spec fn spec_content_range_unsatisfiable(size: int) -> Seq<char> {
    "bytes */"@ + spec_decimal(size)
}

/// How a file request is answered.
#[derive(Debug, Clone, PartialEq)]
pub struct SendFilePlan {
    /// The response status.
    pub status: u16,
    /// The Content-Length to set, when one is set.
    pub content_length: Option<u64>,
    /// The Content-Range to set, when one is set.
    pub content_range: Option<String>,
    /// What the body holds.
    pub body: BodyPlan,
}

/// The body of a file response.
#[derive(Debug, Clone, Copy, PartialEq, Eq, Structural)]
pub enum BodyPlan {
    /// No body: a cached, unsatisfiable or head-only answer.
    Empty,
    /// The whole plaintext.
    Whole,
    /// A plaintext range.
    Range {
        /// First plaintext offset sent.
        start: u64,
        /// Plaintext bytes sent.
        length: u64,
    },
}

/// Whether a plan answers a file request correctly. `inm_passes` is the
/// If-None-Match verdict, `ims_modified` the If-Modified-Since one,
/// `if_range_modified` the If-Range one; `range` is the parsed Range header
/// of the request when one was sent, and `size` the plaintext size.
pub open spec fn spec_send_file_plan_ok(
    inm_passes: Option<bool>,
    ims_modified: Option<bool>,
    range: Option<RangeValue>,
    if_range_modified: Option<bool>,
    size: u64,
    head_only: bool,
    r: SendFilePlan,
) -> bool {
    let cached = match inm_passes {
        Some(p) => !p,
        None => match ims_modified {
            Some(m) => !m,
            None => false,
        },
    };
    let use_range = range is Some && (match if_range_modified {
        Some(m) => !m,
        None => true,
    });
    if cached {
        &&& r.status == STATUS_NOT_MODIFIED
        &&& r.body == BodyPlan::Empty
        &&& r.content_length is None
        &&& r.content_range is None
    } else if use_range {
        let rv = range->0;
        let satisfiable = rv.start < size && (match rv.end {
            Some(e) => e >= rv.start,
            None => true,
        });
        if satisfiable {
            let end = vstd::math::min(
                match rv.end {
                    Some(e) => e as int,
                    None => size as int - 1,
                },
                size as int - 1,
            );
            &&& r.status == STATUS_PARTIAL_CONTENT
            &&& (r.content_range matches Some(t) && t@ == spec_content_range(
                rv.start as int,
                end,
                size as int,
            ))
            &&& r.content_length == Some((end - rv.start + 1) as u64)
            &&& r.body == (if head_only {
                BodyPlan::Empty
            } else {
                BodyPlan::Range { start: rv.start, length: (end - rv.start + 1) as u64 }
            })
        } else {
            &&& r.status == STATUS_RANGE_NOT_SATISFIABLE
            &&& (r.content_range matches Some(t) && t@ == spec_content_range_unsatisfiable(
                size as int,
            ))
            &&& r.content_length is None
            &&& r.body == BodyPlan::Empty
        }
    } else {
        &&& r.status == STATUS_OK
        &&& r.content_length == Some(size)
        &&& r.content_range is None
        &&& r.body == (if head_only {
            BodyPlan::Empty
        } else {
            BodyPlan::Whole
        })
    }
}

/// Plans the answer to a file request: a fresh conditional gives 304, a
/// satisfiable range gives 206 with plaintext-sized figures, an unsatisfiable
/// one gives 416, and everything else streams the whole plaintext; HEAD
/// suppresses bodies.
pub fn send_file_plan(
    inm_passes: Option<bool>,
    ims_modified: Option<bool>,
    range: Option<RangeValue>,
    if_range_modified: Option<bool>,
    size: u64,
    head_only: bool,
) -> (r: SendFilePlan)
    ensures
        spec_send_file_plan_ok(
            inm_passes,
            ims_modified,
            range,
            if_range_modified,
            size,
            head_only,
            r,
        ),
{
    let cached = match inm_passes {
        Some(p) => !p,
        None => match ims_modified {
            Some(m) => !m,
            None => false,
        },
    };
    if cached {
        return SendFilePlan {
            status: STATUS_NOT_MODIFIED,
            content_length: None,
            content_range: None,
            body: BodyPlan::Empty,
        };
    }
    let use_range = match if_range_modified {
        Some(m) => !m,
        None => true,
    };
    if use_range && range.is_some() {
        let rv = match range {
            Some(rv) => rv,
            None => {
                return SendFilePlan {
                    status: STATUS_OK,
                    content_length: Some(size),
                    content_range: None,
                    body: BodyPlan::Empty,
                };
            },
        };
        let satisfiable = rv.start < size && (match rv.end {
            Some(e) => e >= rv.start,
            None => true,
        });
        if satisfiable {
            let end = match rv.end {
                Some(e) => {
                    if e <= size - 1 {
                        e
                    } else {
                        size - 1
                    }
                },
                None => size - 1,
            };
            let part_size = end - rv.start + 1;
            let mut text = String::from_str("bytes ");
            let start_digits = crate::utils::u64_to_decimal(rv.start);
            text.append(start_digits.as_str());
            text.append("-");
            let end_digits = crate::utils::u64_to_decimal(end);
            text.append(end_digits.as_str());
            text.append("/");
            let size_digits = crate::utils::u64_to_decimal(size);
            text.append(size_digits.as_str());
            SendFilePlan {
                status: STATUS_PARTIAL_CONTENT,
                content_length: Some(part_size),
                content_range: Some(text),
                body: if head_only {
                    BodyPlan::Empty
                } else {
                    BodyPlan::Range { start: rv.start, length: part_size }
                },
            }
        } else {
            let mut text = String::from_str("bytes */");
            let size_digits = crate::utils::u64_to_decimal(size);
            text.append(size_digits.as_str());
            SendFilePlan {
                status: STATUS_RANGE_NOT_SATISFIABLE,
                content_length: None,
                content_range: Some(text),
                body: BodyPlan::Empty,
            }
        }
    } else {
        SendFilePlan {
            status: STATUS_OK,
            content_length: Some(size),
            content_range: None,
            body: if head_only {
                BodyPlan::Empty
            } else {
                BodyPlan::Whole
            },
        }
    }
}


/// What `str::to_lowercase` maps a text to: a function of the characters
/// alone.
pub uninterp spec fn lower_of(s: Seq<char>) -> Seq<char>;

/// Relies on `str::to_lowercase`: the result depends on the characters alone.
#[verifier::external_body]
fn lowercase(s: &str) -> (r: String)
    ensures
        r@ == lower_of(s@),
{
    s.to_lowercase()
}

/// Whether an entry name matches a search term, both case-folded.
pub fn query_matches(name: &str, term: &str) -> (r: bool)
    ensures
        r == crate::utils::spec_contains(lower_of(name@), lower_of(term@)),
{
    let lname = lowercase(name);
    let lterm = lowercase(term);
    crate::utils::str_contains(lname.as_str(), lterm.as_str())
}

/// What xml-rs's `escape_str_pcdata` maps a text to: a function of the
/// characters alone.
pub uninterp spec fn pcdata_of(s: Seq<char>) -> Seq<char>;

/// Relies on xml-rs's `escape_str_pcdata`: PCDATA escaping depends on the
/// characters alone.
#[verifier::external_body]
fn escape_pcdata(s: &str) -> (r: String)
    ensures
        r@ == pcdata_of(s@),
{
    xml::escape::escape_str_pcdata(s).into_owned()
}

/// What chrono renders a UTC millisecond timestamp as in RFC 2822 form: a
/// function of the value alone.
pub uninterp spec fn rfc2822_of(ms: int) -> Seq<char>;

/// First millisecond timestamp past the RFC 2822 rendering's reach: the
/// rendering writes four-digit years, so it stops at the year ten thousand.
pub const RFC2822_MS_LIMIT: u64 = 253_402_300_800_000;

/// Relies on chrono's `Utc.timestamp_millis_opt(..)` and `to_rfc2822`: for
/// timestamps from the epoch of year zero up to the year ten thousand the
/// value is representable and the rendering succeeds, a function of the value
/// alone. Outside that window `to_rfc2822` panics, so the bound is required.
#[verifier::external_body]
fn rfc2822_utc(ms: i64) -> (r: String)
    requires
        0 <= ms < RFC2822_MS_LIMIT,
    ensures
        r@ == rfc2822_of(ms as int),
{
    chrono::Utc.timestamp_millis_opt(ms).unwrap().to_rfc2822()
}

/// What urlencoding's `encode` maps one path segment to: a function of the
/// characters alone.
pub uninterp spec fn uri_encoded_of(s: Seq<char>) -> Seq<char>;

/// Relies on urlencoding's `encode`: percent-encoding a segment depends on
/// the characters alone.
#[verifier::external_body]
fn urlencode_segment(s: &str) -> (r: String)
    ensures
        r@ == uri_encoded_of(s@),
{
    urlencoding::encode(s).into_owned()
}

/// What percent-encoding's `percent_decode` then UTF-8 decoding map a text
/// to: a function of the characters alone; fails on byte runs that are not
/// UTF-8.
pub uninterp spec fn percent_decoded_of(s: Seq<char>) -> Option<Seq<char>>;

/// Relies on percent-encoding's `percent_decode` and `decode_utf8`: decoding
/// depends on the characters alone.
#[verifier::external_body]
fn percent_decode_str(s: &str) -> (r: Option<String>)
    ensures
        r matches Some(d) ==> percent_decoded_of(s@) == Some(d@),
        r is None ==> percent_decoded_of(s@) is None,
{
    match percent_encoding::percent_decode(s.as_bytes()).decode_utf8() {
        Ok(d) => Some(d.into_owned()),
        Err(_) => None,
    }
}

/// What mime_guess infers from a path's extension: a function of the path
/// text alone; absent when no type is known.
pub uninterp spec fn mime_of(path: Seq<char>) -> Option<Seq<char>>;

/// Relies on mime_guess's `from_path(..).first()`: the inferred type depends
/// on the path text alone.
#[verifier::external_body]
fn mime_for_path(path: &str) -> (r: Option<String>)
    ensures
        r matches Some(m) ==> mime_of(path@) == Some(m@),
        r is None ==> mime_of(path@) is None,
{
    mime_guess::from_path(path).first().map(|m| m.essence_str().to_owned())
}

/// The Content-Type a file is served with: the type its extension names, or
/// the octet-stream default.
pub fn content_type_for(path: &str) -> (r: String)
    ensures
        mime_of(path@) matches Some(m) ==> r@ == m,
        mime_of(path@) is None ==> r@ == "application/octet-stream"@,
{
    match mime_for_path(path) {
        Some(m) => m,
        None => String::from_str("application/octet-stream"),
    }
}

/// A synthetic opaque lock token. Relies on uuid's `Uuid::new_v4` rendered in
/// hyphenated form: 36 characters; nothing is assumed of which ones.
#[verifier::external_body]
fn fresh_lock_uuid() -> (r: String)
    ensures
        r@.len() == 36,
{
    uuid::Uuid::new_v4().to_string()
}

/// The URI-encoded form of a path: every `/`-separated segment encoded on its
/// own, separators kept.
pub open spec fn spec_encode_uri(s: Seq<char>) -> Seq<char>
    decreases s.len(),
{
    let i = spec_index_of(s, '/');
    if i < 0 || i >= s.len() {
        uri_encoded_of(s)
    } else {
        uri_encoded_of(s.take(i)) + "/"@ + spec_encode_uri(s.skip(i + 1))
    }
}

/// Percent-encodes a path segment by segment, keeping the separators.
pub fn encode_uri(v: &str) -> (r: String)
    ensures
        r@ == spec_encode_uri(v@),
    decreases v@.len(),
{
    proof {
        crate::utils::lemma_index_of(v@, '/');
    }
    match crate::utils::find_char(v, '/') {
        None => urlencode_segment(v),
        Some(i) => {
            let n = v.unicode_len();
            let head = v.substring_char(0, i);
            let tail = v.substring_char(i + 1, n);
            let mut out = urlencode_segment(head);
            out.append("/");
            let rest = encode_uri(tail);
            out.append(rest.as_str());
            out
        },
    }
}

/// Percent-decodes a request path.
pub fn decode_uri(v: &str) -> (r: Option<String>)
    ensures
        r matches Some(d) ==> percent_decoded_of(v@) == Some(d@),
        r is None ==> percent_decoded_of(v@) is None,
{
    percent_decode_str(v)
}

/// A joined path: an absolute right side replaces the left, otherwise a `/`
/// separates them unless one is already there.
pub open spec fn spec_join_path(base: Seq<char>, rel: Seq<char>) -> Seq<char> {
    if rel.len() > 0 && rel[0] == '/' {
        rel
    } else if base.len() == 0 {
        rel
    } else if base.last() == '/' {
        base + rel
    } else {
        base + "/"@ + rel
    }
}

/// Joins a dav root and a relative path.
pub fn join_path(base: &str, rel: &str) -> (r: String)
    ensures
        r@ == spec_join_path(base@, rel@),
{
    let rn = rel.unicode_len();
    if rn > 0 && rel.get_char(0) == '/' {
        return rel.to_owned();
    }
    let bn = base.unicode_len();
    if bn == 0 {
        return rel.to_owned();
    }
    let mut out = base.to_owned();
    if base.get_char(bn - 1) != '/' {
        out.append("/");
    }
    out.append(rel);
    out
}

/// The path a request resolves to under a dav root: the request path minus
/// its leading slash, percent-decoded, joined to the root. Nothing strips a
/// mount prefix: davs are mounted at the root of their virtual host.
pub fn extract_path(wanted_path: &str, dav_path: &str) -> (r: Option<String>)
    ensures
        wanted_path@.len() == 0 ==> r is None,
        r matches Some(p) ==> wanted_path@.len() > 0 && (percent_decoded_of(wanted_path@.skip(1))
            matches Some(d) && p@ == spec_join_path(dav_path@, d)),
        r is None && wanted_path@.len() > 0 ==> percent_decoded_of(wanted_path@.skip(1)) is None,
{
    let n = wanted_path.unicode_len();
    if n == 0 {
        return None;
    }
    let tail = wanted_path.substring_char(1, n);
    match decode_uri(tail) {
        Some(decoded) => Some(join_path(dav_path, decoded.as_str())),
        None => None,
    }
}

/// A path kept as it is: virtual hosts mount their dav at the root, so there
/// is no prefix to strip.
pub fn strip_path_prefix<'a>(path: &'a str) -> (r: &'a str)
    ensures
        r@ == path@,
{
    path
}

/// A path text unchanged: the stored names already use `/` separators.
pub fn normalize_path(path: &str) -> (r: String)
    ensures
        r@ == path@,
{
    path.to_owned()
}

/// The text after the last `/`.
pub open spec fn spec_base_name(s: Seq<char>) -> Seq<char>
    decreases s.len(),
{
    let i = spec_index_of(s, '/');
    if i < 0 || i >= s.len() {
        s
    } else {
        spec_base_name(s.skip(i + 1))
    }
}

/// The file name of a path: the text after the last `/`.
pub fn get_file_name<'a>(path: &'a str) -> (r: &'a str)
    ensures
        r@ == spec_base_name(path@),
    decreases path@.len(),
{
    proof {
        crate::utils::lemma_index_of(path@, '/');
    }
    match crate::utils::find_char(path, '/') {
        None => path,
        Some(i) => {
            let n = path.unicode_len();
            get_file_name(path.substring_char(i + 1, n))
        },
    }
}

/// The listing depth a PROPFIND asks for: an absent header means depth one,
/// a digit run is taken as written, and anything else is a bad request.
pub fn parse_depth(header: Option<&str>) -> (r: Option<u32>)
    ensures
        header is None ==> r == Some(1u32),
        header matches Some(h) ==> (match r {
            Some(d) => h@.len() > 0 && spec_all_digits(h@) && d as int == spec_decimal_val(h@)
                && spec_decimal_val(h@) <= u32::MAX as int,
            None => h@.len() == 0 || !spec_all_digits(h@) || spec_decimal_val(h@)
                > u32::MAX as int,
        }),
{
    match header {
        None => Some(1),
        Some(h) => match crate::utils::parse_u64(h) {
            Some(v) => {
                if v > u32::MAX as u64 {
                    None
                } else {
                    Some(v as u32)
                }
            },
            None => None,
        },
    }
}

/// The ETag of a stored file: its modification time and stored size.
pub fn etag_value(mtime_ms: u64, size: u64) -> (r: String)
    ensures
        r@ == "\""@ + spec_decimal(mtime_ms as int) + "-"@ + spec_decimal(size as int) + "\""@,
{
    let mut out = String::from_str("\"");
    let t = crate::utils::u64_to_decimal(mtime_ms);
    out.append(t.as_str());
    out.append("-");
    let z = crate::utils::u64_to_decimal(size);
    out.append(z.as_str());
    out.append("\"");
    out
}

/// The Content-Disposition of a ZIP download of a directory.
pub fn zip_content_disposition(filename: &str) -> (r: String)
    ensures
        r@ == "attachment; filename=\""@ + spec_encode_uri(filename@) + ".zip\""@,
{
    let mut out = String::from_str("attachment; filename=\"");
    let enc = encode_uri(filename);
    out.append(enc.as_str());
    out.append(".zip\"");
    out
}

/// The Content-Disposition of a file download.
pub fn inline_content_disposition(filename: &str) -> (r: String)
    ensures
        r@ == "inline; filename=\""@ + spec_encode_uri(filename@) + "\""@,
{
    let mut out = String::from_str("inline; filename=\"");
    let enc = encode_uri(filename);
    out.append(enc.as_str());
    out.append("\"");
    out
}

/// The `DAV` header the OPTIONS answer carries.
pub fn dav_header() -> (r: &'static str)
    ensures
        r@ == "1,2"@,
{
    "1,2"
}

/// The `Allow` header the OPTIONS answer carries.
pub fn allow_header() -> (r: &'static str)
    ensures
        r@ == "GET,HEAD,PUT,OPTIONS,DELETE,PROPFIND,COPY,MOVE"@,
{
    "GET,HEAD,PUT,OPTIONS,DELETE,PROPFIND,COPY,MOVE"
}

/// Kind of a listed entry.
#[derive(Debug, Clone, Copy, PartialEq, Eq, Structural)]
pub enum PathType {
    /// A directory.
    Dir,
    /// A symlink to a directory.
    SymlinkDir,
    /// A regular file.
    File,
    /// A symlink to a file.
    SymlinkFile,
}

/// A listed entry: its kind, its name relative to the dav root, its
/// modification time in milliseconds, and its plaintext size for files.
#[derive(Debug, Clone, PartialEq)]
pub struct PathItem {
    /// Kind of the entry.
    pub path_type: PathType,
    /// Name relative to the dav root.
    pub name: String,
    /// Modification time, milliseconds since the epoch.
    pub mtime: u64,
    /// Plaintext size; absent for directories.
    pub size: Option<u64>,
}

/// Builds the listed entry of a filesystem node: the kind comes from the
/// symlink and directory flags, and a file's size is the plaintext size of
/// its stored bytes, zero when the stored bytes are shorter than a nonce and
/// one tag.
pub fn make_path_item(rel_name: String, is_symlink: bool, is_dir: bool, mtime: u64, stored_size: u64) -> (r: PathItem)
    ensures
        r.name == rel_name,
        r.mtime == mtime,
        r.path_type == (match (is_symlink, is_dir) {
            (true, true) => PathType::SymlinkDir,
            (false, true) => PathType::Dir,
            (true, false) => PathType::SymlinkFile,
            (false, false) => PathType::File,
        }),
        is_dir ==> r.size is None,
        !is_dir ==> r.size == Some(
            if stored_size >= crate::davs::encrypted_streamer::NONCE_SIZE
                + crate::davs::encrypted_streamer::ENCRYPTION_OVERHEAD {
                crate::davs::encrypted_streamer::spec_decrypted_size(stored_size as int) as u64
            } else {
                0u64
            },
        ),
{
    let path_type = match (is_symlink, is_dir) {
        (true, true) => PathType::SymlinkDir,
        (false, true) => PathType::Dir,
        (true, false) => PathType::SymlinkFile,
        (false, false) => PathType::File,
    };
    let size = if is_dir {
        None
    } else if stored_size >= (crate::davs::encrypted_streamer::NONCE_SIZE
        + crate::davs::encrypted_streamer::ENCRYPTION_OVERHEAD) as u64 {
        proof {
            crate::davs::encrypted_streamer::lemma_size_round_trip(0);
        }
        Some(crate::davs::encrypted_streamer::decrypted_size(stored_size))
    } else {
        Some(0)
    };
    PathItem { path_type, name: rel_name, mtime, size }
}

/// The rendered modification time of an entry; empty when the RFC 2822 form
/// cannot carry the timestamp.
pub open spec fn spec_mtime_text(ms: int) -> Seq<char> {
    if 0 <= ms < RFC2822_MS_LIMIT {
        rfc2822_of(ms)
    } else {
        Seq::<char>::empty()
    }
}

/// The href of an entry: the encoded path, directories with a trailing `/`.
pub open spec fn spec_href(prefix: Seq<char>, name: Seq<char>, is_dir: bool) -> Seq<char> {
    let h = spec_encode_uri(prefix + name);
    if is_dir && (h.len() == 0 || h.last() != '/') {
        h + "/"@
    } else {
        h
    }
}

/// The multi-status response element of a directory.
pub open spec fn spec_dav_xml_dir(href: Seq<char>, display: Seq<char>, mtime: Seq<char>) -> Seq<
    char,
> {
    "<D:response>\n<D:href>"@ + href + "</D:href>\n<D:propstat>\n<D:prop>\n<D:displayname>"@
        + display + "</D:displayname>\n<D:getlastmodified>"@ + mtime
        + "</D:getlastmodified>\n<D:resourcetype><D:collection/></D:resourcetype>\n</D:prop>\n<D:status>HTTP/1.1 200 OK</D:status>\n</D:propstat>\n</D:response>"@
}

/// The multi-status response element of a file.
pub open spec fn spec_dav_xml_file(
    href: Seq<char>,
    display: Seq<char>,
    length: Seq<char>,
    mtime: Seq<char>,
) -> Seq<char> {
    "<D:response>\n<D:href>"@ + href + "</D:href>\n<D:propstat>\n<D:prop>\n<D:displayname>"@
        + display + "</D:displayname>\n<D:getcontentlength>"@ + length
        + "</D:getcontentlength>\n<D:getlastmodified>"@ + mtime
        + "</D:getlastmodified>\n<D:resourcetype></D:resourcetype>\n</D:prop>\n<D:status>HTTP/1.1 200 OK</D:status>\n</D:propstat>\n</D:response>"@
}

impl PathItem {
    /// Whether the entry is a directory, symlinked or not.
    pub fn is_dir(&self) -> (r: bool)
        ensures
            r == (self.path_type == PathType::Dir || self.path_type == PathType::SymlinkDir),
    {
        self.path_type == PathType::Dir || self.path_type == PathType::SymlinkDir
    }

    /// The display name: the text after the last `/` of the entry's name.
    pub fn base_name<'a>(&'a self) -> (r: &'a str)
        ensures
            r@ == spec_base_name(self.name@),
    {
        get_file_name(self.name.as_str())
    }

    /// The multi-status element of the entry: href, escaped display name,
    /// RFC 2822 modification time, and for files the plaintext length.
    pub fn to_dav_xml(&self, prefix: &str) -> (r: String)
        ensures
            (self.path_type == PathType::Dir || self.path_type == PathType::SymlinkDir) ==> r@
                == spec_dav_xml_dir(
                spec_href(prefix@, self.name@, true),
                pcdata_of(spec_base_name(self.name@)),
                spec_mtime_text(self.mtime as int),
            ),
            (self.path_type == PathType::File || self.path_type == PathType::SymlinkFile) ==> r@
                == spec_dav_xml_file(
                spec_href(prefix@, self.name@, false),
                pcdata_of(spec_base_name(self.name@)),
                spec_decimal(
                    (match self.size {
                        Some(z) => z,
                        None => 0u64,
                    }) as int,
                ),
                spec_mtime_text(self.mtime as int),
            ),
    {
        let mtime_text = if self.mtime < RFC2822_MS_LIMIT {
            rfc2822_utc(self.mtime as i64)
        } else {
            String::new()
        };
        let mut full = prefix.to_owned();
        full.append(self.name.as_str());
        let mut href = encode_uri(full.as_str());
        let is_dir = self.is_dir();
        if is_dir {
            let hn = href.as_str().unicode_len();
            if hn == 0 || href.as_str().get_char(hn - 1) != '/' {
                href.append("/");
            }
        }
        proof {
            if is_dir {
                assert(href@ == spec_href(prefix@, self.name@, true));
            } else {
                assert(href@ == spec_href(prefix@, self.name@, false));
            }
        }
        let displayname = escape_pcdata(self.base_name());
        if is_dir {
            let mut out = String::from_str("<D:response>\n<D:href>");
            out.append(href.as_str());
            out.append("</D:href>\n<D:propstat>\n<D:prop>\n<D:displayname>");
            out.append(displayname.as_str());
            out.append("</D:displayname>\n<D:getlastmodified>");
            out.append(mtime_text.as_str());
            out.append(
                "</D:getlastmodified>\n<D:resourcetype><D:collection/></D:resourcetype>\n</D:prop>\n<D:status>HTTP/1.1 200 OK</D:status>\n</D:propstat>\n</D:response>",
            );
            out
        } else {
            let length = match self.size {
                Some(z) => z,
                None => 0,
            };
            let mut out = String::from_str("<D:response>\n<D:href>");
            out.append(href.as_str());
            out.append("</D:href>\n<D:propstat>\n<D:prop>\n<D:displayname>");
            out.append(displayname.as_str());
            out.append("</D:displayname>\n<D:getcontentlength>");
            let len_digits = crate::utils::u64_to_decimal(length);
            out.append(len_digits.as_str());
            out.append("</D:getcontentlength>\n<D:getlastmodified>");
            out.append(mtime_text.as_str());
            out.append(
                "</D:getlastmodified>\n<D:resourcetype></D:resourcetype>\n</D:prop>\n<D:status>HTTP/1.1 200 OK</D:status>\n</D:propstat>\n</D:response>",
            );
            out
        }
    }
}

/// The body of a multi-status response wrapping the given elements.
pub fn multistatus_body(content: &str) -> (r: String)
    ensures
        r@ == "<?xml version=\"1.0\" encoding=\"utf-8\" ?>\n<D:multistatus xmlns:D=\"DAV:\">\n"@
            + content@ + "\n</D:multistatus>"@,
{
    let mut out = String::from_str(
        "<?xml version=\"1.0\" encoding=\"utf-8\" ?>\n<D:multistatus xmlns:D=\"DAV:\">\n",
    );
    out.append(content);
    out.append("\n</D:multistatus>");
    out
}

/// A synthetic lock token: an opaque name around a fresh random identifier.
pub fn lock_token() -> (r: String)
    ensures
        r@.len() == "opaquelocktoken:"@.len() + 36,
        r@.take("opaquelocktoken:"@.len() as int) == "opaquelocktoken:"@,
{
    let mut out = String::from_str("opaquelocktoken:");
    let id = fresh_lock_uuid();
    out.append(id.as_str());
    proof {
        assert(out@.take("opaquelocktoken:"@.len() as int) =~= "opaquelocktoken:"@);
    }
    out
}

/// The body of a LOCK answer: a lock-discovery element naming the token and
/// the locked path.
pub fn lock_body(token: &str, req_path: &str) -> (r: String)
    ensures
        r@ == "<?xml version=\"1.0\" encoding=\"utf-8\"?>\n<D:prop xmlns:D=\"DAV:\"><D:lockdiscovery><D:activelock>\n<D:locktoken><D:href>"@
            + token@ + "</D:href></D:locktoken>\n<D:lockroot><D:href>"@ + req_path@
            + "</D:href></D:lockroot>\n</D:activelock></D:lockdiscovery></D:prop>"@,
{
    let mut out = String::from_str(
        "<?xml version=\"1.0\" encoding=\"utf-8\"?>\n<D:prop xmlns:D=\"DAV:\"><D:lockdiscovery><D:activelock>\n<D:locktoken><D:href>",
    );
    out.append(token);
    out.append("</D:href></D:locktoken>\n<D:lockroot><D:href>");
    out.append(req_path);
    out.append("</D:href></D:lockroot>\n</D:activelock></D:lockdiscovery></D:prop>");
    out
}

/// The multi-status element rejecting a property patch.
pub fn proppatch_body(req_path: &str) -> (r: String)
    ensures
        r@ == "<D:response>\n<D:href>"@ + req_path@
            + "</D:href>\n<D:propstat>\n<D:prop>\n</D:prop>\n<D:status>HTTP/1.1 403 Forbidden</D:status>\n</D:propstat>\n</D:response>"@,
{
    let mut out = String::from_str("<D:response>\n<D:href>");
    out.append(req_path);
    out.append(
        "</D:href>\n<D:propstat>\n<D:prop>\n</D:prop>\n<D:status>HTTP/1.1 403 Forbidden</D:status>\n</D:propstat>\n</D:response>",
    );
    out
}

/// Whether a canonical path sits at or under a root path: equal, or extended
/// below a `/`.
pub open spec fn spec_path_contained(path: Seq<char>, root: Seq<char>) -> bool {
    ||| path == root
    ||| (path.len() > root.len() && path.take(root.len() as int) == root && (root.len() > 0
        && root.last() == '/' || path[root.len() as int] == '/'))
}

/// Whether a canonical path sits at or under a root path.
pub fn path_contained(path: &str, root: &str) -> (r: bool)
    ensures
        r == spec_path_contained(path@, root@),
{
    let pn = path.unicode_len();
    let rn = root.unicode_len();
    if pn < rn {
        return false;
    }
    if !crate::utils::str_starts_with(path, root) {
        proof {
            if path@ == root@ {
                assert(path@.take(rn as int) =~= root@);
            }
        }
        return false;
    }
    if pn == rn {
        proof {
            assert(path@.take(rn as int) =~= path@);
        }
        return true;
    }
    if rn > 0 && root.get_char(rn - 1) == '/' {
        return true;
    }
    path.get_char(rn) == '/'
}

} // verus!
