//! Request middleware rules: the Host header reaches the router with any port
//! stripped.

use vstd::prelude::*;
use vstd::string::StrSliceExecFns;

verus! {

/// The Host header minus any `:port` suffix: what the router keys on.
pub fn strip_port_from_host<'a>(host: &'a str) -> (r: &'a str)
    ensures
        crate::utils::spec_index_of(host@, ':') >= 0 ==> r@ == host@.take(
            crate::utils::spec_index_of(host@, ':'),
        ),
        crate::utils::spec_index_of(host@, ':') < 0 ==> r@ == host@,
{
    match crate::utils::find_char(host, ':') {
        Some(i) => host.substring_char(0, i),
        None => host,
    }
}

} // verus!
