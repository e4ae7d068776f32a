//! Addresses of other nodes.

use vstd::prelude::*;

use crate::text::{has_prefix, join2, starts_with};

verus! {

/// The address with a scheme: plain `http` where it names none.
pub open spec fn normalized(addr: Seq<char>) -> Seq<char> {
    if has_prefix(addr, "http://"@) || has_prefix(addr, "https://"@) {
        addr
    } else {
        "http://"@ + addr
    }
}

/// Gives an address a scheme, if it has none.
pub fn normalize_endpoint(addr: &str) -> (uri: String)
    ensures
        uri@ == normalized(addr@),
{
    if starts_with(addr, "http://") || starts_with(addr, "https://") {
        String::from_str(addr)
    } else {
        join2("http://", addr)
    }
}

/// Normalizing an address twice is normalizing it once.
pub proof fn law_normalize_is_idempotent(addr: Seq<char>)
    ensures
        normalized(normalized(addr)) == normalized(addr),
{
    let uri = "http://"@ + addr;
    assert(uri.subrange(0, "http://"@.len() as int) =~= "http://"@);
}

/// What `tonic::transport::Endpoint::from_shared` says against a URI: `None` if it
/// accepts it, else the text of its error.
pub uninterp spec fn endpoint_fault(uri: Seq<char>) -> Option<Seq<char>>;

/// Contents of an optional text.
pub open spec fn opt_text(t: Option<String>) -> Option<Seq<char>> {
    match t {
        Some(s) => Some(s@),
        None => None,
    }
}

/// `tonic::transport::Endpoint::from_shared`: parses the text as a URI; which texts
/// it accepts and what it says against the others depends on the text alone.
#[verifier::external_body]
pub(crate) fn endpoint_from_shared(uri: &str) -> (fault: Option<String>)
    ensures
        opt_text(fault) == endpoint_fault(uri@),
{
    tonic::transport::Endpoint::from_shared(uri.to_string()).err().map(|e| e.to_string())
}

/// The part of an address that a TCP connection takes: without scheme.
///
/// `str::trim_start_matches` with a string pattern: removes the pattern from the
/// beginning of the text as often as it stands there.
#[verifier::external_body]
pub(crate) fn trim_start(text: &str, prefix: &str) -> (rest: String)
    requires
        prefix@.len() > 0,
    ensures
        rest@ == without_prefix(text@, prefix@),
{
    text.trim_start_matches(prefix).to_string()
}

/// The text without as many repetitions of `prefix` as it begins with.
pub open spec fn without_prefix(text: Seq<char>, prefix: Seq<char>) -> Seq<char>
    decreases text.len(),
{
    if prefix.len() > 0 && has_prefix(text, prefix) {
        without_prefix(text.skip(prefix.len() as int), prefix)
    } else {
        text
    }
}

/// Host and port of an address, for a TCP connection.
pub fn host_of(addr: &str) -> (host: String)
    ensures
        host@ == without_prefix(without_prefix(normalized(addr@), "http://"@), "https://"@),
{
    proof {
        reveal_strlit("http://");
        reveal_strlit("https://");
    }
    let uri = normalize_endpoint(addr);
    let rest = trim_start(uri.as_str(), "http://");
    trim_start(rest.as_str(), "https://")
}


/// An address that names a scheme stays as it is; to every other the plain one is put in
/// front.
pub proof fn law_address_gets_a_scheme_only_where_it_has_none(addr: &str, uri: String)
    requires
        call_ensures(normalize_endpoint, (addr,), uri),
    ensures
        ({
            let plain = addr@.len() >= 7 && addr@.subrange(0, 7) == "http://"@;
            let encrypted = addr@.len() >= 8 && addr@.subrange(0, 8) == "https://"@;
            &&& plain || encrypted ==> uri@ == addr@
            &&& !plain && !encrypted ==> uri@ == "http://"@ + addr@
        }),
{
    reveal_strlit("http://");
    reveal_strlit("https://");
}

/// The host of an address does not depend on whether the plain scheme is written out.
pub proof fn law_host_does_not_depend_on_the_plain_scheme(
    addr: &str,
    full: &str,
    host: String,
    full_host: String,
)
    requires
        full@ == normalized(addr@),
        call_ensures(host_of, (addr,), host),
        call_ensures(host_of, (full,), full_host),
    ensures
        host@ == full_host@,
{
    law_normalize_is_idempotent(addr@);
}

} // verus!
