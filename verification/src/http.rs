//! What the server reads out of a request's headers.

use vstd::prelude::*;
use vstd::string::StringExecFns;

verus! {

/// A header of a request.
#[derive(Debug, Clone)]
pub enum Header {
    /// The request does not have it.
    Missing,
    /// Its value is not plain text.
    Unreadable,
    Text(String),
}

impl Header {
    /// What the header says, `default` if it says nothing.
    pub open spec fn text_or(self, default: Seq<char>) -> Seq<char> {
        match self {
            Header::Text(s) => s@,
            _ => default,
        }
    }

    /// The header, `other` if the request does not have it.
    pub open spec fn or_else(self, other: Header) -> Header {
        match self {
            Header::Missing => other,
            h => h,
        }
    }
}

fn read_or(h: &Header, default: &str) -> (r: String)
    ensures
        r@ == h.text_or(default@),
{
    match h {
        Header::Text(s) => s.clone(),
        _ => default.to_string(),
    }
}

fn first_of<'a>(h: &'a Header, other: &'a Header) -> (r: &'a Header)
    ensures
        *r == h.or_else(*other),
{
    match h {
        Header::Missing => other,
        _ => h,
    }
}

/// The address that a request came from, as the servers in front of this one
/// report it in `cf-connecting-ip`, or else in `x-real-ip`.
pub fn extract_ip(cf_connecting_ip: &Header, x_real_ip: &Header) -> (r: String)
    ensures
        r@ == cf_connecting_ip.or_else(*x_real_ip).text_or("unknown"@),
{
    read_or(first_of(cf_connecting_ip, x_real_ip), "unknown")
}

/// The address under which the visitor reached this server, from
/// `x-forwarded-proto`, and `x-forwarded-host` or else `host`.
pub fn base_url(forwarded_proto: &Header, forwarded_host: &Header, host: &Header) -> (r: String)
    ensures
        r@ == forwarded_proto.text_or("https"@) + "://"@ + forwarded_host.or_else(*host).text_or(
            "localhost:3000"@,
        ),
{
    let mut out = read_or(forwarded_proto, "https");
    out.append("://");
    let name = read_or(first_of(forwarded_host, host), "localhost:3000");
    out.append(name.as_str());
    out
}

} // verus!
