//! Socket address-family selection.
//!
//! An endpoint is a host and a port, given as text.  The family of the
//! socket to create is decided by the literal syntax of that text alone,
//! never by name resolution: the endpoint is tried as an IPv4 socket
//! address first, then as an IPv6 one with the host in brackets.  An
//! endpoint that is neither is a fatal, non-retryable configuration error.

use std::str::FromStr;
use vstd::prelude::*;

verus! {

/// A fatal configuration fault: the endpoint parses as no supported family.
#[derive(Clone, Copy, Debug, PartialEq, Eq, Structural)]
pub enum AddressError {
    UnsupportedAddress,
}

/// The address family one connection attempt settles on.
#[derive(Clone, Copy, Debug, PartialEq, Eq, Structural)]
pub enum AddrFamily {
    V4,
    V6,
}

/// Whether `host:port` is a well-formed IPv4 socket address, by the grammar
/// of the socket layer's parser.
pub uninterp spec fn is_v4_sockaddr(host: Seq<char>, port: Seq<char>) -> bool;

/// Whether `[host]:port` is a well-formed IPv6 socket address, by the
/// grammar of the socket layer's parser.
pub uninterp spec fn is_v6_sockaddr(host: Seq<char>, port: Seq<char>) -> bool;

/// Relies on the `FromStr` impl of `nix::sys::socket::SockaddrIn`, which
/// parses `host:port` by std's IPv4 socket-address grammar; whether it
/// parses depends on the two strings alone.
#[verifier::external_body]
fn parses_as_v4(host: &str, port: &str) -> (r: bool)
    ensures
        r == is_v4_sockaddr(host@, port@),
{
    nix::sys::socket::SockaddrIn::from_str(&format!("{}:{}", host, port)).is_ok()
}

/// Relies on the `FromStr` impl of `nix::sys::socket::SockaddrIn6`, which
/// parses `[host]:port` by std's IPv6 socket-address grammar; whether it
/// parses depends on the two strings alone.
#[verifier::external_body]
fn parses_as_v6(host: &str, port: &str) -> (r: bool)
    ensures
        r == is_v6_sockaddr(host@, port@),
{
    nix::sys::socket::SockaddrIn6::from_str(&format!("[{}]:{}", host, port)).is_ok()
}

/// Picks the one address family for a connection attempt: IPv4 where the
/// endpoint reads as an IPv4 socket address, else IPv6 where it reads as a
/// bracketed IPv6 one, else a fatal configuration error.
pub fn select_family(host: &str, port: &str) -> (r: Result<AddrFamily, AddressError>)
    ensures
        r == Ok::<AddrFamily, AddressError>(AddrFamily::V4) <==> is_v4_sockaddr(host@, port@),
        r == Ok::<AddrFamily, AddressError>(AddrFamily::V6) <==> !is_v4_sockaddr(host@, port@)
            && is_v6_sockaddr(host@, port@),
        r is Err <==> !is_v4_sockaddr(host@, port@) && !is_v6_sockaddr(host@, port@),
        r is Err ==> r->Err_0 == AddressError::UnsupportedAddress,
{
    if parses_as_v4(host, port) {
        Ok(AddrFamily::V4)
    } else if parses_as_v6(host, port) {
        Ok(AddrFamily::V6)
    } else {
        Err(AddressError::UnsupportedAddress)
    }
}

} // verus!
