use vigenere::addr::{select_family, AddrFamily, AddressError};

#[test]
fn ipv4_literal_selects_v4() {
    assert_eq!(select_family("127.0.0.1", "9000"), Ok(AddrFamily::V4));
    assert_eq!(select_family("0.0.0.0", "1"), Ok(AddrFamily::V4));
}

#[test]
fn ipv6_literal_selects_v6() {
    assert_eq!(select_family("::1", "9000"), Ok(AddrFamily::V6));
    assert_eq!(select_family("2001:db8::7", "80"), Ok(AddrFamily::V6));
}

#[test]
fn hostnames_and_nonsense_are_fatal() {
    assert_eq!(
        select_family("localhost", "9000"),
        Err(AddressError::UnsupportedAddress)
    );
    assert_eq!(
        select_family("not an address", "9000"),
        Err(AddressError::UnsupportedAddress)
    );
    assert_eq!(select_family("", ""), Err(AddressError::UnsupportedAddress));
}

#[test]
fn bad_port_is_fatal_for_either_family() {
    assert_eq!(
        select_family("127.0.0.1", "notaport"),
        Err(AddressError::UnsupportedAddress)
    );
    assert_eq!(
        select_family("::1", "99999"),
        Err(AddressError::UnsupportedAddress)
    );
}
