//! The certificate that the phone service presents.
//!
//! Phone browsers require a secure context for the microphone; the certificate
//! is self-signed and made at startup, so the phone shows a one-time warning.

use vstd::prelude::*;

use crate::text::{digits, occurs_at};

verus! {

/// An error of the certificate maker.
#[verifier::external_type_specification]
#[verifier::external_body]
pub struct ExCertificateError(rcgen::Error);

/// A certificate and its private key, and the names it was asked for.
pub struct Identity {
    pub names: Vec<String>,
    /// The certificate, in DER.
    pub certificate: Vec<u8>,
    /// The private key, in PKCS#8 DER.
    pub key: Vec<u8>,
}

/// Why there is no certificate.
pub struct IdentityError {
    pub cause: rcgen::Error,
}

/// The text is made of ASCII characters.
pub open spec fn is_plain(text: Seq<char>) -> bool {
    forall|i: int| 0 <= i < text.len() ==> (#[trigger] text[i]) as u32 <= 0x7f
}

/// The first byte of an entry for the name of a host.
pub const HOST_ENTRY: u8 = 0x82;

/// The first byte of an entry for an IP address.
pub const ADDRESS_ENTRY: u8 = 0x87;

/// Longest name whose length takes one byte.
pub const SHORT_NAME: usize = 127;

/// The character can stand in an IP address: a digit, a hexadecimal letter, a dot or a
/// colon.
pub open spec fn is_address_char(c: char) -> bool {
    ||| '0' <= c <= '9'
    ||| 'a' <= c <= 'f'
    ||| 'A' <= c <= 'F'
    ||| c == '.'
    ||| c == ':'
}

/// The text cannot be an IP address: some character of it stands in none.
pub open spec fn is_host(text: Seq<char>) -> bool {
    exists|i: int| 0 <= i < text.len() && !is_address_char(#[trigger] text[i])
}

/// The text of an IPv4 address.
pub open spec fn dotted(a: u8, b: u8, c: u8, d: u8) -> Seq<char> {
    digits(a as nat).push('.') + digits(b as nat).push('.') + digits(c as nat).push('.') + digits(d as nat)
}

/// The bytes of an ASCII text.
pub open spec fn ascii_bytes(text: Seq<char>) -> Seq<u8> {
    Seq::new(text.len(), |i: int| text[i] as u8)
}

/// An entry: its first byte, the length of its content, and the content.
pub open spec fn entry(first: u8, content: Seq<u8>) -> Seq<u8> {
    seq![first, content.len() as u8] + content
}

/// The certificate has such an entry.
pub open spec fn has_entry(certificate: Seq<u8>, first: u8, content: Seq<u8>) -> bool {
    exists|at: int| #[trigger] occurs_at(certificate, entry(first, content), at)
}

/// The certificate has an entry for this name, be it a short name of a host or an IPv4
/// address.
pub open spec fn vouches_for(certificate: Seq<u8>, name: Seq<char>) -> bool {
    &&& is_host(name) && name.len() <= SHORT_NAME ==> has_entry(certificate, HOST_ENTRY, ascii_bytes(name))
    &&& forall|a: u8, b: u8, c: u8, d: u8|
        name == #[trigger] dotted(a, b, c, d) ==> has_entry(certificate, ADDRESS_ENTRY, seq![a, b, c, d])
}

/// Calls `rcgen::generate_simple_self_signed` for a certificate of these names,
/// and takes the certificate and its key out in DER.
///
/// A name is either an IP address or, as the name of a host, refused unless it is
/// ASCII; an IP address is ASCII anyway. So there is a certificate only for names that
/// all are. It has an entry for each: the bytes of a name, or the octets of an address,
/// behind the tag and their length. The key is drawn at random, so nothing is said of
/// the key and of the other bytes, nor of when the call succeeds for such names.
#[verifier::external_body]
fn self_signed(names: &Vec<String>) -> (r: Result<(Vec<u8>, Vec<u8>), rcgen::Error>)
    ensures
        r is Ok ==> forall|i: int| 0 <= i < names.len() ==> is_plain(#[trigger] names[i]@),
        r matches Ok((certificate, key)) ==> forall|i: int|
            0 <= i < names.len() ==> vouches_for(certificate@, #[trigger] names[i]@),
{
    let made = rcgen::generate_simple_self_signed(names.clone())?;
    Ok((made.cert.der().to_vec(), made.key_pair.serialize_der()))
}

/// The names that the certificate is made for: the local host, and the address
/// that phones reach, where there is one.
pub fn certificate_names(ip: &Option<String>) -> (names: Vec<String>)
    ensures
        names.len() == 2,
        names[0]@ == "localhost"@,
        names[1]@ == match ip {
            Some(address) => address@,
            None => "localhost"@,
        },
{
    let mut names: Vec<String> = Vec::new();
    names.push(String::from_str("localhost"));
    match ip {
        Some(address) => {
            names.push(String::from_str(address.as_str()));
        },
        None => {
            names.push(String::from_str("localhost"));
        },
    }
    names
}

/// A fresh identity for the service, whose certificate vouches for the local host and
/// for the address, where there is one; there is none for an address that is not ASCII.
/// What is returned for each outcome of making the certificate is what
/// [`identity_from`] says.
pub fn new_identity(ip: &Option<String>) -> (r: Result<Identity, IdentityError>)
    ensures
        r matches Ok(id) ==> {
            &&& id.names.len() == 2
            &&& id.names[0]@ == "localhost"@
            &&& id.names[1]@ == match ip {
                Some(address) => address@,
                None => "localhost"@,
            }
            &&& has_entry(id.certificate@, HOST_ENTRY, ascii_bytes("localhost"@))
            &&& ip matches Some(address) ==> vouches_for(id.certificate@, address@)
        },
        ip matches Some(address) ==> !is_plain(address@) ==> r is Err,
{
    let names: Vec<String> = certificate_names(ip);
    let made: Result<(Vec<u8>, Vec<u8>), rcgen::Error> = self_signed(&names);
    proof {
        reveal_strlit("localhost");
        assert(!is_address_char("localhost"@[0]));
    }
    identity_from(names, made)
}

/// The identity that the outcome of making a certificate for `names` gives.
pub fn identity_from(names: Vec<String>, made: Result<(Vec<u8>, Vec<u8>), rcgen::Error>) -> (r: Result<
    Identity,
    IdentityError,
>)
    ensures
        match made {
            Ok((certificate, key)) => r == Ok::<Identity, IdentityError>(Identity { names, certificate, key }),
            Err(cause) => r == Err::<Identity, IdentityError>(IdentityError { cause }),
        },
{
    match made {
        Ok((certificate, key)) => Ok(Identity { names, certificate, key }),
        Err(cause) => Err(IdentityError { cause }),
    }
}

} // verus!
