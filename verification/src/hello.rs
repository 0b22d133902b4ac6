//! The `server_name` extension of a TLS ClientHello.

use crate::reader::{self, Reader};
use crate::text::from_utf8;
use vstd::prelude::*;
use vstd::slice::slice_to_vec;
use vstd::utf8;

verus! {

/// A hostname is at most 253 characters; anything longer is not a name that could be routed.
pub const MAX_SERVER_NAME: usize = 253;

/// A byte string with a length prefix of `width` bytes, and what follows it.
pub open spec fn vector(s: Seq<u8>, width: int) -> Option<(Seq<u8>, Seq<u8>)> {
    match reader::uint(s, width) {
        None => None,
        Some((len, rest)) => reader::split(rest, len as int),
    }
}

/// What follows a byte string with a length prefix of `width` bytes.
pub open spec fn past_vector(s: Seq<u8>, width: int) -> Option<Seq<u8>> {
    match vector(s, width) {
        None => None,
        Some((_, rest)) => Some(rest),
    }
}

/// What follows legacy_version, random, the session ID, the cipher suites and the compression
/// methods in the body of a ClientHello.
pub open spec fn past_fixed_fields(body: Seq<u8>) -> Option<Seq<u8>> {
    match reader::skip(body, 34) {
        None => None,
        Some(s) => match past_vector(s, 1) {
            None => None,
            Some(s) => match past_vector(s, 2) {
                None => None,
                Some(s) => past_vector(s, 1),
            },
        },
    }
}

/// The extensions of a handshake message that is a whole ClientHello.
pub open spec fn hello_extensions(handshake: Seq<u8>) -> Option<Seq<u8>> {
    if handshake.len() == 0 || handshake[0] != 0x01 {
        None
    } else {
        match vector(handshake.skip(1), 3) {
            None => None,
            Some((body, _)) => match past_fixed_fields(body) {
                None => None,
                Some(s) => match vector(s, 2) {
                    None => None,
                    Some((extensions, _)) => Some(extensions),
                },
            },
        }
    }
}

/// The body of the first server_name extension, if everything before it is whole.
pub open spec fn server_name_extension(extensions: Seq<u8>) -> Option<Seq<u8>>
    decreases extensions.len(),
{
    match reader::uint(extensions, 2) {
        None => None,
        Some((kind, s)) => match vector(s, 2) {
            None => None,
            Some((body, rest)) => if kind == 0 {
                Some(body)
            } else {
                server_name_extension(rest)
            },
        },
    }
}

/// The first host_name of a ServerNameList that could be routed, if every entry up to it is
/// whole.
pub open spec fn first_host_name(list: Seq<u8>) -> Option<Seq<u8>>
    decreases list.len(),
{
    if list.len() == 0 {
        None
    } else {
        match vector(list.skip(1), 2) {
            None => None,
            Some((name, rest)) => if list[0] == 0x00 && 1 <= name.len() <= MAX_SERVER_NAME {
                Some(name)
            } else {
                first_host_name(rest)
            },
        }
    }
}

/// The bytes a ClientHello offers as a server name.
pub open spec fn offered_name(handshake: Seq<u8>) -> Option<Seq<u8>> {
    match hello_extensions(handshake) {
        None => None,
        Some(extensions) => match server_name_extension(extensions) {
            None => None,
            Some(body) => match vector(body, 2) {
                None => None,
                Some((list, _)) => first_host_name(list),
            },
        },
    }
}

/// The server name a ClientHello offers, if it is text.
pub open spec fn hello_server_name(handshake: Seq<u8>) -> Option<Seq<char>> {
    match offered_name(handshake) {
        None => None,
        Some(name) => if utf8::valid_utf8(name) {
            Some(utf8::decode_utf8(name))
        } else {
            None
        },
    }
}

/// Step over a byte string with a one-byte length prefix.
fn skip_vector8(r: &mut Reader<'_>) -> (done: Option<()>)
    ensures
        match done {
            Some(_) => past_vector(old(r).rest(), 1) == Some(final(r).rest()),
            None => past_vector(old(r).rest(), 1) is None,
        },
{
    proof {
        let s = r.rest();
        if s.len() > 0 {
            reveal_with_fuel(reader::be, 2);
            assert(s.take(1).drop_last() =~= Seq::<u8>::empty());
            assert(reader::be(s.take(1)) == s[0]);
        }
    }
    let len = r.u8()? as usize;
    r.skip(len)
}

/// Step over a byte string with a two-byte length prefix.
fn skip_vector16(r: &mut Reader<'_>) -> (done: Option<()>)
    ensures
        match done {
            Some(_) => past_vector(old(r).rest(), 2) == Some(final(r).rest()),
            None => past_vector(old(r).rest(), 2) is None,
        },
{
    let len = r.u16()?;
    r.skip(len)
}

/// Find the extensions of a ClientHello.
fn read_extensions<'a>(handshake: &'a [u8]) -> (extensions: Option<&'a [u8]>)
    ensures
        match extensions {
            Some(extensions) => hello_extensions(handshake@) == Some(extensions@),
            None => hello_extensions(handshake@) is None,
        },
{
    let mut r = Reader::new(handshake);
    if r.u8()? != 0x01 {
        return None;
    }
    let body_len = r.u24()?;
    let body = r.take(body_len)?;
    let mut r = Reader::new(body);

    r.skip(2 + 32)?;  // legacy_version, random
    skip_vector8(&mut r)?;  // session ID
    skip_vector16(&mut r)?;  // cipher suites
    skip_vector8(&mut r)?;  // compression methods

    let extensions_len = r.u16()?;
    r.take(extensions_len)
}

/// The `server_name` extension of a TLS ClientHello.
pub fn client_hello_server_name(handshake: &[u8]) -> (name: Option<String>)
    ensures
        match name {
            Some(name) => hello_server_name(handshake@) == Some(name@),
            None => hello_server_name(handshake@) is None,
        },
{
    let extensions = read_extensions(handshake)?;
    let mut r = Reader::new(extensions);
    loop
        invariant
            hello_extensions(handshake@) == Some(extensions@),
            server_name_extension(extensions@) == server_name_extension(r.rest()),
        decreases r.rest().len(),
    {
        let extension = r.u16()?;
        let len = r.u16()?;
        let body = r.take(len)?;
        if extension == 0x0000 {
            return list_server_name(body);
        }
    }
}

/// A ServerNameList in practice holds exactly one host_name entry.
fn list_server_name(body: &[u8]) -> (name: Option<String>)
    ensures
        ({
            let bytes = match vector(body@, 2) {
                None => None,
                Some((list, _)) => first_host_name(list),
            };
            match name {
                Some(name) => bytes matches Some(bytes) && utf8::valid_utf8(bytes) && name@
                    == utf8::decode_utf8(bytes),
                None => bytes matches Some(bytes) ==> !utf8::valid_utf8(bytes),
            }
        }),
{
    let mut r = Reader::new(body);
    let list_len = r.u16()?;
    let list = r.take(list_len)?;
    let mut r = Reader::new(list);
    loop
        invariant
            vector(body@, 2) matches Some((l, _)) && l == list@,
            first_host_name(list@) == first_host_name(r.rest()),
        decreases r.rest().len(),
    {
        let kind = r.u8()?;
        let len = r.u16()?;
        let name = r.take(len)?;
        if kind == 0x00 && 1 <= name.len() && name.len() <= MAX_SERVER_NAME {
            return from_utf8(slice_to_vec(name));
        }
    }
}

} // verus!
