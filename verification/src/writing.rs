//! What clients write, and that it is read back.
//!
//! The encodings here exist only in proofs: each says how a client lays out a field, a message
//! or a packet. The laws say that what was laid out is what the readers find.

use crate::crypto;
use crate::frames::{self, Piece};
use crate::hello;
use crate::reader;
use crate::sni::{self, LongHeader};
use vstd::prelude::*;
use vstd::utf8;

verus! {

/// A number in big-endian order, in `width` bytes.
pub open spec fn be_bytes(n: nat, width: nat) -> Seq<u8>
    decreases width,
{
    if width == 0 {
        Seq::empty()
    } else {
        be_bytes(n / 256, (width - 1) as nat).push((n % 256) as u8)
    }
}

/// How many numbers fit in `width` bytes.
pub open spec fn room(width: nat) -> nat
    decreases width,
{
    if width == 0 {
        1
    } else {
        256 * room((width - 1) as nat)
    }
}

/// A byte string with a length prefix of `width` bytes.
pub open spec fn prefixed(s: Seq<u8>, width: nat) -> Seq<u8> {
    be_bytes(s.len(), width) + s
}

proof fn lemma_be_bytes(n: nat, width: nat)
    requires
        n < room(width),
    ensures
        be_bytes(n, width).len() == width,
        reader::be(be_bytes(n, width)) == n,
    decreases width,
{
    if width > 0 {
        assert(n / 256 < room((width - 1) as nat));
        lemma_be_bytes(n / 256, (width - 1) as nat);
        let s = be_bytes(n, width);
        assert(s.drop_last() =~= be_bytes(n / 256, (width - 1) as nat));
        assert(s.last() == (n % 256) as u8);
    }
}

/// A field's value is below the number of values it has room for, and writing it again gives the
/// same bytes.
proof fn lemma_be_inverse(s: Seq<u8>)
    ensures
        reader::be(s) < room(s.len()),
        be_bytes(reader::be(s), s.len()) == s,
    decreases s.len(),
{
    if s.len() > 0 {
        lemma_be_inverse(s.drop_last());
        let n = reader::be(s);
        let high = reader::be(s.drop_last());
        assert(n / 256 == high && n % 256 == s.last());
        assert(be_bytes(n, s.len()) =~= s);
    } else {
        assert(be_bytes(reader::be(s), s.len()) =~= s);
    }
}

/// The first byte of a field counts for the most.
proof fn lemma_be_head(s: Seq<u8>)
    requires
        s.len() > 0,
    ensures
        reader::be(s) == s[0] * room((s.len() - 1) as nat) + reader::be(s.skip(1)),
    decreases s.len(),
{
    if s.len() == 1 {
        reveal_with_fuel(reader::be, 2);
        assert(s.skip(1) =~= Seq::<u8>::empty());
        assert(s.drop_last() =~= Seq::<u8>::empty());
        let head = s[0] as nat;
        let one = room(0);
        assert(head * one == head) by (nonlinear_arith)
            requires
                one == 1,
        ;
    } else {
        let front = s.drop_last();
        lemma_be_head(front);
        assert(front.skip(1) =~= s.skip(1).drop_last());
        let head = s[0] as nat;
        let r = room((front.len() - 1) as nat);
        let whole = room((s.len() - 1) as nat);
        assert((head * r) * 256 == head * whole) by (nonlinear_arith)
            requires
                whole == 256 * r,
        ;
    }
}

proof fn lemma_prefixed(s: Seq<u8>, width: nat, rest: Seq<u8>)
    requires
        s.len() < room(width),
    ensures
        hello::vector(prefixed(s, width) + rest, width as int) == Some((s, rest)),
        prefixed(s, width).len() == width + s.len(),
{
    lemma_be_bytes(s.len(), width);
    let all = prefixed(s, width) + rest;
    assert(all.take(width as int) =~= be_bytes(s.len(), width));
    let tail = all.skip(width as int);
    assert(tail =~= s + rest);
    assert(tail.take(s.len() as int) =~= s);
    assert(tail.skip(s.len() as int) =~= rest);
}

/// Whatever is read as a byte string with a length prefix was written as one.
proof fn lemma_prefixed_inverse(s: Seq<u8>, width: nat)
    ensures
        hello::vector(s, width as int) matches Some((v, rest)) ==> s == prefixed(v, width) + rest
            && v.len() < room(width),
{
    if hello::vector(s, width as int) is Some {
        let field = s.take(width as int);
        lemma_be_inverse(field);
        let (v, rest) = hello::vector(s, width as int).unwrap();
        assert(s =~= field + (v + rest));
        assert(s =~= prefixed(v, width) + rest);
    }
}

/// What a client puts in its ClientHello.
pub struct Hello {
    /// legacy_version and random.
    pub opening: Seq<u8>,
    pub session_id: Seq<u8>,
    pub cipher_suites: Seq<u8>,
    pub compression: Seq<u8>,
    /// The extensions before server_name, by kind and body.
    pub before: Seq<(nat, Seq<u8>)>,
    /// The entries before the host name in its list, by kind and content: other kinds of name, and
    /// host names that are empty or too long.
    pub other_names: Seq<(u8, Seq<u8>)>,
    /// The host name.
    pub name: Seq<u8>,
    /// What follows the host name in its list.
    pub more_names: Seq<u8>,
    /// What follows the list in its extension.
    pub padding: Seq<u8>,
    /// The extensions after server_name, as bytes.
    pub later: Seq<u8>,
    /// What follows the extensions in the body.
    pub excess: Seq<u8>,
}

/// One extension.
pub open spec fn extension(kind: nat, body: Seq<u8>) -> Seq<u8> {
    be_bytes(kind, 2) + prefixed(body, 2)
}

/// Extensions one after the other, and what follows them.
pub open spec fn extensions(list: Seq<(nat, Seq<u8>)>, rest: Seq<u8>) -> Seq<u8>
    decreases list.len(),
{
    if list.len() == 0 {
        rest
    } else {
        extension(list[0].0, list[0].1) + extensions(list.skip(1), rest)
    }
}

/// One entry of a ServerNameList.
pub open spec fn name_entry(kind: u8, content: Seq<u8>) -> Seq<u8> {
    seq![kind] + prefixed(content, 2)
}

/// Entries one after the other, and what follows them.
pub open spec fn name_entries(list: Seq<(u8, Seq<u8>)>, rest: Seq<u8>) -> Seq<u8>
    decreases list.len(),
{
    if list.len() == 0 {
        rest
    } else {
        name_entry(list[0].0, list[0].1) + name_entries(list.skip(1), rest)
    }
}

/// Extensions that fit, none of them server_name.
pub open spec fn other_extensions(list: Seq<(nat, Seq<u8>)>) -> bool {
    forall|i: int|
        0 <= i < list.len() ==> 0 < (#[trigger] list[i]).0 < 65536 && list[i].1.len() < 65536
}

/// Entries that fit, none of them a host name that can be routed.
pub open spec fn unroutable_names(list: Seq<(u8, Seq<u8>)>) -> bool {
    forall|i: int|
        0 <= i < list.len() ==> (#[trigger] list[i]).1.len() < 65536 && (list[i].0 != 0
            || list[i].1.len() == 0 || list[i].1.len() > 253)
}

impl Hello {
    /// The ServerNameList: entries to skip, a host_name, then whatever else.
    pub open spec fn names(self) -> Seq<u8> {
        name_entries(self.other_names, name_entry(0, self.name) + self.more_names)
    }

    /// The body of the server_name extension.
    pub open spec fn server_name(self) -> Seq<u8> {
        prefixed(self.names(), 2) + self.padding
    }

    /// Every extension.
    pub open spec fn extensions(self) -> Seq<u8> {
        extensions(self.before, extension(0, self.server_name()) + self.later)
    }

    /// The body of the message.
    pub open spec fn body(self) -> Seq<u8> {
        self.opening + (prefixed(self.session_id, 1) + (prefixed(self.cipher_suites, 2) + (prefixed(
            self.compression,
            1,
        ) + (prefixed(self.extensions(), 2) + self.excess))))
    }

    /// The handshake message.
    pub open spec fn message(self) -> Seq<u8> {
        seq![0x01u8] + prefixed(self.body(), 3)
    }

    /// Everything fits the length it is announced with, and the name is one that can be routed.
    pub open spec fn well_formed(self) -> bool {
        &&& self.opening.len() == 34
        &&& self.session_id.len() < 256
        &&& self.cipher_suites.len() < 65536
        &&& self.compression.len() < 256
        &&& other_extensions(self.before)
        &&& unroutable_names(self.other_names)
        &&& 1 <= self.name.len() <= 253
        &&& self.names().len() < 65536
        &&& self.server_name().len() < 65536
        &&& self.extensions().len() < 65536
        &&& self.body().len() < 16777216
    }
}

proof fn lemma_rooms()
    ensures
        room(0) == 1,
        room(1) == 256,
        room(2) == 65536,
        room(3) == 16777216,
{
    reveal_with_fuel(room, 4);
}

proof fn lemma_extension(kind: nat, body: Seq<u8>, rest: Seq<u8>)
    requires
        kind < room(2),
        body.len() < room(2),
    ensures
        reader::uint(extension(kind, body) + rest, 2) == Some((kind, prefixed(body, 2) + rest)),
        hello::vector(prefixed(body, 2) + rest, 2) == Some((body, rest)),
{
    lemma_be_bytes(kind, 2);
    lemma_prefixed(body, 2, rest);
    let all = extension(kind, body) + rest;
    assert(all.take(2) =~= be_bytes(kind, 2));
    assert(all.skip(2) =~= prefixed(body, 2) + rest);
}

proof fn lemma_extensions(list: Seq<(nat, Seq<u8>)>, body: Seq<u8>, later: Seq<u8>)
    requires
        other_extensions(list),
        body.len() < 65536,
    ensures
        hello::server_name_extension(extensions(list, extension(0, body) + later)) == Some(body),
    decreases list.len(),
{
    lemma_rooms();
    if list.len() == 0 {
        lemma_extension(0, body, later);
    } else {
        let rest = extensions(list.skip(1), extension(0, body) + later);
        let (kind, first) = list[0];
        lemma_extension(kind, first, rest);
        assert(other_extensions(list.skip(1))) by {
            assert forall|i: int| 0 <= i < list.skip(1).len() implies 0 < (#[trigger] list.skip(
                1,
            )[i]).0 < 65536 && list.skip(1)[i].1.len() < 65536 by {
                assert(list.skip(1)[i] == list[i + 1]);
            }
        }
        lemma_extensions(list.skip(1), body, later);
    }
}

proof fn lemma_past_prefixed(s: Seq<u8>, width: nat, rest: Seq<u8>)
    requires
        s.len() < room(width),
    ensures
        hello::past_vector(prefixed(s, width) + rest, width as int) == Some(rest),
{
    lemma_prefixed(s, width, rest);
}

proof fn lemma_fixed_fields(h: Hello)
    requires
        h.well_formed(),
    ensures
        hello::past_fixed_fields(h.body()) == Some(prefixed(h.extensions(), 2) + h.excess),
{
    lemma_rooms();
    let s3 = prefixed(h.extensions(), 2) + h.excess;
    let s2 = prefixed(h.compression, 1) + s3;
    let s1 = prefixed(h.cipher_suites, 2) + s2;
    let s0 = prefixed(h.session_id, 1) + s1;
    assert(h.body().skip(34) =~= s0);
    lemma_past_prefixed(h.session_id, 1, s1);
    lemma_past_prefixed(h.cipher_suites, 2, s2);
    lemma_past_prefixed(h.compression, 1, s3);
}

proof fn lemma_hello_extensions(h: Hello, rest: Seq<u8>)
    requires
        h.well_formed(),
    ensures
        hello::hello_extensions(h.message() + rest) == Some(h.extensions()),
{
    lemma_rooms();
    let all = h.message() + rest;
    assert(all.skip(1) =~= prefixed(h.body(), 3) + rest);
    assert(all[0] == 0x01);
    lemma_prefixed(h.body(), 3, rest);
    lemma_fixed_fields(h);
    lemma_prefixed(h.extensions(), 2, h.excess);
}

proof fn lemma_first_host_name(list: Seq<(u8, Seq<u8>)>, name: Seq<u8>, more: Seq<u8>)
    requires
        unroutable_names(list),
        1 <= name.len() <= 253,
    ensures
        hello::first_host_name(name_entries(list, name_entry(0, name) + more)) == Some(name),
    decreases list.len(),
{
    lemma_rooms();
    let all = name_entries(list, name_entry(0, name) + more);
    if list.len() == 0 {
        assert(all.skip(1) =~= prefixed(name, 2) + more);
        lemma_prefixed(name, 2, more);
        assert(all[0] == 0u8);
    } else {
        let rest = name_entries(list.skip(1), name_entry(0, name) + more);
        let (kind, content) = list[0];
        assert(list[0].1.len() < 65536);
        assert(all.skip(1) =~= prefixed(content, 2) + rest);
        lemma_prefixed(content, 2, rest);
        assert(all[0] == kind);
        assert(unroutable_names(list.skip(1))) by {
            assert forall|i: int| 0 <= i < list.skip(1).len() implies (#[trigger] list.skip(
                1,
            )[i]).1.len() < 65536 && (list.skip(1)[i].0 != 0 || list.skip(1)[i].1.len() == 0
                || list.skip(1)[i].1.len() > 253) by {
                assert(list.skip(1)[i] == list[i + 1]);
            }
        }
        lemma_first_host_name(list.skip(1), name, more);
    }
}

/// Law: the server name that a client writes into its ClientHello is the one that is read,
/// whatever follows the message.
pub proof fn law_a_hello_is_read_whatever_follows(h: Hello, rest: Seq<u8>)
    requires
        h.well_formed(),
    ensures
        hello::offered_name(h.message() + rest) == Some(h.name),
        utf8::valid_utf8(h.name) ==> hello::hello_server_name(h.message() + rest) == Some(
            utf8::decode_utf8(h.name),
        ),
        !utf8::valid_utf8(h.name) ==> hello::hello_server_name(h.message() + rest) is None,
{
    lemma_rooms();
    lemma_hello_extensions(h, rest);
    lemma_extensions(h.before, h.server_name(), h.later);
    lemma_prefixed(h.names(), 2, h.padding);
    lemma_first_host_name(h.other_names, h.name, h.more_names);
}

/// Law: the server name that a client writes into its ClientHello is the one that is read.
pub proof fn law_a_hello_offers_its_name(h: Hello)
    requires
        h.well_formed(),
    ensures
        hello::offered_name(h.message()) == Some(h.name),
        utf8::valid_utf8(h.name) ==> hello::hello_server_name(h.message()) == Some(
            utf8::decode_utf8(h.name),
        ),
        !utf8::valid_utf8(h.name) ==> hello::hello_server_name(h.message()) is None,
{
    assert(h.message() + Seq::<u8>::empty() =~= h.message());
    law_a_hello_is_read_whatever_follows(h, Seq::empty());
}

/// The entries that a host name was found behind.
proof fn lemma_names_inverse(list: Seq<u8>) -> (found: (Seq<(u8, Seq<u8>)>, Seq<u8>))
    ensures
        hello::first_host_name(list) matches Some(name) ==> {
            &&& unroutable_names(found.0)
            &&& 1 <= name.len() <= 253
            &&& list == name_entries(found.0, name_entry(0, name) + found.1)
        },
    decreases list.len(),
{
    if hello::first_host_name(list) is Some {
        lemma_rooms();
        let (content, rest) = hello::vector(list.skip(1), 2).unwrap();
        lemma_prefixed_inverse(list.skip(1), 2);
        assert(list =~= seq![list[0]] + list.skip(1));
        assert(list =~= name_entry(list[0], content) + rest);
        if list[0] == 0x00 && 1 <= content.len() <= 253 {
            (Seq::empty(), rest)
        } else {
            let (others, more) = lemma_names_inverse(rest);
            let all = seq![(list[0], content)] + others;
            assert(all.skip(1) =~= others);
            assert forall|i: int| 0 <= i < all.len() implies (#[trigger] all[i]).1.len() < 65536
                && (all[i].0 != 0 || all[i].1.len() == 0 || all[i].1.len() > 253) by {
                if i > 0 {
                    assert(all[i] == others[i - 1]);
                }
            }
            (all, more)
        }
    } else {
        (Seq::empty(), Seq::empty())
    }
}

/// The extensions that server_name was found behind.
proof fn lemma_extensions_inverse(list: Seq<u8>) -> (found: (Seq<(nat, Seq<u8>)>, Seq<u8>))
    ensures
        hello::server_name_extension(list) matches Some(body) ==> {
            &&& other_extensions(found.0)
            &&& body.len() < 65536
            &&& list == extensions(found.0, extension(0, body) + found.1)
        },
    decreases list.len(),
{
    if hello::server_name_extension(list) is Some {
        lemma_rooms();
        let (kind, s) = reader::uint(list, 2).unwrap();
        let (body, rest) = hello::vector(s, 2).unwrap();
        lemma_be_inverse(list.take(2));
        lemma_prefixed_inverse(s, 2);
        assert(list =~= list.take(2) + s);
        assert(list =~= extension(kind, body) + rest);
        if kind == 0 {
            (Seq::empty(), rest)
        } else {
            let (others, later) = lemma_extensions_inverse(rest);
            let all = seq![(kind, body)] + others;
            assert(all.skip(1) =~= others);
            assert forall|i: int| 0 <= i < all.len() implies 0 < (#[trigger] all[i]).0 < 65536
                && all[i].1.len() < 65536 by {
                if i > 0 {
                    assert(all[i] == others[i - 1]);
                }
            }
            (all, later)
        }
    } else {
        (Seq::empty(), Seq::empty())
    }
}

/// The body that extensions were found in.
#[verifier::spinoff_prover]
#[verifier::rlimit(80)]
proof fn lemma_body_inverse(body: Seq<u8>) -> (found: (Seq<u8>, Seq<u8>, Seq<u8>))
    ensures
        hello::past_fixed_fields(body) matches Some(rest) ==> {
            &&& body.len() >= 34
            &&& found.0.len() < 256
            &&& found.1.len() < 65536
            &&& found.2.len() < 256
            &&& body == body.take(34) + (prefixed(found.0, 1) + (prefixed(found.1, 2) + (prefixed(
                found.2,
                1,
            ) + rest)))
        },
{
    if hello::past_fixed_fields(body) is Some {
        lemma_rooms();
        let s0 = body.skip(34);
        let (a, s1) = hello::vector(s0, 1).unwrap();
        let (b, s2) = hello::vector(s1, 2).unwrap();
        let (c, s3) = hello::vector(s2, 1).unwrap();
        lemma_prefixed_inverse(s0, 1);
        lemma_prefixed_inverse(s1, 2);
        lemma_prefixed_inverse(s2, 1);
        assert(body =~= body.take(34) + s0);
        (a, b, c)
    } else {
        (Seq::empty(), Seq::empty(), Seq::empty())
    }
}

/// Law: a name that is read out of a handshake message was written into it by a client, as the
/// first host name that can be routed in the first server_name extension of a whole ClientHello;
/// and where none is read, none was written.
pub proof fn law_an_offered_name_was_written(m: Seq<u8>) -> (found: (Hello, Seq<u8>))
    ensures
        match hello::offered_name(m) {
            Some(name) => {
                &&& found.0.well_formed()
                &&& found.0.name == name
                &&& m == found.0.message() + found.1
            },
            None => forall|h: Hello, rest: Seq<u8>|
                h.well_formed() ==> m != #[trigger] (h.message() + rest),
        },
{
    let none = Seq::<u8>::empty();
    let blank = Hello {
        opening: none,
        session_id: none,
        cipher_suites: none,
        compression: none,
        before: Seq::empty(),
        other_names: Seq::empty(),
        name: none,
        more_names: none,
        padding: none,
        later: none,
        excess: none,
    };
    if let Some(name) = hello::offered_name(m) {
        lemma_rooms();
        let (body, rest) = hello::vector(m.skip(1), 3).unwrap();
        lemma_prefixed_inverse(m.skip(1), 3);
        let (session_id, cipher_suites, compression) = lemma_body_inverse(body);
        let fields = hello::past_fixed_fields(body).unwrap();
        let (all, excess) = hello::vector(fields, 2).unwrap();
        lemma_prefixed_inverse(fields, 2);
        let extension_body = hello::server_name_extension(all).unwrap();
        let (before, later) = lemma_extensions_inverse(all);
        let (list, padding) = hello::vector(extension_body, 2).unwrap();
        lemma_prefixed_inverse(extension_body, 2);
        let (other_names, more_names) = lemma_names_inverse(list);
        let h = Hello {
            opening: body.take(34),
            session_id,
            cipher_suites,
            compression,
            before,
            other_names,
            name,
            more_names,
            padding,
            later,
            excess,
        };
        assert(h.names() == list);
        assert(h.server_name() == extension_body);
        assert(h.extensions() == all);
        assert(h.body() == body);
        assert(m =~= seq![0x01u8] + m.skip(1));
        assert(m =~= h.message() + rest);
        (h, rest)
    } else {
        assert forall|h: Hello, rest: Seq<u8>| h.well_formed() implies m != #[trigger] (h.message()
            + rest) by {
            law_a_hello_is_read_whatever_follows(h, rest);
        }
        (blank, none)
    }
}

/// Law: a ClientHello that is not whole has no name, wherever it is cut.
pub proof fn law_a_partial_hello_has_no_name(h: Hello, kept: int)
    requires
        h.well_formed(),
        0 <= kept < h.message().len(),
    ensures
        hello::hello_server_name(h.message().take(kept)) is None,
{
    lemma_rooms();
    let part = h.message().take(kept);
    lemma_be_bytes(h.body().len(), 3);
    if kept >= 4 {
        assert(part.skip(1).take(3) =~= be_bytes(h.body().len(), 3));
        assert(part.skip(1).skip(3).len() < h.body().len());
    }
}

/// How many numbers a varint of `width` bytes holds: two bits of it tell the width.
pub open spec fn varint_room(width: nat) -> nat {
    64 * room((width - 1) as nat)
}

/// What the two top bits of a varint say: the logarithm of its width.
pub open spec fn varint_tag(width: nat) -> nat {
    if width == 1 {
        0
    } else if width == 2 {
        1
    } else if width == 4 {
        2
    } else {
        3
    }
}

/// The widths a varint can have.
pub open spec fn is_varint_width(width: nat) -> bool {
    width == 1 || width == 2 || width == 4 || width == 8
}

/// A number as a varint of `width` bytes: the number in big-endian order, the tag in the top bits.
pub open spec fn varint_bytes(n: nat, width: nat) -> Seq<u8> {
    be_bytes(varint_tag(width) * varint_room(width) + n, width)
}

/// Bytes that spell a number as a varint, in any width that holds it.
pub open spec fn spells(field: Seq<u8>, n: nat) -> bool {
    &&& is_varint_width(field.len())
    &&& n < varint_room(field.len())
    &&& field == varint_bytes(n, field.len())
}

proof fn lemma_varint_rooms(width: nat)
    requires
        is_varint_width(width),
    ensures
        room(0) == 1,
        room(1) == 256,
        room(2) == 0x1_0000,
        room(3) == 0x100_0000,
        room(4) == 0x1_0000_0000,
        room(7) == 0x100_0000_0000_0000,
        room(8) == 0x1_0000_0000_0000_0000,
        room(width) == 256 * room((width - 1) as nat),
{
    reveal_with_fuel(room, 9);
}

/// The top of a field that holds a tag and a number.
proof fn lemma_tagged(first: nat, r: nat, tail: nat, tag: nat, n: nat)
    by (nonlinear_arith)
    requires
        tag * (64 * r) + n == first * r + tail,
        tail < r,
        n < 64 * r,
    ensures
        64 * tag <= first < 64 * (tag + 1),
        (first - 64 * tag) * r + tail == n,
{
}

/// Law: a number written as a varint is read back, in every width that holds it.
pub proof fn law_varints_are_read_back(n: nat, width: nat, rest: Seq<u8>)
    requires
        is_varint_width(width),
        n < varint_room(width),
    ensures
        reader::varint(varint_bytes(n, width) + rest) == Some((n, rest)),
        varint_bytes(n, width).len() == width,
{
    lemma_varint_rooms(width);
    let r = room((width - 1) as nat);
    let tag = varint_tag(width);
    let value = tag * varint_room(width) + n;
    let field = varint_bytes(n, width);
    assert(value < room(width)) by (nonlinear_arith)
        requires
            tag <= 3,
            n < 64 * r,
            value == tag * (64 * r) + n,
            room(width) == 256 * r,
    ;
    lemma_be_bytes(value, width);
    lemma_be_head(field);
    lemma_be_inverse(field.skip(1));
    let first = field[0] as nat;
    lemma_tagged(first, r, reader::be(field.skip(1)), tag, n);
    let all = field + rest;
    assert(all[0] == field[0]);
    assert(reader::varint_width(all[0]) == width);
    assert(all.take(width as int) =~= field);
    assert(all.skip(width as int) =~= rest);
    let cleared = field.update(0, field[0] % 64);
    lemma_be_head(cleared);
    assert(cleared.skip(1) =~= field.skip(1));
    assert(first % 64 == first - 64 * tag);
    assert(reader::be(cleared) == n);
}

/// Law: whatever is read as a varint is a number written as one, in the width its first byte tells,
/// and what follows.
pub proof fn law_a_varint_was_written(s: Seq<u8>) -> (width: nat)
    ensures
        match reader::varint(s) {
            Some((n, rest)) => {
                &&& is_varint_width(width)
                &&& n < varint_room(width)
                &&& s == varint_bytes(n, width) + rest
            },
            None => forall|n: nat, rest: Seq<u8>, w: nat|
                is_varint_width(w) && n < varint_room(w) ==> s != #[trigger] (varint_bytes(n, w)
                    + rest),
        },
{
    if let Some((n, rest)) = reader::varint(s) {
        let width = reader::varint_width(s[0]);
        lemma_varint_rooms(width);
        let field = s.take(width as int);
        let cleared = field.update(0, field[0] % 64);
        lemma_be_head(field);
        lemma_be_head(cleared);
        assert(cleared.skip(1) =~= field.skip(1));
        lemma_be_inverse(field.skip(1));
        lemma_be_inverse(field);
        let first = field[0] as nat;
        let tag = varint_tag(width);
        let r = room((width - 1) as nat);
        let low = first % 64;
        assert(first == 64 * tag + low);
        assert(first * r == tag * (64 * r) + low * r) by (nonlinear_arith)
            requires
                first == 64 * tag + low,
        ;
        assert(reader::be(field) == tag * varint_room(width) + n);
        let tail = reader::be(field.skip(1));
        assert(n < 64 * r) by (nonlinear_arith)
            requires
                n == low * r + tail,
                low < 64,
                tail < r,
        ;
        assert(s =~= field + s.skip(width as int));
        width
    } else {
        assert forall|n: nat, rest: Seq<u8>, w: nat|
            is_varint_width(w) && n < varint_room(w) implies s != #[trigger] (varint_bytes(n, w)
            + rest) by {
            law_varints_are_read_back(n, w, rest);
        }
        0
    }
}

proof fn lemma_varint_extends(s: Seq<u8>, more: Seq<u8>)
    ensures
        reader::varint(s) matches Some((n, rest)) ==> reader::varint(s + more) == Some(
            (n, rest + more),
        ),
{
    if s.len() > 0 && reader::varint_width(s[0]) <= s.len() {
        let width = reader::varint_width(s[0]) as int;
        assert((s + more).take(width) =~= s.take(width));
        assert((s + more).skip(width) =~= s.skip(width) + more);
    }
}

proof fn lemma_spelled(field: Seq<u8>, n: nat, rest: Seq<u8>)
    requires
        spells(field, n),
    ensures
        reader::varint(field + rest) == Some((n, rest)),
{
    law_varints_are_read_back(n, field.len(), rest);
}

/// Numbers as varints, each with its width, one after the other.
pub open spec fn varint_fields(fields: Seq<(nat, nat)>) -> Seq<u8>
    decreases fields.len(),
{
    if fields.len() == 0 {
        Seq::empty()
    } else {
        varint_bytes(fields[0].0, fields[0].1) + varint_fields(fields.skip(1))
    }
}

/// Every number fits the width it is written in.
pub open spec fn fields_fit(fields: Seq<(nat, nat)>) -> bool {
    forall|i: int|
        0 <= i < fields.len() ==> is_varint_width((#[trigger] fields[i]).1) && fields[i].0
            < varint_room(fields[i].1)
}

/// The frames a client puts in an Initial.
pub enum Frame {
    Padding,
    Ping,
    /// An acknowledgement: the largest number and a delay, how many further ranges there are, the
    /// first range, two numbers for each further one, and three counts if it has any.
    Ack { ecn: bool, fields: Seq<(nat, nat)> },
    /// Part of the handshake: where it belongs, how long it is, and its bytes.
    Crypto { at: nat, offset: Seq<u8>, length: Seq<u8>, data: Seq<u8> },
}

impl Frame {
    /// A frame's fields are varints, and say how long it is.
    pub open spec fn well_formed(self) -> bool {
        match self {
            Frame::Ack { ecn, fields } => {
                &&& fields_fit(fields)
                &&& fields.len() >= 4
                &&& fields.len() == 4 + 2 * fields[2].0 + if ecn {
                    3int
                } else {
                    0
                }
            },
            Frame::Crypto { at, offset, length, data } => {
                &&& spells(offset, at)
                &&& spells(length, data.len())
            },
            _ => true,
        }
    }

    /// A frame as it lies in the payload.
    pub open spec fn bytes(self) -> Seq<u8> {
        match self {
            Frame::Padding => seq![0x00u8],
            Frame::Ping => seq![0x01u8],
            Frame::Ack { ecn, fields } => seq![
                if ecn {
                    0x03u8
                } else {
                    0x02u8
                },
            ] + varint_fields(fields),
            Frame::Crypto { at, offset, length, data } => seq![0x06u8] + (offset + (length + data)),
        }
    }

    /// The part of the handshake a frame carries.
    pub open spec fn pieces(self) -> Seq<Piece> {
        match self {
            Frame::Crypto { at, offset, length, data } => seq![Piece { offset: at, data }],
            _ => Seq::empty(),
        }
    }
}

/// Frames one after the other.
pub open spec fn payload(list: Seq<Frame>) -> Seq<u8>
    decreases list.len(),
{
    if list.len() == 0 {
        Seq::empty()
    } else {
        list[0].bytes() + payload(list.skip(1))
    }
}

/// The parts of the handshake that frames carry, in the order they come.
pub open spec fn payload_pieces(list: Seq<Frame>) -> Seq<Piece>
    decreases list.len(),
{
    if list.len() == 0 {
        Seq::empty()
    } else {
        list[0].pieces() + payload_pieces(list.skip(1))
    }
}

/// Every frame is well formed.
pub open spec fn frames_well_formed(list: Seq<Frame>) -> bool {
    forall|i: int| 0 <= i < list.len() ==> (#[trigger] list[i]).well_formed()
}

/// What ends a walk over frames: the end of the payload, or a frame that a client has no business
/// sending in an Initial.
pub open spec fn ends_the_walk(tail: Seq<u8>) -> bool {
    tail.len() == 0 || (tail[0] > 0x03 && tail[0] != 0x06)
}

proof fn lemma_fields_skip(fields: Seq<(nat, nat)>, n: int)
    requires
        fields_fit(fields),
        0 <= n <= fields.len(),
    ensures
        fields_fit(fields.skip(n)),
        fields_fit(fields.take(n)),
{
    assert forall|i: int| 0 <= i < fields.skip(n).len() implies is_varint_width(
        (#[trigger] fields.skip(n)[i]).1,
    ) && fields.skip(n)[i].0 < varint_room(fields.skip(n)[i].1) by {
        assert(fields.skip(n)[i] == fields[i + n]);
    }
    assert forall|i: int| 0 <= i < fields.take(n).len() implies is_varint_width(
        (#[trigger] fields.take(n)[i]).1,
    ) && fields.take(n)[i].0 < varint_room(fields.take(n)[i].1) by {
        assert(fields.take(n)[i] == fields[i]);
    }
}

/// Stepping over as many varints as were written.
proof fn lemma_varints_read(fields: Seq<(nat, nat)>, rest: Seq<u8>)
    requires
        fields_fit(fields),
    ensures
        frames::varints(varint_fields(fields) + rest, fields.len()) == Some(rest),
    decreases fields.len(),
{
    if fields.len() == 0 {
        assert(varint_fields(fields) + rest =~= rest);
    } else {
        let (n, width) = fields[0];
        let more = varint_fields(fields.skip(1)) + rest;
        assert(varint_fields(fields) + rest =~= varint_bytes(n, width) + more);
        law_varints_are_read_back(n, width, more);
        lemma_fields_skip(fields, 1);
        lemma_varints_read(fields.skip(1), rest);
    }
}

/// Varints that were stepped over were written.
proof fn lemma_varints_inverse(s: Seq<u8>, n: nat) -> (fields: Seq<(nat, nat)>)
    ensures
        frames::varints(s, n) matches Some(rest) ==> {
            &&& fields_fit(fields)
            &&& fields.len() == n
            &&& s == varint_fields(fields) + rest
        },
    decreases n,
{
    if n == 0 {
        let fields = Seq::<(nat, nat)>::empty();
        assert(varint_fields(fields) + s =~= s);
        fields
    } else if frames::varints(s, n) is Some {
        let (value, more) = reader::varint(s).unwrap();
        let width = law_a_varint_was_written(s);
        let others = lemma_varints_inverse(more, (n - 1) as nat);
        let rest = frames::varints(s, n).unwrap();
        let fields = seq![(value, width)] + others;
        assert(fields.skip(1) =~= others);
        assert(varint_fields(fields) + rest =~= varint_bytes(value, width) + (varint_fields(others)
            + rest));
        assert forall|i: int| 0 <= i < fields.len() implies is_varint_width(
            (#[trigger] fields[i]).1,
        ) && fields[i].0 < varint_room(fields[i].1) by {
            if i > 0 {
                assert(fields[i] == others[i - 1]);
            }
        }
        fields
    } else {
        Seq::empty()
    }
}

/// The fields of two lists, one after the other.
proof fn lemma_fields_join(a: Seq<(nat, nat)>, b: Seq<(nat, nat)>)
    ensures
        varint_fields(a + b) == varint_fields(a) + varint_fields(b),
    decreases a.len(),
{
    if a.len() == 0 {
        assert(a + b =~= b);
        assert(varint_fields(a) + varint_fields(b) =~= varint_fields(b));
    } else {
        lemma_fields_join(a.skip(1), b);
        assert((a + b).skip(1) =~= a.skip(1) + b);
        assert(varint_fields(a + b) =~= varint_fields(a) + varint_fields(b));
    }
}

proof fn lemma_ack_read(ecn: bool, fields: Seq<(nat, nat)>, rest: Seq<u8>)
    requires
        (Frame::Ack { ecn, fields }).well_formed(),
    ensures
        frames::ack(varint_fields(fields) + rest, ecn) == Some(rest),
{
    let head = fields.take(2);
    let tail = fields.skip(3);
    let (ranges, width) = fields[2];
    lemma_fields_skip(fields, 2);
    lemma_fields_skip(fields, 3);
    assert(fields.skip(2).skip(1) =~= tail);
    assert(fields =~= head + fields.skip(2));
    lemma_fields_join(head, fields.skip(2));
    assert(fields.skip(2)[0] == fields[2]);
    let after_count = varint_fields(tail) + rest;
    let from_count = varint_bytes(ranges, width) + after_count;
    assert(varint_fields(fields) + rest =~= varint_fields(head) + from_count);
    lemma_varints_read(head, from_count);
    law_varints_are_read_back(ranges, width, after_count);
    lemma_varints_read(tail, rest);
}

proof fn lemma_ack_inverse(s: Seq<u8>, ecn: bool) -> (fields: Seq<(nat, nat)>)
    ensures
        frames::ack(s, ecn) matches Some(rest) ==> {
            &&& (Frame::Ack { ecn, fields }).well_formed()
            &&& s == varint_fields(fields) + rest
        },
{
    if frames::ack(s, ecn) is Some {
        let from_count = frames::varints(s, 2).unwrap();
        let head = lemma_varints_inverse(s, 2);
        let (ranges, after_count) = reader::varint(from_count).unwrap();
        let width = law_a_varint_was_written(from_count);
        let n: nat = 1 + 2 * ranges + if ecn {
            3
        } else {
            0nat
        };
        let tail = lemma_varints_inverse(after_count, n);
        let rest = frames::varints(after_count, n).unwrap();
        let count = seq![(ranges, width)];
        let fields = head + (count + tail);
        lemma_fields_join(head, count + tail);
        lemma_fields_join(count, tail);
        assert(count.skip(1) =~= Seq::<(nat, nat)>::empty());
        assert(varint_fields(count.skip(1)) =~= Seq::<u8>::empty());
        assert(varint_fields(count) =~= varint_bytes(ranges, width));
        assert(s =~= varint_fields(fields) + rest);
        assert forall|i: int| 0 <= i < fields.len() implies is_varint_width(
            (#[trigger] fields[i]).1,
        ) && fields[i].0 < varint_room(fields[i].1) by {
            if i < 2 {
                assert(fields[i] == head[i]);
            } else if i > 2 {
                assert(fields[i] == tail[i - 3]);
            }
        }
        assert(fields[2] == (ranges, width));
        fields
    } else {
        Seq::empty()
    }
}

proof fn lemma_frame(f: Frame, rest: Seq<u8>)
    requires
        f.well_formed(),
    ensures
        frames::pieces(f.bytes() + rest) == frames::prepend(f.pieces(), frames::pieces(rest)),
{
    let all = f.bytes() + rest;
    match f {
        Frame::Crypto { at, offset, length, data } => {
            let s0 = all.skip(1);
            assert(s0 =~= offset + (length + (data + rest)));
            lemma_spelled(offset, at, length + (data + rest));
            lemma_spelled(length, data.len(), data + rest);
            assert((data + rest).take(data.len() as int) =~= data);
            assert((data + rest).skip(data.len() as int) =~= rest);
        },
        Frame::Ack { ecn, fields } => {
            assert(all.skip(1) =~= varint_fields(fields) + rest);
            lemma_ack_read(ecn, fields, rest);
            match frames::pieces(rest) {
                Some(ps) => assert(f.pieces() + ps =~= ps),
                None => {},
            }
        },
        _ => {
            assert(all.skip(1) =~= rest);
            match frames::pieces(rest) {
                Some(ps) => assert(f.pieces() + ps =~= ps),
                None => {},
            }
        },
    }
}

/// Law: the frames a client writes are the frames that are read, in their order, up to one that
/// it has no business sending.
pub proof fn law_frames_are_read_up_to_a_stranger(list: Seq<Frame>, tail: Seq<u8>)
    requires
        frames_well_formed(list),
        ends_the_walk(tail),
    ensures
        frames::pieces(payload(list) + tail) == Some(payload_pieces(list)),
    decreases list.len(),
{
    if list.len() > 0 {
        assert(list[0].well_formed());
        assert forall|i: int| 0 <= i < list.skip(1).len() implies (
        #[trigger] list.skip(1)[i]).well_formed() by {
            assert(list[i + 1].well_formed());
        }
        law_frames_are_read_up_to_a_stranger(list.skip(1), tail);
        let rest = payload(list.skip(1)) + tail;
        assert(payload(list) + tail =~= list[0].bytes() + rest);
        lemma_frame(list[0], rest);
    } else {
        assert(payload(list) + tail =~= tail);
    }
}

/// Law: the frames a client writes are the frames that are read, in their order.
pub proof fn law_frames_are_read_back(list: Seq<Frame>)
    requires
        frames_well_formed(list),
    ensures
        frames::pieces(payload(list)) == Some(payload_pieces(list)),
{
    assert(payload(list) + Seq::<u8>::empty() =~= payload(list));
    law_frames_are_read_up_to_a_stranger(list, Seq::empty());
}

/// Law: whatever is read as frames was written as frames; and a payload that is refused is no run
/// of whole frames.
pub proof fn law_frames_were_written(s: Seq<u8>) -> (found: (Seq<Frame>, Seq<u8>))
    ensures
        match frames::pieces(s) {
            Some(ps) => {
                &&& frames_well_formed(found.0)
                &&& ends_the_walk(found.1)
                &&& s == payload(found.0) + found.1
                &&& ps == payload_pieces(found.0)
            },
            None => forall|list: Seq<Frame>, tail: Seq<u8>|
                frames_well_formed(list) && ends_the_walk(tail) ==> s != #[trigger] (payload(list)
                    + tail),
        },
{
    if frames::pieces(s) is Some {
        lemma_frames_inverse(s)
    } else {
        assert forall|list: Seq<Frame>, tail: Seq<u8>|
            frames_well_formed(list) && ends_the_walk(tail) implies s != #[trigger] (payload(list)
            + tail) by {
            law_frames_are_read_up_to_a_stranger(list, tail);
        }
        (Seq::empty(), Seq::empty())
    }
}

proof fn lemma_crypto_inverse(s: Seq<u8>) -> (found: (Frame, Seq<u8>))
    requires
        s.len() > 0,
        s[0] == 0x06,
        frames::crypto_frame(s.skip(1)) is Some,
    ensures
        found.0.well_formed(),
        s == found.0.bytes() + found.1,
        found.1.len() < s.len(),
{
    let t = s.skip(1);
    let (at, u) = reader::varint(t).unwrap();
    let (len, v) = reader::varint(u).unwrap();
    let w1 = law_a_varint_was_written(t);
    let w2 = law_a_varint_was_written(u);
    law_varints_are_read_back(at, w1, u);
    law_varints_are_read_back(len, w2, v);
    let data = v.take(len as int);
    let rest = v.skip(len as int);
    let offset = varint_bytes(at, w1);
    let length = varint_bytes(len, w2);
    assert(v =~= data + rest);
    lemma_join(length, data, rest);
    lemma_join(offset, length + data, rest);
    assert(s =~= seq![0x06u8] + t);
    lemma_join(seq![0x06u8], offset + (length + data), rest);
    (Frame::Crypto { at, offset, length, data }, rest)
}

proof fn lemma_ack_frame_inverse(s: Seq<u8>) -> (found: (Frame, Seq<u8>))
    requires
        s.len() > 0,
        s[0] == 0x02 || s[0] == 0x03,
        frames::ack(s.skip(1), s[0] == 0x03) is Some,
    ensures
        found.0.well_formed(),
        s == found.0.bytes() + found.1,
        found.1.len() < s.len(),
{
    let ecn = s[0] == 0x03;
    let t = s.skip(1);
    frames::lemma_ack_len(t, ecn);
    let rest = frames::ack(t, ecn).unwrap();
    let fields = lemma_ack_inverse(t, ecn);
    assert(s =~= seq![s[0]] + t);
    lemma_join(seq![s[0]], varint_fields(fields), rest);
    (Frame::Ack { ecn, fields }, rest)
}

proof fn lemma_first_frame(s: Seq<u8>) -> (found: (Frame, Seq<u8>))
    requires
        frames::pieces(s) is Some,
        !ends_the_walk(s),
    ensures
        found.0.well_formed(),
        s == found.0.bytes() + found.1,
        found.1.len() < s.len(),
{
    if s[0] == 0x00 {
        assert(s =~= seq![0x00u8] + s.skip(1));
        (Frame::Padding, s.skip(1))
    } else if s[0] == 0x01 {
        assert(s =~= seq![0x01u8] + s.skip(1));
        (Frame::Ping, s.skip(1))
    } else if s[0] == 0x06 {
        lemma_crypto_inverse(s)
    } else {
        lemma_ack_frame_inverse(s)
    }
}

proof fn lemma_frames_inverse(s: Seq<u8>) -> (found: (Seq<Frame>, Seq<u8>))
    requires
        frames::pieces(s) is Some,
    ensures
        frames_well_formed(found.0),
        ends_the_walk(found.1),
        s == payload(found.0) + found.1,
        frames::pieces(s) == Some(payload_pieces(found.0)),
    decreases s.len(),
{
    if ends_the_walk(s) {
        let none = Seq::<Frame>::empty();
        assert(payload(none) + s =~= s);
        (none, s)
    } else {
        let (f, rest) = lemma_first_frame(s);
        lemma_frame(f, rest);
        let (others, tail) = lemma_frames_inverse(rest);
        let list = seq![f] + others;
        assert(list.skip(1) =~= others);
        lemma_join(f.bytes(), payload(others), tail);
        assert forall|i: int| 0 <= i < list.len() implies (#[trigger] list[i]).well_formed() by {
            if i > 0 {
                assert(list[i] == others[i - 1]);
            }
        }
        (list, tail)
    }
}

/// Law: a message that a client cuts into CRYPTO frames, in any order and with padding anywhere,
/// is read back whole.
pub proof fn law_a_payload_carries_its_message(list: Seq<Frame>, message: Seq<u8>)
    requires
        frames_well_formed(list),
        frames::cut_from(payload_pieces(list), message),
        message.len() > 0,
    ensures
        frames::crypto_stream(payload(list)) == Some(message),
{
    law_frames_are_read_back(list);
    frames::law_cut_message_reassembles(payload_pieces(list), message);
}

proof fn lemma_cid_extends(s: Seq<u8>, more: Seq<u8>)
    ensures
        reader::cid(s) matches Some((id, rest)) ==> reader::cid(s + more) == Some(
            (id, rest + more),
        ),
{
    if reader::cid(s) is Some {
        let n = s[0] as int;
        assert((s + more).skip(1) =~= s.skip(1) + more);
        assert((s.skip(1) + more).take(n) =~= s.skip(1).take(n));
        assert((s.skip(1) + more).skip(n) =~= s.skip(1).skip(n) + more);
    }
}

proof fn lemma_token_extends(s: Seq<u8>, more: Seq<u8>)
    ensures
        sni::token_and_length(s) matches Some((length, rest)) ==> sni::token_and_length(s + more)
            == Some((length, rest + more)),
{
    lemma_varint_extends(s, more);
    if let Some((token, t)) = reader::varint(s) {
        if token <= t.len() {
            assert((t + more).skip(token as int) =~= t.skip(token as int) + more);
            lemma_varint_extends(t.skip(token as int), more);
        }
    }
}

/// A header is read the same whatever follows its packet.
proof fn lemma_header_extends(d: Seq<u8>, more: Seq<u8>)
    requires
        sni::long_header(d) is Some,
    ensures
        sni::long_header(d + more) == sni::long_header(d),
{
    let all = d + more;
    assert(all.skip(1).take(4) =~= d.skip(1).take(4));
    assert(all.skip(5) =~= d.skip(5) + more);
    lemma_cid_extends(d.skip(5), more);
    let (dcid, s) = reader::cid(d.skip(5)).unwrap();
    lemma_cid_extends(s, more);
    let (_, t) = reader::cid(s).unwrap();
    lemma_token_extends(t, more);
}

/// A packet is opened the same whatever follows it.
proof fn lemma_opened_extends(
    key: Seq<u8>,
    iv: Seq<u8>,
    hp: Seq<u8>,
    d: Seq<u8>,
    pn_offset: int,
    length: int,
    more: Seq<u8>,
)
    requires
        0 <= pn_offset,
        sni::SAMPLE + crypto::TAG <= length,
        pn_offset + length <= d.len(),
    ensures
        sni::opened(key, iv, hp, d + more, pn_offset, length) == sni::opened(
            key,
            iv,
            hp,
            d,
            pn_offset,
            length,
        ),
{
    let end = pn_offset + length;
    sni::law_opening_ends_with_the_packet(key, iv, hp, d, pn_offset, length);
    sni::law_opening_ends_with_the_packet(key, iv, hp, d + more, pn_offset, length);
    assert((d + more).take(end) =~= d.take(end));
}

/// The packet number of a whole Initial stands after its fixed fields, and its packet is whole.
proof fn lemma_header_bounds(d: Seq<u8>)
    ensures
        sni::long_header(d) matches Some(h) ==> {
            &&& 0 < h.pn_offset
            &&& h.pn_offset + h.length <= d.len()
            &&& sni::SAMPLE + crypto::TAG <= h.length
        },
{
    if let Some(h) = sni::long_header(d) {
        let (_, s) = reader::cid(d.skip(5)).unwrap();
        let (_, t) = reader::cid(s).unwrap();
        let (token, u) = reader::varint(t).unwrap();
        let (_, v) = reader::varint(u.skip(token as int)).unwrap();
        assert(sni::token_and_length(t) == Some((h.length, v)));
    }
}

/// Law: only the first packet of a datagram is examined. What is coalesced behind it neither
/// hides nor changes the name.
pub proof fn law_what_follows_is_ignored(d: Seq<u8>, more: Seq<u8>)
    requires
        sni::long_header(d) is Some,
    ensures
        sni::server_name(d + more) == sni::server_name(d),
{
    lemma_header_extends(d, more);
    lemma_header_bounds(d);
    let h = sni::long_header(d).unwrap();
    lemma_opened_extends(
        sni::packet_key(h.version, h.dcid),
        sni::packet_iv(h.version, h.dcid),
        sni::header_key(h.version, h.dcid),
        d,
        h.pn_offset as int,
        h.length as int,
        more,
    );
}

/// Law: a datagram that is cut short anywhere in its first packet has no name.
pub proof fn law_a_truncated_packet_has_no_name(d: Seq<u8>, kept: int)
    requires
        sni::long_header(d) matches Some(h) && 0 <= kept < h.pn_offset + h.length,
    ensures
        sni::server_name(d.take(kept)) is None,
{
    lemma_header_bounds(d);
    if sni::long_header(d.take(kept)) is Some {
        assert(d.take(kept) + d.skip(kept) =~= d);
        lemma_header_extends(d.take(kept), d.skip(kept));
        lemma_header_bounds(d.take(kept));
    }
}

/// Law: a name comes only out of a packet that is authentic under its own connection's keys. A
/// packet that does not open has none.
pub proof fn law_a_name_is_authentic(d: Seq<u8>)
    requires
        sni::server_name(d) is Some,
    ensures
        sni::long_header(d) matches Some(h) && sni::opened(
            sni::packet_key(h.version, h.dcid),
            sni::packet_iv(h.version, h.dcid),
            sni::header_key(h.version, h.dcid),
            d,
            h.pn_offset as int,
            h.length as int,
        ) is Some,
{
}

/// How a client expands a secret under a label, with an empty context: the length of the output,
/// then the label and the context, each with its length before it.
pub open spec fn expand_label(secret: Seq<u8>, label: Seq<u8>, len: nat) -> Seq<u8> {
    crypto::hkdf_expand(
        secret,
        be_bytes(len, 2) + (prefixed(sni::TLS13@ + label, 1) + prefixed(Seq::empty(), 1)),
        len,
    )
}

/// The secret a client starts from: all of the connection ID it chose, under its version's salt.
pub open spec fn client_secret(version: u32, dcid: Seq<u8>) -> Seq<u8> {
    let salt = if version == 0x0000_0001 {
        sni::V1_SALT@
    } else {
        sni::V2_SALT@
    };
    expand_label(crypto::hkdf_extract(salt, dcid), sni::CLIENT_IN@, 32)
}

/// The key a client seals its payload with.
pub open spec fn client_key(version: u32, dcid: Seq<u8>) -> Seq<u8> {
    let label = if version == 0x0000_0001 {
        sni::V1_KEY@
    } else {
        sni::V2_KEY@
    };
    expand_label(client_secret(version, dcid), label, 16)
}

/// What a client folds its packet number into.
pub open spec fn client_iv(version: u32, dcid: Seq<u8>) -> Seq<u8> {
    let label = if version == 0x0000_0001 {
        sni::V1_IV@
    } else {
        sni::V2_IV@
    };
    expand_label(client_secret(version, dcid), label, 12)
}

/// The key a client hides its header with.
pub open spec fn client_hp(version: u32, dcid: Seq<u8>) -> Seq<u8> {
    let label = if version == 0x0000_0001 {
        sni::V1_HP@
    } else {
        sni::V2_HP@
    };
    expand_label(client_secret(version, dcid), label, 16)
}

proof fn lemma_label(label: Seq<u8>, len: nat)
    requires
        label.len() <= 249,
        len < 65536,
    ensures
        be_bytes(len, 2) + (prefixed(sni::TLS13@ + label, 1) + prefixed(Seq::empty(), 1))
            == sni::label_info(label, len),
{
    reveal_with_fuel(be_bytes, 3);
    let none = Seq::<u8>::empty();
    assert(be_bytes(len, 2) =~= seq![(len / 256) as u8, (len % 256) as u8]);
    assert(be_bytes((6 + label.len()) as nat, 1) =~= seq![(6 + label.len()) as u8]);
    assert(prefixed(none, 1) =~= seq![0u8]);
    assert(be_bytes(len, 2) + (prefixed(sni::TLS13@ + label, 1) + prefixed(none, 1))
        =~= sni::label_info(label, len));
}

/// Law: the keys an Initial is read with are the keys its client derived, from every byte of the
/// connection ID and the version's own salt and labels.
pub proof fn law_both_ends_derive_the_same_keys(version: u32, dcid: Seq<u8>)
    requires
        version == 0x0000_0001 || version == 0x6b33_43cf,
    ensures
        sni::packet_key(version, dcid) == client_key(version, dcid),
        sni::packet_iv(version, dcid) == client_iv(version, dcid),
        sni::header_key(version, dcid) == client_hp(version, dcid),
{
    lemma_label(sni::CLIENT_IN@, 32);
    lemma_label(sni::V1_KEY@, 16);
    lemma_label(sni::V1_IV@, 12);
    lemma_label(sni::V1_HP@, 16);
    lemma_label(sni::V2_KEY@, 16);
    lemma_label(sni::V2_IV@, 12);
    lemma_label(sni::V2_HP@, 16);
}

/// What a client puts in an Initial packet, before its header is protected.
pub struct Initial {
    pub first: u8,
    pub version: u32,
    pub dcid: Seq<u8>,
    pub scid: Seq<u8>,
    /// The token's length, as a varint.
    pub token_length: Seq<u8>,
    pub token: Seq<u8>,
    /// The length of the packet number and the payload, as a varint.
    pub length: Seq<u8>,
    /// The packet number.
    pub pn: Seq<u8>,
    /// The payload, sealed.
    pub sealed: Seq<u8>,
}

impl Initial {
    /// What stands before the packet number.
    pub open spec fn fields(self) -> Seq<u8> {
        seq![self.first] + (be_bytes(self.version as nat, 4) + (seq![self.dcid.len() as u8] + (
        self.dcid + (seq![self.scid.len() as u8] + (self.scid + (self.token_length + (self.token
            + self.length)))))))
    }

    /// The header: the associated data the payload was sealed with.
    pub open spec fn header(self) -> Seq<u8> {
        self.fields() + self.pn
    }

    /// The bytes the header's mask is computed from.
    pub open spec fn sample(self) -> Seq<u8> {
        self.sealed.subrange(4 - self.pn.len(), 20 - self.pn.len())
    }

    /// The header's mask.
    pub open spec fn mask(self) -> Seq<u8> {
        crypto::aes128_block(client_hp(self.version, self.dcid), self.sample())
    }

    /// The header with the low bits of its first byte and its packet number hidden.
    pub open spec fn masked(self) -> Seq<u8> {
        let mask = self.mask();
        Seq::new(
            self.header().len(),
            |k: int|
                if k == 0 {
                    self.first ^ (mask[0] & 0x0f)
                } else if k < self.fields().len() {
                    self.header()[k]
                } else {
                    self.header()[k] ^ mask[1 + k - self.fields().len()]
                },
        )
    }

    /// The packet on the wire.
    pub open spec fn packet(self) -> Seq<u8> {
        self.masked() + self.sealed
    }

    /// The header is an Initial's, and every length says what it should.
    pub open spec fn well_formed(self) -> bool {
        &&& (self.version == 0x0000_0001 && self.first & 0xf0 == 0xc0) || (self.version
            == 0x6b33_43cf && self.first & 0xf0 == 0xd0)
        &&& self.pn.len() == (self.first & 0x03) + 1
        &&& self.dcid.len() <= 20
        &&& self.scid.len() <= 20
        &&& spells(self.token_length, self.token.len())
        &&& spells(self.length, self.pn.len() + self.sealed.len())
        &&& 32 <= self.pn.len() + self.sealed.len()
    }

    /// The nonce: the packet number folded into the end of the client's IV.
    pub open spec fn nonce(self) -> Seq<u8> {
        let iv = client_iv(self.version, self.dcid);
        let start = iv.len() - self.pn.len();
        Seq::new(
            iv.len(),
            |k: int|
                if k >= start {
                    iv[k] ^ self.pn[k - start]
                } else {
                    iv[k]
                },
        )
    }

    /// What the payload opens to under the keys the client derived.
    pub open spec fn plain(self) -> Option<Seq<u8>> {
        crypto::aes128_gcm_open(
            client_key(self.version, self.dcid),
            self.nonce(),
            self.header(),
            self.sealed,
        )
    }
}

proof fn lemma_cid_read(id: Seq<u8>, rest: Seq<u8>)
    requires
        id.len() <= reader::MAX_CID,
    ensures
        reader::cid(seq![id.len() as u8] + (id + rest)) == Some((id, rest)),
{
    let all = seq![id.len() as u8] + (id + rest);
    assert(all.skip(1) =~= id + rest);
    assert((id + rest).take(id.len() as int) =~= id);
    assert((id + rest).skip(id.len() as int) =~= rest);
}

proof fn lemma_token_read(i: Initial, rest: Seq<u8>)
    requires
        i.well_formed(),
    ensures
        sni::token_and_length(i.token_length + (i.token + (i.length + rest))) == Some(
            (i.pn.len() + i.sealed.len(), rest),
        ),
{
    let tail = i.token + (i.length + rest);
    lemma_spelled(i.token_length, i.token.len(), tail);
    assert(tail.skip(i.token.len() as int) =~= i.length + rest);
    lemma_spelled(i.length, i.pn.len() + i.sealed.len(), rest);
}

/// Hiding the low bits of the first byte does not change what kind of packet it announces.
proof fn lemma_masked_first(first: u8, mask: u8, version: u32)
    ensures
        (first ^ (mask & 0x0f)) & 0xf0 == first & 0xf0,
        (first ^ (mask & 0x0f)) ^ (mask & 0x0f) == first,
        first & 0x03 <= 3,
        sni::is_initial(first, version) <==> (version == 0x0000_0001 && first & 0xf0 == 0xc0) || (
        version == 0x6b33_43cf && first & 0xf0 == 0xd0),
{
    assert((first ^ (mask & 0x0f)) & 0xf0 == first & 0xf0) by (bit_vector);
    assert((first ^ (mask & 0x0f)) ^ (mask & 0x0f) == first) by (bit_vector);
    assert(first & 0x03 <= 3) by (bit_vector);
    assert(first & 0xf0 == 0xc0 <==> first & 0xc0 == 0xc0 && (first & 0x30) >> 4 == 0)
        by (bit_vector);
    assert(first & 0xf0 == 0xd0 <==> first & 0xc0 == 0xc0 && (first & 0x30) >> 4 == 1)
        by (bit_vector);
}

proof fn lemma_join(a: Seq<u8>, b: Seq<u8>, c: Seq<u8>)
    ensures
        (a + b) + c == a + (b + c),
{
    assert((a + b) + c =~= a + (b + c));
}

/// The fields after the first byte, and what follows them.
proof fn lemma_fields(i: Initial, tail: Seq<u8>)
    ensures
        i.fields().skip(1) + tail == be_bytes(i.version as nat, 4) + (seq![i.dcid.len() as u8] + (
        i.dcid + (seq![i.scid.len() as u8] + (i.scid + (i.token_length + (i.token + (i.length
            + tail))))))),
{
    let f7 = i.token + i.length;
    let f6 = i.token_length + f7;
    let f5 = i.scid + f6;
    let f4 = seq![i.scid.len() as u8] + f5;
    let f3 = i.dcid + f4;
    let f2 = seq![i.dcid.len() as u8] + f3;
    let f1 = be_bytes(i.version as nat, 4) + f2;
    assert(i.fields().skip(1) =~= f1);
    lemma_join(be_bytes(i.version as nat, 4), f2, tail);
    lemma_join(seq![i.dcid.len() as u8], f3, tail);
    lemma_join(i.dcid, f4, tail);
    lemma_join(seq![i.scid.len() as u8], f5, tail);
    lemma_join(i.scid, f6, tail);
    lemma_join(i.token_length, f7, tail);
    lemma_join(i.token, i.length, tail);
}

proof fn lemma_front(a: Seq<u8>, b: Seq<u8>)
    ensures
        (a + b).skip(a.len() as int) == b,
        (a + b).take(a.len() as int) == a,
{
    assert((a + b).skip(a.len() as int) =~= b);
    assert((a + b).take(a.len() as int) =~= a);
}

/// A header is read from the fields that its parts are read from.
proof fn lemma_header_read(
    first: u8,
    version: u32,
    dcid: Seq<u8>,
    scid: Seq<u8>,
    length: nat,
    s2: Seq<u8>,
    s3: Seq<u8>,
    s4: Seq<u8>,
    tail: Seq<u8>,
)
    requires
        sni::is_initial(first, version),
        reader::cid(s2) == Some((dcid, s3)),
        reader::cid(s3) == Some((scid, s4)),
        sni::token_and_length(s4) == Some((length, tail)),
        32 <= length <= tail.len(),
    ensures
        ({
            let d = seq![first] + (be_bytes(version as nat, 4) + s2);
            sni::long_header(d) == Some(
                LongHeader { version, dcid, pn_offset: (d.len() - tail.len()) as nat, length },
            )
        }),
{
    let field = be_bytes(version as nat, 4);
    lemma_varint_rooms(1);
    lemma_be_bytes(version as nat, 4);
    let d = seq![first] + (field + s2);
    lemma_front(seq![first], field + s2);
    lemma_front(field, s2);
    lemma_join(seq![first], field, s2);
    lemma_front(seq![first] + field, s2);
    assert(d.skip(1).take(4) == field);
    assert(d.skip(5) == s2);
}

/// A datagram that is laid out as an Initial is read as one.
proof fn lemma_layout(first: u8, i: Initial, tail: Seq<u8>)
    requires
        i.well_formed(),
        first & 0xf0 == i.first & 0xf0,
        tail.len() >= i.pn.len() + i.sealed.len(),
    ensures
        sni::long_header(seq![first] + (i.fields().skip(1) + tail)) == Some(
            LongHeader {
                version: i.version,
                dcid: i.dcid,
                pn_offset: i.fields().len(),
                length: i.pn.len() + i.sealed.len(),
            },
        ),
{
    let s4 = i.token_length + (i.token + (i.length + tail));
    let s3 = seq![i.scid.len() as u8] + (i.scid + s4);
    let s2 = seq![i.dcid.len() as u8] + (i.dcid + s3);
    lemma_fields(i, tail);
    lemma_masked_first(first, 0, i.version);
    lemma_cid_read(i.dcid, s3);
    lemma_cid_read(i.scid, s4);
    lemma_token_read(i, tail);
    lemma_header_read(
        first,
        i.version,
        i.dcid,
        i.scid,
        i.pn.len() + i.sealed.len(),
        s2,
        s3,
        s4,
        tail,
    );
}

/// The header of a packet on the wire is read as it was written.
proof fn lemma_packet_header(i: Initial, rest: Seq<u8>)
    requires
        i.well_formed(),
    ensures
        sni::long_header(i.packet() + rest) == Some(
            LongHeader {
                version: i.version,
                dcid: i.dcid,
                pn_offset: i.fields().len(),
                length: i.pn.len() + i.sealed.len(),
            },
        ),
{
    let d = i.packet() + rest;
    let first = i.first ^ (i.mask()[0] & 0x0f);
    let tail = d.skip(i.fields().len() as int);
    assert(d =~= seq![first] + (i.fields().skip(1) + tail));
    lemma_masked_first(i.first, i.mask()[0], i.version);
    lemma_layout(first, i, tail);
}

/// Law: what a client seals into an Initial is what the proxy opens, whatever is coalesced
/// behind it.
pub proof fn law_an_initial_is_opened(i: Initial, rest: Seq<u8>)
    requires
        i.well_formed(),
    ensures
        sni::opened(
            sni::packet_key(i.version, i.dcid),
            sni::packet_iv(i.version, i.dcid),
            sni::header_key(i.version, i.dcid),
            i.packet() + rest,
            i.fields().len() as int,
            (i.pn.len() + i.sealed.len()) as int,
        ) == i.plain(),
{
    let d = i.packet() + rest;
    let at = i.fields().len() as int;
    let mask = i.mask();
    law_both_ends_derive_the_same_keys(i.version, i.dcid);
    lemma_masked_first(i.first, mask[0], i.version);
    assert(sni::sample(d, at) =~= i.sample());
    assert(sni::clear_first(d, mask) == i.first);
    let header = sni::clear_header(d, at, mask);
    assert forall|k: int| 0 <= k < i.header().len() implies header[k] == i.header()[k] by {
        if k >= at {
            let plain = i.header()[k];
            let m = mask[1 + k - at];
            assert((plain ^ m) ^ m == plain) by (bit_vector);
        }
    }
    assert(header =~= i.header());
    assert(header.skip(at) =~= i.pn);
    assert(sni::packet_nonce(client_iv(i.version, i.dcid), i.pn) =~= i.nonce());
    let end = at + i.pn.len() + i.sealed.len();
    assert(d.subrange(at + i.pn.len(), end) =~= i.sealed);
}

/// Law: the proxy reads the name a client asked for. A ClientHello cut into CRYPTO frames, sealed
/// under keys that the client derived from its connection ID, and sent as an Initial of either
/// version, offers the name that was written into it.
///
/// That the payload is sealed is said by what it opens to under the client's keys.
pub proof fn law_the_name_is_read_back(i: Initial, list: Seq<Frame>, h: Hello, rest: Seq<u8>)
    requires
        i.well_formed(),
        i.plain() == Some(payload(list)),
        frames_well_formed(list),
        frames::cut_from(payload_pieces(list), h.message()),
        h.well_formed(),
        utf8::valid_utf8(h.name),
    ensures
        sni::server_name(i.packet() + rest) == Some(utf8::decode_utf8(h.name)),
{
    lemma_packet_header(i, rest);
    law_an_initial_is_opened(i, rest);
    law_a_payload_carries_its_message(list, h.message());
    law_a_hello_offers_its_name(h);
}

/// The connection ID and what follows it, as they were written.
proof fn lemma_cid_inverse(s: Seq<u8>)
    ensures
        reader::cid(s) matches Some((id, rest)) ==> id.len() <= 20 && s == seq![id.len() as u8] + (id
            + rest),
{
    if let Some((id, rest)) = reader::cid(s) {
        assert(s =~= seq![id.len() as u8] + (id + rest));
    }
}

/// The fields of a header that was read, as they were written.
#[verifier::spinoff_prover]
#[verifier::rlimit(80)]
proof fn lemma_fields_inverse(d: Seq<u8>) -> (i: Initial)
    requires
        sni::long_header(d) is Some,
    ensures
        ({
            let h = sni::long_header(d).unwrap();
            &&& i.version == h.version
            &&& i.dcid == h.dcid
            &&& i.dcid.len() <= 20
            &&& i.scid.len() <= 20
            &&& spells(i.token_length, i.token.len())
            &&& spells(i.length, h.length)
            &&& 32 <= h.length <= d.len() - h.pn_offset
            &&& i.fields().len() == h.pn_offset
            &&& d == seq![d[0]] + (i.fields().skip(1) + d.skip(h.pn_offset as int))
            &&& (h.version == 0x0000_0001 && d[0] & 0xf0 == 0xc0) || (h.version == 0x6b33_43cf
                && d[0] & 0xf0 == 0xd0)
        }),
{
    let h = sni::long_header(d).unwrap();
    let version = d.skip(1).take(4);
    lemma_varint_rooms(1);
    lemma_be_inverse(version);
    let s0 = d.skip(5);
    let (dcid, s1) = reader::cid(s0).unwrap();
    let (scid, s2) = reader::cid(s1).unwrap();
    lemma_cid_inverse(s0);
    lemma_cid_inverse(s1);
    let (token_len, s3) = reader::varint(s2).unwrap();
    let w1 = law_a_varint_was_written(s2);
    law_varints_are_read_back(token_len, w1, s3);
    let token = s3.take(token_len as int);
    let s4 = s3.skip(token_len as int);
    assert(s3 =~= token + s4);
    let (len, s5) = reader::varint(s4).unwrap();
    let w2 = law_a_varint_was_written(s4);
    law_varints_are_read_back(len, w2, s5);
    assert(sni::token_and_length(s2) == Some((len, s5)));
    lemma_masked_first(d[0], 0, h.version);
    let i = Initial {
        first: d[0],
        version: h.version,
        dcid,
        scid,
        token_length: varint_bytes(token_len, w1),
        token,
        length: varint_bytes(len, w2),
        pn: Seq::empty(),
        sealed: Seq::empty(),
    };
    lemma_fields(i, s5);
    assert(d.skip(1) =~= version + s0);
    assert(d.skip(1) == i.fields().skip(1) + s5);
    assert(d =~= seq![d[0]] + d.skip(1));
    assert(i.fields().len() > 0);
    assert(d.len() == i.fields().len() + s5.len());
    assert(d.skip(h.pn_offset as int) =~= s5);
    i
}

/// Law: whatever is read as an Initial was laid out as one by a client, with the header hidden
/// under the client's own key; and a datagram that is not read as one starts with no such packet.
pub proof fn law_an_initial_was_written(d: Seq<u8>) -> (found: (Initial, Seq<u8>))
    ensures
        match sni::long_header(d) {
            Some(h) => {
                &&& found.0.well_formed()
                &&& d == found.0.packet() + found.1
                &&& found.0.version == h.version
                &&& found.0.dcid == h.dcid
                &&& found.0.fields().len() == h.pn_offset
                &&& found.0.pn.len() + found.0.sealed.len() == h.length
            },
            None => forall|i: Initial, rest: Seq<u8>|
                i.well_formed() ==> d != #[trigger] (i.packet() + rest),
        },
{
    if let Some(h) = sni::long_header(d) {
        let fields = lemma_fields_inverse(d);
        let at = h.pn_offset as int;
        let end = at + h.length;
        let mask = crypto::aes128_block(
            client_hp(h.version, h.dcid),
            d.subrange(at + 4, at + 20),
        );
        let first = d[0] ^ (mask[0] & 0x0f);
        lemma_masked_first(d[0], mask[0], h.version);
        lemma_masked_first(first, mask[0], h.version);
        let n: nat = ((first & 0x03) + 1) as nat;
        let i = Initial {
            first,
            pn: Seq::new(n, |k: int| d[at + k] ^ mask[1 + k]),
            sealed: d.subrange(at + n, end),
            ..fields
        };
        let rest = d.skip(end);
        lemma_first_only(fields, i);
        assert(i.sample() =~= d.subrange(at + 4, at + 20));
        assert(i.mask() == mask);
        let whole = i.packet() + rest;
        assert(whole.len() == d.len());
        assert forall|k: int| 0 <= k < d.len() implies whole[k] == d[k] by {
            if 0 < k < at {
                assert(i.fields()[k] == i.fields().skip(1)[k - 1]);
            } else if at <= k < at + n {
                let wire = d[k];
                let m = mask[1 + k - at];
                assert((wire ^ m) ^ m == wire) by (bit_vector);
                assert(i.header()[k] == i.pn[k - at]);
            }
        }
        assert(d =~= whole);
        (i, rest)
    } else {
        assert forall|i: Initial, rest: Seq<u8>| i.well_formed() implies d != #[trigger] (i.packet()
            + rest) by {
            lemma_packet_header(i, rest);
        }
        let none = Seq::<u8>::empty();
        (
            Initial {
                first: 0,
                version: 0,
                dcid: none,
                scid: none,
                token_length: none,
                token: none,
                length: none,
                pn: none,
                sealed: none,
            },
            none,
        )
    }
}

/// Headers that differ in their first byte only, or in what stands behind their fields.
proof fn lemma_first_only(a: Initial, b: Initial)
    requires
        a.version == b.version,
        a.dcid == b.dcid,
        a.scid == b.scid,
        a.token_length == b.token_length,
        a.token == b.token,
        a.length == b.length,
    ensures
        a.fields().skip(1) == b.fields().skip(1),
        a.fields().len() == b.fields().len(),
        b.fields()[0] == b.first,
{
    assert(a.fields().skip(1) =~= b.fields().skip(1));
}

/// Law: a name that the proxy reads was asked for. The datagram starts with an Initial that opens,
/// under the keys its client derived, to frames whose handshake stream starts with a ClientHello
/// that offers this name.
pub proof fn law_a_name_was_asked_for(d: Seq<u8>) -> (found: (Initial, Seq<Frame>, Hello))
    ensures
        sni::server_name(d) matches Some(name) ==> {
            let (i, list, h) = found;
            &&& i.well_formed()
            &&& i.packet().is_prefix_of(d)
            &&& frames_well_formed(list)
            &&& i.plain() matches Some(plain) && payload(list).is_prefix_of(plain)
            &&& h.well_formed()
            &&& h.message().is_prefix_of(frames::stream(payload_pieces(list)))
            &&& utf8::valid_utf8(h.name)
            &&& name == utf8::decode_utf8(h.name)
        },
{
    let (i, rest) = law_an_initial_was_written(d);
    if sni::server_name(d) is Some {
        law_an_initial_is_opened(i, rest);
        let plain = i.plain().unwrap();
        let (list, tail) = law_frames_were_written(plain);
        let handshake = frames::crypto_stream(plain).unwrap();
        let (h, more) = law_an_offered_name_was_written(handshake);
        assert(i.packet() =~= d.subrange(0, i.packet().len() as int));
        assert(payload(list) =~= plain.subrange(0, payload(list).len() as int));
        assert(h.message() =~= handshake.subrange(0, h.message().len() as int));
        (i, list, h)
    } else {
        let (h, _) = law_an_offered_name_was_written(Seq::empty());
        (i, Seq::empty(), h)
    }
}

} // verus!
