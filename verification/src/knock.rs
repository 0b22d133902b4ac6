//! Recognising a player's arrival without answering it.
//!
//! The proxy deliberately never completes a QUIC handshake of its own. A client whose
//! handshake succeeds waits indefinitely for the login flow to continue, and a client that
//! is told `ServerDisconnect` before authentication closes the connection and reports it
//! as a network error rather than showing the reason. Silence is the one response the client
//! handles well.
//!
//! So the proxy answers nothing, and instead makes the client's own Initial count: it is
//! held while the backend boots and delivered the moment it is ready, which needs no forged
//! packets and no reply the proxy has no standing to send.
//!
//! The only thing the proxy needs from a sleeping port is therefore "someone is trying to
//! connect", which the shape of a QUIC Initial packet answers.

use crate::reader;
use crate::sni;
use vstd::prelude::*;

verus! {

/// The bytes a client Initial must be padded to (RFC 9000, Section 14.1).
pub const MIN_INITIAL: usize = 1200;

/// The version field of a long header.
pub open spec fn version_bytes(d: Seq<u8>) -> Seq<u8> {
    d.subrange(1, 5)
}

/// The shape of a client's first packet: padded to 1200 bytes, a long header with the fixed
/// bit set, and packet type 0 in QUIC v1 or packet type 1 in QUIC v2.
pub open spec fn is_knock(d: Seq<u8>) -> bool {
    &&& d.len() >= MIN_INITIAL
    &&& (version_bytes(d) == seq![0x00u8, 0x00, 0x00, 0x01] && d[0] & 0xf0 == 0xc0) || (
    version_bytes(d) == seq![0x6bu8, 0x33, 0x43, 0xcf] && d[0] & 0xf0 == 0xd0)
}

/// Does this datagram look like a client opening a QUIC v1 or v2 connection?
///
/// Stray datagrams and short-header packets from a connection that has already gone away are
/// rejected, so a departing player cannot wake the backend on the way out.
pub fn is_quic_initial(datagram: &[u8]) -> (yes: bool)
    ensures
        yes == is_knock(datagram@),
{
    if datagram.len() < MIN_INITIAL {
        return false;
    }
    let kind = datagram[0] & 0xf0;
    let v1 = datagram[1] == 0x00 && datagram[2] == 0x00 && datagram[3] == 0x00 && datagram[4]
        == 0x01;
    let v2 = datagram[1] == 0x6b && datagram[2] == 0x33 && datagram[3] == 0x43 && datagram[4]
        == 0xcf;
    proof {
        let v = version_bytes(datagram@);
        assert(v1 ==> v =~= seq![0x00u8, 0x00, 0x00, 0x01]);
        assert(v2 ==> v =~= seq![0x6bu8, 0x33, 0x43, 0xcf]);
        assert(v[0] == datagram@[1] && v[1] == datagram@[2] && v[2] == datagram@[3] && v[3]
            == datagram@[4]);
    }
    (v1 && kind == 0xc0) || (v2 && kind == 0xd0)
}

proof fn lemma_be4(s: Seq<u8>)
    requires
        s.len() == 4,
    ensures
        reader::be(s) == ((s[0] * 256 + s[1]) * 256 + s[2]) * 256 + s[3],
{
    reveal_with_fuel(reader::be, 5);
}

/// Law: the wake test and the header parser agree on what an Initial is. A datagram of the minimum
/// size wakes a backend exactly when its first byte and its version are an Initial's.
pub proof fn law_knock_is_an_initial(d: Seq<u8>)
    requires
        d.len() >= MIN_INITIAL,
    ensures
        is_knock(d) <==> sni::is_initial(d[0], reader::be(d.skip(1).take(4)) as u32),
{
    let v = version_bytes(d);
    assert(d.skip(1).take(4) =~= v);
    lemma_be4(v);
    let first = d[0];
    assert(first & 0xf0 == 0xc0 <==> first & 0xc0 == 0xc0 && (first & 0x30) >> 4 == 0)
        by (bit_vector);
    assert(first & 0xf0 == 0xd0 <==> first & 0xc0 == 0xc0 && (first & 0x30) >> 4 == 1)
        by (bit_vector);
    assert(v == seq![0x00u8, 0x00, 0x00, 0x01] <==> reader::be(v) == sni::V1) by {
        if reader::be(v) == sni::V1 {
            assert(v =~= seq![0x00u8, 0x00, 0x00, 0x01]);
        }
    }
    assert(v == seq![0x6bu8, 0x33, 0x43, 0xcf] <==> reader::be(v) == sni::V2) by {
        if reader::be(v) == sni::V2 {
            assert(v =~= seq![0x6bu8, 0x33, 0x43, 0xcf]);
        }
    }
}

/// Law: a padded datagram that a server name can be read from also wakes a backend.
pub proof fn law_a_named_initial_knocks(d: Seq<u8>)
    requires
        d.len() >= MIN_INITIAL,
        sni::server_name(d) is Some,
    ensures
        is_knock(d),
{
    law_knock_is_an_initial(d);
}

/// Law: whether a datagram wakes a backend rests on its length and its first five bytes alone. From
/// 1200 bytes on, it does exactly when these are an Initial's of QUIC v1 or v2, the low four bits
/// of the first byte counting for nothing; below that it never does.
pub proof fn law_five_bytes_and_a_length_make_a_knock(d: Seq<u8>)
    ensures
        d.len() < 1200 ==> !is_knock(d),
        d.len() >= 1200 ==> (is_knock(d) <==> {
            ||| (0xc0 <= d[0] <= 0xcf && d[1] == 0x00 && d[2] == 0x00 && d[3] == 0x00 && d[4]
                == 0x01)
            ||| (0xd0 <= d[0] <= 0xdf && d[1] == 0x6b && d[2] == 0x33 && d[3] == 0x43 && d[4]
                == 0xcf)
        }),
{
    if d.len() >= 1200 {
        let first = d[0];
        assert(first & 0xf0 == 0xc0 <==> 0xc0 <= first <= 0xcf) by (bit_vector);
        assert(first & 0xf0 == 0xd0 <==> 0xd0 <= first <= 0xdf) by (bit_vector);
        let v = version_bytes(d);
        assert(v[0] == d[1] && v[1] == d[2] && v[2] == d[3] && v[3] == d[4]);
        if d[1] == 0x00 && d[2] == 0x00 && d[3] == 0x00 && d[4] == 0x01 {
            assert(v =~= seq![0x00u8, 0x00, 0x00, 0x01]);
        }
        if d[1] == 0x6b && d[2] == 0x33 && d[3] == 0x43 && d[4] == 0xcf {
            assert(v =~= seq![0x6bu8, 0x33, 0x43, 0xcf]);
        }
    }
}

} // verus!
