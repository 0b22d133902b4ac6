//! The CRYPTO frames of an Initial packet and the stream they carry.
//!
//! Frames may come in any order and may overlap. The stream is stated byte by byte: each one
//! is taken from the frame that covers it and starts first, and the stream ends at the first
//! byte no frame covers.

use crate::reader::{self, Reader};
use vstd::prelude::*;
use vstd::slice::slice_subrange;

verus! {

/// The data of one CRYPTO frame and where it belongs in the stream.
pub struct Piece {
    pub offset: nat,
    pub data: Seq<u8>,
}

/// What follows `n` varints at the front of `s`.
pub open spec fn varints(s: Seq<u8>, n: nat) -> Option<Seq<u8>>
    decreases n,
{
    if n == 0 {
        Some(s)
    } else {
        match reader::varint(s) {
            None => None,
            Some((_, rest)) => varints(rest, (n - 1) as nat),
        }
    }
}

/// What follows the body of an ACK frame: the largest acknowledged number and the delay, a
/// count, the first range, two varints per counted range, and three ECN counts if it has any.
pub open spec fn ack(s: Seq<u8>, ecn: bool) -> Option<Seq<u8>> {
    match varints(s, 2) {
        None => None,
        Some(s) => match reader::varint(s) {
            None => None,
            Some((ranges, s)) => varints(
                s,
                1 + 2 * ranges + if ecn {
                    3
                } else {
                    0nat
                },
            ),
        },
    }
}

/// The body of a CRYPTO frame, and what follows it.
pub open spec fn crypto_frame(s: Seq<u8>) -> Option<(Piece, Seq<u8>)> {
    match reader::varint(s) {
        None => None,
        Some((offset, s)) => match reader::varint(s) {
            None => None,
            Some((len, s)) => match reader::split(s, len as int) {
                None => None,
                Some((data, s)) => Some((Piece { offset, data }, s)),
            },
        },
    }
}

proof fn lemma_varints_len(s: Seq<u8>, n: nat)
    ensures
        varints(s, n) matches Some(rest) ==> rest.len() + n <= s.len(),
    decreases n,
{
    if n > 0 {
        if let Some((_, rest)) = reader::varint(s) {
            lemma_varints_len(rest, (n - 1) as nat);
        }
    }
}

/// An ACK frame takes at least a byte.
pub proof fn lemma_ack_len(s: Seq<u8>, ecn: bool)
    ensures
        ack(s, ecn) matches Some(rest) ==> rest.len() < s.len(),
{
    lemma_varints_len(s, 2);
    if let Some(t) = varints(s, 2) {
        if let Some((ranges, t)) = reader::varint(t) {
            lemma_varints_len(
                t,
                1 + 2 * ranges + if ecn {
                    3
                } else {
                    0nat
                },
            );
        }
    }
}

/// Put `front` before the pieces of `back`.
pub open spec fn prepend(front: Seq<Piece>, back: Option<Seq<Piece>>) -> Option<Seq<Piece>> {
    match back {
        None => None,
        Some(back) => Some(front + back),
    }
}

/// The CRYPTO frames of a payload, in the order they come.
///
/// PADDING, PING and ACK are stepped over. Any other frame ends the walk: it is one a client
/// has no business sending in an Initial. A frame that is cut short spoils the payload.
pub open spec fn pieces(s: Seq<u8>) -> Option<Seq<Piece>>
    decreases s.len(),
{
    if s.len() == 0 {
        Some(Seq::empty())
    } else if s[0] == 0x00 || s[0] == 0x01 {
        pieces(s.skip(1))
    } else if s[0] == 0x02 || s[0] == 0x03 {
        proof {
            lemma_ack_len(s.skip(1), s[0] == 0x03);
        }
        match ack(s.skip(1), s[0] == 0x03) {
            None => None,
            Some(rest) => pieces(rest),
        }
    } else if s[0] == 0x06 {
        match crypto_frame(s.skip(1)) {
            None => None,
            Some((piece, rest)) => prepend(seq![piece], pieces(rest)),
        }
    } else {
        Some(Seq::empty())
    }
}

/// Does this piece hold byte `i` of the stream?
pub open spec fn covers(p: Piece, i: int) -> bool {
    p.offset <= i < p.offset + p.data.len()
}

/// Does any piece hold byte `i` of the stream?
pub open spec fn covered(ps: Seq<Piece>, i: int) -> bool {
    exists|j: int| 0 <= j < ps.len() && covers(#[trigger] ps[j], i)
}

/// Piece `j` holds byte `i`, and no piece that also does starts before it, or starts with it
/// and came before it.
pub open spec fn provides(ps: Seq<Piece>, i: int, j: int) -> bool {
    &&& 0 <= j < ps.len()
    &&& covers(ps[j], i)
    &&& forall|k: int|
        0 <= k < ps.len() && covers(#[trigger] ps[k], i) ==> ps[j].offset < ps[k].offset || (
        ps[j].offset == ps[k].offset && j <= k)
}

/// Byte `i` of the stream.
pub open spec fn stream_byte(ps: Seq<Piece>, i: int) -> u8 {
    let p = ps[choose|j: int| provides(ps, i, j)];
    p.data[i - p.offset]
}

/// Every byte before `n` is held by some piece, and byte `n` is not.
pub open spec fn ends_at(ps: Seq<Piece>, n: nat) -> bool {
    (forall|i: int| 0 <= i < n ==> covered(ps, i)) && !covered(ps, n as int)
}

/// The stream up to its first hole.
pub open spec fn stream(ps: Seq<Piece>) -> Seq<u8> {
    Seq::new(choose|n: nat| ends_at(ps, n), |i: int| stream_byte(ps, i))
}

/// The stream a payload's CRYPTO frames carry, if there is any of it.
pub open spec fn crypto_stream(payload: Seq<u8>) -> Option<Seq<u8>> {
    match pieces(payload) {
        None => None,
        Some(ps) => if stream(ps).len() > 0 {
            Some(stream(ps))
        } else {
            None
        },
    }
}

/// A frame as it lies in the payload, with its place among the others.
#[derive(Clone, Copy)]
struct Found<'a> {
    offset: u64,
    index: usize,
    data: &'a [u8],
}

impl<'a> Found<'a> {
    spec fn piece(self) -> Piece {
        Piece { offset: self.offset as nat, data: self.data@ }
    }
}

spec fn as_pieces(found: Seq<Found<'_>>) -> Seq<Piece> {
    Seq::new(found.len(), |i: int| found[i].piece())
}

spec fn numbered(found: Seq<Found<'_>>) -> bool {
    forall|i: int| 0 <= i < found.len() ==> (#[trigger] found[i]).index == i
}

/// Step over `n` varints.
fn skip_varints(r: &mut Reader<'_>, n: u64) -> (done: Option<()>)
    ensures
        final(r).all() == old(r).all(),
        match done {
            Some(_) => varints(old(r).rest(), n as nat) == Some(final(r).rest()),
            None => varints(old(r).rest(), n as nat) is None,
        },
{
    let mut i: u64 = 0;
    while i < n
        invariant
            i <= n,
            r.all() == old(r).all(),
            varints(old(r).rest(), n as nat) == varints(r.rest(), (n - i) as nat),
        decreases n - i,
    {
        r.varint()?;
        i = i + 1;
    }
    Some(())
}

/// Walk the frames of a payload and collect the CRYPTO ones.
fn collect<'a>(payload: &'a [u8]) -> (found: Option<Vec<Found<'a>>>)
    ensures
        match found {
            Some(found) => pieces(payload@) == Some(as_pieces(found@)) && numbered(found@),
            None => pieces(payload@) is None,
        },
{
    let mut r = Reader::new(payload);
    let mut found: Vec<Found<'a>> = Vec::new();
    proof {
        if let Some(ps) = pieces(payload@) {
            assert(as_pieces(found@) + ps =~= ps);
        }
    }
    loop
        invariant_except_break
            r.all() == payload@,
            numbered(found@),
            pieces(payload@) == prepend(as_pieces(found@), pieces(r.rest())),
        ensures
            numbered(found@),
            pieces(payload@) == Some(as_pieces(found@)),
        decreases r.rest().len(),
    {
        let ghost before = r.rest();
        let frame = match r.u8() {
            Some(frame) => frame,
            None => {
                proof {
                    assert(as_pieces(found@) + Seq::<Piece>::empty() =~= as_pieces(found@));
                }
                break;
            },
        };
        if frame == 0x00 || frame == 0x01 {
        } else if frame == 0x02 || frame == 0x03 {
            proof {
                lemma_ack_len(before.skip(1), frame == 0x03);
            }
            skip_varints(&mut r, 2)?;
            let ranges = r.varint()?;
            let ecn: u64 = if frame == 0x03 {
                3
            } else {
                0
            };
            skip_varints(&mut r, 1 + 2 * ranges + ecn)?;
        } else if frame == 0x06 {
            let offset = r.varint()?;
            let len = r.varint()?;
            if len > (payload.len() - r.position()) as u64 {
                return None;
            }
            let data = r.take(len as usize)?;
            let ghost earlier = found@;
            let index = found.len();
            found.push(Found { offset, index, data });
            proof {
                let piece = Piece { offset: offset as nat, data: data@ };
                assert(crypto_frame(before.skip(1)) == Some((piece, r.rest())));
                if let Some(back) = pieces(r.rest()) {
                    assert(as_pieces(earlier) + (seq![piece] + back) =~= as_pieces(found@) + back);
                }
            }
        } else {
            // CONNECTION_CLOSE and anything a client has no business sending here.
            proof {
                assert(as_pieces(found@) + Seq::<Piece>::empty() =~= as_pieces(found@));
            }
            break;
        }
    }
    Some(found)
}

/// Ordered by where a frame starts, then by when it came.
spec fn ordered(a: Found<'_>, b: Found<'_>) -> bool {
    a.offset < b.offset || (a.offset == b.offset && a.index <= b.index)
}

spec fn sorted(s: Seq<Found<'_>>) -> bool {
    forall|i: int, j: int| 0 <= i <= j < s.len() ==> ordered(#[trigger] s[i], #[trigger] s[j])
}

fn is_ordered(a: &Found<'_>, b: &Found<'_>) -> (r: bool)
    ensures
        r == ordered(*a, *b),
{
    a.offset < b.offset || (a.offset == b.offset && a.index <= b.index)
}

fn merge<'a>(a: &Vec<Found<'a>>, b: &Vec<Found<'a>>) -> (out: Vec<Found<'a>>)
    requires
        sorted(a@),
        sorted(b@),
    ensures
        sorted(out@),
        forall|x: Found<'a>| #[trigger] out@.contains(x) <==> a@.contains(x) || b@.contains(x),
{
    let mut out: Vec<Found<'a>> = Vec::new();
    let mut i: usize = 0;
    let mut j: usize = 0;
    while i < a.len() || j < b.len()
        invariant
            i <= a@.len(),
            j <= b@.len(),
            sorted(a@),
            sorted(b@),
            sorted(out@),
            forall|k: int, l: int|
                0 <= k < out@.len() && i <= l < a@.len() ==> ordered(
                    #[trigger] out@[k],
                    #[trigger] a@[l],
                ),
            forall|k: int, l: int|
                0 <= k < out@.len() && j <= l < b@.len() ==> ordered(
                    #[trigger] out@[k],
                    #[trigger] b@[l],
                ),
            forall|k: int|
                0 <= k < out@.len() ==> a@.contains(#[trigger] out@[k]) || b@.contains(out@[k]),
            forall|k: int| 0 <= k < i ==> out@.contains(#[trigger] a@[k]),
            forall|k: int| 0 <= k < j ==> out@.contains(#[trigger] b@[k]),
        decreases (a@.len() - i) + (b@.len() - j),
    {
        let ghost earlier = out@;
        let from_a = if i == a.len() {
            false
        } else if j == b.len() {
            true
        } else {
            is_ordered(&a[i], &b[j])
        };
        if from_a {
            out.push(a[i]);
            i = i + 1;
        } else {
            out.push(b[j]);
            j = j + 1;
        }
        proof {
            assert forall|x: Found<'a>| earlier.contains(x) implies out@.contains(x) by {
                let k = choose|k: int| 0 <= k < earlier.len() && earlier[k] == x;
                assert(out@[k] == x);
            }
            assert(out@[out@.len() - 1] == out@.last());
        }
    }
    proof {
        assert forall|x: Found<'a>| a@.contains(x) || b@.contains(x) implies out@.contains(x) by {
            if a@.contains(x) {
                let k = choose|k: int| 0 <= k < a@.len() && a@[k] == x;
                assert(out@.contains(a@[k]));
            } else {
                let k = choose|k: int| 0 <= k < b@.len() && b@[k] == x;
                assert(out@.contains(b@[k]));
            }
        }
    }
    out
}

/// Merge sort by where a frame starts, frames that start together in the order they came.
fn sort<'a>(v: Vec<Found<'a>>) -> (out: Vec<Found<'a>>)
    ensures
        sorted(out@),
        forall|x: Found<'a>| #[trigger] out@.contains(x) <==> v@.contains(x),
    decreases v@.len(),
{
    if v.len() < 2 {
        return v;
    }
    let ghost whole = v@;
    let mut left = v;
    let middle = left.len() / 2;
    let right = left.split_off(middle);
    proof {
        assert(left@ + right@ =~= whole);
        assert forall|x: Found<'a>| whole.contains(x) <==> left@.contains(x) || right@.contains(
            x,
        ) by {
            if whole.contains(x) {
                let k = choose|k: int| 0 <= k < whole.len() && whole[k] == x;
                if k < middle {
                    assert(left@[k] == x);
                } else {
                    assert(right@[k - middle] == x);
                }
            }
            if left@.contains(x) {
                let k = choose|k: int| 0 <= k < left@.len() && left@[k] == x;
                assert(whole[k] == x);
            }
            if right@.contains(x) {
                let k = choose|k: int| 0 <= k < right@.len() && right@[k] == x;
                assert(whole[middle + k] == x);
            }
        }
    }
    let left = sort(left);
    let right = sort(right);
    merge(&left, &right)
}

proof fn lemma_provides_unique(ps: Seq<Piece>, i: int, j: int)
    requires
        provides(ps, i, j),
    ensures
        stream_byte(ps, i) == ps[j].data[i - ps[j].offset],
{
    let k = choose|k: int| provides(ps, i, k);
    assert(provides(ps, i, k));
    assert(k == j);
}

proof fn lemma_end_unique(ps: Seq<Piece>, n: nat)
    requires
        ends_at(ps, n),
    ensures
        stream(ps).len() == n,
{
    let m = choose|m: nat| ends_at(ps, m);
    assert(ends_at(ps, m));
    if m < n {
        assert(covered(ps, m as int));
    } else if n < m {
        assert(covered(ps, n as int));
    }
}

/// A frame that lies at `arrived[j]` has a place in the sorted order.
proof fn lemma_place(frames: Seq<Found<'_>>, arrived: Seq<Found<'_>>, j: int) -> (q: int)
    requires
        forall|x: Found<'_>| #[trigger] frames.contains(x) <==> arrived.contains(x),
        0 <= j < arrived.len(),
    ensures
        0 <= q < frames.len(),
        frames[q] == arrived[j],
{
    assert(arrived.contains(arrived[j]));
    assert(frames.contains(arrived[j]));
    choose|q: int| 0 <= q < frames.len() && frames[q] == arrived[j]
}

/// When the frames before `at` end by `n` and those from `at` on start after it, `n` is a hole.
proof fn lemma_hole(frames: Seq<Found<'_>>, arrived: Seq<Found<'_>>, at: int, n: int)
    requires
        forall|x: Found<'_>| #[trigger] frames.contains(x) <==> arrived.contains(x),
        forall|k: int|
            0 <= k < at ==> (#[trigger] frames[k]).offset + frames[k].data@.len() <= n,
        forall|k: int| at <= k < frames.len() ==> n < (#[trigger] frames[k]).offset,
    ensures
        !covered(as_pieces(arrived), n),
{
    let ps = as_pieces(arrived);
    assert forall|j: int| 0 <= j < ps.len() implies !covers(#[trigger] ps[j], n) by {
        let q = lemma_place(frames, arrived, j);
        assert(frames[q] == arrived[j]);
    }
}

/// The frame at `at` provides each byte that it holds and no frame before it reaches.
proof fn lemma_provides(frames: Seq<Found<'_>>, arrived: Seq<Found<'_>>, at: int, i: int)
    requires
        sorted(frames),
        numbered(arrived),
        forall|x: Found<'_>| #[trigger] frames.contains(x) <==> arrived.contains(x),
        0 <= at < frames.len(),
        forall|k: int|
            0 <= k < at ==> (#[trigger] frames[k]).offset + frames[k].data@.len() <= i,
        covers(frames[at].piece(), i),
    ensures
        covered(as_pieces(arrived), i),
        stream_byte(as_pieces(arrived), i) == frames[at].data@[i - frames[at].offset],
{
    let ps = as_pieces(arrived);
    assert(frames.contains(frames[at]));
    let j = choose|j: int| 0 <= j < arrived.len() && arrived[j] == frames[at];
    assert(ps[j] == frames[at].piece());
    assert forall|k: int| 0 <= k < ps.len() && covers(#[trigger] ps[k], i) implies ps[j].offset
        < ps[k].offset || (ps[j].offset == ps[k].offset && j <= k) by {
        let q = lemma_place(frames, arrived, k);
        assert(frames[q] == arrived[k]);
        assert(ordered(frames[at], frames[q]));
        assert(arrived[j].index == j && arrived[k].index == k);
    }
    lemma_provides_unique(ps, i, j);
}

/// Concatenate the packet's CRYPTO frames, in offset order.
///
/// Only frames a client may send in an Initial are understood; anything else ends the
/// walk. A ClientHello that does not start at offset zero or has a hole in it is one the
/// client split across datagrams, which this cannot reassemble, so the caller falls back.
pub fn reassemble_crypto(payload: &[u8]) -> (stream: Option<Vec<u8>>)
    ensures
        match stream {
            Some(stream) => crypto_stream(payload@) == Some(stream@),
            None => crypto_stream(payload@) is None,
        },
{
    let found = collect(payload)?;
    let ghost arrived = found@;
    let ghost ps = as_pieces(found@);
    let sorted_frames = sort(found);
    let mut crypto: Vec<u8> = Vec::new();
    let mut at: usize = 0;
    proof {
        if sorted_frames@.len() == 0 {
            lemma_hole(sorted_frames@, arrived, 0, 0);
        }
    }
    while at < sorted_frames.len()
        invariant
            at <= sorted_frames@.len(),
            sorted(sorted_frames@),
            numbered(arrived),
            ps == as_pieces(arrived),
            forall|x: Found<'_>| #[trigger]
                sorted_frames@.contains(x) <==> arrived.contains(x),
            forall|k: int|
                0 <= k < at ==> (#[trigger] sorted_frames@[k]).offset
                    + sorted_frames@[k].data@.len() <= crypto@.len(),
            forall|i: int| 0 <= i < crypto@.len() ==> #[trigger] covered(ps, i),
            forall|i: int|
                #![trigger crypto@[i]]
                0 <= i < crypto@.len() ==> crypto@[i] == stream_byte(ps, i),
            at == sorted_frames@.len() ==> !covered(ps, crypto@.len() as int),
        ensures
            ends_at(ps, crypto@.len()),
            forall|i: int|
                #![trigger crypto@[i]]
                0 <= i < crypto@.len() ==> crypto@[i] == stream_byte(ps, i),
        decreases sorted_frames@.len() - at,
    {
        let frame = sorted_frames[at];
        let have = crypto.len() as u64;
        // Frames may overlap; skip what is already in hand and stop at the first hole.
        if frame.offset > have {
            proof {
                lemma_hole(sorted_frames@, arrived, at as int, crypto@.len() as int);
            }
            break;
        }
        let skip = have - frame.offset;
        let ghost earlier = crypto@;
        if skip <= frame.data.len() as u64 {
            crypto.extend_from_slice(slice_subrange(frame.data, skip as usize, frame.data.len()));
        }
        proof {
            assert forall|i: int| 0 <= i < crypto@.len() implies #[trigger] covered(ps, i) by {
                if i >= earlier.len() {
                    lemma_provides(sorted_frames@, arrived, at as int, i);
                }
            }
            assert forall|i: int| 0 <= i < crypto@.len() implies #[trigger] crypto@[i]
                == stream_byte(ps, i) by {
                if i < earlier.len() {
                    assert(crypto@[i] == earlier[i]);
                } else {
                    lemma_provides(sorted_frames@, arrived, at as int, i);
                }
            }
        }
        at = at + 1;
        proof {
            if at == sorted_frames@.len() {
                lemma_hole(sorted_frames@, arrived, at as int, crypto@.len() as int);
            }
        }
    }
    proof {
        lemma_end_unique(ps, crypto@.len());
        assert(crypto@ =~= stream(ps));
    }
    if crypto.is_empty() {
        None
    } else {
        Some(crypto)
    }
}

/// Of the first `n` pieces, the one that provides byte `i`, if any of them holds it.
proof fn lemma_provider(ps: Seq<Piece>, i: int, n: int) -> (best: int)
    requires
        0 <= n <= ps.len(),
        exists|j: int| 0 <= j < n && covers(#[trigger] ps[j], i),
    ensures
        provides(ps.take(n), i, best),
    decreases n,
{
    let first = ps.take(n);
    if exists|j: int| 0 <= j < n - 1 && covers(#[trigger] ps[j], i) {
        let best = lemma_provider(ps, i, n - 1);
        assert(first.take(n - 1) =~= ps.take(n - 1));
        assert(forall|k: int| 0 <= k < n - 1 ==> ps.take(n - 1)[k] == #[trigger] first[k]);
        if covers(first[n - 1], i) && first[n - 1].offset < first[best].offset {
            n - 1
        } else {
            best
        }
    } else {
        assert(covers(first[n - 1], i));
        assert(forall|k: int| 0 <= k < n - 1 ==> !covers(#[trigger] first[k], i));
        n - 1
    }
}

/// Pieces that are all cut from one message and leave none of it out.
pub open spec fn cut_from(ps: Seq<Piece>, message: Seq<u8>) -> bool {
    &&& forall|j: int|
        0 <= j < ps.len() ==> {
            let p = #[trigger] ps[j];
            p.offset + p.data.len() <= message.len() && p.data == message.subrange(
                p.offset as int,
                (p.offset + p.data.len()) as int,
            )
        }
    &&& forall|i: int| 0 <= i < message.len() ==> #[trigger] covered(ps, i)
}

/// Law: frames that are all cut from one message, and leave none of it out, reassemble to it:
/// however many there are, whatever their order, and wherever they overlap.
pub proof fn law_cut_message_reassembles(ps: Seq<Piece>, message: Seq<u8>)
    requires
        cut_from(ps, message),
    ensures
        stream(ps) == message,
{
    assert(!covered(ps, message.len() as int));
    lemma_end_unique(ps, message.len());
    assert forall|i: int| 0 <= i < message.len() implies #[trigger] stream(ps)[i] == message[i] by {
        assert(covered(ps, i));
        let j = lemma_provider(ps, i, ps.len() as int);
        assert(ps.take(ps.len() as int) =~= ps);
        lemma_provides_unique(ps, i, j);
    }
    assert(stream(ps) =~= message);
}

/// A number that no piece reaches.
spec fn reach(ps: Seq<Piece>) -> nat
    decreases ps.len(),
{
    if ps.len() == 0 {
        0
    } else {
        reach(ps.drop_last()) + ps.last().offset + ps.last().data.len()
    }
}

proof fn lemma_reach(ps: Seq<Piece>, j: int)
    requires
        0 <= j < ps.len(),
    ensures
        ps[j].offset + ps[j].data.len() <= reach(ps),
    decreases ps.len(),
{
    if j < ps.len() - 1 {
        lemma_reach(ps.drop_last(), j);
    }
}

/// Pieces that hold everything before `n` have a first hole.
proof fn lemma_first_hole(ps: Seq<Piece>, n: nat) -> (end: nat)
    requires
        forall|i: int| 0 <= i < n ==> #[trigger] covered(ps, i),
        n <= reach(ps),
    ensures
        ends_at(ps, end),
    decreases reach(ps) - n,
{
    if covered(ps, n as int) {
        let j = choose|j: int| 0 <= j < ps.len() && covers(#[trigger] ps[j], n as int);
        lemma_reach(ps, j);
        lemma_first_hole(ps, n + 1)
    } else {
        n
    }
}

/// Law: the stream is what the frames hold. It ends at the first place that no frame holds, and
/// before that each of its bytes stands in a frame that holds its place: of those that do, the one
/// that starts first, and of those that start together, the one that came first.
pub proof fn law_the_stream_is_what_the_frames_hold(ps: Seq<Piece>, i: int)
    ensures
        0 <= i < stream(ps).len() ==> exists|j: int|
            0 <= j < ps.len() && (#[trigger] ps[j]).offset <= i < ps[j].offset + ps[j].data.len()
                && stream(ps)[i] == ps[j].data[i - ps[j].offset] && (forall|k: int|
                0 <= k < ps.len() && (#[trigger] ps[k]).offset <= i < ps[k].offset
                    + ps[k].data.len() ==> ps[j].offset < ps[k].offset || (ps[j].offset
                    == ps[k].offset && j <= k)),
        i == stream(ps).len() ==> forall|j: int|
            0 <= j < ps.len() ==> !((#[trigger] ps[j]).offset <= i < ps[j].offset
                + ps[j].data.len()),
{
    let end = lemma_first_hole(ps, 0);
    lemma_end_unique(ps, end);
    if 0 <= i < end {
        assert(covered(ps, i));
        let j = lemma_provider(ps, i, ps.len() as int);
        assert(ps.take(ps.len() as int) =~= ps);
        lemma_provides_unique(ps, i, j);
        assert(provides(ps, i, j));
        assert forall|k: int|
            0 <= k < ps.len() && (#[trigger] ps[k]).offset <= i < ps[k].offset
                + ps[k].data.len() implies ps[j].offset < ps[k].offset || (ps[j].offset
            == ps[k].offset && j <= k) by {
            assert(covers(ps[k], i));
        }
    }
    if i == end {
        assert(!covered(ps, i));
        assert forall|j: int| 0 <= j < ps.len() implies !((#[trigger] ps[j]).offset <= i
            < ps[j].offset + ps[j].data.len()) by {
            assert(!covers(ps[j], i));
        }
    }
}

/// Law: a payload gives a stream exactly when its frames are whole and hold something from the
/// start of the stream on; and then it gives all of it.
pub proof fn law_a_payload_gives_its_whole_stream(payload: Seq<u8>)
    ensures
        match pieces(payload) {
            None => crypto_stream(payload) is None,
            Some(ps) => {
                &&& stream(ps).len() > 0 ==> crypto_stream(payload) == Some(stream(ps))
                &&& crypto_stream(payload) is Some <==> exists|j: int|
                    0 <= j < ps.len() && (#[trigger] ps[j]).offset == 0 && ps[j].data.len() > 0
            },
        },
{
    if let Some(ps) = pieces(payload) {
        let end = lemma_first_hole(ps, 0);
        lemma_end_unique(ps, end);
        if end > 0 {
            assert(covered(ps, 0));
            let j = choose|j: int| 0 <= j < ps.len() && covers(#[trigger] ps[j], 0);
            assert(ps[j].offset == 0 && ps[j].data.len() > 0);
        } else if exists|j: int|
            0 <= j < ps.len() && (#[trigger] ps[j]).offset == 0 && ps[j].data.len() > 0 {
            let j = choose|j: int|
                0 <= j < ps.len() && (#[trigger] ps[j]).offset == 0 && ps[j].data.len() > 0;
            assert(covers(ps[j], 0));
            assert(covered(ps, 0));
        }
    }
}

} // verus!
