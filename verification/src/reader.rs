//! A cursor over wire bytes: big-endian fields, connection IDs and QUIC varints.
//!
//! The model of a reader is the sequence of bytes it has not consumed yet. Each wire field is
//! a spec function from such a sequence to the value at its front and what follows it.

use vstd::prelude::*;
use vstd::slice::slice_subrange;

verus! {

/// A connection ID is at most 20 bytes in QUIC v1 and v2.
pub const MAX_CID: usize = 20;

/// The number that `s` spells in base 256, most significant byte first.
pub open spec fn be(s: Seq<u8>) -> nat
    decreases s.len(),
{
    if s.len() == 0 {
        0
    } else {
        be(s.drop_last()) * 256 + s.last() as nat
    }
}

/// The first `n` bytes of `s` and the bytes after them.
pub open spec fn split(s: Seq<u8>, n: int) -> Option<(Seq<u8>, Seq<u8>)> {
    if 0 <= n <= s.len() {
        Some((s.take(n), s.skip(n)))
    } else {
        None
    }
}

/// What follows the first `n` bytes of `s`.
pub open spec fn skip(s: Seq<u8>, n: int) -> Option<Seq<u8>> {
    if 0 <= n <= s.len() {
        Some(s.skip(n))
    } else {
        None
    }
}

/// An unsigned field of `width` bytes.
pub open spec fn uint(s: Seq<u8>, width: int) -> Option<(nat, Seq<u8>)> {
    if 0 <= width <= s.len() {
        Some((be(s.take(width)), s.skip(width)))
    } else {
        None
    }
}

/// A connection ID, length-prefixed by one byte.
pub open spec fn cid(s: Seq<u8>) -> Option<(Seq<u8>, Seq<u8>)> {
    if s.len() > 0 && s[0] <= MAX_CID {
        split(s.skip(1), s[0] as int)
    } else {
        None
    }
}

/// How many bytes a varint takes: the two high bits of its first byte hold the logarithm.
pub open spec fn varint_width(first: u8) -> nat {
    if first < 64 {
        1
    } else if first < 128 {
        2
    } else if first < 192 {
        4
    } else {
        8
    }
}

/// RFC 9000, Section 16: the bytes of the field with the two length bits cleared.
pub open spec fn varint(s: Seq<u8>) -> Option<(nat, Seq<u8>)> {
    if s.len() > 0 && varint_width(s[0]) <= s.len() {
        let width = varint_width(s[0]) as int;
        Some((be(s.take(width).update(0, s[0] % 64)), s.skip(width)))
    } else {
        None
    }
}

/// A cursor that refuses to run off the end of its bytes.
pub struct Reader<'a> {
    bytes: &'a [u8],
    at: usize,
}

impl<'a> Reader<'a> {
    #[verifier::type_invariant]
    spec fn in_bounds(self) -> bool {
        self.at <= self.bytes@.len()
    }

    /// Everything the reader was made from.
    pub closed spec fn all(self) -> Seq<u8> {
        self.bytes@
    }

    /// The bytes not consumed yet.
    pub closed spec fn rest(self) -> Seq<u8> {
        self.bytes@.skip(self.at as int)
    }

    pub fn new(bytes: &'a [u8]) -> (r: Self)
        ensures
            r.all() == bytes@,
            r.rest() == bytes@,
    {
        let r = Self { bytes, at: 0 };
        assert(bytes@.skip(0) =~= bytes@);
        r
    }

    /// How many bytes were consumed.
    pub fn position(&self) -> (at: usize)
        ensures
            at + self.rest().len() == self.all().len(),
            self.rest() == self.all().skip(at as int),
    {
        proof {
            use_type_invariant(self);
        }
        self.at
    }

    /// Consume `len` bytes, or nothing if there are fewer.
    pub fn take(&mut self, len: usize) -> (slice: Option<&'a [u8]>)
        ensures
            final(self).all() == old(self).all(),
            match slice {
                Some(slice) => split(old(self).rest(), len as int) == Some(
                    (slice@, final(self).rest()),
                ),
                None => split(old(self).rest(), len as int) is None && final(self).rest() == old(self).rest(),
            },
    {
        proof {
            use_type_invariant(&*self);
        }
        let left = self.bytes.len() - self.at;
        if len > left {
            return None;
        }
        let start = self.at;
        let end = start + len;
        let slice = slice_subrange(self.bytes, start, end);
        proof {
            assert(slice@ =~= self.rest().take(len as int));
            assert(self.bytes@.skip(end as int) =~= self.rest().skip(len as int));
        }
        self.at = end;
        Some(slice)
    }

    /// Consume `len` bytes without looking at them, or nothing if there are fewer.
    pub fn skip(&mut self, len: usize) -> (done: Option<()>)
        ensures
            final(self).all() == old(self).all(),
            match done {
                Some(_) => skip(old(self).rest(), len as int) == Some(final(self).rest()),
                None => skip(old(self).rest(), len as int) is None && final(self).rest() == old(self).rest(),
            },
    {
        match self.take(len) {
            Some(_) => Some(()),
            None => None,
        }
    }

    pub fn u8(&mut self) -> (value: Option<u8>)
        ensures
            final(self).all() == old(self).all(),
            match value {
                Some(value) => old(self).rest().len() > 0 && value == old(self).rest()[0] && final(self).rest() == old(self).rest().skip(1),
                None => old(self).rest().len() == 0 && final(self).rest() == old(self).rest(),
            },
    {
        match self.take(1) {
            Some(b) => Some(b[0]),
            None => None,
        }
    }

    pub fn u16(&mut self) -> (value: Option<usize>)
        ensures
            final(self).all() == old(self).all(),
            match value {
                Some(value) => value < 0x1_0000 && uint(old(self).rest(), 2) == Some(
                    (value as nat, final(self).rest()),
                ),
                None => uint(old(self).rest(), 2) is None && final(self).rest() == old(self).rest(),
            },
    {
        let b = self.take(2)?;
        proof {
            reveal_with_fuel(be, 3);
        }
        Some(b[0] as usize * 256 + b[1] as usize)
    }

    pub fn u24(&mut self) -> (value: Option<usize>)
        ensures
            final(self).all() == old(self).all(),
            match value {
                Some(value) => value < 0x100_0000 && uint(old(self).rest(), 3) == Some(
                    (value as nat, final(self).rest()),
                ),
                None => uint(old(self).rest(), 3) is None && final(self).rest() == old(self).rest(),
            },
    {
        let b = self.take(3)?;
        proof {
            reveal_with_fuel(be, 4);
        }
        Some((b[0] as usize * 256 + b[1] as usize) * 256 + b[2] as usize)
    }

    pub fn u32(&mut self) -> (value: Option<u32>)
        ensures
            final(self).all() == old(self).all(),
            match value {
                Some(value) => uint(old(self).rest(), 4) == Some(
                    (value as nat, final(self).rest()),
                ),
                None => uint(old(self).rest(), 4) is None && final(self).rest() == old(self).rest(),
            },
    {
        let b = self.take(4)?;
        proof {
            reveal_with_fuel(be, 5);
        }
        Some(((b[0] as u32 * 256 + b[1] as u32) * 256 + b[2] as u32) * 256 + b[3] as u32)
    }

    /// A connection ID, length-prefixed by one byte.
    ///
    /// The length byte stays consumed when the ID itself is too long or cut short.
    pub fn cid(&mut self) -> (id: Option<&'a [u8]>)
        ensures
            final(self).all() == old(self).all(),
            match id {
                Some(id) => cid(old(self).rest()) == Some((id@, final(self).rest()))
                    && id@.len() <= MAX_CID,
                None => cid(old(self).rest()) is None && final(self).rest() == old(self).rest().skip(if old(self).rest().len() == 0 { 0 } else { 1 }),
            },
    {
        let len = match self.u8() {
            Some(len) => len as usize,
            None => {
                proof {
                    assert(self.rest().skip(0) =~= self.rest());
                }
                return None;
            },
        };
        if len > MAX_CID {
            return None;
        }
        self.take(len)
    }

    /// RFC 9000, Section 16: the first two bits give the encoded length.
    ///
    /// The first byte stays consumed when the field is cut short.
    pub fn varint(&mut self) -> (value: Option<u64>)
        ensures
            final(self).all() == old(self).all(),
            match value {
                Some(value) => value < 0x4000_0000_0000_0000 && varint(old(self).rest()) == Some(
                    (value as nat, final(self).rest()),
                ),
                None => varint(old(self).rest()) is None && final(self).rest() == old(self).rest().skip(if old(self).rest().len() == 0 { 0 } else { 1 }),
            },
    {
        let first = match self.u8() {
            Some(first) => first,
            None => {
                proof {
                    assert(self.rest().skip(0) =~= self.rest());
                }
                return None;
            },
        };
        let ghost whole = old(self).rest();
        let more: usize = if first < 64 {
            0
        } else if first < 128 {
            1
        } else if first < 192 {
            3
        } else {
            7
        };
        let tail = match self.take(more) {
            Some(tail) => tail,
            None => {
                return None;
            },
        };
        let mut value: u64 = (first % 64) as u64;
        let mut i: usize = 0;
        let ghost cleared = whole.take(1 + more).update(0, (first % 64) as u8);
        proof {
            assert(cleared.take(1) =~= seq![(first % 64) as u8]);
            reveal_with_fuel(be, 2);
            assert(cleared.take(1).drop_last() =~= Seq::<u8>::empty());
        }
        while i < more
            invariant
                i <= more <= 7,
                tail@.len() == more,
                cleared.len() == 1 + more,
                forall|k: int| 0 <= k < more ==> cleared[1 + k] == tail@[k],
                value == be(cleared.take(1 + i)),
                i == 0 ==> value < 0x40,
                i == 1 ==> value < 0x4000,
                i == 2 ==> value < 0x40_0000,
                i == 3 ==> value < 0x4000_0000,
                i == 4 ==> value < 0x40_0000_0000,
                i == 5 ==> value < 0x4000_0000_0000,
                i == 6 ==> value < 0x40_0000_0000_0000,
                i == 7 ==> value < 0x4000_0000_0000_0000,
            decreases more - i,
        {
            proof {
                assert(cleared.take(2 + i).drop_last() =~= cleared.take(1 + i));
            }
            value = value * 256 + tail[i] as u64;
            i = i + 1;
        }
        proof {
            assert(cleared.take(1 + more) =~= cleared);
            assert(whole.skip(1).skip(more as int) =~= whole.skip(1 + more));
        }
        Some(value)
    }
}

} // verus!
