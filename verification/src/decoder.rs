//! The compression-aware decoder: reads a name that occurs inside a larger
//! message, following pointer back-references, and leaves the cursor just
//! past the name's first occurrence.

use vstd::prelude::*;
use vstd::slice::{slice_subrange, slice_to_vec};
use crate::name::{labels_view, Name};
use crate::utf8::check_utf8;
use crate::wire::{labels_ok, parse_at, NameError};

verus! {

/// The most compression pointers one decode follows before failing with
/// `CompressionLoop`; a legitimate chain is far shorter, a cyclic one would
/// never end.
pub const MAX_JUMPS: u32 = 128;

/// A readable, seekable view of a whole message buffer, from which a name
/// can be decoded at the cursor.
pub trait DNSNameReader {
    /// The whole message the reader ranges over.
    spec fn contents(&self) -> Seq<u8>;

    /// The cursor: an absolute offset into the message.
    spec fn position(&self) -> int;

    /// Decodes the name at the cursor, following compression pointers, and
    /// leaves the cursor just past the name's first occurrence: past the
    /// first pointer if one was taken, else past the terminating zero
    /// octet.
    fn read_dns_name(&mut self) -> (r: Result<Name, NameError>)
        ensures
            final(self).contents() == old(self).contents(),
            (match parse_at(old(self).contents(), old(self).position(), MAX_JUMPS as int) {
                Ok(q) => r matches Ok(n) && n@ == q.0 && n.wf() && final(self).position() == q.1,
                Err(e) => r matches Err(e2) && e2 == e,
            }),
    ;
}

/// A cursor over a message held as a byte slice: the concrete reader the
/// decoder is exercised with.
pub struct MsgCursor<'a> {
    msg: &'a [u8],
    pos: usize,
}

impl<'a> MsgCursor<'a> {
    /// A cursor at the start of the message.
    pub fn new(msg: &'a [u8]) -> (r: MsgCursor<'a>)
        ensures
            r.contents() == msg@,
            r.position() == 0,
    {
        MsgCursor { msg, pos: 0 }
    }

    /// A cursor at the given absolute offset of the message.
    pub fn at(msg: &'a [u8], pos: usize) -> (r: MsgCursor<'a>)
        ensures
            r.contents() == msg@,
            r.position() == pos as int,
    {
        MsgCursor { msg, pos }
    }

    /// Reads one octet and advances past it; fails without moving when the
    /// message is exhausted.
    pub fn read_u8(&mut self) -> (r: Result<u8, NameError>)
        ensures
            final(self).contents() == old(self).contents(),
            old(self).position() < old(self).contents().len() ==> r == Ok::<u8, NameError>(
                old(self).contents()[old(self).position()],
            ) && final(self).position() == old(self).position() + 1,
            old(self).position() >= old(self).contents().len() ==> r == Err::<u8, NameError>(
                NameError::Truncated,
            ) && final(self).position() == old(self).position(),
    {
        if self.pos < self.msg.len() {
            let b = self.msg[self.pos];
            self.pos = self.pos + 1;
            Ok(b)
        } else {
            Err(NameError::Truncated)
        }
    }

    /// Reads exactly `n` octets and advances past them; fails without
    /// moving when fewer remain.
    pub fn read_exact(&mut self, n: usize) -> (r: Result<Vec<u8>, NameError>)
        ensures
            final(self).contents() == old(self).contents(),
            old(self).position() + n <= old(self).contents().len() ==> (r matches Ok(v) && v@
                == old(self).contents().subrange(
                old(self).position(),
                old(self).position() + n,
            ) && final(self).position() == old(self).position() + n),
            old(self).position() + n > old(self).contents().len() ==> r == Err::<
                Vec<u8>,
                NameError,
            >(NameError::Truncated) && final(self).position() == old(self).position(),
    {
        if n <= self.msg.len() && self.pos <= self.msg.len() - n {
            let s = slice_subrange(self.msg, self.pos, self.pos + n);
            let v = slice_to_vec(s);
            self.pos = self.pos + n;
            Ok(v)
        } else {
            Err(NameError::Truncated)
        }
    }

    /// Moves the cursor to an absolute offset.
    pub fn seek_to(&mut self, pos: usize)
        ensures
            final(self).contents() == old(self).contents(),
            final(self).position() == pos as int,
    {
        self.pos = pos;
    }

    /// The current absolute offset.
    pub fn tell(&self) -> (r: usize)
        ensures
            r as int == self.position(),
    {
        self.pos
    }
}

impl<'a> DNSNameReader for MsgCursor<'a> {
    closed spec fn contents(&self) -> Seq<u8> {
        self.msg@
    }

    closed spec fn position(&self) -> int {
        self.pos as int
    }

    fn read_dns_name(&mut self) -> (r: Result<Name, NameError>) {
        let ghost m = self.contents();
        let ghost p0 = self.position();
        let mut labels: Vec<Vec<u8>> = Vec::new();
        let mut follow = false;
        let mut return_to: usize = 0;
        let mut jumps_left: u32 = MAX_JUMPS;
        proof {
            assert(labels_view(labels@) =~= Seq::<Seq<u8>>::empty());
            match parse_at(m, p0, MAX_JUMPS as int) {
                Ok(q) => {
                    assert(Seq::<Seq<u8>>::empty() + q.0 =~= q.0);
                },
                Err(_) => {},
            }
        }
        loop
            invariant
                m == old(self).contents(),
                p0 == old(self).position(),
                self.contents() == m,
                labels_ok(labels_view(labels@)),
                (match parse_at(m, self.position(), jumps_left as int) {
                    Ok(q) => (match parse_at(m, p0, MAX_JUMPS as int) {
                        Ok(q0) => q0.0 == labels_view(labels@) + q.0 && q0.1 == (if follow {
                            return_to as int
                        } else {
                            q.1
                        }),
                        Err(_) => false,
                    }),
                    Err(e) => parse_at(m, p0, MAX_JUMPS as int) == Err::<
                        (Seq<Seq<u8>>, int),
                        NameError,
                    >(e),
                }),
            decreases jumps_left, m.len() - self.position(),
        {
            let ghost p = self.position();
            let ghost jl = jumps_left as int;
            let llen: u8;
            match self.read_u8() {
                Err(e) => {
                    return Err(e);
                },
                Ok(b) => {
                    llen = b;
                },
            }
            if llen == 0 {
                let ghost v = labels_view(labels@);
                proof {
                    assert(parse_at(m, p, jl) == Ok::<(Seq<Seq<u8>>, int), NameError>(
                        (Seq::<Seq<u8>>::empty(), p + 1),
                    ));
                    assert(v + Seq::<Seq<u8>>::empty() =~= v);
                }
                if follow {
                    self.seek_to(return_to);
                }
                let name = Name::from_labels(labels);
                return Ok(name);
            } else if llen & 0xC0 == 0xC0 {
                let b2: u8;
                match self.read_u8() {
                    Err(e) => {
                        return Err(e);
                    },
                    Ok(b) => {
                        b2 = b;
                    },
                }
                if jumps_left == 0 {
                    return Err(NameError::CompressionLoop);
                }
                if !follow {
                    return_to = self.tell();
                    follow = true;
                }
                jumps_left = jumps_left - 1;
                let target: usize = ((llen & 0x3F) as usize) * 256 + (b2 as usize);
                proof {
                    assert(m[p] == llen);
                    assert(m[p + 1] == b2);
                    assert(target as int == (m[p] & 0x3F) * 256 + m[p + 1]);
                }
                self.seek_to(target);
            } else {
                let lab: Vec<u8>;
                match self.read_exact(llen as usize) {
                    Err(e) => {
                        return Err(e);
                    },
                    Ok(v) => {
                        lab = v;
                    },
                }
                if !check_utf8(lab.as_slice()) {
                    return Err(NameError::MalformedLabel);
                }
                let ghost labv = lab@;
                let ghost v_old = labels_view(labels@);
                proof {
                    assert(lab@ == m.subrange(p + 1, p + 1 + llen as int));
                    match parse_at(m, p + 1 + llen as int, jl) {
                        Ok(q) => {
                            assert(parse_at(m, p, jl) == Ok::<(Seq<Seq<u8>>, int), NameError>(
                                (seq![labv] + q.0, q.1),
                            ));
                            assert(v_old + (seq![labv] + q.0) =~= v_old.push(labv) + q.0);
                        },
                        Err(_) => {},
                    }
                }
                labels.push(lab);
                proof {
                    assert(labels_view(labels@) =~= v_old.push(labv));
                }
            }
        }
    }
}

} // verus!
