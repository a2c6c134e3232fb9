//! The wire format of a name, as mathematics: the uncompressed encoding of
//! a label sequence, the flat (pointer-free) parse, and the
//! compression-aware parse that follows pointer back-references under a
//! bounded jump budget.

use vstd::prelude::*;
use crate::utf8::is_utf8;

verus! {

/// How a decode can fail.
#[derive(Clone, Copy, Debug, PartialEq, Eq, Structural)]
pub enum NameError {
    /// The source was exhausted before a length octet, a pointer octet or a
    /// full label body could be read.
    Truncated,
    /// Label bytes are not well-formed text.
    MalformedLabel,
    /// The jump budget was exhausted while following compression pointers,
    /// as happens on a pointer cycle.
    CompressionLoop,
    /// A label handed to the builder is empty or longer than the wire
    /// format can carry in one label.
    InvalidLabelLength,
}

/// A label that a well-formed in-memory name may hold: non-empty, encodable
/// with a one-octet length prefix, and well-formed text.
pub open spec fn label_ok(l: Seq<u8>) -> bool {
    1 <= l.len() <= 255 && is_utf8(l)
}

pub open spec fn labels_ok(ls: Seq<Seq<u8>>) -> bool {
    forall|i: int| 0 <= i < ls.len() ==> label_ok(#[trigger] ls[i])
}

/// A label within the protocol's per-label bound: length prefixes of
/// non-final labels stay in `[1, 63]`.
pub open spec fn label_wire_ok(l: Seq<u8>) -> bool {
    1 <= l.len() <= 63 && is_utf8(l)
}

pub open spec fn labels_wire_ok(ls: Seq<Seq<u8>>) -> bool {
    forall|i: int| 0 <= i < ls.len() ==> label_wire_ok(#[trigger] ls[i])
}

/// The uncompressed wire bytes of a label sequence: each label prefixed
/// with its one-octet length, then a terminating zero octet.
pub open spec fn encoding(ls: Seq<Seq<u8>>) -> Seq<u8>
    decreases ls.len(),
{
    if ls.len() == 0 {
        seq![0u8]
    } else {
        seq![ls[0].len() as u8] + ls[0] + encoding(ls.skip(1))
    }
}

/// The strictly sequential parse of an uncompressed name from the start of
/// a buffer: length octets are never pointers here.  Octets after the
/// terminating zero are ignored.
pub open spec fn parse_flat(b: Seq<u8>) -> Result<Seq<Seq<u8>>, NameError>
    decreases b.len(),
{
    if b.len() == 0 {
        Err(NameError::Truncated)
    } else if b[0] == 0 {
        Ok(Seq::empty())
    } else {
        let llen = b[0] as int;
        if 1 + llen > b.len() {
            Err(NameError::Truncated)
        } else if !is_utf8(b.subrange(1, 1 + llen)) {
            Err(NameError::MalformedLabel)
        } else {
            match parse_flat(b.skip(1 + llen)) {
                Ok(ls) => Ok(seq![b.subrange(1, 1 + llen)] + ls),
                Err(e) => Err(e),
            }
        }
    }
}

/// The compression-aware parse of a name at position `pos` of a whole
/// message.  A length octet whose top two bits are set is a pointer: its
/// low six bits and the following octet form a fourteen-bit absolute
/// offset to continue from.  At most `jumps_left` pointers may be
/// followed.  On success the second component is the position just past
/// the name's first occurrence: past the first pointer if one was taken,
/// else past the terminating zero octet.
pub open spec fn parse_at(msg: Seq<u8>, pos: int, jumps_left: int) -> Result<
    (Seq<Seq<u8>>, int),
    NameError,
>
    decreases jumps_left, msg.len() - pos,
{
    if !(0 <= pos < msg.len()) {
        Err(NameError::Truncated)
    } else if msg[pos] == 0 {
        Ok((Seq::empty(), pos + 1))
    } else if msg[pos] & 0xC0 == 0xC0 {
        if pos + 1 >= msg.len() {
            Err(NameError::Truncated)
        } else if jumps_left <= 0 {
            Err(NameError::CompressionLoop)
        } else {
            let target = (msg[pos] & 0x3F) * 256 + msg[pos + 1];
            if target >= msg.len() {
                Err(NameError::Truncated)
            } else {
                match parse_at(msg, target as int, jumps_left - 1) {
                    Ok((ls, _)) => Ok((ls, pos + 2)),
                    Err(e) => Err(e),
                }
            }
        }
    } else {
        let llen = msg[pos] as int;
        if pos + 1 + llen > msg.len() {
            Err(NameError::Truncated)
        } else if !is_utf8(msg.subrange(pos + 1, pos + 1 + llen)) {
            Err(NameError::MalformedLabel)
        } else {
            match parse_at(msg, pos + 1 + llen, jumps_left) {
                Ok((ls, endpos)) => Ok((seq![msg.subrange(pos + 1, pos + 1 + llen)] + ls, endpos)),
                Err(e) => Err(e),
            }
        }
    }
}

/// Encoding then flat parsing gives the labels back: the round trip holds
/// for every label sequence whose labels keep the protocol's per-label
/// length bound and are well-formed text.
pub proof fn lemma_round_trip(ls: Seq<Seq<u8>>)
    requires
        labels_wire_ok(ls),
    ensures
        parse_flat(encoding(ls)) == Ok::<Seq<Seq<u8>>, NameError>(ls),
    decreases ls.len(),
{
    if ls.len() == 0 {
        assert(encoding(ls) =~= seq![0u8]);
        assert(ls =~= Seq::<Seq<u8>>::empty());
    } else {
        let l0 = ls[0];
        let rest = ls.skip(1);
        assert(labels_wire_ok(rest));
        lemma_round_trip(rest);
        let e = encoding(ls);
        let llen = l0.len() as int;
        assert(e == seq![l0.len() as u8] + l0 + encoding(rest));
        assert(e.len() == 1 + llen + encoding(rest).len());
        assert(encoding(rest).len() >= 1);
        assert(e[0] == l0.len() as u8);
        assert(e[0] as int == llen);
        assert(e.subrange(1, 1 + llen) =~= l0);
        assert(e.skip(1 + llen) =~= encoding(rest));
        assert(seq![l0] + rest =~= ls);
    }
}

} // verus!
