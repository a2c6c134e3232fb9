//! The name entity: an ordered sequence of labels, with the flat codec
//! between that representation and its uncompressed wire bytes, and a
//! textual rendering.

use vstd::prelude::*;
use vstd::slice::{slice_subrange, slice_to_vec};
use crate::utf8::{check_utf8, is_utf8, lemma_utf8_concat};
use crate::wire::{encoding, label_ok, label_wire_ok, labels_ok, parse_flat, NameError};

verus! {

/// The views of the labels a vector holds.
pub open spec fn labels_view(ls: Seq<Vec<u8>>) -> Seq<Seq<u8>> {
    ls.map_values(|l: Vec<u8>| l@)
}

/// The labels of each name in order, each rendered label followed by one
/// dot octet.
pub open spec fn dotted(ls: Seq<Seq<u8>>) -> Seq<u8>
    decreases ls.len(),
{
    if ls.len() == 0 {
        Seq::empty()
    } else {
        ls[0] + seq![46u8] + dotted(ls.skip(1))
    }
}

/// The textual rendering of a label sequence: labels joined by dots with a
/// trailing dot for the root; the empty name renders as a single dot.
pub open spec fn display_of(ls: Seq<Seq<u8>>) -> Seq<u8> {
    if ls.len() == 0 {
        seq![46u8]
    } else {
        dotted(ls)
    }
}

/// The characters that decoding well-formed UTF-8 bytes yields.
pub uninterp spec fn utf8_chars(b: Seq<u8>) -> Seq<char>;

/// Relies on String::from_utf8: on well-formed UTF-8 input it succeeds and
/// returns the decoded text, which depends on the input bytes alone.
#[verifier::external_body]
fn utf8_to_string(v: Vec<u8>) -> (r: String)
    requires
        is_utf8(v@),
    ensures
        r@ == utf8_chars(v@),
{
    match String::from_utf8(v) {
        Ok(s) => s,
        Err(_) => String::new(),
    }
}

/// A decompressed name: an ordered sequence of labels, without the
/// terminating zero-length marker of the wire form.
#[derive(Clone, Debug)]
pub struct Name {
    labels: Vec<Vec<u8>>,
}

impl View for Name {
    type V = Seq<Seq<u8>>;

    closed spec fn view(&self) -> Seq<Seq<u8>> {
        labels_view(self.labels@)
    }
}

impl Name {
    /// Every label a well-formed name holds is non-empty, fits a one-octet
    /// length prefix, and is well-formed text.  Every constructor below
    /// establishes this.
    pub open spec fn wf(&self) -> bool {
        labels_ok(self@)
    }

    /// An empty name, to be grown with `push_label`.
    pub fn new() -> (r: Name)
        ensures
            r@ == Seq::<Seq<u8>>::empty(),
            r.wf(),
    {
        let r = Name { labels: Vec::new() };
        proof {
            assert(r@ =~= Seq::<Seq<u8>>::empty());
        }
        r
    }

    pub(crate) fn from_labels(labels: Vec<Vec<u8>>) -> (r: Name)
        ensures
            r@ == labels_view(labels@),
    {
        Name { labels }
    }

    /// Appends one label.  The label must keep the protocol's per-label
    /// bound of 63 octets, be non-empty, and be well-formed text; an
    /// offending label is rejected and the name left unchanged.
    pub fn push_label(&mut self, label: Vec<u8>) -> (r: Result<(), NameError>)
        requires
            old(self).wf(),
        ensures
            final(self).wf(),
            (label@.len() == 0 || label@.len() > 63) ==> r == Err::<(), NameError>(
                NameError::InvalidLabelLength,
            ),
            (1 <= label@.len() <= 63 && !is_utf8(label@)) ==> r == Err::<(), NameError>(
                NameError::MalformedLabel,
            ),
            r is Ok <==> label_wire_ok(label@),
            r is Ok ==> final(self)@ == old(self)@.push(label@),
            r is Err ==> final(self)@ == old(self)@,
    {
        if label.len() == 0 || label.len() > 63 {
            return Err(NameError::InvalidLabelLength);
        }
        if !check_utf8(label.as_slice()) {
            return Err(NameError::MalformedLabel);
        }
        let ghost labv = label@;
        let ghost v_old = self@;
        self.labels.push(label);
        proof {
            assert(self@ =~= v_old.push(labv));
        }
        Ok(())
    }

    /// The labels, in order.
    pub fn labels(&self) -> (r: &Vec<Vec<u8>>)
        ensures
            r@.len() == self@.len(),
            forall|i: int| 0 <= i < r@.len() ==> (#[trigger] r@[i])@ == self@[i],
    {
        &self.labels
    }

    /// Reads an uncompressed name strictly sequentially from the start of
    /// the buffer: one length octet, then that many label octets, until a
    /// zero length octet; no compression pointers are recognized.  Octets
    /// after the terminating zero are ignored.
    pub fn parse_decompressed(buf: &[u8]) -> (r: Result<Name, NameError>)
        ensures
            (match parse_flat(buf@) {
                Ok(ls) => r matches Ok(n) && n@ == ls && n.wf(),
                Err(e) => r matches Err(e2) && e2 == e,
            }),
    {
        let n = buf.len();
        let mut labels: Vec<Vec<u8>> = Vec::new();
        let mut pos: usize = 0;
        proof {
            assert(buf@.skip(0) =~= buf@);
            assert(labels_view(labels@) =~= Seq::<Seq<u8>>::empty());
        }
        loop
            invariant
                pos <= n,
                n == buf@.len(),
                labels_ok(labels_view(labels@)),
                (match parse_flat(buf@.skip(pos as int)) {
                    Ok(ls) => parse_flat(buf@) == Ok::<Seq<Seq<u8>>, NameError>(
                        labels_view(labels@) + ls,
                    ),
                    Err(e) => parse_flat(buf@) == Err::<Seq<Seq<u8>>, NameError>(e),
                }),
            decreases n - pos,
        {
            if pos >= n {
                return Err(NameError::Truncated);
            }
            let llen = buf[pos];
            if llen == 0 {
                let name = Name { labels };
                proof {
                    assert(name@ + Seq::<Seq<u8>>::empty() =~= name@);
                }
                return Ok(name);
            }
            let llen_us = llen as usize;
            if n - pos - 1 < llen_us {
                return Err(NameError::Truncated);
            }
            let lab_slice = slice_subrange(buf, pos + 1, pos + 1 + llen_us);
            proof {
                assert(lab_slice@ =~= buf@.skip(pos as int).subrange(1, 1 + llen as int));
            }
            if !check_utf8(lab_slice) {
                return Err(NameError::MalformedLabel);
            }
            let lab = slice_to_vec(lab_slice);
            let ghost labv = lab@;
            let ghost v_old = labels_view(labels@);
            proof {
                let s = buf@.skip(pos as int);
                assert(s.skip(1 + llen as int) =~= buf@.skip(pos + 1 + llen_us as int));
                match parse_flat(buf@.skip(pos + 1 + llen_us as int)) {
                    Ok(ls2) => {
                        assert(parse_flat(s) == Ok::<Seq<Seq<u8>>, NameError>(
                            seq![labv] + ls2,
                        ));
                        assert(v_old + (seq![labv] + ls2) =~= v_old.push(labv) + ls2);
                    },
                    Err(_) => {},
                }
            }
            labels.push(lab);
            proof {
                assert(labels_view(labels@) =~= v_old.push(labv));
            }
            pos = pos + 1 + llen_us;
        }
    }

    /// Appends the uncompressed wire encoding of the name to a
    /// caller-supplied buffer: each label's one-octet length then its
    /// octets, then a terminating zero octet.
    pub fn push_bytes(&self, vec: &mut Vec<u8>)
        requires
            self.wf(),
        ensures
            final(vec)@ == old(vec)@ + encoding(self@),
    {
        let nl = self.labels.len();
        let mut i: usize = 0;
        proof {
            assert(self@.skip(0) =~= self@);
        }
        while i < nl
            invariant
                i <= nl,
                nl == self.labels.len(),
                self.wf(),
                vec@ + encoding(self@.skip(i as int)) == old(vec)@ + encoding(self@),
            decreases nl - i,
        {
            let lab: &Vec<u8> = &self.labels[i];
            proof {
                assert(lab@ == self@[i as int]);
                assert(label_ok(self@[i as int]));
            }
            let lb: u8 = lab.len() as u8;
            let ghost pre = vec@;
            vec.push(lb);
            let lablen = lab.len();
            let mut k: usize = 0;
            while k < lablen
                invariant
                    k <= lablen,
                    lablen == lab@.len(),
                    vec@ == pre + seq![lab@.len() as u8] + lab@.take(k as int),
                decreases lablen - k,
            {
                let byte: u8 = lab[k];
                vec.push(byte);
                proof {
                    assert(lab@.take(k + 1) =~= lab@.take(k as int).push(lab@[k as int]));
                }
                k = k + 1;
            }
            proof {
                assert(lab@.take(lablen as int) =~= lab@);
                assert(self@.skip(i as int).skip(1) =~= self@.skip(i + 1));
                assert(encoding(self@.skip(i as int)) == seq![lab@.len() as u8] + lab@ + encoding(
                    self@.skip(i + 1),
                ));
                assert(pre + seq![lab@.len() as u8] + lab@ + encoding(self@.skip(i + 1)) =~= pre
                    + encoding(self@.skip(i as int)));
            }
            i = i + 1;
        }
        proof {
            assert(self@.skip(nl as int) =~= Seq::<Seq<u8>>::empty());
        }
        let ghost pre = vec@;
        vec.push(0);
        proof {
            assert(pre + seq![0u8] =~= pre + encoding(Seq::<Seq<u8>>::empty()));
        }
    }

    /// The uncompressed wire encoding of the name, as a fresh buffer.
    pub fn to_bytes(&self) -> (r: Vec<u8>)
        requires
            self.wf(),
        ensures
            r@ == encoding(self@),
    {
        let mut v: Vec<u8> = Vec::new();
        self.push_bytes(&mut v);
        proof {
            assert(Seq::<u8>::empty() + encoding(self@) =~= encoding(self@));
        }
        v
    }

    /// The textual rendering, as bytes: labels joined by dots with a
    /// trailing dot; the empty name renders as a single dot.
    pub fn display_bytes(&self) -> (r: Vec<u8>)
        ensures
            r@ == display_of(self@),
    {
        let mut out: Vec<u8> = Vec::new();
        let nl = self.labels.len();
        if nl == 0 {
            out.push(46);
            proof {
                assert(out@ =~= seq![46u8]);
            }
            return out;
        }
        let mut i: usize = 0;
        proof {
            assert(self@.skip(0) =~= self@);
        }
        while i < nl
            invariant
                i <= nl,
                nl == self.labels.len(),
                nl >= 1,
                out@ + dotted(self@.skip(i as int)) == dotted(self@),
            decreases nl - i,
        {
            let lab: &Vec<u8> = &self.labels[i];
            proof {
                assert(lab@ == self@[i as int]);
            }
            let ghost pre = out@;
            let lablen = lab.len();
            let mut k: usize = 0;
            while k < lablen
                invariant
                    k <= lablen,
                    lablen == lab@.len(),
                    out@ == pre + lab@.take(k as int),
                decreases lablen - k,
            {
                let byte: u8 = lab[k];
                out.push(byte);
                proof {
                    assert(lab@.take(k + 1) =~= lab@.take(k as int).push(lab@[k as int]));
                }
                k = k + 1;
            }
            out.push(46);
            proof {
                assert(lab@.take(lablen as int) =~= lab@);
                assert(self@.skip(i as int).skip(1) =~= self@.skip(i + 1));
                assert(dotted(self@.skip(i as int)) == lab@ + seq![46u8] + dotted(
                    self@.skip(i + 1),
                ));
                assert(out@ + dotted(self@.skip(i + 1)) =~= pre + dotted(self@.skip(i as int)));
            }
            i = i + 1;
        }
        proof {
            assert(self@.skip(nl as int) =~= Seq::<Seq<u8>>::empty());
            assert(out@ + dotted(Seq::<Seq<u8>>::empty()) =~= out@);
        }
        out
    }

    /// The textual rendering as a string, e.g. `www.example.com.`; the
    /// empty name renders as `.`.
    pub fn to_display_string(&self) -> (r: String)
        requires
            self.wf(),
        ensures
            r@ == utf8_chars(display_of(self@)),
    {
        let b = self.display_bytes();
        proof {
            if self@.len() == 0 {
                assert(seq![46u8].skip(1) =~= Seq::<u8>::empty());
                assert(is_utf8(Seq::<u8>::empty()));
                assert(is_utf8(seq![46u8]));
            } else {
                lemma_dotted_utf8(self@);
            }
        }
        utf8_to_string(b)
    }
}

fn bytes_eq(a: &Vec<u8>, b: &Vec<u8>) -> (r: bool)
    ensures
        r == (a@ == b@),
{
    let n = a.len();
    if n != b.len() {
        return false;
    }
    let mut i: usize = 0;
    while i < n
        invariant
            i <= n,
            n == a@.len(),
            n == b@.len(),
            forall|j: int| 0 <= j < i ==> a@[j] == b@[j],
        decreases n - i,
    {
        if a[i] != b[i] {
            return false;
        }
        i = i + 1;
    }
    proof {
        assert(a@ =~= b@);
    }
    true
}

impl PartialEq for Name {
    /// Names are equal when they hold the same labels in the same order.
    fn eq(&self, other: &Name) -> (r: bool) {
        let n = self.labels.len();
        proof {
            assert(self@.len() == self.labels@.len());
            assert(other@.len() == other.labels@.len());
        }
        if n != other.labels.len() {
            return false;
        }
        let mut i: usize = 0;
        while i < n
            invariant
                i <= n,
                n == self.labels.len(),
                n == other.labels.len(),
                forall|j: int| 0 <= j < i ==> self@[j] == other@[j],
            decreases n - i,
        {
            if !bytes_eq(&self.labels[i], &other.labels[i]) {
                proof {
                    assert(self@[i as int] != other@[i as int]);
                }
                return false;
            }
            i = i + 1;
        }
        proof {
            assert(self@ =~= other@);
        }
        true
    }
}

impl vstd::std_specs::cmp::PartialEqSpecImpl for Name {
    open spec fn obeys_eq_spec() -> bool {
        true
    }

    open spec fn eq_spec(&self, other: &Name) -> bool {
        self@ == other@
    }
}

/// The dot-joined rendering of well-formed text labels is itself
/// well-formed text.
pub proof fn lemma_dotted_utf8(ls: Seq<Seq<u8>>)
    requires
        forall|i: int| 0 <= i < ls.len() ==> is_utf8(#[trigger] ls[i]),
    ensures
        is_utf8(dotted(ls)),
    decreases ls.len(),
{
    if ls.len() == 0 {
    } else {
        lemma_dotted_utf8(ls.skip(1));
        assert(seq![46u8].skip(1) =~= Seq::<u8>::empty());
        assert(is_utf8(Seq::<u8>::empty()));
        assert(is_utf8(seq![46u8]));
        assert(is_utf8(ls[0]));
        lemma_utf8_concat(ls[0], seq![46u8]);
        lemma_utf8_concat(ls[0] + seq![46u8], dotted(ls.skip(1)));
    }
}

} // verus!
