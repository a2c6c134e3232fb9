//! A specification of well-formed UTF-8 byte sequences and a verified
//! checker for it.  Label bytes must decode as text, so the codec needs an
//! exact, executable account of which byte sequences qualify.

use vstd::prelude::*;

verus! {

/// A continuation byte: `10xxxxxx`.
pub open spec fn is_cont(b: u8) -> bool {
    b & 0xC0 == 0x80
}

/// Well-formed UTF-8: a sequence of one- to four-byte scalar encodings,
/// excluding overlong forms, surrogate code points and values above
/// U+10FFFF.
pub open spec fn is_utf8(s: Seq<u8>) -> bool
    decreases s.len(),
{
    if s.len() == 0 {
        true
    } else {
        let b0 = s[0];
        if b0 < 0x80 {
            is_utf8(s.skip(1))
        } else if b0 < 0xC2 {
            false
        } else if b0 < 0xE0 {
            s.len() >= 2 && is_cont(s[1]) && is_utf8(s.skip(2))
        } else if b0 < 0xF0 {
            s.len() >= 3 && is_cont(s[1]) && is_cont(s[2]) && !(b0 == 0xE0 && s[1] < 0xA0)
                && !(b0 == 0xED && s[1] >= 0xA0) && is_utf8(s.skip(3))
        } else if b0 < 0xF5 {
            s.len() >= 4 && is_cont(s[1]) && is_cont(s[2]) && is_cont(s[3]) && !(b0 == 0xF0
                && s[1] < 0x90) && !(b0 == 0xF4 && s[1] >= 0x90) && is_utf8(s.skip(4))
        } else {
            false
        }
    }
}

/// Decides `is_utf8` for a byte slice.
pub fn check_utf8(v: &[u8]) -> (r: bool)
    ensures
        r == is_utf8(v@),
{
    let n = v.len();
    let mut i: usize = 0;
    proof {
        assert(v@.skip(0) =~= v@);
    }
    while i < n
        invariant
            i <= n,
            n == v@.len(),
            is_utf8(v@) == is_utf8(v@.skip(i as int)),
        decreases n - i,
    {
        let b0 = v[i];
        let rest = n - i;
        if b0 < 0x80 {
            proof {
                assert(v@.skip(i as int).skip(1) =~= v@.skip(i + 1));
            }
            i = i + 1;
        } else if b0 < 0xC2 {
            return false;
        } else if b0 < 0xE0 {
            if rest < 2 || !(v[i + 1] & 0xC0 == 0x80) {
                return false;
            }
            proof {
                assert(v@.skip(i as int).skip(2) =~= v@.skip(i + 2));
            }
            i = i + 2;
        } else if b0 < 0xF0 {
            if rest < 3 || !(v[i + 1] & 0xC0 == 0x80) || !(v[i + 2] & 0xC0 == 0x80) {
                return false;
            }
            if b0 == 0xE0 && v[i + 1] < 0xA0 {
                return false;
            }
            if b0 == 0xED && v[i + 1] >= 0xA0 {
                return false;
            }
            proof {
                assert(v@.skip(i as int).skip(3) =~= v@.skip(i + 3));
            }
            i = i + 3;
        } else if b0 < 0xF5 {
            if rest < 4 || !(v[i + 1] & 0xC0 == 0x80) || !(v[i + 2] & 0xC0 == 0x80) || !(v[i + 3]
                & 0xC0 == 0x80) {
                return false;
            }
            if b0 == 0xF0 && v[i + 1] < 0x90 {
                return false;
            }
            if b0 == 0xF4 && v[i + 1] >= 0x90 {
                return false;
            }
            proof {
                assert(v@.skip(i as int).skip(4) =~= v@.skip(i + 4));
            }
            i = i + 4;
        } else {
            return false;
        }
    }
    proof {
        assert(v@.skip(n as int) =~= Seq::<u8>::empty());
    }
    true
}

/// Well-formedness of UTF-8 is closed under concatenation.
pub proof fn lemma_utf8_concat(a: Seq<u8>, b: Seq<u8>)
    requires
        is_utf8(a),
        is_utf8(b),
    ensures
        is_utf8(a + b),
    decreases a.len(),
{
    if a.len() == 0 {
        assert(a + b =~= b);
    } else {
        let c = a + b;
        let b0 = a[0];
        if b0 < 0x80 {
            lemma_utf8_concat(a.skip(1), b);
            assert(c.skip(1) =~= a.skip(1) + b);
        } else if b0 < 0xE0 {
            lemma_utf8_concat(a.skip(2), b);
            assert(c.skip(2) =~= a.skip(2) + b);
        } else if b0 < 0xF0 {
            lemma_utf8_concat(a.skip(3), b);
            assert(c.skip(3) =~= a.skip(3) + b);
        } else {
            lemma_utf8_concat(a.skip(4), b);
            assert(c.skip(4) =~= a.skip(4) + b);
        }
    }
}

} // verus!
