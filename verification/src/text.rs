//! A small verified helper: string equality by UTF-8 bytes.

use vstd::prelude::*;
use vstd::string::StringSliceAdditionalSpecFns;

verus! {

/// Byte-for-byte equality of two string slices; equal bytes mean equal
/// character sequences, because UTF-8 encoding is injective.
pub fn str_eq(a: &str, b: &str) -> (r: bool)
    ensures
        r == (a@ == b@),
{
    let ab = a.as_bytes();
    let bb = b.as_bytes();
    let na = ab.len();
    let nb = bb.len();
    if na != nb {
        proof {
            assert(a@ != b@) by {
                if a@ == b@ {
                    assert(a.spec_bytes() == b.spec_bytes());
                }
            }
        }
        return false;
    }
    let mut i: usize = 0;
    while i < na
        invariant
            na == nb,
            na == ab@.len(),
            nb == bb@.len(),
            ab@ == a.spec_bytes(),
            bb@ == b.spec_bytes(),
            forall|j: int| 0 <= j < i ==> ab@[j] == bb@[j],
        decreases na - i,
    {
        if ab[i] != bb[i] {
            proof {
                assert(a@ != b@) by {
                    if a@ == b@ {
                        assert(a.spec_bytes() == b.spec_bytes());
                    }
                }
            }
            return false;
        }
        i = i + 1;
    }
    proof {
        assert(a.spec_bytes() =~= b.spec_bytes());
        vstd::utf8::encode_utf8_decode_utf8(a@);
        vstd::utf8::encode_utf8_decode_utf8(b@);
        assert(a@ == b@);
    }
    true
}

} // verus!
