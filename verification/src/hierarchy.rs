//! Address utilities: depth in the subdivision hierarchy and a readable
//! path rendering.

use vstd::prelude::*;
use vstd::string::StringExecFns;
use crate::block::u64_digits;
use crate::subdivision::FractalAddress;

verus! {

/// The digit path written in decimal, the entries joined by dashes.
pub open spec fn position_chars(a: Seq<u8>) -> Seq<char>
    decreases a.len(),
{
    if a.len() == 0 {
        Seq::empty()
    } else if a.len() == 1 {
        u64_digits(a[0] as nat)
    } else {
        position_chars(a.drop_last()) + seq!['-'] + u64_digits(a.last() as nat)
    }
}

/// The subdivision depth an address reaches: its number of digits.
pub fn fractal_depth(address: &FractalAddress) -> (r: usize)
    ensures
        r == address@.len(),
{
    address.0.len()
}

/// The address as a dash-separated decimal path.
pub fn fractal_position(address: &FractalAddress) -> (r: String)
    ensures
        r@ == position_chars(address@),
{
    proof {
        reveal_strlit("-");
    }
    let mut s = String::new();
    let mut i: usize = 0;
    while i < address.0.len()
        invariant
            i <= address.0.len(),
            s@ == position_chars(address@.subrange(0, i as int)),
        decreases address.0.len() - i,
    {
        if i > 0 {
            s.append("-");
            proof {
                reveal_strlit("-");
            }
        }
        let d = crate::block::u64_to_string(address.0[i] as u64);
        s.append(d.as_str());
        proof {
            let cur = address@.subrange(0, i + 1);
            assert(cur.drop_last() =~= address@.subrange(0, i as int));
            assert(cur.last() == address@[i as int]);
            assert(s@ =~= position_chars(cur));
        }
        i = i + 1;
    }
    proof {
        assert(address@.subrange(0, address@.len() as int) =~= address@);
    }
    s
}

} // verus!
