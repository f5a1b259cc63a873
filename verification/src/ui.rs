//! Display helpers for the presentation layer.

use vstd::prelude::*;

use crate::text::{chars_of, chars_to_string};

verus! {

/// An identifier cut down for display: its first 12 characters.
pub open spec fn spec_short_id(s: Seq<char>) -> Seq<char> {
    if s.len() > 12 {
        s.take(12)
    } else {
        s
    }
}

/// Shorten an id for display, keeping at most its first 12 characters.
pub fn short_id(id: &str) -> (r: String)
    ensures
        r@ == spec_short_id(id@),
{
    let v = chars_of(id);
    if v.len() > 12 {
        let mut out: Vec<char> = Vec::new();
        let mut i: usize = 0;
        while i < 12
            invariant
                v@.len() > 12,
                v@ == id@,
                0 <= i <= 12,
                out@ == v@.take(i as int),
            decreases 12 - i,
        {
            let c = v[i];
            out.push(c);
            proof {
                assert(v@.take(i + 1) =~= v@.take(i as int).push(v@[i as int]));
            }
            i = i + 1;
        }
        chars_to_string(&out)
    } else {
        id.to_owned()
    }
}

} // verus!
