//! Renaming of path segments by environment when resolved spaces are
//! written out.
use vstd::prelude::*;

use crate::text::push_char;

verus! {

/// Whether `segment` starts with `from`.
pub fn needs_substitution(segment: &str, from: &str) -> (r: bool)
    ensures
        r == from@.is_prefix_of(segment@),
{
    let n = from.unicode_len();
    let m = segment.unicode_len();
    if n > m {
        return false;
    }
    let mut i: usize = 0;
    while i < n
        invariant
            n == from@.len(),
            m == segment@.len(),
            n <= m,
            i <= n,
            forall|k: int| 0 <= k < i ==> from@[k] == segment@[k],
        decreases n - i,
    {
        if from.get_char(i) != segment.get_char(i) {
            return false;
        }
        i += 1;
    }
    true
}

/// `segment` with its leading `from` replaced by `to`; `segment` itself
/// when it does not start with `from`.
pub fn substitute_path_segment(segment: &str, from: &str, to: &str) -> (r: String)
    ensures
        r@ == if from@.is_prefix_of(segment@) {
            to@ + segment@.subrange(from@.len() as int, segment@.len() as int)
        } else {
            segment@
        },
{
    let mut r = String::new();
    if needs_substitution(segment, from) {
        let ghost before = r@;
        r.append(to);
        let n = from.unicode_len();
        let m = segment.unicode_len();
        let mut i: usize = n;
        while i < m
            invariant
                n == from@.len(),
                m == segment@.len(),
                n <= i <= m,
                r@ == to@ + segment@.subrange(n as int, i as int),
            decreases m - i,
        {
            push_char(&mut r, segment.get_char(i));
            proof {
                assert(r@ =~= to@ + segment@.subrange(n as int, i + 1));
            }
            i += 1;
        }
        r
    } else {
        r.append(segment);
        r
    }
}

} // verus!
