//! Small verified helpers for ASCII text.

use vstd::prelude::*;
use vstd::string::{StrSliceExecFns, StringSliceAdditionalSpecFns};

verus! {

/// Relies on `String::push_str`: appends the string slice to the string.
pub assume_specification[ String::push_str ](s: &mut String, other: &str)
    ensures
        final(s)@ == old(s)@ + other@,
;

/// Whether the views of `a` and `b` are the same character sequence;
/// `b` must be ASCII (`a` may be anything).
pub fn eq_str(a: &str, b: &str) -> (r: bool)
    requires
        b.is_ascii(),
    ensures
        r == (a@ == b@),
{
    if !a.is_ascii() {
        proof {
            broadcast use vstd::utf8::is_ascii_chars_nat_bound;

            if a@ == b@ {
                assert(vstd::string::is_ascii(a));
            }
        }
        return false;
    }
    let n = a.unicode_len();
    if n != b.unicode_len() {
        return false;
    }
    let mut i: usize = 0;
    while i < n
        invariant
            a.is_ascii(),
            b.is_ascii(),
            n == a@.len(),
            n == b@.len(),
            0 <= i <= n,
            forall|j: int| 0 <= j < i ==> a@[j] == b@[j],
        decreases n - i,
    {
        let ca = a.get_ascii(i);
        let cb = b.get_ascii(i);
        if ca != cb {
            proof {
                assert(a@[i as int] != b@[i as int]) by {
                    vstd::utf8::is_ascii_chars_nat_bound(a@);
                    vstd::utf8::is_ascii_chars_nat_bound(b@);
                }
                if a@ == b@ {
                    assert(a@[i as int] == b@[i as int]);
                }
            }
            return false;
        }
        proof {
            vstd::utf8::is_ascii_chars_nat_bound(a@);
            vstd::utf8::is_ascii_chars_nat_bound(b@);
            assert((a@[i as int] as nat) < 128 && (b@[i as int] as nat) < 128);
            assert(a@[i as int] == b@[i as int]) by {
                assert(a@[i as int] as u8 == b@[i as int] as u8);
            }
        }
        i = i + 1;
    }
    proof {
        assert(a@ =~= b@);
    }
    true
}

} // verus!
