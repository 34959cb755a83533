//! Exact comparisons on protocol identifier strings.

use vstd::prelude::*;
use vstd::std_specs::iter::IteratorSpec;

verus! {

broadcast use {vstd::string::axiom_spec_iter, vstd::string::next_postcondition};

/// Whether `s` begins with `prefix`, compared character by character.
pub fn str_starts_with(s: &str, prefix: &str) -> (r: bool)
    ensures
        r == (prefix@.len() <= s@.len() && s@.subrange(0, prefix@.len() as int) == prefix@),
{
    let mut si = s.chars();
    let mut pi = prefix.chars();
    let ghost mut k: int = 0;
    loop
        invariant
            0 <= k <= prefix@.len(),
            k <= s@.len(),
            si.remaining() == s@.skip(k),
            pi.remaining() == prefix@.skip(k),
            s@.subrange(0, k) == prefix@.subrange(0, k),
        decreases prefix@.len() - k,
    {
        let ghost prev_s = si.remaining();
        let ghost prev_p = pi.remaining();
        match pi.next() {
            None => {
                assert(prefix@.subrange(0, k) =~= prefix@);
                return true;
            },
            Some(pc) => {
                assert(prev_p.len() > 0);
                match si.next() {
                    None => {
                        return false;
                    },
                    Some(sc) => {
                        if sc != pc {
                            assert(s@[k] == sc && prefix@[k] == pc);
                            proof {
                                if prefix@.len() <= s@.len() {
                                    assert(s@.subrange(0, prefix@.len() as int)[k] == sc);
                                }
                            }
                            return false;
                        }
                        proof {
                            assert(s@.subrange(0, k + 1) =~= s@.subrange(0, k).push(sc));
                            assert(prefix@.subrange(0, k + 1) =~= prefix@.subrange(0, k).push(pc));
                            assert(si.remaining() =~= s@.skip(k + 1));
                            assert(pi.remaining() =~= prefix@.skip(k + 1));
                            k = k + 1;
                        }
                    },
                }
            },
        }
    }
}

/// Whether two strings hold the same characters.
pub fn str_equals(a: &str, b: &str) -> (r: bool)
    ensures
        r == (a@ == b@),
{
    let ab = str_starts_with(a, b);
    let ba = str_starts_with(b, a);
    proof {
        if ab && ba {
            assert(a@ =~= b@);
        }
        if a@ == b@ {
            assert(a@.subrange(0, b@.len() as int) =~= b@);
            assert(b@.subrange(0, a@.len() as int) =~= a@);
        }
    }
    ab && ba
}

} // verus!
