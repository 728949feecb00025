//! Character-level operations on string slices.

use vstd::prelude::*;
use vstd::std_specs::iter::IteratorSpec;

verus! {

broadcast use vstd::string::group_string_axioms;

/// Whether `input` begins with the characters of `lit`. Both are walked once,
/// side by side.
pub fn starts_with(input: &str, lit: &str) -> (b: bool)
    ensures
        b == lit@.is_prefix_of(input@),
{
    let mut want = lit.chars();
    let mut have = input.chars();
    let ghost mut k: int = 0;
    assert(lit@.skip(0) =~= lit@);
    assert(input@.skip(0) =~= input@);
    loop
        invariant
            0 <= k <= lit@.len(),
            k <= input@.len(),
            want.remaining() == lit@.skip(k),
            have.remaining() == input@.skip(k),
            forall|j: int| 0 <= j < k ==> lit@[j] == input@[j],
        decreases lit@.len() - k,
    {
        match want.next() {
            None => {
                assert(lit@ =~= input@.subrange(0, lit@.len() as int));
                return true;
            },
            Some(c) => match have.next() {
                None => {
                    return false;
                },
                Some(d) => {
                    if c != d {
                        proof {
                            if lit@.len() <= input@.len() {
                                assert(lit@[k] != input@.subrange(0, lit@.len() as int)[k]);
                            }
                        }
                        return false;
                    }
                },
            },
        }
        proof {
            assert(lit@.skip(k).drop_first() =~= lit@.skip(k + 1));
            assert(input@.skip(k).drop_first() =~= input@.skip(k + 1));
            k = k + 1;
        }
    }
}

/// The input without its first `n` characters.
pub fn skip_chars<'a>(input: &'a str, n: usize) -> (rest: &'a str)
    requires
        n <= input@.len(),
    ensures
        rest@ == input@.skip(n as int),
{
    let m: usize = input.unicode_len();
    input.substring_char(n, m)
}

/// The first `n` characters of the input.
pub fn take_chars<'a>(input: &'a str, n: usize) -> (head: &'a str)
    requires
        n <= input@.len(),
    ensures
        head@ == input@.take(n as int),
{
    input.substring_char(0, n)
}

/// Whether two slices hold the same characters.
pub fn same_text(a: &str, b: &str) -> (r: bool)
    ensures
        r == (a@ == b@),
{
    let n: usize = a.unicode_len();
    let m: usize = b.unicode_len();
    if n != m {
        return false;
    }
    let r = starts_with(a, b);
    proof {
        if r {
            assert(a@ =~= b@);
        }
    }
    r
}

} // verus!
