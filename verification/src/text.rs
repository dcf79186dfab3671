//! Character-level helpers shared by the codec and the tag index: pushing
//! characters into strings and buffers, decimal digits, and splitting facts
//! about character sequences.

use vstd::prelude::*;
use vstd::string::StrSliceExecFns;

verus! {

/// Relies on `String::push`: appends exactly the given character.
#[verifier::external_body]
pub fn push_char(s: &mut String, c: char)
    ensures
        final(s)@ == old(s)@.push(c),
{
    s.push(c);
}

/// Appends every character of `src` to the character buffer `out`.
pub fn push_str_chars(out: &mut Vec<char>, src: &str)
    ensures
        final(out)@ == old(out)@ + src@,
{
    let n = src.unicode_len();
    let mut k: usize = 0;
    while k < n
        invariant
            n == src@.len(),
            k <= n,
            out@ == old(out)@ + src@.subrange(0, k as int),
        decreases n - k,
    {
        let c = src.get_char(k);
        out.push(c);
        proof {
            assert(old(out)@ + src@.subrange(0, k + 1) =~= (old(out)@ + src@.subrange(
                0,
                k as int,
            )).push(src@[k as int]));
        }
        k += 1;
    }
    proof {
        assert(src@.subrange(0, n as int) =~= src@);
    }
}

/// `c` is a decimal digit.
pub open spec fn is_digit(c: char) -> bool {
    48 <= c as u32 <= 57
}

/// The digit character for a value below ten.
pub open spec fn spec_digit_char(d: int) -> char {
    ((48 + d) as u8) as char
}

/// The numeric value of a digit character.
pub open spec fn digit_val(c: char) -> int {
    c as u32 - 48
}

pub fn is_digit_char(c: char) -> (b: bool)
    ensures
        b == is_digit(c),
{
    let u = c as u32;
    48 <= u && u <= 57
}

pub fn digit_to_char(d: u32) -> (c: char)
    requires
        d < 10,
    ensures
        c == spec_digit_char(d as int),
{
    let b: u8 = 48 + (d as u8);
    b as char
}

pub fn char_digit_val(c: char) -> (d: u32)
    requires
        is_digit(c),
    ensures
        d == digit_val(c),
        d < 10,
{
    (c as u32) - 48
}

/// A digit character is the rendering of its own value.
pub proof fn lemma_digit_char_inverse(c: char)
    requires
        is_digit(c),
    ensures
        spec_digit_char(digit_val(c)) == c,
{
    vstd::utf8::char_u32_cast(c, c as u32);
}

pub proof fn lemma_digit_char_val(d: int)
    requires
        0 <= d < 10,
    ensures
        is_digit(spec_digit_char(d)),
        digit_val(spec_digit_char(d)) == d,
{
}

/// A sequence that continues with `a + b` at `i` continues with `a` at `i`
/// and with `b` right after it.
pub proof fn lemma_skip_split(s: Seq<char>, i: int, a: Seq<char>, b: Seq<char>)
    requires
        0 <= i <= s.len(),
        s.skip(i) == a + b,
    ensures
        i + a.len() <= s.len(),
        s.subrange(i, i + a.len()) == a,
        s.skip(i + a.len()) == b,
{
    assert(s.skip(i).len() == s.len() - i);
    assert(s.subrange(i, i + a.len()) =~= a) by {
        assert(forall|k: int|
            0 <= k < a.len() ==> s.subrange(i, i + a.len())[k] == #[trigger] (a + b)[k]);
    }
    assert(s.skip(i + a.len()) =~= b) by {
        assert forall|k: int| 0 <= k < b.len() implies s.skip(i + a.len())[k] == b[k] by {
            assert(s.skip(i + a.len())[k] == s[i + a.len() + k]);
            assert(s.skip(i)[a.len() + k] == s[i + a.len() + k]);
            assert((a + b)[a.len() + k] == b[k]);
        }
    }
}

/// Adjacent subranges join into one.
pub proof fn lemma_subrange_join(s: Seq<char>, i: int, j: int, k: int)
    requires
        0 <= i <= j <= k <= s.len(),
    ensures
        s.subrange(i, k) == s.subrange(i, j) + s.subrange(j, k),
{
    assert(s.subrange(i, k) =~= s.subrange(i, j) + s.subrange(j, k));
}

/// Two strings hold the same characters.
pub fn str_eq(a: &str, b: &str) -> (r: bool)
    ensures
        r == (a@ == b@),
{
    let n = a.unicode_len();
    let m = b.unicode_len();
    if n != m {
        return false;
    }
    let mut k: usize = 0;
    while k < n
        invariant
            n == a@.len() == b@.len(),
            k <= n,
            forall|t: int| 0 <= t < k ==> a@[t] == b@[t],
        decreases n - k,
    {
        if a.get_char(k) != b.get_char(k) {
            return false;
        }
        k += 1;
    }
    proof {
        assert(a@ =~= b@);
    }
    true
}

} // verus!
