//! Character-level string helpers: equality, ASCII case folding, and the
//! decimal rendering of integers, all stated over `Seq<char>` views.
use vstd::prelude::*;
use vstd::string::StrSliceExecFns;

verus! {

/// The ASCII upper-case image of one character: letters `a` through `z`
/// move to `A` through `Z`, every other character is unchanged.
pub open spec fn upper_char(c: char) -> char {
    if 97 <= c as u32 && c as u32 <= 122 {
        ((c as u32) - 32) as char
    } else {
        c
    }
}

/// The ASCII upper-case image of a character sequence.
pub open spec fn upper_seq(s: Seq<char>) -> Seq<char> {
    s.map_values(|c: char| upper_char(c))
}

/// ASCII upper-casing changes nothing the second time around.
pub proof fn lemma_upper_seq_idempotent(s: Seq<char>)
    ensures
        upper_seq(upper_seq(s)) == upper_seq(s),
{
    assert forall|i: int| 0 <= i < s.len() implies upper_seq(upper_seq(s))[i] == upper_seq(s)[i] by {
        assert(upper_seq(s)[i] == upper_char(s[i]));
    }
    assert(upper_seq(upper_seq(s)) =~= upper_seq(s));
}

/// Character-by-character string comparison, so that equality of the two
/// views is decided without trusting any outside code.
pub fn str_eq(a: &str, b: &str) -> (r: bool)
    ensures
        r == (a@ == b@),
{
    let alen = a.unicode_len();
    let blen = b.unicode_len();
    if alen != blen {
        return false;
    }
    let mut i: usize = 0;
    while i < alen
        invariant
            alen == a@.len(),
            alen == b@.len(),
            i <= alen,
            forall|k: int| 0 <= k < i ==> a@[k] == b@[k],
        decreases alen - i,
    {
        if a.get_char(i) != b.get_char(i) {
            return false;
        }
        i = i + 1;
    }
    proof {
        assert(a@ =~= b@);
    }
    true
}

/// Relies on str::to_ascii_uppercase: each character that is an ASCII
/// lower-case letter is replaced by its upper-case equivalent, and all
/// other characters are kept as they are.
#[verifier::external_body]
pub fn to_ascii_upper(s: &str) -> (r: String)
    ensures
        r@ == upper_seq(s@),
{
    s.to_ascii_uppercase()
}

/// The decimal digit character for a value below ten.
pub open spec fn dec_digit(d: u64) -> char
    recommends
        d < 10,
{
    ((d + 48) as u32) as char
}

/// The decimal rendering of an unsigned integer, most significant digit
/// first, with no leading zeros (a lone `0` for zero).
pub open spec fn dec_str(n: u64) -> Seq<char>
    decreases n,
{
    if n < 10 {
        seq![dec_digit(n)]
    } else {
        dec_str(n / 10).push(dec_digit(n % 10))
    }
}

/// Relies on u64's Display implementation through ToString: the decimal
/// digits of the value, most significant first, without leading zeros.
#[verifier::external_body]
pub fn u64_to_string(n: u64) -> (r: String)
    ensures
        r@ == dec_str(n),
{
    n.to_string()
}

} // verus!
