//! Building the text of step descriptions and labels.

use vstd::prelude::*;
use vstd::string::StringExecFns;

verus! {

/// The decimal digit for `d`, which lies in 0..10.
pub open spec fn digit_char(d: int) -> char {
    if d == 0 { '0' } else if d == 1 { '1' } else if d == 2 { '2' } else if d == 3 { '3' }
    else if d == 4 { '4' } else if d == 5 { '5' } else if d == 6 { '6' } else if d == 7 { '7' }
    else if d == 8 { '8' } else { '9' }
}

/// The base-ten digits of a natural number, most significant first.
pub open spec fn digits(n: nat) -> Seq<char>
    decreases n,
{
    if n < 10 {
        seq![digit_char(n as int)]
    } else {
        digits(n / 10).push(digit_char((n % 10) as int))
    }
}

/// The decimal text of an integer, with a leading `-` when it is negative.
pub open spec fn decimal(v: int) -> Seq<char> {
    if v < 0 { seq!['-'] + digits((-v) as nat) } else { digits(v as nat) }
}

/// Relies on `i64`'s `Display` (through `to_string`): base ten, a `-` before a
/// negative number, no leading zeros.
#[verifier::external_body]
pub(crate) fn int_text(v: i64) -> (r: String)
    ensures
        r@ == decimal(v as int),
{
    v.to_string()
}

/// Relies on `usize`'s `Display` (through `to_string`): base ten, no leading
/// zeros.
#[verifier::external_body]
pub(crate) fn index_text(v: usize) -> (r: String)
    ensures
        r@ == decimal(v as int),
{
    v.to_string()
}

/// The concatenation of the views of `parts`.
pub open spec fn joined(parts: Seq<String>) -> Seq<char> {
    parts.map_values(|s: String| s@).flatten()
}

/// The parts one after another.
pub(crate) fn join(parts: &Vec<String>) -> (r: String)
    ensures
        r@ == joined(parts@),
{
    let mut r = String::new();
    let mut i: usize = 0;
    while i < parts.len()
        invariant
            i <= parts@.len(),
            r@ == joined(parts@.take(i as int)),
        decreases parts@.len() - i,
    {
        proof {
            let q = parts@.take(i as int + 1);
            assert(q =~= parts@.take(i as int).push(parts@[i as int]));
            assert(q.map_values(|s: String| s@) =~= parts@.take(i as int).map_values(|s: String| s@).push(parts@[i as int]@));
            parts@.take(i as int).map_values(|s: String| s@).lemma_flatten_push(parts@[i as int]@);
        }
        r.append(parts[i].as_str());
        i = i + 1;
    }
    assert(parts@.take(parts@.len() as int) =~= parts@);
    r
}

/// An owned copy of a string slice.
pub(crate) fn lit(s: &str) -> (r: String)
    ensures
        r@ == s@,
{
    s.to_owned()
}

} // verus!
