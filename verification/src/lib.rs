use vstd::prelude::*;

pub mod config;
pub mod lifecycle;
pub mod system_id;

verus! {

/// Renders a natural number as decimal text, most significant digit first.
pub open spec fn dec_of(n: nat) -> Seq<char>
    decreases n,
{
    if n < 10 {
        seq![((48 + n) as u8) as char]
    } else {
        dec_of(n / 10) + seq![((48 + n % 10) as u8) as char]
    }
}

/// Canonical decimal rendering of a 64-bit integer; the fixed numeric
/// encoding used for descriptor fields.
pub fn u64_to_decimal(n: u64) -> (r: String)
    ensures
        r@ == dec_of(n as nat),
    decreases n,
{
    if n < 10 {
        let mut s = String::new();
        string_push(&mut s, (48 + n as u8) as char);
        s
    } else {
        let mut s = u64_to_decimal(n / 10);
        string_push(&mut s, (48 + (n % 10) as u8) as char);
        s
    }
}

/// Relies on String::push: appends the given char to the end of the string.
#[verifier::external_body]
pub(crate) fn string_push(s: &mut String, c: char)
    ensures
        final(s)@ == old(s)@ + seq![c],
{
    s.push(c)
}

} // verus!
