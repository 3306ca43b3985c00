//! Text in columns: repeating, padding and centring.

use vstd::prelude::*;
use vstd::string::{StrSliceExecFns, StringExecFns};

verus! {

/// The text `unit` repeated `n` times.
pub open spec fn repeated_text(unit: Seq<char>, n: nat) -> Seq<char>
    decreases n,
{
    if n == 0 {
        Seq::empty()
    } else {
        repeated_text(unit, (n - 1) as nat) + unit
    }
}

/// How much `text` lacks of `width` characters.
pub open spec fn padding(text: Seq<char>, width: nat) -> nat {
    if text.len() >= width {
        0
    } else {
        (width - text.len()) as nat
    }
}

/// `text` at the right of a column `width` wide, behind copies of `fill`.
pub open spec fn right_aligned(text: Seq<char>, width: nat, fill: Seq<char>) -> Seq<char> {
    repeated_text(fill, padding(text, width)) + text
}

/// `text` at the left of a column `width` wide, before copies of `fill`.
pub open spec fn left_aligned(text: Seq<char>, width: nat, fill: Seq<char>) -> Seq<char> {
    text + repeated_text(fill, padding(text, width))
}

/// `text` in the middle of a column `width` wide, between copies of `fill`;
/// where the padding is odd, the larger part stands behind the text.
pub open spec fn centred(text: Seq<char>, width: nat, fill: Seq<char>) -> Seq<char> {
    let pad = padding(text, width);
    repeated_text(fill, pad / 2) + text + repeated_text(fill, (pad - pad / 2) as nat)
}

/// The first `n` of the texts `parts`, one behind the other.
pub open spec fn chained(parts: Seq<Seq<char>>, n: nat) -> Seq<char>
    decreases n,
{
    if n == 0 {
        Seq::empty()
    } else {
        chained(parts, (n - 1) as nat) + parts[n - 1]
    }
}

/// The first `n` of the texts `parts` with `separator` between them.
pub open spec fn joined(parts: Seq<Seq<char>>, n: nat, separator: Seq<char>) -> Seq<char>
    decreases n,
{
    if n == 0 {
        Seq::empty()
    } else if n == 1 {
        parts[0]
    } else {
        joined(parts, (n - 1) as nat, separator) + separator + parts[n - 1]
    }
}

/// The text `unit` repeated `n` times.
pub fn repeat(unit: &str, n: usize) -> (r: String)
    ensures
        r@ == repeated_text(unit@, n as nat),
{
    let mut out = String::new();
    let mut i: usize = 0;
    assert(out@ =~= repeated_text(unit@, 0));
    while i < n
        invariant
            i <= n,
            out@ == repeated_text(unit@, i as nat),
        decreases n - i,
    {
        out.append(unit);
        i += 1;
    }
    out
}

/// How much `text` lacks of `width` characters.
fn padding_of(text: &str, width: usize) -> (r: usize)
    ensures
        r == padding(text@, width as nat),
{
    let count = text.unicode_len();
    if count >= width {
        0
    } else {
        width - count
    }
}

/// `text` at the right of a column `width` wide, behind copies of `fill`.
pub fn align_right(text: &str, width: usize, fill: &str) -> (r: String)
    ensures
        r@ == right_aligned(text@, width as nat, fill@),
{
    repeat(fill, padding_of(text, width)).concat(text)
}

/// `text` at the left of a column `width` wide, before copies of `fill`.
pub fn align_left(text: &str, width: usize, fill: &str) -> (r: String)
    ensures
        r@ == left_aligned(text@, width as nat, fill@),
{
    let tail = repeat(fill, padding_of(text, width));
    String::from_str(text).concat(tail.as_str())
}

/// `text` in the middle of a column `width` wide, between copies of `fill`.
pub fn centre(text: &str, width: usize, fill: &str) -> (r: String)
    ensures
        r@ == centred(text@, width as nat, fill@),
{
    let pad = padding_of(text, width);
    let tail = repeat(fill, pad - pad / 2);
    repeat(fill, pad / 2).concat(text).concat(tail.as_str())
}

} // verus!
