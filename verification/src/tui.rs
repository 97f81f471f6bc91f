//! Prompt strings for collecting one grade per course component.  The grade
//! prompts are width-aligned on the longest component title and show the
//! allowed percentage range for the active weighting mode.
use vstd::prelude::*;

use crate::fmt::spec_dec;

verus! {

/// A run of `n` spaces.
pub open spec fn spaces(n: nat) -> Seq<char>
    decreases n,
{
    if n == 0 {
        Seq::<char>::empty()
    } else {
        spaces((n - 1) as nat).push(' ')
    }
}

/// `s` padded on the left with spaces to at least `width` characters.
pub open spec fn pad_left(s: Seq<char>, width: nat) -> Seq<char> {
    if s.len() >= width {
        s
    } else {
        spaces((width - s.len()) as nat) + s
    }
}

/// The prompt for a component graded on the full percentage range.
pub open spec fn spec_prompt_pre(width: nat, title: Seq<char>) -> Seq<char> {
    "Enter grade for: "@ + pad_left(title, width) + " [0-100%]: "@
}

/// The prompt for a component graded by its weighted share, `value` percent.
pub open spec fn spec_prompt_post(width: nat, title: Seq<char>, value: u8) -> Seq<char> {
    "Enter grade for: "@ + pad_left(title, width) + " [0-"@ + pad_left(spec_dec(value as int), 2)
        + "%]: "@
}

/// Pad a string on the left with spaces to at least `width` characters.
fn pad_to(s: &str, width: usize) -> (r: String)
    ensures
        r@ == pad_left(s@, width as nat),
{
    let n = s.unicode_len();
    let mut r = String::new();
    if n >= width {
        r.append(s);
        return r;
    }
    let pad: usize = width - n;
    let mut i: usize = 0;
    while i < pad
        invariant
            0 <= i <= pad,
            r@ == spaces(i as nat),
        decreases pad - i,
    {
        r.append(" ");
        proof {
            reveal_strlit(" ");
            assert(r@ =~= spaces((i + 1) as nat));
        }
        i += 1;
    }
    r.append(s);
    r
}

/// Builder of the per-component grade prompts.
pub struct Prompt;

impl Prompt {
    /// The prompt used in pre-weighted mode: every component is graded on
    /// the full `0-100%` range.
    pub fn fmt_prompt_pre_weight(width: usize, s: &str) -> (r: String)
        ensures
            r@ == spec_prompt_pre(width as nat, s@),
    {
        let mut r = String::new();
        r.append("Enter grade for: ");
        r.append(pad_to(s, width).as_str());
        r.append(" [0-100%]: ");
        r
    }

    /// The prompt used in post-weighted mode: a component's grade is its
    /// weighted share, at most `value` percent.
    pub fn fmt_prompt_post_weight(width: usize, s: &str, value: u8) -> (r: String)
        ensures
            r@ == spec_prompt_post(width as nat, s@, value),
    {
        let mut r = String::new();
        r.append("Enter grade for: ");
        r.append(pad_to(s, width).as_str());
        r.append(" [0-");
        let digits = crate::fmt::uint_to_string(value as u16);
        r.append(pad_to(digits.as_str(), 2).as_str());
        r.append("%]: ");
        r
    }
}

} // verus!
