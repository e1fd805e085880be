//! Removal of control characters from server-supplied text before it reaches a
//! terminal, so a task body cannot carry escape sequences.

use vstd::prelude::*;
use crate::unicode::{chars_of, string_of};

verus! {

/// Unicode general category Cc (`char::is_control`): C0, DEL and C1.
pub open spec fn control(c: char) -> bool {
    (c as u32) <= 0x1f || (0x7f <= (c as u32) && (c as u32) <= 0x9f)
}

/// Whether `c` survives sanitizing: every non-control character, plus `\n` and `\t`.
pub open spec fn kept(c: char) -> bool {
    !control(c) || c == '\n' || c == '\t'
}

/// Remove control characters, keeping `\n` and `\t`.
pub open spec fn stripped(s: Seq<char>) -> Seq<char> {
    s.filter(|c: char| kept(c))
}

pub fn is_control(c: char) -> (r: bool)
    ensures
        r == control(c),
{
    let u = c as u32;
    u <= 0x1f || (0x7f <= u && u <= 0x9f)
}

/// Drops every Cc character except `\n` and `\t`, keeping all others in order.
pub fn strip_control_chars(s: &str) -> (r: String)
    ensures
        r@ == stripped(s@),
{
    let cs = chars_of(s);
    let mut out: Vec<char> = Vec::new();
    let mut i: usize = 0;
    while i < cs.len()
        invariant
            i <= cs@.len(),
            cs@ == s@,
            out@ == cs@.subrange(0, i as int).filter(|c: char| kept(c)),
        decreases cs.len() - i,
    {
        let c = cs[i];
        proof {
            assert(cs@.subrange(0, i + 1) == cs@.subrange(0, i as int).push(c));
            cs@.subrange(0, i as int).lemma_filter_push(c, |c: char| kept(c));
        }
        if !is_control(c) || c == '\n' || c == '\t' {
            out.push(c);
        }
        i += 1;
    }
    proof {
        assert(cs@.subrange(0, cs@.len() as int) == cs@);
    }
    string_of(out.as_slice())
}

} // verus!
