//! The one piece of line classification the resolver's callers share:
//! recognizing a line that is nothing but a comment.

use vstd::prelude::*;
use vstd::string::StrSliceExecFns;

verus! {

/// A line is entirely a comment when its first character is `#`.
pub fn entire_line_is_comment(input: &str) -> (r: bool)
    ensures
        r == (input@.len() > 0 && input@[0] == '#'),
{
    if input.unicode_len() > 0 {
        input.get_char(0) == '#'
    } else {
        false
    }
}

} // verus!
