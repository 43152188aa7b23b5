//! Choosing where a directly given text comes from.

use vstd::prelude::*;

verus! {

/// The argument that asks for the text to be read from standard input.
pub open spec fn stdin_marker() -> Seq<char> {
    seq!['-', '-']
}

/// The text given directly on the command line, if any: `content` itself, unless it is
/// absent or is `--`, in which case the text is to come from standard input (`None`).
pub fn handle_string_command(content: Option<&str>) -> (r: Option<String>)
    ensures
        r is None <==> (content is None || content->0@ == stdin_marker()),
        r matches Some(s) ==> s@ == content->0@,
{
    match content {
        None => None,
        Some(c) => {
            if c.unicode_len() == 2 && c.get_char(0) == '-' && c.get_char(1) == '-' {
                assert(c@ =~= stdin_marker());
                None
            } else {
                Some(String::from_str(c))
            }
        },
    }
}

} // verus!
