use vstd::prelude::*;
use vstd::string::StrSliceExecFns;

use crate::fmt::{push_str, string_from_chars};

verus! {

/// A line read from a text file without its line ending: a final `\n`,
/// and then a `\r` before it, are dropped.
pub open spec fn line_content(line: Seq<char>) -> Seq<char> {
    if line.len() > 0 && line.last() == '\n' {
        let t = line.drop_last();
        if t.len() > 0 && t.last() == '\r' {
            t.drop_last()
        } else {
            t
        }
    } else {
        line
    }
}

/// Returns the line without its line ending (`\n` or `\r\n`).
///
/// # Examples
/// ```
/// use kwik::file::text;
///
/// assert_eq!(text::strip_line_ending("abc\r\n"), "abc");
/// ```
pub fn strip_line_ending(line: &str) -> (r: String)
    ensures
        r@ == line_content(line@),
{
    let mut chars: Vec<char> = Vec::new();
    push_str(&mut chars, line);
    assert(chars@ == line@);
    let n = chars.len();
    if n > 0 && chars[n - 1] == '\n' {
        chars.pop();
        let m = chars.len();
        if m > 0 && chars[m - 1] == '\r' {
            chars.pop();
        }
    }
    string_from_chars(&chars)
}

} // verus!
