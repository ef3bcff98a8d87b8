//! The few text operations that names and messages on the command line need.
use vstd::prelude::*;
use vstd::string::StringExecFns;

verus! {

/// The text between double quotes, escaped as a debug print escapes it.
pub uninterp spec fn quoted_text(text: Seq<char>) -> Seq<char>;

/// `format!` with `{:?}` on a string. Only that the outcome depends on nothing
/// but the text is claimed; which characters are escaped is left unsaid.
#[verifier::external_body]
fn debug_format(text: &str) -> (quoted: String)
    ensures
        quoted@ == quoted_text(text@),
{
    format!("{text:?}")
}

/// A character in lower case if it is one of the letters `A` to `Z`, else itself.
pub open spec fn lowered(c: char) -> char {
    if 'A' <= c <= 'Z' {
        (c as u32 + 32) as char
    } else {
        c
    }
}

/// `str::to_ascii_lowercase`: each of the letters `A` to `Z` becomes its lower
/// case equivalent, every other character stays.
#[verifier::external_body]
pub(crate) fn to_ascii_lowercase(text: &str) -> (lower: String)
    ensures
        lower@ == text@.map_values(|c: char| lowered(c)),
{
    text.to_ascii_lowercase()
}

/// Two texts hold the same characters.
pub(crate) fn same_text(a: &str, b: &str) -> (same: bool)
    ensures
        same == (a@ == b@),
{
    a.to_owned() == b.to_owned()
}

/// The complaint about a name that is none of those known: what it was meant to
/// name, the name quoted, and the names there are.
pub open spec fn complaint(kind: Seq<char>, name: Seq<char>, known: Seq<char>) -> Seq<char> {
    "unknown "@ + kind + " "@ + quoted_text(name) + ": "@ + known
}

/// Writes the complaint about an unknown name.
pub(crate) fn complain(kind: &str, name: &str, known: &str) -> (message: String)
    ensures
        message@ == complaint(kind@, name@, known@),
{
    let mut message: String = "unknown ".to_owned();
    message.append(kind);
    message.append(" ");
    message.append(debug_format(name).as_str());
    message.append(": ");
    message.append(known);
    message
}

} // verus!
