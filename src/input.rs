use vstd::prelude::*;
use vstd::string::StrSliceExecFns;

verus! {

/// Whether the pattern compiles (`None` when it does not) and, if it does,
/// whether it matches the text.
pub uninterp spec fn regex_verdict(pattern: Seq<char>, text: Seq<char>) -> Option<bool>;

/// Relies on regex::Regex::new, which compiles the pattern or fails, and
/// regex::Regex::is_match, which tells whether the compiled pattern matches
/// somewhere in the text; both depend on the pattern and the text alone.
/// With `^` and `$` anchoring at the start and end of the text, the pattern
/// `^[0-9]$` compiles and matches exactly a text of one character `0`..=`9`.
#[verifier::external_body]
fn regex_matches(pattern: &str, text: &str) -> (r: Option<bool>)
    ensures
        r == regex_verdict(pattern@, text@),
        pattern@ == "^[0-9]$"@ ==> r == Some(text@.len() == 1 && '0' <= text@[0] <= '9'),
{
    match regex::Regex::new(pattern) {
        Ok(re) => Some(re.is_match(text)),
        Err(_) => None,
    }
}

/// The value of a single decimal digit character.
pub open spec fn digit_of(c: char) -> u8 {
    (c as u32 - '0' as u32) as u8
}

/// The value that a text typed for one cell stands for, given the verdict of
/// the one-digit pattern on it: a single character `0`..=`9` that the pattern
/// accepted gives its digit (0 meaning unassigned); anything else is refused.
pub open spec fn cell_value(verdict: Option<bool>, text: Seq<char>) -> Option<u8> {
    if verdict == Some(true) && text.len() == 1 && '0' <= text[0] <= '9' {
        Some(digit_of(text[0]))
    } else {
        None
    }
}

/// The cell value of `text` once the pattern check has given `verdict`.
pub fn cell_value_from(verdict: Option<bool>, text: &str) -> (r: Option<u8>)
    ensures
        r == cell_value(verdict, text@),
        r matches Some(v) ==> v <= 9,
{
    if verdict != Some(true) {
        return None;
    }
    if text.unicode_len() != 1 {
        return None;
    }
    let c = text.get_char(0);
    if '0' <= c && c <= '9' {
        Some((c as u32 - '0' as u32) as u8)
    } else {
        None
    }
}

/// The value of a text that is a single digit character, `None` for any
/// other text.
pub open spec fn single_digit(text: Seq<char>) -> Option<u8> {
    if text.len() == 1 && '0' <= text[0] <= '9' {
        Some(digit_of(text[0]))
    } else {
        None
    }
}

/// Checks a text typed for one cell against the pattern `^[0-9]$` and gives
/// the cell value it stands for (0 meaning unassigned), or `None` when it is
/// refused.
pub fn parse_cell_input(text: &str) -> (r: Option<u8>)
    ensures
        r == cell_value(regex_verdict("^[0-9]$"@, text@), text@),
        r == single_digit(text@),
        r matches Some(v) ==> v <= 9,
{
    proof {
        reveal_strlit("^[0-9]$");
    }
    let verdict = regex_matches("^[0-9]$", text);
    cell_value_from(verdict, text)
}

} // verus!
