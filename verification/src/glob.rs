//! Matching of one wildcard-bearing pattern segment against one entry name.
//!
//! A segment is wildcard-bearing iff it contains `*`. A `*` matches zero or
//! more characters; every other character, the dot included, matches only
//! itself. The whole name must match (no substring matches). Matching is
//! performed by the `regex` crate through a trusted wrapper.

use vstd::prelude::*;

verus! {

/// The anchored wildcard semantics: `pat` matches the whole of `name`, where
/// `*` stands for zero or more characters and every other character stands
/// for itself.
pub open spec fn glob_matches(pat: Seq<char>, name: Seq<char>) -> bool
    decreases pat.len() + name.len(),
{
    if pat.len() == 0 {
        name.len() == 0
    } else if pat[0] == '*' {
        glob_matches(pat.skip(1), name) || (name.len() > 0 && glob_matches(pat, name.skip(1)))
    } else {
        name.len() > 0 && name[0] == pat[0] && glob_matches(pat.skip(1), name.skip(1))
    }
}

/// Whether a segment is wildcard-bearing.
pub open spec fn has_star(seg: Seq<char>) -> bool {
    exists|i: int| 0 <= i < seg.len() && seg[i] == '*'
}

/// Characters that the regex crate treats as plain text once the dot is
/// escaped and the star replaced: everything but its remaining metacharacters.
pub open spec fn plain_char(c: char) -> bool {
    c != '\\' && c != '+' && c != '?' && c != '(' && c != ')' && c != '|' && c != '[' && c != ']'
        && c != '{' && c != '}' && c != '^' && c != '$'
}

/// Segments made of plain characters (stars and dots included): where the
/// regex built from such a segment compiles, matching it realises
/// `glob_matches`.
pub open spec fn plain_seg(seg: Seq<char>) -> bool {
    forall|i: int| 0 <= i < seg.len() ==> plain_char(#[trigger] seg[i])
}

/// Whether the regex built from a segment compiles.
pub uninterp spec fn re_compiles(seg: Seq<char>) -> bool;

/// What matching a name against the regex built from a segment returns.
pub uninterp spec fn re_wild(seg: Seq<char>, name: Seq<char>) -> bool;

/// What one pattern segment accepts: exact equality for a literal segment,
/// the regex-backed wildcard match for a wildcard-bearing one.
pub open spec fn seg_matches(seg: Seq<char>, name: Seq<char>) -> bool {
    if has_star(seg) {
        re_wild(seg, name)
    } else {
        seg == name
    }
}

/// Relies on `regex::Regex::new` and `regex::Regex::is_match`: the segment is
/// handed to regex as an anchored pattern (`(?s)^…$`) in which each `.` is
/// escaped as the class `[.]`, each `*` becomes `.*`, and, under the `s`
/// flag, `.` matches every character. Whether that pattern compiles, and what
/// `is_match` answers, depend on the segment and the name alone. The builder
/// refuses a pattern whose compiled form is over its size limit, so even a
/// segment of plain characters may fail to compile; where it does compile,
/// matching it is the anchored wildcard semantics.
#[verifier::external_body]
pub(crate) fn wildcard_match(seg: &str, name: &str) -> (r: Option<bool>)
    ensures
        r is Some <==> re_compiles(seg@),
        r is Some ==> r == Some(re_wild(seg@, name@)),
        plain_seg(seg@) && r is Some ==> r == Some(glob_matches(seg@, name@)),
{
    let pattern = format!("(?s)^{}$", seg.replace('.', "[.]").replace('*', ".*"));
    match regex::Regex::new(&pattern) {
        Ok(re) => Some(re.is_match(name)),
        Err(_) => None,
    }
}

} // verus!
