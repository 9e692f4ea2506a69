//! The whole rewrite: stripping, layout, and two clean-ups of the result.
use crate::fault::Fault;
use crate::layout::{layout, layout_of};
use crate::strip::{replace, strip_comments, strip_of, then_replace};
use vstd::prelude::*;

verus! {

/// A `;` that directly follows `where` and blanks.
pub const WHERE_SEMICOLON: &'static str = r"where\s+;";

/// A `;` between two closing braces.
pub const CLOSE_SEMICOLON_CLOSE: &'static str = r"\};\}";

/// Stripping, then layout, then the two clean-ups.
pub open spec fn commify_of(text: Seq<char>) -> Result<Seq<char>, Fault> {
    match strip_of(text) {
        Err(f) => Err(f),
        Ok(t) => match layout_of(t) {
            Err(f) => Err(f),
            Ok(o) => then_replace(
                then_replace(Ok(o), WHERE_SEMICOLON@, "where "@),
                CLOSE_SEMICOLON_CLOSE@,
                "}}"@,
            ),
        },
    }
}

/// Converts indentation into semicolon-separated brace blocks.
pub fn commify(val: &str) -> (r: Result<String, Fault>)
    ensures
        match commify_of(val@) {
            Ok(x) => r is Ok && r->Ok_0@ == x,
            Err(f) => r == Err::<String, Fault>(f),
        },
{
    let stripped = match strip_comments(val) {
        Ok(t) => t,
        Err(f) => return Err(f),
    };
    let out = match layout(stripped.as_str()) {
        Ok(t) => t,
        Err(f) => return Err(f),
    };
    let out = match replace(out.as_str(), WHERE_SEMICOLON, "where ") {
        Ok(t) => t,
        Err(f) => return Err(f),
    };
    replace(out.as_str(), CLOSE_SEMICOLON_CLOSE, "}}")
}

} // verus!
