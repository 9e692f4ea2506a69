use vstd::prelude::*;

verus! {

/// Why a rewrite could not be completed. Every variant is an internal
/// inconsistency between the literal grammar and the rewriting passes, never
/// an ordinary syntax error of the input program.
#[derive(Clone, Copy, Debug, PartialEq, Eq, Structural)]
pub enum Fault {
    /// A carriage return that does not start a `\r\n` line break.
    StrayCarriageReturn,
    /// A character literal whose payload does not decode to exactly one scalar.
    MultiCharLiteral,
    /// A backslash in a literal that starts none of the known escapes.
    UnknownEscape,
    /// A fixed pattern was rejected by the regular expression engine.
    PatternRejected,
}

} // verus!
