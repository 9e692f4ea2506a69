//! Rewrites layout-sensitive Haskell source into an explicit form with braces
//! and semicolons, and computes context windows for reporting parse errors.
use vstd::prelude::*;

pub mod block_word;
pub mod diagnostic;
pub mod fault;
pub mod layout;
pub mod outside;
pub mod strip;
pub mod text;
pub mod whitespace;

verus! {

/// Removes comments and converts layout to brace blocks.
pub fn preprocess(input: &str) -> (r: Result<String, fault::Fault>)
    ensures
        match whitespace::commify_of(input@) {
            Ok(x) => r is Ok && r->Ok_0@ == x,
            Err(f) => r == Err::<String, fault::Fault>(f),
        },
{
    whitespace::commify(input)
}

} // verus!
