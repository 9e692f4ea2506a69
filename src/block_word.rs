use vstd::prelude::*;

verus! {

/// A keyword that opens a layout block.
#[derive(Clone, Copy, Debug, PartialEq, Eq, Structural)]
pub enum BlockWord {
    Do,
    Where,
    Of,
    Let,
    In,
    If,
    Then,
    Else,
}

/// The keyword spelled by `w`, if any.
pub open spec fn block_word_of(w: Seq<char>) -> Option<BlockWord> {
    if w == seq!['d', 'o'] {
        Some(BlockWord::Do)
    } else if w == seq!['w', 'h', 'e', 'r', 'e'] {
        Some(BlockWord::Where)
    } else if w == seq!['o', 'f'] {
        Some(BlockWord::Of)
    } else if w == seq!['l', 'e', 't'] {
        Some(BlockWord::Let)
    } else if w == seq!['i', 'n'] {
        Some(BlockWord::In)
    } else if w == seq!['i', 'f'] {
        Some(BlockWord::If)
    } else if w == seq!['t', 'h', 'e', 'n'] {
        Some(BlockWord::Then)
    } else if w == seq!['e', 'l', 's', 'e'] {
        Some(BlockWord::Else)
    } else {
        None
    }
}

/// The name of a keyword's variant, as it appears in annotations.
pub open spec fn variant_name(b: BlockWord) -> Seq<char> {
    match b {
        BlockWord::Do => "Do"@,
        BlockWord::Where => "Where"@,
        BlockWord::Of => "Of"@,
        BlockWord::Let => "Let"@,
        BlockWord::In => "In"@,
        BlockWord::If => "If"@,
        BlockWord::Then => "Then"@,
        BlockWord::Else => "Else"@,
    }
}

/// The name of a keyword's variant.
pub fn variant_chars(b: BlockWord) -> (r: Vec<char>)
    ensures
        r@ == variant_name(b),
{
    match b {
        BlockWord::Do => crate::text::chars_of("Do"),
        BlockWord::Where => crate::text::chars_of("Where"),
        BlockWord::Of => crate::text::chars_of("Of"),
        BlockWord::Let => crate::text::chars_of("Let"),
        BlockWord::In => crate::text::chars_of("In"),
        BlockWord::If => crate::text::chars_of("If"),
        BlockWord::Then => crate::text::chars_of("Then"),
        BlockWord::Else => crate::text::chars_of("Else"),
    }
}

/// Whether `s[start..end]` spells exactly `w`.
pub fn spells(s: &Vec<char>, start: usize, end: usize, w: &[char]) -> (r: bool)
    requires
        start <= end <= s@.len(),
    ensures
        r == (s@.subrange(start as int, end as int) == w@),
{
    if end - start != w.len() {
        proof {
            assert(s@.subrange(start as int, end as int).len() != w@.len());
        }
        return false;
    }
    let mut k: usize = 0;
    while k < w.len()
        invariant
            end - start == w@.len(),
            start <= end <= s@.len(),
            0 <= k <= w@.len(),
            forall|j: int| 0 <= j < k ==> s@[start + j] == w@[j],
        decreases w@.len() - k,
    {
        if s[start + k] != w[k] {
            proof {
                assert(s@.subrange(start as int, end as int)[k as int] != w@[k as int]);
            }
            return false;
        }
        k = k + 1;
    }
    assert(s@.subrange(start as int, end as int) =~= w@);
    true
}

impl BlockWord {
    /// The keyword spelled by `s[start..end]`, if any.
    pub fn from_chars(s: &Vec<char>, start: usize, end: usize) -> (r: Option<BlockWord>)
        requires
            start <= end <= s@.len(),
        ensures
            r == block_word_of(s@.subrange(start as int, end as int)),
    {
        let ghost w = s@.subrange(start as int, end as int);
        proof {
            assert(['d', 'o']@ =~= seq!['d', 'o']);
            assert(['w', 'h', 'e', 'r', 'e']@ =~= seq!['w', 'h', 'e', 'r', 'e']);
            assert(['o', 'f']@ =~= seq!['o', 'f']);
            assert(['l', 'e', 't']@ =~= seq!['l', 'e', 't']);
            assert(['i', 'n']@ =~= seq!['i', 'n']);
            assert(['i', 'f']@ =~= seq!['i', 'f']);
            assert(['t', 'h', 'e', 'n']@ =~= seq!['t', 'h', 'e', 'n']);
            assert(['e', 'l', 's', 'e']@ =~= seq!['e', 'l', 's', 'e']);
        }
        if spells(s, start, end, &['d', 'o']) {
            Some(BlockWord::Do)
        } else if spells(s, start, end, &['w', 'h', 'e', 'r', 'e']) {
            Some(BlockWord::Where)
        } else if spells(s, start, end, &['o', 'f']) {
            Some(BlockWord::Of)
        } else if spells(s, start, end, &['l', 'e', 't']) {
            Some(BlockWord::Let)
        } else if spells(s, start, end, &['i', 'n']) {
            Some(BlockWord::In)
        } else if spells(s, start, end, &['i', 'f']) {
            Some(BlockWord::If)
        } else if spells(s, start, end, &['t', 'h', 'e', 'n']) {
            Some(BlockWord::Then)
        } else if spells(s, start, end, &['e', 'l', 's', 'e']) {
            Some(BlockWord::Else)
        } else {
            None
        }
    }

    /// The keyword spelled by `word`, if any.
    pub fn from_str(word: &str) -> (r: Option<BlockWord>)
        ensures
            r == block_word_of(word@),
    {
        let v = crate::text::chars_of(word);
        proof {
            assert(v@.subrange(0, v@.len() as int) =~= word@);
        }
        BlockWord::from_chars(&v, 0, v.len())
    }
}

} // verus!
