//! The offside rule: turns indentation into explicit `{`, `;` and `}`.
use crate::block_word::{block_word_of, variant_chars, variant_name, BlockWord};
use crate::fault::Fault;
use crate::outside::string_of;
use crate::text::{append, chars_of};
use vstd::prelude::*;

verus! {

/// The state of the rewrite between two tokens.
pub struct Layout {
    /// Open blocks: reference column and the keyword that opened each.
    pub stash: Seq<(usize, BlockWord)>,
    /// The block most recently closed.
    pub popped: Option<(usize, BlockWord)>,
    /// Net bracket depth inside each open block.
    pub braces: Seq<usize>,
    /// The previous word was this keyword, at this column.
    pub trigger: Option<(BlockWord, usize)>,
    /// Column of the next character.
    pub indent: usize,
    /// No word has been seen yet on the current line.
    pub first: bool,
    /// Text written so far.
    pub out: Seq<char>,
}

pub open spec fn is_blank(c: char) -> bool {
    c == ' ' || c == '\t'
}

pub open spec fn is_opener(c: char) -> bool {
    c == '(' || c == '[' || c == '{'
}

pub open spec fn is_closer(c: char) -> bool {
    c == ')' || c == ']' || c == '}'
}

pub open spec fn is_word_char(c: char) -> bool {
    !is_blank(c) && c != '\r' && c != '\n' && !is_opener(c) && !is_closer(c)
}

/// End of the run of blanks that starts at `i`.
pub open spec fn blank_end(s: Seq<char>, i: int) -> int
    decreases s.len() - i,
{
    if 0 <= i < s.len() && is_blank(s[i]) {
        blank_end(s, i + 1)
    } else {
        i
    }
}

/// End of the run of word characters that starts at `i`.
pub open spec fn word_end(s: Seq<char>, i: int) -> int
    decreases s.len() - i,
{
    if 0 <= i < s.len() && is_word_char(s[i]) {
        word_end(s, i + 1)
    } else {
        i
    }
}

/// End of the token that starts at `i`: a run of blanks, a line break, one
/// bracket, or a run of word characters. `None` for a carriage return that
/// no line feed follows.
pub open spec fn token_end(s: Seq<char>, i: int) -> Option<int> {
    if is_blank(s[i]) {
        Some(blank_end(s, i))
    } else if s[i] == '\n' {
        Some(i + 1)
    } else if s[i] == '\r' {
        if i + 1 < s.len() && s[i + 1] == '\n' {
            Some(i + 2)
        } else {
            None
        }
    } else if is_opener(s[i]) || is_closer(s[i]) {
        Some(i + 1)
    } else {
        Some(word_end(s, i))
    }
}

pub open spec fn initial() -> Layout {
    Layout {
        stash: Seq::empty(),
        popped: None,
        braces: Seq::empty(),
        trigger: None,
        indent: 0,
        first: true,
        out: Seq::empty(),
    }
}

/// Close the innermost block.
pub open spec fn pop_block(m: Layout) -> Layout {
    Layout {
        popped: if m.stash.len() > 0 {
            Some(m.stash.last())
        } else {
            None
        },
        stash: if m.stash.len() > 0 {
            m.stash.drop_last()
        } else {
            m.stash
        },
        braces: if m.braces.len() > 0 {
            m.braces.drop_last()
        } else {
            m.braces
        },
        out: m.out.push('}'),
        ..m
    }
}

/// Whether the innermost block ends before a line's first word.
pub open spec fn ends_here(m: Layout, is_where: bool) -> bool {
    m.stash.len() > 0 && (m.stash.last().0 > m.indent || (m.stash.last().0 == m.indent
        && is_where))
}

/// Close every block that a line's first word, at the current column, leaves.
pub open spec fn dedent(m: Layout, is_where: bool) -> Layout
    decreases m.stash.len(),
{
    if ends_here(m, is_where) {
        dedent(pop_block(m), is_where)
    } else {
        m
    }
}

/// A `;` before a line's first word that is aligned with the innermost block.
pub open spec fn separate(m: Layout) -> Layout {
    if m.stash.len() > 0 && m.stash.last().0 == m.indent && m.trigger is None {
        Layout { out: m.out.push(';'), ..m }
    } else {
        m
    }
}

/// A closing bracket: one level less in the innermost block; where that
/// block has no open bracket left, it closes and the bracket counts against
/// the block around it.
pub open spec fn close_bracket(m: Layout) -> Layout
    decreases m.braces.len(),
{
    if m.braces.len() == 0 {
        m
    } else if m.braces.last() > 0 {
        Layout {
            braces: m.braces.update(m.braces.len() - 1, (m.braces.last() - 1) as usize),
            ..m
        }
    } else {
        close_bracket(pop_block(m))
    }
}

/// An opening bracket: one level more in the innermost block.
pub open spec fn open_bracket(m: Layout) -> Layout {
    if m.braces.len() == 0 {
        m
    } else {
        Layout {
            braces: m.braces.update(m.braces.len() - 1, (m.braces.last() + 1) as usize),
            ..m
        }
    }
}

/// The comment written where `in` or `then` meets a block other than its own.
pub open spec fn mismatch_note(label: Seq<char>, b: BlockWord) -> Seq<char> {
    " /* ERR: `"@ + label + "` while in `"@ + variant_name(b) + "` block */ "@
}

/// The comment written where `in` or `then` comes with no block open at all.
pub open spec fn top_level_note(label: Seq<char>) -> Seq<char> {
    " /* ERR: `"@ + label + "` at top level */ "@
}

/// `in` closes a `let` block and `then` an `if` block: the innermost one, or
/// none where that block was the one just closed; otherwise the mismatch is
/// noted in the text.
pub open spec fn close_pair(m: Layout, opener: BlockWord, label: Seq<char>) -> Layout {
    if m.stash.len() > 0 && m.stash.last().1 == opener {
        pop_block(m)
    } else if m.popped is Some && m.popped->Some_0.1 == opener {
        m
    } else if m.stash.len() == 0 {
        Layout { out: m.out + top_level_note(label), ..m }
    } else {
        Layout { out: m.out + mismatch_note(label, m.stash.last().1), ..m }
    }
}

/// What follows the checks on a word: the word itself, the block that a
/// pending keyword opens, and the keyword that this word may be.
pub open spec fn after_word(m: Layout, w: Seq<char>) -> Layout {
    let stash = match m.trigger {
        Some(t) => m.stash.push(
            (
                if m.first || t.0 != BlockWord::In {
                    m.indent
                } else {
                    t.1
                },
                t.0,
            ),
        ),
        None => m.stash,
    };
    let indent = (m.indent + w.len()) as usize;
    match block_word_of(w) {
        Some(b) => Layout {
            stash,
            braces: m.braces.push(0),
            trigger: Some((b, m.indent)),
            indent,
            first: false,
            out: m.out + w + seq!['{'],
            ..m
        },
        None => Layout { stash, trigger: None, indent, first: false, out: m.out + w, ..m },
    }
}

/// One word token `w`.
pub open spec fn word_step(m: Layout, w: Seq<char>) -> Layout {
    let kw = block_word_of(w);
    let m1 = if m.first && kw != Some(BlockWord::Then) {
        separate(dedent(m, kw == Some(BlockWord::Where)))
    } else {
        m
    };
    let m2 = if w.len() == 1 && is_closer(w[0]) {
        close_bracket(m1)
    } else if w.len() == 1 && is_opener(w[0]) {
        open_bracket(m1)
    } else {
        m1
    };
    let m3 = if kw == Some(BlockWord::In) && !m.first {
        close_pair(m2, BlockWord::Let, "in"@)
    } else if kw == Some(BlockWord::Then) {
        close_pair(m2, BlockWord::If, "ifin"@)
    } else {
        m2
    };
    after_word(m3, w)
}

/// One token `s[i..end]`.
pub open spec fn step(s: Seq<char>, i: int, end: int, m: Layout) -> Result<Layout, Fault> {
    let tok = s.subrange(i, end);
    if is_blank(s[i]) {
        Ok(Layout { out: m.out + tok, indent: (m.indent + tok.len()) as usize, ..m })
    } else if s[i] == '\n' || s[i] == '\r' {
        let pad = if m.stash.len() > 1 {
            (m.stash.len() - 1) as nat
        } else {
            0
        };
        Ok(Layout { out: m.out + tok + Seq::new(pad, |k: int| ' '), indent: 0, first: true, ..m })
    } else {
        Ok(word_step(m, tok))
    }
}

/// The rewrite of `s[i..]` from state `m`.
pub open spec fn run(s: Seq<char>, i: int, m: Layout) -> Result<Layout, Fault>
    decreases s.len() - i,
{
    if i < 0 || i >= s.len() {
        Ok(m)
    } else {
        match token_end(s, i) {
            None => Err(Fault::StrayCarriageReturn),
            Some(end) => if end <= i || end > s.len() {
                Ok(m)
            } else {
                match step(s, i, end, m) {
                    Ok(m2) => run(s, end, m2),
                    Err(f) => Err(f),
                }
            },
        }
    }
}

/// The rewrite of `s`: each token in turn, then a `}` for each block left open.
pub open spec fn layout_of(s: Seq<char>) -> Result<Seq<char>, Fault> {
    match run(s, 0, initial()) {
        Ok(m) => Ok(m.out + Seq::new(m.stash.len(), |k: int| '}')),
        Err(f) => Err(f),
    }
}

struct Engine {
    stash: Vec<(usize, BlockWord)>,
    popped: Option<(usize, BlockWord)>,
    braces: Vec<usize>,
    trigger: Option<(BlockWord, usize)>,
    indent: usize,
    first: bool,
    out: Vec<char>,
}

impl Engine {
    spec fn model(&self) -> Layout {
        Layout {
            stash: self.stash@,
            popped: self.popped,
            braces: self.braces@,
            trigger: self.trigger,
            indent: self.indent,
            first: self.first,
            out: self.out@,
        }
    }

    /// No counter exceeds `pos`, the number of characters read.
    spec fn bounded(&self, pos: int) -> bool {
        &&& self.indent <= pos
        &&& forall|k: int| 0 <= k < self.braces@.len() ==> self.braces@[k] <= pos
    }

    fn pop_block(&mut self)
        ensures
            final(self).model() == pop_block(old(self).model()),
    {
        self.popped = self.stash.pop();
        if self.braces.len() > 0 {
            self.braces.pop();
        }
        self.out.push('}');
    }

    fn ends_here(&self, is_where: bool) -> (r: bool)
        ensures
            r == ends_here(self.model(), is_where),
    {
        if self.stash.len() == 0 {
            return false;
        }
        let top = self.stash[self.stash.len() - 1].0;
        top > self.indent || (top == self.indent && is_where)
    }

    fn dedent(&mut self, is_where: bool, pos: usize)
        requires
            old(self).bounded(pos as int),
        ensures
            final(self).model() == dedent(old(self).model(), is_where),
            final(self).bounded(pos as int),
    {
        while self.ends_here(is_where)
            invariant
                dedent(self.model(), is_where) == dedent(old(self).model(), is_where),
                self.bounded(pos as int),
            decreases self.stash@.len(),
        {
            self.pop_block();
        }
    }

    fn separate(&mut self)
        ensures
            final(self).model() == separate(old(self).model()),
    {
        if self.stash.len() > 0 && self.stash[self.stash.len() - 1].0 == self.indent
            && self.trigger.is_none() {
            self.out.push(';');
        }
    }

    fn close_bracket(&mut self, pos: usize)
        requires
            old(self).bounded(pos as int),
        ensures
            final(self).model() == close_bracket(old(self).model()),
            final(self).bounded(pos as int),
    {
        while self.braces.len() > 0 && self.braces[self.braces.len() - 1] == 0
            invariant
                close_bracket(self.model()) == close_bracket(old(self).model()),
                self.bounded(pos as int),
            decreases self.braces@.len(),
        {
            self.pop_block();
        }
        if self.braces.len() > 0 {
            let t = self.braces.len() - 1;
            let v = self.braces[t];
            self.braces.set(t, v - 1);
        }
    }

    fn open_bracket(&mut self, pos: usize)
        requires
            old(self).bounded(pos as int),
            pos < usize::MAX,
        ensures
            final(self).model() == open_bracket(old(self).model()),
            final(self).bounded(pos + 1),
    {
        if self.braces.len() > 0 {
            let t = self.braces.len() - 1;
            let v = self.braces[t];
            self.braces.set(t, v + 1);
        }
    }

    fn note(&mut self, label: &str, b: BlockWord)
        ensures
            final(self).model() == (Layout {
                out: old(self).model().out + mismatch_note(label@, b),
                ..old(self).model()
            }),
    {
        append(&mut self.out, &chars_of(" /* ERR: `"));
        append(&mut self.out, &chars_of(label));
        append(&mut self.out, &chars_of("` while in `"));
        append(&mut self.out, &variant_chars(b));
        append(&mut self.out, &chars_of("` block */ "));
        assert(self.out@ =~= old(self).out@ + mismatch_note(label@, b));
    }

    fn top_level_note(&mut self, label: &str)
        ensures
            final(self).model() == (Layout {
                out: old(self).model().out + top_level_note(label@),
                ..old(self).model()
            }),
    {
        append(&mut self.out, &chars_of(" /* ERR: `"));
        append(&mut self.out, &chars_of(label));
        append(&mut self.out, &chars_of("` at top level */ "));
        assert(self.out@ =~= old(self).out@ + top_level_note(label@));
    }

    fn close_pair(&mut self, opener: BlockWord, label: &str)
        ensures
            final(self).model() == close_pair(old(self).model(), opener, label@),
            final(self).indent == old(self).indent,
            final(self).braces@.len() <= old(self).braces@.len(),
            forall|k: int|
                0 <= k < final(self).braces@.len() ==> final(self).braces@[k]
                    == old(self).braces@[k],
    {
        if self.stash.len() > 0 && self.stash[self.stash.len() - 1].1 == opener {
            self.pop_block();
            return;
        }
        match self.popped {
            Some(p) => {
                if p.1 == opener {
                    return;
                }
            },
            None => {},
        }
        if self.stash.len() == 0 {
            self.top_level_note(label);
            return;
        }
        let b = self.stash[self.stash.len() - 1].1;
        self.note(label, b);
    }

    fn word(&mut self, s: &Vec<char>, i: usize, end: usize)
        requires
            i < end <= s@.len(),
            old(self).bounded(i as int),
        ensures
            final(self).model() == word_step(old(self).model(), s@.subrange(i as int, end as int)),
            final(self).bounded(end as int),
    {
        let ghost w = s@.subrange(i as int, end as int);
        let kw = BlockWord::from_chars(s, i, end);
        let first = self.first;
        if first && kw != Some(BlockWord::Then) {
            self.dedent(kw == Some(BlockWord::Where), i);
            self.separate();
        }
        if end - i == 1 && (s[i] == ')' || s[i] == ']' || s[i] == '}') {
            assert(w[0] == s@[i as int]);
            self.close_bracket(i);
        } else if end - i == 1 && (s[i] == '(' || s[i] == '[' || s[i] == '{') {
            assert(w[0] == s@[i as int]);
            self.open_bracket(i);
        } else {
            proof {
                if w.len() == 1 {
                    assert(w[0] == s@[i as int]);
                }
            }
        }
        let ghost m2 = self.model();
        if kw == Some(BlockWord::In) && !first {
            self.close_pair(BlockWord::Let, "in");
        } else if kw == Some(BlockWord::Then) {
            self.close_pair(BlockWord::If, "ifin");
        }
        let ghost m3 = self.model();
        let mut k: usize = i;
        while k < end
            invariant
                i <= k <= end <= s@.len(),
                self.out@ == m3.out + s@.subrange(i as int, k as int),
                self.stash@ == m3.stash,
                self.braces@ == m3.braces,
                self.popped == m3.popped,
                self.trigger == m3.trigger,
                self.indent == m3.indent,
                self.first == m3.first,
            decreases end - k,
        {
            self.out.push(s[k]);
            k = k + 1;
            assert(s@.subrange(i as int, k as int) =~= s@.subrange(i as int, k - 1).push(
                s@[k - 1],
            ));
        }
        match self.trigger {
            Some(t) => {
                let col = if self.first || t.0 != BlockWord::In {
                    self.indent
                } else {
                    t.1
                };
                self.stash.push((col, t.0));
            },
            None => {},
        }
        self.first = false;
        match kw {
            Some(b) => {
                self.trigger = Some((b, self.indent));
                self.out.push('{');
                self.braces.push(0);
            },
            None => {
                self.trigger = None;
            },
        }
        self.indent = self.indent + (end - i);
        assert(self.model().out =~= after_word(m3, w).out);
        assert(self.model().stash =~= after_word(m3, w).stash);
        assert(self.model().braces =~= after_word(m3, w).braces);
    }
}

/// Whether `c` belongs to a run of blanks (`blank`) or of word characters.
fn continues_run(c: char, blank: bool) -> (r: bool)
    ensures
        r == if blank {
            is_blank(c)
        } else {
            is_word_char(c)
        },
{
    if blank {
        c == ' ' || c == '\t'
    } else {
        c != ' ' && c != '\t' && c != '\r' && c != '\n' && c != '(' && c != '[' && c != '{'
            && c != ')' && c != ']' && c != '}'
    }
}

/// End of the run of blanks (`blank`) or of word characters that starts at `i`.
fn run_end(s: &Vec<char>, i: usize, blank: bool) -> (r: usize)
    requires
        i <= s@.len(),
    ensures
        blank ==> r == blank_end(s@, i as int),
        !blank ==> r == word_end(s@, i as int),
        i <= r <= s@.len(),
        i < s@.len() && (if blank {
            is_blank(s@[i as int])
        } else {
            is_word_char(s@[i as int])
        }) ==> i < r,
{
    let mut j: usize = i;
    while j < s.len() && continues_run(s[j], blank)
        invariant
            i <= j <= s@.len(),
            blank ==> blank_end(s@, i as int) == blank_end(s@, j as int),
            !blank ==> word_end(s@, i as int) == word_end(s@, j as int),
        decreases s@.len() - j,
    {
        j = j + 1;
    }
    j
}

/// Rewrites the layout of `text` into explicit braces and semicolons.
pub fn layout(text: &str) -> (r: Result<String, Fault>)
    ensures
        match layout_of(text@) {
            Ok(o) => r is Ok && r->Ok_0@ == o,
            Err(f) => r == Err::<String, Fault>(f),
        },
{
    let s = chars_of(text);
    let mut e = Engine {
        stash: Vec::new(),
        popped: None,
        braces: Vec::new(),
        trigger: None,
        indent: 0,
        first: true,
        out: Vec::new(),
    };
    assert(e.model() == initial());
    let mut i: usize = 0;
    while i < s.len()
        invariant
            i <= s@.len(),
            s@ == text@,
            e.bounded(i as int),
            run(s@, 0, initial()) == run(s@, i as int, e.model()),
        decreases s@.len() - i,
    {
        let ghost m0 = e.model();
        let c = s[i];
        let end: usize;
        if c == ' ' || c == '\t' {
            end = run_end(&s, i, true);
            proof {
                assert(blank_end(s@, i as int) == blank_end(s@, i + 1));
            }
            let mut k: usize = i;
            while k < end
                invariant
                    i <= k <= end <= s@.len(),
                    e.out@ == m0.out + s@.subrange(i as int, k as int),
                    e.stash@ == m0.stash,
                    e.braces@ == m0.braces,
                    e.popped == m0.popped,
                    e.trigger == m0.trigger,
                    e.indent == m0.indent,
                    e.first == m0.first,
                decreases end - k,
            {
                e.out.push(s[k]);
                k = k + 1;
                assert(s@.subrange(i as int, k as int) =~= s@.subrange(i as int, k - 1).push(
                    s@[k - 1],
                ));
            }
            e.indent = e.indent + (end - i);
            assert(e.model() == step(s@, i as int, end as int, m0).unwrap());
        } else if c == '\n' || c == '\r' {
            if c == '\r' && !(i + 1 < s.len() && s[i + 1] == '\n') {
                return Err(Fault::StrayCarriageReturn);
            }
            end = if c == '\r' {
                i + 2
            } else {
                i + 1
            };
            append(&mut e.out, &slice_of(&s, i, end));
            e.indent = 0;
            e.first = true;
            let mut pad: Vec<char> = Vec::new();
            if e.stash.len() > 1 {
                let n = e.stash.len() - 1;
                while pad.len() < n
                    invariant
                        pad@.len() <= n,
                        forall|k: int| 0 <= k < pad@.len() ==> pad@[k] == ' ',
                    decreases n - pad@.len(),
                {
                    pad.push(' ');
                }
            }
            let ghost pads = if m0.stash.len() > 1 {
                (m0.stash.len() - 1) as nat
            } else {
                0
            };
            assert(pad@ =~= Seq::new(pads, |k: int| ' '));
            append(&mut e.out, &pad);
            assert(e.model() == step(s@, i as int, end as int, m0).unwrap());
        } else {
            if c == '(' || c == '[' || c == '{' || c == ')' || c == ']' || c == '}' {
                end = i + 1;
            } else {
                end = run_end(&s, i, false);
                proof {
                    assert(word_end(s@, i as int) == word_end(s@, i + 1));
                }
            }
            assert(token_end(s@, i as int) == Some(end as int));
            e.word(&s, i, end);
        }
        assert(token_end(s@, i as int) == Some(end as int));
        assert(run(s@, i as int, m0) == run(s@, end as int, e.model()));
        i = end;
    }
    let ghost m = e.model();
    assert(run(s@, 0, initial()) == Ok::<Layout, Fault>(m));
    let n = e.stash.len();
    let mut k: usize = 0;
    while k < n
        invariant
            k <= n,
            n == m.stash.len(),
            e.out@ == m.out + Seq::new(k as nat, |j: int| '}'),
        decreases n - k,
    {
        e.out.push('}');
        k = k + 1;
        assert(e.out@ =~= m.out + Seq::new(k as nat, |j: int| '}'));
    }
    Ok(string_of(&e.out))
}

/// The characters `s[i..end]`.
fn slice_of(s: &Vec<char>, i: usize, end: usize) -> (r: Vec<char>)
    requires
        i <= end <= s@.len(),
    ensures
        r@ == s@.subrange(i as int, end as int),
{
    let mut r: Vec<char> = Vec::new();
    let mut k: usize = i;
    while k < end
        invariant
            i <= k <= end <= s@.len(),
            r@ == s@.subrange(i as int, k as int),
        decreases end - k,
    {
        r.push(s[k]);
        k = k + 1;
        assert(s@.subrange(i as int, k as int) =~= s@.subrange(i as int, k - 1).push(s@[k - 1]));
    }
    r
}

/// How often `c` occurs in `s`.
pub open spec fn occurrences(s: Seq<char>, c: char) -> nat
    decreases s.len(),
{
    if s.len() == 0 {
        0
    } else {
        occurrences(s.drop_last(), c) + if s.last() == c {
            1nat
        } else {
            0nat
        }
    }
}

/// `s` holds no brace.
pub open spec fn brace_free(s: Seq<char>) -> bool {
    forall|k: int| 0 <= k < s.len() ==> #[trigger] s[k] != '{' && s[k] != '}'
}

/// How many block keywords wait for their block's first word: none or one.
pub open spec fn pending(m: Layout) -> nat {
    if m.trigger is Some {
        1
    } else {
        0
    }
}

/// Against `consumed`, the text read so far, the `{` that the rewrite added
/// outnumber the `}` it added by the open blocks and the waiting keyword.
pub open spec fn balanced(m: Layout, consumed: Seq<char>) -> bool {
    occurrences(m.out, '{') + occurrences(consumed, '}') == occurrences(m.out, '}') + occurrences(
        consumed,
        '{',
    ) + m.stash.len() + pending(m)
}

/// Each open block, and the waiting keyword, has its bracket counter.
pub open spec fn aligned(m: Layout) -> bool {
    m.braces.len() == m.stash.len() + pending(m)
}

proof fn lemma_occurrences_append(a: Seq<char>, b: Seq<char>, c: char)
    ensures
        occurrences(a + b, c) == occurrences(a, c) + occurrences(b, c),
    decreases b.len(),
{
    if b.len() == 0 {
        assert(a + b =~= a);
    } else {
        assert((a + b).drop_last() =~= a + b.drop_last());
        lemma_occurrences_append(a, b.drop_last(), c);
    }
}

proof fn lemma_brace_free_count(s: Seq<char>)
    requires
        brace_free(s),
    ensures
        occurrences(s, '{') == 0,
        occurrences(s, '}') == 0,
    decreases s.len(),
{
    if s.len() > 0 {
        assert(brace_free(s.drop_last()));
        lemma_brace_free_count(s.drop_last());
    }
}

/// Appending brace-free text keeps the balance.
proof fn lemma_append_free(m: Layout, c: Seq<char>, t: Seq<char>)
    requires
        balanced(m, c),
        brace_free(t),
    ensures
        balanced(Layout { out: m.out + t, ..m }, c),
{
    lemma_brace_free_count(t);
    lemma_occurrences_append(m.out, t, '{');
    lemma_occurrences_append(m.out, t, '}');
}

proof fn lemma_append_read(m: Layout, c: Seq<char>, t: Seq<char>)
    requires
        balanced(m, c),
    ensures
        balanced(Layout { out: m.out + t, ..m }, c + t),
{
    lemma_occurrences_append(m.out, t, '{');
    lemma_occurrences_append(m.out, t, '}');
    lemma_occurrences_append(c, t, '{');
    lemma_occurrences_append(c, t, '}');
}

proof fn lemma_single(x: char, c: char)
    ensures
        occurrences(seq![x], c) == if x == c {
            1nat
        } else {
            0nat
        },
{
    let one = seq![x];
    assert(one.drop_last() =~= Seq::<char>::empty());
    assert(occurrences(one.drop_last(), c) == 0);
    assert(one.last() == x);
}

proof fn lemma_pop_balanced(m: Layout, c: Seq<char>)
    requires
        balanced(m, c),
        aligned(m),
        m.stash.len() > 0,
    ensures
        balanced(pop_block(m), c),
        aligned(pop_block(m)),
{
    lemma_occurrences_append(m.out, seq!['}'], '{');
    lemma_occurrences_append(m.out, seq!['}'], '}');
    assert(m.out.push('}') =~= m.out + seq!['}']);
    lemma_single('}', '}');
    lemma_single('}', '{');
}

proof fn lemma_dedent_balanced(m: Layout, is_where: bool, c: Seq<char>)
    requires
        balanced(m, c),
        aligned(m),
    ensures
        balanced(dedent(m, is_where), c),
        aligned(dedent(m, is_where)),
        dedent(m, is_where).trigger == m.trigger,
    decreases m.stash.len(),
{
    if ends_here(m, is_where) {
        lemma_pop_balanced(m, c);
        lemma_dedent_balanced(pop_block(m), is_where, c);
    }
}

proof fn lemma_close_bracket_balanced(m: Layout, c: Seq<char>)
    requires
        balanced(m, c),
        aligned(m),
        m.trigger is None,
    ensures
        balanced(close_bracket(m), c),
        aligned(close_bracket(m)),
    decreases m.braces.len(),
{
    if m.braces.len() > 0 && m.braces.last() == 0 {
        lemma_pop_balanced(m, c);
        lemma_close_bracket_balanced(pop_block(m), c);
    }
}

proof fn lemma_note_free(label: Seq<char>, b: BlockWord)
    requires
        brace_free(label),
    ensures
        brace_free(mismatch_note(label, b)),
{
    reveal_strlit(" /* ERR: `");
    reveal_strlit("` while in `");
    reveal_strlit("` block */ ");
    reveal_strlit("Do");
    reveal_strlit("Where");
    reveal_strlit("Of");
    reveal_strlit("Let");
    reveal_strlit("In");
    reveal_strlit("If");
    reveal_strlit("Then");
    reveal_strlit("Else");
    let n = mismatch_note(label, b);
    assert forall|k: int| 0 <= k < n.len() implies #[trigger] n[k] != '{' && n[k] != '}' by {
        let a = " /* ERR: `"@;
        let c = "` while in `"@;
        let d = variant_name(b);
        let e = "` block */ "@;
        if k < a.len() {
            assert(n[k] == a[k]);
        } else if k < a.len() + label.len() {
            assert(n[k] == label[k - a.len()]);
        } else if k < a.len() + label.len() + c.len() {
            assert(n[k] == c[k - a.len() - label.len()]);
        } else if k < a.len() + label.len() + c.len() + d.len() {
            assert(n[k] == d[k - a.len() - label.len() - c.len()]);
        } else {
            assert(n[k] == e[k - a.len() - label.len() - c.len() - d.len()]);
        }
    }
}

proof fn lemma_top_note_free(label: Seq<char>)
    requires
        brace_free(label),
    ensures
        brace_free(top_level_note(label)),
{
    reveal_strlit(" /* ERR: `");
    reveal_strlit("` at top level */ ");
    let n = top_level_note(label);
    assert forall|k: int| 0 <= k < n.len() implies #[trigger] n[k] != '{' && n[k] != '}' by {
        let a = " /* ERR: `"@;
        let e = "` at top level */ "@;
        if k < a.len() {
            assert(n[k] == a[k]);
        } else if k < a.len() + label.len() {
            assert(n[k] == label[k - a.len()]);
        } else {
            assert(n[k] == e[k - a.len() - label.len()]);
        }
    }
}

proof fn lemma_close_pair_balanced(m: Layout, opener: BlockWord, label: Seq<char>, c: Seq<char>)
    requires
        balanced(m, c),
        aligned(m),
        brace_free(label),
    ensures
        balanced(close_pair(m, opener, label), c),
        aligned(close_pair(m, opener, label)),
{
    if m.stash.len() > 0 && m.stash.last().1 == opener {
        lemma_pop_balanced(m, c);
    } else if m.popped is Some && m.popped->Some_0.1 == opener {
    } else if m.stash.len() == 0 {
        lemma_top_note_free(label);
        lemma_append_free(m, c, top_level_note(label));
    } else {
        lemma_note_free(label, m.stash.last().1);
        lemma_append_free(m, c, mismatch_note(label, m.stash.last().1));
    }
}

proof fn lemma_after_word_balanced(m: Layout, w: Seq<char>, c: Seq<char>)
    requires
        balanced(m, c),
        aligned(m),
    ensures
        balanced(after_word(m, w), c + w),
        aligned(after_word(m, w)),
{
    lemma_append_read(m, c, w);
    let o = seq!['{'];
    lemma_single('{', '{');
    lemma_single('{', '}');
    lemma_occurrences_append(m.out + w, o, '{');
    lemma_occurrences_append(m.out + w, o, '}');
    let r = after_word(m, w);
    match block_word_of(w) {
        Some(b) => {
            assert(r.out == m.out + w + o);
        },
        None => {
            assert(r.out == m.out + w);
        },
    }
}

proof fn lemma_word_balanced(m: Layout, w: Seq<char>, c: Seq<char>)
    requires
        balanced(m, c),
        aligned(m),
        m.trigger is Some ==> !(w.len() == 1 && is_closer(w[0])),
    ensures
        balanced(word_step(m, w), c + w),
        aligned(word_step(m, w)),
{
    let kw = block_word_of(w);
    lemma_dedent_balanced(m, kw == Some(BlockWord::Where), c);
    let d = dedent(m, kw == Some(BlockWord::Where));
    assert(d.out.push(';') =~= d.out + seq![';']);
    assert(brace_free(seq![';']));
    lemma_append_free(d, c, seq![';']);
    let m1 = if m.first && kw != Some(BlockWord::Then) {
        separate(d)
    } else {
        m
    };
    assert(balanced(m1, c) && aligned(m1) && m1.trigger == m.trigger);
    if w.len() == 1 && is_closer(w[0]) {
        lemma_close_bracket_balanced(m1, c);
    }
    let m2 = if w.len() == 1 && is_closer(w[0]) {
        close_bracket(m1)
    } else if w.len() == 1 && is_opener(w[0]) {
        open_bracket(m1)
    } else {
        m1
    };
    assert(balanced(m2, c) && aligned(m2));
    reveal_strlit("in");
    reveal_strlit("ifin");
    lemma_close_pair_balanced(m2, BlockWord::Let, "in"@, c);
    lemma_close_pair_balanced(m2, BlockWord::If, "ifin"@, c);
    let m3 = if kw == Some(BlockWord::In) && !m.first {
        close_pair(m2, BlockWord::Let, "in"@)
    } else if kw == Some(BlockWord::Then) {
        close_pair(m2, BlockWord::If, "ifin"@)
    } else {
        m2
    };
    lemma_after_word_balanced(m3, w, c);
}

proof fn lemma_close_bracket_extends(m: Layout)
    ensures
        close_bracket(m).out.len() >= m.out.len(),
        close_bracket(m).out.subrange(0, m.out.len() as int) == m.out,
        close_bracket(m).stash.len() <= m.stash.len(),
        close_bracket(m).trigger == m.trigger,
    decreases m.braces.len(),
{
    if m.braces.len() > 0 && m.braces.last() == 0 {
        let p = pop_block(m);
        lemma_close_bracket_extends(p);
        assert(p.out.subrange(0, m.out.len() as int) =~= m.out);
        assert(close_bracket(m).out.subrange(0, m.out.len() as int) =~= close_bracket(
            p,
        ).out.subrange(0, p.out.len() as int).subrange(0, m.out.len() as int));
    } else {
        assert(m.out.subrange(0, m.out.len() as int) =~= m.out);
    }
}

/// A closing bracket that the innermost block has no open bracket for, after
/// the start of a line, closes that block at once: a `}` comes right after
/// the text so far, and fewer blocks stay open.
pub proof fn lemma_unmatched_bracket_closes_block(m: Layout, w: Seq<char>)
    requires
        w.len() == 1,
        is_closer(w[0]),
        !m.first,
        m.stash.len() > 0,
        m.braces.len() > 0,
        m.braces.last() == 0,
    ensures
        word_step(m, w).out.len() > m.out.len(),
        word_step(m, w).out.subrange(0, m.out.len() + 1 as int) == m.out.push('}'),
        word_step(m, w).stash.len() < m.stash.len() + pending(m),
{
    assert(block_word_of(w) is None) by {
        if w == seq!['d', 'o'] || w == seq!['w', 'h', 'e', 'r', 'e'] || w == seq!['o', 'f'] || w
            == seq!['l', 'e', 't'] || w == seq!['i', 'n'] || w == seq!['i', 'f'] || w == seq![
            't',
            'h',
            'e',
            'n',
        ] || w == seq!['e', 'l', 's', 'e'] {
            assert(w.len() != 1);
        }
    }
    let p = pop_block(m);
    lemma_close_bracket_extends(p);
    let c = close_bracket(p);
    assert(close_bracket(m) == c);
    let r = word_step(m, w);
    assert(r.out == c.out + w);
    assert(c.out.subrange(0, p.out.len() as int) == p.out);
    assert(r.out.subrange(0, m.out.len() + 1 as int) =~= c.out.subrange(0, p.out.len() as int));
}

/// Every block keyword of `s[i..]`, and the one that `m` has waiting, is
/// followed by a word that is not a closing bracket.
pub open spec fn bodies_follow(s: Seq<char>, i: int, m: Layout) -> bool
    decreases s.len() - i,
{
    if i < 0 || i >= s.len() {
        true
    } else {
        match token_end(s, i) {
            None => true,
            Some(end) => if end <= i || end > s.len() {
                true
            } else {
                let w = s.subrange(i, end);
                &&& (m.trigger is Some ==> !(w.len() == 1 && is_closer(w[0])))
                &&& match step(s, i, end, m) {
                    Ok(m2) => bodies_follow(s, end, m2),
                    Err(_) => true,
                }
            },
        }
    }
}

proof fn lemma_run_ends(s: Seq<char>, i: int)
    requires
        0 <= i <= s.len(),
    ensures
        i <= blank_end(s, i) <= s.len(),
        i <= word_end(s, i) <= s.len(),
    decreases s.len() - i,
{
    if i < s.len() {
        lemma_run_ends(s, i + 1);
    }
}

proof fn lemma_run_balanced(s: Seq<char>, i: int, m: Layout)
    requires
        0 <= i <= s.len(),
        balanced(m, s.subrange(0, i)),
        aligned(m),
        bodies_follow(s, i, m),
    ensures
        run(s, i, m) is Ok ==> balanced(run(s, i, m)->Ok_0, s),
    decreases s.len() - i,
{
    if i == s.len() {
        assert(s.subrange(0, i) =~= s);
    } else {
        lemma_run_ends(s, i + 1);
        match token_end(s, i) {
            None => {},
            Some(end) => {
                assert(i < end <= s.len());
                let tok = s.subrange(i, end);
                let c = s.subrange(0, i);
                assert(c + tok =~= s.subrange(0, end));
                if is_blank(s[i]) {
                    lemma_append_read(m, c, tok);
                } else if s[i] == '\n' || s[i] == '\r' {
                    let pad = if m.stash.len() > 1 {
                        (m.stash.len() - 1) as nat
                    } else {
                        0
                    };
                    let sp = Seq::new(pad, |k: int| ' ');
                    lemma_append_read(m, c, tok);
                    lemma_append_free(Layout { out: m.out + tok, ..m }, c + tok, sp);
                    assert(m.out + tok + sp =~= (m.out + tok) + sp);
                } else {
                    assert(tok.len() == 1 ==> tok[0] == s[i]);
                    lemma_word_balanced(m, tok, c);
                }
                let st = step(s, i, end, m);
                if st is Ok {
                    lemma_run_balanced(s, end, st->Ok_0);
                }
            },
        }
    }
}

/// Balance of block delimiters: where every block keyword is followed by a
/// word that is not a closing bracket, and no block keyword is left waiting
/// for its first word at the end, the rewrite adds exactly as many `{` as `}`
/// to those already in the text.
pub proof fn lemma_balanced_delimiters(s: Seq<char>)
    requires
        bodies_follow(s, 0, initial()),
        run(s, 0, initial()) is Ok,
        run(s, 0, initial())->Ok_0.trigger is None,
    ensures
        layout_of(s) is Ok,
        occurrences(layout_of(s)->Ok_0, '{') + occurrences(s, '}') == occurrences(
            layout_of(s)->Ok_0,
            '}',
        ) + occurrences(s, '{'),
{
    assert(initial().out =~= Seq::<char>::empty());
    assert(s.subrange(0, 0) =~= Seq::<char>::empty());
    lemma_run_balanced(s, 0, initial());
    let m = run(s, 0, initial())->Ok_0;
    let closes = Seq::new(m.stash.len(), |k: int| '}');
    lemma_occurrences_append(m.out, closes, '{');
    lemma_occurrences_append(m.out, closes, '}');
    lemma_closes_count(m.stash.len());
}

proof fn lemma_closes_count(n: nat)
    ensures
        occurrences(Seq::new(n, |k: int| '}'), '}') == n,
        occurrences(Seq::new(n, |k: int| '}'), '{') == 0,
    decreases n,
{
    if n > 0 {
        assert(Seq::new(n, |k: int| '}').drop_last() =~= Seq::new((n - 1) as nat, |k: int| '}'));
        lemma_closes_count((n - 1) as nat);
    }
}

} // verus!
