//! Context windows around a position in the source, for error reports.
use crate::outside::{lines_from, lines_of, string_of, trim_end_of, trimmed_end};
use crate::text::{append, append_str, chars_of};
use vstd::prelude::*;

verus! {

/// A parse error, with the text of the offending token where there is one.
pub enum SyntaxError {
    InvalidToken { location: usize },
    UnrecognizedToken { start: usize, token: String, end: usize, expected: Vec<String> },
    UnrecognizedEof { location: usize, expected: Vec<String> },
    ExtraToken { start: usize, token: String, end: usize },
    User { error: String },
}

/// One displayed line of source: its 1-based number and the visible part.
pub struct ContextLine {
    pub number: usize,
    pub text: String,
}

/// Up to three displayed lines, and the number of `~` before the `^` that
/// points at the position.
pub struct Excerpt {
    pub lines: Vec<ContextLine>,
    pub arrow: usize,
}

/// A one-line message and the context to show below it.
pub struct Report {
    pub message: String,
    pub excerpt: Option<Excerpt>,
}

/// The window of lines `i..i+3` whose last line holds position `tok`, with
/// `pos` the position where that line starts.
pub open spec fn locate(ls: Seq<Seq<char>>, i: int, pos: int, tok: int) -> Option<(int, int)>
    decreases ls.len() - i,
{
    if i < 0 || i + 3 > ls.len() {
        None
    } else if pos + ls[i + 2].len() >= tok {
        Some((i, pos))
    } else {
        locate(ls, i + 1, pos + ls[i + 2].len() + 1, tok)
    }
}

/// How far the window is shifted right for an arrow of length `arrow`.
pub open spec fn shift(arrow: int) -> int {
    if arrow > 60 {
        arrow - 60
    } else {
        0
    }
}

/// The visible part of a line: shifted by `omit`, at most 70 characters,
/// trailing white space removed.
pub open spec fn window(line: Seq<char>, omit: int) -> Seq<char> {
    let a = if line.len() >= omit {
        line.subrange(omit, line.len() as int)
    } else {
        line
    };
    let b = if a.len() > 70 {
        a.subrange(0, 70)
    } else {
        a
    };
    trimmed_end(b)
}

/// The lines to display around position `tok` of `code`, with their numbers,
/// and the arrow length; `None` where `tok` lies past the last line.
pub open spec fn excerpt_of(code: Seq<char>, tok: int) -> Option<(Seq<(int, Seq<char>)>, int)> {
    let ls = lines_from(seq!['\n', '\n'] + code, 0);
    match locate(ls, 0, 0, tok) {
        None => None,
        Some(w) => {
            let i = w.0;
            let arrow = tok - w.1 + 6;
            let omit = shift(arrow);
            let above = if i > 1 {
                seq![(i - 1, window(ls[i], omit))]
            } else {
                Seq::empty()
            };
            let prev = if i > 0 {
                seq![(i, window(ls[i + 1], omit))]
            } else {
                Seq::empty()
            };
            Some((above + prev + seq![(i + 1, window(ls[i + 2], omit))], arrow - omit))
        },
    }
}

pub open spec fn line_view(c: ContextLine) -> (int, Seq<char>) {
    (c.number as int, c.text@)
}

pub open spec fn excerpt_view(e: Excerpt) -> (Seq<(int, Seq<char>)>, int) {
    (e.lines@.map_values(|c: ContextLine| line_view(c)), e.arrow as int)
}

/// The visible part of `line` for a shift of `omit`.
fn window_of(line: &String, omit: usize) -> (r: String)
    ensures
        r@ == window(line@, omit as int),
        r@.len() <= 70,
{
    let v = chars_of(line.as_str());
    let start: usize = if v.len() >= omit {
        omit
    } else {
        0
    };
    let stop: usize = if v.len() - start > 70 {
        start + 70
    } else {
        v.len()
    };
    let mut b: Vec<char> = Vec::new();
    let mut k: usize = start;
    while k < stop
        invariant
            start <= k <= stop <= v@.len(),
            b@ == v@.subrange(start as int, k as int),
        decreases stop - k,
    {
        b.push(v[k]);
        k = k + 1;
        assert(v@.subrange(start as int, k as int) =~= v@.subrange(start as int, k - 1).push(
            v@[k - 1],
        ));
    }
    proof {
        let a = if v@.len() >= omit {
            v@.subrange(omit as int, v@.len() as int)
        } else {
            v@
        };
        if a.len() > 70 {
            assert(b@ =~= a.subrange(0, 70));
        } else {
            assert(b@ =~= a);
        }
    }
    trim_end_of(string_of(&b).as_str())
}

/// How many bytes UTF-8 takes for `c`.
pub open spec fn utf8_width(c: char) -> int {
    if (c as u32) < 0x80 {
        1
    } else if (c as u32) < 0x800 {
        2
    } else if (c as u32) < 0x10000 {
        3
    } else {
        4
    }
}

/// The character index, from `k` on, of the byte offset that lies `rem`
/// bytes after the start of character `k`; an offset inside a character
/// counts as that character's end, and one past the text goes on one
/// character per byte.
pub open spec fn char_index_from(s: Seq<char>, k: int, rem: int) -> int
    decreases s.len() - k,
{
    if k < 0 || k >= s.len() {
        k + rem
    } else if rem <= 0 {
        k
    } else {
        let r = rem - utf8_width(s[k]);
        char_index_from(
            s,
            k + 1,
            if r > 0 {
                r
            } else {
                0
            },
        )
    }
}

/// The character index of byte offset `b` of `s`.
pub fn char_index(s: &Vec<char>, b: usize) -> (r: usize)
    ensures
        r == char_index_from(s@, 0, b as int),
{
    let mut k: usize = 0;
    let mut rem: usize = b;
    while k < s.len() && rem > 0
        invariant
            k <= s@.len(),
            k + rem <= b,
            char_index_from(s@, 0, b as int) == char_index_from(s@, k as int, rem as int),
        decreases s@.len() - k,
    {
        let c = s[k];
        let w: usize = if (c as u32) < 0x80 {
            1
        } else if (c as u32) < 0x800 {
            2
        } else if (c as u32) < 0x10000 {
            3
        } else {
            4
        };
        rem = if w >= rem {
            0
        } else {
            rem - w
        };
        k = k + 1;
    }
    k + rem
}

/// The context around byte offset `tok_pos` of `code`: the line that holds
/// it and the two before it, each at most 70 characters wide.
pub fn code_context(code: &str, tok_pos: usize) -> (r: Option<Excerpt>)
    ensures
        match excerpt_of(code@, char_index_from(code@, 0, tok_pos as int)) {
            None => r is None,
            Some(x) => r is Some && excerpt_view(r->Some_0) == x,
        },
        r is Some ==> forall|k: int|
            0 <= k < r->Some_0.lines@.len() ==> (#[trigger] r->Some_0.lines@[k]).text@.len() <= 70,
{
    let mut full: Vec<char> = Vec::new();
    full.push('\n');
    full.push('\n');
    let cv = chars_of(code);
    let idx = char_index(&cv, tok_pos);
    append(&mut full, &cv);
    assert(full@ =~= seq!['\n', '\n'] + code@);
    let text = string_of(&full);
    let ls = lines_of(text.as_str());
    let ghost lv = ls@.map_values(|l: String| l@);
    let ghost tok = idx as int;
    let mut i: usize = 0;
    let mut pos: usize = 0;
    while ls.len() >= 3 && i < ls.len() - 2
        invariant
            lv == ls@.map_values(|l: String| l@),
            lv == lines_from(seq!['\n', '\n'] + code@, 0),
            locate(lv, 0, 0, tok) == locate(lv, i as int, pos as int, tok),
            pos <= idx,
            tok == idx as int,
            tok == char_index_from(code@, 0, tok_pos as int),
        decreases ls@.len() - i,
    {
        let line_chars = chars_of(ls[i + 2].as_str());
        let len = line_chars.len();
        assert(lv.len() == ls@.len());
        assert(lv[i + 2] == ls@[i + 2]@);
        assert(line_chars@ == lv[i + 2]);
        if len >= idx - pos {
            let d = idx - pos;
            let omit: usize = if d > 54 {
                d - 54
            } else {
                0
            };
            let arrow: usize = if d > 54 {
                60
            } else {
                d + 6
            };
            let mut lines: Vec<ContextLine> = Vec::new();
            if i > 1 {
                lines.push(ContextLine { number: i - 1, text: window_of(&ls[i], omit) });
            }
            if i > 0 {
                lines.push(ContextLine { number: i, text: window_of(&ls[i + 1], omit) });
            }
            lines.push(ContextLine { number: i + 1, text: window_of(&ls[i + 2], omit) });
            let r = Excerpt { lines, arrow };
            proof {
                assert(0 <= i && i + 3 <= lv.len());
                assert(locate(lv, i as int, pos as int, tok) == Some((i as int, pos as int)));
                let x = excerpt_of(code@, tok).unwrap();
                assert(x.1 == arrow);
                let omit_i = shift(tok - pos + 6);
                assert(omit_i == omit);
                assert(lv[i as int] == ls@[i as int]@);
                assert(lv[i + 1] == ls@[i + 1]@);
                assert(excerpt_view(r).0 =~= x.0);
            }
            return Some(r);
        }
        pos = pos + len + 1;
        i = i + 1;
    }
    None
}

/// The text of each expected item, one per line.
pub open spec fn join_lines(xs: Seq<Seq<char>>) -> Seq<char>
    decreases xs.len(),
{
    if xs.len() == 0 {
        Seq::empty()
    } else if xs.len() == 1 {
        xs[0]
    } else {
        join_lines(xs.drop_last()) + seq!['\n'] + xs.last()
    }
}

/// The message for each kind of error; none for an error of the grammar's
/// own actions, which its caller reports.
pub open spec fn message_of(e: SyntaxError) -> Option<Seq<char>> {
    match e {
        SyntaxError::InvalidToken { .. } => Some("Error: Invalid token:"@),
        SyntaxError::UnrecognizedToken { token, .. } => Some(
            "Error: Unrecognized token `"@ + token@ + "`:"@,
        ),
        SyntaxError::UnrecognizedEof { expected, .. } => Some(
            "Error: Unrecognized eof `"@ + join_lines(expected@.map_values(|x: String| x@))
                + "`:"@,
        ),
        SyntaxError::ExtraToken { token, .. } => Some("Error: Extra token `"@ + token@ + "`:"@),
        SyntaxError::User { .. } => None,
    }
}

/// Where the error is reported.
pub open spec fn location_of(e: SyntaxError) -> int {
    match e {
        SyntaxError::InvalidToken { location } => location as int,
        SyntaxError::UnrecognizedToken { start, .. } => start as int,
        SyntaxError::UnrecognizedEof { location, .. } => location as int,
        SyntaxError::ExtraToken { start, .. } => start as int,
        SyntaxError::User { .. } => 0,
    }
}

/// `expected` joined with line feeds.
fn join(expected: &Vec<String>) -> (r: Vec<char>)
    ensures
        r@ == join_lines(expected@.map_values(|x: String| x@)),
{
    let ghost xs = expected@.map_values(|x: String| x@);
    let mut out: Vec<char> = Vec::new();
    let mut j: usize = 0;
    while j < expected.len()
        invariant
            j <= expected@.len(),
            xs == expected@.map_values(|x: String| x@),
            out@ == join_lines(xs.subrange(0, j as int)),
        decreases expected@.len() - j,
    {
        assert(xs.subrange(0, j + 1).drop_last() =~= xs.subrange(0, j as int));
        if j > 0 {
            out.push('\n');
        }
        append_str(&mut out, expected[j].as_str());
        j = j + 1;
        assert(out@ =~= join_lines(xs.subrange(0, j as int)));
    }
    assert(xs.subrange(0, xs.len() as int) =~= xs);
    out
}

/// The message and context window for a parse error of `code`, whose
/// locations are byte offsets; `None` for an error of the grammar's own
/// actions.
pub fn describe_parse_error(code: &str, err: &SyntaxError) -> (r: Option<Report>)
    ensures
        match message_of(*err) {
            None => r is None,
            Some(m) => r is Some && r->Some_0.message@ == m && match excerpt_of(
                code@,
                char_index_from(code@, 0, location_of(*err)),
            ) {
                None => r->Some_0.excerpt is None,
                Some(x) => r->Some_0.excerpt is Some && excerpt_view(r->Some_0.excerpt->Some_0)
                    == x,
            },
        },
{
    let mut m: Vec<char> = Vec::new();
    let loc: usize;
    match err {
        SyntaxError::InvalidToken { location } => {
            append_str(&mut m, "Error: Invalid token:");
            loc = *location;
        },
        SyntaxError::UnrecognizedToken { start, token, .. } => {
            append_str(&mut m, "Error: Unrecognized token `");
            append_str(&mut m, token.as_str());
            append_str(&mut m, "`:");
            loc = *start;
        },
        SyntaxError::UnrecognizedEof { location, expected } => {
            append_str(&mut m, "Error: Unrecognized eof `");
            append(&mut m, &join(expected));
            append_str(&mut m, "`:");
            loc = *location;
        },
        SyntaxError::ExtraToken { start, token, .. } => {
            append_str(&mut m, "Error: Extra token `");
            append_str(&mut m, token.as_str());
            append_str(&mut m, "`:");
            loc = *start;
        },
        SyntaxError::User { .. } => {
            return None;
        },
    }
    assert(m@ =~= message_of(*err)->Some_0);
    Some(Report { message: string_of(&m), excerpt: code_context(code, loc) })
}

} // verus!
