//! Removes comments, directives and trailing semicolons, and re-encodes
//! character and string literals so that later passes never look inside them.
use crate::fault::Fault;
use crate::text::{append_str, chars_of};
use crate::outside::{
    base64_of, encode_literal, piece_view, regex_pieces, regex_replace, regex_replaced,
    regex_split, string_of,
};
use vstd::prelude::*;

verus! {

/// A `{- ... -}` block comment, shortest match.
pub const BLOCK_COMMENT: &'static str = r"\{-[\s\S]*?-\}";

/// A `--` line comment whose next character is not a quote.
pub const LINE_COMMENT: &'static str = r#"--[^\n\r"][^\n\r]*"#;

/// A `--` right before the line break.
pub const EMPTY_COMMENT: &'static str = r#"--([\n\r])"#;

/// Semicolons, and the blanks after them, at the end of a line.
pub const TRAILING_SEMICOLONS: &'static str = r"(?m);+\s*$";

/// A conditional or inclusion directive line.
pub const DIRECTIVE: &'static str = r"(?m)^#(if|ifn?def|endif|else|include|elif).*";

/// A character literal; its payload is the first group.
pub const CHAR_LITERAL: &'static str = r"'([^'\\]|\\[A-Z]{1,3}|\\.)'";

/// A string literal; its payload is the first group.
pub const STRING_LITERAL: &'static str = r#""(([^"\\]|\\.)*?)""#;

/// `forall` with its bound variables and the closing period.
pub const FORALL_DOT: &'static str = r"forall\s+(.*?)\.";

/// The character that an escape letter stands for.
pub open spec fn escape_code(c: char) -> Option<char> {
    if c == 'a' {
        Some('\x07')
    } else if c == 'b' {
        Some('\x08')
    } else if c == 'f' {
        Some('\x0c')
    } else if c == 'n' {
        Some('\n')
    } else if c == 'r' {
        Some('\r')
    } else if c == 't' {
        Some('\t')
    } else if c == 'v' {
        Some('\x0b')
    } else if c == '\'' || c == '"' || c == '\\' {
        Some(c)
    } else if c == '0' {
        Some('\0')
    } else {
        None
    }
}

/// `p` in front of a decoded text, or nothing where decoding failed.
pub open spec fn prefix_with(p: Seq<char>, o: Option<Seq<char>>) -> Option<Seq<char>> {
    match o {
        Some(x) => Some(p + x),
        None => None,
    }
}

/// Escape sequences replaced by what they stand for, left to right; `None`
/// where a backslash starts none of the known escapes.
pub open spec fn decode_escapes(s: Seq<char>) -> Option<Seq<char>>
    decreases s.len(),
{
    if s.len() == 0 {
        Some(Seq::empty())
    } else if s[0] != '\\' {
        prefix_with(seq![s[0]], decode_escapes(s.subrange(1, s.len() as int)))
    } else if s.len() >= 2 && escape_code(s[1]) is Some {
        prefix_with(
            seq![escape_code(s[1])->Some_0],
            decode_escapes(s.subrange(2, s.len() as int)),
        )
    } else if s.len() >= 4 && s.subrange(1, 4) == seq!['N', 'U', 'L'] {
        prefix_with(seq!['\0'], decode_escapes(s.subrange(4, s.len() as int)))
    } else if s.len() >= 4 && s.subrange(1, 4) == seq!['E', 'S', 'C'] {
        prefix_with(seq!['\x1b'], decode_escapes(s.subrange(4, s.len() as int)))
    } else {
        None
    }
}

/// What a literal with payload `g` becomes: the decoded payload, encoded,
/// between the quotes. Every escape must be known, and a character literal
/// must decode to one character.
pub open spec fn literal_text(g: Seq<char>, quote: char, single: bool) -> Result<Seq<char>, Fault> {
    match decode_escapes(g) {
        None => Err(Fault::UnknownEscape),
        Some(d) => if single && d.len() != 1 {
            Err(Fault::MultiCharLiteral)
        } else {
            Ok(seq![quote] + base64_of(d) + seq![quote])
        },
    }
}

/// The pieces of a cut text put back together, each literal rewritten.
pub open spec fn rebuild(pieces: Seq<(Seq<char>, Option<Seq<char>>)>, quote: char, single: bool) -> Result<
    Seq<char>,
    Fault,
>
    decreases pieces.len(),
{
    if pieces.len() == 0 {
        Ok(Seq::empty())
    } else {
        match rebuild(pieces.drop_last(), quote, single) {
            Err(f) => Err(f),
            Ok(pre) => {
                let p = pieces.last();
                match p.1 {
                    None => Ok(pre + p.0),
                    Some(g) => match literal_text(g, quote, single) {
                        Err(f) => Err(f),
                        Ok(l) => Ok(pre + p.0 + l),
                    },
                }
            },
        }
    }
}

/// Every match of `pattern` in `t` replaced by `rep`.
pub open spec fn then_replace(t: Result<Seq<char>, Fault>, pattern: Seq<char>, rep: Seq<char>) -> Result<
    Seq<char>,
    Fault,
> {
    match t {
        Err(f) => Err(f),
        Ok(x) => match regex_replaced(pattern, x, rep) {
            Some(y) => Ok(y),
            None => Err(Fault::PatternRejected),
        },
    }
}

/// Every literal that `pattern` finds in `t` rewritten.
pub open spec fn then_literals(t: Result<Seq<char>, Fault>, pattern: Seq<char>, quote: char, single: bool) -> Result<
    Seq<char>,
    Fault,
> {
    match t {
        Err(f) => Err(f),
        Ok(x) => match regex_pieces(pattern, x) {
            Some(p) => rebuild(p, quote, single),
            None => Err(Fault::PatternRejected),
        },
    }
}

/// The whole pass, stage by stage.
pub open spec fn strip_of(text: Seq<char>) -> Result<Seq<char>, Fault> {
    let t1 = then_replace(Ok(text), BLOCK_COMMENT@, ""@);
    let t2 = then_replace(t1, LINE_COMMENT@, ""@);
    let t3 = then_replace(t2, EMPTY_COMMENT@, "$1"@);
    let t4 = then_replace(t3, TRAILING_SEMICOLONS@, ""@);
    let t5 = then_replace(t4, DIRECTIVE@, ""@);
    let t6 = then_literals(t5, CHAR_LITERAL@, '\'', true);
    let t7 = then_literals(t6, STRING_LITERAL@, '"', false);
    then_replace(t7, FORALL_DOT@, "forall $1;"@)
}

/// Replaces the escape sequences in `s` by what they stand for; `None` where
/// a backslash starts none of the known escapes.
pub fn decode(s: &Vec<char>) -> (r: Option<Vec<char>>)
    ensures
        match decode_escapes(s@) {
            Some(d) => r is Some && r->Some_0@ == d,
            None => r is None,
        },
{
    let mut out: Vec<char> = Vec::new();
    let mut i: usize = 0;
    let n = s.len();
    assert(s@.subrange(0, n as int) =~= s@);
    proof {
        match decode_escapes(s@) {
            Some(d) => assert(out@ + d =~= d),
            None => {},
        }
    }
    while i < n
        invariant
            n == s@.len(),
            i <= n,
            decode_escapes(s@) == prefix_with(out@, decode_escapes(s@.subrange(i as int, n as int))),
        decreases n - i,
    {
        let ghost rest = s@.subrange(i as int, n as int);
        let c = s[i];
        let mut step: usize = 1;
        let mut d = c;
        if c == '\\' {
            let code = if n - i > 1 {
                escape_of(s[i + 1])
            } else {
                None
            };
            match code {
                Some(x) => {
                    d = x;
                    step = 2;
                },
                None => {
                    if n - i > 3 && s[i + 1] == 'N' && s[i + 2] == 'U' && s[i + 3] == 'L' {
                        assert(rest.subrange(1, 4) =~= seq!['N', 'U', 'L']);
                        d = '\0';
                        step = 4;
                    } else if n - i > 3 && s[i + 1] == 'E' && s[i + 2] == 'S' && s[i + 3] == 'C' {
                        assert(rest.subrange(1, 4) =~= seq!['E', 'S', 'C']);
                        d = '\x1b';
                        step = 4;
                    } else {
                        proof {
                            if rest.len() >= 4 {
                                assert(rest.subrange(1, 4)[0] == s@[i + 1]);
                                assert(rest.subrange(1, 4)[1] == s@[i + 2]);
                                assert(rest.subrange(1, 4)[2] == s@[i + 3]);
                            }
                            assert(decode_escapes(rest) is None);
                        }
                        return None;
                    }
                },
            }
        }
        let ghost tail = s@.subrange(i + step, n as int);
        assert(rest.subrange(step as int, rest.len() as int) =~= tail);
        assert(decode_escapes(rest) == prefix_with(seq![d], decode_escapes(tail)));
        out.push(d);
        i = i + step;
        proof {
            match decode_escapes(tail) {
                Some(x) => assert(out@ + x =~= out@.drop_last() + (seq![d] + x)),
                None => {},
            }
        }
    }
    assert(s@.subrange(n as int, n as int) =~= Seq::<char>::empty());
    assert(out@ + Seq::<char>::empty() =~= out@);
    Some(out)
}

/// The character that escape letter `c` stands for, if any.
fn escape_of(c: char) -> (r: Option<char>)
    ensures
        r == escape_code(c),
{
    if c == 'a' {
        Some('\x07')
    } else if c == 'b' {
        Some('\x08')
    } else if c == 'f' {
        Some('\x0c')
    } else if c == 'n' {
        Some('\n')
    } else if c == 'r' {
        Some('\r')
    } else if c == 't' {
        Some('\t')
    } else if c == 'v' {
        Some('\x0b')
    } else if c == '\'' || c == '"' || c == '\\' {
        Some(c)
    } else if c == '0' {
        Some('\0')
    } else {
        None
    }
}

/// What a literal with payload `g` becomes between `quote`s; an error where
/// an escape is unknown or a character literal (`single`) does not decode to
/// exactly one character.
pub fn rewrite_literal(g: &str, quote: char, single: bool) -> (r: Result<String, Fault>)
    ensures
        match literal_text(g@, quote, single) {
            Ok(t) => r is Ok && r->Ok_0@ == t,
            Err(f) => r == Err::<String, Fault>(f),
        },
{
    let d = match decode(&chars_of(g)) {
        Some(d) => d,
        None => return Err(Fault::UnknownEscape),
    };
    if single && d.len() != 1 {
        return Err(Fault::MultiCharLiteral);
    }
    let ds = string_of(&d);
    let mut v: Vec<char> = Vec::new();
    v.push(quote);
    append_str(&mut v, encode_literal(ds.as_str()).as_str());
    v.push(quote);
    assert(v@ =~= seq![quote] + base64_of(d@) + seq![quote]);
    Ok(string_of(&v))
}

/// Every match of `pattern` in `t` replaced by `rep`.
pub(crate) fn replace(t: &str, pattern: &str, rep: &str) -> (r: Result<String, Fault>)
    ensures
        match then_replace(Ok(t@), pattern@, rep@) {
            Ok(x) => r is Ok && r->Ok_0@ == x,
            Err(f) => r == Err::<String, Fault>(f),
        },
{
    match regex_replace(pattern, t, rep) {
        Some(x) => Ok(x),
        None => Err(Fault::PatternRejected),
    }
}

/// Every literal that `pattern` finds in `t` rewritten between `quote`s.
fn rewrite_literals(t: &str, pattern: &str, quote: char, single: bool) -> (r: Result<String, Fault>)
    ensures
        match then_literals(Ok(t@), pattern@, quote, single) {
            Ok(x) => r is Ok && r->Ok_0@ == x,
            Err(f) => r == Err::<String, Fault>(f),
        },
{
    let pieces = match regex_split(pattern, t) {
        Some(p) => p,
        None => return Err(Fault::PatternRejected),
    };
    let ghost pv = pieces@.map_values(|p: (String, Option<String>)| piece_view(p));
    assert(regex_pieces(pattern@, t@) == Some(pv));
    let mut out: Vec<char> = Vec::new();
    let mut j: usize = 0;
    while j < pieces.len()
        invariant
            j <= pieces@.len(),
            pv == pieces@.map_values(|p: (String, Option<String>)| piece_view(p)),
            regex_pieces(pattern@, t@) == Some(pv),
            rebuild(pv.subrange(0, j as int), quote, single) == Ok::<Seq<char>, Fault>(out@),
        decreases pieces@.len() - j,
    {
        assert(pv.subrange(0, j + 1).drop_last() =~= pv.subrange(0, j as int));
        assert(pv.subrange(0, j + 1).last() == piece_view(pieces@[j as int]));
        append_str(&mut out, pieces[j].0.as_str());
        match &pieces[j].1 {
            None => {},
            Some(g) => {
                match rewrite_literal(g.as_str(), quote, single) {
                    Err(f) => {
                        proof {
                            assert(piece_view(pieces@[j as int]).1 == Some(g@));
                            assert(rebuild(pv.subrange(0, j + 1), quote, single) == Err::<
                                Seq<char>,
                                Fault,
                            >(f));
                            lemma_rebuild_stops(pv, j + 1, quote, single);
                        }
                        return Err(f);
                    },
                    Ok(l) => {
                        append_str(&mut out, l.as_str());
                    },
                }
            },
        }
        j = j + 1;
    }
    assert(pv.subrange(0, pv.len() as int) =~= pv);
    Ok(string_of(&out))
}

/// Once a prefix of the pieces fails, the whole rebuild fails the same way.
proof fn lemma_rebuild_stops(
    p: Seq<(Seq<char>, Option<Seq<char>>)>,
    k: int,
    quote: char,
    single: bool,
)
    requires
        0 <= k <= p.len(),
        rebuild(p.subrange(0, k), quote, single) is Err,
    ensures
        rebuild(p, quote, single) == rebuild(p.subrange(0, k), quote, single),
    decreases p.len(),
{
    if k == p.len() {
        assert(p.subrange(0, k) =~= p);
    } else {
        assert(p.drop_last().subrange(0, k) =~= p.subrange(0, k));
        lemma_rebuild_stops(p.drop_last(), k, quote, single);
    }
}

/// A literal whose payload is printable ASCII without a backslash has no
/// escape to decode: the encoder receives the payload exactly as written.
pub proof fn lemma_plain_literal_round_trip(g: Seq<char>, quote: char, single: bool)
    requires
        forall|k: int| 0 <= k < g.len() ==> ' ' <= #[trigger] g[k] <= '~' && g[k] != '\\',
        single ==> g.len() == 1,
    ensures
        decode_escapes(g) == Some(g),
        literal_text(g, quote, single) == Ok::<Seq<char>, Fault>(
            seq![quote] + base64_of(g) + seq![quote],
        ),
    decreases g.len(),
{
    if g.len() > 0 {
        let rest = g.subrange(1, g.len() as int);
        assert forall|k: int| 0 <= k < rest.len() implies ' ' <= #[trigger] rest[k] <= '~' && rest[k]
            != '\\' by {
            assert(rest[k] == g[k + 1]);
        }
        lemma_plain_literal_round_trip(rest, quote, false);
        assert(g =~= seq![g[0]] + rest);
        assert(g.subrange(1, g.len() as int) == rest);
    } else {
        assert(g =~= Seq::<char>::empty());
    }
}

/// Removes comments, directive lines and trailing semicolons, re-encodes
/// character and string literals, and turns `forall a b.` into `forall a b;`.
pub fn strip_comments(text: &str) -> (r: Result<String, Fault>)
    ensures
        match strip_of(text@) {
            Ok(x) => r is Ok && r->Ok_0@ == x,
            Err(f) => r == Err::<String, Fault>(f),
        },
{
    let t1 = match replace(text, BLOCK_COMMENT, "") {
        Ok(t) => t,
        Err(f) => return Err(f),
    };
    let t2 = match replace(t1.as_str(), LINE_COMMENT, "") {
        Ok(t) => t,
        Err(f) => return Err(f),
    };
    let t3 = match replace(t2.as_str(), EMPTY_COMMENT, "$1") {
        Ok(t) => t,
        Err(f) => return Err(f),
    };
    let t4 = match replace(t3.as_str(), TRAILING_SEMICOLONS, "") {
        Ok(t) => t,
        Err(f) => return Err(f),
    };
    let t5 = match replace(t4.as_str(), DIRECTIVE, "") {
        Ok(t) => t,
        Err(f) => return Err(f),
    };
    let t6 = match rewrite_literals(t5.as_str(), CHAR_LITERAL, '\'', true) {
        Ok(t) => t,
        Err(f) => return Err(f),
    };
    let t7 = match rewrite_literals(t6.as_str(), STRING_LITERAL, '"', false) {
        Ok(t) => t,
        Err(f) => return Err(f),
    };
    replace(t7.as_str(), FORALL_DOT, "forall $1;")
}

} // verus!
