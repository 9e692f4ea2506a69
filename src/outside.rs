use vstd::prelude::*;

verus! {

/// What `regex::Regex::replace_all` yields for a pattern, a text and a
/// replacement template, or `None` where `Regex::new` rejects the pattern.
pub uninterp spec fn regex_replaced(pattern: Seq<char>, text: Seq<char>, rep: Seq<char>) -> Option<
    Seq<char>,
>;

/// How `regex::Regex::captures_iter` cuts a text: for each match, the text
/// between the previous match and this one, with the match's first capture
/// group; then the rest of the text, with `None`. `None` as a whole where
/// `Regex::new` rejects the pattern.
pub uninterp spec fn regex_pieces(pattern: Seq<char>, text: Seq<char>) -> Option<
    Seq<(Seq<char>, Option<Seq<char>>)>,
>;

/// The standard, padded base64 encoding of the UTF-8 bytes of a text.
pub uninterp spec fn base64_of(text: Seq<char>) -> Seq<char>;

/// A piece of a cut text, as plain sequences.
pub open spec fn piece_view(p: (String, Option<String>)) -> (Seq<char>, Option<Seq<char>>) {
    match p.1 {
        Some(g) => (p.0@, Some(g@)),
        None => (p.0@, None),
    }
}

/// Relies on collecting `char`s into a `String`: the same characters in order.
#[verifier::external_body]
pub(crate) fn string_of(v: &Vec<char>) -> (r: String)
    ensures
        r@ == v@,
{
    v.iter().collect()
}

/// Relies on `regex::Regex::new` and `regex::Regex::replace_all`: every
/// non-overlapping match of `pattern` in `text` replaced by `rep`, where `$1`
/// stands for the first capture group.
#[verifier::external_body]
pub(crate) fn regex_replace(pattern: &str, text: &str, rep: &str) -> (r: Option<String>)
    ensures
        match r {
            Some(t) => regex_replaced(pattern@, text@, rep@) == Some(t@),
            None => regex_replaced(pattern@, text@, rep@) is None,
        },
{
    match regex::Regex::new(pattern) {
        Ok(re) => Some(re.replace_all(text, rep).to_string()),
        Err(_) => None,
    }
}

/// Relies on `regex::Regex::new` and `regex::Regex::captures_iter`: the text
/// cut at each non-overlapping match, keeping each match's first capture group.
#[verifier::external_body]
pub(crate) fn regex_split(pattern: &str, text: &str) -> (r: Option<Vec<(String, Option<String>)>>)
    ensures
        match r {
            Some(v) => regex_pieces(pattern@, text@) == Some(
                v@.map_values(|p: (String, Option<String>)| piece_view(p)),
            ),
            None => regex_pieces(pattern@, text@) is None,
        },
{
    let re = match regex::Regex::new(pattern) {
        Ok(re) => re,
        Err(_) => return None,
    };
    let mut pieces = Vec::new();
    let mut last: usize = 0;
    for caps in re.captures_iter(text) {
        let whole = caps.get(0).unwrap();
        let group = caps.get(1).map_or("", |g| g.as_str()).to_string();
        pieces.push((text[last..whole.start()].to_string(), Some(group)));
        last = whole.end();
    }
    pieces.push((text[last..].to_string(), None));
    Some(pieces)
}

/// Relies on `base64::encode` (standard alphabet, padded) applied to the
/// UTF-8 bytes of `s`.
#[verifier::external_body]
pub(crate) fn encode_literal(s: &str) -> (r: String)
    ensures
        r@ == base64_of(s@),
{
    base64::encode(s)
}

/// Position of the first line feed at or after `i`, or the length of `s`.
pub open spec fn first_newline(s: Seq<char>, i: int) -> int
    decreases s.len() - i,
{
    if i < 0 || i >= s.len() {
        s.len() as int
    } else if s[i] == '\n' {
        i
    } else {
        first_newline(s, i + 1)
    }
}

/// The lines of `s[i..]`: cut at each line feed, without the line feed or a
/// carriage return right before it; no empty line after a final line feed.
pub open spec fn lines_from(s: Seq<char>, i: int) -> Seq<Seq<char>>
    decreases s.len() - i,
{
    let e = first_newline(s, i);
    if i < 0 || i >= s.len() || e < i || e > s.len() {
        Seq::empty()
    } else {
        let raw = s.subrange(i, e);
        let line = if e < s.len() && raw.len() > 0 && raw.last() == '\r' {
            raw.drop_last()
        } else {
            raw
        };
        if e >= s.len() {
            seq![line]
        } else {
            seq![line] + lines_from(s, e + 1)
        }
    }
}

/// What `str::trim_end` leaves of a text.
pub uninterp spec fn trimmed_end(s: Seq<char>) -> Seq<char>;

/// Relies on `str::lines`: the text cut into lines as `lines_from` states.
#[verifier::external_body]
pub(crate) fn lines_of(s: &str) -> (r: Vec<String>)
    ensures
        r@.map_values(|l: String| l@) == lines_from(s@, 0),
{
    s.lines().map(|l| l.to_string()).collect()
}

/// Relies on `str::trim_end`: the text without its trailing white space,
/// which is a prefix of it.
#[verifier::external_body]
pub(crate) fn trim_end_of(s: &str) -> (r: String)
    ensures
        r@ == trimmed_end(s@),
        r@.len() <= s@.len(),
        r@ == s@.subrange(0, r@.len() as int),
{
    s.trim_end().to_string()
}

} // verus!
