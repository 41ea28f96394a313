//! JSON frontmatter: a block delimited by `---` lines at the top of a file.
use vstd::prelude::*;
use crate::json::{copy_json, Json, JsonV};
use vstd::string::StringExecFns;
use crate::text::{chars_string, str_chars};

verus! {

/// Whether `pat` occurs in `s` at position `i`.
pub open spec fn occurs_at(s: Seq<char>, pat: Seq<char>, i: int) -> bool {
    0 <= i && i + pat.len() <= s.len() && s.subrange(i, i + pat.len()) == pat
}

/// The first position at or after `i` where `pat` occurs in `s`, or -1.
pub open spec fn find_from(s: Seq<char>, pat: Seq<char>, i: int) -> int
    decreases s.len() + 1 - i,
{
    if i < 0 || i + pat.len() > s.len() {
        -1
    } else if occurs_at(s, pat, i) {
        i
    } else {
        find_from(s, pat, i + 1)
    }
}

pub proof fn lemma_find_from(s: Seq<char>, pat: Seq<char>, i: int)
    ensures
        find_from(s, pat, i) == -1 || (i <= find_from(s, pat, i) && occurs_at(
            s,
            pat,
            find_from(s, pat, i),
        )),
    decreases s.len() + 1 - i,
{
    if !(i < 0 || i + pat.len() > s.len()) && !occurs_at(s, pat, i) {
        lemma_find_from(s, pat, i + 1);
    }
}

/// The opening delimiter.
pub open spec fn open_mark() -> Seq<char> {
    seq!['-', '-', '-', '\n']
}

/// The closing delimiter between the JSON and the body.
pub open spec fn close_mark() -> Seq<char> {
    seq!['\n', '-', '-', '-', '\n']
}

/// The closing delimiter at the very end of a file.
pub open spec fn end_mark() -> Seq<char> {
    seq!['\n', '-', '-', '-']
}

/// The JSON text and the body of a file with frontmatter, or `None` for a
/// file without. A file has frontmatter when it starts with `---\n`; the
/// JSON runs up to the first `\n---\n` after that, and the body is what
/// follows it; without such a line, a file that ends in `\n---` has the JSON
/// up to there and an empty body.
pub open spec fn split_frontmatter_spec(t: Seq<char>) -> Option<(Seq<char>, Seq<char>)> {
    if !(t.len() >= 4 && t.take(4) == open_mark()) {
        None
    } else {
        let rest = t.skip(4);
        let p = find_from(rest, close_mark(), 0);
        if p >= 0 {
            Some((rest.take(p), rest.skip(p + 5)))
        } else if rest.len() >= 4 && rest.skip(rest.len() - 4) == end_mark() {
            Some((rest.take(rest.len() - 4), Seq::empty()))
        } else {
            None
        }
    }
}

proof fn lemma_find_first(s: Seq<char>, pat: Seq<char>, i: int, p: int)
    requires
        0 <= i <= p,
        occurs_at(s, pat, p),
        forall|m: int| i <= m < p ==> !occurs_at(s, pat, m),
    ensures
        find_from(s, pat, i) == p,
    decreases p - i,
{
    if i < p {
        lemma_find_first(s, pat, i + 1, p);
    }
}

/// Framing, read back, for JSON text over any number of lines: a file made
/// of a `---` line, the JSON text `j`, a `---` line and a body `b` splits
/// into exactly `j` and `b`, provided `j` holds no `---` line of its own
/// (`j` with the newline that ends it has no `\n---\n`). The JSON ends at
/// the first closing line; a `---` in the body does not matter.
pub proof fn lemma_split_framed_lines(j: Seq<char>, b: Seq<char>)
    requires
        forall|m: int| !occurs_at(j.push('\n'), close_mark(), m),
    ensures
        split_frontmatter_spec(open_mark() + j + close_mark() + b) == Some((j, b)),
{
    let t = open_mark() + j + close_mark() + b;
    let rest = j + close_mark() + b;
    assert(t.take(4) =~= open_mark());
    assert(t.skip(4) =~= rest);
    let p = j.len() as int;
    assert(rest.subrange(p, p + 5) =~= close_mark());
    assert forall|m: int| 0 <= m < p implies !occurs_at(rest, close_mark(), m) by {
        if occurs_at(rest, close_mark(), m) {
            let w = rest.subrange(m, m + 5);
            assert(w == close_mark());
            assert(w[0] == '\n' && w[1] == '-' && w[2] == '-' && w[3] == '-' && w[4] == '\n');
            let jn = j.push('\n');
            if m + 5 <= p + 1 {
                assert(jn.subrange(m, m + 5) =~= w) by {
                    assert forall|q: int| 0 <= q < 5 implies jn.subrange(m, m + 5)[q] == w[q] by {
                        assert(rest[m + q] == jn[m + q]);
                    }
                }
                assert(occurs_at(jn, close_mark(), m));
            } else {
                // a match starting in the last three characters of `j` would
                // reach the closing line's `\n` where it needs a `-`
                assert(rest[p] == '\n');
                assert(rest[p + 1] == '-');
                let q = p - m;
                assert(1 <= q <= 3);
                assert(w[q] == rest[p]);
                assert(w[q] == '-');
            }
        }
    }
    lemma_find_first(rest, close_mark(), 0, p);
    assert(rest.take(p) =~= j);
    assert(rest.skip(p + 5) =~= b);
}

/// Framing, read back, for a one-line JSON text (see
/// `lemma_split_framed_lines`).
pub proof fn lemma_split_framed(j: Seq<char>, b: Seq<char>)
    requires
        forall|i: int| 0 <= i < j.len() ==> #[trigger] j[i] != '\n',
    ensures
        split_frontmatter_spec(open_mark() + j + close_mark() + b) == Some((j, b)),
{
    let jn = j.push('\n');
    assert forall|m: int| !occurs_at(jn, close_mark(), m) by {
        if occurs_at(jn, close_mark(), m) {
            assert(jn.subrange(m, m + 5)[0] == jn[m]);
            assert(jn.subrange(m, m + 5)[4] == jn[m + 4]);
            if m < j.len() {
                assert(jn[m] == j[m]);
            }
        }
    }
    lemma_split_framed_lines(j, b);
}

/// The frontmatter block of a file: its JSON text and the body after it.
#[derive(Debug)]
pub struct FrontmatterBlock {
    pub json: String,
    pub body: String,
}

fn matches_at(s: &Vec<char>, pat: &[char], i: usize) -> (r: bool)
    ensures
        r == occurs_at(s@, pat@, i as int),
{
    if i > s.len() || pat.len() > s.len() - i {
        return false;
    }
    let mut k: usize = 0;
    while k < pat.len()
        invariant
            k <= pat.len(),
            i + pat.len() <= s.len(),
            forall|m: int| 0 <= m < k ==> s@[i + m] == pat@[m],
        decreases pat.len() - k,
    {
        if s[i + k] != pat[k] {
            assert(s@.subrange(i as int, i + pat@.len())[k as int] != pat@[k as int]);
            return false;
        }
        k += 1;
    }
    assert(s@.subrange(i as int, i + pat@.len()) =~= pat@);
    true
}

fn find_chars(s: &Vec<char>, pat: &[char]) -> (r: Option<usize>)
    ensures
        r matches Some(p) ==> find_from(s@, pat@, 0) == p as int,
        r is None ==> find_from(s@, pat@, 0) == -1,
{
    if pat.len() > s.len() {
        return None;
    }
    let last = s.len() - pat.len();
    let mut i: usize = 0;
    loop
        invariant
            i <= last,
            last + pat@.len() == s@.len(),
            find_from(s@, pat@, 0) == find_from(s@, pat@, i as int),
        decreases last - i,
    {
        if matches_at(s, pat, i) {
            return Some(i);
        }
        if i == last {
            assert(find_from(s@, pat@, i + 1) == -1);
            return None;
        }
        i += 1;
    }
}

fn sub_chars(v: &Vec<char>, from: usize, to: usize) -> (r: Vec<char>)
    requires
        from <= to <= v.len(),
    ensures
        r@ == v@.subrange(from as int, to as int),
{
    let mut out: Vec<char> = Vec::new();
    let mut i = from;
    while i < to
        invariant
            from <= i <= to,
            to <= v.len(),
            out@ == v@.subrange(from as int, i as int),
        decreases to - i,
    {
        out.push(v[i]);
        i += 1;
        assert(out@ =~= v@.subrange(from as int, i as int));
    }
    out
}

/// Finds the frontmatter block of `text` (see `split_frontmatter_spec`).
pub fn split_frontmatter(text: &str) -> (r: Option<FrontmatterBlock>)
    ensures
        match split_frontmatter_spec(text@) {
            Some((json, body)) => r matches Some(b) && b.json@ == json && b.body@ == body,
            None => r is None,
        },
{
    let t = str_chars(text);
    let opening = ['-', '-', '-', '\n'];
    if !matches_at(&t, &opening, 0) {
        proof {
            assert(open_mark() =~= opening@);
            if t@.len() >= 4 {
                assert(t@.take(4) =~= t@.subrange(0, 4));
            }
        }
        return None;
    }
    assert(open_mark() =~= opening@);
    assert(t@.take(4) =~= t@.subrange(0, 4));
    let rest = sub_chars(&t, 4, t.len());
    assert(rest@ =~= t@.skip(4));
    let closing = ['\n', '-', '-', '-', '\n'];
    assert(close_mark() =~= closing@);
    match find_chars(&rest, &closing) {
        Some(p) => {
            proof {
                lemma_find_from(rest@, closing@, 0);
            }
            let json = sub_chars(&rest, 0, p);
            let body = sub_chars(&rest, p + 5, rest.len());
            assert(json@ =~= rest@.take(p as int));
            assert(body@ =~= rest@.skip(p + 5));
            Some(FrontmatterBlock { json: chars_string(&json), body: chars_string(&body) })
        },
        None => {
            let ending = ['\n', '-', '-', '-'];
            assert(end_mark() =~= ending@);
            if rest.len() >= 4 && matches_at(&rest, &ending, rest.len() - 4) {
                let json = sub_chars(&rest, 0, rest.len() - 4);
                assert(json@ =~= rest@.take(rest@.len() - 4));
                assert(rest@.skip(rest@.len() - 4) =~= rest@.subrange(
                    rest@.len() - 4,
                    rest@.len() as int,
                ));
                Some(FrontmatterBlock { json: chars_string(&json), body: String::new() })
            } else {
                proof {
                    if rest@.len() >= 4 {
                        assert(rest@.skip(rest@.len() - 4) =~= rest@.subrange(
                            rest@.len() - 4,
                            rest@.len() as int,
                        ));
                    }
                }
                None
            }
        },
    }
}

/// The metadata and body of a file, given what the JSON reader made of the
/// frontmatter block's JSON text (`None` where it is not valid JSON): the
/// parsed value and the body after the block; `null` and the whole text for
/// a file without a block or with a block that is not valid JSON.
pub open spec fn parse_frontmatter_spec(t: Seq<char>, parsed: Option<JsonV>) -> (JsonV, Seq<char>) {
    match (split_frontmatter_spec(t), parsed) {
        (Some((_, body)), Some(v)) => (v, body),
        _ => (JsonV::Null, t),
    }
}

/// Splits `text` into its frontmatter metadata and its body. `parsed` is what
/// the JSON reader made of the block's JSON text (`split_frontmatter(text)`),
/// `None` where that text is not valid JSON or there is no block. Files
/// without valid frontmatter give `null` and their whole text, so that the
/// caller can skip them.
pub fn parse_frontmatter(text: &str, parsed: Option<&Json>) -> (r: (Json, String))
    ensures
        (r.0@, r.1@) == parse_frontmatter_spec(
            text@,
            match parsed {
                Some(v) => Some(v@),
                None => None,
            },
        ),
{
    match (split_frontmatter(text), parsed) {
        (Some(block), Some(v)) => (copy_json(v), block.body),
        _ => (Json::Null, String::from_str(text)),
    }
}

} // verus!
