//! Character-level text processing: whitespace collapsing, word capitalisation,
//! tag stripping and HTML entity decoding.
use vstd::prelude::*;
use vstd::string::StringExecFns;

verus! {

/// `String::push` appends one character to the end of the string.
pub assume_specification[ String::push ](s: &mut String, ch: char)
    ensures
        final(s)@ == old(s)@.push(ch),
;

/// `char::from_u32` gives the character with that scalar value, or `None` for
/// surrogates and values above `char::MAX`.
pub assume_specification[ char::from_u32 ](i: u32) -> (r: Option<char>)
    ensures
        is_scalar_value(i as int) ==> r == Some(i as char),
        !is_scalar_value(i as int) ==> r is None,
;

/// Whether `v` is a Unicode scalar value, i.e. a value a `char` can hold.
pub open spec fn is_scalar_value(v: int) -> bool {
    (0 <= v <= 0xD7FF) || (0xE000 <= v <= 0x10FFFF)
}

// ---------------------------------------------------------------------------
// Basic conversions between strings and character vectors
// ---------------------------------------------------------------------------

/// The characters of `s`, in order.
pub fn str_chars(s: &str) -> (r: Vec<char>)
    ensures
        r@ == s@,
{
    let mut out: Vec<char> = Vec::new();
    for c in it: s.chars()
        invariant
            it.seq() == s@,
            out@ == it.seq().take(it.index() as int),
    {
        out.push(c);
    }
    out
}

/// The string made of the characters of `v`, in order.
pub fn chars_string(v: &Vec<char>) -> (r: String)
    ensures
        r@ == v@,
{
    let mut out = String::new();
    let mut i: usize = 0;
    while i < v.len()
        invariant
            i <= v.len(),
            out@ == v@.take(i as int),
        decreases v.len() - i,
    {
        out.push(v[i]);
        i += 1;
        assert(out@ =~= v@.take(i as int));
    }
    assert(v@.take(v.len() as int) =~= v@);
    out
}

// ---------------------------------------------------------------------------
// Whitespace
// ---------------------------------------------------------------------------

/// Unicode `White_Space`, the property that `char::is_whitespace` tests.
pub open spec fn spec_is_whitespace(c: char) -> bool {
    let v = c as u32;
    ||| 0x09 <= v <= 0x0D
    ||| v == 0x20
    ||| v == 0x85
    ||| v == 0xA0
    ||| v == 0x1680
    ||| 0x2000 <= v <= 0x200A
    ||| v == 0x2028
    ||| v == 0x2029
    ||| v == 0x202F
    ||| v == 0x205F
    ||| v == 0x3000
}

/// Whether `c` is whitespace in the sense of `char::is_whitespace`.
pub fn is_whitespace(c: char) -> (r: bool)
    ensures
        r == spec_is_whitespace(c),
{
    let v = c as u32;
    (0x09 <= v && v <= 0x0D) || v == 0x20 || v == 0x85 || v == 0xA0 || v == 0x1680 || (0x2000
        <= v && v <= 0x200A) || v == 0x2028 || v == 0x2029 || v == 0x202F || v == 0x205F || v
        == 0x3000
}

/// Collapsing whitespace, read left to right: the text so far and whether a
/// run of whitespace has been seen since the last word character.
/// The result keeps every maximal run of non-whitespace characters (a word)
/// and puts exactly one space between consecutive words, as
/// `split_whitespace().collect::<Vec<_>>().join(" ")` does.
pub open spec fn collapse_state(s: Seq<char>) -> (Seq<char>, bool)
    decreases s.len(),
{
    if s.len() == 0 {
        (Seq::empty(), false)
    } else {
        let (out, gap) = collapse_state(s.drop_last());
        let c = s.last();
        if spec_is_whitespace(c) {
            (out, true)
        } else if gap && out.len() > 0 {
            (out.push(' ').push(c), false)
        } else {
            (out.push(c), false)
        }
    }
}

/// The words of `s` joined by single spaces.
pub open spec fn collapse_whitespace_spec(s: Seq<char>) -> Seq<char> {
    collapse_state(s).0
}

/// Joins the whitespace-separated words of `v` with single spaces.
pub fn collapse_whitespace(v: &Vec<char>) -> (r: Vec<char>)
    ensures
        r@ == collapse_whitespace_spec(v@),
{
    let mut out: Vec<char> = Vec::new();
    let mut gap = false;
    let mut i: usize = 0;
    while i < v.len()
        invariant
            i <= v.len(),
            (out@, gap) == collapse_state(v@.take(i as int)),
        decreases v.len() - i,
    {
        let c = v[i];
        assert(v@.take(i + 1).drop_last() =~= v@.take(i as int));
        if is_whitespace(c) {
            gap = true;
        } else {
            if gap && out.len() > 0 {
                out.push(' ');
            }
            out.push(c);
            gap = false;
        }
        i += 1;
    }
    assert(v@.take(v.len() as int) =~= v@);
    out
}

/// A collapsed text neither starts nor ends with whitespace, and every
/// whitespace character in it is a single space standing between two
/// non-whitespace characters.
pub proof fn lemma_collapsed_shape(s: Seq<char>)
    ensures
        ({
            let r = collapse_whitespace_spec(s);
            &&& r.len() > 0 ==> !spec_is_whitespace(r[0]) && !spec_is_whitespace(r.last())
            &&& forall|i: int|
                0 <= i < r.len() && spec_is_whitespace(#[trigger] r[i]) ==> {
                    &&& r[i] == ' '
                    &&& 0 < i < r.len() - 1
                    &&& !spec_is_whitespace(r[i - 1])
                    &&& !spec_is_whitespace(r[i + 1])
                }
        }),
    decreases s.len(),
{
    if s.len() > 0 {
        lemma_collapsed_shape(s.drop_last());
        let (out, gap) = collapse_state(s.drop_last());
        let c = s.last();
        let r = collapse_whitespace_spec(s);
        if !spec_is_whitespace(c) {
            assert(spec_is_whitespace(' '));
            assert forall|i: int|
                0 <= i < r.len() && spec_is_whitespace(#[trigger] r[i]) implies {
                &&& r[i] == ' '
                &&& 0 < i < r.len() - 1
                &&& !spec_is_whitespace(r[i - 1])
                &&& !spec_is_whitespace(r[i + 1])
            } by {
                if i < out.len() {
                    assert(r[i] == out[i]);
                }
            }
        }
    }
}

/// A text that has no whitespace other than single spaces between words is
/// left unchanged by collapsing.
pub proof fn lemma_collapse_identity(s: Seq<char>)
    requires
        s.len() > 0 ==> !spec_is_whitespace(s[0]) && !spec_is_whitespace(s.last()),
        forall|i: int|
            0 <= i < s.len() && spec_is_whitespace(#[trigger] s[i]) ==> {
                &&& s[i] == ' '
                &&& 0 < i < s.len() - 1
                &&& !spec_is_whitespace(s[i - 1])
            },
    ensures
        collapse_whitespace_spec(s) == s,
{
    lemma_collapse_identity_prefix(s, s.len() as int);
    assert(s.take(s.len() as int) =~= s);
}

proof fn lemma_collapse_identity_prefix(s: Seq<char>, n: int)
    requires
        0 <= n <= s.len(),
        s.len() > 0 ==> !spec_is_whitespace(s[0]),
        forall|i: int|
            0 <= i < s.len() && spec_is_whitespace(#[trigger] s[i]) ==> {
                &&& s[i] == ' '
                &&& 0 < i < s.len() - 1
                &&& !spec_is_whitespace(s[i - 1])
            },
    ensures
        n > 0 && spec_is_whitespace(s[n - 1]) ==> collapse_state(s.take(n)) == (s.take(n - 1), true),
        !(n > 0 && spec_is_whitespace(s[n - 1])) ==> collapse_state(s.take(n)) == (s.take(n), false),
    decreases n,
{
    if n > 0 {
        lemma_collapse_identity_prefix(s, n - 1);
        assert(s.take(n).drop_last() =~= s.take(n - 1));
        if n >= 2 && spec_is_whitespace(s[n - 2]) {
            assert(s.take(n - 2).push(' ').push(s[n - 1]) =~= s.take(n));
        } else {
            assert(s.take(n - 1).push(s[n - 1]) =~= s.take(n));
        }
    } else {
        assert(s.take(0) =~= Seq::<char>::empty());
    }
}

// ---------------------------------------------------------------------------
// Capitalising words
// ---------------------------------------------------------------------------

/// What `char::to_uppercase` yields for `c`: its Unicode uppercase mapping,
/// one or more characters.
pub uninterp spec fn uppercase_mapping(c: char) -> Seq<char>;

/// The uppercase mapping of `c`, as `c.to_uppercase()` yields it. For ASCII
/// the mapping is the one of `to_ascii_uppercase`: a lowercase letter gives
/// its capital, every other ASCII character gives itself.
#[verifier::external_body]
fn char_uppercase(c: char) -> (r: String)
    ensures
        r@ == uppercase_mapping(c),
        'a' <= c <= 'z' ==> r@ == seq![((c as u32) - 32) as char],
        (c as u32) < 0x80 && !('a' <= c <= 'z') ==> r@ == seq![c],
{
    c.to_uppercase().to_string()
}

/// Capitalising words, read left to right: the text so far, whether the
/// last character read belongs to a word, and whether a word was emitted.
/// Each word (maximal run of non-whitespace characters) is emitted with its
/// first character replaced by its uppercase mapping; words are joined by
/// single spaces.
pub open spec fn capitalize_state(s: Seq<char>) -> (Seq<char>, bool, bool)
    decreases s.len(),
{
    if s.len() == 0 {
        (Seq::empty(), false, false)
    } else {
        let (out, in_word, started) = capitalize_state(s.drop_last());
        let c = s.last();
        if spec_is_whitespace(c) {
            (out, false, started)
        } else if in_word {
            (out.push(c), true, started)
        } else if started {
            (out.push(' ') + uppercase_mapping(c), true, true)
        } else {
            (out + uppercase_mapping(c), true, true)
        }
    }
}

/// Each word of `s` with an uppercase first character, joined by single spaces.
pub open spec fn capitalize_words_spec(s: Seq<char>) -> Seq<char> {
    capitalize_state(s).0
}

/// `s` with every character that `sep` marks replaced by a space.
pub open spec fn replace_with_space(s: Seq<char>, dash_too: bool) -> Seq<char> {
    s.map_values(|c: char| if c == '_' || (dash_too && c == '-') { ' ' } else { c })
}

/// Whether every character of `s` is ASCII.
pub open spec fn is_ascii_seq(s: Seq<char>) -> bool {
    forall|i: int| 0 <= i < s.len() ==> (#[trigger] s[i] as u32) < 0x80
}

/// The uppercase form of an ASCII character: a lowercase letter gives its
/// capital, every other character gives itself.
pub open spec fn ascii_upper(c: char) -> Seq<char> {
    if 'a' <= c <= 'z' {
        seq![((c as u32) - 32) as char]
    } else {
        seq![c]
    }
}

/// `capitalize_state` for ASCII text, where the uppercase mapping of a
/// character is `ascii_upper`.
pub open spec fn capitalize_ascii_state(s: Seq<char>) -> (Seq<char>, bool, bool)
    decreases s.len(),
{
    if s.len() == 0 {
        (Seq::empty(), false, false)
    } else {
        let (out, in_word, started) = capitalize_ascii_state(s.drop_last());
        let c = s.last();
        if spec_is_whitespace(c) {
            (out, false, started)
        } else if in_word {
            (out.push(c), true, started)
        } else if started {
            (out.push(' ') + ascii_upper(c), true, true)
        } else {
            (out + ascii_upper(c), true, true)
        }
    }
}

/// Each word of the ASCII text `s` with its first letter capitalised, joined
/// by single spaces.
pub open spec fn capitalize_ascii_spec(s: Seq<char>) -> Seq<char> {
    capitalize_ascii_state(s).0
}

/// Replaces `_` (and `-` where `dash_too`) by spaces, then capitalises each word
/// and joins the words with single spaces.
fn capitalize_words(s: &str, dash_too: bool) -> (r: String)
    ensures
        r@ == capitalize_words_spec(replace_with_space(s@, dash_too)),
        is_ascii_seq(s@) ==> r@ == capitalize_ascii_spec(replace_with_space(s@, dash_too)),
{
    let v = str_chars(s);
    let ghost m = replace_with_space(v@, dash_too);
    let mut out = String::new();
    let mut in_word = false;
    let mut started = false;
    let mut i: usize = 0;
    while i < v.len()
        invariant
            i <= v.len(),
            m == replace_with_space(v@, dash_too),
            (out@, in_word, started) == capitalize_state(m.take(i as int)),
            is_ascii_seq(v@) ==> (out@, in_word, started) == capitalize_ascii_state(m.take(i as int)),
            v@ == s@,
        decreases v.len() - i,
    {
        let raw = v[i];
        let c = if raw == '_' || (dash_too && raw == '-') {
            ' '
        } else {
            raw
        };
        assert(m[i as int] == c);
        assert(m.take(i + 1).drop_last() =~= m.take(i as int));
        if is_whitespace(c) {
            in_word = false;
        } else if in_word {
            out.push(c);
        } else {
            if started {
                out.push(' ');
            }
            let up = char_uppercase(c);
            proof {
                if is_ascii_seq(v@) {
                    assert((v@[i as int] as u32) < 0x80);
                    assert(up@ == ascii_upper(c));
                }
            }
            out.append(up.as_str());
            in_word = true;
            started = true;
        }
        i += 1;
    }
    assert(m.take(v.len() as int) =~= m);
    out
}

/// Whether an ASCII character is a lowercase letter.
pub open spec fn is_ascii_lower(c: char) -> bool {
    'a' <= c <= 'z'
}

/// The shape of title-cased text, but for possibly one trailing space: ASCII,
/// no `-` or `_`, no whitespace but single spaces, none at the start, and
/// no lowercase letter at the start of a word.
pub open spec fn title_shape_open(r: Seq<char>) -> bool {
    &&& is_ascii_seq(r)
    &&& forall|i: int| 0 <= i < r.len() ==> (#[trigger] r[i]) != '-' && r[i] != '_'
    &&& forall|i: int| 0 <= i < r.len() ==> spec_is_whitespace(#[trigger] r[i]) ==> r[i] == ' '
    &&& r.len() > 0 ==> r[0] != ' ' && !is_ascii_lower(r[0])
    &&& forall|i: int, j: int|
        0 <= i && j == i + 1 && j < r.len() && #[trigger] r[i] == ' ' ==> #[trigger] r[j] != ' '
            && !is_ascii_lower(r[j])
}

/// The shape of title-cased ASCII text: words of non-whitespace characters,
/// each starting with no lowercase letter, joined by single spaces, with no
/// `-` or `_`.
pub open spec fn title_shape(r: Seq<char>) -> bool {
    title_shape_open(r) && (r.len() > 0 ==> r.last() != ' ')
}

proof fn lemma_ascii_upper_shape(c: char)
    requires
        (c as u32) < 0x80,
        !spec_is_whitespace(c),
        c != '-',
        c != '_',
    ensures
        ascii_upper(c).len() == 1,
        (ascii_upper(c)[0] as u32) < 0x80,
        !spec_is_whitespace(ascii_upper(c)[0]),
        ascii_upper(c)[0] != '-',
        ascii_upper(c)[0] != '_',
        ascii_upper(c)[0] != ' ',
        !is_ascii_lower(ascii_upper(c)[0]),
        !is_ascii_lower(c) ==> ascii_upper(c) == seq![c],
{
}

proof fn lemma_capitalize_shape(x: Seq<char>)
    requires
        is_ascii_seq(x),
        forall|i: int| 0 <= i < x.len() ==> (#[trigger] x[i]) != '-' && x[i] != '_',
    ensures
        ({
            let (out, in_word, started) = capitalize_ascii_state(x);
            &&& title_shape(out)
            &&& started == (out.len() > 0)
            &&& in_word ==> started
        }),
    decreases x.len(),
{
    if x.len() > 0 {
        let d = x.drop_last();
        assert forall|i: int| 0 <= i < d.len() implies (#[trigger] d[i]) != '-' && d[i] != '_' by {
            assert(d[i] == x[i]);
        }
        assert forall|i: int| 0 <= i < d.len() implies (#[trigger] d[i] as u32) < 0x80 by {
            assert(d[i] == x[i]);
        }
        lemma_capitalize_shape(d);
        let (out, in_word, started) = capitalize_ascii_state(d);
        let c = x.last();
        assert((x[x.len() - 1] as u32) < 0x80);
        if spec_is_whitespace(c) {
        } else {
            lemma_ascii_upper_shape(c);
            let u = ascii_upper(c)[0];
            if in_word {
                let r = out.push(c);
                assert forall|i: int, j: int|
                    0 <= i && j == i + 1 && j < r.len() && #[trigger] r[i] == ' ' implies #[trigger] r[j] != ' '
                        && !is_ascii_lower(r[j]) by {
                    if j < out.len() {
                        assert(r[i] == out[i] && r[j] == out[j]);
                    } else {
                        assert(r[i] == out.last());
                    }
                }
                assert forall|i: int| 0 <= i < r.len() && spec_is_whitespace(#[trigger] r[i]) implies r[i] == ' ' by {
                    if i < out.len() {
                        assert(r[i] == out[i]);
                    }
                }
                assert forall|i: int| 0 <= i < r.len() implies (#[trigger] r[i]) != '-' && r[i] != '_' by {
                    if i < out.len() {
                        assert(r[i] == out[i]);
                    }
                }
                assert forall|i: int| 0 <= i < r.len() implies (#[trigger] r[i] as u32) < 0x80 by {
                    if i < out.len() {
                        assert(r[i] == out[i]);
                    }
                }
            } else if started {
                let r = out.push(' ') + ascii_upper(c);
                assert(r =~= out.push(' ').push(u));
                let n = out.len() as int;
                assert(r[n] == ' ' && r[n + 1] == u);
                assert forall|i: int, j: int|
                    0 <= i && j == i + 1 && j < r.len() && #[trigger] r[i] == ' ' implies #[trigger] r[j] != ' '
                        && !is_ascii_lower(r[j]) by {
                    if j < n {
                        assert(r[i] == out[i] && r[j] == out[j]);
                    } else if j == n {
                        assert(r[i] == out.last());
                    }
                }
                assert forall|i: int| 0 <= i < r.len() && spec_is_whitespace(#[trigger] r[i]) implies r[i] == ' ' by {
                    if i < n {
                        assert(r[i] == out[i]);
                    }
                }
                assert forall|i: int| 0 <= i < r.len() implies (#[trigger] r[i]) != '-' && r[i] != '_' by {
                    if i < n {
                        assert(r[i] == out[i]);
                    }
                }
                assert forall|i: int| 0 <= i < r.len() implies (#[trigger] r[i] as u32) < 0x80 by {
                    if i < n {
                        assert(r[i] == out[i]);
                    }
                }
                assert(r[0] == out[0]);
            } else {
                let r = out + ascii_upper(c);
                assert(out.len() == 0);
                assert(r =~= seq![u]);
            }
        }
    }
}

proof fn lemma_capitalize_fixed(s: Seq<char>)
    requires
        title_shape_open(s),
    ensures
        capitalize_ascii_state(s) == (if s.len() > 0 && s.last() == ' ' {
            (s.drop_last(), false, true)
        } else {
            (s, s.len() > 0, s.len() > 0)
        }),
    decreases s.len(),
{
    if s.len() > 0 {
        let d = s.drop_last();
        let c = s.last();
        assert(title_shape_open(d)) by {
            assert forall|i: int| 0 <= i < d.len() implies (#[trigger] d[i]) != '-' && d[i] != '_' by {
                assert(d[i] == s[i]);
            }
            assert forall|i: int| 0 <= i < d.len() && spec_is_whitespace(#[trigger] d[i]) implies d[i] == ' ' by {
                assert(d[i] == s[i]);
            }
            assert forall|i: int| 0 <= i < d.len() implies (#[trigger] d[i] as u32) < 0x80 by {
                assert(d[i] == s[i]);
            }
            assert forall|i: int, j: int|
                0 <= i && j == i + 1 && j < d.len() && #[trigger] d[i] == ' ' implies #[trigger] d[j] != ' '
                    && !is_ascii_lower(d[j]) by {
                assert(d[i] == s[i] && d[j] == s[j]);
            }
            if d.len() > 0 {
                assert(d[0] == s[0]);
            }
        }
        lemma_capitalize_fixed(d);
        let n = s.len() - 1;
        assert(s[n] == c);
        if d.len() == 0 {
            assert(c == s[0]);
            assert(!spec_is_whitespace(c));
            assert(ascii_upper(c) == seq![c]);
            assert(Seq::<char>::empty() + seq![c] =~= s);
        } else if d.last() == ' ' {
            assert(s[n - 1] == ' ');
            assert(c != ' ' && !is_ascii_lower(c));
            assert(!spec_is_whitespace(c));
            assert(ascii_upper(c) == seq![c]);
            assert(d.drop_last().push(' ') =~= d);
            assert(d.push(c) =~= s);
            assert(d.drop_last().push(' ') + ascii_upper(c) =~= s);
        } else {
            if c == ' ' {
            } else {
                assert(!spec_is_whitespace(c));
                assert(d.push(c) =~= s);
            }
        }
    }
}

/// Title-casing ASCII text gives words of non-whitespace characters, each
/// starting with no lowercase letter, joined by single spaces, with no `-`
/// or `_` left and nothing but ASCII; and title-casing that again changes
/// nothing.
pub proof fn lemma_title_case_ascii(s: Seq<char>)
    requires
        is_ascii_seq(s),
    ensures
        title_shape(capitalize_ascii_spec(replace_with_space(s, true))),
        capitalize_ascii_spec(
            replace_with_space(capitalize_ascii_spec(replace_with_space(s, true)), true),
        ) == capitalize_ascii_spec(replace_with_space(s, true)),
{
    let x = replace_with_space(s, true);
    assert forall|i: int| 0 <= i < x.len() implies (#[trigger] x[i]) != '-' && x[i] != '_' by {}
    assert forall|i: int| 0 <= i < x.len() implies (#[trigger] x[i] as u32) < 0x80 by {
        assert((s[i] as u32) < 0x80);
    }
    lemma_capitalize_shape(x);
    let r = capitalize_ascii_spec(x);
    assert(replace_with_space(r, true) =~= r);
    lemma_capitalize_fixed(r);
}

/// Title-cases a slug: `-` and `_` separate words, each word gets an
/// uppercase first letter, and the words are joined by single spaces
/// (`"my-recipe"` gives `"My Recipe"`).
pub fn title_case(s: &str) -> (r: String)
    ensures
        r@ == capitalize_words_spec(replace_with_space(s@, true)),
        is_ascii_seq(s@) ==> r@ == capitalize_ascii_spec(replace_with_space(s@, true)),
{
    capitalize_words(s, true)
}

/// The display name of a section directory: `_` separates words, each word
/// gets an uppercase first letter, and the words are joined by single spaces
/// (`"my_recipes"` gives `"My Recipes"`; a `-` stays inside its word).
pub fn section_display_name(name: &str) -> (r: String)
    ensures
        r@ == capitalize_words_spec(replace_with_space(name@, false)),
        is_ascii_seq(name@) ==> r@ == capitalize_ascii_spec(replace_with_space(name@, false)),
{
    capitalize_words(name, false)
}

// ---------------------------------------------------------------------------
// Tags
// ---------------------------------------------------------------------------

/// Removing tags, read left to right: the text so far and whether we are
/// inside a tag. `<` opens a tag, `>` closes it and stands for one space,
/// characters inside a tag are dropped.
pub open spec fn strip_tags_state(s: Seq<char>) -> (Seq<char>, bool)
    decreases s.len(),
{
    if s.len() == 0 {
        (Seq::empty(), false)
    } else {
        let (out, in_tag) = strip_tags_state(s.drop_last());
        let c = s.last();
        if c == '<' {
            (out, true)
        } else if c == '>' {
            (out.push(' '), false)
        } else if !in_tag {
            (out.push(c), false)
        } else {
            (out, true)
        }
    }
}

/// `s` with its tags removed, each `>` standing for a space.
pub open spec fn strip_tags_spec(s: Seq<char>) -> Seq<char> {
    strip_tags_state(s).0
}

fn strip_tags(v: &Vec<char>) -> (r: Vec<char>)
    ensures
        r@ == strip_tags_spec(v@),
{
    let mut out: Vec<char> = Vec::new();
    let mut in_tag = false;
    let mut i: usize = 0;
    while i < v.len()
        invariant
            i <= v.len(),
            (out@, in_tag) == strip_tags_state(v@.take(i as int)),
        decreases v.len() - i,
    {
        let c = v[i];
        assert(v@.take(i + 1).drop_last() =~= v@.take(i as int));
        if c == '<' {
            in_tag = true;
        } else if c == '>' {
            in_tag = false;
            out.push(' ');
        } else if !in_tag {
            out.push(c);
        }
        i += 1;
    }
    assert(v@.take(v.len() as int) =~= v@);
    out
}

/// The plain text of an HTML fragment: tags removed (each `>` counting as a
/// space), whitespace collapsed to single spaces between words, and HTML
/// entities decoded.
pub open spec fn strip_html_spec(html: Seq<char>) -> Seq<char> {
    decode_entities_spec(collapse_whitespace_spec(strip_tags_spec(html)))
}

/// Plain text of an HTML fragment, for the search index.
pub fn strip_html(html: &str) -> (r: String)
    ensures
        r@ == strip_html_spec(html@),
{
    let v = str_chars(html);
    let stripped = strip_tags(&v);
    let collapsed = collapse_whitespace(&stripped);
    let s = chars_string(&collapsed);
    decode_entities(s.as_str())
}

// ---------------------------------------------------------------------------
// Entities
// ---------------------------------------------------------------------------

/// The number of bytes of the UTF-8 encoding of `c`.
pub open spec fn utf8_len(c: char) -> int {
    let v = c as u32;
    if v < 0x80 {
        1
    } else if v < 0x800 {
        2
    } else if v < 0x10000 {
        3
    } else {
        4
    }
}

fn char_utf8_len(c: char) -> (r: usize)
    ensures
        r == utf8_len(c),
{
    let v = c as u32;
    if v < 0x80 {
        1
    } else if v < 0x800 {
        2
    } else if v < 0x10000 {
        3
    } else {
        4
    }
}

/// Scanning the name of an entity that starts at `i` (just after `&`), with
/// `bytes` bytes of name already read. The name ends at the first `;`
/// (which is consumed but not part of the name), after the character that
/// takes the name past 8 bytes (that character is part of the name), or at
/// the end of the text. Gives the end of the name and where decoding resumes.
pub open spec fn entity_scan(s: Seq<char>, i: int, bytes: int) -> (int, int)
    decreases s.len() - i,
{
    if i >= s.len() {
        (i, i)
    } else if s[i] == ';' {
        (i, i + 1)
    } else if bytes + utf8_len(s[i]) > 8 {
        (i + 1, i + 1)
    } else {
        entity_scan(s, i + 1, bytes + utf8_len(s[i]))
    }
}

pub proof fn lemma_entity_scan_bounds(s: Seq<char>, i: int, bytes: int)
    requires
        0 <= i <= s.len(),
    ensures
        i <= entity_scan(s, i, bytes).0 <= entity_scan(s, i, bytes).1 <= s.len(),
        entity_scan(s, i, bytes).0 < s.len() ==> entity_scan(s, i, bytes).1 > i,
        i < s.len() ==> entity_scan(s, i, bytes).1 > i,
    decreases s.len() - i,
{
    if i < s.len() && s[i] != ';' && bytes + utf8_len(s[i]) <= 8 {
        lemma_entity_scan_bounds(s, i + 1, bytes + utf8_len(s[i]));
    }
}

/// The value of a digit in the given radix (10 or 16), as `char::to_digit`.
pub open spec fn digit_value(c: char, radix: u32) -> Option<int> {
    if '0' <= c <= '9' && (c as int) - ('0' as int) < radix {
        Some((c as int) - ('0' as int))
    } else if radix == 16 && 'a' <= c <= 'f' {
        Some((c as int) - ('a' as int) + 10)
    } else if radix == 16 && 'A' <= c <= 'F' {
        Some((c as int) - ('A' as int) + 10)
    } else {
        None
    }
}

/// The number that the digits `s` spell in `radix`, if all are digits.
pub open spec fn digits_value(s: Seq<char>, radix: u32) -> Option<int>
    decreases s.len(),
{
    if s.len() == 0 {
        Some(0)
    } else {
        match (digits_value(s.drop_last(), radix), digit_value(s.last(), radix)) {
            (Some(p), Some(d)) => Some(p * radix + d),
            _ => None,
        }
    }
}

/// What `u32::from_str_radix(s, radix)` gives: an optional leading `+`, then
/// at least one digit, and a value that fits in a `u32`.
pub open spec fn parse_u32_spec(s: Seq<char>, radix: u32) -> Option<u32> {
    let d = if s.len() > 0 && s[0] == '+' {
        s.drop_first()
    } else {
        s
    };
    if d.len() == 0 {
        None
    } else {
        match digits_value(d, radix) {
            Some(v) => if v <= u32::MAX {
                Some(v as u32)
            } else {
                None
            },
            None => None,
        }
    }
}

proof fn lemma_digits_value_nonneg(s: Seq<char>, radix: u32)
    requires
        radix == 10 || radix == 16,
    ensures
        digits_value(s, radix) matches Some(v) ==> v >= 0,
    decreases s.len(),
{
    if s.len() > 0 {
        lemma_digits_value_nonneg(s.drop_last(), radix);
    }
}

/// Once a prefix of the digits is too large for a `u32`, so is the whole, or
/// some later character is not a digit.
proof fn lemma_digits_value_grows(s: Seq<char>, n: int, radix: u32)
    requires
        0 <= n <= s.len(),
        radix == 10 || radix == 16,
        digits_value(s.take(n), radix) matches Some(p) && p > u32::MAX,
    ensures
        digits_value(s, radix) matches Some(v) ==> v > u32::MAX,
    decreases s.len() - n,
{
    if n < s.len() {
        assert(s.take(n + 1).drop_last() =~= s.take(n));
        assert(s.take(n + 1).last() == s[n]);
        match digit_value(s[n], radix) {
            Some(d) => {
                let p = digits_value(s.take(n), radix)->0;
                assert(p * radix >= p) by (nonlinear_arith)
                    requires
                        p >= 0,
                        radix >= 1,
                ;
                lemma_digits_value_grows(s, n + 1, radix);
            },
            None => {
                lemma_digits_none_prop(s, n + 1, radix);
            },
        }
    } else {
        assert(s.take(n) =~= s);
    }
}

fn char_digit_value(c: char, radix: u32) -> (r: Option<u32>)
    requires
        radix == 10 || radix == 16,
    ensures
        r matches Some(d) ==> digit_value(c, radix) == Some(d as int),
        r is None ==> digit_value(c, radix) is None,
{
    if '0' <= c && c <= '9' && (c as u32) - ('0' as u32) < radix {
        Some((c as u32) - ('0' as u32))
    } else if radix == 16 && 'a' <= c && c <= 'f' {
        Some((c as u32) - ('a' as u32) + 10)
    } else if radix == 16 && 'A' <= c && c <= 'F' {
        Some((c as u32) - ('A' as u32) + 10)
    } else {
        None
    }
}

/// Parses `s[from..]` as `u32::from_str_radix` does.
fn parse_u32_radix(s: &Vec<char>, from: usize, radix: u32) -> (r: Option<u32>)
    requires
        from <= s.len(),
        radix == 10 || radix == 16,
    ensures
        r == parse_u32_spec(s@.skip(from as int), radix),
{
    let ghost t = s@.skip(from as int);
    let mut start = from;
    if start < s.len() && s[start] == '+' {
        start += 1;
    }
    let ghost d = if t.len() > 0 && t[0] == '+' {
        t.drop_first()
    } else {
        t
    };
    assert(d =~= s@.skip(start as int));
    if start >= s.len() {
        return None;
    }
    let mut value: u64 = 0;
    let mut i = start;
    while i < s.len()
        invariant
            start <= i <= s.len(),
            radix == 10 || radix == 16,
            d =~= s@.skip(start as int),
            d == (if t.len() > 0 && t[0] == '+' { t.drop_first() } else { t }),
            d.len() > 0,
            t == s@.skip(from as int),
            digits_value(d.take(i - start), radix) == Some(value as int),
            value <= u32::MAX,
        decreases s.len() - i,
    {
        let dv = char_digit_value(s[i], radix);
        assert(d.take(i + 1 - start).drop_last() =~= d.take(i - start));
        assert(d.take(i + 1 - start).last() == s@[i as int]);
        match dv {
            None => {
                proof {
                    lemma_digits_none_prop(d, i + 1 - start, radix);
                    assert(d.len() > 0);
                    assert(parse_u32_spec(t, radix) is None);
                }
                return None;
            },
            Some(dig) => {
                let next = value * (radix as u64) + (dig as u64);
                if next > 0xFFFF_FFFF {
                    proof {
                        lemma_digits_value_grows(d, i + 1 - start, radix);
                        assert(d.len() > 0);
                        assert(parse_u32_spec(t, radix) is None);
                    }
                    return None;
                }
                value = next;
            },
        }
        i += 1;
    }
    assert(d.take(s.len() - start) =~= d);
    Some(value as u32)
}

proof fn lemma_digits_none_prop(s: Seq<char>, n: int, radix: u32)
    requires
        0 <= n <= s.len(),
        digits_value(s.take(n), radix) is None,
    ensures
        digits_value(s, radix) is None,
    decreases s.len() - n,
{
    if n < s.len() {
        assert(s.take(n + 1).drop_last() =~= s.take(n));
        lemma_digits_none_prop(s, n + 1, radix);
    } else {
        assert(s.take(n) =~= s);
    }
}

/// What an entity name decodes to: the five XML entities and `nbsp` (as a
/// plain space), decimal `#NNN` and hexadecimal `#xHH`/`#XHH` character
/// references of valid characters; anything else is written back as
/// `&name;`.
pub open spec fn decode_entity_spec(e: Seq<char>) -> Seq<char> {
    let raw = seq!['&'] + e + seq![';'];
    if e == seq!['a', 'm', 'p'] {
        seq!['&']
    } else if e == seq!['l', 't'] {
        seq!['<']
    } else if e == seq!['g', 't'] {
        seq!['>']
    } else if e == seq!['q', 'u', 'o', 't'] {
        seq!['"']
    } else if e == seq!['a', 'p', 'o', 's'] {
        seq!['\'']
    } else if e == seq!['n', 'b', 's', 'p'] {
        seq![' ']
    } else if e.len() > 0 && e[0] == '#' {
        let code = if e.len() >= 2 && (e[1] == 'x' || e[1] == 'X') {
            parse_u32_spec(e.skip(2), 16)
        } else {
            parse_u32_spec(e.skip(1), 10)
        };
        match code {
            Some(v) => if is_scalar_value(v as int) {
                seq![v as char]
            } else {
                raw
            },
            None => raw,
        }
    } else {
        raw
    }
}

/// Decoding entities from position `i` of `s` to its end.
pub open spec fn decode_from(s: Seq<char>, i: int) -> Seq<char>
    decreases s.len() - i,
{
    if i < 0 || i >= s.len() {
        Seq::empty()
    } else if s[i] != '&' {
        seq![s[i]] + decode_from(s, i + 1)
    } else {
        let (end, resume) = entity_scan(s, i + 1, 0);
        proof {
            lemma_entity_scan_bounds(s, i + 1, 0);
        }
        decode_entity_spec(s.subrange(i + 1, end)) + decode_from(s, resume)
    }
}

/// `s` with its HTML entities decoded.
pub open spec fn decode_entities_spec(s: Seq<char>) -> Seq<char> {
    decode_from(s, 0)
}

fn eq_chars(a: &Vec<char>, b: &[char]) -> (r: bool)
    ensures
        r == (a@ == b@),
{
    if a.len() != b.len() {
        return false;
    }
    let mut i: usize = 0;
    while i < a.len()
        invariant
            i <= a.len(),
            a.len() == b@.len(),
            forall|j: int| 0 <= j < i ==> a@[j] == b@[j],
        decreases a.len() - i,
    {
        if a[i] != b[i] {
            return false;
        }
        i += 1;
    }
    assert(a@ =~= b@);
    true
}

fn push_all(out: &mut String, v: &Vec<char>)
    ensures
        final(out)@ == old(out)@ + v@,
{
    let mut i: usize = 0;
    while i < v.len()
        invariant
            i <= v.len(),
            out@ == old(out)@ + v@.take(i as int),
        decreases v.len() - i,
    {
        out.push(v[i]);
        i += 1;
        assert(out@ =~= old(out)@ + v@.take(i as int));
    }
    assert(v@.take(v.len() as int) =~= v@);
}

fn push_decoded_entity(out: &mut String, e: &Vec<char>)
    ensures
        final(out)@ == old(out)@ + decode_entity_spec(e@),
{
    if eq_chars(e, &['a', 'm', 'p']) {
        out.push('&');
    } else if eq_chars(e, &['l', 't']) {
        out.push('<');
    } else if eq_chars(e, &['g', 't']) {
        out.push('>');
    } else if eq_chars(e, &['q', 'u', 'o', 't']) {
        out.push('"');
    } else if eq_chars(e, &['a', 'p', 'o', 's']) {
        out.push('\'');
    } else if eq_chars(e, &['n', 'b', 's', 'p']) {
        out.push(' ');
    } else {
        let mut decoded: Option<char> = None;
        if e.len() > 0 && e[0] == '#' {
            let code = if e.len() >= 2 && (e[1] == 'x' || e[1] == 'X') {
                parse_u32_radix(e, 2, 16)
            } else {
                parse_u32_radix(e, 1, 10)
            };
            decoded = match code {
                Some(v) => char::from_u32(v),
                None => None,
            };
        }
        match decoded {
            Some(c) => {
                out.push(c);
            },
            None => {
                out.push('&');
                push_all(out, e);
                out.push(';');
            },
        }
    }
}

/// Decodes the HTML entities of `text` (see `decode_entity_spec`).
pub fn decode_entities(text: &str) -> (r: String)
    ensures
        r@ == decode_entities_spec(text@),
{
    let v = str_chars(text);
    let mut out = String::new();
    let mut i: usize = 0;
    while i < v.len()
        invariant
            i <= v.len(),
            out@ + decode_from(v@, i as int) == decode_from(v@, 0),
        decreases v.len() - i,
    {
        let c = v[i];
        if c != '&' {
            out.push(c);
            i += 1;
            assert(out@ + decode_from(v@, i as int) =~= decode_from(v@, 0));
        } else {
            let mut entity: Vec<char> = Vec::new();
            let mut j: usize = i + 1;
            let mut bytes: usize = 0;
            let end: usize;
            let resume: usize;
            loop
                invariant_except_break
                    i + 1 <= j <= v.len(),
                    bytes <= 8,
                    entity@ == v@.subrange(i + 1, j as int),
                    entity_scan(v@, j as int, bytes as int) == entity_scan(v@, i + 1, 0),
                ensures
                    i + 1 <= end <= resume <= v.len(),
                    resume > i,
                    entity@ == v@.subrange(i + 1, end as int),
                    (end as int, resume as int) == entity_scan(v@, i + 1, 0),
                decreases v.len() - j,
            {
                if j >= v.len() {
                    end = j;
                    resume = j;
                    break;
                }
                let ec = v[j];
                if ec == ';' {
                    end = j;
                    resume = j + 1;
                    break;
                }
                entity.push(ec);
                bytes = bytes + char_utf8_len(ec);
                j += 1;
                assert(entity@ =~= v@.subrange(i + 1, j as int));
                if bytes > 8 {
                    end = j;
                    resume = j;
                    break;
                }
            }
            push_decoded_entity(&mut out, &entity);
            i = resume;
            assert(out@ + decode_from(v@, i as int) =~= decode_from(v@, 0));
        }
    }
    out
}

// ---------------------------------------------------------------------------
// Laws of plain text
// ---------------------------------------------------------------------------

proof fn lemma_strip_tags_identity(s: Seq<char>)
    requires
        forall|i: int| 0 <= i < s.len() ==> #[trigger] s[i] != '<' && s[i] != '>',
    ensures
        strip_tags_state(s) == (s, false),
    decreases s.len(),
{
    if s.len() > 0 {
        let d = s.drop_last();
        assert forall|i: int| 0 <= i < d.len() implies #[trigger] d[i] != '<' && d[i] != '>' by {
            assert(d[i] == s[i]);
        }
        lemma_strip_tags_identity(d);
        assert(d.push(s.last()) =~= s);
    }
}

/// Removing tags leaves no `<` or `>` behind.
pub proof fn lemma_strip_tags_no_brackets(s: Seq<char>)
    ensures
        forall|i: int|
            0 <= i < strip_tags_spec(s).len() ==> #[trigger] strip_tags_spec(s)[i] != '<'
                && strip_tags_spec(s)[i] != '>',
    decreases s.len(),
{
    if s.len() > 0 {
        lemma_strip_tags_no_brackets(s.drop_last());
        let (out, in_tag) = strip_tags_state(s.drop_last());
        let r = strip_tags_spec(s);
        assert forall|i: int| 0 <= i < r.len() implies #[trigger] r[i] != '<' && r[i] != '>' by {
            if i < out.len() {
                assert(r[i] == out[i]);
                assert(out[i] == strip_tags_spec(s.drop_last())[i]);
            }
        }
    }
}

proof fn lemma_decode_identity(s: Seq<char>, i: int)
    requires
        0 <= i <= s.len(),
        forall|j: int| 0 <= j < s.len() ==> #[trigger] s[j] != '&',
    ensures
        decode_from(s, i) == s.skip(i),
    decreases s.len() - i,
{
    if i < s.len() {
        lemma_decode_identity(s, i + 1);
        assert(seq![s[i]] + s.skip(i + 1) =~= s.skip(i));
    } else {
        assert(s.skip(i) =~= Seq::<char>::empty());
    }
}

/// Text without `&` is left unchanged by entity decoding.
pub proof fn lemma_decode_entities_identity(s: Seq<char>)
    requires
        forall|j: int| 0 <= j < s.len() ==> #[trigger] s[j] != '&',
    ensures
        decode_entities_spec(s) == s,
{
    lemma_decode_identity(s, 0);
    assert(s.skip(0) =~= s);
}

/// Plain text (no `<`, `>` or `&`, no whitespace at its ends, and single
/// spaces between words) is its own plain text.
pub proof fn lemma_strip_html_plain(s: Seq<char>)
    requires
        forall|i: int| 0 <= i < s.len() ==> #[trigger] s[i] != '<' && s[i] != '>' && s[i] != '&',
        s.len() > 0 ==> !spec_is_whitespace(s[0]) && !spec_is_whitespace(s.last()),
        forall|i: int|
            0 <= i < s.len() && spec_is_whitespace(#[trigger] s[i]) ==> {
                &&& s[i] == ' '
                &&& 0 < i < s.len() - 1
                &&& !spec_is_whitespace(s[i - 1])
            },
    ensures
        strip_html_spec(s) == s,
{
    lemma_strip_tags_identity(s);
    lemma_collapse_identity(s);
    lemma_decode_entities_identity(s);
}

} // verus!
