//! Markdown to HTML, with fenced code blocks replaced by syntax-highlighted HTML.
use vstd::prelude::*;
use vstd::string::StringExecFns;
use pulldown_cmark::{CodeBlockKind, Event, Tag, TagEnd};
use syntect::highlighting::ThemeSet;
use syntect::parsing::SyntaxSet;
use crate::text::str_chars;

verus! {

#[verifier::external_type_specification]
#[verifier::external_body]
pub struct ExEvent<'a>(Event<'a>);

#[verifier::external_type_specification]
#[verifier::external_body]
pub struct ExSyntaxSet(SyntaxSet);

#[verifier::external_type_specification]
#[verifier::external_body]
pub struct ExThemeSet(ThemeSet);

/// The syntax definitions and colour themes that code blocks are highlighted
/// with: always syntect's default sets. Its fields are private and the one
/// way to make one is `Highlighter::load_defaults` (visible in this crate
/// only), so every `Highlighter` holds those default sets; this is why
/// `theme_is_known` and `token_is_known` speak of the default sets and take
/// no `Highlighter`.
pub struct Highlighter {
    syntaxes: SyntaxSet,
    themes: ThemeSet,
}

/// Whether syntect's default theme set has a theme of this name.
pub uninterp spec fn theme_is_known(name: Seq<char>) -> bool;

/// Whether syntect's default syntax set has a syntax for this token (a file
/// extension or a syntax name, as `SyntaxSet::find_syntax_by_token` looks it up).
pub uninterp spec fn token_is_known(token: Seq<char>) -> bool;

/// The HTML that `syntect::html::highlighted_html_for_string` makes of `code`
/// with the syntax found for `token` and the named theme, or `None` where it
/// fails.
pub uninterp spec fn highlighted_by_token(code: Seq<char>, token: Seq<char>, theme: Seq<char>) -> Option<Seq<char>>;

/// The HTML that `syntect::html::highlighted_html_for_string` makes of `code`
/// with the plain-text syntax and the named theme, or `None` where it fails.
pub uninterp spec fn highlighted_plain(code: Seq<char>, theme: Seq<char>) -> Option<Seq<char>>;

impl Highlighter {
    /// Loads syntect's default syntaxes (`SyntaxSet::load_defaults_newlines`)
    /// and default themes (`ThemeSet::load_defaults`).
    #[verifier::external_body]
    pub(crate) fn load_defaults() -> (r: Highlighter) {
        Highlighter { syntaxes: SyntaxSet::load_defaults_newlines(), themes: ThemeSet::load_defaults() }
    }
}

/// Whether the theme set has the theme `name` (a lookup in `ThemeSet::themes`).
#[verifier::external_body]
fn has_theme(h: &Highlighter, name: &str) -> (r: bool)
    ensures
        r == theme_is_known(name@),
{
    h.themes.themes.contains_key(name)
}

/// Whether `SyntaxSet::find_syntax_by_token` finds a syntax for `token`.
#[verifier::external_body]
fn has_syntax_for(h: &Highlighter, token: &str) -> (r: bool)
    ensures
        r == token_is_known(token@),
{
    h.syntaxes.find_syntax_by_token(token).is_some()
}

/// `syntect::html::highlighted_html_for_string` with the syntax that
/// `find_syntax_by_token` gives for `token` and the theme `theme`; `None`
/// where syntect reports an error.
#[verifier::external_body]
fn highlight_with_token(h: &Highlighter, code: &str, token: &str, theme: &str) -> (r: Option<String>)
    requires
        token_is_known(token@),
        theme_is_known(theme@),
    ensures
        r matches Some(s) ==> highlighted_by_token(code@, token@, theme@) == Some(s@),
        r is None ==> highlighted_by_token(code@, token@, theme@) is None,
{
    let syntax = h.syntaxes.find_syntax_by_token(token).unwrap();
    syntect::html::highlighted_html_for_string(code, &h.syntaxes, syntax, &h.themes.themes[theme]).ok()
}

/// `syntect::html::highlighted_html_for_string` with the plain-text syntax
/// (`find_syntax_plain_text`, which the default syntax set always has) and
/// the theme `theme`; `None` where syntect reports an error.
#[verifier::external_body]
fn highlight_plain(h: &Highlighter, code: &str, theme: &str) -> (r: Option<String>)
    requires
        theme_is_known(theme@),
    ensures
        r matches Some(s) ==> highlighted_plain(code@, theme@) == Some(s@),
        r is None ==> highlighted_plain(code@, theme@) is None,
{
    let syntax = h.syntaxes.find_syntax_plain_text();
    syntect::html::highlighted_html_for_string(code, &h.syntaxes, syntax, &h.themes.themes[theme]).ok()
}

/// The theme that code is highlighted with: the requested one where the
/// theme set has it, otherwise `base16-ocean.dark` (the theme set always has
/// it; were it missing, code blocks would be left unhighlighted).
pub open spec fn chosen_theme_spec(requested: Seq<char>) -> Option<Seq<char>> {
    if theme_is_known(requested) {
        Some(requested)
    } else if theme_is_known("base16-ocean.dark"@) {
        Some("base16-ocean.dark"@)
    } else {
        None
    }
}

/// Picks the highlighting theme (see `chosen_theme_spec`).
pub fn choose_theme(h: &Highlighter, requested: &str) -> (r: Option<String>)
    ensures
        r matches Some(t) ==> chosen_theme_spec(requested@) == Some(t@),
        r is None ==> chosen_theme_spec(requested@) is None,
{
    if has_theme(h, requested) {
        Some(String::from_str(requested))
    } else {
        let fallback = "base16-ocean.dark";
        if has_theme(h, fallback) {
            Some(String::from_str(fallback))
        } else {
            None
        }
    }
}

/// `s` with `&`, `<` and `>` written as `&amp;`, `&lt;` and `&gt;`.
pub open spec fn escape_code_spec(s: Seq<char>) -> Seq<char>
    decreases s.len(),
{
    if s.len() == 0 {
        Seq::empty()
    } else {
        let c = s.last();
        escape_code_spec(s.drop_last()) + if c == '&' {
            "&amp;"@
        } else if c == '<' {
            "&lt;"@
        } else if c == '>' {
            "&gt;"@
        } else {
            seq![c]
        }
    }
}

/// Escapes `&`, `<` and `>` in `code`.
pub fn escape_code(code: &str) -> (r: String)
    ensures
        r@ == escape_code_spec(code@),
{
    let v = str_chars(code);
    let mut out = String::new();
    let mut i: usize = 0;
    while i < v.len()
        invariant
            i <= v.len(),
            out@ == escape_code_spec(v@.take(i as int)),
        decreases v.len() - i,
    {
        let c = v[i];
        assert(v@.take(i + 1).drop_last() =~= v@.take(i as int));
        if c == '&' {
            out.append("&amp;");
        } else if c == '<' {
            out.append("&lt;");
        } else if c == '>' {
            out.append("&gt;");
        } else {
            out.push(c);
        }
        i += 1;
    }
    assert(v@.take(v.len() as int) =~= v@);
    out
}

/// The HTML that replaces a code block: syntect's highlighting with the
/// syntax for the block's language (the plain-text syntax where none is
/// found), or, where highlighting fails or no theme is available, the code
/// escaped inside `<pre><code>`.
pub open spec fn code_block_html_spec(code: Seq<char>, lang: Seq<char>, theme: Option<Seq<char>>) -> Seq<char> {
    let highlighted = match theme {
        Some(t) => if token_is_known(lang) {
            highlighted_by_token(code, lang, t)
        } else {
            highlighted_plain(code, t)
        },
        None => None,
    };
    match highlighted {
        Some(h) => h,
        None => "<pre><code>"@ + escape_code_spec(code) + "</code></pre>"@,
    }
}

/// A code block is highlighted with the syntax its language names: where a
/// theme is available and syntect has a syntax for the block's language
/// token, the block's HTML is syntect's highlighting with that syntax; the
/// plain-text syntax serves only for a token syntect does not know; and
/// where highlighting fails or no theme is available, the block is the code,
/// escaped, inside `<pre><code>`.
pub proof fn lemma_code_block_language(code: Seq<char>, lang: Seq<char>, theme: Option<Seq<char>>)
    ensures
        theme is Some && token_is_known(lang) && highlighted_by_token(code, lang, theme->0) is Some
            ==> code_block_html_spec(code, lang, theme) == highlighted_by_token(code, lang, theme->0)->0,
        theme is Some && !token_is_known(lang) && highlighted_plain(code, theme->0) is Some
            ==> code_block_html_spec(code, lang, theme) == highlighted_plain(code, theme->0)->0,
        theme is Some && token_is_known(lang) && highlighted_by_token(code, lang, theme->0) is None
            ==> code_block_html_spec(code, lang, theme) == "<pre><code>"@ + escape_code_spec(code) + "</code></pre>"@,
        theme is Some && !token_is_known(lang) && highlighted_plain(code, theme->0) is None
            ==> code_block_html_spec(code, lang, theme) == "<pre><code>"@ + escape_code_spec(code) + "</code></pre>"@,
        theme is None ==> code_block_html_spec(code, lang, theme) == "<pre><code>"@ + escape_code_spec(code)
            + "</code></pre>"@,
{
}

/// The HTML for a code block (see `code_block_html_spec`).
pub fn code_block_html(h: &Highlighter, code: &str, lang: &str, theme: Option<&str>) -> (r: String)
    requires
        theme matches Some(t) ==> theme_is_known(t@),
    ensures
        theme is Some && token_is_known(lang@) && highlighted_by_token(code@, lang@, theme->0@) is Some
            ==> r@ == highlighted_by_token(code@, lang@, theme->0@)->0,
        theme is Some && !token_is_known(lang@) && highlighted_plain(code@, theme->0@) is Some
            ==> r@ == highlighted_plain(code@, theme->0@)->0,
        r@ == code_block_html_spec(
            code@,
            lang@,
            match theme {
                Some(t) => Some(t@),
                None => None,
            },
        ),
{
    let highlighted = match theme {
        Some(t) => {
            if has_syntax_for(h, lang) {
                highlight_with_token(h, code, lang, t)
            } else {
                highlight_plain(h, code, t)
            }
        },
        None => None,
    };
    match highlighted {
        Some(s) => s,
        None => {
            let mut out = String::from_str("<pre><code>");
            let escaped = escape_code(code);
            out.append(escaped.as_str());
            out.append("</code></pre>");
            out
        },
    }
}

// ---------------------------------------------------------------------------
// Event stream
// ---------------------------------------------------------------------------

/// What the rendering needs to know of a markdown event.
pub enum EventShape {
    /// The start of a fenced code block, with its language (possibly empty).
    FencedCodeStart(String),
    /// The start of an indented code block.
    IndentedCodeStart,
    /// The end of a code block.
    CodeEnd,
    /// A text node.
    Text(String),
    /// Any other event.
    Other,
}

/// An item of the rendered event stream: a markdown event passed through, or
/// raw HTML that stands for a whole code block.
pub enum Emitted<'a> {
    Event(Event<'a>),
    Html(String),
}

/// The mathematical form of an emitted item.
pub enum Piece<'a> {
    Pass(Event<'a>),
    Html(Seq<char>),
}

pub open spec fn piece_of<'a>(e: Emitted<'a>) -> Piece<'a> {
    match e {
        Emitted::Event(ev) => Piece::Pass(ev),
        Emitted::Html(h) => Piece::Html(h@),
    }
}

/// Rendering events read left to right: the items so far and the code block
/// being collected (its language and code), if any. A code block's start
/// opens a block, its text nodes are collected, and its end emits the block's
/// HTML; an end with no open block is dropped; every other event (a text
/// node outside a block too) is passed through.
pub open spec fn fold_state<'a>(
    events: Seq<Event<'a>>,
    shapes: Seq<EventShape>,
    theme: Option<Seq<char>>,
) -> (Seq<Piece<'a>>, Option<(Seq<char>, Seq<char>)>)
    decreases shapes.len(),
{
    if shapes.len() == 0 || events.len() != shapes.len() {
        (Seq::empty(), None)
    } else {
        let (out, block) = fold_state(events.drop_last(), shapes.drop_last(), theme);
        match shapes.last() {
            EventShape::FencedCodeStart(lang) => (out, Some((lang@, Seq::empty()))),
            EventShape::IndentedCodeStart => (out, Some((Seq::empty(), Seq::empty()))),
            EventShape::Text(t) => match block {
                Some((lang, code)) => (out, Some((lang, code + t@))),
                None => (out.push(Piece::Pass(events.last())), None),
            },
            EventShape::CodeEnd => match block {
                Some((lang, code)) => (
                    out.push(Piece::Html(code_block_html_spec(code, lang, theme))),
                    None,
                ),
                None => (out, None),
            },
            EventShape::Other => (out.push(Piece::Pass(events.last())), block),
        }
    }
}

/// Replaces each code block of an event stream by its highlighted HTML.
/// `shapes[i]` is what `event_shape` gives for `events[i]`.
pub fn fold_code_blocks<'a>(
    h: &Highlighter,
    events: Vec<Event<'a>>,
    shapes: &Vec<EventShape>,
    theme: Option<&str>,
) -> (r: Vec<Emitted<'a>>)
    requires
        events.len() == shapes.len(),
        theme matches Some(t) ==> theme_is_known(t@),
    ensures
        r@.map_values(|e: Emitted<'a>| piece_of(e)) == fold_state(
            events@,
            shapes@,
            match theme {
                Some(t) => Some(t@),
                None => None,
            },
        ).0,
{
    let ghost th = match theme {
        Some(t) => Some(t@),
        None => None,
    };
    let ghost evs = events@;
    let mut out: Vec<Emitted<'a>> = Vec::new();
    let mut block: Option<(String, String)> = None;
    let mut i: usize = 0;
    for e in it: events
        invariant
            it.seq() == evs,
            evs.len() == shapes.len(),
            i == it.index(),
            th == match theme {
                Some(t) => Some(t@),
                None => None,
            },
            theme matches Some(t) ==> theme_is_known(t@),
            ({
                let st = fold_state(evs.take(i as int), shapes@.take(i as int), th);
                &&& out@.map_values(|x: Emitted<'a>| piece_of(x)) == st.0
                &&& match block {
                    Some((lang, code)) => st.1 == Some((lang@, code@)),
                    None => st.1 is None,
                }
            }),
    {
        let ghost before = out@;
        assert(evs.take(i + 1).drop_last() =~= evs.take(i as int));
        assert(shapes@.take(i + 1).drop_last() =~= shapes@.take(i as int));
        assert(evs.take(i + 1).last() == e);
        assert(shapes@.take(i + 1).last() == shapes@[i as int]);
        match &shapes[i] {
            EventShape::FencedCodeStart(lang) => {
                block = Some((lang.clone(), String::new()));
            },
            EventShape::IndentedCodeStart => {
                block = Some((String::new(), String::new()));
            },
            EventShape::Text(t) => {
                match block {
                    Some((lang, code)) => {
                        let mut code = code;
                        code.append(t.as_str());
                        block = Some((lang, code));
                    },
                    None => {
                        out.push(Emitted::Event(e));
                        assert(out@.map_values(|x: Emitted<'a>| piece_of(x)) =~= before.map_values(
                            |x: Emitted<'a>| piece_of(x),
                        ).push(Piece::Pass(e)));
                    },
                }
            },
            EventShape::CodeEnd => {
                match block {
                    Some((lang, code)) => {
                        let html = code_block_html(h, code.as_str(), lang.as_str(), theme);
                        out.push(Emitted::Html(html));
                        assert(out@.map_values(|x: Emitted<'a>| piece_of(x)) =~= before.map_values(
                            |x: Emitted<'a>| piece_of(x),
                        ).push(Piece::Html(code_block_html_spec(code@, lang@, th))));
                        block = None;
                    },
                    None => {},
                }
            },
            EventShape::Other => {
                out.push(Emitted::Event(e));
                assert(out@.map_values(|x: Emitted<'a>| piece_of(x)) =~= before.map_values(
                    |x: Emitted<'a>| piece_of(x),
                ).push(Piece::Pass(e)));
            },
        }
        i += 1;
    }
    assert(evs.take(i as int) =~= evs);
    assert(shapes@.take(i as int) =~= shapes@);
    out
}

/// The events that `pulldown_cmark::Parser::new_ext` yields for `text`, with
/// the table and strikethrough extensions switched on as asked, each taken as
/// an owned event (`Event::into_static`).
pub uninterp spec fn markdown_events_of(text: Seq<char>, tables: bool, strikethrough: bool) -> Seq<Event<'static>>;

/// What `event_shape` gives for an event.
pub uninterp spec fn event_shape_of(e: Event<'static>) -> EventShape;

/// The HTML that `pulldown_cmark::html::push_html` writes for the items, raw
/// HTML items given to it as `Event::Html`.
pub uninterp spec fn push_html_of(items: Seq<Piece<'static>>) -> Seq<char>;

/// The mathematical form of a list of emitted items.
pub open spec fn pieces_of(items: Seq<Emitted<'static>>) -> Seq<Piece<'static>> {
    items.map_values(|e: Emitted<'static>| piece_of(e))
}

/// The shapes of a list of events.
pub open spec fn shapes_of(events: Seq<Event<'static>>) -> Seq<EventShape> {
    events.map_values(|e: Event<'static>| event_shape_of(e))
}

/// The HTML of a markdown text (tables and strikethrough on): pulldown-cmark's
/// events with every code block replaced by its HTML (see `fold_state` and
/// `code_block_html_spec`), highlighted with the theme that
/// `chosen_theme_spec` picks for `theme`, written out by `push_html`.
pub open spec fn render_markdown_spec(text: Seq<char>, theme: Seq<char>) -> Seq<char> {
    let events = markdown_events_of(text, true, true);
    push_html_of(fold_state(events, shapes_of(events), chosen_theme_spec(theme)).0)
}

/// Whether an event shape opens or closes a code block.
pub open spec fn is_code_shape(s: EventShape) -> bool {
    s is FencedCodeStart || s is IndentedCodeStart || s is CodeEnd
}

/// The events passed through unchanged.
pub open spec fn passed<'a>(events: Seq<Event<'a>>) -> Seq<Piece<'a>> {
    events.map_values(|e: Event<'a>| Piece::Pass(e))
}

proof fn lemma_fold_without_code<'a>(
    events: Seq<Event<'a>>,
    shapes: Seq<EventShape>,
    theme: Option<Seq<char>>,
)
    requires
        events.len() == shapes.len(),
        forall|i: int| 0 <= i < shapes.len() ==> !is_code_shape(#[trigger] shapes[i]),
    ensures
        fold_state(events, shapes, theme) == (passed(events), None::<(Seq<char>, Seq<char>)>),
    decreases shapes.len(),
{
    if shapes.len() > 0 {
        let es = events.drop_last();
        let ss = shapes.drop_last();
        assert forall|i: int| 0 <= i < ss.len() implies !is_code_shape(#[trigger] ss[i]) by {
            assert(ss[i] == shapes[i]);
        }
        lemma_fold_without_code(es, ss, theme);
        assert(!is_code_shape(shapes[shapes.len() - 1]));
        assert(passed(events) =~= passed(es).push(Piece::Pass(events.last())));
    } else {
        assert(passed(events) =~= Seq::<Piece<'a>>::empty());
    }
}

/// A markdown text whose events hold no code block (no start and no end of
/// one) renders as `push_html` of its events, whatever the theme.
pub proof fn lemma_render_without_code_blocks(text: Seq<char>, theme: Seq<char>)
    requires
        forall|i: int|
            0 <= i < markdown_events_of(text, true, true).len() ==> !is_code_shape(
                #[trigger] event_shape_of(markdown_events_of(text, true, true)[i]),
            ),
    ensures
        render_markdown_spec(text, theme) == push_html_of(passed(markdown_events_of(text, true, true))),
{
    let events = markdown_events_of(text, true, true);
    let shapes = shapes_of(events);
    assert forall|i: int| 0 <= i < shapes.len() implies !is_code_shape(#[trigger] shapes[i]) by {
        assert(shapes[i] == event_shape_of(events[i]));
    }
    lemma_fold_without_code(events, shapes, chosen_theme_spec(theme));
}

/// The events of `pulldown_cmark::Parser::new_ext` on `text`, with the
/// table and strikethrough extensions switched on as asked.
#[verifier::external_body]
fn markdown_events(text: &str, tables: bool, strikethrough: bool) -> (r: Vec<Event<'static>>)
    ensures
        r@ == markdown_events_of(text@, tables, strikethrough),
{
    let mut options = pulldown_cmark::Options::empty();
    options.set(pulldown_cmark::Options::ENABLE_TABLES, tables);
    options.set(pulldown_cmark::Options::ENABLE_STRIKETHROUGH, strikethrough);
    pulldown_cmark::Parser::new_ext(text, options).map(Event::into_static).collect()
}

/// What kind of `pulldown_cmark::Event` `e` is, as far as rendering cares:
/// the start (with its fence language) or end of a code block, a text node,
/// or anything else.
#[verifier::external_body]
fn event_shape(e: &Event<'static>) -> (r: EventShape)
    ensures
        r == event_shape_of(*e),
{
    match e {
        Event::Start(Tag::CodeBlock(CodeBlockKind::Fenced(lang))) => EventShape::FencedCodeStart(lang.to_string()),
        Event::Start(Tag::CodeBlock(CodeBlockKind::Indented)) => EventShape::IndentedCodeStart,
        Event::End(TagEnd::CodeBlock) => EventShape::CodeEnd,
        Event::Text(t) => EventShape::Text(t.to_string()),
        _ => EventShape::Other,
    }
}

/// `pulldown_cmark::html::push_html` over the items, raw HTML items given to
/// it as `Event::Html`.
#[verifier::external_body]
fn html_output(items: Vec<Emitted<'static>>) -> (r: String)
    ensures
        r@ == push_html_of(pieces_of(items@)),
{
    let mut out = String::new();
    pulldown_cmark::html::push_html(&mut out, items.into_iter().map(|item| match item {
        Emitted::Event(e) => e,
        Emitted::Html(h) => Event::Html(h.into()),
    }));
    out
}

/// Renders markdown (with tables and strikethrough) to HTML, code blocks
/// highlighted with the theme `theme_name` (or the fallback theme, see
/// `chosen_theme_spec`).
pub(crate) fn render_markdown_with(h: &Highlighter, text: &str, theme_name: &str) -> (r: String)
    ensures
        r@ == render_markdown_spec(text@, theme_name@),
{
    let theme = choose_theme(h, theme_name);
    let events = markdown_events(text, true, true);
    let ghost evs = events@;
    let mut shapes: Vec<EventShape> = Vec::new();
    let mut i: usize = 0;
    while i < events.len()
        invariant
            i <= events.len(),
            events@ == evs,
            shapes@ =~= shapes_of(evs.take(i as int)),
        decreases events.len() - i,
    {
        shapes.push(event_shape(&events[i]));
        assert(shapes_of(evs.take(i + 1)) =~= shapes_of(evs.take(i as int)).push(event_shape_of(evs[i as int])));
        i += 1;
    }
    assert(evs.take(i as int) =~= evs);
    let items = match &theme {
        Some(t) => fold_code_blocks(h, events, &shapes, Some(t.as_str())),
        None => fold_code_blocks(h, events, &shapes, None),
    };
    html_output(items)
}

/// Renders markdown to HTML with syntect's default syntaxes and themes.
pub fn render_markdown(text: &str, theme_name: &str) -> (r: String)
    ensures
        r@ == render_markdown_spec(text@, theme_name@),
{
    let h = Highlighter::load_defaults();
    render_markdown_with(&h, text, theme_name)
}

} // verus!
