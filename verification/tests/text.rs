use wilde_ssg::text::{decode_entities, section_display_name, strip_html, title_case};

#[test]
fn section_display_name_capitalizes() {
    assert_eq!(section_display_name("posts"), "Posts");
    assert_eq!(section_display_name("my_recipes"), "My Recipes");
}

#[test]
fn section_display_name_keeps_dashes_inside_words() {
    assert_eq!(section_display_name("dev-setup_series"), "Dev-setup Series");
    assert_eq!(section_display_name("__a__b__"), "A B");
    assert_eq!(section_display_name(""), "");
}

#[test]
fn title_case_basic() {
    assert_eq!(title_case("basic"), "Basic");
    assert_eq!(title_case("my-recipe"), "My Recipe");
    assert_eq!(title_case("foo_bar"), "Foo Bar");
}

#[test]
fn title_case_collapses_separators_and_keeps_rest() {
    assert_eq!(title_case("--whole--wheat__bread"), "Whole Wheat Bread");
    assert_eq!(title_case("already Title"), "Already Title");
    assert_eq!(title_case("mIxEd"), "MIxEd");
    assert_eq!(title_case("ßtraße"), "SStraße");
}

#[test]
fn strip_html_removes_tags() {
    assert_eq!(strip_html("<p>Hello <strong>world</strong></p>"), "Hello world");
}

#[test]
fn strip_html_collapses_whitespace() {
    assert_eq!(strip_html("<p>Hello</p>\n\n<p>World</p>"), "Hello World");
}

#[test]
fn strip_html_handles_empty() {
    assert_eq!(strip_html(""), "");
}

#[test]
fn strip_html_plain_text_passthrough() {
    assert_eq!(strip_html("no tags here"), "no tags here");
}

#[test]
fn strip_html_decodes_named_entities() {
    assert_eq!(strip_html("AT&amp;T &lt;b&gt; &quot;hi&quot;"), "AT&T <b> \"hi\"");
}

#[test]
fn strip_html_decodes_numeric_entities() {
    assert_eq!(strip_html("&#39;hello&#39; &#x2014; world"), "'hello' \u{2014} world");
}

#[test]
fn strip_html_nested_tags() {
    assert_eq!(strip_html("<div><p><em>deep</em></p></div>"), "deep");
}

#[test]
fn strip_html_closing_bracket_separates_words() {
    assert_eq!(strip_html("a<br>b"), "a b");
    assert_eq!(strip_html("x > y"), "x y");
    assert_eq!(strip_html("unclosed <tag and more"), "unclosed");
}

#[test]
fn decode_entities_named() {
    assert_eq!(decode_entities("&apos;&nbsp;&amp;&lt;&gt;&quot;"), "' &<>\"");
}

#[test]
fn decode_entities_numeric_forms() {
    assert_eq!(decode_entities("&#65;&#x42;&#X43;&#+68;"), "ABCD");
    assert_eq!(decode_entities("&#xD800;"), "&#xD800;");
    assert_eq!(decode_entities("&#4294967296;"), "&#42949672;96;");
    assert_eq!(decode_entities("&#x110000;"), "&#x110000;");
    assert_eq!(decode_entities("&#;&#x;&#-1;"), "&#;&#x;&#-1;");
}

#[test]
fn decode_entities_unknown_and_unterminated() {
    assert_eq!(decode_entities("&foo;"), "&foo;");
    assert_eq!(decode_entities("a & b"), "a & b;");
    assert_eq!(decode_entities("&amp"), "&");
    assert_eq!(decode_entities("&abcdefghij;k"), "&abcdefghi;j;k");
    assert_eq!(decode_entities("no entities"), "no entities");
}

#[test]
fn title_case_is_idempotent_on_ascii() {
    for s in ["my-recipe", "  hello__world-again ", "already Title", "a-b_c", "x1-y2", ""] {
        let once = title_case(s);
        assert_eq!(title_case(&once), once);
        assert!(!once.contains('-') && !once.contains('_'));
        assert!(!once.starts_with(' ') && !once.ends_with(' ') && !once.contains("  "));
    }
    assert_eq!(title_case("  hello__world-again "), "Hello World Again");
}
