use wilde_ssg::content::{
    is_markdown, load_content, tab_requests, Page, SourceFile, TabFile, TabSource,
};
use wilde_ssg::frontmatter::split_frontmatter;
use wilde_ssg::json::Json;
use wilde_ssg::markdown::{escape_code, render_markdown};

fn to_json(v: &serde_json::Value) -> Json {
    match v {
        serde_json::Value::Null => Json::Null,
        serde_json::Value::Bool(b) => Json::Bool(*b),
        serde_json::Value::Number(n) => Json::Number(n.to_string()),
        serde_json::Value::String(s) => Json::Str(s.clone()),
        serde_json::Value::Array(a) => Json::Array(a.iter().map(to_json).collect()),
        serde_json::Value::Object(m) => {
            Json::Object(m.iter().map(|(k, v)| (k.clone(), to_json(v))).collect())
        }
    }
}

fn block_json(text: &str) -> Option<Json> {
    split_frontmatter(text)
        .and_then(|block| serde_json::from_str::<serde_json::Value>(&block.json).ok())
        .map(|v| to_json(&v))
}

/// Loads the pages of a content directory given as (path, text) pairs, in
/// the order a walk of the directory would list them.
fn load_with(files: &[(&str, &str)], include_drafts: bool) -> Vec<Page> {
    let sources: Vec<SourceFile> = files
        .iter()
        .filter(|(path, _)| is_markdown(path.rsplit('/').next().unwrap()))
        .map(|(path, text)| SourceFile {
            components: path.split('/').map(String::from).collect(),
            text: Some(text.to_string()),
            frontmatter: block_json(text),
        })
        .collect();
    let mut tabs = Vec::new();
    for (dir, slugs) in tab_requests(&sources) {
        for slug in slugs {
            let mut path = dir.join("/");
            if !path.is_empty() {
                path.push('/');
            }
            path.push_str(&slug);
            path.push_str(".md");
            let file = match files.iter().find(|(p, _)| *p == path) {
                Some((_, text)) => TabFile::Read { text: text.to_string(), frontmatter: block_json(text) },
                None => TabFile::Missing,
            };
            tabs.push(TabSource { dir: dir.clone(), slug, file });
        }
    }
    load_content(&sources, &tabs, "content", "base16-ocean.dark", include_drafts, "page.html").unwrap()
}

fn load(files: &[(&str, &str)]) -> Vec<Page> {
    load_with(files, false)
}

#[test]
fn heading() {
    let html = render_markdown("# Hello World", "base16-ocean.dark");
    assert!(html.contains("<h1>"));
    assert!(html.contains("Hello World"));
}

#[test]
fn paragraph() {
    let html = render_markdown("Some text here.", "base16-ocean.dark");
    assert!(html.contains("<p>"));
}

#[test]
fn fenced_code_block_with_language() {
    let md = "```python\nprint(\"hello\")\n```";
    let html = render_markdown(md, "base16-ocean.dark");
    assert!(html.contains("print"));
    assert!(html.contains("<pre"));
}

#[test]
fn fenced_code_block_without_language() {
    let md = "```\nsome code\n```";
    let html = render_markdown(md, "base16-ocean.dark");
    assert!(html.contains("some code"));
    assert!(html.contains("<pre"));
}

#[test]
fn table() {
    let md = "| Name | Value |\n|------|-------|\n| a    | 1     |";
    let html = render_markdown(md, "base16-ocean.dark");
    assert!(html.contains("<table>"));
    assert!(html.contains("<td>"));
}

#[test]
fn link() {
    let html = render_markdown("[click](https://example.com)", "base16-ocean.dark");
    assert!(html.contains("href=\"https://example.com\""));
}

#[test]
fn unordered_list() {
    let md = "* item one\n* item two";
    let html = render_markdown(md, "base16-ocean.dark");
    assert!(html.contains("<ul>"));
    assert!(html.contains("<li>"));
}

#[test]
fn inline_code() {
    let html = render_markdown("Use `cargo build` to compile.", "base16-ocean.dark");
    assert!(html.contains("<code>"));
    assert!(html.contains("cargo build"));
}

#[test]
fn invalid_theme_falls_back() {
    let html = render_markdown("```rust\nlet x = 1;\n```", "nonexistent-theme");
    assert!(html.contains("<pre"));
}

#[test]
fn highlighted_code_carries_theme_styles() {
    let html = render_markdown("```rust\nlet x = 1;\n```", "base16-ocean.dark");
    assert!(html.contains("<pre style="));
    assert!(html.contains("<span style="));
    let fallback = render_markdown("```\na < b\n```", "InspiredGitHub");
    assert!(fallback.contains("<pre style="));
    assert!(fallback.contains("a &lt; b"));
}

#[test]
fn strikethrough_and_indented_code() {
    let html = render_markdown("~~gone~~\n\n    indented < code", "base16-ocean.dark");
    assert!(html.contains("<del>"));
    assert!(html.contains("indented"));
    assert!(!html.contains("indented < code"));
}

#[test]
fn escape_code_escapes_markup() {
    assert_eq!(escape_code("a < b && c > d"), "a &lt; b &amp;&amp; c &gt; d");
}

#[test]
fn loads_markdown_files() {
    let pages = load(&[(
        "posts/hello.md",
        "---\n{\"title\": \"Hello\", \"date\": \"2024-01-01\"}\n---\n\n# Hello World",
    )]);
    assert_eq!(pages.len(), 1);
    assert_eq!(pages[0].title, "Hello");
    assert!(pages[0].content.contains("<h1>"));
}

#[test]
fn skips_drafts() {
    let files = [
        ("posts/draft.md", "---\n{\"title\": \"Draft\", \"draft\": true}\n---\n\nDraft"),
        ("posts/published.md", "---\n{\"title\": \"Published\"}\n---\n\nPublished"),
    ];
    let pages = load(&files);
    assert_eq!(pages.len(), 1);
    assert_eq!(pages[0].title, "Published");
}

#[test]
fn includes_drafts_when_requested() {
    let files = [
        ("posts/draft.md", "---\n{\"title\": \"Draft\", \"draft\": true}\n---\n\nDraft"),
        ("posts/published.md", "---\n{\"title\": \"Published\"}\n---\n\nPublished"),
    ];
    let pages = load_with(&files, true);
    assert_eq!(pages.len(), 2);
}

#[test]
fn url_from_section_and_slug() {
    let pages = load(&[("recipes/chili.md", "---\n{\"title\": \"Chili\"}\n---\n\nSpicy")]);
    assert_eq!(pages[0].url, "/recipes/chili/");
    assert_eq!(pages[0].section.as_deref(), Some("recipes"));
    assert_eq!(pages[0].slug, "chili");
}

#[test]
fn index_file_url() {
    let pages = load(&[(
        "resume/index.md",
        "---\n{\"title\": \"Resume\", \"template\": \"resume\"}\n---\n",
    )]);
    assert_eq!(pages[0].url, "/resume/");
    assert_eq!(pages[0].template, "resume.html");
}

#[test]
fn sorts_by_date_descending() {
    let files = [
        ("posts/old.md", "---\n{\"title\": \"Old\", \"date\": \"2023-01-01\"}\n---\n\nOld"),
        ("posts/new.md", "---\n{\"title\": \"New\", \"date\": \"2024-06-01\"}\n---\n\nNew"),
    ];
    let pages = load(&files);
    assert_eq!(pages[0].title, "New");
    assert_eq!(pages[1].title, "Old");
}

#[test]
fn multiple_sections() {
    let files = [
        ("posts/item.md", "---\n{\"title\": \"Post\"}\n---\n\nContent"),
        ("recipes/item.md", "---\n{\"title\": \"Recipe\"}\n---\n\nContent"),
    ];
    let pages = load(&files);
    assert_eq!(pages.len(), 2);
    let sections: std::collections::HashSet<_> =
        pages.iter().filter_map(|p| p.section.as_deref()).collect();
    assert!(sections.contains("posts"));
    assert!(sections.contains("recipes"));
}

#[test]
fn tabbed_page_loads_tabs() {
    let files = [
        (
            "recipes/bread/_index.md",
            "---\n{\"title\": \"Bread\", \"date\": \"2024-01-01\", \"tabs\": [\"basic\", \"advanced\"]}\n---\n",
        ),
        ("recipes/bread/basic.md", "---\n{\"title\": \"Basic\"}\n---\n\n# Basic bread"),
        ("recipes/bread/advanced.md", "---\n{\"title\": \"Advanced\"}\n---\n\n# Advanced bread"),
    ];
    let pages = load(&files);
    assert_eq!(pages.len(), 1);
    assert_eq!(pages[0].title, "Bread");
    assert_eq!(pages[0].slug, "bread");
    assert_eq!(pages[0].url, "/recipes/bread/");
    assert_eq!(pages[0].section.as_deref(), Some("recipes"));
    assert_eq!(pages[0].tabs.len(), 2);
    assert_eq!(pages[0].tabs[0].name, "Basic");
    assert_eq!(pages[0].tabs[0].slug, "basic");
    assert!(pages[0].tabs[0].content.contains("Basic bread"));
    assert_eq!(pages[0].tabs[1].name, "Advanced");
    assert!(pages[0].tabs[1].content.contains("Advanced bread"));
}

#[test]
fn tab_files_not_loaded_as_standalone_pages() {
    let files = [
        ("recipes/bread/_index.md", "---\n{\"title\": \"Bread\", \"tabs\": [\"basic\"]}\n---\n"),
        ("recipes/bread/basic.md", "---\n{\"title\": \"Basic\"}\n---\n\nContent"),
        ("recipes/chili.md", "---\n{\"title\": \"Chili\"}\n---\n\nSpicy"),
    ];
    let pages = load(&files);
    assert_eq!(pages.len(), 2);
    let titles: Vec<_> = pages.iter().map(|p| p.title.as_str()).collect();
    assert!(titles.contains(&"Bread"));
    assert!(titles.contains(&"Chili"));
}

#[test]
fn tab_order_matches_frontmatter() {
    let files = [
        ("docs/guide/_index.md", "---\n{\"title\": \"Guide\", \"tabs\": [\"second\", \"first\"]}\n---\n"),
        ("docs/guide/first.md", "First content"),
        ("docs/guide/second.md", "Second content"),
    ];
    let pages = load(&files);
    assert_eq!(pages[0].tabs[0].slug, "second");
    assert_eq!(pages[0].tabs[1].slug, "first");
}

#[test]
fn tab_name_from_slug_when_no_title() {
    let files = [
        ("recipes/bread/_index.md", "---\n{\"title\": \"Bread\", \"tabs\": [\"whole-wheat\"]}\n---\n"),
        ("recipes/bread/whole-wheat.md", "Content here"),
    ];
    let pages = load(&files);
    assert_eq!(pages[0].tabs[0].name, "Whole Wheat");
}

#[test]
fn regular_pages_have_empty_tabs() {
    let pages = load(&[("posts/hello.md", "---\n{\"title\": \"Hello\"}\n---\n\nWorld")]);
    assert!(pages[0].tabs.is_empty());
}

#[test]
fn tabbed_page_skips_missing_tab_file() {
    let files = [
        ("recipes/bread/_index.md", "---\n{\"title\": \"Bread\", \"tabs\": [\"basic\", \"missing\"]}\n---\n"),
        ("recipes/bread/basic.md", "---\n{\"title\": \"Basic\"}\n---\n\nContent"),
    ];
    let pages = load(&files);
    assert_eq!(pages[0].tabs.len(), 1);
    assert_eq!(pages[0].tabs[0].slug, "basic");
}

#[test]
fn tabbed_page_intro_content() {
    let files = [
        (
            "recipes/bread/_index.md",
            "---\n{\"title\": \"Bread\", \"tabs\": [\"basic\"]}\n---\n\nChoose a version below.",
        ),
        ("recipes/bread/basic.md", "The recipe"),
    ];
    let pages = load(&files);
    assert!(pages[0].content.contains("Choose a version below"));
    assert!(pages[0].tabs[0].content.contains("The recipe"));
}

#[test]
fn top_level_pages_and_files_without_frontmatter() {
    let files = [
        ("about.md", "---\n{\"title\": \"About\", \"date\": \"2020-01-01\"}\n---\nMe"),
        ("index.md", "---\n{\"title\": \"Home\", \"date\": \"2021-01-01\"}\n---\nHi"),
        ("notes.md", "no frontmatter"),
        ("image.png", "binary"),
    ];
    let pages = load(&files);
    assert_eq!(pages.len(), 2);
    assert_eq!(pages[0].url, "/");
    assert_eq!(pages[0].section, None);
    assert_eq!(pages[1].url, "/about/");
    assert_eq!(pages[1].template, "page.html");
}

#[test]
fn equal_dates_keep_walk_order() {
    let files = [
        ("posts/b.md", "---\n{\"title\": \"B\", \"date\": \"2024-01-01\"}\n---\n"),
        ("posts/a.md", "---\n{\"title\": \"A\", \"date\": \"2024-01-01\"}\n---\n"),
        ("posts/c.md", "---\n{\"title\": \"C\"}\n---\n"),
    ];
    let pages = load(&files);
    let titles: Vec<_> = pages.iter().map(|p| p.title.as_str()).collect();
    assert_eq!(titles, vec!["B", "A", "C"]);
}

#[test]
fn unreadable_file_is_an_error() {
    let sources = vec![SourceFile {
        components: vec!["posts".to_string(), "locked.md".to_string()],
        text: None,
        frontmatter: None,
    }];
    let result = load_content(&sources, &vec![], "content", "base16-ocean.dark", false, "page.html");
    assert_eq!(result.unwrap_err(), vec!["posts".to_string(), "locked.md".to_string()]);
}
