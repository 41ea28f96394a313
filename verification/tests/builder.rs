use wilde_ssg::builder::{
    active_nav, build_section_map, copy_static_assets, current_year, empty_page, empty_page_with_title,
    join_path, page_output_dir, search_index, section_context, section_page, sections_to_render, template_context,
    template_glob, year_from_unix_seconds,
};
use wilde_ssg::config::{PageTemplates, Profile, SiteConfig};
use wilde_ssg::content::{Page, Tab};
use wilde_ssg::json::{deep_merge, Json};

fn to_json(v: &serde_json::Value) -> Json {
    match v {
        serde_json::Value::Null => Json::Null,
        serde_json::Value::Bool(b) => Json::Bool(*b),
        serde_json::Value::Number(n) => Json::Number(n.to_string()),
        serde_json::Value::String(s) => Json::Str(s.clone()),
        serde_json::Value::Array(a) => Json::Array(a.iter().map(to_json).collect()),
        serde_json::Value::Object(m) => {
            Json::Object(m.iter().map(|(k, v)| (k.clone(), to_json(v))).collect())
        }
    }
}

fn from_json(j: &Json) -> serde_json::Value {
    match j {
        Json::Null => serde_json::Value::Null,
        Json::Bool(b) => serde_json::Value::Bool(*b),
        Json::Number(n) => serde_json::from_str(n).unwrap(),
        Json::Str(s) => serde_json::Value::String(s.clone()),
        Json::Array(a) => serde_json::Value::Array(a.iter().map(from_json).collect()),
        Json::Object(es) => serde_json::Value::Object(
            es.iter().map(|(k, v)| (k.clone(), from_json(v))).collect(),
        ),
    }
}

fn parse(text: &str) -> Json {
    to_json(&serde_json::from_str(text).unwrap())
}

#[test]
fn deep_merge_overwrites_scalar() {
    let mut base = parse(r#"{"a": 1, "b": 2}"#);
    let overlay = parse(r#"{"a": 10}"#);
    deep_merge(&mut base, &overlay);
    let base = from_json(&base);
    assert_eq!(base["a"], 10);
    assert_eq!(base["b"], 2);
}

#[test]
fn deep_merge_nested_objects() {
    let mut base = parse(r##"{"colors": {"bg": "#fff", "text": "#000"}}"##);
    let overlay = parse(r##"{"colors": {"bg": "#111"}}"##);
    deep_merge(&mut base, &overlay);
    let base = from_json(&base);
    assert_eq!(base["colors"]["bg"], "#111");
    assert_eq!(base["colors"]["text"], "#000");
}

#[test]
fn deep_merge_adds_new_keys() {
    let mut base = parse(r#"{"a": 1}"#);
    let overlay = parse(r#"{"b": 2}"#);
    deep_merge(&mut base, &overlay);
    let base = from_json(&base);
    assert_eq!(base["a"], 1);
    assert_eq!(base["b"], 2);
}

#[test]
fn deep_merge_overlay_wins_type_mismatch() {
    let mut base = parse(r#"{"a": {"nested": true}}"#);
    let overlay = parse(r#"{"a": "flat"}"#);
    deep_merge(&mut base, &overlay);
    let base = from_json(&base);
    assert_eq!(base["a"], "flat");
}

#[test]
fn deep_merge_keeps_base_order_and_appends_new_keys() {
    let mut base = parse(r#"{"x": 1, "y": {"p": 1}}"#);
    let overlay = parse(r#"{"z": [1, 2], "y": {"q": 2}}"#);
    deep_merge(&mut base, &overlay);
    match &base {
        Json::Object(es) => {
            let keys: Vec<&str> = es.iter().map(|(k, _)| k.as_str()).collect();
            assert_eq!(keys, vec!["x", "y", "z"]);
        }
        _ => panic!("not an object"),
    }
    let base = from_json(&base);
    assert_eq!(base["y"]["p"], 1);
    assert_eq!(base["y"]["q"], 2);
    assert_eq!(base["z"][1], 2);
}

#[test]
fn deep_merge_non_object_base_is_replaced() {
    let mut base = parse("[1, 2]");
    let overlay = parse(r#"{"a": 1}"#);
    deep_merge(&mut base, &overlay);
    assert_eq!(from_json(&base)["a"], 1);
    let mut base = parse(r#"{"a": 1}"#);
    deep_merge(&mut base, &Json::Null);
    assert!(from_json(&base).is_null());
}

#[test]
fn empty_page_has_required_fields() {
    let page = from_json(&empty_page());
    assert_eq!(page["title"], "");
    assert_eq!(page["description"], "");
    assert!(page["meta"].is_object());
}

#[test]
fn empty_page_with_title_sets_title() {
    let page = from_json(&empty_page_with_title("Test Title"));
    assert_eq!(page["title"], "Test Title");
    assert!(page["tabs"].as_array().unwrap().is_empty());
    assert_eq!(page["url"], "");
}

#[test]
fn section_page_is_titled_with_display_name() {
    let page = from_json(&section_page("my_recipes"));
    assert_eq!(page["title"], "My Recipes");
}

#[test]
fn current_year_is_reasonable() {
    let year = current_year();
    assert!(year >= 2024);
    assert!(year <= 2100);
}

#[test]
fn year_from_unix_seconds_gives_utc_calendar_year() {
    assert_eq!(year_from_unix_seconds(0), 1970);
    assert_eq!(year_from_unix_seconds(31_535_999), 1970);
    assert_eq!(year_from_unix_seconds(31_536_000), 1971);
    assert_eq!(year_from_unix_seconds(1_704_067_199), 2023);
    assert_eq!(year_from_unix_seconds(1_704_067_200), 2024);
    assert_eq!(year_from_unix_seconds(1_725_029_869), 2024);
    assert_eq!(year_from_unix_seconds(1_735_689_599), 2024);
    assert_eq!(year_from_unix_seconds(1_735_689_600), 2025);
    assert_eq!(year_from_unix_seconds(951_782_400), 2000);
    assert_eq!(year_from_unix_seconds(4_102_444_800), 2100);
}

#[test]
fn load_template_context_uses_variables_json_defaults() {
    let site_json = parse(r#"{"title":"Test","profile":{"image":"/t.jpg","subtitle":"t"}}"#);
    let variables = parse(r##"{"colors":{"bg":"#fff","text":"#000"},"title":"Default"}"##);
    let ctx = from_json(&template_context(Some(variables), &site_json));
    assert_eq!(ctx["title"], "Test");
    assert_eq!(ctx["colors"]["bg"], "#fff");
    assert_eq!(ctx["colors"]["text"], "#000");
}

#[test]
fn load_template_context_without_variables_json() {
    let site_json = parse(r#"{"title":"Test","profile":{"image":"/t.jpg","subtitle":"t"}}"#);
    let ctx = from_json(&template_context(None, &site_json));
    assert_eq!(ctx["title"], "Test");
    assert_eq!(ctx["profile"]["image"], "/t.jpg");
}

fn page(title: &str, section: Option<&str>, slug: &str, content: &str, tabs: Vec<Tab>) -> Page {
    Page {
        title: title.to_string(),
        date: "2024-01-01".to_string(),
        description: "A test".to_string(),
        template: "page.html".to_string(),
        content: content.to_string(),
        url: format!("/{}/", slug),
        section: section.map(|s| s.to_string()),
        slug: slug.to_string(),
        meta: Json::Object(vec![]),
        tabs,
    }
}

#[test]
fn write_search_index_creates_json() {
    let pages = vec![page("Test Page", Some("blog"), "test", "<p>Hello world</p>", vec![])];
    let index = search_index(&pages);
    assert_eq!(index.len(), 1);
    assert_eq!(index[0].title, "Test Page");
    assert_eq!(index[0].section, "blog");
    assert_eq!(index[0].content, "Hello world");
}

#[test]
fn write_search_index_includes_tab_content() {
    let tab = Tab {
        name: "Tab One".to_string(),
        slug: "tab-one".to_string(),
        content: "<p>tab content</p>".to_string(),
        meta: Json::Object(vec![]),
    };
    let pages = vec![page("Tabbed", None, "tabbed", "<p>intro</p>", vec![tab])];
    let index = search_index(&pages);
    assert_eq!(index[0].content, "intro tab content");
    assert_eq!(index[0].section, "");
}

#[test]
fn page_output_dir_trims_slashes() {
    assert_eq!(page_output_dir("/posts/hello/"), "posts/hello");
    assert_eq!(page_output_dir("/"), "");
    assert_eq!(page_output_dir("//a//"), "a");
    assert_eq!(page_output_dir("plain"), "plain");
    assert_eq!(active_nav("posts"), "/posts/");
}

fn config(theme_dir: &str, static_dir: &str) -> SiteConfig {
    SiteConfig {
        title: "Test".to_string(),
        description: String::new(),
        author: String::new(),
        base_url: String::new(),
        nav: vec![],
        social: vec![],
        profile: Profile { image: "/t.jpg".to_string(), subtitle: "t".to_string() },
        content_dir: "content".to_string(),
        output_dir: "public".to_string(),
        static_dir: static_dir.to_string(),
        theme_dir: theme_dir.to_string(),
        code_theme: "base16-ocean.dark".to_string(),
        include_drafts: false,
        pages: PageTemplates::default(),
    }
}

#[test]
fn static_assets_come_from_theme_then_site() {
    let dirs = copy_static_assets("/site", &config("theme", "static"));
    assert_eq!(dirs, vec!["/site/theme/static".to_string(), "/site/static".to_string()]);
    let dirs = copy_static_assets("site/", &config("/abs/theme", "assets"));
    assert_eq!(dirs, vec!["/abs/theme/static".to_string(), "site/assets".to_string()]);
    assert_eq!(join_path("", "x"), "x");
    assert_eq!(template_glob("/site", "theme"), "/site/theme/templates/**/*.html");
}

#[test]
fn section_map_groups_pages_in_order() {
    let pages = vec![
        page("A", Some("posts"), "a", "", vec![]),
        page("B", Some("recipes"), "b", "", vec![]),
        page("C", None, "c", "", vec![]),
        page("D", Some("posts"), "d", "", vec![]),
    ];
    let groups = build_section_map(&pages);
    assert_eq!(groups.len(), 2);
    assert_eq!(groups[0].name, "posts");
    let titles: Vec<&str> = groups[0].pages.iter().map(|p| p.title.as_str()).collect();
    assert_eq!(titles, vec!["A", "D"]);
    assert_eq!(groups[1].name, "recipes");
    assert_eq!(groups[1].pages.len(), 1);
}

#[test]
fn sections_to_render_skips_indexed_and_bundles() {
    let bundle_tab = Tab {
        name: "T".to_string(),
        slug: "t".to_string(),
        content: String::new(),
        meta: Json::Object(vec![]),
    };
    let pages = vec![
        page("A", Some("posts"), "a", "", vec![]),
        page("Resume", Some("resume"), "index", "", vec![]),
        page("Bread", None, "bread", "", vec![bundle_tab]),
    ];
    let groups = build_section_map(&pages);
    let subdirs = vec![
        "posts".to_string(),
        "resume".to_string(),
        "bread".to_string(),
        "empty".to_string(),
    ];
    let render = sections_to_render(&groups, &pages, &subdirs);
    let names: Vec<&str> = render.iter().map(|g| g.name.as_str()).collect();
    assert_eq!(names, vec!["posts", "empty"]);
    assert_eq!(render[0].pages.len(), 1);
    assert!(render[1].pages.is_empty());
}

#[test]
fn section_context_holds_name_pages_title_and_nav() {
    let pages = vec![
        page("A", Some("my_recipes"), "a", "", vec![]),
        page("B", Some("my_recipes"), "b", "", vec![]),
    ];
    let groups = build_section_map(&pages);
    let site = parse(r#"{"title": "Site"}"#);
    let ctx = section_context(&site, &groups[0], 2024);
    assert_eq!(ctx.section_name, "my_recipes");
    let titles: Vec<&str> = ctx.pages.iter().map(|p| p.title.as_str()).collect();
    assert_eq!(titles, vec!["A", "B"]);
    assert_eq!(from_json(&ctx.page)["title"], "My Recipes");
    assert_eq!(ctx.active_nav, "/my_recipes/");
    assert_eq!(ctx.build_year, 2024);
    assert_eq!(from_json(&ctx.site)["title"], "Site");
}
