use wilde_ssg::frontmatter::{parse_frontmatter, split_frontmatter};
use wilde_ssg::json::{json_get, Json};

fn to_json(v: &serde_json::Value) -> Json {
    match v {
        serde_json::Value::Null => Json::Null,
        serde_json::Value::Bool(b) => Json::Bool(*b),
        serde_json::Value::Number(n) => Json::Number(n.to_string()),
        serde_json::Value::String(s) => Json::Str(s.clone()),
        serde_json::Value::Array(a) => Json::Array(a.iter().map(to_json).collect()),
        serde_json::Value::Object(m) => {
            Json::Object(m.iter().map(|(k, v)| (k.clone(), to_json(v))).collect())
        }
    }
}

/// Splits the text, reads the block's JSON, and hands both to the library.
fn frontmatter_of(text: &str) -> (Json, String) {
    let parsed = split_frontmatter(text)
        .and_then(|block| serde_json::from_str::<serde_json::Value>(&block.json).ok())
        .map(|v| to_json(&v));
    parse_frontmatter(text, parsed.as_ref())
}

fn str_of(meta: &Json, key: &str) -> Option<String> {
    match json_get(meta, key) {
        Some(Json::Str(s)) => Some(s.clone()),
        _ => None,
    }
}

#[test]
fn valid_single_line_json() {
    let text = "---\n{\"title\": \"Hello\"}\n---\n\n# Content";
    let (meta, body) = frontmatter_of(text);
    assert_eq!(str_of(&meta, "title").as_deref(), Some("Hello"));
    assert_eq!(body.trim(), "# Content");
}

#[test]
fn valid_multiline_json() {
    let text = "---\n{\n  \"title\": \"Hello\",\n  \"date\": \"2024-01-01\"\n}\n---\n\nBody here";
    let (meta, body) = frontmatter_of(text);
    assert_eq!(str_of(&meta, "title").as_deref(), Some("Hello"));
    assert_eq!(str_of(&meta, "date").as_deref(), Some("2024-01-01"));
    assert_eq!(body.trim(), "Body here");
}

#[test]
fn no_frontmatter() {
    let text = "# Just content\n\nNo frontmatter here.";
    let (meta, body) = frontmatter_of(text);
    assert!(matches!(meta, Json::Null));
    assert_eq!(body, text);
}

#[test]
fn invalid_json() {
    let text = "---\nnot json at all\n---\n\nContent";
    let (meta, _body) = frontmatter_of(text);
    assert!(matches!(meta, Json::Null));
}

#[test]
fn draft_field() {
    let text = "---\n{\"title\": \"Draft\", \"draft\": true}\n---\n\nDraft content";
    let (meta, _body) = frontmatter_of(text);
    assert!(matches!(json_get(&meta, "draft"), Some(Json::Bool(true))));
}

#[test]
fn empty_body() {
    let text = "---\n{\"title\": \"Empty\"}\n---\n";
    let (meta, body) = frontmatter_of(text);
    assert_eq!(str_of(&meta, "title").as_deref(), Some("Empty"));
    assert!(body.trim().is_empty());
}

#[test]
fn split_finds_block_boundaries() {
    let block = split_frontmatter("---\n{}\n---\nbody\n---\nmore").unwrap();
    assert_eq!(block.json, "{}");
    assert_eq!(block.body, "body\n---\nmore");
    let block = split_frontmatter("---\n{\"a\":1}\n---").unwrap();
    assert_eq!(block.json, "{\"a\":1}");
    assert_eq!(block.body, "");
    assert!(split_frontmatter("--- \n{}\n---\n").is_none());
    assert!(split_frontmatter("---\n{}\n").is_none());
    let block = split_frontmatter("---\n\n---\nx").unwrap();
    assert_eq!(block.json, "");
    assert_eq!(block.body, "x");
}

#[test]
fn block_without_valid_json_keeps_whole_text() {
    let text = "---\n{broken\n---\nbody";
    let block = split_frontmatter(text).unwrap();
    assert_eq!(block.body, "body");
    let (meta, body) = parse_frontmatter(text, None);
    assert!(matches!(meta, Json::Null));
    assert_eq!(body, text);
}

#[test]
fn split_frontmatter_reads_back_framed_block() {
    let block = split_frontmatter("---\n{\"title\":\"T\",\"n\":1}\n---\nbody\n---\nmore").unwrap();
    assert_eq!(block.json, "{\"title\":\"T\",\"n\":1}");
    assert_eq!(block.body, "body\n---\nmore");
    let block = split_frontmatter("---\n{}\n---\n").unwrap();
    assert_eq!(block.json, "{}");
    assert_eq!(block.body, "");
}
