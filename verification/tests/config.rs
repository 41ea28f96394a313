use wilde_ssg::config::{
    default_code_theme, default_content_dir, default_home_template, default_not_found_template,
    default_output_dir, default_page_template, default_section_template, default_static_dir,
    default_theme_dir, PageTemplates,
};

#[test]
fn default_page_templates() {
    let templates = PageTemplates::default();
    assert_eq!(templates.home, "home.html");
    assert_eq!(templates.section, "section.html");
    assert_eq!(templates.not_found, "404.html");
    assert_eq!(templates.default, "page.html");
}

#[test]
fn default_directories_and_theme() {
    assert_eq!(default_content_dir(), "content");
    assert_eq!(default_output_dir(), "public");
    assert_eq!(default_static_dir(), "static");
    assert_eq!(default_theme_dir(), "theme");
    assert_eq!(default_code_theme(), "base16-ocean.dark");
    assert_eq!(default_home_template(), "home.html");
    assert_eq!(default_section_template(), "section.html");
    assert_eq!(default_not_found_template(), "404.html");
    assert_eq!(default_page_template(), "page.html");
}

