//! The site configuration read from `site.json`, and its defaults.
use vstd::prelude::*;
use vstd::string::StringExecFns;

verus! {

/// A navigation entry.
#[derive(Debug)]
pub struct NavItem {
    pub name: String,
    pub url: String,
}

/// A link to a social profile.
#[derive(Debug)]
pub struct SocialLink {
    pub name: String,
    pub url: String,
}

/// The author profile shown by the theme.
#[derive(Debug)]
pub struct Profile {
    pub image: String,
    pub subtitle: String,
}

/// The template file names used for the special pages.
#[derive(Debug)]
pub struct PageTemplates {
    pub home: String,
    pub section: String,
    pub not_found: String,
    pub default: String,
}

/// The template of the home page unless the configuration names one.
pub fn default_home_template() -> (r: String)
    ensures
        r@ == "home.html"@,
{
    String::from_str("home.html")
}

/// The template of section index pages unless the configuration names one.
pub fn default_section_template() -> (r: String)
    ensures
        r@ == "section.html"@,
{
    String::from_str("section.html")
}

/// The template of the not-found page unless the configuration names one.
pub fn default_not_found_template() -> (r: String)
    ensures
        r@ == "404.html"@,
{
    String::from_str("404.html")
}

/// The template of content pages that name none in their frontmatter.
pub fn default_page_template() -> (r: String)
    ensures
        r@ == "page.html"@,
{
    String::from_str("page.html")
}

/// The content directory unless the configuration names one.
pub fn default_content_dir() -> (r: String)
    ensures
        r@ == "content"@,
{
    String::from_str("content")
}

/// The output directory unless the configuration names one.
pub fn default_output_dir() -> (r: String)
    ensures
        r@ == "public"@,
{
    String::from_str("public")
}

/// The site's static directory unless the configuration names one.
pub fn default_static_dir() -> (r: String)
    ensures
        r@ == "static"@,
{
    String::from_str("static")
}

/// The theme directory unless the configuration names one.
pub fn default_theme_dir() -> (r: String)
    ensures
        r@ == "theme"@,
{
    String::from_str("theme")
}

/// The syntax highlighting theme unless the configuration names one.
pub fn default_code_theme() -> (r: String)
    ensures
        r@ == "base16-ocean.dark"@,
{
    String::from_str("base16-ocean.dark")
}

impl PageTemplates {
    /// Whether every template name is its default.
    pub open spec fn is_default(&self) -> bool {
        &&& self.home@ == "home.html"@
        &&& self.section@ == "section.html"@
        &&& self.not_found@ == "404.html"@
        &&& self.default@ == "page.html"@
    }
}

impl Default for PageTemplates {
    fn default() -> (r: Self)
        ensures
            r.is_default(),
    {
        PageTemplates {
            home: default_home_template(),
            section: default_section_template(),
            not_found: default_not_found_template(),
            default: default_page_template(),
        }
    }
}

/// The site configuration.
#[derive(Debug)]
pub struct SiteConfig {
    pub title: String,
    pub description: String,
    pub author: String,
    pub base_url: String,
    pub nav: Vec<NavItem>,
    pub social: Vec<SocialLink>,
    pub profile: Profile,
    pub content_dir: String,
    pub output_dir: String,
    pub static_dir: String,
    pub theme_dir: String,
    pub code_theme: String,
    pub include_drafts: bool,
    pub pages: PageTemplates,
}

} // verus!
