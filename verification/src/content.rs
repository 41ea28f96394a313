//! Pages: what the markdown files under the content directory become.
use vstd::prelude::*;
use vstd::string::StringExecFns;
use crate::frontmatter::{parse_frontmatter, parse_frontmatter_spec};
use crate::json::{
    bool_field, bool_field_spec, copy_json, opt_str_field, opt_str_field_spec, str_equal, str_field,
    str_field_spec, string_list, string_list_spec, strings_view, Json, JsonV,
};
use crate::markdown::{render_markdown_with, render_markdown_spec, Highlighter};
use crate::text::{capitalize_words_spec, replace_with_space, str_chars, title_case};

verus! {

// ---------------------------------------------------------------------------
// Pages and tabs
// ---------------------------------------------------------------------------

/// A tab of a tabbed page.
#[derive(Debug)]
pub struct Tab {
    pub name: String,
    pub slug: String,
    pub content: String,
    pub meta: Json,
}

/// A content page.
#[derive(Debug)]
pub struct Page {
    pub title: String,
    pub date: String,
    pub description: String,
    pub template: String,
    pub content: String,
    pub url: String,
    pub section: Option<String>,
    pub slug: String,
    pub meta: Json,
    pub tabs: Vec<Tab>,
}

/// The mathematical form of a tab.
pub struct TabV {
    pub name: Seq<char>,
    pub slug: Seq<char>,
    pub content: Seq<char>,
    pub meta: JsonV,
}

/// The mathematical form of a page.
pub struct PageV {
    pub title: Seq<char>,
    pub date: Seq<char>,
    pub description: Seq<char>,
    pub template: Seq<char>,
    pub content: Seq<char>,
    pub url: Seq<char>,
    pub section: Option<Seq<char>>,
    pub slug: Seq<char>,
    pub meta: JsonV,
    pub tabs: Seq<TabV>,
}

pub open spec fn opt_view(o: Option<String>) -> Option<Seq<char>> {
    match o {
        Some(s) => Some(s@),
        None => None,
    }
}

impl View for Tab {
    type V = TabV;

    open spec fn view(&self) -> TabV {
        TabV { name: self.name@, slug: self.slug@, content: self.content@, meta: self.meta@ }
    }
}

pub open spec fn tabs_view(ts: Seq<Tab>) -> Seq<TabV> {
    ts.map_values(|t: Tab| t@)
}

impl View for Page {
    type V = PageV;

    open spec fn view(&self) -> PageV {
        PageV {
            title: self.title@,
            date: self.date@,
            description: self.description@,
            template: self.template@,
            content: self.content@,
            url: self.url@,
            section: opt_view(self.section),
            slug: self.slug@,
            meta: self.meta@,
            tabs: tabs_view(self.tabs@),
        }
    }
}

pub open spec fn pages_view(ps: Seq<Page>) -> Seq<PageV> {
    ps.map_values(|p: Page| p@)
}

// ---------------------------------------------------------------------------
// Paths
// ---------------------------------------------------------------------------

/// The position of the last `.` in `name`, or -1.
pub open spec fn last_dot(name: Seq<char>) -> int
    decreases name.len(),
{
    if name.len() == 0 {
        -1
    } else if name.last() == '.' {
        name.len() - 1
    } else {
        last_dot(name.drop_last())
    }
}

/// Whether a file name has an extension: a `.` that is not its first
/// character (and the name is not `..`).
pub open spec fn has_extension(name: Seq<char>) -> bool {
    name != ".."@ && last_dot(name) > 0
}

/// The file stem of a file name, as `Path::file_stem` gives it: the part
/// before the last `.`, or the whole name where it has no extension.
pub open spec fn file_stem_spec(name: Seq<char>) -> Seq<char> {
    if has_extension(name) {
        name.take(last_dot(name))
    } else {
        name
    }
}

/// The extension of a file name, as `Path::extension` gives it.
pub open spec fn extension_spec(name: Seq<char>) -> Option<Seq<char>> {
    if has_extension(name) {
        Some(name.skip(last_dot(name) + 1))
    } else {
        None
    }
}

fn find_last_dot(v: &Vec<char>) -> (r: Option<usize>)
    ensures
        r matches Some(p) ==> last_dot(v@) == p as int && p < v.len(),
        r is None ==> last_dot(v@) == -1,
{
    let mut i = v.len();
    assert(v@.take(i as int) =~= v@);
    while i > 0
        invariant
            i <= v.len(),
            last_dot(v@) == last_dot(v@.take(i as int)),
        decreases i,
    {
        assert(v@.take(i as int).drop_last() =~= v@.take(i - 1));
        if v[i - 1] == '.' {
            return Some(i - 1);
        }
        i -= 1;
    }
    assert(v@.take(0) =~= Seq::<char>::empty());
    None
}

fn sub_chars(v: &Vec<char>, from: usize, to: usize) -> (r: String)
    requires
        from <= to <= v.len(),
    ensures
        r@ == v@.subrange(from as int, to as int),
{
    let mut out = String::new();
    let mut i = from;
    while i < to
        invariant
            from <= i <= to,
            to <= v.len(),
            out@ == v@.subrange(from as int, i as int),
        decreases to - i,
    {
        out.push(v[i]);
        i += 1;
        assert(out@ =~= v@.subrange(from as int, i as int));
    }
    out
}

/// The file stem of `name` (see `file_stem_spec`).
pub fn file_stem(name: &str) -> (r: String)
    ensures
        r@ == file_stem_spec(name@),
{
    let v = str_chars(name);
    let is_dotdot = str_equal(name, "..");
    match find_last_dot(&v) {
        Some(p) => {
            if !is_dotdot && p > 0 {
                sub_chars(&v, 0, p)
            } else {
                String::from_str(name)
            }
        },
        None => String::from_str(name),
    }
}

/// Whether a file is a markdown file: its extension is `md`.
pub open spec fn is_markdown_spec(name: Seq<char>) -> bool {
    extension_spec(name) == Some("md"@)
}

/// Whether `name` has the extension `md`.
pub fn is_markdown(name: &str) -> (r: bool)
    ensures
        r == is_markdown_spec(name@),
{
    let v = str_chars(name);
    let is_dotdot = str_equal(name, "..");
    match find_last_dot(&v) {
        Some(p) => {
            if !is_dotdot && p > 0 {
                let ext = sub_chars(&v, p + 1, v.len());
                assert(ext@ =~= v@.skip(p + 1));
                str_equal(ext.as_str(), "md")
            } else {
                false
            }
        },
        None => false,
    }
}

/// The section of a page: the first component of its path below the content
/// directory, where the path has more than one component.
pub open spec fn section_spec(components: Seq<Seq<char>>) -> Option<Seq<char>> {
    if components.len() > 1 {
        Some(components[0])
    } else {
        None
    }
}

/// The URL of a bundle-style page: `/section/slug/`, or `/slug/` outside any
/// section.
pub open spec fn slug_url_spec(section: Option<Seq<char>>, slug: Seq<char>) -> Seq<char> {
    match section {
        Some(s) => "/"@ + s + "/"@ + slug + "/"@,
        None => "/"@ + slug + "/"@,
    }
}

/// The URL of a page from a markdown file: an `index` file stands for its
/// section (`/section/`, or `/` at the top), any other file gets
/// `slug_url_spec`.
pub open spec fn page_url_spec(section: Option<Seq<char>>, slug: Seq<char>) -> Seq<char> {
    if slug == "index"@ {
        match section {
            Some(s) => "/"@ + s + "/"@,
            None => "/"@,
        }
    } else {
        slug_url_spec(section, slug)
    }
}

fn section_of(components: &Vec<String>) -> (r: Option<String>)
    ensures
        opt_view(r) == section_spec(strings_view(components@)),
{
    if components.len() > 1 {
        Some(components[0].clone())
    } else {
        None
    }
}

fn slug_url(section: &Option<String>, slug: &str) -> (r: String)
    ensures
        r@ == slug_url_spec(opt_view(*section), slug@),
{
    let mut url = String::from_str("/");
    match section {
        Some(s) => {
            url.append(s.as_str());
            url.append("/");
        },
        None => {},
    }
    url.append(slug);
    url.append("/");
    proof {
        match section {
            Some(s) => {
                assert(url@ =~= slug_url_spec(opt_view(*section), slug@));
            },
            None => {
                assert(url@ =~= slug_url_spec(opt_view(*section), slug@));
            },
        }
    }
    url
}

/// The URL of a page (see `page_url_spec`).
pub fn page_url(section: &Option<String>, slug: &str) -> (r: String)
    ensures
        r@ == page_url_spec(opt_view(*section), slug@),
{
    if str_equal(slug, "index") {
        let mut url = String::from_str("/");
        match section {
            Some(s) => {
                url.append(s.as_str());
                url.append("/");
            },
            None => {},
        }
        url
    } else {
        slug_url(section, slug)
    }
}

// ---------------------------------------------------------------------------
// Page metadata
// ---------------------------------------------------------------------------

/// The template of a page: `<name>.html` for a `template` string in its
/// metadata, the default template otherwise.
pub open spec fn template_spec(meta: JsonV, default_template: Seq<char>) -> Seq<char> {
    match opt_str_field_spec(meta, "template"@) {
        Some(t) => t + ".html"@,
        None => default_template,
    }
}

fn page_template(meta: &Json, default_template: &str) -> (r: String)
    ensures
        r@ == template_spec(meta@, default_template@),
{
    match opt_str_field(meta, "template") {
        Some(t) => {
            let mut t = t;
            t.append(".html");
            t
        },
        None => String::from_str(default_template),
    }
}

/// Whether a page's metadata keeps it out of the site: `null` metadata (no
/// valid frontmatter), or `"draft": true` unless drafts are included.
pub open spec fn skipped_spec(meta: JsonV, include_drafts: bool) -> bool {
    meta is Null || (!include_drafts && bool_field_spec(meta, "draft"@))
}

/// Which pages stay out: a page without valid frontmatter (`null`
/// metadata) always; a page with frontmatter only where drafts are left out
/// and its `"draft"` value is the boolean `true`. A `"draft": false`, a
/// `"draft"` of another type, or no `"draft"` key keeps the page.
pub proof fn lemma_skipped_drafts(meta: JsonV, include_drafts: bool)
    ensures
        meta is Null ==> skipped_spec(meta, include_drafts),
        !(meta is Null) ==> (skipped_spec(meta, include_drafts) <==> (!include_drafts && crate::json::get_spec(meta, "draft"@)
            == Some(JsonV::Bool(true)))),
        !(meta is Null) && crate::json::get_spec(meta, "draft"@) == Some(JsonV::Bool(false)) ==> !skipped_spec(
            meta,
            include_drafts,
        ),
        !(meta is Null) && crate::json::get_spec(meta, "draft"@) is None ==> !skipped_spec(meta, include_drafts),
        include_drafts ==> (skipped_spec(meta, include_drafts) <==> meta is Null),
{
}

fn skipped(meta: &Json, include_drafts: bool) -> (r: bool)
    ensures
        r == skipped_spec(meta@, include_drafts),
        !(meta@ is Null) ==> (r <==> (!include_drafts && crate::json::get_spec(meta@, "draft"@) == Some(JsonV::Bool(true)))),
{
    match meta {
        Json::Null => true,
        _ => !include_drafts && bool_field(meta, "draft"),
    }
}

/// The page made of a markdown file below the content directory at
/// `components`, from its metadata and body. Its content is the markdown
/// body, to be rendered.
pub open spec fn file_page_spec(
    components: Seq<Seq<char>>,
    meta: JsonV,
    body: Seq<char>,
    default_template: Seq<char>,
) -> PageV {
    let section = section_spec(components);
    let slug = file_stem_spec(components.last());
    PageV {
        title: str_field_spec(meta, "title"@),
        date: str_field_spec(meta, "date"@),
        description: str_field_spec(meta, "description"@),
        template: template_spec(meta, default_template),
        content: body,
        url: page_url_spec(section, slug),
        section,
        slug,
        meta,
        tabs: Seq::empty(),
    }
}

/// The page of a markdown file (see `file_page_spec`).
pub fn file_page(components: &Vec<String>, meta: Json, body: String, default_template: &str) -> (r: Page)
    requires
        components.len() > 0,
    ensures
        r@ == file_page_spec(strings_view(components@), meta@, body@, default_template@),
{
    let section = section_of(components);
    let slug = file_stem(components[components.len() - 1].as_str());
    let url = page_url(&section, slug.as_str());
    let p = Page {
        title: str_field(&meta, "title"),
        date: str_field(&meta, "date"),
        description: str_field(&meta, "description"),
        template: page_template(&meta, default_template),
        content: body,
        url,
        section,
        slug,
        meta,
        tabs: Vec::new(),
    };
    assert(tabs_view(p.tabs@) =~= Seq::<TabV>::empty());
    p
}

// ---------------------------------------------------------------------------
// Sources
// ---------------------------------------------------------------------------

/// A file found below the content directory.
#[derive(Debug)]
pub struct SourceFile {
    /// Its path below the content directory, one entry per component; the
    /// last is the file name.
    pub components: Vec<String>,
    /// Its text, `None` where it could not be read.
    pub text: Option<String>,
    /// What the JSON reader made of the JSON text of its frontmatter block
    /// (see `split_frontmatter`); `None` where there is no block or its text
    /// is not valid JSON.
    pub frontmatter: Option<Json>,
}

/// The mathematical form of a source file.
pub struct SourceFileV {
    pub components: Seq<Seq<char>>,
    pub text: Option<Seq<char>>,
    pub frontmatter: Option<JsonV>,
}

pub open spec fn opt_json_view(o: Option<Json>) -> Option<JsonV> {
    match o {
        Some(j) => Some(j@),
        None => None,
    }
}

impl View for SourceFile {
    type V = SourceFileV;

    open spec fn view(&self) -> SourceFileV {
        SourceFileV {
            components: strings_view(self.components@),
            text: opt_view(self.text),
            frontmatter: opt_json_view(self.frontmatter),
        }
    }
}

pub open spec fn files_view(fs: Seq<SourceFile>) -> Seq<SourceFileV> {
    fs.map_values(|f: SourceFile| f@)
}

/// A tab file of a tabbed page, as looked up in the page's directory.
#[derive(Debug)]
pub enum TabFile {
    /// There is no such file.
    Missing,
    /// The file exists but could not be read.
    Unreadable,
    /// The file's text, and what the JSON reader made of its frontmatter
    /// block's JSON text.
    Read { text: String, frontmatter: Option<Json> },
}

/// The tab file `<slug>.md` of the tabbed page in the directory `dir`.
#[derive(Debug)]
pub struct TabSource {
    pub dir: Vec<String>,
    pub slug: String,
    pub file: TabFile,
}

/// The mathematical form of a tab file.
pub enum TabFileV {
    Missing,
    Unreadable,
    Read(Seq<char>, Option<JsonV>),
}

pub struct TabSourceV {
    pub dir: Seq<Seq<char>>,
    pub slug: Seq<char>,
    pub file: TabFileV,
}

impl View for TabSource {
    type V = TabSourceV;

    open spec fn view(&self) -> TabSourceV {
        TabSourceV {
            dir: strings_view(self.dir@),
            slug: self.slug@,
            file: match self.file {
                TabFile::Missing => TabFileV::Missing,
                TabFile::Unreadable => TabFileV::Unreadable,
                TabFile::Read { text, frontmatter } => TabFileV::Read(
                    text@,
                    opt_json_view(frontmatter),
                ),
            },
        }
    }
}

pub open spec fn tab_sources_view(ts: Seq<TabSource>) -> Seq<TabSourceV> {
    ts.map_values(|t: TabSource| t@)
}

/// The metadata of a file: that of its frontmatter, `null` where it has
/// none or cannot be read.
pub open spec fn file_meta_spec(f: SourceFileV) -> JsonV {
    match f.text {
        Some(t) => parse_frontmatter_spec(t, f.frontmatter).0,
        None => JsonV::Null,
    }
}

/// Whether a file is the index of a tabbed page: an `_index.md` that can be
/// read and whose metadata has a `tabs` array.
pub open spec fn is_tab_index_spec(f: SourceFileV) -> bool {
    &&& f.components.len() > 0
    &&& f.components.last() == "_index.md"@
    &&& f.text is Some
    &&& string_list_spec(file_meta_spec(f), "tabs"@) is Some
}

/// The directories of tabbed pages, in the order their indexes come.
pub open spec fn tabbed_dirs_spec(files: Seq<SourceFileV>) -> Seq<Seq<Seq<char>>>
    decreases files.len(),
{
    if files.len() == 0 {
        Seq::empty()
    } else {
        let ds = tabbed_dirs_spec(files.drop_last());
        let f = files.last();
        if is_tab_index_spec(f) && !ds.contains(f.components.drop_last()) {
            ds.push(f.components.drop_last())
        } else {
            ds
        }
    }
}

fn copy_strings(v: &Vec<String>, n: usize) -> (r: Vec<String>)
    requires
        n <= v.len(),
    ensures
        strings_view(r@) == strings_view(v@).take(n as int),
{
    let mut out: Vec<String> = Vec::new();
    let mut i: usize = 0;
    while i < n
        invariant
            i <= n,
            n <= v.len(),
            strings_view(out@) == strings_view(v@).take(i as int),
        decreases n - i,
    {
        let ghost before = out@;
        out.push(v[i].clone());
        assert(strings_view(out@) =~= strings_view(before).push(v@[i as int]@));
        i += 1;
        assert(strings_view(out@) =~= strings_view(v@).take(i as int));
    }
    out
}

/// Whether two component lists are the same.
fn same_strings(a: &Vec<String>, b: &Vec<String>) -> (r: bool)
    ensures
        r == (strings_view(a@) == strings_view(b@)),
{
    if a.len() != b.len() {
        assert(strings_view(a@).len() != strings_view(b@).len());
        return false;
    }
    let mut i: usize = 0;
    while i < a.len()
        invariant
            i <= a.len(),
            a.len() == b.len(),
            forall|m: int| 0 <= m < i ==> a@[m]@ == b@[m]@,
        decreases a.len() - i,
    {
        if !str_equal(a[i].as_str(), b[i].as_str()) {
            assert(strings_view(a@)[i as int] != strings_view(b@)[i as int]);
            return false;
        }
        i += 1;
    }
    assert(strings_view(a@) =~= strings_view(b@));
    true
}

pub open spec fn dirs_view(ds: Seq<Vec<String>>) -> Seq<Seq<Seq<char>>> {
    ds.map_values(|d: Vec<String>| strings_view(d@))
}

fn contains_dir(ds: &Vec<Vec<String>>, d: &Vec<String>) -> (r: bool)
    ensures
        r == dirs_view(ds@).contains(strings_view(d@)),
{
    let mut i: usize = 0;
    while i < ds.len()
        invariant
            i <= ds.len(),
            forall|m: int| 0 <= m < i ==> dirs_view(ds@)[m] != strings_view(d@),
        decreases ds.len() - i,
    {
        if same_strings(&ds[i], d) {
            assert(dirs_view(ds@)[i as int] == strings_view(d@));
            return true;
        }
        i += 1;
    }
    false
}

/// The metadata and body of a readable file.
fn file_meta_body(f: &SourceFile) -> (r: (Json, String))
    requires
        f.text is Some,
    ensures
        (r.0@, r.1@) == parse_frontmatter_spec(f@.text->0, f@.frontmatter),
{
    match &f.text {
        Some(t) => {
            let fm = match &f.frontmatter {
                Some(j) => Some(j),
                None => None,
            };
            parse_frontmatter(t.as_str(), fm)
        },
        None => (Json::Null, String::new()),
    }
}

/// Whether `f` is the index of a tabbed page (see `is_tab_index_spec`).
pub fn is_tab_index(f: &SourceFile) -> (r: bool)
    ensures
        r == is_tab_index_spec(f@),
{
    if f.components.len() == 0 || f.text.is_none() {
        return false;
    }
    let n = f.components.len();
    if !str_equal(f.components[n - 1].as_str(), "_index.md") {
        return false;
    }
    let (meta, _body) = file_meta_body(f);
    crate::json::has_array(&meta, "tabs")
}

/// The directories of tabbed pages (see `tabbed_dirs_spec`).
pub fn tabbed_dirs(files: &Vec<SourceFile>) -> (r: Vec<Vec<String>>)
    ensures
        dirs_view(r@) == tabbed_dirs_spec(files_view(files@)),
{
    let ghost fv = files_view(files@);
    let mut out: Vec<Vec<String>> = Vec::new();
    let mut i: usize = 0;
    while i < files.len()
        invariant
            i <= files.len(),
            fv == files_view(files@),
            dirs_view(out@) == tabbed_dirs_spec(fv.take(i as int)),
        decreases files.len() - i,
    {
        assert(fv.take(i + 1).drop_last() =~= fv.take(i as int));
        assert(fv.take(i + 1).last() == files@[i as int]@);
        let f = &files[i];
        if is_tab_index(f) {
            let parent = copy_strings(&f.components, f.components.len() - 1);
            assert(strings_view(parent@) == f@.components.drop_last());
            if !contains_dir(&out, &parent) {
                let ghost before = out@;
                out.push(parent);
                assert(dirs_view(out@) =~= dirs_view(before).push(strings_view(parent@)));
            }
        }
        i += 1;
    }
    assert(fv.take(files.len() as int) =~= fv);
    out
}

// ---------------------------------------------------------------------------
// Collecting pages
// ---------------------------------------------------------------------------

/// What one source does to the list of pages: nothing, add a page, or fail
/// with the path of a file that could not be read.
pub enum StepV {
    Skip,
    Add(PageV),
    Fail(Seq<Seq<char>>),
}

/// A markdown file outside the directories of tabbed pages becomes a page
/// unless its metadata keeps it out (see `skipped_spec`); one that cannot be
/// read is an error. Other files are skipped.
pub open spec fn regular_step_spec(
    f: SourceFileV,
    tabbed: Seq<Seq<Seq<char>>>,
    include_drafts: bool,
    default_template: Seq<char>,
) -> StepV {
    if f.components.len() == 0 || !is_markdown_spec(f.components.last()) {
        StepV::Skip
    } else if tabbed.contains(f.components.drop_last()) {
        StepV::Skip
    } else {
        match f.text {
            None => StepV::Fail(f.components),
            Some(t) => {
                let (meta, body) = parse_frontmatter_spec(t, f.frontmatter);
                if skipped_spec(meta, include_drafts) {
                    StepV::Skip
                } else {
                    StepV::Add(file_page_spec(f.components, meta, body, default_template))
                }
            },
        }
    }
}

/// The pages of the files, in order, or the first file that could not be read.
pub open spec fn collect_files_spec(
    files: Seq<SourceFileV>,
    tabbed: Seq<Seq<Seq<char>>>,
    include_drafts: bool,
    default_template: Seq<char>,
) -> Result<Seq<PageV>, Seq<Seq<char>>>
    decreases files.len(),
{
    if files.len() == 0 {
        Ok(Seq::empty())
    } else {
        match collect_files_spec(files.drop_last(), tabbed, include_drafts, default_template) {
            Err(e) => Err(e),
            Ok(ps) => match regular_step_spec(files.last(), tabbed, include_drafts, default_template) {
                StepV::Skip => Ok(ps),
                StepV::Add(p) => Ok(ps.push(p)),
                StepV::Fail(e) => Err(e),
            },
        }
    }
}

/// What a file does to the list of pages (see `regular_step_spec`).
pub enum Step {
    Skip,
    Add(Page),
    Fail(Vec<String>),
}

pub open spec fn step_view(s: Step) -> StepV {
    match s {
        Step::Skip => StepV::Skip,
        Step::Add(p) => StepV::Add(p@),
        Step::Fail(e) => StepV::Fail(strings_view(e@)),
    }
}

fn regular_step(
    f: &SourceFile,
    tabbed: &Vec<Vec<String>>,
    include_drafts: bool,
    default_template: &str,
) -> (r: Step)
    ensures
        step_view(r) == regular_step_spec(f@, dirs_view(tabbed@), include_drafts, default_template@),
{
    let n = f.components.len();
    if n == 0 || !is_markdown(f.components[n - 1].as_str()) {
        return Step::Skip;
    }
    let parent = copy_strings(&f.components, n - 1);
    if contains_dir(tabbed, &parent) {
        return Step::Skip;
    }
    if f.text.is_none() {
        let e = copy_strings(&f.components, n);
        assert(strings_view(f.components@).take(n as int) =~= strings_view(f.components@));
        return Step::Fail(e);
    }
    let (meta, body) = file_meta_body(f);
    if skipped(&meta, include_drafts) {
        Step::Skip
    } else {
        Step::Add(file_page(&f.components, meta, body, default_template))
    }
}

/// The pages of the files (see `collect_files_spec`).
fn collect_files(
    files: &Vec<SourceFile>,
    tabbed: &Vec<Vec<String>>,
    include_drafts: bool,
    default_template: &str,
) -> (r: Result<Vec<Page>, Vec<String>>)
    ensures
        match (r, collect_files_spec(files_view(files@), dirs_view(tabbed@), include_drafts, default_template@)) {
            (Ok(ps), Ok(qs)) => pages_view(ps@) == qs,
            (Err(e), Err(d)) => strings_view(e@) == d,
            _ => false,
        },
{
    let ghost fv = files_view(files@);
    let ghost td = dirs_view(tabbed@);
    let mut pages: Vec<Page> = Vec::new();
    let mut i: usize = 0;
    assert(fv.take(0) =~= Seq::<SourceFileV>::empty());
    assert(pages_view(pages@) =~= Seq::<PageV>::empty());
    while i < files.len()
        invariant
            i <= files.len(),
            fv == files_view(files@),
            td == dirs_view(tabbed@),
            collect_files_spec(fv.take(i as int), td, include_drafts, default_template@) == Ok::<
                Seq<PageV>,
                Seq<Seq<char>>,
            >(pages_view(pages@)),
        decreases files.len() - i,
    {
        assert(fv.take(i + 1).drop_last() =~= fv.take(i as int));
        assert(fv.take(i + 1).last() == files@[i as int]@);
        match regular_step(&files[i], tabbed, include_drafts, default_template) {
            Step::Skip => {},
            Step::Add(p) => {
                let ghost before = pages@;
                pages.push(p);
                assert(pages_view(pages@) =~= pages_view(before).push(p@));
            },
            Step::Fail(e) => {
                proof {
                    lemma_collect_files_fail(fv, (i + 1) as int, td, include_drafts, default_template@);
                }
                return Err(e);
            },
        }
        i += 1;
    }
    assert(fv.take(files.len() as int) =~= fv);
    Ok(pages)
}

/// Once collecting fails on a prefix, it fails the same way on the whole.
proof fn lemma_collect_files_fail(
    files: Seq<SourceFileV>,
    n: int,
    tabbed: Seq<Seq<Seq<char>>>,
    include_drafts: bool,
    default_template: Seq<char>,
)
    requires
        0 <= n <= files.len(),
        collect_files_spec(files.take(n), tabbed, include_drafts, default_template) is Err,
    ensures
        collect_files_spec(files, tabbed, include_drafts, default_template) == collect_files_spec(
            files.take(n),
            tabbed,
            include_drafts,
            default_template,
        ),
    decreases files.len() - n,
{
    if n < files.len() {
        assert(files.take(n + 1).drop_last() =~= files.take(n));
        lemma_collect_files_fail(files, n + 1, tabbed, include_drafts, default_template);
    } else {
        assert(files.take(n) =~= files);
    }
}

// ---------------------------------------------------------------------------
// Tabbed pages
// ---------------------------------------------------------------------------

/// The tab file of the first source for `slug` in `dir`, if any source names it.
pub open spec fn tab_find_spec(tabs: Seq<TabSourceV>, dir: Seq<Seq<char>>, slug: Seq<char>) -> Option<TabFileV>
    decreases tabs.len(),
{
    if tabs.len() == 0 {
        None
    } else {
        let found = tab_find_spec(tabs.drop_last(), dir, slug);
        if found is None && tabs.last().dir == dir && tabs.last().slug == slug {
            Some(tabs.last().file)
        } else {
            found
        }
    }
}

/// The tab file for `slug` in `dir`: that of the first source that names
/// it, missing where none does.
pub open spec fn tab_lookup_spec(tabs: Seq<TabSourceV>, dir: Seq<Seq<char>>, slug: Seq<char>) -> TabFileV {
    match tab_find_spec(tabs, dir, slug) {
        Some(f) => f,
        None => TabFileV::Missing,
    }
}

/// The name of a tab: the title in its metadata, or the title-cased slug
/// where there is none (or it is empty).
pub open spec fn tab_name_spec(meta: JsonV, slug: Seq<char>) -> Seq<char> {
    let title = str_field_spec(meta, "title"@);
    if title.len() == 0 {
        capitalize_words_spec(replace_with_space(slug, true))
    } else {
        title
    }
}

/// The tabs of a tabbed page in `dir`, in the order of `slugs`: a missing
/// tab file is skipped, an unreadable one is an error (its path).
pub open spec fn tabs_spec(
    dir: Seq<Seq<char>>,
    slugs: Seq<Seq<char>>,
    tabs: Seq<TabSourceV>,
) -> Result<Seq<TabV>, Seq<Seq<char>>>
    decreases slugs.len(),
{
    if slugs.len() == 0 {
        Ok(Seq::empty())
    } else {
        match tabs_spec(dir, slugs.drop_last(), tabs) {
            Err(e) => Err(e),
            Ok(ts) => {
                let slug = slugs.last();
                match tab_lookup_spec(tabs, dir, slug) {
                    TabFileV::Missing => Ok(ts),
                    TabFileV::Unreadable => Err(dir.push(slug + ".md"@)),
                    TabFileV::Read(text, fm) => {
                        let (meta, body) = parse_frontmatter_spec(text, fm);
                        Ok(
                            ts.push(
                                TabV { name: tab_name_spec(meta, slug), slug, content: body, meta },
                            ),
                        )
                    },
                }
            },
        }
    }
}

/// The page of a tabbed page's directory: its slug is the directory's name
/// (`root` for the content directory itself), its content the index's body,
/// the rest as for other pages.
pub open spec fn bundle_page_spec(
    dir: Seq<Seq<char>>,
    root: Seq<char>,
    meta: JsonV,
    body: Seq<char>,
    tabs: Seq<TabV>,
    default_template: Seq<char>,
) -> PageV {
    let section = section_spec(dir);
    let slug = if dir.len() > 0 {
        dir.last()
    } else {
        root
    };
    PageV {
        title: str_field_spec(meta, "title"@),
        date: str_field_spec(meta, "date"@),
        description: str_field_spec(meta, "description"@),
        template: template_spec(meta, default_template),
        content: body,
        url: slug_url_spec(section, slug),
        section,
        slug,
        meta,
        tabs,
    }
}

/// The first file that is the index of the tabbed page in `dir`.
pub open spec fn bundle_index_spec(files: Seq<SourceFileV>, dir: Seq<Seq<char>>) -> Option<SourceFileV>
    decreases files.len(),
{
    if files.len() == 0 {
        None
    } else {
        let found = bundle_index_spec(files.drop_last(), dir);
        if found is None && is_tab_index_spec(files.last()) && files.last().components.drop_last()
            == dir {
            Some(files.last())
        } else {
            found
        }
    }
}

/// What the tabbed page in `dir` does to the list of pages: its index's
/// metadata may keep it out (see `skipped_spec`); otherwise it becomes a page
/// with the tabs its index lists, or an error where a tab file cannot be read.
pub open spec fn bundle_step_spec(
    dir: Seq<Seq<char>>,
    files: Seq<SourceFileV>,
    tabs: Seq<TabSourceV>,
    root: Seq<char>,
    include_drafts: bool,
    default_template: Seq<char>,
) -> StepV {
    match bundle_index_spec(files, dir) {
        None => StepV::Skip,
        Some(f) => {
            let (meta, body) = match f.text {
                Some(t) => parse_frontmatter_spec(t, f.frontmatter),
                None => (JsonV::Null, Seq::empty()),
            };
            if skipped_spec(meta, include_drafts) {
                StepV::Skip
            } else {
                let slugs = match string_list_spec(meta, "tabs"@) {
                    Some(l) => l,
                    None => Seq::empty(),
                };
                match tabs_spec(dir, slugs, tabs) {
                    Err(e) => StepV::Fail(e),
                    Ok(ts) => StepV::Add(bundle_page_spec(dir, root, meta, body, ts, default_template)),
                }
            }
        },
    }
}

fn tab_find(tabs: &Vec<TabSource>, dir: &Vec<String>, slug: &String) -> (r: Option<usize>)
    ensures
        r matches Some(p) ==> p < tabs.len() && tab_find_spec(tab_sources_view(tabs@), strings_view(dir@), slug@) == Some(tabs@[p as int]@.file),
        r is None ==> tab_find_spec(tab_sources_view(tabs@), strings_view(dir@), slug@) is None,
{
    let ghost tv = tab_sources_view(tabs@);
    let mut found: Option<usize> = None;
    let mut i: usize = 0;
    while i < tabs.len()
        invariant
            i <= tabs.len(),
            tv == tab_sources_view(tabs@),
            found matches Some(p) ==> p < i && tab_find_spec(tv.take(i as int), strings_view(dir@), slug@) == Some(tabs@[p as int]@.file),
            found is None ==> tab_find_spec(tv.take(i as int), strings_view(dir@), slug@) is None,
        decreases tabs.len() - i,
    {
        assert(tv.take(i + 1).drop_last() =~= tv.take(i as int));
        assert(tv.take(i + 1).last() == tabs@[i as int]@);
        if found.is_none() && same_strings(&tabs[i].dir, dir) && tabs[i].slug == *slug {
            found = Some(i);
        }
        i += 1;
    }
    assert(tv.take(tabs.len() as int) =~= tv);
    found
}

fn tab_of(slug: &String, text: &String, frontmatter: &Option<Json>) -> (r: Tab)
    ensures
        ({
            let (meta, body) = parse_frontmatter_spec(text@, opt_json_view(*frontmatter));
            r@ == TabV { name: tab_name_spec(meta, slug@), slug: slug@, content: body, meta }
        }),
{
    let fm = match frontmatter {
        Some(j) => Some(j),
        None => None,
    };
    let (meta, body) = parse_frontmatter(text.as_str(), fm);
    let title = str_field(&meta, "title");
    let name = if title.as_str().is_empty() {
        title_case(slug.as_str())
    } else {
        title
    };
    Tab { name, slug: slug.clone(), content: body, meta }
}

fn tab_path(dir: &Vec<String>, slug: &String) -> (r: Vec<String>)
    ensures
        strings_view(r@) == strings_view(dir@).push(slug@ + ".md"@),
{
    let mut out = copy_strings(dir, dir.len());
    let mut file = slug.clone();
    file.append(".md");
    let ghost before = out@;
    out.push(file);
    assert(strings_view(dir@).take(dir.len() as int) =~= strings_view(dir@));
    assert(strings_view(out@) =~= strings_view(before).push(file@));
    out
}

/// The tabs of a tabbed page (see `tabs_spec`).
fn build_tabs(dir: &Vec<String>, slugs: &Vec<String>, tabs: &Vec<TabSource>) -> (r: Result<Vec<Tab>, Vec<String>>)
    ensures
        match (r, tabs_spec(strings_view(dir@), strings_view(slugs@), tab_sources_view(tabs@))) {
            (Ok(ts), Ok(us)) => tabs_view(ts@) == us,
            (Err(e), Err(d)) => strings_view(e@) == d,
            _ => false,
        },
{
    let ghost sv = strings_view(slugs@);
    let ghost dv = strings_view(dir@);
    let ghost tv = tab_sources_view(tabs@);
    let mut out: Vec<Tab> = Vec::new();
    let mut i: usize = 0;
    assert(sv.take(0) =~= Seq::<Seq<char>>::empty());
    assert(tabs_view(out@) =~= Seq::<TabV>::empty());
    while i < slugs.len()
        invariant
            i <= slugs.len(),
            sv == strings_view(slugs@),
            dv == strings_view(dir@),
            tv == tab_sources_view(tabs@),
            tabs_spec(dv, sv.take(i as int), tv) == Ok::<Seq<TabV>, Seq<Seq<char>>>(tabs_view(out@)),
        decreases slugs.len() - i,
    {
        assert(sv.take(i + 1).drop_last() =~= sv.take(i as int));
        assert(sv.take(i + 1).last() == slugs@[i as int]@);
        let slug = &slugs[i];
        match tab_find(tabs, dir, slug) {
            None => {},
            Some(p) => {
                match &tabs[p].file {
                    TabFile::Missing => {},
                    TabFile::Unreadable => {
                        proof {
                            lemma_tabs_fail(dv, sv, (i + 1) as int, tv);
                        }
                        return Err(tab_path(dir, slug));
                    },
                    TabFile::Read { text, frontmatter } => {
                        let t = tab_of(slug, text, frontmatter);
                        let ghost before = out@;
                        out.push(t);
                        assert(tabs_view(out@) =~= tabs_view(before).push(t@));
                    },
                }
            },
        }
        i += 1;
    }
    assert(sv.take(slugs.len() as int) =~= sv);
    Ok(out)
}

proof fn lemma_tabs_fail(dir: Seq<Seq<char>>, slugs: Seq<Seq<char>>, n: int, tabs: Seq<TabSourceV>)
    requires
        0 <= n <= slugs.len(),
        tabs_spec(dir, slugs.take(n), tabs) is Err,
    ensures
        tabs_spec(dir, slugs, tabs) == tabs_spec(dir, slugs.take(n), tabs),
    decreases slugs.len() - n,
{
    if n < slugs.len() {
        assert(slugs.take(n + 1).drop_last() =~= slugs.take(n));
        lemma_tabs_fail(dir, slugs, n + 1, tabs);
    } else {
        assert(slugs.take(n) =~= slugs);
    }
}

fn bundle_index(files: &Vec<SourceFile>, dir: &Vec<String>) -> (r: Option<usize>)
    ensures
        r matches Some(p) ==> p < files.len() && bundle_index_spec(files_view(files@), strings_view(dir@)) == Some(files@[p as int]@),
        r is None ==> bundle_index_spec(files_view(files@), strings_view(dir@)) is None,
{
    let ghost fv = files_view(files@);
    let mut found: Option<usize> = None;
    let mut i: usize = 0;
    while i < files.len()
        invariant
            i <= files.len(),
            fv == files_view(files@),
            found matches Some(p) ==> p < i && bundle_index_spec(fv.take(i as int), strings_view(dir@)) == Some(files@[p as int]@),
            found is None ==> bundle_index_spec(fv.take(i as int), strings_view(dir@)) is None,
        decreases files.len() - i,
    {
        assert(fv.take(i + 1).drop_last() =~= fv.take(i as int));
        assert(fv.take(i + 1).last() == files@[i as int]@);
        if found.is_none() && is_tab_index(&files[i]) {
            let n = files[i].components.len();
            let parent = copy_strings(&files[i].components, n - 1);
            if same_strings(&parent, dir) {
                found = Some(i);
            }
        }
        i += 1;
    }
    assert(fv.take(files.len() as int) =~= fv);
    found
}

fn bundle_page(
    dir: &Vec<String>,
    root: &str,
    meta: Json,
    body: String,
    tabs: Vec<Tab>,
    default_template: &str,
) -> (r: Page)
    ensures
        r@ == bundle_page_spec(strings_view(dir@), root@, meta@, body@, tabs_view(tabs@), default_template@),
{
    let section = section_of(dir);
    let slug = if dir.len() > 0 {
        dir[dir.len() - 1].clone()
    } else {
        String::from_str(root)
    };
    let url = slug_url(&section, slug.as_str());
    Page {
        title: str_field(&meta, "title"),
        date: str_field(&meta, "date"),
        description: str_field(&meta, "description"),
        template: page_template(&meta, default_template),
        content: body,
        url,
        section,
        slug,
        meta,
        tabs,
    }
}

fn bundle_step(
    dir: &Vec<String>,
    files: &Vec<SourceFile>,
    tabs: &Vec<TabSource>,
    root: &str,
    include_drafts: bool,
    default_template: &str,
) -> (r: Step)
    ensures
        step_view(r) == bundle_step_spec(
            strings_view(dir@),
            files_view(files@),
            tab_sources_view(tabs@),
            root@,
            include_drafts,
            default_template@,
        ),
{
    match bundle_index(files, dir) {
        None => Step::Skip,
        Some(p) => {
            let f = &files[p];
            let (meta, body) = if f.text.is_some() {
                file_meta_body(f)
            } else {
                (Json::Null, String::new())
            };
            if skipped(&meta, include_drafts) {
                return Step::Skip;
            }
            let slugs = match string_list(&meta, "tabs") {
                Some(l) => l,
                None => {
                    let l: Vec<String> = Vec::new();
                    assert(strings_view(l@) =~= Seq::<Seq<char>>::empty());
                    l
                },
            };
            match build_tabs(dir, &slugs, tabs) {
                Err(e) => Step::Fail(e),
                Ok(ts) => Step::Add(bundle_page(dir, root, meta, body, ts, default_template)),
            }
        },
    }
}

/// Adds the pages of the tabbed directories `dirs` to `acc`, in order, or
/// gives the first file that could not be read.
pub open spec fn collect_bundles_spec(
    dirs: Seq<Seq<Seq<char>>>,
    files: Seq<SourceFileV>,
    tabs: Seq<TabSourceV>,
    root: Seq<char>,
    include_drafts: bool,
    default_template: Seq<char>,
    acc: Seq<PageV>,
) -> Result<Seq<PageV>, Seq<Seq<char>>>
    decreases dirs.len(),
{
    if dirs.len() == 0 {
        Ok(acc)
    } else {
        match collect_bundles_spec(dirs.drop_last(), files, tabs, root, include_drafts, default_template, acc) {
            Err(e) => Err(e),
            Ok(ps) => match bundle_step_spec(dirs.last(), files, tabs, root, include_drafts, default_template) {
                StepV::Skip => Ok(ps),
                StepV::Add(p) => Ok(ps.push(p)),
                StepV::Fail(e) => Err(e),
            },
        }
    }
}

proof fn lemma_bundles_fail(
    dirs: Seq<Seq<Seq<char>>>,
    n: int,
    files: Seq<SourceFileV>,
    tabs: Seq<TabSourceV>,
    root: Seq<char>,
    include_drafts: bool,
    default_template: Seq<char>,
    acc: Seq<PageV>,
)
    requires
        0 <= n <= dirs.len(),
        collect_bundles_spec(dirs.take(n), files, tabs, root, include_drafts, default_template, acc) is Err,
    ensures
        collect_bundles_spec(dirs, files, tabs, root, include_drafts, default_template, acc)
            == collect_bundles_spec(dirs.take(n), files, tabs, root, include_drafts, default_template, acc),
    decreases dirs.len() - n,
{
    if n < dirs.len() {
        assert(dirs.take(n + 1).drop_last() =~= dirs.take(n));
        lemma_bundles_fail(dirs, n + 1, files, tabs, root, include_drafts, default_template, acc);
    } else {
        assert(dirs.take(n) =~= dirs);
    }
}

/// The pages of the content directory before rendering and ordering: first
/// those of the markdown files in the order given (the files in the
/// directories of tabbed pages left out), then the tabbed pages in the order
/// their indexes come; or the first file that could not be read. Each page's
/// content is still its markdown.
pub open spec fn collect_pages_spec(
    files: Seq<SourceFileV>,
    tabs: Seq<TabSourceV>,
    root: Seq<char>,
    include_drafts: bool,
    default_template: Seq<char>,
) -> Result<Seq<PageV>, Seq<Seq<char>>> {
    let tabbed = tabbed_dirs_spec(files);
    match collect_files_spec(files, tabbed, include_drafts, default_template) {
        Err(e) => Err(e),
        Ok(ps) => collect_bundles_spec(tabbed, files, tabs, root, include_drafts, default_template, ps),
    }
}

/// Collects the pages of the content directory (see `collect_pages_spec`).
/// `files` are the files found below it, in the order a directory walk gives
/// them; `tabs` the tab files looked up for the tabbed pages (see
/// `tab_requests`); `root` the name of the content directory itself.
pub fn collect_pages(
    files: &Vec<SourceFile>,
    tabs: &Vec<TabSource>,
    root: &str,
    include_drafts: bool,
    default_template: &str,
) -> (r: Result<Vec<Page>, Vec<String>>)
    ensures
        match (r, collect_pages_spec(files_view(files@), tab_sources_view(tabs@), root@, include_drafts, default_template@)) {
            (Ok(ps), Ok(qs)) => pages_view(ps@) == qs,
            (Err(e), Err(d)) => strings_view(e@) == d,
            _ => false,
        },
{
    let tabbed = tabbed_dirs(files);
    let mut pages = match collect_files(files, &tabbed, include_drafts, default_template) {
        Err(e) => {
            return Err(e);
        },
        Ok(ps) => ps,
    };
    let ghost start = pages_view(pages@);
    let ghost dv = dirs_view(tabbed@);
    let ghost fv = files_view(files@);
    let ghost tv = tab_sources_view(tabs@);
    let mut i: usize = 0;
    assert(dv.take(0) =~= Seq::<Seq<Seq<char>>>::empty());
    while i < tabbed.len()
        invariant
            i <= tabbed.len(),
            dv == dirs_view(tabbed@),
            fv == files_view(files@),
            tv == tab_sources_view(tabs@),
            dv == tabbed_dirs_spec(fv),
            collect_files_spec(fv, dv, include_drafts, default_template@) == Ok::<Seq<PageV>, Seq<Seq<char>>>(start),
            collect_bundles_spec(dv.take(i as int), fv, tv, root@, include_drafts, default_template@, start)
                == Ok::<Seq<PageV>, Seq<Seq<char>>>(pages_view(pages@)),
        decreases tabbed.len() - i,
    {
        assert(dv.take(i + 1).drop_last() =~= dv.take(i as int));
        assert(dv.take(i + 1).last() == strings_view(tabbed@[i as int]@));
        match bundle_step(&tabbed[i], files, tabs, root, include_drafts, default_template) {
            Step::Skip => {},
            Step::Add(p) => {
                let ghost before = pages@;
                pages.push(p);
                assert(pages_view(pages@) =~= pages_view(before).push(p@));
            },
            Step::Fail(e) => {
                proof {
                    lemma_bundles_fail(dv, (i + 1) as int, fv, tv, root@, include_drafts, default_template@, start);
                }
                return Err(e);
            },
        }
        i += 1;
    }
    assert(dv.take(tabbed.len() as int) =~= dv);
    Ok(pages)
}

/// The tab slugs that the index of the tabbed page in `dir` lists.
pub open spec fn tab_list_of(files: Seq<SourceFileV>, dir: Seq<Seq<char>>) -> Option<Seq<Seq<char>>> {
    match bundle_index_spec(files, dir) {
        Some(f) => string_list_spec(file_meta_spec(f), "tabs"@),
        None => None,
    }
}

/// For each tabbed page, its directory and the slugs of the tab files its
/// index lists, in order: the files to look up for `collect_pages`.
pub fn tab_requests(files: &Vec<SourceFile>) -> (r: Vec<(Vec<String>, Vec<String>)>)
    ensures
        r.len() == tabbed_dirs_spec(files_view(files@)).len(),
        forall|i: int|
            0 <= i < r.len() ==> strings_view(#[trigger] r@[i].0@) == tabbed_dirs_spec(
                files_view(files@),
            )[i],
        forall|i: int|
            0 <= i < r.len() ==> #[trigger] tab_list_of(
                files_view(files@),
                tabbed_dirs_spec(files_view(files@))[i],
            ) == Some(strings_view(r@[i].1@)),
{
    let tabbed = tabbed_dirs(files);
    let mut out: Vec<(Vec<String>, Vec<String>)> = Vec::new();
    let mut i: usize = 0;
    while i < tabbed.len()
        invariant
            i <= tabbed.len(),
            dirs_view(tabbed@) == tabbed_dirs_spec(files_view(files@)),
            out.len() == i,
            forall|k: int|
                0 <= k < i ==> strings_view(#[trigger] out@[k].0@) == tabbed_dirs_spec(
                    files_view(files@),
                )[k],
            forall|k: int|
                0 <= k < i ==> #[trigger] tab_list_of(
                    files_view(files@),
                    tabbed_dirs_spec(files_view(files@))[k],
                ) == Some(strings_view(out@[k].1@)),
        decreases tabbed.len() - i,
    {
        proof {
            lemma_tabbed_dir_has_index(files_view(files@), i as int);
        }
        assert(dirs_view(tabbed@)[i as int] == strings_view(tabbed@[i as int]@));
        match bundle_index(files, &tabbed[i]) {
            Some(p) => {
                let (meta, _body) = file_meta_body(&files[p]);
                let slugs = match string_list(&meta, "tabs") {
                    Some(l) => l,
                    None => Vec::new(),
                };
                let dir = copy_strings(&tabbed[i], tabbed[i].len());
                assert(strings_view(tabbed@[i as int]@).take(tabbed@[i as int].len() as int)
                    =~= strings_view(tabbed@[i as int]@));
                let ghost before = out@;
                out.push((dir, slugs));
                assert forall|k: int| 0 <= k < i implies strings_view(#[trigger] out@[k].0@)
                    == tabbed_dirs_spec(files_view(files@))[k] && tab_list_of(
                    files_view(files@),
                    tabbed_dirs_spec(files_view(files@))[k],
                ) == Some(strings_view(out@[k].1@)) by {
                    assert(out@[k] == before[k]);
                }
                assert(out@[i as int] == (dir, slugs));
                let ghost d = tabbed_dirs_spec(files_view(files@))[i as int];
                assert(strings_view(dir@) == d);
                assert(bundle_index_spec(files_view(files@), d) == Some(files@[p as int]@));
                assert(file_meta_spec(files@[p as int]@) == meta@);
                assert(string_list_spec(meta@, "tabs"@) == Some(strings_view(slugs@)));
                assert(tab_list_of(files_view(files@), d) == Some(strings_view(slugs@)));
            },
            None => {
                assert(false);
            },
        }
        i += 1;
    }
    out
}

/// Every tabbed directory has an index file.
proof fn lemma_tabbed_dir_has_index(files: Seq<SourceFileV>, i: int)
    requires
        0 <= i < tabbed_dirs_spec(files).len(),
    ensures
        bundle_index_spec(files, tabbed_dirs_spec(files)[i]) matches Some(f) && is_tab_index_spec(f),
    decreases files.len(),
{
    let ds = tabbed_dirs_spec(files.drop_last());
    let f = files.last();
    if i < ds.len() {
        lemma_tabbed_dir_has_index(files.drop_last(), i);
    } else {
        assert(tabbed_dirs_spec(files)[i] == f.components.drop_last());
    }
    lemma_bundle_index_is_index(files, tabbed_dirs_spec(files)[i]);
}

proof fn lemma_bundle_index_is_index(files: Seq<SourceFileV>, dir: Seq<Seq<char>>)
    ensures
        bundle_index_spec(files, dir) matches Some(f) ==> is_tab_index_spec(f),
    decreases files.len(),
{
    if files.len() > 0 {
        lemma_bundle_index_is_index(files.drop_last(), dir);
    }
}

// ---------------------------------------------------------------------------
// Ordering by date
// ---------------------------------------------------------------------------

/// Whether `a` comes before `b` in the order of `String`: lexicographic by
/// character (UTF-8 byte order is code point order).
pub open spec fn chars_lt(a: Seq<char>, b: Seq<char>) -> bool
    decreases a.len(),
{
    if a.len() == 0 {
        b.len() > 0
    } else if b.len() == 0 {
        false
    } else if a[0] != b[0] {
        a[0] < b[0]
    } else {
        chars_lt(a.drop_first(), b.drop_first())
    }
}

/// Whether `a < b` as strings (see `chars_lt`).
pub fn str_less(a: &str, b: &str) -> (r: bool)
    ensures
        r == chars_lt(a@, b@),
{
    let x = str_chars(a);
    let y = str_chars(b);
    let mut i: usize = 0;
    assert(x@.skip(0) =~= x@);
    assert(y@.skip(0) =~= y@);
    while i < x.len() && i < y.len()
        invariant
            i <= x.len(),
            i <= y.len(),
            chars_lt(x@, y@) == chars_lt(x@.skip(i as int), y@.skip(i as int)),
            x@ == a@,
            y@ == b@,
        decreases x.len() - i,
    {
        if x[i] != y[i] {
            return x[i] < y[i];
        }
        assert(x@.skip(i as int).drop_first() =~= x@.skip(i + 1));
        assert(y@.skip(i as int).drop_first() =~= y@.skip(i + 1));
        i += 1;
    }
    i < y.len()
}

/// The position where a page dated `d` goes in a list ordered newest first,
/// after every page that is not older: the first position from `i` whose
/// page is older than `d`, or the end.
pub open spec fn insert_pos_from(sorted: Seq<PageV>, d: Seq<char>, i: int) -> int
    decreases sorted.len() - i,
{
    if i < 0 || i >= sorted.len() {
        sorted.len() as int
    } else if chars_lt(sorted[i].date, d) {
        i
    } else {
        insert_pos_from(sorted, d, i + 1)
    }
}

/// The pages ordered by date, newest first; pages with the same date keep
/// their order (a stable sort, as `sort_by` is).
pub open spec fn sort_by_date_spec(ps: Seq<PageV>) -> Seq<PageV>
    decreases ps.len(),
{
    if ps.len() == 0 {
        Seq::empty()
    } else {
        let s = sort_by_date_spec(ps.drop_last());
        s.insert(insert_pos_from(s, ps.last().date, 0), ps.last())
    }
}

proof fn lemma_insert_pos_bounds(sorted: Seq<PageV>, d: Seq<char>, i: int)
    requires
        0 <= i <= sorted.len(),
    ensures
        i <= insert_pos_from(sorted, d, i) <= sorted.len(),
        forall|j: int| i <= j < insert_pos_from(sorted, d, i) ==> !chars_lt(#[trigger] sorted[j].date, d),
        insert_pos_from(sorted, d, i) < sorted.len() ==> chars_lt(sorted[insert_pos_from(sorted, d, i)].date, d),
    decreases sorted.len() - i,
{
    if i < sorted.len() && !chars_lt(sorted[i].date, d) {
        lemma_insert_pos_bounds(sorted, d, i + 1);
    }
}

/// Orders pages by date, newest first, keeping the order of pages with the
/// same date (see `sort_by_date_spec`).
pub fn sort_by_date(pages: Vec<Page>) -> (r: Vec<Page>)
    ensures
        pages_view(r@) == sort_by_date_spec(pages_view(pages@)),
{
    let ghost pv = pages_view(pages@);
    let mut out: Vec<Page> = Vec::new();
    let ghost mut i: int = 0;
    assert(pv.take(0) =~= Seq::<PageV>::empty());
    assert(pages_view(out@) =~= Seq::<PageV>::empty());
    for p in it: pages
        invariant
            pv == pages_view(it.seq()),
            i == it.index(),
            i <= pv.len(),
            pages_view(out@) == sort_by_date_spec(pv.take(i as int)),
    {
        assert(pv.take(i + 1).drop_last() =~= pv.take(i as int));
        assert(pv.take(i + 1).last() == p@);
        let ghost sv = pages_view(out@);
        proof {
            lemma_insert_pos_bounds(sv, p@.date, 0);
        }
        let mut k: usize = 0;
        while k < out.len() && !str_less(out[k].date.as_str(), p.date.as_str())
            invariant
                k <= out.len(),
                sv == pages_view(out@),
                insert_pos_from(sv, p@.date, 0) == insert_pos_from(sv, p@.date, k as int),
            decreases out.len() - k,
        {
            k += 1;
        }
        let ghost before = out@;
        out.insert(k, p);
        assert(pages_view(out@) =~= sv.insert(k as int, p@));
        proof {
            i = i + 1;
        }
    }
    assert(pv.take(i as int) =~= pv);
    out
}

/// `chars_lt` is a strict order.
pub proof fn lemma_chars_lt_asym(a: Seq<char>, b: Seq<char>)
    ensures
        chars_lt(a, b) ==> !chars_lt(b, a),
    decreases a.len(),
{
    if a.len() > 0 && b.len() > 0 && a[0] == b[0] {
        lemma_chars_lt_asym(a.drop_first(), b.drop_first());
    }
}

pub proof fn lemma_chars_lt_trans(a: Seq<char>, b: Seq<char>, c: Seq<char>)
    requires
        chars_lt(a, b),
        chars_lt(b, c),
    ensures
        chars_lt(a, c),
    decreases a.len(),
{
    if a.len() > 0 && b.len() > 0 && c.len() > 0 && a[0] == b[0] && b[0] == c[0] {
        lemma_chars_lt_trans(a.drop_first(), b.drop_first(), c.drop_first());
    }
}

pub proof fn lemma_chars_lt_total(a: Seq<char>, b: Seq<char>)
    ensures
        chars_lt(a, b) || chars_lt(b, a) || a == b,
    decreases a.len(),
{
    if a.len() > 0 && b.len() > 0 {
        if a[0] == b[0] {
            lemma_chars_lt_total(a.drop_first(), b.drop_first());
            if a.drop_first() == b.drop_first() {
                assert(a =~= seq![a[0]] + a.drop_first());
                assert(b =~= seq![b[0]] + b.drop_first());
            }
        }
    } else if a.len() == 0 && b.len() == 0 {
        assert(a =~= b);
    }
}

/// Whether pages are ordered newest first.
pub open spec fn newest_first(s: Seq<PageV>) -> bool {
    forall|i: int, j: int| 0 <= i < j < s.len() ==> !chars_lt(#[trigger] s[i].date, #[trigger] s[j].date)
}

/// Ordering by date gives the pages newest first.
pub proof fn lemma_sort_newest_first(ps: Seq<PageV>)
    ensures
        newest_first(sort_by_date_spec(ps)),
    decreases ps.len(),
{
    if ps.len() > 0 {
        let s = sort_by_date_spec(ps.drop_last());
        lemma_sort_newest_first(ps.drop_last());
        let x = ps.last();
        let d = x.date;
        lemma_insert_pos_bounds(s, d, 0);
        let k = insert_pos_from(s, d, 0);
        let r = s.insert(k, x);
        assert forall|i: int, j: int| 0 <= i < j < r.len() implies !chars_lt(
            #[trigger] r[i].date,
            #[trigger] r[j].date,
        ) by {
            if j < k {
                assert(r[i] == s[i] && r[j] == s[j]);
            } else if j == k {
                assert(r[i] == s[i] && r[j] == x);
            } else if i == k {
                // s[k] is older than the new page, and no older page than s[k] follows... s[j-1] is not newer than s[k]
                assert(r[j] == s[j - 1]);
                assert(chars_lt(s[k].date, d));
                if j - 1 > k {
                    assert(!chars_lt(s[k].date, s[j - 1].date));
                }
                lemma_chars_lt_total(s[j - 1].date, s[k].date);
                if chars_lt(s[j - 1].date, s[k].date) {
                    lemma_chars_lt_trans(s[j - 1].date, s[k].date, d);
                }
                lemma_chars_lt_asym(s[j - 1].date, d);
            } else if i < k {
                assert(r[i] == s[i] && r[j] == s[j - 1]);
            } else {
                assert(r[i] == s[i - 1] && r[j] == s[j - 1]);
            }
        }
    }
}

/// Ordering by date keeps exactly the pages it was given.
pub proof fn lemma_sort_permutes(ps: Seq<PageV>)
    ensures
        sort_by_date_spec(ps).to_multiset() == ps.to_multiset(),
    decreases ps.len(),
{
    if ps.len() > 0 {
        let s = sort_by_date_spec(ps.drop_last());
        lemma_sort_permutes(ps.drop_last());
        lemma_insert_pos_bounds(s, ps.last().date, 0);
        let k = insert_pos_from(s, ps.last().date, 0);
        vstd::seq_lib::to_multiset_insert(s, k, ps.last());
        vstd::seq_lib::to_multiset_build(ps.drop_last(), ps.last());
        assert(ps.drop_last().push(ps.last()) =~= ps);
        assert(sort_by_date_spec(ps) == s.insert(k, ps.last()));
        assert(s.insert(k, ps.last()).to_multiset() == s.to_multiset().insert(ps.last()));
        assert(ps.drop_last().push(ps.last()).to_multiset() == ps.drop_last().to_multiset().insert(ps.last()));
    } else {
        assert(ps =~= Seq::<PageV>::empty());
    }
}

// ---------------------------------------------------------------------------
// Rendering and loading
// ---------------------------------------------------------------------------

/// Whether two tabs agree in everything but their content.
pub open spec fn tab_same_but_content(a: TabV, b: TabV) -> bool {
    a.name == b.name && a.slug == b.slug && a.meta == b.meta
}

/// Whether two pages agree in everything but their content and that of
/// their tabs.
pub open spec fn same_but_content(a: PageV, b: PageV) -> bool {
    &&& a.title == b.title
    &&& a.date == b.date
    &&& a.description == b.description
    &&& a.template == b.template
    &&& a.url == b.url
    &&& a.section == b.section
    &&& a.slug == b.slug
    &&& a.meta == b.meta
    &&& a.tabs.len() == b.tabs.len()
    &&& forall|i: int| 0 <= i < a.tabs.len() ==> tab_same_but_content(#[trigger] a.tabs[i], b.tabs[i])
}

/// Whether `a` is `b` with its markdown content rendered with the code
/// theme `theme` (see `render_markdown_spec`).
pub open spec fn tab_rendered(a: TabV, b: TabV, theme: Seq<char>) -> bool {
    tab_same_but_content(a, b) && a.content == render_markdown_spec(b.content, theme)
}

/// Whether `a` is `b` with its markdown content and that of its tabs
/// rendered with the code theme `theme`.
pub open spec fn page_rendered(a: PageV, b: PageV, theme: Seq<char>) -> bool {
    &&& same_but_content(a, b)
    &&& a.content == render_markdown_spec(b.content, theme)
    &&& forall|i: int| 0 <= i < a.tabs.len() ==> tab_rendered(#[trigger] a.tabs[i], b.tabs[i], theme)
}

fn render_tabs(h: &Highlighter, tabs: Vec<Tab>, theme: &str) -> (r: Vec<Tab>)
    ensures
        r.len() == tabs.len(),
        forall|i: int| 0 <= i < r.len() ==> tab_same_but_content(#[trigger] r@[i]@, tabs@[i]@),
        forall|i: int| 0 <= i < r.len() ==> tab_rendered(#[trigger] r@[i]@, tabs@[i]@, theme@),
{
    let ghost tv = tabs@;
    let mut out: Vec<Tab> = Vec::new();
    for t in it: tabs
        invariant
            it.seq() == tv,
            out.len() == it.index(),
            forall|i: int| 0 <= i < out.len() ==> tab_same_but_content(#[trigger] out@[i]@, tv[i]@),
            forall|i: int| 0 <= i < out.len() ==> tab_rendered(#[trigger] out@[i]@, tv[i]@, theme@),
    {
        let content = render_markdown_with(h, t.content.as_str(), theme);
        out.push(Tab { name: t.name, slug: t.slug, content, meta: t.meta });
    }
    out
}

/// Renders the markdown content of each page and of its tabs to HTML
/// (see `render_markdown`), leaving everything else as it is.
pub(crate) fn render_contents(h: &Highlighter, pages: Vec<Page>, theme: &str) -> (r: Vec<Page>)
    ensures
        r.len() == pages.len(),
        forall|i: int| 0 <= i < r.len() ==> same_but_content(#[trigger] r@[i]@, pages@[i]@),
        forall|i: int| 0 <= i < r.len() ==> page_rendered(#[trigger] r@[i]@, pages@[i]@, theme@),
{
    let ghost pv = pages@;
    let mut out: Vec<Page> = Vec::new();
    for p in it: pages
        invariant
            it.seq() == pv,
            out.len() == it.index(),
            forall|i: int| 0 <= i < out.len() ==> same_but_content(#[trigger] out@[i]@, pv[i]@),
            forall|i: int| 0 <= i < out.len() ==> page_rendered(#[trigger] out@[i]@, pv[i]@, theme@),
    {
        let content = render_markdown_with(h, p.content.as_str(), theme);
        let tabs = render_tabs(h, p.tabs, theme);
        let q = Page {
            title: p.title,
            date: p.date,
            description: p.description,
            template: p.template,
            content,
            url: p.url,
            section: p.section,
            slug: p.slug,
            meta: p.meta,
            tabs,
        };
        assert(same_but_content(q@, p@));
        assert(page_rendered(q@, p@, theme@));
        out.push(q);
    }
    out
}

/// Loads the pages of the content directory: collects them (see
/// `collect_pages_spec`), orders them newest first (see
/// `sort_by_date_spec`) and renders their markdown, and that of their tabs,
/// with the code theme `code_theme` (see `render_markdown_spec`). The pages
/// come newest first and are the collected pages reordered. An error names
/// the first file that could not be read.
pub fn load_content(
    files: &Vec<SourceFile>,
    tabs: &Vec<TabSource>,
    root: &str,
    code_theme: &str,
    include_drafts: bool,
    default_template: &str,
) -> (r: Result<Vec<Page>, Vec<String>>)
    ensures
        match (r, collect_pages_spec(files_view(files@), tab_sources_view(tabs@), root@, include_drafts, default_template@)) {
            (Ok(ps), Ok(qs)) => {
                let sorted = sort_by_date_spec(qs);
                &&& ps.len() == sorted.len()
                &&& forall|i: int| 0 <= i < ps.len() ==> same_but_content(#[trigger] ps@[i]@, sorted[i])
                &&& forall|i: int| 0 <= i < ps.len() ==> page_rendered(#[trigger] ps@[i]@, sorted[i], code_theme@)
                &&& newest_first(pages_view(ps@))
                &&& sorted.to_multiset() == qs.to_multiset()
            },
            (Err(e), Err(d)) => strings_view(e@) == d,
            _ => false,
        },
{
    match collect_pages(files, tabs, root, include_drafts, default_template) {
        Err(e) => Err(e),
        Ok(pages) => {
            let sorted = sort_by_date(pages);
            let h = Highlighter::load_defaults();
            let rendered = render_contents(&h, sorted, code_theme);
            let ghost qs = pages_view(pages@);
            let ghost srt = sort_by_date_spec(qs);
            assert forall|i: int| 0 <= i < rendered.len() implies same_but_content(
                #[trigger] rendered@[i]@,
                srt[i],
            ) && page_rendered(rendered@[i]@, srt[i], code_theme@) by {
                assert(pages_view(sorted@)[i] == sorted@[i]@);
            }
            proof {
                lemma_sort_newest_first(qs);
                lemma_sort_permutes(qs);
                let rv = pages_view(rendered@);
                assert forall|i: int, j: int| 0 <= i < j < rv.len() implies !chars_lt(
                    #[trigger] rv[i].date,
                    #[trigger] rv[j].date,
                ) by {
                    assert(same_but_content(rendered@[i]@, srt[i]));
                    assert(same_but_content(rendered@[j]@, srt[j]));
                    assert(!chars_lt(srt[i].date, srt[j].date));
                }
            }
            Ok(rendered)
        },
    }
}

// ---------------------------------------------------------------------------
// Laws of collecting
// ---------------------------------------------------------------------------

/// Every page of the list has metadata that keeps it in the site.
pub open spec fn all_kept(ps: Seq<PageV>, include_drafts: bool) -> bool {
    forall|i: int| 0 <= i < ps.len() ==> !skipped_spec(#[trigger] ps[i].meta, include_drafts)
}

proof fn lemma_files_kept(
    files: Seq<SourceFileV>,
    tabbed: Seq<Seq<Seq<char>>>,
    include_drafts: bool,
    default_template: Seq<char>,
)
    ensures
        collect_files_spec(files, tabbed, include_drafts, default_template) matches Ok(ps) ==> all_kept(
            ps,
            include_drafts,
        ),
    decreases files.len(),
{
    if files.len() > 0 {
        lemma_files_kept(files.drop_last(), tabbed, include_drafts, default_template);
    }
}

proof fn lemma_bundles_kept(
    dirs: Seq<Seq<Seq<char>>>,
    files: Seq<SourceFileV>,
    tabs: Seq<TabSourceV>,
    root: Seq<char>,
    include_drafts: bool,
    default_template: Seq<char>,
    acc: Seq<PageV>,
)
    requires
        all_kept(acc, include_drafts),
    ensures
        collect_bundles_spec(dirs, files, tabs, root, include_drafts, default_template, acc) matches Ok(ps)
            ==> all_kept(ps, include_drafts),
    decreases dirs.len(),
{
    if dirs.len() > 0 {
        lemma_bundles_kept(dirs.drop_last(), files, tabs, root, include_drafts, default_template, acc);
    }
}

/// Every collected page has frontmatter metadata (not `null`), and unless
/// drafts are included, no collected page is marked `"draft": true`.
pub proof fn lemma_collected_pages_are_published(
    files: Seq<SourceFileV>,
    tabs: Seq<TabSourceV>,
    root: Seq<char>,
    include_drafts: bool,
    default_template: Seq<char>,
)
    ensures
        collect_pages_spec(files, tabs, root, include_drafts, default_template) matches Ok(ps) ==> forall|i: int|
            0 <= i < ps.len() ==> {
                &&& !((#[trigger] ps[i]).meta is Null)
                &&& !include_drafts ==> !bool_field_spec(ps[i].meta, "draft"@)
            },
{
    let tabbed = tabbed_dirs_spec(files);
    lemma_files_kept(files, tabbed, include_drafts, default_template);
    if let Ok(ps) = collect_files_spec(files, tabbed, include_drafts, default_template) {
        lemma_bundles_kept(tabbed, files, tabs, root, include_drafts, default_template, ps);
    }
}

/// The pages made of plain markdown files (not tabbed pages) have no tabs.
pub proof fn lemma_file_pages_have_no_tabs(
    files: Seq<SourceFileV>,
    tabbed: Seq<Seq<Seq<char>>>,
    include_drafts: bool,
    default_template: Seq<char>,
)
    ensures
        collect_files_spec(files, tabbed, include_drafts, default_template) matches Ok(ps) ==> forall|i: int|
            0 <= i < ps.len() ==> (#[trigger] ps[i]).tabs.len() == 0,
    decreases files.len(),
{
    if files.len() > 0 {
        lemma_file_pages_have_no_tabs(files.drop_last(), tabbed, include_drafts, default_template);
    }
}

/// The page a step adds, if any.
pub open spec fn added(st: StepV) -> Option<PageV> {
    match st {
        StepV::Add(p) => Some(p),
        _ => None,
    }
}

/// The page a markdown file outside the tabbed directories becomes, if any.
pub open spec fn regular_page_of(
    tabbed: Seq<Seq<Seq<char>>>,
    include_drafts: bool,
    default_template: Seq<char>,
) -> spec_fn(SourceFileV) -> Option<PageV> {
    |f: SourceFileV| added(regular_step_spec(f, tabbed, include_drafts, default_template))
}

/// The page a tabbed directory becomes, if any.
pub open spec fn bundle_page_of(
    files: Seq<SourceFileV>,
    tabs: Seq<TabSourceV>,
    root: Seq<char>,
    include_drafts: bool,
    default_template: Seq<char>,
) -> spec_fn(Seq<Seq<char>>) -> Option<PageV> {
    |d: Seq<Seq<char>>| added(bundle_step_spec(d, files, tabs, root, include_drafts, default_template))
}

proof fn lemma_files_exactly(
    files: Seq<SourceFileV>,
    tabbed: Seq<Seq<Seq<char>>>,
    include_drafts: bool,
    default_template: Seq<char>,
)
    ensures
        (collect_files_spec(files, tabbed, include_drafts, default_template) is Ok) <==> forall|i: int|
            0 <= i < files.len() ==> !(regular_step_spec(#[trigger] files[i], tabbed, include_drafts, default_template) is Fail),
        collect_files_spec(files, tabbed, include_drafts, default_template) matches Ok(ps) ==> ps
            == files.filter_map(regular_page_of(tabbed, include_drafts, default_template)),
    decreases files.len(),
{
    if files.len() > 0 {
        let d = files.drop_last();
        lemma_files_exactly(d, tabbed, include_drafts, default_template);
        let f = files.last();
        assert(files.filter_map(regular_page_of(tabbed, include_drafts, default_template)) == (match regular_page_of(
            tabbed,
            include_drafts,
            default_template,
        )(f) {
            Some(p) => d.filter_map(regular_page_of(tabbed, include_drafts, default_template)) + seq![p],
            None => d.filter_map(regular_page_of(tabbed, include_drafts, default_template)),
        }));
        assert forall|i: int| 0 <= i < d.len() implies #[trigger] d[i] == files[i] by {}
        if regular_step_spec(f, tabbed, include_drafts, default_template) is Fail {
            assert(files[files.len() - 1] == f);
        }
        if !(regular_step_spec(f, tabbed, include_drafts, default_template) is Fail) && (forall|i: int|
            0 <= i < d.len() ==> !(regular_step_spec(#[trigger] d[i], tabbed, include_drafts, default_template) is Fail)) {
            assert forall|i: int| 0 <= i < files.len() implies !(regular_step_spec(
                #[trigger] files[i],
                tabbed,
                include_drafts,
                default_template,
            ) is Fail) by {
                if i < d.len() {
                    assert(d[i] == files[i]);
                }
            }
        }
        if forall|i: int|
            0 <= i < files.len() ==> !(regular_step_spec(#[trigger] files[i], tabbed, include_drafts, default_template) is Fail) {
            assert forall|i: int| 0 <= i < d.len() implies !(regular_step_spec(
                #[trigger] d[i],
                tabbed,
                include_drafts,
                default_template,
            ) is Fail) by {
                assert(d[i] == files[i]);
            }
        }
        if let StepV::Add(p) = regular_step_spec(f, tabbed, include_drafts, default_template) {
            if let Ok(ps) = collect_files_spec(d, tabbed, include_drafts, default_template) {
                assert(ps.push(p) =~= ps + seq![p]);
            }
        }
    }
}

proof fn lemma_bundles_exactly(
    dirs: Seq<Seq<Seq<char>>>,
    files: Seq<SourceFileV>,
    tabs: Seq<TabSourceV>,
    root: Seq<char>,
    include_drafts: bool,
    default_template: Seq<char>,
    acc: Seq<PageV>,
)
    ensures
        (collect_bundles_spec(dirs, files, tabs, root, include_drafts, default_template, acc) is Ok) <==> forall|i: int|
            0 <= i < dirs.len() ==> !(bundle_step_spec(#[trigger] dirs[i], files, tabs, root, include_drafts, default_template) is Fail),
        collect_bundles_spec(dirs, files, tabs, root, include_drafts, default_template, acc) matches Ok(ps) ==> ps
            == acc + dirs.filter_map(bundle_page_of(files, tabs, root, include_drafts, default_template)),
    decreases dirs.len(),
{
    let g = bundle_page_of(files, tabs, root, include_drafts, default_template);
    if dirs.len() > 0 {
        let d0 = dirs.drop_last();
        lemma_bundles_exactly(d0, files, tabs, root, include_drafts, default_template, acc);
        let d = dirs.last();
        assert(dirs.filter_map(g) == (match g(d) {
            Some(p) => d0.filter_map(g) + seq![p],
            None => d0.filter_map(g),
        }));
        assert forall|i: int| 0 <= i < d0.len() implies #[trigger] d0[i] == dirs[i] by {}
        if bundle_step_spec(d, files, tabs, root, include_drafts, default_template) is Fail {
            assert(dirs[dirs.len() - 1] == d);
        }
        if !(bundle_step_spec(d, files, tabs, root, include_drafts, default_template) is Fail) && (forall|i: int|
            0 <= i < d0.len() ==> !(bundle_step_spec(#[trigger] d0[i], files, tabs, root, include_drafts, default_template) is Fail)) {
            assert forall|i: int| 0 <= i < dirs.len() implies !(bundle_step_spec(
                #[trigger] dirs[i],
                files,
                tabs,
                root,
                include_drafts,
                default_template,
            ) is Fail) by {
                if i < d0.len() {
                    assert(d0[i] == dirs[i]);
                }
            }
        }
        if forall|i: int|
            0 <= i < dirs.len() ==> !(bundle_step_spec(#[trigger] dirs[i], files, tabs, root, include_drafts, default_template) is Fail) {
            assert forall|i: int| 0 <= i < d0.len() implies !(bundle_step_spec(
                #[trigger] d0[i],
                files,
                tabs,
                root,
                include_drafts,
                default_template,
            ) is Fail) by {
                assert(d0[i] == dirs[i]);
            }
        }
        if let StepV::Add(p) = bundle_step_spec(d, files, tabs, root, include_drafts, default_template) {
            if let Ok(ps) = collect_bundles_spec(d0, files, tabs, root, include_drafts, default_template, acc) {
                assert(ps.push(p) =~= acc + (d0.filter_map(g) + seq![p]));
            }
        }
    } else {
        assert(dirs.filter_map(g) =~= Seq::<PageV>::empty());
        assert(acc + Seq::<PageV>::empty() =~= acc);
    }
}

/// Which files become pages: collecting succeeds exactly when no markdown
/// file (outside the tabbed directories) and no tabbed page fails to be read,
/// and then the pages are exactly one per markdown file that becomes a page
/// (see `regular_step_spec`: outside the tabbed directories, with metadata
/// that keeps it), in the order of the files, followed by one per tabbed
/// directory that becomes a page (see `bundle_step_spec`), in order.
pub proof fn lemma_collected_pages_exactly(
    files: Seq<SourceFileV>,
    tabs: Seq<TabSourceV>,
    root: Seq<char>,
    include_drafts: bool,
    default_template: Seq<char>,
)
    ensures
        ({
            let tabbed = tabbed_dirs_spec(files);
            &&& (collect_pages_spec(files, tabs, root, include_drafts, default_template) is Ok) <==> ((forall|i: int|
                0 <= i < files.len() ==> !(regular_step_spec(#[trigger] files[i], tabbed, include_drafts, default_template) is Fail))
                && (forall|j: int|
                0 <= j < tabbed.len() ==> !(bundle_step_spec(#[trigger] tabbed[j], files, tabs, root, include_drafts, default_template) is Fail)))
            &&& collect_pages_spec(files, tabs, root, include_drafts, default_template) matches Ok(ps) ==> ps
                == files.filter_map(regular_page_of(tabbed, include_drafts, default_template))
                + tabbed.filter_map(bundle_page_of(files, tabs, root, include_drafts, default_template))
        }),
{
    let tabbed = tabbed_dirs_spec(files);
    lemma_files_exactly(files, tabbed, include_drafts, default_template);
    match collect_files_spec(files, tabbed, include_drafts, default_template) {
        Ok(ps) => {
            lemma_bundles_exactly(tabbed, files, tabs, root, include_drafts, default_template, ps);
        },
        Err(_) => {
            lemma_bundles_exactly(tabbed, files, tabs, root, include_drafts, default_template, Seq::empty());
        },
    }
}

/// The tab a tab name becomes, if its file was read.
pub open spec fn read_tab_of(dir: Seq<Seq<char>>, tabs: Seq<TabSourceV>) -> spec_fn(Seq<char>) -> Option<TabV> {
    |slug: Seq<char>|
        match tab_lookup_spec(tabs, dir, slug) {
            TabFileV::Read(text, fm) => {
                let (meta, body) = parse_frontmatter_spec(text, fm);
                Some(TabV { name: tab_name_spec(meta, slug), slug, content: body, meta })
            },
            _ => None,
        }
}

/// The makeup of a tabbed page's tabs: reading them succeeds exactly when no
/// listed tab file is unreadable, and then there is one tab per listed name
/// whose file exists, in the listed order, named after its title (or its
/// title-cased slug), with its body as content; missing files are skipped.
pub proof fn lemma_tabs_exactly(dir: Seq<Seq<char>>, slugs: Seq<Seq<char>>, tabs: Seq<TabSourceV>)
    ensures
        (tabs_spec(dir, slugs, tabs) is Ok) <==> forall|i: int|
            0 <= i < slugs.len() ==> !(tab_lookup_spec(tabs, dir, #[trigger] slugs[i]) is Unreadable),
        tabs_spec(dir, slugs, tabs) matches Ok(ts) ==> ts == slugs.filter_map(read_tab_of(dir, tabs)),
    decreases slugs.len(),
{
    let g = read_tab_of(dir, tabs);
    if slugs.len() > 0 {
        let s0 = slugs.drop_last();
        lemma_tabs_exactly(dir, s0, tabs);
        let slug = slugs.last();
        assert(slugs.filter_map(g) == (match g(slug) {
            Some(t) => s0.filter_map(g) + seq![t],
            None => s0.filter_map(g),
        }));
        assert forall|i: int| 0 <= i < s0.len() implies #[trigger] s0[i] == slugs[i] by {}
        if tab_lookup_spec(tabs, dir, slug) is Unreadable {
            assert(slugs[slugs.len() - 1] == slug);
        }
        if !(tab_lookup_spec(tabs, dir, slug) is Unreadable) && (forall|i: int|
            0 <= i < s0.len() ==> !(tab_lookup_spec(tabs, dir, #[trigger] s0[i]) is Unreadable)) {
            assert forall|i: int| 0 <= i < slugs.len() implies !(tab_lookup_spec(
                tabs,
                dir,
                #[trigger] slugs[i],
            ) is Unreadable) by {
                if i < s0.len() {
                    assert(s0[i] == slugs[i]);
                }
            }
        }
        if forall|i: int| 0 <= i < slugs.len() ==> !(tab_lookup_spec(tabs, dir, #[trigger] slugs[i]) is Unreadable) {
            assert forall|i: int| 0 <= i < s0.len() implies !(tab_lookup_spec(
                tabs,
                dir,
                #[trigger] s0[i],
            ) is Unreadable) by {
                assert(s0[i] == slugs[i]);
            }
        }
        if let TabFileV::Read(text, fm) = tab_lookup_spec(tabs, dir, slug) {
            if let Ok(ts) = tabs_spec(dir, s0, tabs) {
                let (meta, body) = parse_frontmatter_spec(text, fm);
                let t = TabV { name: tab_name_spec(meta, slug), slug, content: body, meta };
                assert(ts.push(t) =~= ts + seq![t]);
            }
        }
    } else {
        assert(slugs.filter_map(g) =~= Seq::<TabV>::empty());
    }
}

// ---------------------------------------------------------------------------
// Copies
// ---------------------------------------------------------------------------

/// A copy of a tab.
pub fn copy_tab(t: &Tab) -> (r: Tab)
    ensures
        r@ == t@,
{
    Tab { name: t.name.clone(), slug: t.slug.clone(), content: t.content.clone(), meta: copy_json(&t.meta) }
}

/// A copy of a page.
pub fn copy_page(p: &Page) -> (r: Page)
    ensures
        r@ == p@,
{
    let mut tabs: Vec<Tab> = Vec::new();
    let mut i: usize = 0;
    while i < p.tabs.len()
        invariant
            i <= p.tabs.len(),
            tabs_view(tabs@) == tabs_view(p.tabs@).take(i as int),
        decreases p.tabs.len() - i,
    {
        let ghost before = tabs@;
        let t = copy_tab(&p.tabs[i]);
        tabs.push(t);
        assert(tabs_view(tabs@) =~= tabs_view(before).push(t@));
        i += 1;
        assert(tabs_view(tabs@) =~= tabs_view(p.tabs@).take(i as int));
    }
    assert(tabs_view(p.tabs@).take(p.tabs.len() as int) =~= tabs_view(p.tabs@));
    let section = match &p.section {
        Some(s) => Some(s.clone()),
        None => None,
    };
    Page {
        title: p.title.clone(),
        date: p.date.clone(),
        description: p.description.clone(),
        template: p.template.clone(),
        content: p.content.clone(),
        url: p.url.clone(),
        section,
        slug: p.slug.clone(),
        meta: copy_json(&p.meta),
        tabs,
    }
}

} // verus!
