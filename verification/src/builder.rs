//! Building the site: what gets rendered where, with which context, and what
//! goes into the search index.
use vstd::prelude::*;
use vstd::string::StringExecFns;
use crate::config::SiteConfig;
use crate::content::{copy_page, opt_view, pages_view, tabs_view, Page, PageV, Tab, TabV};
use crate::json::{copy_json, deep_merge, merge_spec, Json, JsonV};
use crate::text::{section_display_name, strip_html, strip_html_spec};

verus! {

// ---------------------------------------------------------------------------
// Build year
// ---------------------------------------------------------------------------

/// The whole seconds elapsed since the Unix epoch by the system clock
/// (`UNIX_EPOCH.elapsed()`); 0 for a clock set before the epoch. Nothing is
/// stated of the value: it is the time.
#[verifier::external_body]
fn unix_seconds_now() -> (r: u64) {
    std::time::UNIX_EPOCH.elapsed().map(|d| d.as_secs()).unwrap_or(0)
}

/// Whether `y` is a leap year of the Gregorian calendar.
pub open spec fn is_leap_year(y: int) -> bool {
    (y % 4 == 0 && y % 100 != 0) || y % 400 == 0
}

/// The number of days of the year `y`.
pub open spec fn year_days(y: int) -> int {
    if is_leap_year(y) {
        366
    } else {
        365
    }
}

/// The year in which the day `d` (counted from 0) falls, counting days from
/// the first of January of the year `y`.
pub open spec fn year_of_day(y: int, d: nat) -> int
    decreases d,
{
    if d < year_days(y) {
        y
    } else {
        year_of_day(y + 1, (d - year_days(y)) as nat)
    }
}

/// The UTC calendar year in which the instant `secs` seconds after the Unix
/// epoch (1970-01-01T00:00:00Z) falls.
pub open spec fn year_from_unix_seconds_spec(secs: u64) -> int {
    year_of_day(1970, (secs / 86400) as nat)
}

/// The number of days of the year `y` (see `year_days`).
fn year_length(y: u64) -> (r: u64)
    ensures
        r == year_days(y as int),
{
    if (y % 4 == 0 && y % 100 != 0) || y % 400 == 0 {
        366
    } else {
        365
    }
}

proof fn lemma_year_of_day_at_least(y: int, d: nat)
    ensures
        year_of_day(y, d) >= y,
    decreases d,
{
    if d >= year_days(y) {
        lemma_year_of_day_at_least(y + 1, (d - year_days(y)) as nat);
    }
}

/// The UTC calendar year of a Unix time (see `year_from_unix_seconds_spec`).
pub fn year_from_unix_seconds(secs: u64) -> (r: u64)
    ensures
        r == year_from_unix_seconds_spec(secs),
        r >= 1970,
{
    let days0: u64 = secs / 86400;
    let mut y: u64 = 1970;
    let mut d: u64 = days0;
    while d >= year_length(y)
        invariant
            1970 <= y,
            y + d <= 1970 + days0,
            days0 == secs / 86400,
            year_of_day(y as int, d as nat) == year_of_day(1970, days0 as nat),
        decreases d,
    {
        let len: u64 = year_length(y);
        d = d - len;
        y = y + 1;
    }
    assert(d < year_days(y as int));
    proof {
        lemma_year_of_day_at_least(1970, days0 as nat);
    }
    y
}

/// The current year (UTC), for copyright notices.
pub fn current_year() -> (r: u64)
    ensures
        r >= 1970,
{
    year_from_unix_seconds(unix_seconds_now())
}

// ---------------------------------------------------------------------------
// Paths
// ---------------------------------------------------------------------------

/// `base` joined with `rel` as `Path::join` does on Unix: an absolute `rel`
/// replaces `base`; otherwise a `/` goes between them unless `base` is empty
/// or already ends in one.
pub open spec fn join_path_spec(base: Seq<char>, rel: Seq<char>) -> Seq<char> {
    if rel.len() > 0 && rel[0] == '/' {
        rel
    } else if base.len() == 0 || base.last() == '/' {
        base + rel
    } else {
        base + "/"@ + rel
    }
}

/// Joins two paths (see `join_path_spec`).
pub fn join_path(base: &str, rel: &str) -> (r: String)
    ensures
        r@ == join_path_spec(base@, rel@),
{
    let b = crate::text::str_chars(base);
    let rv = crate::text::str_chars(rel);
    if rv.len() > 0 && rv[0] == '/' {
        return String::from_str(rel);
    }
    let mut out = String::from_str(base);
    if b.len() > 0 && b[b.len() - 1] != '/' {
        out.append("/");
    }
    out.append(rel);
    out
}

/// The directories whose files are copied into the output directory, in
/// order: the theme's `static` directory, then the site's static directory
/// (files of the second overwrite those of the first). Each is copied only
/// where it exists.
pub fn copy_static_assets(base_dir: &str, config: &SiteConfig) -> (r: Vec<String>)
    ensures
        r.len() == 2,
        r@[0]@ == join_path_spec(join_path_spec(base_dir@, config.theme_dir@), "static"@),
        r@[1]@ == join_path_spec(base_dir@, config.static_dir@),
{
    let theme = join_path(base_dir, config.theme_dir.as_str());
    let theme_static = join_path(theme.as_str(), "static");
    let site_static = join_path(base_dir, config.static_dir.as_str());
    let mut out: Vec<String> = Vec::new();
    out.push(theme_static);
    out.push(site_static);
    out
}

/// The pattern of the theme's templates: every `.html` file below
/// `<base>/<theme_dir>/templates`.
pub fn template_glob(base_dir: &str, theme_dir: &str) -> (r: String)
    ensures
        r@ == base_dir@ + "/"@ + theme_dir@ + "/templates/**/*.html"@,
{
    let mut out = String::from_str(base_dir);
    out.append("/");
    out.append(theme_dir);
    out.append("/templates/**/*.html");
    out
}

/// The directory below the output directory where a page with URL `url`
/// goes: the URL without its leading and trailing slashes
/// (`str::trim_matches('/')`).
pub open spec fn trim_slashes_spec(s: Seq<char>) -> Seq<char>
    decreases s.len(),
{
    if s.len() > 0 && s[0] == '/' {
        trim_slashes_spec(s.drop_first())
    } else if s.len() > 0 && s.last() == '/' {
        trim_slashes_spec(s.drop_last())
    } else {
        s
    }
}

/// The output directory of a page's URL (see `trim_slashes_spec`).
pub fn page_output_dir(url: &str) -> (r: String)
    ensures
        r@ == trim_slashes_spec(url@),
{
    let v = crate::text::str_chars(url);
    let mut start: usize = 0;
    let mut end: usize = v.len();
    assert(v@.subrange(0, v.len() as int) =~= v@);
    while start < end && v[start] == '/'
        invariant
            start <= end <= v.len(),
            trim_slashes_spec(v@) == trim_slashes_spec(v@.subrange(start as int, end as int)),
        decreases end - start,
    {
        assert(v@.subrange(start as int, end as int).drop_first() =~= v@.subrange(start + 1, end as int));
        start += 1;
    }
    while end > start && v[end - 1] == '/'
        invariant
            start <= end <= v.len(),
            start < end ==> v@[start as int] != '/',
            trim_slashes_spec(v@) == trim_slashes_spec(v@.subrange(start as int, end as int)),
        decreases end,
    {
        assert(v@.subrange(start as int, end as int).drop_last() =~= v@.subrange(start as int, end - 1));
        end -= 1;
    }
    let mut out = String::new();
    let mut i = start;
    while i < end
        invariant
            start <= i <= end,
            end <= v.len(),
            out@ == v@.subrange(start as int, i as int),
        decreases end - i,
    {
        out.push(v[i]);
        i += 1;
        assert(out@ =~= v@.subrange(start as int, i as int));
    }
    out
}

/// The navigation entry marked active for a page of `section`: `/section/`.
pub fn active_nav(section: &str) -> (r: String)
    ensures
        r@ == "/"@ + section@ + "/"@,
{
    let mut out = String::from_str("/");
    out.append(section);
    out.append("/");
    out
}

// ---------------------------------------------------------------------------
// Contexts
// ---------------------------------------------------------------------------

/// The entries of the placeholder page given to templates of pages that
/// have no content of their own.
pub open spec fn empty_page_entries(title: Seq<char>) -> Seq<(Seq<char>, JsonV)> {
    seq![
        ("title"@, JsonV::Str(title)),
        ("description"@, JsonV::Str(Seq::empty())),
        ("url"@, JsonV::Str(Seq::empty())),
        ("date"@, JsonV::Str(Seq::empty())),
        ("content"@, JsonV::Str(Seq::empty())),
        ("meta"@, JsonV::Object(Seq::empty())),
        ("tabs"@, JsonV::Array(Seq::empty())),
    ]
}

/// A placeholder page with the given title: empty description, URL, date and
/// content, empty metadata and no tabs.
pub fn empty_page_with_title(title: &str) -> (r: Json)
    ensures
        r@ == JsonV::Object(empty_page_entries(title@)),
{
    let mut es: Vec<(String, Json)> = Vec::new();
    es.push((String::from_str("title"), Json::Str(String::from_str(title))));
    es.push((String::from_str("description"), Json::Str(String::new())));
    es.push((String::from_str("url"), Json::Str(String::new())));
    es.push((String::from_str("date"), Json::Str(String::new())));
    es.push((String::from_str("content"), Json::Str(String::new())));
    let no_entries: Vec<(String, Json)> = Vec::new();
    es.push((String::from_str("meta"), Json::Object(no_entries)));
    let no_items: Vec<Json> = Vec::new();
    es.push((String::from_str("tabs"), Json::Array(no_items)));
    proof {
        crate::json::lemma_entries_view(es@);
        assert(crate::json::entries_view(es@) =~= empty_page_entries(title@));
    }
    Json::Object(es)
}

/// A placeholder page with an empty title.
pub fn empty_page() -> (r: Json)
    ensures
        r@ == JsonV::Object(empty_page_entries(Seq::empty())),
{
    proof {
        reveal_strlit("");
    }
    assert(""@ =~= Seq::<char>::empty());
    empty_page_with_title("")
}

/// The placeholder page of a section index: titled with the section's
/// display name.
pub fn section_page(name: &str) -> (r: Json)
    ensures
        r@ == JsonV::Object(
            empty_page_entries(
                crate::text::capitalize_words_spec(crate::text::replace_with_space(name@, false)),
            ),
        ),
{
    let title = section_display_name(name);
    empty_page_with_title(title.as_str())
}

/// The `site` context of every template: the theme's defaults (an empty
/// object where the theme has none) with the site's settings deep-merged
/// into them.
pub open spec fn template_context_spec(theme_defaults: Option<JsonV>, site: JsonV) -> JsonV {
    merge_spec(
        match theme_defaults {
            Some(v) => v,
            None => JsonV::Object(Seq::empty()),
        },
        site,
    )
}

/// The `site` context (see `template_context_spec`). `theme_defaults` is the
/// theme's `variables.json`, where it has one; `site` is `site.json`.
pub fn template_context(theme_defaults: Option<Json>, site: &Json) -> (r: Json)
    ensures
        r@ == template_context_spec(
            match theme_defaults {
                Some(v) => Some(v@),
                None => None,
            },
            site@,
        ),
{
    let mut context = match theme_defaults {
        Some(v) => v,
        None => {
            let no_entries: Vec<(String, Json)> = Vec::new();
            let c = Json::Object(no_entries);
            assert(c@ == JsonV::Object(Seq::empty())) by {
                assert(crate::json::entries_view(no_entries@) =~= Seq::<(Seq<char>, JsonV)>::empty());
            }
            c
        },
    };
    deep_merge(&mut context, site);
    context
}

// ---------------------------------------------------------------------------
// Sections
// ---------------------------------------------------------------------------

/// The pages of a section, in order.
#[derive(Debug)]
pub struct SectionPages {
    pub name: String,
    pub pages: Vec<Page>,
}

pub open spec fn section_view(g: SectionPages) -> (Seq<char>, Seq<PageV>) {
    (g.name@, pages_view(g.pages@))
}

pub open spec fn sections_view(gs: Seq<SectionPages>) -> Seq<(Seq<char>, Seq<PageV>)> {
    gs.map_values(|g: SectionPages| section_view(g))
}

/// The position of the first group named `name` at or after `i`, or -1.
pub open spec fn group_pos_from(gs: Seq<(Seq<char>, Seq<PageV>)>, name: Seq<char>, i: int) -> int
    decreases gs.len() - i,
{
    if i < 0 || i >= gs.len() {
        -1
    } else if gs[i].0 == name {
        i
    } else {
        group_pos_from(gs, name, i + 1)
    }
}

pub proof fn lemma_group_pos(gs: Seq<(Seq<char>, Seq<PageV>)>, name: Seq<char>, i: int)
    requires
        0 <= i,
    ensures
        group_pos_from(gs, name, i) == -1 || (i <= group_pos_from(gs, name, i) < gs.len()
            && gs[group_pos_from(gs, name, i)].0 == name),
        group_pos_from(gs, name, i) == -1 ==> forall|j: int| i <= j < gs.len() ==> #[trigger] gs[j].0 != name,
    decreases gs.len() - i,
{
    if i < gs.len() && gs[i].0 != name {
        lemma_group_pos(gs, name, i + 1);
    }
}

/// The pages grouped by section: one group per section, in the order the
/// sections first appear, each with the pages of that section in order.
/// Pages outside any section are in no group.
pub open spec fn section_map_spec(ps: Seq<PageV>) -> Seq<(Seq<char>, Seq<PageV>)>
    decreases ps.len(),
{
    if ps.len() == 0 {
        Seq::empty()
    } else {
        let gs = section_map_spec(ps.drop_last());
        let p = ps.last();
        match p.section {
            None => gs,
            Some(s) => {
                let k = group_pos_from(gs, s, 0);
                if k >= 0 {
                    gs.update(k, (s, gs[k].1.push(p)))
                } else {
                    gs.push((s, seq![p]))
                }
            },
        }
    }
}

fn find_group(gs: &Vec<SectionPages>, name: &String) -> (r: Option<usize>)
    ensures
        r matches Some(k) ==> group_pos_from(sections_view(gs@), name@, 0) == k as int && k < gs.len(),
        r is None ==> group_pos_from(sections_view(gs@), name@, 0) == -1,
{
    let ghost gv = sections_view(gs@);
    let mut i: usize = 0;
    while i < gs.len()
        invariant
            i <= gs.len(),
            gv == sections_view(gs@),
            group_pos_from(gv, name@, 0) == group_pos_from(gv, name@, i as int),
        decreases gs.len() - i,
    {
        assert(gv[i as int] == section_view(gs@[i as int]));
        if gs[i].name == *name {
            return Some(i);
        }
        i += 1;
    }
    None
}

/// Groups the pages by section (see `section_map_spec`).
pub fn build_section_map(pages: &Vec<Page>) -> (r: Vec<SectionPages>)
    ensures
        sections_view(r@) == section_map_spec(pages_view(pages@)),
{
    let ghost pv = pages_view(pages@);
    let mut gs: Vec<SectionPages> = Vec::new();
    let mut i: usize = 0;
    assert(pv.take(0) =~= Seq::<PageV>::empty());
    assert(sections_view(gs@) =~= Seq::<(Seq<char>, Seq<PageV>)>::empty());
    while i < pages.len()
        invariant
            i <= pages.len(),
            pv == pages_view(pages@),
            sections_view(gs@) == section_map_spec(pv.take(i as int)),
        decreases pages.len() - i,
    {
        assert(pv.take(i + 1).drop_last() =~= pv.take(i as int));
        assert(pv.take(i + 1).last() == pages@[i as int]@);
        let ghost before = sections_view(gs@);
        match &pages[i].section {
            None => {},
            Some(s) => {
                let p = copy_page(&pages[i]);
                match find_group(&gs, s) {
                    Some(k) => {
                        proof {
                            lemma_group_pos(before, s@, 0);
                        }
                        let ghost old_gs = gs@;
                        let ghost old_pages = pages_view(gs@[k as int].pages@);
                        let mut group = gs.remove(k);
                        group.pages.push(p);
                        gs.insert(k, group);
                        assert(gs@ =~= old_gs.update(k as int, gs@[k as int]));
                        assert(pages_view(gs@[k as int].pages@) =~= old_pages.push(p@));
                        assert(sections_view(gs@) =~= before.update(k as int, (s@, before[k as int].1.push(p@))));
                    },
                    None => {
                        let mut group_pages: Vec<Page> = Vec::new();
                        group_pages.push(p);
                        let g = SectionPages { name: s.clone(), pages: group_pages };
                        assert(pages_view(g.pages@) =~= seq![p@]);
                        gs.push(g);
                        assert(sections_view(gs@) =~= before.push((s@, seq![p@])));
                    },
                }
            },
        }
        i += 1;
    }
    assert(pv.take(pages.len() as int) =~= pv);
    gs
}

/// Whether a page belongs to the section `name`.
pub open spec fn in_section(name: Seq<char>) -> spec_fn(PageV) -> bool {
    |p: PageV| p.section == Some(name)
}

/// The names of the groups.
pub open spec fn group_names(gs: Seq<(Seq<char>, Seq<PageV>)>) -> Seq<Seq<char>> {
    gs.map_values(|g: (Seq<char>, Seq<PageV>)| g.0)
}

/// Every group is named after the section of one of the pages.
proof fn lemma_section_names_from_pages(ps: Seq<PageV>)
    ensures
        forall|k: int|
            0 <= k < section_map_spec(ps).len() ==> exists|i: int|
                0 <= i < ps.len() && (#[trigger] ps[i]).section == Some(
                    (#[trigger] section_map_spec(ps)[k]).0,
                ),
    decreases ps.len(),
{
    if ps.len() > 0 {
        let d = ps.drop_last();
        let gs = section_map_spec(d);
        lemma_section_names_from_pages(d);
        let r = section_map_spec(ps);
        let x = ps.last();
        assert forall|k: int| 0 <= k < r.len() implies exists|i: int|
            0 <= i < ps.len() && (#[trigger] ps[i]).section == Some((#[trigger] r[k]).0) by {
            match x.section {
                None => {
                    assert(r[k] == gs[k]);
                    let i = choose|i: int| 0 <= i < d.len() && (#[trigger] d[i]).section == Some(gs[k].0);
                    assert(ps[i] == d[i]);
                },
                Some(s) => {
                    let k0 = group_pos_from(gs, s, 0);
                    lemma_group_pos(gs, s, 0);
                    if k < gs.len() {
                        assert(r[k].0 == gs[k].0);
                        let i = choose|i: int| 0 <= i < d.len() && (#[trigger] d[i]).section == Some(gs[k].0);
                        assert(ps[i] == d[i]);
                    } else {
                        assert(r[k].0 == s);
                        assert(ps[ps.len() - 1] == x);
                    }
                },
            }
        }
    }
}

/// Grouping by section: no section has two groups, every group is the
/// section of some page, every page in a section has its section's group,
/// and each group holds exactly the pages of its section, in their order.
pub proof fn lemma_section_map(ps: Seq<PageV>)
    ensures
        group_names(section_map_spec(ps)).no_duplicates(),
        forall|k: int|
            0 <= k < section_map_spec(ps).len() ==> exists|i: int|
                0 <= i < ps.len() && (#[trigger] ps[i]).section == Some(
                    (#[trigger] section_map_spec(ps)[k]).0,
                ),
        forall|i: int|
            #![trigger ps[i]]
            0 <= i < ps.len() && ps[i].section is Some ==> group_pos_from(
                section_map_spec(ps),
                ps[i].section->0,
                0,
            ) >= 0,
        forall|k: int|
            0 <= k < section_map_spec(ps).len() ==> (#[trigger] section_map_spec(ps)[k]).1 == ps.filter(
                in_section(section_map_spec(ps)[k].0),
            ),
    decreases ps.len(),
{
    reveal(Seq::filter);
    lemma_section_names_from_pages(ps);
    if ps.len() > 0 {
        let d = ps.drop_last();
        let gs = section_map_spec(d);
        lemma_section_map(d);
        let x = ps.last();
        let r = section_map_spec(ps);
        match x.section {
            None => {
                assert forall|k: int| 0 <= k < r.len() implies (#[trigger] r[k]).1 == ps.filter(
                    in_section(r[k].0),
                ) by {
                    assert(!in_section(r[k].0)(x));
                    assert(r[k] == gs[k]);
                    assert(ps.filter(in_section(r[k].0)) == d.filter(in_section(r[k].0)));
                }
                assert forall|i: int| 0 <= i < ps.len() && (#[trigger] ps[i]).section is Some implies group_pos_from(
                    r,
                    ps[i].section->0,
                    0,
                ) >= 0 by {
                    assert(i < d.len());
                    assert(ps[i] == d[i]);
                }
            },
            Some(s) => {
                lemma_group_pos(gs, s, 0);
                let k0 = group_pos_from(gs, s, 0);
                if k0 >= 0 {
                    assert(group_names(r) =~= group_names(gs));
                    assert forall|k: int| 0 <= k < r.len() implies (#[trigger] r[k]).1 == ps.filter(
                        in_section(r[k].0),
                    ) by {
                        if k == k0 {
                            assert(in_section(s)(x));
                            assert(ps.filter(in_section(s)) == d.filter(in_section(s)).push(x));
                        } else {
                            assert(group_names(gs)[k] != group_names(gs)[k0]);
                            assert(!in_section(r[k].0)(x));
                            assert(r[k] == gs[k]);
                            assert(ps.filter(in_section(r[k].0)) == d.filter(in_section(r[k].0)));
                        }
                    }
                    assert forall|i: int| 0 <= i < ps.len() && (#[trigger] ps[i]).section is Some implies group_pos_from(
                        r,
                        ps[i].section->0,
                        0,
                    ) >= 0 by {
                        let n = ps[i].section->0;
                        if i < d.len() {
                            assert(ps[i] == d[i]);
                        }
                        lemma_group_pos(gs, n, 0);
                        lemma_group_pos(r, n, 0);
                        let j = group_pos_from(gs, n, 0);
                        if group_pos_from(r, n, 0) == -1 {
                            assert(r[j].0 == gs[j].0);
                        }
                    }
                } else {
                    assert(group_names(r) =~= group_names(gs).push(s));
                    assert forall|k: int| 0 <= k < r.len() implies (#[trigger] r[k]).1 == ps.filter(
                        in_section(r[k].0),
                    ) by {
                        if k < gs.len() {
                            assert(!in_section(r[k].0)(x));
                            assert(r[k] == gs[k]);
                            assert(ps.filter(in_section(r[k].0)) == d.filter(in_section(r[k].0)));
                        } else {
                            lemma_filter_none(d, s);
                            assert(in_section(s)(x));
                            assert(d.filter(in_section(s)) =~= Seq::<PageV>::empty());
                            assert(ps.filter(in_section(s)) == d.filter(in_section(s)).push(x));
                            assert(r[k] == (s, seq![x]));
                            assert(seq![x] =~= Seq::<PageV>::empty().push(x));
                        }
                    }
                    assert forall|i: int| 0 <= i < ps.len() && (#[trigger] ps[i]).section is Some implies group_pos_from(
                        r,
                        ps[i].section->0,
                        0,
                    ) >= 0 by {
                        let n = ps[i].section->0;
                        if i < d.len() {
                            assert(ps[i] == d[i]);
                        }
                        lemma_group_pos(gs, n, 0);
                        lemma_group_pos(r, n, 0);
                        if group_pos_from(r, n, 0) == -1 {
                            if n == s {
                                assert(r[gs.len() as int].0 == s);
                            } else {
                                let j = group_pos_from(gs, n, 0);
                                assert(r[j].0 == gs[j].0);
                            }
                        }
                    }
                }
            },
        }
    }
}

/// Without a group named `s`, no page is in section `s`.
proof fn lemma_filter_none(d: Seq<PageV>, s: Seq<char>)
    requires
        group_pos_from(section_map_spec(d), s, 0) == -1,
        forall|i: int|
            #![trigger d[i]]
            0 <= i < d.len() && d[i].section is Some ==> group_pos_from(
                section_map_spec(d),
                d[i].section->0,
                0,
            ) >= 0,
    ensures
        d.filter(in_section(s)).len() == 0,
{
    lemma_group_pos(section_map_spec(d), s, 0);
    assert forall|i: int| 0 <= i < d.len() implies !in_section(s)(#[trigger] d[i]) by {
        if d[i].section == Some(s) {
            assert(group_pos_from(section_map_spec(d), d[i].section->0, 0) >= 0);
        }
    }
    lemma_filter_empty(d, in_section(s));
}

proof fn lemma_filter_empty(d: Seq<PageV>, pred: spec_fn(PageV) -> bool)
    requires
        forall|i: int| 0 <= i < d.len() ==> !pred(#[trigger] d[i]),
    ensures
        d.filter(pred).len() == 0,
    decreases d.len(),
{
    reveal(Seq::filter);
    if d.len() > 0 {
        assert forall|i: int| 0 <= i < d.drop_last().len() implies !pred(#[trigger] d.drop_last()[i]) by {
            assert(d.drop_last()[i] == d[i]);
        }
        lemma_filter_empty(d.drop_last(), pred);
        assert(!pred(d[d.len() - 1]));
    }
}

/// Whether one of the pages is an `index` page.
pub open spec fn has_index_page(ps: Seq<PageV>) -> bool {
    exists|i: int| 0 <= i < ps.len() && (#[trigger] ps[i]).slug == "index"@
}

/// Whether a group lacks an `index` page (and so needs a generated index).
pub open spec fn lacks_index() -> spec_fn((Seq<char>, Seq<PageV>)) -> bool {
    |g: (Seq<char>, Seq<PageV>)| !has_index_page(g.1)
}

/// Whether `name` is the slug of a tabbed page outside any section.
pub open spec fn is_top_level_bundle(ps: Seq<PageV>, name: Seq<char>) -> bool {
    exists|i: int|
        0 <= i < ps.len() && (#[trigger] ps[i]).tabs.len() > 0 && ps[i].section is None && ps[i].slug
            == name
}

/// Whether the section `name` has a group with an `index` page.
pub open spec fn group_has_index(gs: Seq<(Seq<char>, Seq<PageV>)>, name: Seq<char>) -> bool {
    let k = group_pos_from(gs, name, 0);
    k >= 0 && has_index_page(gs[k].1)
}

/// Adds an empty section for each content subdirectory in `dirs` that is not
/// a tabbed page's directory, has no `index` page and is not there yet.
pub open spec fn extra_sections_spec(
    acc: Seq<(Seq<char>, Seq<PageV>)>,
    gs: Seq<(Seq<char>, Seq<PageV>)>,
    ps: Seq<PageV>,
    dirs: Seq<Seq<char>>,
) -> Seq<(Seq<char>, Seq<PageV>)>
    decreases dirs.len(),
{
    if dirs.len() == 0 {
        acc
    } else {
        let a = extra_sections_spec(acc, gs, ps, dirs.drop_last());
        let d = dirs.last();
        if is_top_level_bundle(ps, d) || group_has_index(gs, d) || group_pos_from(a, d, 0) >= 0 {
            a
        } else {
            a.push((d, Seq::empty()))
        }
    }
}

/// The section indexes to generate: every section without an `index` page
/// with its pages, then every subdirectory of the content directory that is
/// neither a section with an `index` page nor a top-level tabbed page and
/// has no pages, with none.
pub open spec fn sections_to_render_spec(
    gs: Seq<(Seq<char>, Seq<PageV>)>,
    ps: Seq<PageV>,
    dirs: Seq<Seq<char>>,
) -> Seq<(Seq<char>, Seq<PageV>)> {
    extra_sections_spec(gs.filter(lacks_index()), gs, ps, dirs)
}

/// What a section index page is rendered with.
pub struct SectionContext {
    pub site: Json,
    pub section_name: String,
    pub pages: Vec<Page>,
    pub page: Json,
    pub active_nav: String,
    pub build_year: u64,
}

/// The context of the index page of a section: the site context, the
/// section's name and pages (in order), a placeholder page titled with the
/// section's display name, the section's URL as the active navigation item,
/// and the build year.
pub fn section_context(site: &Json, group: &SectionPages, build_year: u64) -> (r: SectionContext)
    ensures
        r.site@ == site@,
        r.section_name@ == group.name@,
        pages_view(r.pages@) == pages_view(group.pages@),
        r.page@ == JsonV::Object(
            empty_page_entries(crate::text::capitalize_words_spec(crate::text::replace_with_space(group.name@, false))),
        ),
        r.active_nav@ == "/"@ + group.name@ + "/"@,
        r.build_year == build_year,
{
    let mut pages: Vec<Page> = Vec::new();
    let mut i: usize = 0;
    while i < group.pages.len()
        invariant
            i <= group.pages.len(),
            pages_view(pages@) == pages_view(group.pages@).take(i as int),
        decreases group.pages.len() - i,
    {
        let ghost before = pages@;
        let p = copy_page(&group.pages[i]);
        pages.push(p);
        assert(pages_view(pages@) =~= pages_view(before).push(p@));
        i += 1;
        assert(pages_view(pages@) =~= pages_view(group.pages@).take(i as int));
    }
    assert(pages_view(group.pages@).take(group.pages.len() as int) =~= pages_view(group.pages@));
    SectionContext {
        site: copy_json(site),
        section_name: group.name.clone(),
        pages,
        page: section_page(group.name.as_str()),
        active_nav: active_nav(group.name.as_str()),
        build_year,
    }
}

/// A section whose pages include an `index` page, at any position, gets
/// no generated index page: the `index` page is its index.
pub proof fn lemma_index_page_anywhere(ps: Seq<PageV>, dirs: Seq<Seq<char>>, i: int)
    requires
        0 <= i < ps.len(),
        ps[i].slug == "index"@,
        ps[i].section is Some,
    ensures
        !group_names(sections_to_render_spec(section_map_spec(ps), ps, dirs)).contains(ps[i].section->0),
        group_has_index(section_map_spec(ps), ps[i].section->0),
{
    let n = ps[i].section->0;
    let gs = section_map_spec(ps);
    lemma_sections_to_render(ps, dirs);
    lemma_section_map(ps);
    assert(group_pos_from(gs, n, 0) >= 0);
    lemma_group_pos(gs, n, 0);
    let k = group_pos_from(gs, n, 0);
    assert(gs[k].1 == ps.filter(in_section(gs[k].0)));
    assert(in_section(n)(ps[i]));
    ps.lemma_filter_contains(in_section(n), i);
    assert(ps.filter(in_section(n)).contains(ps[i]));
    let j = choose|j: int| 0 <= j < gs[k].1.len() && gs[k].1[j] == ps[i];
    assert(gs[k].1[j].slug == "index"@);
    assert(has_index_page(gs[k].1));
}

proof fn lemma_pos_contains(a: Seq<(Seq<char>, Seq<PageV>)>, n: Seq<char>)
    ensures
        (group_pos_from(a, n, 0) >= 0) == group_names(a).contains(n),
{
    lemma_group_pos(a, n, 0);
    let k = group_pos_from(a, n, 0);
    if k >= 0 {
        assert(group_names(a)[k] == n);
    } else {
        assert forall|i: int| 0 <= i < group_names(a).len() implies group_names(a)[i] != n by {
            assert(group_names(a)[i] == a[i].0);
        }
    }
}

proof fn lemma_lacking(gs: Seq<(Seq<char>, Seq<PageV>)>)
    ensures
        forall|n: Seq<char>|
            #[trigger] group_names(gs.filter(lacks_index())).contains(n) <==> exists|k: int|
                0 <= k < gs.len() && (#[trigger] gs[k]).0 == n && !has_index_page(gs[k].1),
        forall|j: int|
            0 <= j < gs.filter(lacks_index()).len() ==> exists|k: int|
                0 <= k < gs.len() && #[trigger] gs.filter(lacks_index())[j] == #[trigger] gs[k],
        group_names(gs).no_duplicates() ==> group_names(gs.filter(lacks_index())).no_duplicates(),
    decreases gs.len(),
{
    reveal(Seq::filter);
    let f = gs.filter(lacks_index());
    if gs.len() > 0 {
        let g0 = gs.drop_last();
        let f0 = g0.filter(lacks_index());
        lemma_lacking(g0);
        let x = gs.last();
        assert(f == (if lacks_index()(x) {
            f0.push(x)
        } else {
            f0
        }));
        assert forall|n: Seq<char>| #[trigger] group_names(f).contains(n) <==> exists|k: int|
            0 <= k < gs.len() && (#[trigger] gs[k]).0 == n && !has_index_page(gs[k].1) by {
            if group_names(f).contains(n) {
                let i = choose|i: int| 0 <= i < group_names(f).len() && group_names(f)[i] == n;
                if i < f0.len() {
                    assert(f[i] == f0[i]);
                    assert(group_names(f0)[i] == n);
                    assert(group_names(f0).contains(n));
                    let k = choose|k: int| 0 <= k < g0.len() && (#[trigger] g0[k]).0 == n && !has_index_page(g0[k].1);
                    assert(gs[k] == g0[k]);
                } else {
                    assert(lacks_index()(x));
                    assert(f[i] == x);
                    assert(gs[gs.len() - 1] == x);
                }
            }
            if exists|k: int| 0 <= k < gs.len() && (#[trigger] gs[k]).0 == n && !has_index_page(gs[k].1) {
                let k = choose|k: int| 0 <= k < gs.len() && (#[trigger] gs[k]).0 == n && !has_index_page(gs[k].1);
                if k < g0.len() {
                    assert(g0[k] == gs[k]);
                    assert(group_names(f0).contains(n));
                    let i = choose|i: int| 0 <= i < group_names(f0).len() && group_names(f0)[i] == n;
                    assert(group_names(f)[i] == n);
                } else {
                    assert(lacks_index()(x));
                    assert(group_names(f)[f.len() - 1] == n);
                }
            }
        }
        assert forall|j: int| 0 <= j < f.len() implies exists|k: int|
            0 <= k < gs.len() && #[trigger] f[j] == #[trigger] gs[k] by {
            if j < f0.len() {
                let k = choose|k: int| 0 <= k < g0.len() && #[trigger] f0[j] == #[trigger] g0[k];
                assert(gs[k] == g0[k]);
            } else {
                assert(gs[gs.len() - 1] == x);
            }
        }
        if group_names(gs).no_duplicates() {
            assert(group_names(g0) =~= group_names(gs).drop_last());
            assert(group_names(g0).no_duplicates()) by {
                assert forall|i: int, j: int| 0 <= i < j < group_names(g0).len() implies group_names(g0)[i]
                    != group_names(g0)[j] by {
                    assert(group_names(g0)[i] == group_names(gs)[i]);
                    assert(group_names(g0)[j] == group_names(gs)[j]);
                }
            }
            if lacks_index()(x) {
                assert forall|i: int, j: int| 0 <= i < j < group_names(f).len() implies group_names(f)[i]
                    != group_names(f)[j] by {
                    if j == f.len() - 1 {
                        assert(group_names(f)[i] == f0[i].0);
                        let k = choose|k: int| 0 <= k < g0.len() && #[trigger] f0[i] == #[trigger] g0[k];
                        assert(group_names(gs)[k] == g0[k].0);
                        assert(group_names(gs)[gs.len() - 1] == x.0);
                    } else {
                        assert(group_names(f)[i] == group_names(f0)[i]);
                        assert(group_names(f)[j] == group_names(f0)[j]);
                    }
                }
            } else {
                assert(f == f0);
            }
        }
    } else {
        assert(group_names(f) =~= Seq::<Seq<char>>::empty());
    }
}

proof fn lemma_extra_sections(
    acc: Seq<(Seq<char>, Seq<PageV>)>,
    ps: Seq<PageV>,
    dirs: Seq<Seq<char>>,
)
    requires
        group_names(acc).no_duplicates(),
        forall|n: Seq<char>|
            group_pos_from(section_map_spec(ps), n, 0) >= 0 && !group_has_index(section_map_spec(ps), n)
                ==> #[trigger] group_names(acc).contains(n),
        forall|k: int| 0 <= k < acc.len() ==> (#[trigger] acc[k]).1 == ps.filter(in_section(acc[k].0)),
    ensures
        ({
            let gs = section_map_spec(ps);
            let r = extra_sections_spec(acc, gs, ps, dirs);
            &&& forall|n: Seq<char>|
                #[trigger] group_names(r).contains(n) <==> (group_names(acc).contains(n) || (dirs.contains(n)
                    && !is_top_level_bundle(ps, n) && !group_has_index(gs, n)))
            &&& group_names(r).no_duplicates()
            &&& forall|k: int| 0 <= k < r.len() ==> (#[trigger] r[k]).1 == ps.filter(in_section(r[k].0))
        }),
    decreases dirs.len(),
{
    let gs = section_map_spec(ps);
    let r = extra_sections_spec(acc, gs, ps, dirs);
    if dirs.len() > 0 {
        let d0 = dirs.drop_last();
        let a = extra_sections_spec(acc, gs, ps, d0);
        lemma_extra_sections(acc, ps, d0);
        let d = dirs.last();
        lemma_pos_contains(a, d);
        assert forall|n: Seq<char>| dirs.contains(n) <==> (d0.contains(n) || n == d) by {
            if dirs.contains(n) {
                let i = choose|i: int| 0 <= i < dirs.len() && dirs[i] == n;
                if i < d0.len() {
                    assert(d0[i] == n);
                }
            }
            if d0.contains(n) {
                let i = choose|i: int| 0 <= i < d0.len() && d0[i] == n;
                assert(dirs[i] == n);
            }
            if n == d {
                assert(dirs[dirs.len() - 1] == n);
            }
        }
        if is_top_level_bundle(ps, d) || group_has_index(gs, d) || group_pos_from(a, d, 0) >= 0 {
            assert(r == a);
        } else {
            assert(r == a.push((d, Seq::<PageV>::empty())));
            assert(group_names(r) =~= group_names(a).push(d));
            assert forall|n: Seq<char>| #[trigger] group_names(r).contains(n) <==> (group_names(a).contains(n)
                || n == d) by {
                if group_names(r).contains(n) {
                    let i = choose|i: int| 0 <= i < group_names(r).len() && group_names(r)[i] == n;
                    if i < group_names(a).len() {
                        assert(group_names(a)[i] == n);
                    }
                }
                if group_names(a).contains(n) {
                    let i = choose|i: int| 0 <= i < group_names(a).len() && group_names(a)[i] == n;
                    assert(group_names(r)[i] == n);
                }
                if n == d {
                    assert(group_names(r)[group_names(r).len() - 1] == n);
                }
            }
            assert forall|i: int, j: int| 0 <= i < j < group_names(r).len() implies group_names(r)[i]
                != group_names(r)[j] by {
                if j == group_names(r).len() - 1 {
                    assert(group_names(r)[i] == group_names(a)[i]);
                    assert(!group_names(a).contains(d));
                } else {
                    assert(group_names(r)[i] == group_names(a)[i]);
                    assert(group_names(r)[j] == group_names(a)[j]);
                }
            }
            lemma_section_map(ps);
            lemma_pos_contains(acc, d);
            assert(!group_names(acc).contains(d)) by {
                if group_names(acc).contains(d) {
                    assert(group_names(a).contains(d));
                }
            }
            lemma_group_pos(gs, d, 0);
            assert(group_pos_from(gs, d, 0) >= 0 && !group_has_index(gs, d) ==> group_names(acc).contains(d));
            assert(group_pos_from(gs, d, 0) == -1);
            lemma_filter_none(ps, d);
            assert(ps.filter(in_section(d)) =~= Seq::<PageV>::empty());
            assert forall|k: int| 0 <= k < r.len() implies (#[trigger] r[k]).1 == ps.filter(in_section(r[k].0)) by {
                if k < a.len() {
                    assert(r[k] == a[k]);
                }
            }
        }
    } else {
        assert forall|n: Seq<char>| !dirs.contains(n) by {}
    }
}

/// The section indexes to generate are exactly the sections without an
/// `index` page: those of the pages, and the content subdirectories that are
/// not top-level tabbed pages. Each comes once, with exactly the pages of its
/// section in their order (none for a subdirectory without pages).
pub proof fn lemma_sections_to_render(ps: Seq<PageV>, dirs: Seq<Seq<char>>)
    ensures
        ({
            let gs = section_map_spec(ps);
            let r = sections_to_render_spec(gs, ps, dirs);
            &&& forall|n: Seq<char>|
                #[trigger] group_names(r).contains(n) <==> !group_has_index(gs, n) && (group_pos_from(gs, n, 0)
                    >= 0 || (dirs.contains(n) && !is_top_level_bundle(ps, n)))
            &&& group_names(r).no_duplicates()
            &&& forall|k: int| 0 <= k < r.len() ==> (#[trigger] r[k]).1 == ps.filter(in_section(r[k].0))
        }),
{
    let gs = section_map_spec(ps);
    let f = gs.filter(lacks_index());
    lemma_section_map(ps);
    lemma_lacking(gs);
    assert forall|n: Seq<char>| #[trigger] group_names(f).contains(n) <==> (group_pos_from(gs, n, 0) >= 0
        && !group_has_index(gs, n)) by {
        lemma_group_pos(gs, n, 0);
        let k0 = group_pos_from(gs, n, 0);
        if exists|k: int| 0 <= k < gs.len() && (#[trigger] gs[k]).0 == n && !has_index_page(gs[k].1) {
            let k = choose|k: int| 0 <= k < gs.len() && (#[trigger] gs[k]).0 == n && !has_index_page(gs[k].1);
            assert(k0 >= 0);
            if k != k0 {
                assert(group_names(gs)[k] == group_names(gs)[k0]);
            }
        }
        if k0 >= 0 && !group_has_index(gs, n) {
            assert(gs[k0].0 == n);
        }
    }
    assert forall|k: int| 0 <= k < f.len() implies (#[trigger] f[k]).1 == ps.filter(in_section(f[k].0)) by {
        let j = choose|j: int| 0 <= j < gs.len() && #[trigger] f[k] == #[trigger] gs[j];
        assert(gs[j].1 == ps.filter(in_section(gs[j].0)));
    }
    lemma_extra_sections(f, ps, dirs);
}

fn has_index(ps: &Vec<Page>) -> (r: bool)
    ensures
        r == has_index_page(pages_view(ps@)),
        r <==> exists|j: int| 0 <= j < ps.len() && (#[trigger] ps@[j]).slug@ == "index"@,
{
    let mut i: usize = 0;
    while i < ps.len()
        invariant
            i <= ps.len(),
            forall|j: int| 0 <= j < i ==> (#[trigger] pages_view(ps@)[j]).slug != "index"@,
            forall|j: int| 0 <= j < i ==> (#[trigger] ps@[j]).slug@ != "index"@,
        decreases ps.len() - i,
    {
        if crate::json::str_equal(ps[i].slug.as_str(), "index") {
            assert(pages_view(ps@)[i as int].slug == "index"@);
            assert(ps@[i as int].slug@ == "index"@);
            return true;
        }
        assert(pages_view(ps@)[i as int] == ps@[i as int]@);
        i += 1;
    }
    false
}

fn top_level_bundle(ps: &Vec<Page>, name: &String) -> (r: bool)
    ensures
        r == is_top_level_bundle(pages_view(ps@), name@),
{
    let mut i: usize = 0;
    while i < ps.len()
        invariant
            i <= ps.len(),
            forall|j: int|
                0 <= j < i ==> !((#[trigger] pages_view(ps@)[j]).tabs.len() > 0 && pages_view(ps@)[j].section is None
                    && pages_view(ps@)[j].slug == name@),
        decreases ps.len() - i,
    {
        assert(pages_view(ps@)[i as int] == ps@[i as int]@);
        if ps[i].tabs.len() > 0 && ps[i].section.is_none() && ps[i].slug == *name {
            return true;
        }
        i += 1;
    }
    false
}

fn copy_group(g: &SectionPages) -> (r: SectionPages)
    ensures
        section_view(r) == section_view(*g),
{
    let mut pages: Vec<Page> = Vec::new();
    let mut i: usize = 0;
    while i < g.pages.len()
        invariant
            i <= g.pages.len(),
            pages_view(pages@) == pages_view(g.pages@).take(i as int),
        decreases g.pages.len() - i,
    {
        let ghost before = pages@;
        let p = copy_page(&g.pages[i]);
        pages.push(p);
        assert(pages_view(pages@) =~= pages_view(before).push(p@));
        i += 1;
        assert(pages_view(pages@) =~= pages_view(g.pages@).take(i as int));
    }
    assert(pages_view(g.pages@).take(g.pages.len() as int) =~= pages_view(g.pages@));
    SectionPages { name: g.name.clone(), pages }
}

/// The section indexes to generate (see `sections_to_render_spec`);
/// `subdirs` are the names of the content directory's subdirectories.
pub fn sections_to_render(sections: &Vec<SectionPages>, pages: &Vec<Page>, subdirs: &Vec<String>) -> (r: Vec<SectionPages>)
    ensures
        sections_view(r@) == sections_to_render_spec(
            sections_view(sections@),
            pages_view(pages@),
            crate::json::strings_view(subdirs@),
        ),
{
    reveal(Seq::filter);
    let ghost gv = sections_view(sections@);
    let mut out: Vec<SectionPages> = Vec::new();
    let mut i: usize = 0;
    assert(gv.take(0) =~= Seq::<(Seq<char>, Seq<PageV>)>::empty());
    assert(sections_view(out@) =~= Seq::<(Seq<char>, Seq<PageV>)>::empty());
    while i < sections.len()
        invariant
            i <= sections.len(),
            gv == sections_view(sections@),
            sections_view(out@) == gv.take(i as int).filter(lacks_index()),
        decreases sections.len() - i,
    {
        proof {
            reveal(Seq::filter);
        }
        assert(gv.take(i + 1).drop_last() =~= gv.take(i as int));
        assert(gv.take(i + 1).last() == section_view(sections@[i as int]));
        assert(lacks_index()(section_view(sections@[i as int])) == !has_index_page(
            pages_view(sections@[i as int].pages@),
        ));
        if !has_index(&sections[i].pages) {
            let ghost before = sections_view(out@);
            let g = copy_group(&sections[i]);
            out.push(g);
            assert(sections_view(out@) =~= before.push(section_view(g)));
        }
        i += 1;
    }
    assert(gv.take(sections.len() as int) =~= gv);
    let ghost base = sections_view(out@);
    let ghost dv = crate::json::strings_view(subdirs@);
    let ghost pv = pages_view(pages@);
    let mut j: usize = 0;
    assert(dv.take(0) =~= Seq::<Seq<char>>::empty());
    while j < subdirs.len()
        invariant
            j <= subdirs.len(),
            gv == sections_view(sections@),
            dv == crate::json::strings_view(subdirs@),
            pv == pages_view(pages@),
            sections_view(out@) == extra_sections_spec(base, gv, pv, dv.take(j as int)),
        decreases subdirs.len() - j,
    {
        assert(dv.take(j + 1).drop_last() =~= dv.take(j as int));
        assert(dv.take(j + 1).last() == subdirs@[j as int]@);
        let d = &subdirs[j];
        let skip = if top_level_bundle(pages, d) {
            true
        } else {
            let indexed = match find_group(sections, d) {
                Some(k) => {
                    proof {
                        lemma_group_pos(gv, d@, 0);
                    }
                    has_index(&sections[k].pages)
                },
                None => false,
            };
            if indexed {
                true
            } else {
                match find_group(&out, d) {
                    Some(_) => true,
                    None => false,
                }
            }
        };
        if !skip {
            let ghost before = sections_view(out@);
            let no_pages: Vec<Page> = Vec::new();
            let g = SectionPages { name: d.clone(), pages: no_pages };
            assert(pages_view(g.pages@) =~= Seq::<PageV>::empty());
            out.push(g);
            assert(sections_view(out@) =~= before.push((d@, Seq::<PageV>::empty())));
        }
        j += 1;
    }
    assert(dv.take(subdirs.len() as int) =~= dv);
    out
}

// ---------------------------------------------------------------------------
// Search index
// ---------------------------------------------------------------------------

/// An entry of the search index.
#[derive(Debug)]
pub struct SearchEntry {
    pub title: String,
    pub description: String,
    pub url: String,
    pub section: String,
    pub content: String,
}

/// The searchable text of a page: the plain text of its content, then that
/// of each tab, separated by single spaces.
pub open spec fn search_text_spec(content: Seq<char>, tabs: Seq<TabV>) -> Seq<char>
    decreases tabs.len(),
{
    if tabs.len() == 0 {
        strip_html_spec(content)
    } else {
        search_text_spec(content, tabs.drop_last()) + " "@ + strip_html_spec(tabs.last().content)
    }
}

/// Adding a tab to a page adds a space and the tab's plain text to the end
/// of its searchable text, and nothing else.
pub proof fn lemma_search_text_push(content: Seq<char>, tabs: Seq<TabV>, t: TabV)
    ensures
        search_text_spec(content, tabs.push(t)) == search_text_spec(content, tabs) + " "@ + strip_html_spec(
            t.content,
        ),
        search_text_spec(content, tabs.push(t)).len() > search_text_spec(content, tabs).len(),
{
    assert(tabs.push(t).drop_last() =~= tabs);
    reveal_strlit(" ");
}

/// Every tab is searched: the searchable text of a page starts with the
/// plain text of its content; the searchable text for the first `k` tabs is
/// a prefix of it, for every `k`; and right after the part for the tabs
/// before tab `i` come a space and the plain text of tab `i`, for every tab.
#[verifier::rlimit(60)]
pub proof fn lemma_search_text_tabs(content: Seq<char>, tabs: Seq<TabV>)
    ensures
        search_text_spec(content, tabs).take(strip_html_spec(content).len() as int) == strip_html_spec(content),
        forall|k: int|
            0 <= k <= tabs.len() ==> search_text_spec(content, #[trigger] tabs.take(k)).len()
                <= search_text_spec(content, tabs).len() && search_text_spec(content, tabs).take(
                search_text_spec(content, tabs.take(k)).len() as int,
            ) == search_text_spec(content, tabs.take(k)),
        forall|i: int|
            0 <= i < tabs.len() ==> search_text_spec(content, tabs.take(i)).len() + 1 + strip_html_spec(
                (#[trigger] tabs[i]).content,
            ).len() <= search_text_spec(content, tabs).len() && search_text_spec(content, tabs).subrange(
                search_text_spec(content, tabs.take(i)).len() as int,
                (search_text_spec(content, tabs.take(i)).len() + 1 + strip_html_spec(
                    tabs[i].content,
                ).len()) as int,
            ) == " "@ + strip_html_spec(tabs[i].content),
        search_text_spec(content, tabs).len() >= strip_html_spec(content).len() + tabs.len(),
    decreases tabs.len(),
{
    reveal_strlit(" ");
    let s = search_text_spec(content, tabs);
    if tabs.len() == 0 {
        assert(s.take(strip_html_spec(content).len() as int) =~= s);
        assert forall|k: int| 0 <= k <= tabs.len() implies search_text_spec(content, #[trigger] tabs.take(k)).len()
            <= s.len() && s.take(search_text_spec(content, tabs.take(k)).len() as int) == search_text_spec(
            content,
            tabs.take(k),
        ) by {
            assert(tabs.take(k) =~= tabs);
            assert(s.take(s.len() as int) =~= s);
        }
    } else {
        let d = tabs.drop_last();
        let t = tabs.last();
        lemma_search_text_tabs(content, d);
        let sd = search_text_spec(content, d);
        let tail = " "@ + strip_html_spec(t.content);
        assert(s == sd + tail);
        assert(s =~= sd + tail);
        assert(s.take(strip_html_spec(content).len() as int) =~= sd.take(strip_html_spec(content).len() as int));
        assert forall|k: int| 0 <= k <= tabs.len() implies search_text_spec(content, #[trigger] tabs.take(k)).len()
            <= s.len() && s.take(search_text_spec(content, tabs.take(k)).len() as int) == search_text_spec(
            content,
            tabs.take(k),
        ) by {
            if k == tabs.len() {
                assert(tabs.take(k) =~= tabs);
                assert(s.take(s.len() as int) =~= s);
            } else {
                assert(tabs.take(k) =~= d.take(k));
                let pk = search_text_spec(content, d.take(k));
                assert(pk.len() <= sd.len() && sd.take(pk.len() as int) == pk);
                assert(s.take(pk.len() as int) =~= sd.take(pk.len() as int));
            }
        }
        assert forall|i: int| 0 <= i < tabs.len() implies search_text_spec(content, tabs.take(i)).len() + 1
            + strip_html_spec((#[trigger] tabs[i]).content).len() <= s.len() && s.subrange(
            search_text_spec(content, tabs.take(i)).len() as int,
            (search_text_spec(content, tabs.take(i)).len() + 1 + strip_html_spec(tabs[i].content).len()) as int,
        ) == " "@ + strip_html_spec(tabs[i].content) by {
            if i == d.len() {
                assert(tabs.take(i) =~= d);
                assert(tabs[i] == t);
                assert(s.subrange(sd.len() as int, (sd.len() + tail.len()) as int) =~= tail);
            } else {
                assert(tabs.take(i) =~= d.take(i));
                assert(tabs[i] == d[i]);
                let l = search_text_spec(content, d.take(i)).len() as int;
                let e = (l + 1 + strip_html_spec(d[i].content).len()) as int;
                assert(e <= sd.len() && sd.subrange(l, e) == " "@ + strip_html_spec(d[i].content));
                assert(s.subrange(l, e) =~= sd.subrange(l, e));
            }
        }
    }
}

/// Whether `e` is the search entry of `p`: its title, description and URL,
/// its section (`""` outside any), and its searchable text.
pub open spec fn is_search_entry(e: SearchEntry, p: PageV) -> bool {
    &&& e.title@ == p.title
    &&& e.description@ == p.description
    &&& e.url@ == p.url
    &&& e.section@ == match p.section {
        Some(s) => s,
        None => Seq::empty(),
    }
    &&& e.content@ == search_text_spec(p.content, p.tabs)
}

/// The search entry of a page.
pub fn search_entry(p: &Page) -> (r: SearchEntry)
    ensures
        is_search_entry(r, p@),
{
    let mut content = strip_html(p.content.as_str());
    let ghost tv = tabs_view(p.tabs@);
    let mut i: usize = 0;
    assert(tv.take(0) =~= Seq::<TabV>::empty());
    while i < p.tabs.len()
        invariant
            i <= p.tabs.len(),
            tv == tabs_view(p.tabs@),
            content@ == search_text_spec(p@.content, tv.take(i as int)),
        decreases p.tabs.len() - i,
    {
        assert(tv.take(i + 1).drop_last() =~= tv.take(i as int));
        assert(tv.take(i + 1).last() == p.tabs@[i as int]@);
        proof {
            reveal_strlit(" ");
        }
        let ghost before = content@;
        content.push(' ');
        let text = strip_html(p.tabs[i].content.as_str());
        content.append(text.as_str());
        assert(content@ =~= before + " "@ + text@);
        i += 1;
    }
    assert(tv.take(p.tabs.len() as int) =~= tv);
    let section = match &p.section {
        Some(s) => s.clone(),
        None => String::new(),
    };
    SearchEntry {
        title: p.title.clone(),
        description: p.description.clone(),
        url: p.url.clone(),
        section,
        content,
    }
}

/// The search index: one entry per page, in order.
pub fn search_index(pages: &Vec<Page>) -> (r: Vec<SearchEntry>)
    ensures
        r.len() == pages.len(),
        forall|i: int| 0 <= i < r.len() ==> is_search_entry(#[trigger] r@[i], pages@[i]@),
{
    let mut out: Vec<SearchEntry> = Vec::new();
    let mut i: usize = 0;
    while i < pages.len()
        invariant
            i <= pages.len(),
            out.len() == i,
            forall|k: int| 0 <= k < i ==> is_search_entry(#[trigger] out@[k], pages@[k]@),
        decreases pages.len() - i,
    {
        out.push(search_entry(&pages[i]));
        i += 1;
    }
    out
}

} // verus!
