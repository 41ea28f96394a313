# wilde_ssg

A static site generator: markdown pages with JSON frontmatter under a content
directory are rendered through Tera templates into a directory of HTML files,
with syntax-highlighted code blocks, section index pages and a search index.

The library under `src/` is written in Verus and verified:

- `text` — whitespace collapsing, word capitalisation (`title_case`,
  `section_display_name`), tag stripping and HTML entity decoding
  (`strip_html`, `decode_entities`).
- `json` — the JSON values the generator handles, lookups, and the deep merge
  of theme defaults with the user's settings, with its laws.
- `frontmatter` — finding the `---` delimited JSON block at the top of a file.
- `markdown` — markdown to HTML through pulldown-cmark, code blocks
  highlighted through syntect.
- `content` — turning the files of the content directory into pages (plain
  pages and tabbed pages), ordered newest first.
- `builder` — what gets rendered where: section groups, section indexes,
  placeholder pages, template contexts, output paths and the search index.
- `config` — the site configuration and its defaults.

`app/` is the command-line program: it reads the files, parses JSON with
serde, renders templates with Tera and writes the output, calling the library
for every decision.
