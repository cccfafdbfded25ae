# mdbook-obsidian

An mdBook preprocessor that makes Obsidian-flavoured markdown render in
mdBook: link fragments normalized the way mdBook writes heading ids, bare
URLs linked, Excalidraw drawings shown on viewer pages, Obsidian syntax
(comments, highlights, callouts, block ids, wikilinks) converted, hard line
breaks, inserted headings, backlinks, a generated table of contents, an
image lightbox and video embeds.

The text passes are a library verified with Verus (`src/`): every public
function states what it returns over a model of the text as character
sequences, and the promises that span calls (a pass leaves text it has
nothing to do with unchanged, fenced code blocks are never touched, the
hard-break pass is idempotent, an escaped scene cannot close its script
element, slugs are URL-safe, listings come in order, ...) are proved as
`law_*` proof functions next to what they speak of.

- `src/text.rs`, `src/lines.rs`, `src/spans.rs`, `src/links.rs`,
  `src/components.rs`, `src/paths.rs`: the text model, lines and fenced
  code blocks, inline code spans, the link grammar, and paths as
  `std::path` reads them.
- `src/anchors.rs`, `src/breaks.rs`, `src/obsidian_syntax*`,
  `src/lightbox.rs`, `src/embed.rs`, `src/frontmatter.rs`,
  `src/excalidraw*`, `src/backlinks.rs`, `src/toc.rs`, `src/chapters.rs`:
  the passes.
- `src/trusted.rs`: the calls into `urlencoding`, `lz-str` and the Unicode
  tables of `std`, with the contracts they are believed to meet.
- `app/`: the preprocessor binary: mdBook's JSON protocol, the
  configuration, files on disk, the directory walk and the book's tree.
- `tests/`: the tests.
