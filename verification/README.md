# dioxus_press

Markdown documentation sites for Dioxus: pages are parsed into a document tree,
code is coloured at build time, and a docs directory becomes routes, a sidebar and
a reading order. The `dxpress` command line tool turns that into a Dioxus app.

The library (`src/`) is verified with Verus; public functions state what they
return in their contracts, and the properties that span functions are proof
functions named `law_*`. Where a result comes from syntect, pulldown-cmark or std,
the contract speaks of it through a named function of the call's arguments. One
function states nothing of its result: `Config::docs_path`, whose joined path
depends on the platform's path rules.

- `types`: the data a site's theme reads (`PageMeta`, `SidebarItem`, `Tasks`, ...).
- `text`: characters, trimming, splitting and the Unicode classes used throughout.
- `ast`: the document tree, its model, task totals and page titles.
- `directive`: `:::tip` blocks rewritten to `<Callout>` components.
- `tag`: component tags embedded in markdown.
- `slug`: heading anchors and their de-duplication.
- `parser`: markdown events to a document tree; drafting, colouring, parsing a page.
- `lang`, `highlight`, `colour`: project-defined languages, syntect, and colouring
  every code block of a tree.
- `frontmatter`: framing the leading `---` block, and the defaults of its keys.
- `search`: ranking the page index against a query, and route normalisation.
- `config`: what `dioxus-press.toml` means for routing.
- `site`, `links`: the walk over a docs directory, reading order, link rewriting.
- `check`: links that lead nowhere.
- `rsx`, `template`: the decisions behind code generation and `dxpress new`.

`app/` holds the command line tool: file and process I/O, serde decoding of the
TOML and YAML files, `rsx!` code generation with `quote`, and the file watcher.
