# writerm

The writing surface of a terminal Markdown editor, as a Verus library: its
behaviour is stated in contracts and proved.

- `src/` is the library. `text`, `style`, `cells` and `wrap` turn text into
  measured cells and wrapped rows; `visual` and `indent` make them a document
  that knows which source character each display column stands for, and
  `mapping` and `decorated` prove where a character is found again on the
  display: in source text, and in rendered text with decorations among it;
  `navigate` moves the cursor over it; `layout`, `panels` and `headings` say what
  is drawn where; `paths`, `workspace`, `config` and `metrics` hold the rules on
  files, settings and counts; `app` and `session` are the application as a state
  machine from events to actions.
- `app/` is the terminal application around it. It owns the editor and the
  files, draws with ratatui, and performs the actions that the library returns.
- `tests/` runs the library.

Facts about Unicode (grapheme clusters, display widths, letters, lower case) and
the division of areas come from outside and are taken on trust; the doc comments
of the functions that make these calls say what is relied on.
