# omp_hooks

Three tool-call hooks that keep a coding agent's context small, with their
decision logic verified by Verus:

- `lazy-rules` (PreToolUse on Edit, Write, MultiEdit, NotebookEdit, Bash)
  matches the content a call introduces against rule files (markdown with a
  frontmatter block holding an ECMAScript `condition` regex, a `scope` and a
  `repeat` policy) and either denies the call with the rule's text or queues
  the text as a reminder;
- `lazy-rules-post` (PostToolUse) delivers the queued reminders;
- `read-discipline` (PreToolUse on Read) answers a whole-file read of a long
  source file with a structural outline, once per path and session.

## Layout

- `src/` — the verified library.
  - `text.rs` whitespace classes, trimming, splitting, UTF-16 lengths,
    decimal rendering, path base names;
  - `scan.rs` character classes, substring search, digit strings;
  - `regex.rs` the `regress` regex engine behind two trusted wrappers;
  - `keyed.rs` an insertion-ordered string map with distinct keys;
  - `json.rs` JSON values and their JavaScript conversions, JSON string
    quoting through `serde_json`;
  - `outline.rs` language detection by extension and the outline of a file;
  - `rules.rs` frontmatter and scope grammars, globs, the digest of a tool
    call, the repeat policies, rule evaluation and rule loading;
  - `order.rs` sorting names by UTF-16 code units;
  - `state.rs` the per-session state, its file location and its JSON form;
  - `hooks.rs` the three hooks as functions from payload, rules and state
    to the next state and the text to print.
  `text`, `outline`, `rules`, `state` and `hooks` end with the properties
  the hooks rely on, stated and proved as proof functions.
- `app/main.rs` — the binary: stdin, environment, files, JSON parsing and
  printing around the library's decisions. Every hook exits 0.
- `tests/` — scenario tests of the library.
