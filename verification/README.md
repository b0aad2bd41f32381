# tab_notes_core

One markdown note per Zellij tab; tabs with a note are marked with an icon in the tab bar.
This crate is the verified core: every decision is a function with a Verus contract.

- `src/` — the library, verified with Verus:
  - `text`: Unicode whitespace and control classes, trimming, prefixes, line splitting.
  - `config`: reading `notes_dir` and `icon` from the plugin configuration.
  - `icon`: decorating tab names with the icon and stripping it again.
  - `paths`: sanitizing names into path components; session directories and note files.
  - `listing`: reading the notes that exist from a `find` listing.
  - `notes`: the set of note names.
  - `reconcile`: keeping tab names in step with the notes, and carrying a note along
    when its tab is renamed.
  - `markdown`: rendering a note into typed lines with inline runs, and wrapping them.
  - `viewport`, `minimize`: scrolling and the minimise/expand state machine.
  - `plugin`, `modal`, `watcher`: the two panes as state machines from events to effects.
- `tests/` — the tests, run against the compiled library.
- `app/` — the Zellij side: converts Zellij events, runs the effects with `run_command`,
  `rename_tab` and friends, and draws the modal.
