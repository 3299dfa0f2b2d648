# mor_website_ui

The editing logic of a website theme editor, written in Verus and verified:
each public function carries a contract over a mathematical model of its
inputs, and the laws that tie the functions together are proof functions.

## Layout

- `src/` — the verified library.
  - `widget_layout/` — the Layout view's buffer helpers on template XML:
    widget cards (`parse_slots`, `reorder`, `set_visible`, `remove`),
    editable fields (`parse_fields`, `set_field`, `set_widget_title`),
    structural parts (`parse_parts`) and the field tree (`group_fields`).
    `widget_layout/laws/` proves what a reparse of an edited buffer shows,
    and that grouping loses no field.
  - `line_diff.rs` — a longest-common-subsequence line diff, with the laws
    that it replays both texts.
  - `presets.rs`, `viewport.rs`, `static_pages.rs`, `widget_body.rs`,
    `workbench.rs`, `rich_edit.rs`, `typography.rs`, `controls.rs`,
    `cursors.rs`, `plugins.rs`, `bundle.rs` — the decisions the editor's panels
    make, each as a function from plain values to plain values.
  - `text.rs`, `unicode.rs` — string helpers and the trusted calls into
    `str::to_lowercase`, `char::to_uppercase` and `String::push`.
- `tests/` — the scenarios, run against the compiled library.
- `app/` — the shell: file dialogs, the clipboard, network fetches, archive
  writing and serde copies of the library's types. It makes the calls the
  library's results describe.

## Checking

Verus verifies `src/`; the tests run with the outside crates linked.
