# abcom_ui

The logic of the Abcom chat client's interface, as a Verus-verified library:
what the composer does with each key and paste, how shortcodes are found and
completed, how messages are parsed as markdown and laid out in the thread,
how group events are authorized and groups managed, and the small decisions
around them (drafts, notifications, storage settings, download names).

Layout:

- `src/` — the library. Each module states its functions' behaviour in
  `requires`/`ensures` over spec functions, and its laws as public proof
  functions.
  - `chars`, `text`, `text_map`, `text_ops` — characters, text utilities, a
    map keyed by text, and the composer's text editing.
  - `shortcode`, `emoji_picker`, `render` — `:shortcode` detection and
    suggestions, the emoji table and index, inline emoji runs.
  - `composer` — one input event of the composer (typing, paste, clipboard,
    Enter, Tab, erasing, cursor moves), and a frame of events.
  - `markdown`, `snapshot` — message markdown, the folding of long
    messages, and when the thread is rebuilt.
  - `chat`, `thread`, `colors`, `dates` — the thread: groups of messages,
    dividers, names' colors, dates and times.
  - `groups`, `group_manage`, `events` — group events, the group management
    dialog, and the handling of received messages and read receipts.
  - `media`, `sending`, `storage`, `navigation` — attachments and downloads,
    sending, the storage tab, conversations, drafts and overlays.
- `tests/` — tests of the library on concrete values.
- `app/` — a command-line front that reads files and runs the composer;
  floating-point geometry and size formatting live there.
