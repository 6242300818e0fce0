# hn_cli

A command-line reader for Hacker News, built around a library whose logic is
verified with Verus.

- `src/` is the verified library:
  - `text.rs`: decimal numbers, trimming, splitting into lines, searching, and
    the clean-up of rendered text.
  - `api.rs`: the API's items and users, the story lists and their addresses,
    which fetched items are shown, and the level-by-level comment crawl.
  - `display.rs`: relative times, story domains, HTML rendering, and the
    printable layout of story lists, story pages, comment threads, user
    profiles and their JSON members.
  - `bindings.rs`: the calls into `html2text`, `chrono` and `terminal_size`.
- `app/` is the program: command-line parsing, HTTP requests, colours and
  printing.
- `tests/` runs the library on concrete values.
