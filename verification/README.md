# sub

A command-line tool for subtitles: it lists, extracts and injects the
subtitle tracks of Matroska files (through mkvtoolnix), and searches and
downloads subtitles from SubSource.net.

The decisions the tool takes are a library verified with Verus (`src/`):

- `text` — Unicode whitespace trimming, substring search, splitting,
  decimal numbers, and lowercasing (through `str::to_lowercase`).
- `lang` — the fifteen known languages and their display names, service
  names and three-letter track codes.
- `selection` — what is typed at the prompts: `1,3,5`, `1-3`, `all`, a
  single number, a yes/no answer.
- `subsource` — subtitle priority and ordering, a search session's
  decisions, percent-encoding and the service's request URLs.
- `config` — reading and rewriting the `key=value` configuration file,
  and masking the API key.
- `mkv` — the subtitle-track listing, extracted file names, the injection
  plan.
- `archive` — finding the subtitle in a download (a ZIP archive, read with
  the `zip` crate, or a plain file).

`app/` holds the command line, the file system, the mkvtoolnix processes
and the HTTP requests around it. `tests/` runs the library on examples.
