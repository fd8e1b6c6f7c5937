# robotparser_rs

A robots.txt parser: rules match by path prefix and the first matching `Allow`/`Disallow`
decides, paths are compared after percent-encoding normalization, and user-agents are matched as lowercase substrings, with
`*` as the catch-all consulted last. The logic is verified with Verus against a
mathematical model of the parser; the calls into std and `urlparse_rs` that it relies on
stand behind small trusted wrappers whose contracts say what is assumed of them.

Layout of `src/`:

- `model.rs` – the model: rules, entries, the parser, the line-by-line parse, how a
  request is judged, and the text form.
- `robots.rs` – `RobotFileParser` and its private `Entry`/`RuleLine`, each method proved
  against the model.
- `url.rs` – the calls into `urlparse_rs` (`urlsplit`, `urlunsplit`, `quote_from_bytes`,
  `unquote_to_bytes`) and the path normalization built on them.
- `text.rs` – searching, trimming, case folding and decimal numbers on characters.
- `protocol.rs` – the line protocol of the differential-testing tool in `app/`.
- `laws.rs` – properties of the whole: first match wins, specific entries before the
  default, an empty `Disallow` allows all, nothing is allowed before parsing, parsing keeps
  the parser well formed and collects every `Sitemap`, normalization is idempotent.

Fetching the file is left to the caller: split it into lines and pass them to
`RobotFileParser::parse`.
