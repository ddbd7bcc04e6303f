# sitemapper

A command line tool that downloads XML sitemaps (and sitemap indexes), copies
sitemaps out of exported AEM content packages, searches the downloaded
`<loc>` entries for a substring, and summarizes what has been downloaded.

The decisions of the tool live in a library whose functions carry proved
contracts:

- `src/sitemap.rs` reads a document as a sitemap: the root element must be
  `<urlset>` or `<sitemapindex>`, every `<loc>` element gives one location
  (text and references inside it joined), `<xhtml:link>` alternates are
  counted; gzip-compressed data is recognised by its magic number.
- `src/xml.rs` hands the events of quick_xml's reader on as plain tokens.
- `src/names.rs` makes saved file names safe (`sanitize_filename`) and
  unique within a directory (`NameRegistry`).
- `src/fetch.rs`, `src/find.rs`, `src/extract.rs`, `src/stats.rs` hold what
  the four commands decide: file names and hosts of fetched URLs, the
  `robots.txt` that a bare domain is looked up in and the `Sitemap:` lines
  read from it, and the crawl's tally; the matches of a search; where an extracted file goes; the
  per-domain counts and human-readable sizes.
- `src/text.rs`, `src/gzip.rs`, `src/cli.rs`: text helpers, gzip through
  flate2, and the `USER:PASS` credentials.

`app/` is the program around it: argument parsing (clap), HTTP (reqwest,
tokio), the file system, JSON output (serde_json) and the one floating-point
ratio that the `stats` command prints.
