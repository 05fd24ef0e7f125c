# btc_foss

Collects the public GitHub activity of one user in Bitcoin repositories into `feed.json` and
renders the feed as a small static page.

The library under `src/` is verified with Verus. It holds everything that decides or computes:

- `toml`, `config`, `rules`: the configuration, which repositories the site takes, and the scopes
  in which comments are searched.
- `grammar`, `json`, `numeral`, `number`, `big`, `fields`: JSON texts, and the numbers in them as
  binary floating point reads them, computed with integers.
- `event`, `feed`, `round_trip`, `validate`: events, the feed file, its being read back as it was
  written, and its check.
- `decimal`, `calendar`, `clock`: numbers in decimal, dates, timestamps and the windows of time
  that are collected.
- `request`, `payload`, `contributions`, `search`, `collector`, `collection`, `candidates`,
  `collect`, `session`: the requests to GitHub, what their replies mean, the order in which they
  are made, and what a collection does to the feed.
- `html`, `page`, `assets`, `site`, `command`: the page, the files of the site and the command
  line.
- `text`, `names`, `order`, `outcome`: strings, sets of names, stable sorting and results.

`app/` is the program around it: it reads and writes files, reads the environment and runs
`curl`. `tests/` runs the library on concrete values.

```text
btc-contribs collect --config config/site.toml
btc-contribs render --config config/site.toml --feed public/feed.json --out public
btc-contribs validate --config config/site.toml
btc-contribs validate-feed --feed public/feed.json
```
