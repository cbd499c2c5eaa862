# nimbuscli

A fuzzy file finder. The library (`src/`) holds its logic, verified with Verus:

- `text`: char-level string operations (suffix, substring search, ASCII case
  folding) and the std string functions the search relies on.
- `matching`: how a file name scores against what was typed (longest common
  stretch, greedy subsequence count), size amounts such as `10kb`, and the
  folder-name test.
- `finder`: the request, the checks made before a search, the decision taken at
  each walked entry, the ranking of candidates, and the content search.
- `cache`: an expiring, capacity-bounded cache kept in a `DashMap`, evicting a
  least-read entry when full.
- `clock`: whole seconds since the Unix epoch.

`app/main.rs` is the command-line program: argument parsing with clap, the
cache files (serde_json), the folder walk (walkdir) and the printing.
