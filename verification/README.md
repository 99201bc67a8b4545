# velox_browser

The logic of a small desktop browser that needs no window: what address bar input
means, which requests are blocked, history, bookmarks and suggestions, downloads,
the context menu, find in page, and the measuring and judging of its performance.

The functions in `src/` have contracts that [Verus](https://github.com/verus-lang/verus)
proves, but for a few outside calls, of which see below. Text is modelled as a
sequence of characters, stores as records of sequences; the executable functions are
stated against those models, and what holds of several functions together stands at
the end of each module, under "Laws".

| Modules | |
| --- | --- |
| `navigation`, `weburl` | address bar input, search URLs |
| `blocklist` | filter lists, in the syntax of Adblock Plus |
| `history`, `bookmarks`, `input_history`, `persistence` | what is kept between runs |
| `omnibox`, `omnibox_candidates`, `ranking` | suggestions below the address bar |
| `downloads`, `filenames`, `paths`, `platform` | downloads and where they go |
| `context_menu`, `find`, `print`, `tab_id` | what a page's user can do with it |
| `network_activity`, `gui_probe` | small decisions |
| `metrics`, `perf_record`, `process_tree` | startup, page loads, memory and CPU time |
| `scenario`, `automation` | benchmark scenarios and the scripts that run them |
| `benchmark`, `metric_key`, `perf_events`, `ipc_summary`, `comparison`, `gate`, `calendar` | reading measurements, comparing results, judging them |
| `text` | texts as sequences of characters |

What the proofs rest on without proof is marked `external_body` or
`assume_specification`, with a comment that says which function of `url`,
`serde_json` or `std` it stands for and what it claims.

`tests/` runs the library on concrete values. `app/` is ordinary Rust around it:
files, processes, clocks, JSON, and arithmetic on fractions.
