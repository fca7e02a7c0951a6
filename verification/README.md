# obscura

Verified core of a headless-browser toolkit, written in Verus.

The library (`src/`) holds the logic with contracts proved by Verus:

- `tree/` — an arena-backed DOM: nodes, attributes, light and shadow trees,
  insertion and removal with cycle rejection, connectivity bits, id lookup,
  text content, document-order walks, slot assignment.
- `node_order`, `mutation_impact` — document order of nodes, and whether a
  DOM command can make the rendered layout stale.
- `dom_ops` — the DOM command channel: the readings and mutations a
  page's script asks of the tree, with the reply each gets (selector
  matching and HTML parsing and serialisation are not part of it).
- `readable` — readable-text extraction that skips navigation boilerplate.
- `origin_storage` — per-origin localStorage with size limits.
- `watchdog`, `module_activity` — decisions of the command watchdog and of
  module-load activity tracking, with the clock supplied by the caller.
- `fetch_policy`, `scripted_fetch`, `glob` — URL checks, credential and
  CORS decisions, request headers and redirect handling for scripted
  fetches, and wildcard URL patterns.
- `scripts`, `fragment`, `frame_queue` — script start bookkeeping,
  fragment-parsing arguments and the queues of pending frame documents.
- `subtle` — the WebCrypto and compression operations, over the RustCrypto
  and `flate2` crates.
- `style_queue` — the retained-style invalidation a DOM command describes,
  and the coalescing queue of invalidations between rendering
  opportunities.
- `realm` — frame same-origin checks and the time zone name check.
- `image_load` — what an image metadata request does with the cache and
  the requests in flight, and what a finished fetch does to the cache.
- `cli`, `assets` — command-line decisions: log filter, V8 flags, proxy
  choice, the round-robin routing of `serve --workers`, URL lists and the
  sub-resource records of `--dump assets`.

`app/` is the command-line front end: argument parsing with `clap`, file
input and output. `tests/` exercises the library.
