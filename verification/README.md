# bundle_reload

A watch-parse-swap loop for programs that load a bundle of files from disk and want it
reloaded while it is in use. The bundle is whatever a caller-supplied parser makes of the
files; the crate knows nothing of its format.

- `src/` is the library, verified with Verus. It decides which files belong to a bundle and
  in which order, what is hashed for the fingerprint, and when a freshly parsed bundle
  replaces the one in use. It does no I/O: a listing, a fingerprinting or a poll stops at
  each step that needs the outside, says what is needed, and goes on with what came of it.
- `app/` drives the library on a Unix host: it reads directories and files, and runs the
  watcher of a bundle as a `tokio` task.
- `tests/` runs the library against a disk held in memory.

| module        | what it holds                                                      |
|---------------|--------------------------------------------------------------------|
| `path`        | Unix paths: components, order, extension, text                     |
| `order`       | the stable sort of paths, and its laws                             |
| `error`       | what can go wrong                                                  |
| `source`      | where a bundle lives, and the stepwise listing of its files        |
| `tree`        | what a listing means on a file tree                                |
| `fingerprint` | the stepwise SHA-256 fingerprint                                   |
| `stability`   | what a fingerprint means on a disk, and what it tells apart        |
| `bundle`      | the loaded bundle, and the handle through which it is shared       |
| `options`     | interval and hook of a watcher                                     |
| `start`       | the first load, stamped with the fingerprint taken before the parse |
| `watch`       | polls: permit, fingerprint, parse, swap                            |

Not proved, because other threads share the bundle: which of the bundles that were put into
use a given `load` gives. What is proved is that it gives one that a load can give, and that
everything put into use is among those. Nor is it proved that the parser read the very bytes
that were fingerprinted before it ran; a change in between is found by the next poll.
