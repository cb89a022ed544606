# pipeline

The decision logic of photopipe, a local-first RAW photo culling tool, written
in Verus: every function in `src/` carries a contract that the verifier proves.

- `src/` — the verified library: review and keepers trees (`output`), unique
  output names (`names`), finished-tree planning and pruning (`develop`),
  duplicate grouping (`dedupe`), EXIF date parsing (`exif`), library keys and
  listing order (`library`, `listing`), preview cache layout (`cache`), ingest
  rules (`ingest`), the review server's job slot and request shapes (`serve`),
  health checks (`doctor`), configuration defaults (`config`), and the text and
  path helpers they share (`text`, `path`, `humanize`).
- `tests/` — tests of the library on concrete values.
- `app/` — the `photopipe` command line: file-system and process work, the
  TOML configuration file, logging, and the floating-point image measurements
  and edit decisions, which stay outside the verified library.

Laws of the library are public proof functions named `lemma_*`; each states in
its doc comment what it guarantees.
