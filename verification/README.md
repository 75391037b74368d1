# photo_picker

The core of a desktop photo culler: import a folder, analyse each photo in a
Python sidecar, group near-duplicate bursts by perceptual hash, mark keeps and
rejects, and export the keeps.

- `src/` is the verified library (Verus). It holds the decisions: pHash
  parsing and Hamming distance, union-find clustering into near-duplicate
  groups (`grouping`, with its order-independence law in `cluster_laws`),
  content-derived ids for photos, groups and transcode cache entries
  (`digest`, over BLAKE3), the re-grouping plan (`regroup`), the thumbnail
  self-heal policy and work selection (`thumbnails`), batch tallies and
  terminal status (`batch`), export naming and accounting (`photos`), lexical
  path comparison and supported extensions (`paths`), project naming and
  open-project rules (`projects`), browse ordering (`browse`), and progress
  events (`progress`).
- `app/` is the Tauri shell around it: commands, SQLite, the folder walk, the
  sidecar processes and file copies.
- `tests/` exercises the library on concrete values.
