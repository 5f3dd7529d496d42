# zbar

The usage-tracking core of a desktop app that imports coding-agent sessions,
queries provider quotas and exports live usage data for an editor skin.

- `src/` is the verified library: cookie normalisation, session import
  decisions (resume offsets, dedup keys, throttling), the usage export
  (sub-agent merging, model lists, row selection and ordering, the pending
  message, the latest request per session and turn, session-tree totals,
  file texts and change detection), Cursor token and event bucketing and
  totals, the quota decisions of the provider replies (Coding Plan, Bailian
  Token Plan, manual OAuth tokens: which error applies, which instance and
  windows count, the plan name), console helpers, and the texts of every
  error shown to the user. The Coding Plan and Token Plan reply bodies are
  parsed in the library (serde_json behind a trusted wrapper), strings that
  hold JSON are opened up there, and each scalar takes the floating-point
  readings that `app/` computes for its text. Floating-point numbers stay in
  `app/`: the library refers to them by position. Each public
  function carries a contract; the laws are public proof functions.
- `app/` is the unverified glue: files, SQLite stores, HTTP requests, the
  export thread, and serialisable copies of the export rows.
- `tests/` runs the library on concrete values.
