# skill_index

Skill discovery and retrieval for an agent runtime, written in Verus.

- `src/` is the verified library:
  - `text.rs` — character-level text operations (prefixes, search, trimming
    by the Unicode White_Space list, line splitting) and the trusted Unicode
    lookups (`to_lowercase`, `is_alphanumeric`).
  - `tokenize.rs` — splitting text into lowercase alphanumeric terms.
  - `skill.rs` — skill records, summaries, and the prompt section.
  - `index.rs` — the inverted index (postings, term and document
    frequencies) and the integer side of retrieval: the skills that match
    a query, and the summaries handed back for a ranking of them.
  - `metadata.rs` — front matter, descriptions and keywords of `SKILL.md`.
  - `discovery.rs` — merging skills found under several roots, and the
    refresh decisions of the process-wide index.
  - `roots.rs` — the candidate skill roots in precedence order.
  - `cache.rs` — the content cache and the steps of loading a skill file.
- `app/` holds what the library cannot: file-system scanning, environment
  lookups, the process-wide mutexes, and the floating-point BM25 ranking.
- `tests/` exercises the library. The retrieval tests rank with their own
  copy of the BM25 scoring, since they cannot link `app/`; they check the
  library's side of retrieval (terms, hits, summaries) together with it.
