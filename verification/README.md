# yunzhi

The configuration, project-memory and hook logic of the yunzhi assistant,
written in Verus and proved against its contracts.

- `src/text.rs` — characters, trimming, splitting, lines, substring counts,
  decimal numbers and `String` ordering, stated over `Seq<char>`.
- `src/memory.rs` — memory entries (`- [id:..] [tags:..] text`): parsing,
  rendering, the memory prompt, query terms, scores and ranked search.
- `src/memory_laws.rs` — what holds across those functions: written entries
  read back unchanged, parsed entries are well formed, the prompt reads back
  as the entries it shows (as long as no untagged entry's text begins with
  `[tags:`, which would read back as a tag list), and search gives the same
  entries for ASCII queries that differ only in letter case.
- `src/config.rs` — configuration paths, API-key masking, which loaded
  configuration counts, and profile lookup.
- `src/hooks.rs` — hook rules, which of them apply, their environment and
  time limit, and the report of their runs.
- `app/` — the files, the terminal and the processes: reading and writing
  TOML, asking for the API key, and running hook commands.
