# wiki

A Markdown knowledge-base toolkit: seeding a wiki, reading and searching it,
indexing its pages into chunks, links, entities and co-occurrence relations,
navigating the page and entity graphs, bounded Graph-RAG evidence, extractive
answers, and an evidence-first spec-driven change lifecycle (SDD).

## Layout

- `src/` is the verified library. Every function carries a `requires` /
  `ensures` contract over spec functions and views, and Verus proves it.
  The modules follow the workflow:
  - `init`: the seed plan and what is written;
  - `read`, `search`, `pattern`: the overview and the page search;
  - `markdown`, `index`, `chunk_graph`: chunking, links, entity extraction
    and the ids stored in the index;
  - `graph`, `neighborhood`, `relations`, `scopes`: graph queries, page
    neighbourhoods, entity neighbours and the entity scopes of a search;
  - `rag`, `embedding`, `ask`, `harness`: query analysis, hashed features,
    bounded contexts, extractive answers, prompts and the harness package;
  - `sdd_*`: parsing, checking, verifying and archiving SDD changes.

  The few calls into outside crates (`regex`, `sha2`) and into parts of std
  that vstd does not specify stand behind small trusted wrappers in
  `pattern`, `digest`, `unicode`, `text`, `ask`, `search` and `sdd_change`.
  Each wrapper's doc comment says what its contract claims.
- `app/` is the command-line program around the library: argument parsing,
  the file system, SQLite, HTTP, serialisation, and the real-valued scores
  of retrieval.
- `tests/` runs the library on concrete inputs.
