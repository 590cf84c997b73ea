# tanuki

A knowledge compiler and serving library, verified with Verus.

Markdown documents are parsed into knowledge nodes, reduced and clustered
with the help of a language model, packed into a knowledge tree, and served
as pruned context buffers (`FlatAST`) and retrieval-augmented prompts.

## Layout

- `src/` — the verified library.
  - `text` — string and character helpers with exact contracts.
  - `frontend` — the markdown tokenizer and recursive-descent parser; the
    grammar itself is written as spec functions in `frontend::grammar`, and
    the parser is proved to emit exactly what the grammar emits.
  - `flat_ast` — the 16-byte-aligned node buffer: push, prune by priority and
    token budget, render; with laws on what pruning keeps and evicts.
  - `packing`, `memory` — the knowledge tree layout and its coarse search.
  - `checkpoint`, `db`, `pipeline`, `middle`, `llm` — compiler state,
    the undo log of speculative transactions, pipeline decisions, prompts
    and reply parsing, provider configuration.
  - `serving`, `playground`, `cli` — query cleaning, keyword search, RAG
    prompt planning, status parsing, DSL prompts, argument parsing.
- `tests/` — tests of the library.
- `app/` — the program around it: file and network I/O, the SQLite store,
  model clients, the HTTP server, and the vector index over floats.
