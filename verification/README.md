# cix

`cix` (Code Indexer) is a command-line code search engine with an agent that answers questions
about a codebase and edits it.

- Search results come from an index, ranked by relevance. Only files that changed since the last
  run are indexed again, and a file that changed replaces what was stored for it.
- `cix ask` and `cix edit` run an agent: turn by turn, a language model proposes actions (search,
  read, list, run, edit), and sees what came of them, until it gives its answer. Edits are shown
  and confirmed before they are written, and checked with the project's build or test command.

```bash
cix <search_query> <target_directory>
cix ask "<question>" <target_directory>
cix edit "<instruction>" <target_directory>
```

## Layout

- `src/` is the library: all that is decided or computed, verified with Verus. Each function says
  in its contract what it returns; laws that relate several functions stand as `law_...` proof
  functions beside them.
- `app/` is the program round it: command line, files, commands, the index on disk, requests to
  the models, and floating-point vectors.
- `tests/` runs the library on concrete inputs.

What the library takes on trust stands in `text.rs` (characters and sizes of the standard library),
`index.rs` (extensions of paths), `json.rs` (`serde_json`) and `syntax.rs` (`tree-sitter` and its
grammars), each with a comment that says what is claimed.
