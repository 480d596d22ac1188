# rs_practice

Small services and tools, with their logic in a library verified by Verus.

- `src/kv_store.rs`: the line protocol of a key-value server (`GET`, `SET`,
  `DEL`, `PING`), its parser, the in-memory store and the answer to each
  request line, with the store's laws (a read gives back the last write; a
  written request parses back to its command).
- `src/markdown_wasm.rs`: a markdown-to-HTML converter (headings,
  paragraphs, lists, bold text, HTML escaping), with the laws that parsed
  nodes are well formed and single-line, that a blank document has no
  nodes, and that inline HTML is escaped.
- `src/markdown_wasm/compiler/`: a finer-grained markdown front end (line
  classifier, inline parser over a stated grammar, syntax tree).
- `src/todo_api.rs`: the request rules of a todo service: title validation,
  lookups, and the status and message of each error.
- `src/load_tester.rs`: the tally and latency figures of an HTTP load tester.
- `src/auto_lifetime.rs`: which type declarations need a lifetime parameter.
- `src/text.rs`: Unicode white space, words, trimming, lines, joining and
  decimal numerals.

`app/` holds what runs around the library: the TCP server, the HTTP todo
service on SQLite, the WebAssembly export and demo server, the load tester's
networking and report, and the syntax-tree rewriting of the lifetime tool.
