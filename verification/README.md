# refac

A tool that moves or renames source and Markdown files and updates the
references to them across a project: imports, module declarations, package
names and Markdown links. TypeScript/JavaScript, Python, Rust, Go, Dart and
Markdown are supported.

- `src/` is the library, verified with Verus: request checks, the grouping
  of a request into per-language batches, the report, the Markdown link
  parser and rewriter, the planning of Rust and Go moves (the Rust move
  goes through rust-analyzer as a language server; a move through its
  semantic database is not carried out, as its library crates are not
  available here), the LSP text-edit
  and workspace-edit rules, and the path arithmetic they share. Its laws
  (public proof functions) state what holds across its functions.
- `app/` is the command-line program and the MCP server around it: file
  system access, the language servers and scripts it runs, and output.
- `tests/` exercises the library on concrete inputs.
