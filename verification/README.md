# excelgrag

A spreadsheet as a graph that can be searched, read down to individual cells, and
asked through a line protocol. The library is written in Verus: what each
function returns is stated in its contract and proved.

## Layout

- `src/` is the library.
  - `text`, `sort`, `fx`: characters and texts, an order-keeping sort, and the hash
    tables that the rest is built on.
  - `address`, `formula`, `literals`, `cell`, `workbook`: A1 references, what a
    formula mentions, what its scanners see of a text and what follows from that
    for redaction and shapes, cell values and sparse sheets.
  - `region`, `formula_group`, `table`, `profile`: the structure of a sheet.
    Where its tables are, which formulas are one formula filled down, what a
    table's columns are called and what they hold.
  - `graph`, `search`, `expand`, `context`: retrieval. A question is put to both
    indexes in stages, the hits are expanded over the workbook's graph, and the
    result is rendered as a passage with citations.
  - `json`, `rpc`, `server`, `toolbox`, `state`, `args`, `tools`: the server. Lines,
    requests and methods, the tools it offers and the schema of each, how
    arguments are read, and what each tool answers.
- `tests/` runs the library on concrete values.
- `app/` is the program around it: standard input and output, files, the indexes,
  the evaluator, and what is computed with floating-point numbers.

## What is not proved

The library believes what it says of a few functions of other crates and of the
standard library; each is a small function with a doc comment that names what it
calls. They are the hash tables of `rustc-hash` (`fx`), the graph of `petgraph`
(`graph`), the parser and the writer of `serde_json` (`json`), and a handful of
text and path operations (`text`, `search`, `state`).

A number is carried as the bits of its double and its decimal text; nothing in
the library calculates with it.
