# graphkit

A toolkit for analysing sparse graphs: weighted adjacency lists, community
partitions (with the integer side of the Louvain method and of modularity),
and readers for the Matrix Market, Wikispeedia (TSV) and MICrONS formats.

- `src/` is the library, written in Verus: every function carries a
  contract and is proved against it.
  - `graph.rs`: graphs, making them undirected; `graph/partition.rs`:
    partitions, the graph between communities, modularity terms;
    `graph/louvain.rs`: the bookkeeping of a Louvain level;
    `graph/painter.rs`: what a DOT drawing shows; `graph/parser.rs`:
    Matrix Market reading for graphs.
  - `parser.rs` and `parser/`: the text readers, stated over the UTF-8
    bytes of the input; `text.rs`: the byte-level scanning they share.
  - `matrix.rs`: the coordinates that connection matrices are built from.
- `tests/` exercises the library on concrete inputs.
- `app/` is the program around it: file access, the floating-point parts
  (Louvain gains, modularity, PageRank with `faer`, DOT colours and pen
  widths) and the random visiting order of the Louvain method (`rand`).
