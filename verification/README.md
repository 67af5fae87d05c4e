# crossref-citation-extraction

Extracts arXiv citations from Crossref reference metadata, partitions them by
arXiv identifier, aggregates them by cited work, validates each cited work
against an FST index of arXiv DOIs, and writes JSON-lines outputs split by
validity and provenance.

The library under `src/` is written in Verus: every function carries a
contract, and the proofs are checked by the verifier.

- `text`, `order`: character-level string operations, decimal formatting,
  lexicographic order and a verified name sort.
- `cli`, `output`, `commands`: arguments, output selection and paths, and the
  run-level decisions (index and partition sources, commit steps, resume
  checks).
- `arxiv`, `extraction`: arXiv identifier matching over the captures of the
  regular expression, normalization and deduplication; the per-reference and
  per-work extraction rules (search text, self-citations, provenance).
- `input`: detection of Crossref and DataCite inputs, file filters and the
  order in which directory inputs are read.
- `index`: the FST index of arXiv DOIs: building it in memory from sorted
  DOIs (with the fst crate's builder), the key of a record, and lookups.
- `streaming`: partition keys, the segmented partition writer, the stable sort of
  segment rows by key (a verified merge sort), the k-way
  merge state machine (with an in-memory merge whose output is proved
  sorted and free of duplicate keys), grouping and per-group aggregation,
  checkpoints, and the aggregation run's resume and checkpoint decisions.

`app/` is the command-line program: argument parsing, logging, archive and
file reading, reading and writing Parquet segments (Polars), the external `sort` that orders the
index keys, and the output files (the index bytes among them). It only moves data between the file system
and the library.
