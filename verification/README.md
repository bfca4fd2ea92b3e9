# annex

The logic of a vector search engine, verified with Verus, and a server around it.

Documents are matrices of token vectors. They are stored compressed (the nearest
centroid of each vector and a few bits for each residual), and each has an encoding
of a fixed dimension. A query ranks documents by their encodings, over all of them
or over an HNSW graph, and rescores the best by late interaction (MaxSim).

## Layout

- `src/` is the verified library.
  - `score`, `arith`, `order`, `tally`, `bitpack`, `ids`: numbers, orders and maps.
    Floating-point numbers are handled by their bit patterns; arithmetic on them is
    handed in as functions, and contracts speak of those functions.
  - `config`, `error`, `commit`, `storage`: what is accepted, how records are laid
    out, and in which steps a change is committed.
  - `muvera`: encodings of a fixed dimension.
  - `engine`: the index. Its manifest and how it is opened (`manifest`, `index`,
    `persist`), its state and its changes (`state`, `train`, `stage`, `update`),
    its queries (`query`, `rank`, `late`, `answer`) and the graph over its encodings
    (`assemble`); what queries promise of their answers (`exact`, `nearest`), and
    what stays of an index on disk (`recover`).
  - `hnsw`: the graph. Insertion one by one and in batches, search, reordering,
    links between points that a filter keeps, codes, snapshots and their frame.
  - `sparse`, `rerank`: sparse vectors, fusion of rankings, diversity, groups.
  - `serve`: how a request is understood and explained.
- `tests/` runs the library.
- `app/` is the server: HTTP, files, JSON, and arithmetic on floating-point numbers.

What is believed without proof stands in functions marked `external_body`, each
with a comment on the outside function that it calls. Properties of several
functions together are the public proof functions whose names start with `law_`.
