# fast_plaid

Multi-vector retrieval: documents and queries are lists of token embeddings. An index keeps, for
every token, the nearest of a set of centroids (its cell) and the residual, packed into a few bits
per dimension. A search probes the cells nearest to the tokens of a query, scores the documents it
finds there by their cells, and re-ranks the best of them by their decompressed embeddings.

`src/` is the library, verified with Verus. It holds what is decided and computed on plain values:

- `config`, `centroids`: which index over the centroids is used, and how it is searched
- `bits`, `packing`, `codec`: residuals as bits, and the tables that read them
- `order`, `strided`, `ivf`, `merge`: lists of passages by cell, built and grown
- `chunks`, `sampling`, `offsets`, `create`, `update`: the pieces of an index, and its metadata
- `score`, `search`, `pipeline`: one search from its beginning to its end
- `agreement`, `independence`: what several searches have in common
- `anchors`: training of anchors by assigning tokens to them
- `text`, `files`, `json`: names, settings and texts

`app/` is ordinary Rust around it: tensors, files, graphics devices, and the Python classes. Its
features `hnsw` and `cagra` need cuVS; all of it needs libtorch.

`tests/` runs the library on concrete values.
