# backend_fight

Fraud scoring by nearest-neighbour vote over quantized reference vectors.
A transaction is turned into a 14-feature vector, quantized, and compared
with the reference vectors of its partition (channel and merchant-category
risk); it is approved when fewer than half of its five neighbours are frauds.

## Layout

- `src/` — the verified library (Verus):
  - `date.rs` — reading the fields of `YYYY-MM-DDTHH:MM:SSZ` timestamps,
    weekday and elapsed minutes;
  - `partition.rs` — partition names and positions;
  - `vectors.rs` — squared distances, probe order of IVF clusters,
    full-scan and IVF neighbour searches, vector-file decoding;
  - `ivf_format.rs` — the per-partition IVF file: decoding and encoding,
    with their round trip;
  - `service.rs` — the five nearest neighbours of a query in a partition,
    their fraud votes and the approval rule;
  - `knn.rs` — counting frauds among the `k` nearest of gathered cluster
    records;
  - `lsh.rs` — gathering candidates from LSH hash tables and keeping the
    nearest;
  - `indexing.rs` — assigning vectors to their nearest centroid, label codes;
  - `index_files.rs` — the cluster and coarse index files.
- `tests/` — tests of the library on concrete values.
- `app/` — the HTTP service and the index-building tools: I/O, JSON, the
  floating-point feature extraction and k-means, all around the library.
