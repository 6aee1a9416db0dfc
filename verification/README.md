# valkey_timeseries

Bulk ingestion of samples into time series, verified with Verus.

- `src/` is the library. Every function states what it returns or changes; the laws that span
  several functions are the public proof functions named `law_...`.
- `tests/` runs the library, with the outside crates linked.
- `app/` is the module of the server around the library: keys, permissions, threads and replies.

| module | what it holds |
| --- | --- |
| `common`, `chunk`, `series`, `aggregators` | samples, chunks, series, running aggregations |
| `grouping`, `placement` | the samples of a batch by the chunk that each goes to, and what holds of it |
| `bulk_add`, `joining` | writing a batch, joining chunks that overlap, telling the server, compacting what was stored |
| `compaction`, `ranges` | what has to be aggregated anew, and what it comes to |
| `values`, `read_back`, `compaction_laws` | what is stored at each time, what holds of writes and of compactions |
| `ingest`, `json`, `ignore` | payloads, and samples that lie too far apart |
| `range_iterator` | range queries |
| `commands`, `madd_bulk`, `options`, `fanout`, `module`, `context` | what the server asks for, step by step |
| `binary64`, `sorting`, `parallel` | arithmetic on bits of numbers, stable sorting, work on many threads |

A value is held as the bits of a binary64 number; `binary64` computes on them, rounding to nearest,
ties to even.

What is trusted, and not proved, are the contracts of the functions marked `external_body` in
`json`, `ranges` and `parallel`. Each of them makes one call into `simd-json`, `range-set-blaze` or
`orx-parallel`.
