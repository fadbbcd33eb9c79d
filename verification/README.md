# cold_tier

The decisions behind the metadata commits of a two-tier table, written in Verus. A table's recent
data is listed by a hot root manifest; older data is listed by the leaves of a cold bucket index.
The library says which entries move from one to the other, which leaves and manifests are rewritten
or dropped, and what each commit asks of the catalog. It reads and writes nothing itself: a caller
hands it what was read, and performs what it returns.

* `src/` is the library. Every function carries its contract, and the laws that hold across
  functions are the public proof functions named `law_*`.
* `app/` holds the asynchronous drivers: storage and catalog traits, stored sidecars, retries.
* `tests/` runs the library on concrete values.

| module | what it decides |
| --- | --- |
| `cold_paths` | whether a path may be listed in the cold tier, by a Bloom filter that is stored beside the bucket index |
| `graduate_buckets`, `fold`, `cold_move`, `fold_run` | which nodes and files are closed, and how they move into the cold tier |
| `compact_cold_tier` | which cold leaves a compaction rewrites |
| `drop_cold_buckets`, `max_ts` | which cold leaves are past retention |
| `rebalance_root_manifest`, `rebalance_run` | which manifests of a root are rewritten and which inline entries are flushed |
| `rewrite_manifests`, `rewrite_run` | how many small manifests become few large ones |
| `replace_data_files`, `row_delta` | which manifests a new snapshot keeps |
| `cluster`, `partition`, `byte_order` | how entries are parted by partition, and what a partition summary tells |
| `listing`, `standing` | which files a list of manifests holds, and what stands at a path once manifests are written |
| `transaction`, `action`, `commit`, `table` | what a commit asks for, when it is refused, and when it is tried again |

The calls into other crates stand in `outside`.
