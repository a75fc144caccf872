# horde

`SyncTable` and `SyncPushVec` keep their storage in place until no reader can see it any more. They use
quiescent state based reclamation, which is available on its own in the `collect` module. `SyncTable` is
a hash table that is probed a group of control bytes at a time.

Everything under `src/` is written in Verus: each function states what it does, and Verus proves it.

| Module | What it is |
| --- | --- |
| `raw` | bit masks, groups of control bytes, probe sequences, tables of buckets, and what a reader sees of a table that is written to |
| `contents` | what a table holds, as a map |
| `collect` | the collector, the state of a thread, and what holds of any run of them |
| `retired` | storage that has been replaced and is kept until no reader can see it |
| `sync_table`, `sync_push_vec` | the table and the vector, and what holds across their operations |
| `sync_insert_table`, `sync_insert_map` | a table and a map that elements are only added to |
| `atomic` | a table that may not have been allocated yet |
| `qsbr` | reclamation on top of the epochs of `crossbeam_epoch` |
| `intern` | ways to find the value of a key or to give it one |
| `workload` | operations made from any bytes, held to a model of what a table should contain |

The library has no global state: a table or a vector is written to together with a `Collector`, and each
thread has a `Data`. `app/` puts them behind locks and thread locals, so that threads can share them.
