# coalescing_store

Range reads over an object store that join nearby byte ranges into one fetch and slice the result
back to the ranges asked for. The library is written in Verus and proved.

- `src/store.rs`: the store and its `get_ranges`.
- `src/ranges.rs`: which ranges are fetched, and the laws about them: what is sliced out is what
  was asked for, neighbours share a fetch, contiguous ranges take one in whatever
  order, a wider gap takes no more.
- `src/fetch.rs`: the calls into `object_store`, with what is claimed of them.
- `src/text.rs`: numbers and white space in text.
- `src/file_util.rs`: paths and files for test data.
- `src/disk.rs`: what the making of such a file does to a disk, by the path rules of Unix.
- `app/`: the `ObjectStore` implementation, the environment and the file system.
