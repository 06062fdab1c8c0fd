# content_mapp_rs

For every file under a directory, finds the files whose contents are most
similar to it, by the normalized compression distance
`NCD(x, y) = (C(xy) - min(C(x), C(y))) / max(C(x), C(y))`, where `C` is the
length of the zlib-compressed contents.

- `src/` is the library, verified with Verus:
  - `paths.rs`: path comparison (as `std::path::Path` compares) and path-keyed lookups;
  - `ncd.rs`: the distance as an exact fraction, the search for the distances from one
    file to the others (with and without a cache of compressed lengths), and the stable
    ranking that keeps the `n` nearest;
  - `ncd_laws.rs`: the order on distances and what the ranking guarantees;
  - `cache.rs`: the compressed-length cache and the cache of nearest files;
  - `cache_laws.rs`: searching through an agreeing cache gives what searching without it gives;
  - `file_walk.rs`: which walked entries are files to compare, which files changed;
  - `indexer.rs`: the index of a directory.
- `app/` is the command-line program (`print` and `serve`): it walks the directory,
  reads the files, keeps the caches on disk and serves the results as JSON.
- `tests/` runs the library on concrete inputs.
