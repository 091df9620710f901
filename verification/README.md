# aygrep

Indexed code search over a sparse n-gram inverted index, with its logic
verified by Verus.

Every file of a repository is cut into keys: its three-byte windows and its
*sparse n-grams*, byte ranges between peaks of a byte-pair weight table, each
hashed to 24 bits. The index maps each key to the ascending list of files that
hold it. A query is cut the same way; the lists of its keys are intersected, and
only the files left are scanned for the pattern.

## Layout

- `src/` the verified library
  - `hash`, `freq`, `bitset`: key hashing, byte-pair weights, the set of seen keys
  - `ngram`: pair weights, boundaries and the ranges between them
  - `index`: the keys of a file, and the inverted index built from all files' keys
  - `postings`, `lookup`, `content`, `files`: the on-disk formats, each with a
    read-back law
  - `search`, `query`, `intersect`, `select`: looking keys up, planning a query,
    intersecting posting lists and choosing which lists to fetch
  - `coverage`: the laws that an index, and a search over it, have no false
    negatives
  - `scan`, `paths`, `meminfo`, `meta`: scanning candidates, choosing the files to
    index, and reading the memory report and the index metadata
- `tests/` tests of the library on concrete values
- `app/` the `ayg` command: git, file and memory-map I/O, timing and output
