# crusty_query

Query operators and the scan of a heap file, written in Verus.

- `src/` is the library. `opiterator` says what an operator is, `aggregate` groups tuples,
  `hash_join` joins them, `heapfileiter` goes through the values of a heap file. The values that
  they work on are in `field`, `decimal`, `tuple` and `bytecode_expr`, the map that both
  operators keep in `sorted_map`. `laws` states what holds of aggregations and joins as a whole.
- `app/` ties scans to files: it asks a file for its pages and hands them to the library.
- `tests/` runs the library on concrete values.

A call on an operator may be made only where all that the call computes has a value, and an
operator may be read and rewound only while it is open; the contracts ask for this with
`requires`.
