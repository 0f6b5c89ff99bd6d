# mf4_rs

A reader for ASAM MDF 4 measurement files, verified with Verus.

- `src/blocks`: the blocks that a file is made of, each parsed from bytes.
- `src/parsing`: following the links between blocks: chains of data blocks (plain, listed,
  compressed), records and the values in them, values of variable length, the tree of groups.
- `src/api`: files, channel groups and channels; reading one channel by name, or several in
  one pass, and how the two relate (`agreement`).
- `src/block_layout.rs`: the list of all blocks that a file's header leads to.
- `app`: opening files on disk, and physical values as floating-point numbers.

Contracts state the outcome of every read, success or error, as a function of the bytes of
the file. Numbers are handed out as they are stored, together with the scaling that makes
them physical.
