# gift

A small store of git objects and refs, with its logic verified by Verus.

- `src/` is the verified library:
  - `object.rs`: object names, tree entries and their byte format, reading object headers;
  - `tree.rs`: the entries of a tree (kept sorted by name), reading and writing tree objects;
  - `loose.rs`: blobs, loose-object files (zlib) and reading a loose tree;
  - `reference.rs`, `symbolic_ref.rs`: the text of direct and symbolic ref files, and the
    paths of ref files;
  - `paths.rs`: the path operations (`join`, components, `strip_prefix`) the refs use;
  - `ls_tree.rs`: splitting `git ls-tree` output;
  - `hexcode.rs`, `decimal.rs`, `order.rs`, `text.rs`: hex, decimal, byte order and text helpers.
- `app/` holds the program and the file-system side of reading and writing objects and refs.
- `tests/` runs the library on concrete values.
