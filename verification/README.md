# cstack_db

A small single-table database: rows of an id, a username and an email, kept in a B-tree of
4096-byte pages in one file, with a shell that takes `insert <id> <username> <email>`,
`select`, `.btree`, `.constants` and `.exit`.

The library in `src/` is verified with Verus:

- `bytes`, `constants`, `row`: the big-endian row encoding and its round trip;
- `node`: the byte layout of leaf and internal nodes, each accessor specified over the page
  bytes;
- `table`: the page store (`Pager`), well-formedness of the tree (`tree_usable`), insertion into
  leaves, leaf and internal node splits, root creation, flushing and the printed tree;
- `cursor`: binary search in leaves and internal nodes, descent from the root, and stepping
  along the leaf chain;
- `vm`: parsing of statements and meta commands, and running inserts and selects;
- `laws`: properties across operations. For every usable tree: an insertion stores the row
  and loses no row, cuts no subtree off, and a key already held by the sorted leaf that the
  search reaches is refused as a duplicate; writing the pages a flush returns and reopening
  the file gives back every page that had been brought in, and leaves the rest of the file
  as it was. For every tree in key order (`keys_in_order`), the search for a key that some
  leaf holds stops at its cell; for every table whose leaves are linked in key order, a
  select gives rows in strictly increasing key order. For a table whose root is a single
  leaf: the leaf stays sorted after an insertion, an inserted row is found again, and a
  select gives every row, in key order. An insertion does not keep key order in general: an
  internal node's largest key is taken from its last key, not from its right child.
- `chain`: tables of at most one internal level (`rows_chained_in_order`: the root a leaf, or
  an internal root with ascending keys over leaves that are sorted, bounded by the root's keys
  and linked from the first to the last, and are all the other pages in use). A table opened
  on an empty file has this shape; a successful insertion keeps it as long as no internal page
  is split (the root is a leaf, or at most one page is added); such a table is in key order
  from the root, no key is held twice, a select gives the row of every cell of every leaf,
  each once, in strictly increasing key order, and the search for an inserted id stops at the
  cell that holds the inserted row.
- Splits and insertions fail only when the pages they need are not free (`pages_to_add`,
  `pages_to_split_leaf`).

`tree_usable` states that every page in use is a usable node (its kind, its root flag, a parent
that is an internal page in use, cell and key counts in range, child and next-leaf pointers to
pages in use); it does not state an ordering of keys across pages.

`app/` is the shell: reading the database file, the prompt, printing, and writing flushed pages
back to the file.
