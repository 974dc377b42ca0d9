# lab2

Two small Unix directory tools with their decisions proved correct in Verus.

- `cwd [--root DIR] [--work DIR]` optionally changes root and working
  directory, then prints the working directory's path found by climbing `..`
  links: at each level it looks in the parent for the entry that is the
  directory at hand. The path is printed as each name followed by `/`.
- `tree [-L] [-M] [-B] [-O] DIR` prints the tree below `DIR`, two spaces of
  indent per level, marking with `(loop)` a directory that one of its
  ancestors already is. `-L` follows symbolic links, `-B` changes root to `/`
  and the working directory to `DIR` first, `-O` shows each inode once; `-M`
  is read and not used.

Layout:

- `src/` is the verified library: argument reading (`cwd_args`, `tree_args`),
  the mode test (`mode`), C string bytes (`cstring`), the search for the
  working directory (`cwd`) and the directory walk (`walk`) as state machines
  that take events and return actions, and the tree with its display (`tree`).
  `walk_laws` proves what every step of the walk keeps.
  `sys` reads the few `libc` constants that the decisions depend on; their
  stated values are those of Linux on x86_64, the one target this crate is
  built and proved for (other Linux targets give `O_DIRECTORY`,
  `O_NOFOLLOW` or `ELOOP` other values).
- `app/` makes the system calls: it feeds what they return to the state
  machines and does what the machines ask.
- `tests/` runs the library on concrete values.
