# rattler_vfs

Mounts a conda environment described by a pixi lock file as a read-only
virtual filesystem. Files are served straight from the package cache; the
prefix placeholder recorded for a file is replaced by the mount point while
the file is read (text files get shorter, binary files keep their length and
pad the NUL-terminated strings that held a placeholder).

Layout:

- `src/` — the library, verified with Verus:
  - `search.rs`: occurrences of a byte string (backed by `memchr`);
  - `metadata.rs`: the entries of the environment (directories and files);
  - `environment.rs`: building the entry tree from the packages' paths;
  - `prefix_replacement.rs`: text and binary placeholder replacement on reads;
  - `replacement_laws.rs`: properties of the replacement as a whole;
  - `virtual_fs_core.rs`: lookup, listing, attributes, handles and reads;
  - `mount.rs`: the mount backends and the command-line arguments.
- `app/` — the program around it: argument parsing, reading the lock file and
  the package cache, memory-mapping files, and the NFS server.
- `tests/` — tests of the library.
