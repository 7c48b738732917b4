# pstree

A `pstree` for macOS: reads the process table with `sysctl(KERN_PROC_ALL)`,
builds the parent/child forest, selects the branches asked for and draws them
as an indented tree.

```
pstree-rs [-w] [--ascii] [-p pid] [-u user] [-l depth] [pid]
```

Layout:

- `src/` — the library, verified with Verus:
  - `args.rs`: command-line parsing;
  - `process.rs`: decoding `kinfo_proc` records, the fetch-retry decisions,
    and building the forest (`build_tree`);
  - `filter.rs`: which pids are visible (`visible_pids`);
  - `render.rs`: drawing the tree (`render`);
  - `bounded.rs`: deciding that the walks down the tree come to an end;
  - `term.rs`: the output width;
  - `text.rs`: decimal text of numbers, both ways.
- `app/` — the program: system calls (`sysctl`, `ioctl`, `getpwnam`) and
  printing.
- `tests/` — tests of the library.
