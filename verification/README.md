# disk_ui

What takes up the room on a disk: the logic of the DiskForge disk analyzer, written in Verus. Every public
function of the library states in its contract what it computes, and Verus proves it.

## What the library does

- reads the records of an NTFS master file table, and makes a tree of a whole volume out of them (`mft_parse`,
  `mft_scan`, `mft_tree`);
- puts together the tree of a scan in which several threads list directories (`scan`, `scan_start`, `seen`, `dir_enum`);
- keeps trees of files and folders whose sizes and counts add up, and folds, sorts, expands and prunes them (`model`,
  `edit`, `order`, `worklist`, `walk`);
- finds files with the same content, and sorts files by kind and extension (`digest`, `dedup`, `duplicates`,
  `categorize`, `tables`);
- writes sizes, dates, shares and tables of comma-separated values (`format`, `decimals`, `calendar`, `text`, `export`);
- decides what the screens show and what a click does, what happens to the pages of the window, and in which order disks
  are scanned (`ui`, `tabs`, `session`, `messages`);
- decides how to delete, how often to try again, and how to find out who holds a file (`file_ops`);
- frames what goes to and comes from the system (`wide`, `disk_info`, `owners`, `applog`, `fonts`, `mft_verify`).

Properties that relate several functions are stated as proof functions whose names begin with `law_`.

## What is trusted

A few functions of other crates and of the standard library are taken at their word: BLAKE3's hashes, the concurrent set
of `dashmap`, the shuffle of `rand`, and the decoding and case mapping of text. Each stands behind a small function or
declaration whose comment says what is taken for granted.

## Layout

- `src/` is the verified library.
- `tests/` runs it.
- `app/` is the program around it: the window drawn with egui, the threads, the files and the Windows system calls.
