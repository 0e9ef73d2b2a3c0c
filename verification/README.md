# restora

Deleted-file recovery and free-space erasure for disk images and raw
disks, as a library whose behaviour is stated in contracts and proved.

- `src/` — the library: byte sources, FAT32 (boot sector, directory
  entries, FAT chains, recursive directory walk, free space) and NTFS
  (boot sector, fixups, data runs, MFT records, `$Bitmap`, recovery
  through fragmented run lists) parsers, signature carving, wipe patterns,
  and the scan, recovery and wipe jobs.
- `tests/` — the library's tests; the FAT32 and NTFS volumes they use are
  built in memory by the tests themselves.
- `app/` — the command-line program and everything that touches the
  operating system: file and raw-disk sources, the SQLite session store,
  writing recovered files.

The NTFS parser remembers which MFT record each deleted name came from,
for recovering a file by name later. That index is a vector of
`(name, record)` pairs rather than a `HashMap<String, u64>`: Verus
accepts calls on a std map keyed by `String`, but proves nothing of what
such a map holds, so the index is kept as a vector whose lookups and
insertions have exact contracts.
