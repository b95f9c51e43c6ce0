# wsearch

The verified core of a desktop file-search tool. The index holds every
file of the disks, ordered by lowercase name, with a map from each path to
its position; searches find prefix matches by binary search, then
substring matches, then (optionally) fuzzy matches, and rank the results
by how often each file was opened.

- `src/` is the library, written and proved with Verus:
  `text` (byte-wise string order and matching), `sort` (a merge sort over
  any total preorder), `order` (the orders used), `fuzzy` (fuzzy scoring),
  `search` (the search itself), `index` (building and updating the index
  and its path map), `scan` (what a disk walk or a change notification
  adds), `cache` (the gzip framing of the cache file and the periodic
  clean-up), `icon` (icon data URIs and cache keys), `png` (writing a captured bitmap as a PNG file), `shell` (paths handed
  to the Windows shell), `watch` (decisions of the file watcher).
- `app/` is the Tauri application around it: the windows, the commands,
  the threads, the disk walks, the notifications and the Windows API calls.
- `tests/` exercise the library on concrete values.
