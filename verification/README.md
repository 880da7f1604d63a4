# webgen-files

The logic of WebGen Files, a GTK4/libadwaita file manager for the WebGen desktop, as a verified
library, with the program around it.

- `src/` is the library. Each public function states what it returns in its `ensures`, over
  `Seq`, `Map` and the spec functions beside it, and is proved against that. The modules:
  `entry` (rows of the file list, their order, sizes, copy names, recursive search), `meta`
  (the Info dialog), `assoc` (the shared "Opens With" table), `mounts` (saved network
  mounts and their commands), `places` (what `/proc/mounts` says is mounted), `blockdev`
  (volumes from `lsblk`), `sidebar` and `actions` (what the sidebar and the file list's
  actions decide), `nav` (Back/Forward history), and the helpers `text`, `sizes`, `sort`
  and `registry`.
- `app/` is the program: the window, the dialogs, reading folders, running `mount`, `sudo -n`,
  `lsblk` and `webgen-vault`. It hands plain values to the library and shows what comes back.
- `tests/` exercises the library on concrete values.
