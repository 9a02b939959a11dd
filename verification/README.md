# Better Image View

A keyboard-first image viewer for Linux. The library under `src/` holds what the viewer decides and
computes, with contracts that Verus proves:

- `binary64`, `rounding`, `ordering`, `decimal`: double and single precision numbers, computed
  exactly on their bits, and their decimal texts;
- `path`, `text`, `listing`: file names, and the natural order of a folder;
- `decode`, `metadata`, `frame`: what becomes of a decoded file;
- `cache`, `loader`, `viewer`: which images are kept and decoded, and which one is shown;
- `canvas`, `print`, `export`, `delete`, `input`: zooming, printing, saving, deleting, and keys.

The program under `app/` is the window around it: GTK draws and listens, libvips reads and writes
files, and cairo draws on paper. It hands plain values to the library and does what it answers.

The cache holds 512 MiB unless `BETTER_IMAGE_VIEW_CACHE_MB` says otherwise.
