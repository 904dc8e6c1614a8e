# xdvdfs

A library for building XDVDFS (Xbox DVD filesystem) images, written in Verus.
The logic in `src/` carries contracts that Verus proves; the few calls into
`std`'s host paths and into `wax` stand behind small wrappers whose contracts
are taken on trust (they are marked `#[verifier::external_body]`).

Layout:

- `src/` — the verified library:
  - `sector`, `avl`, `dirtab`, `layout`: sector arithmetic, the AVL-ordered
    directory entry tables and their on-disk bytes, the volume descriptor;
  - `path`: borrowed and owned paths, their order, and a path prefix tree;
  - `fs`: the source filesystem traits, the directory tree walk, an in-memory
    filesystem and a remapping overlay driven by glob rules (`wax`);
  - `img`: the entry tables of a tree, their placement on disk, and the writing
    of an image;
  - `sector_linear`, `linear_image`: a sparse sector device whose regions refer
    to files, and reading it back as an image;
  - `xbepatch`: the XBE header and certificate layout and the media patch;
  - `inode`: inode numbers for served filesystems;
  - `overlay_scan`: the bookkeeping of a scan of an overlay's source
    directory, which decides which provider records get an instance.

Devices (`blockdev::DeviceModel`) may describe their bytes and length, and
source filesystems their files (`fs::FileModel`) and directories
(`fs::DirModel`); the contracts of reading, writing, listing, copying,
patching and image creation speak of those descriptions where a type
provides them.

- `tests/` — tests run against the compiled library.
- `app/` — a small command-line front end (`pack`, `size`, `patch-xbe`) that
  reads host directories and image files through `std::fs`.
