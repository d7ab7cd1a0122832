# mmcompare

An image comparison viewer: drop images or folders onto the window, see up
to eight images side by side, compare two folders entry by entry, rotate
images, select a region to read its average colour.

The crate is split in two:

- `src/` is the library, verified with Verus. It holds the grid state
  (image and folder cells, opening, closing, removing, navigating), the
  folder manager's load and scan bookkeeping, the keyboard rules, path
  filtering and ordering (exact for paths whose file name is the same on
  every platform, such as `dir/sub/name.ext`; for others the platform's
  `std::path` rules decide), image decoding front-ends over `image` and
  `jpeg-decoder`, and the pixel operations (rotation, luma histogram, region
  sums). Every public function states what it does in `requires`/`ensures`,
  and the library's laws are public proof functions.
- `app/` is the egui program around it: threads, file system access, drag and
  drop, drawing, and the floating-point view parameters (zoom, pan, selection
  rectangles, colour statistics).

`tests/` exercises the library on concrete values.
