# yin-yang-extractor

Reads Yin-Yang puzzle boards off photographs or screenshots.

- `src/` is the verified library (Verus):
  - `grid.rs`: the board (`Grid`, `Cell`), its 2x2 windows (`Subgrid`, `Subgrids`), the
    Yin-Yang block rule (`is_valid`) and the text rendering of a board;
  - `analysis/cells.rs`: the bookkeeping of the clustering that sorts cells into three
    classes (`CentroidSet`: the distance matrix, the search for the closest pair, the merge of
    two classes);
  - `analysis/puzzle.rs`: reading the board off the classes (`analyze_puzzle`);
  - `signal.rs` (also reachable as `math`): samplers that read a signal at any position;
  - `geom.rs`, `error.rs`: points, sizes, rectangles and the error type.
- `app/` is the command-line program and the image analyses, whose arithmetic is in floating
  point: the reduction of the image along each axis, the grid pitch and bounds, the cell
  pixels and centroids, and the image and URL output.
- `tests/` runs the library on concrete boards and classes.
