//! Reading Yin-Yang puzzle boards off images: the board model and its rule, the bookkeeping of
//! the clustering that sorts cells into classes, and the choice of colours for the classes.

mod analysis;
mod error;
mod geom;
mod grid;
pub mod math;
pub mod signal;

pub use analysis::{
    analyze_puzzle, candidate_board, cell_of, class_has_member, classes_cover, distances_follow, is_distance, lemma_set_follows_centroids,
    lemma_swap_follows_centroids, colors, decimal,
    digit_char, has_finite_pair, is_closest_pair, is_square, is_symmetric, known_classes,
    lemma_merge_coarsens, lemma_merge_keeps_cover, lemma_swap_twice, lemma_symmetry_kept,
    mapped_cells, merged_class, no_valid_assignment_message, pair_in, precedes,
    reshape_message, singleton_classes, swap_index, swapped, truncated, unknown_class_message,
    with_distances, AnalyzeCells, AnalyzeGridBounds, AnalyzePuzzle, CentroidSet, MergeStep, INFINITE_DISTANCE_KEY,
};
pub use error::{AnalyzeError, AnalyzeResult};
pub use geom::{Point, Rect, Size};
pub use grid::{
    ascii_render, ascii_row, block_in_board, board_of, cell_char, glyph, lemma_no_solid_block_iff, lemma_walk_stays_finished, lemma_board_of_shape, no_solid_block, render, render_row,
    solid_block, step_in_range, subgrids_step, well_shaped, Cell, Grid, Subgrid, Subgrids,
};
