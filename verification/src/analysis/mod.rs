mod cells;
mod grid_bounds;
mod puzzle;

pub use cells::{
    class_has_member, classes_cover, distances_follow, is_distance, lemma_set_follows_centroids,
    lemma_swap_follows_centroids, has_finite_pair, is_closest_pair, is_square, is_symmetric,
    lemma_merge_coarsens, lemma_merge_keeps_cover, lemma_swap_twice, lemma_symmetry_kept,
    merged_class, pair_in, precedes, singleton_classes, swap_index, swapped,
    truncated, with_distances, CentroidSet, MergeStep, INFINITE_DISTANCE_KEY,
};
pub use grid_bounds::AnalyzeGridBounds;
pub use puzzle::{
    analyze_puzzle, candidate_board, cell_of, colors, decimal, digit_char, known_classes,
    mapped_cells, no_valid_assignment_message, reshape_message, unknown_class_message,
    AnalyzeCells, AnalyzePuzzle,
};
