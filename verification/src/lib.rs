//! A k-dimensional tree over integer coordinates, with nearest-neighbour and
//! radius queries parameterised by a caller-supplied distance function.

mod geometry;
mod kdtree;
mod laws;
mod metric;
mod order;

pub use crate::geometry::{
    clamp, gap, in_box, law_clamp_is_nearest, lemma_width_shrinks, lemma_width_zero, lower_with, point_error, span,
    upper_with, width, ErrorKind,
};
pub use crate::kdtree::best::{
    best_result, none_within, picked_within, rest_not_better, within_radius,
};
pub use crate::kdtree::nearest_iter::NearestIter;
pub use crate::kdtree::nearest_iter_mut::{
    apart, lemma_settled_entries, leads_to, point_at, relabeled, settled, subtree_at, NearestIterMut,
};
pub use crate::kdtree::query::{
    all_beyond, chosen, nearest_result, no_closer_than, rest_no_closer, sorted_by_distance,
    within_result,
};
pub use crate::kdtree::{clone_of, without_point, zip_entries, KdTree, DEFAULT_CAPACITY};
pub use crate::laws::{
    law_best_answers_agree, law_best_returns_all_within, law_iterator_steps_are_nearest, law_nearest_prefix,
    law_nearest_returns_all, law_remove_idempotent, law_remove_undoes_add, law_size_tracks_history, law_steps_in_order,
    law_within_entries_nest, law_within_entries_of_nearest, law_within_is_nearest_cut, law_within_monotone, net,
};
pub use crate::metric::{
    box_bounded, deterministic, distance_to_space, distance_to_space_noalloc, lemma_box_bound,
    lemma_call_measures, lemma_measure_unique, measures, metric, total,
};
pub use crate::order::{lemma_ordered_from_laws, ordered, precedes};
