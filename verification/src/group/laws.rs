//! What holds of the orders that the rules produce.
//!
//! The teams of a group are first all tied. Every rule that is applied, and
//! the tiebreaker at the end, only ever rearranges the teams of a subset
//! among themselves: no team is lost, none turns up twice, and a team that
//! has a place of its own keeps it.
pub mod decision;
pub mod partition;
pub mod ranking;
pub mod splitting;

pub use decision::{
    lemma_arranges_strict, lemma_decided_team_keeps_place, lemma_order_is_determined,
    lemma_place_is_final, lemma_rules_keep_place, lemma_settled_strict, lemma_step_keeps_place,
    stands_alone,
};
pub use partition::{
    is_partition, lemma_arranges_permutes, lemma_initial_regroups, lemma_order_is_complete,
    lemma_ranking_resolves, lemma_refine_step_regroups, lemma_refined_is_partition,
    lemma_refined_regroups, lemma_regroups_is_partition, offset,
};
pub use ranking::{
    lemma_drawn_permutes, lemma_drawn_single, lemma_drawn_sorted, lemma_ranks_strictly_order,
    lemma_slot, lemma_slot_splits, sorted_by, strictly_orders,
};
pub use splitting::{
    above, descending, graded, level, lemma_blocks_nonempty, lemma_drawn_later_first,
    lemma_split_by_graded, lemma_split_by_regroups, lemma_stats_are_totals, precedes,
};
