//! A commit-first graph, and the rebase step graphs that are built from it.

pub mod approach_laws;
pub mod arrangement;
pub mod arrangement_laws;
pub mod canonical;
pub mod canonical_laws;
pub mod collections;
pub mod commit;
pub mod commit_graph;
pub mod commit_graph_laws;
pub mod created_laws;
pub mod created_stack_laws;
pub mod creation;
pub mod creation_laws;
pub mod derivation;
pub mod derivation_laws;
pub mod edge_laws;
pub mod editor_graph;
pub mod form_laws;
pub mod generation_laws;
pub mod generations;
pub mod graph_diff;
pub mod lane_laws;
pub mod lanes;
pub mod ledger_laws;
pub mod leg_laws;
pub mod materialize;
pub mod materialize_laws;
pub mod names;
pub mod native_creation;
pub mod native_laws;
pub mod order;
pub mod outcome_laws;
pub mod placement_laws;
pub mod placements;
pub mod position_checks;
pub mod position_laws;
pub mod positions;
pub mod reach;
pub mod read_back_laws;
pub mod reading_laws;
pub mod report_laws;
pub mod reports;
pub mod run_laws;
pub mod segment_graph;
pub mod segment_laws;
pub mod seqs;
pub mod slot_laws;
pub mod stack_move_laws;
pub mod stacking_laws;
pub mod stacks;
pub mod step;
pub mod step_builder;
pub mod step_graph;
pub mod step_graph_laws;
pub mod step_walk_laws;
pub mod text;
