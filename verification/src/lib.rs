//! The verified core of a two-tier table commit protocol: building, graduating,
//! compacting, retiring and rewriting the manifests that a table snapshot is made of.

pub mod action;
pub mod byte_order;
pub mod cluster;
pub mod cold_move;
pub mod cold_paths;
pub mod commit;
pub mod compact_cold_tier;
pub mod drop_cold_buckets;
pub mod error;
pub mod fold;
pub mod fold_run;
pub mod fraction;
pub mod graduate_buckets;
pub mod listing;
pub mod manifest;
pub mod max_ts;
pub mod metadata_actions;
pub mod order;
pub mod outside;
pub mod partition;
pub mod path_set;
pub mod rebalance_root_manifest;
pub mod rebalance_run;
pub mod replace_data_files;
pub mod rewrite_manifests;
pub mod rewrite_run;
pub mod row_delta;
pub mod seqs;
pub mod standing;
pub mod table;
pub mod text;
pub mod transaction;
