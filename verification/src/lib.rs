//! Verified analysis core of rgctl: control-flow graphs, dominance, reachability,
//! community labelling, calendar policies and graph metrics over plain integer graphs.

pub mod alias;
pub mod analysis_pack;
pub mod ast_skeleton;
pub mod bits;
pub mod blast_engine_snapshot;
pub mod blast_radius;
pub mod blast_radius_scc;
pub mod blast_slice_handoff;
pub mod calendar_policy;
pub mod callgraph;
pub mod centrality;
pub mod centrality_approx;
pub mod cfg;
pub mod cfg_builder;
pub mod cfg_dot;
pub mod cfg_pdg_archive;
pub mod closure;
pub mod community;
pub mod community_label;
pub mod community_query;
pub mod complexity;
pub mod cpg;
pub mod cpg_export;
pub mod dataflow;
pub mod def_use;
pub mod dependency;
pub mod dominance;
pub mod dominator_sets;
pub mod paths;
pub mod syntax_tree;
pub mod text;
