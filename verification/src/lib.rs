//! Partitioning of and-inverter graphs for bit-parallel execution, and the
//! preparation of their simulation.
//!
//! * Graphs and endpoints: [`aig`], [`staging`], [`endpoints`].
//! * Mapping endpoints to a partition: [`pe`] builds partitions from the stages
//!   that [`stage`] maps; [`boomerang`] says what a stage is, and [`stages`]
//!   what a series of them is.
//! * Merging partitions: [`merge`], as [`merge_model`] describes it.
//! * The hypergraph of endpoints: [`repcut`], as [`repcut_model`] describes it,
//!   and [`hgr`] for the files of its solver.
//! * Cutting a design and searching for the size of its parts: [`cut_map`].
//! * Figures about partitions: [`analysis`].
//! * Simulation: [`vcd`] and [`inputs`] read a dump, [`trace`] gathers the input
//!   states, [`chunks`] cuts the simulation, and [`signals`], [`names`] and
//!   [`dump`] decide what is written.
//!
//! The modules whose names end in `_laws` state what holds of all of this.
pub mod aig;
pub mod analysis;
pub mod boomerang;
pub mod call_laws;
pub mod candidate_laws;
pub mod capacity_laws;
pub mod chunk_laws;
pub mod chunks;
pub mod collections;
pub mod cone_laws;
pub mod cut_laws;
pub mod cut_map;
pub mod decimal;
pub mod distances;
pub mod dump;
pub mod edge_laws;
pub mod endpoints;
pub mod figure_laws;
pub mod hgr;
pub mod input_laws;
pub mod inputs;
pub mod layout;
pub mod level_laws;
pub mod mapping;
pub mod merge;
pub mod merge_laws;
pub mod merge_model;
pub mod name_laws;
pub mod names;
pub mod output_laws;
pub mod parallel;
pub mod partition_laws;
pub mod pe;
pub mod plan;
pub mod policy_laws;
pub mod random;
pub mod refusal_laws;
pub mod repcut;
pub mod repcut_laws;
pub mod repcut_model;
pub mod result_laws;
pub mod segments;
pub mod seqs;
pub mod sharing_laws;
pub mod signal_laws;
pub mod signals;
pub mod sorts;
pub mod soundness;
pub mod stage;
pub mod stage_laws;
pub mod stages;
pub mod staging;
pub mod text_laws;
pub mod trace;
pub mod trace_laws;
pub mod vcd;
pub mod words;
pub mod writing_laws;
