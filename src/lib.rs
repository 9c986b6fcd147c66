//! Offline precomputation of a hierarchical pathfinding index over a tiled,
//! multi-plane world: movement rules, bounded clustering, entrances,
//! intra/inter edges, teleport links, jump-point data and stage sequencing.

pub mod neighbor_policy;
pub mod grid;
pub mod passability;
pub mod tile_order;
pub mod cluster_builder;
pub mod path_blob;
pub mod models;
pub mod owner_map;
pub mod entrance_discovery;
pub mod inter_connector;
pub mod config;
pub mod jps_accelerator;
pub mod tile_set;
pub mod intra_connector;
pub mod intra_trimmer;
pub mod teleport_connector;
pub mod executor;
pub mod cli;
pub mod walk_data;
