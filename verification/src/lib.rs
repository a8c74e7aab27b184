//! Verified core of the decision-corpus engine.
pub mod text;
pub mod order;
pub mod corpus;
pub mod item;
pub mod composition;
pub mod hashing;
pub mod federation_generation;
pub mod federation;
pub mod herald;
pub mod budget;
pub mod graph_composition;
pub mod graph_topology;
pub mod graph_items;
pub mod graph_overrides;
pub mod graph_projection;
pub mod graph_composed;
pub mod commands;
pub mod federation_observability;
pub mod coverage;
pub mod index;
pub mod manifest;
pub mod manifest_yaml;
pub mod incremental;
pub mod federation_walk;
pub mod federation_graph;
pub mod derived;
pub mod derived_model;
pub mod export;
pub mod federated_corpus;
pub mod federation_capture;
