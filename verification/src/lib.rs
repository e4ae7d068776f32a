//! Decision core of the event store server.
//!
//! Everything the server decides -- which configuration it accepts, where a
//! stream lives, in which order events of several shards are merged, which
//! deliveries a consumer group gets, how a reply maps to a status code -- is a
//! function of plain values in this crate.  Sockets, files, timers and the
//! consensus engine stay outside and hand their outcomes in.

pub mod aggregate_admission;
pub mod aggregate_consume;
pub mod aggregate_delivery;
pub mod aggregate_follow;
pub mod aggregate_group_start;
pub mod aggregate_groups;
pub mod aggregate_listing;
pub mod aggregate_registration;
pub mod aggregate_service;
pub mod aggregate_states;
pub mod aggregate_tokens;
pub mod aggregate_types;
pub mod append;
pub mod args;
pub mod attempts;
pub mod backlog;
pub mod bootstrap;
pub mod config;
pub mod endpoint;
pub mod event;
pub mod factory;
pub mod first_append;
pub mod ids;
pub mod maps;
pub mod merge;
pub mod migration_service;
pub mod order;
pub mod ownership;
pub mod persistent_fetch;
pub mod persistent_flow;
pub mod persistent_group;
pub mod persistent_laws;
pub mod persistent_service;
pub mod read;
pub mod route_table;
pub mod rpc_support;
pub mod server;
pub mod service;
pub mod status;
pub mod subscription;
pub mod text;
pub mod versions;
pub mod watcher;
