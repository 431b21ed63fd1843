//! The verified core of DB-Strike: wire protocol, reducers, replicated counters,
//! agent memory, retrieval, cache debugging and accelerator planning.
pub mod agent;
pub mod bench_checks;
pub mod bench_demands;
pub mod bench_plan;
pub mod bench_report;
pub mod chat;
pub mod coalesce;
pub mod codec;
pub mod corpus_tier;
pub mod crdt;
pub mod dashboard;
pub mod dataset;
pub mod drain;
pub mod edges;
pub mod engine;
pub mod gpu_batched;
pub mod gpu_index;
pub mod gpu_launch;
pub mod gpu_mode;
pub mod gpu_plan;
pub mod gpu_search;
pub mod graph;
pub mod hlc;
pub mod knn;
pub mod knn_build;
pub mod knn_refine;
pub mod knn_seed;
pub mod kv_prune;
pub mod layout;
pub mod maps;
pub mod memory;
pub mod memory_keys;
pub mod memory_laws;
pub mod memtrack;
pub mod mitm;
pub mod options;
pub mod opusedge;
pub mod order;
pub mod precision;
pub mod rag;
pub mod rates;
pub mod ratios;
pub mod reactive;
pub mod recall;
pub mod reducer;
pub mod reply;
pub mod reply_laws;
pub mod resp;
pub mod resp_laws;
pub mod rounding;
pub mod router;
pub mod scan;
pub mod stats;
pub mod store;
pub mod text;
pub mod tiered;
pub mod tokens;
pub mod truth;
pub mod vm;
pub mod vugva;
pub mod wire;
pub mod words;
pub mod workload;
