//! A verified BGP monitoring engine core: BMP message construction, route
//! aggregation, EVPN and FlowSpec handling, MRT import and the routing
//! information base that ties them together.
pub mod aggregator;
pub mod aggregator_laws;
pub mod api;
pub mod api_laws;
pub mod attrs;
pub mod bmp_builder;
pub mod client;
pub mod client_dump;
pub mod count_laws;
pub mod dump;
pub mod dump_laws;
pub mod emit;
pub mod evpn;
pub mod evpn_laws;
pub mod evpn_rows;
pub mod explode;
pub mod explode_laws;
pub mod filter;
pub mod flowspec;
pub mod flowspec_query;
pub mod full_dump;
pub mod import_laws;
pub mod ingress;
pub mod jsonl;
pub mod jsonl_laws;
pub mod labelled;
pub mod lifecycle_laws;
pub mod live_laws;
pub mod memory;
pub mod memory_laws;
pub mod mrt_attrs;
pub mod mrt_file;
pub mod mrt_format;
pub mod mrt_import;
pub mod mrt_laws;
pub mod mrt_preflight;
pub mod mrt_reading;
pub mod mrt_source;
pub mod open_laws;
pub mod packing;
pub mod pamap;
pub mod peer_laws;
pub mod peer_stats;
pub mod query;
pub mod query_laws;
pub mod raw_store;
pub mod register;
pub mod rib;
pub mod rib_gc;
pub mod rib_laws;
pub mod rib_lifecycle;
pub mod rib_query;
pub mod route;
pub mod rule_laws;
pub mod search;
pub mod store;
pub mod table;
pub mod text;
pub mod text_laws;
pub mod types;
pub mod update_laws;
pub mod validation;
pub mod value_laws;
pub mod wire;
