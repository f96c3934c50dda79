//! Nomad Network page and file hosting for Reticulum.
//!
//! The library decides; it performs no I/O. What has to be read, written, listed
//! or sent is named as a request, and the host's reply is handed back.

pub mod announce;
pub mod api_laws;
pub mod budget;
pub mod components;
pub mod content_laws;
pub mod decimal;
pub mod disk;
pub mod error;
pub mod field_map;
pub mod fs;
pub mod listing;
pub mod listing_laws;
pub mod micron;
pub mod names;
pub mod node;
pub mod order;
pub mod paths;
pub mod rebuild;
pub mod reload_laws;
pub mod request;
pub mod resolve;
pub mod resolve_laws;
pub mod route_laws;
pub mod routes;
pub mod serve_laws;
pub mod spawn;
pub mod spawn_laws;
pub mod spelling;
pub mod stats;
pub mod storage;
pub mod store_laws;
pub mod store_task;
pub mod text;
pub mod tree_laws;

pub use announce::build_nomad_announce_packet;
pub use announce::MAX_ANNOUNCE_NAME_BYTES;
pub use error::NomadError;
pub use listing::NomadPageEntry;
pub use listing::MAX_LISTED_ENTRIES;
pub use micron::default_index_page;
pub use micron::not_found_page;
pub use micron::sanitize_micron_text;
pub use node::NomadNode;
pub use node::NomadNodeConfig;
pub use paths::is_hidden_or_allowlist_name;
pub use paths::normalize_file_route;
pub use paths::normalize_page_route;
pub use paths::path_hash;
pub use paths::strip_file_prefix;
pub use paths::strip_page_prefix;
pub use paths::validate_content_relative_path;
pub use paths::DEFAULT_INDEX_ROUTE;
pub use paths::FILE_PREFIX;
pub use paths::MAX_PATH_COMPONENTS;
pub use paths::NOMAD_NODE_ASPECT;
pub use paths::PAGE_PREFIX;
pub use request::decode_request_fields;
pub use request::NomadRequestFields;
pub use request::MAX_REQUEST_BODY_BYTES;
pub use request::MAX_REQUEST_FIELDS;
pub use resolve::resolve_under_root;
pub use stats::NomadServeStats;
pub use storage::NomadContentRoots;
pub use storage::NomadContentStore;
pub use storage::DEFAULT_MAX_FILE_BYTES;
pub use storage::DEFAULT_MAX_PAGE_BYTES;
