//! Mailman, an offline API client: requests and environments, how they are resolved, sent,
//! imported, shared and stored, and what every action does to the workspace.
//!
//! The modules build on each other:
//!
//! - text and data: `text`, `table`, `json`, `bytes`, `models`, `defaults`, `sorting`
//! - requests: `placeholders`, `urls`, `request_body`, `http`, `folders`, `merge`
//! - what Postman leaves behind: `postman`, `postman_export`, `postman_cache`, `scan`, `discovery`
//! - what is stored and shared: `security`, `storage`, `bundles`
//! - the workspace: `workspace`, `tabs`, `requests`, `responses`, `import`, `session`, `listing`,
//!   `display`, `editor`
//!
//! Files, the network and the screen are left to the program around the library: it hands in what
//! was read and carries out what comes back.

pub mod bundles;
pub mod bytes;
pub mod defaults;
pub mod discovery;
pub mod display;
pub mod editor;
pub mod folders;
pub mod http;
pub mod import;
pub mod json;
pub mod listing;
pub mod merge;
pub mod models;
pub mod placeholders;
pub mod postman;
pub mod postman_cache;
pub mod postman_export;
pub mod request_body;
pub mod requests;
pub mod responses;
pub mod scan;
pub mod security;
pub mod session;
pub mod sorting;
pub mod storage;
pub mod table;
pub mod tabs;
pub mod text;
pub mod urls;
pub mod workspace;
