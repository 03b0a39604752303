//! Core engine of a local API-testing tool: an in-memory persistent store for
//! workspaces, request history and tabs with a derived full-text search index,
//! a registry of in-flight HTTP requests that routes cancellation signals, and
//! the pure request-construction pipeline of the HTTP executor.
pub mod http;
pub mod laws;
pub mod model;
pub mod outside;
pub mod registry;
pub mod store;
pub mod text;

