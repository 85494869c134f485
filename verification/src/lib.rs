//! Verified core of a small Arch Linux package mirror: the buffered package
//! downloader, the client bookkeeping of the HTTP server, the pieces of the
//! file-serving route and the package-database helpers.
pub mod byte_buf;
pub mod db;
pub mod download;
pub mod server;
pub mod server_v2;
