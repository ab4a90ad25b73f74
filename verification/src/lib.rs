//! Local-network file transfer and clipboard sync: the rules behind the servers and apps.

pub mod adb;
pub mod auth;
pub mod base64;
pub mod bytes;
pub mod clips;
pub mod crc;
pub mod display;
pub mod download;
pub mod events;
pub mod fast_client;
pub mod fast_server;
pub mod fast_wire;
pub mod http_client;
pub mod image_clip;
pub mod json;
pub mod link;
pub mod listing;
pub mod num;
pub mod panel;
pub mod paths;
pub mod pins;
pub mod png;
pub mod qr;
pub mod reply;
pub mod routes;
pub mod server_info;
pub mod session;
pub mod sse;
pub mod stats;
pub mod status_json;
pub mod sync;
pub mod text;
pub mod tls;
pub mod upload;
pub mod url;
pub mod zip;
