//! The logic of a URL interceptor: it takes a URL that Windows hands it, keeps a history and
//! favorites, and offers the ways the URL can be opened (browsers, protocol handlers, custom
//! apps chosen by domain and protocol rules, the Windows default handler), ranked for the URL.
//! The windows, files, registry and processes the program uses are driven from outside this
//! crate with the values it computes.

pub mod text;
pub mod sorting;
pub mod urls;
pub mod rules;
pub mod clock;
pub mod models;
pub mod windows_integration;
pub mod candidates;
pub mod storage;
pub mod opening_rules;
pub mod app;
pub mod ipc;
