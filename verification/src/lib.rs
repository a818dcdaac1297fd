//! A content-addressed blob cache: its rules, protocols and package checks,
//! as functions on plain values.

pub mod blob;
pub mod census;
pub mod cli;
pub mod digest;
pub mod frames;
pub mod http;
pub mod ice;
pub mod json;
pub mod layout;
pub mod mesh;
pub mod order;
pub mod package;
pub mod pull;
pub mod replay;
pub mod serve;
pub mod service;
pub mod signal;
pub mod sync;
pub mod text;
pub mod text_laws;
