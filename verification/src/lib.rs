//! Transparent bridge between a mail relay and agent webhook endpoints.

pub mod acme;
pub mod admin;
pub mod cli;
pub mod config;
pub mod headers;
pub mod health;
pub mod ip;
pub mod json;
pub mod pull;
pub mod push;
pub mod router;
pub mod security;
pub mod text;
pub mod vhost;
pub mod webhook;
