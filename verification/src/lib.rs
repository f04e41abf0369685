//! Verified core of llm-conduit, an OpenAI-compatible model gateway.
//!
//! The gateway authenticates a caller, routes its request by model to an upstream, swaps the
//! caller's key for the upstream's, and logs one line per request. Everything it decides on the
//! way is here; reading from and writing to the network is left to the program around it.
//!
//! - [`text`], [`table`], [`address`]: texts, tables of names, listen addresses.
//! - [`json`], [`fields`]: JSON documents, and objects that are read field by field.
//! - [`headers`], [`uri`]: HTTP header fields and URIs.
//! - [`config`], [`cli`], [`tls`], [`error`]: settings, certificates and failures.
//! - [`auth`], [`json_model`], [`usage`], [`proxy`]: the steps of a request.
//! - [`gateway`]: the order of the steps.
//! - [`health`], [`observe`]: probing upstreams, request IDs and the request log.

pub mod address;
pub mod auth;
pub mod cli;
pub mod config;
pub mod error;
pub mod fields;
pub mod gateway;
pub mod headers;
pub mod health;
pub mod json;
pub mod json_model;
pub mod observe;
pub mod proxy;
pub mod table;
pub mod text;
pub mod tls;
pub mod uri;
pub mod usage;
