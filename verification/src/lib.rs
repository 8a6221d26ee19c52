//! A content-filtering engine: filter-list text is compiled into network and
//! cosmetic rules, and the engine answers whether a request is blocked and
//! which cosmetic resources apply to a page.
//!
//! Text is handled as bytes throughout. The pieces, from the leaves up:
//!
//! - `text`: byte-string helpers;
//! - `url`: absolute URLs, hosts and registrable domains;
//! - `pattern`: network-rule patterns and how they match a URL;
//! - `regex`: regular-expression patterns, in a reduced grammar;
//! - `request`: the request that a query describes;
//! - `rule`: parsed rules and what they demand;
//! - `parser`: the grammar of filter-list lines;
//! - `index`: network rules bucketed by a literal key;
//! - `network`: the network matcher and its precedence rules;
//! - `cosmetic`: cosmetic rules bucketed by site, and the resolver;
//! - `engine`: the rule accumulator and the engine;
//! - `boundary`: the operations that a host integrates against.

pub mod boundary;
pub mod cosmetic;
pub mod engine;
pub mod index;
pub mod network;
pub mod parser;
pub mod pattern;
pub mod regex;
pub mod request;
pub mod rule;
pub mod text;
pub mod url;
