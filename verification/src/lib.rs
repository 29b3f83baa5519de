//! Turns a rule feed in AdBlock syntax into the lines of a SmartDNS
//! configuration that send the feed's domains to a group of servers.
//!
//! The feed arrives as text whose lines are base64 ([`feed`]). Of the decoded
//! lines those that are no rules are skipped ([`filter`]); each other line is
//! reduced to a host, which the suffix list accepts as a domain or rejects
//! ([`normalize`]); the domains are sorted, each kept once ([`order`]), and
//! written out ([`pipeline`]).

pub mod feed;
pub mod filter;
pub mod normalize;
pub mod order;
pub mod pipeline;
pub mod text;
