//! Canonical shortening of IPv6 addresses given as eight 16-bit groups.
//!
//! The core of the library is [`shortener::shorten_ipv6`]: it takes eight
//! input buffers, each holding either an empty string (meaning the all-zero
//! group) or exactly four hexadecimal digits, and produces the canonical
//! shortened text: leading zeros dropped in every group, and the single
//! longest run of all-zero groups (of length at least two, leftmost on ties)
//! replaced by `::`.

pub mod app;
pub mod error;
pub mod shortener;
pub mod text;
