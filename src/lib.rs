//! Static-site generation for a webring: users linked in a ring by name order, grouped by
//! tags, each page filled from a shared template by placeholder substitution.
//!
//! The library computes every page from plain values; reading the project and writing the
//! site are left to its caller.

pub mod text;
pub mod template;
pub mod tags;
pub mod ring;
pub mod pages;
pub mod convert;
