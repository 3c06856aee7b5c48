//! Extraction of normalized configuration facts from a wiki engine's
//! site-information payload: namespace names, extension tags, URL protocols,
//! magic-word aliases, and the set of characters the site's link-trail
//! pattern lets trail a link.

pub mod engine;
pub mod extract;
pub mod pattern;
pub mod sets;
pub mod siteinfo;
pub mod strutil;
