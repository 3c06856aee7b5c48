//! The site-information data model: the fields of a wiki engine's
//! self-description payload that the extractors read. The payload itself is
//! fetched and deserialized elsewhere; this crate only consumes it.

use vstd::prelude::*;

verus! {

/// A namespace descriptor: numeric id, optional locale-invariant canonical
/// name, and localized name.
#[derive(Clone, Debug)]
pub struct Namespace {
    pub id: i64,
    pub canonical: Option<String>,
    pub name: String,
}

/// An alias string together with the id of the namespace it maps to.
#[derive(Clone, Debug)]
pub struct NamespaceAlias {
    pub id: i64,
    pub alias: String,
}

/// A magic word: canonical name plus its alias strings, in order.
#[derive(Clone, Debug)]
pub struct MagicWord {
    pub name: String,
    pub aliases: Vec<String>,
}

/// The "general" settings record; only the raw link-trail pattern is read.
#[derive(Clone, Debug)]
pub struct General {
    pub linktrail: String,
}

/// The deserialized site-information payload.
#[derive(Clone, Debug)]
pub struct Query {
    pub namespaces: Vec<Namespace>,
    pub namespacealiases: Vec<NamespaceAlias>,
    pub extensiontags: Vec<String>,
    pub protocols: Vec<String>,
    pub general: General,
    pub magicwords: Vec<MagicWord>,
}

} // verus!
