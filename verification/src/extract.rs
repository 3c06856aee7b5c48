//! The extractors: flat set-building passes over the site query (namespace
//! names, extension tags, protocols, magic-word aliases) and the link-trail
//! derivation, which parses the site's trail pattern and reduces its first
//! capture group to the set of characters it can match.

use vstd::prelude::*;
use vstd::string::StrSliceExecFns;

use crate::engine;
use crate::engine::parsed_of;
use crate::pattern::{find_group, find_group_spec, group_char_set, link_trail_characters, Node};
use crate::sets::{CharSet, StringSet};
use crate::siteinfo::{MagicWord, Namespace, Query};
use crate::strutil::{lower_of, lowercase, str_eq};

verus! {

/// The requested canonical namespace name has no matching descriptor.
#[derive(Clone, Debug, PartialEq, Eq)]
pub struct NamespaceNotFoundError(pub String);

/// A tag marker lacks its `<...>` delimiters.
#[derive(Clone, Debug, PartialEq, Eq)]
pub struct MalformedExtensionTagError(pub String);

// ---------------------------------------------------------------------------
// Namespaces
// ---------------------------------------------------------------------------

/// Whether a descriptor's canonical name equals the requested one.
pub open spec fn ns_matches(ns: Namespace, canonical: Seq<char>) -> bool {
    match ns.canonical {
        Some(c) => c@ == canonical,
        None => false,
    }
}

/// The first descriptor whose canonical name equals the requested one,
/// searching from index `i`.
pub open spec fn find_namespace_from(nss: Seq<Namespace>, canonical: Seq<char>, i: int) -> Option<
    Namespace,
>
    decreases nss.len() - i,
    when 0 <= i <= nss.len()
{
    if i == nss.len() {
        None
    } else if ns_matches(nss[i], canonical) {
        Some(nss[i])
    } else {
        find_namespace_from(nss, canonical, i + 1)
    }
}

pub open spec fn find_namespace(nss: Seq<Namespace>, canonical: Seq<char>) -> Option<Namespace> {
    find_namespace_from(nss, canonical, 0)
}

/// The aliases pointing at namespace id `id` among the first `n` alias
/// records, lowercased.
pub open spec fn alias_names_upto(q: Query, id: i64, n: int) -> Set<Seq<char>> {
    Set::new(
        |t: Seq<char>|
            exists|j: int|
                0 <= j < n && (#[trigger] q.namespacealiases@[j]).id == id && t == lower_of(
                    q.namespacealiases@[j].alias@,
                ),
    )
}

/// Everything the namespace lookup collects: every alias of the found
/// descriptor's id, the requested canonical name, and the localized name,
/// all lowercased.
pub open spec fn namespace_set(q: Query, ns: Namespace, canonical: Seq<char>) -> Set<Seq<char>> {
    alias_names_upto(q, ns.id, q.namespacealiases@.len() as int).insert(lower_of(canonical)).insert(
        lower_of(ns.name@),
    )
}

/// Resolves a canonical namespace name to the lowercased set of all names
/// naming that namespace: its aliases, the canonical name, and the localized
/// name. Fails if and only if no descriptor carries the requested canonical
/// name, with the error carrying exactly the requested string.
pub fn namespaces(query: &Query, canonical: &str) -> (r: Result<StringSet, NamespaceNotFoundError>)
    ensures
        (r is Ok) <==> (find_namespace(query.namespaces@, canonical@) is Some),
        r matches Ok(s) ==> s.wf() && s@ == namespace_set(
            *query,
            find_namespace(query.namespaces@, canonical@)->Some_0,
            canonical@,
        ),
        r matches Err(e) ==> e.0@ == canonical@,
{
    let n = query.namespaces.len();
    let mut found: Option<usize> = None;
    let mut i: usize = 0;
    while found.is_none() && i < n
        invariant
            n == query.namespaces@.len(),
            0 <= i <= n,
            found is None ==> find_namespace(query.namespaces@, canonical@)
                == find_namespace_from(query.namespaces@, canonical@, i as int),
            found matches Some(k) ==> 0 <= k < n && find_namespace(query.namespaces@, canonical@)
                == Some(query.namespaces@[k as int]),
        decreases n - i,
    {
        let ns = &query.namespaces[i];
        let matches_here = match &ns.canonical {
            Some(c) => str_eq(c.as_str(), canonical),
            None => false,
        };
        if matches_here {
            found = Some(i);
        }
        i += 1;
    }
    let namespace = match found {
        Some(k) => &query.namespaces[k],
        None => {
            return Err(NamespaceNotFoundError(canonical.to_owned()));
        },
    };
    let ghost ns_spec = find_namespace(query.namespaces@, canonical@)->Some_0;
    assert(namespace.id == ns_spec.id && namespace.name@ == ns_spec.name@);
    let mut s = StringSet::new();
    let m = query.namespacealiases.len();
    let mut j: usize = 0;
    while j < m
        invariant
            s.wf(),
            m == query.namespacealiases@.len(),
            0 <= j <= m,
            namespace.id == ns_spec.id,
            s@ == alias_names_upto(*query, ns_spec.id, j as int),
        decreases m - j,
    {
        let na = &query.namespacealiases[j];
        if na.id == namespace.id {
            s.insert(lowercase(na.alias.as_str()));
        }
        proof {
            assert(s@ =~= alias_names_upto(*query, ns_spec.id, j + 1)) by {
                assert forall|t: Seq<char>| alias_names_upto(*query, ns_spec.id, j + 1).contains(t)
                    implies s@.contains(t) by {
                    let k = choose|k: int|
                        0 <= k < j + 1 && (#[trigger] query.namespacealiases@[k]).id == ns_spec.id
                            && t == lower_of(query.namespacealiases@[k].alias@);
                    if k < j {
                        assert(alias_names_upto(*query, ns_spec.id, j as int).contains(t));
                    }
                }
            }
        }
        j += 1;
    }
    s.insert(lowercase(canonical));
    s.insert(lowercase(namespace.name.as_str()));
    proof {
        assert(s@ =~= namespace_set(*query, ns_spec, canonical@));
    }
    Ok(s)
}

// ---------------------------------------------------------------------------
// Extension tags
// ---------------------------------------------------------------------------

/// Whether a tag marker is wrapped in `<...>`.
pub open spec fn tag_ok(t: Seq<char>) -> bool {
    t.len() >= 2 && t[0] == '<' && t[t.len() - 1] == '>'
}

/// The marker with its delimiters removed.
pub open spec fn tag_inner(t: Seq<char>) -> Seq<char> {
    t.subrange(1, t.len() - 1)
}

/// The lowercased, delimiter-stripped forms of the first `n` tag markers.
pub open spec fn tag_names_upto(q: Query, n: int) -> Set<Seq<char>> {
    Set::new(
        |t: Seq<char>|
            exists|j: int|
                0 <= j < n && tag_ok(#[trigger] q.extensiontags@[j]@) && t == lower_of(
                    tag_inner(q.extensiontags@[j]@),
                ),
    )
}

/// Strips the `<...>` delimiters and lowercases the name, or reports that a
/// delimiter is missing.
fn strip_tag(s: &str) -> (r: Option<String>)
    ensures
        (r is Some) <==> tag_ok(s@),
        r matches Some(w) ==> w@ == lower_of(tag_inner(s@)),
{
    let n = s.unicode_len();
    if n >= 2 && s.get_char(0) == '<' && s.get_char(n - 1) == '>' {
        let inner = s.substring_char(1, n - 1);
        Some(lowercase(inner))
    } else {
        None
    }
}

/// Strips every tag marker of its `<...>` delimiters and lowercases it.
/// Fails on the first marker that lacks a delimiter, with the error carrying
/// that marker unchanged; no partial set is returned.
pub fn extension_tags(query: &Query) -> (r: Result<StringSet, MalformedExtensionTagError>)
    ensures
        (r is Ok) <==> (forall|j: int|
            0 <= j < query.extensiontags@.len() ==> tag_ok(#[trigger] query.extensiontags@[j]@)),
        r matches Ok(s) ==> s.wf() && s@ == tag_names_upto(
            *query,
            query.extensiontags@.len() as int,
        ),
        r matches Err(e) ==> exists|j: int|
            0 <= j < query.extensiontags@.len() && !tag_ok(#[trigger] query.extensiontags@[j]@)
                && e.0@ == query.extensiontags@[j]@ && (forall|k: int|
                0 <= k < j ==> tag_ok(#[trigger] query.extensiontags@[k]@)),
{
    let n = query.extensiontags.len();
    let mut s = StringSet::new();
    let mut i: usize = 0;
    while i < n
        invariant
            s.wf(),
            n == query.extensiontags@.len(),
            0 <= i <= n,
            forall|j: int| 0 <= j < i ==> tag_ok(#[trigger] query.extensiontags@[j]@),
            s@ == tag_names_upto(*query, i as int),
        decreases n - i,
    {
        let tag = &query.extensiontags[i];
        match strip_tag(tag.as_str()) {
            Some(w) => {
                s.insert(w);
                proof {
                    assert(s@ =~= tag_names_upto(*query, i + 1)) by {
                        assert forall|t: Seq<char>| tag_names_upto(*query, i + 1).contains(t)
                            implies s@.contains(t) by {
                            let k = choose|k: int|
                                0 <= k < i + 1 && tag_ok(#[trigger] query.extensiontags@[k]@) && t
                                    == lower_of(tag_inner(query.extensiontags@[k]@));
                            if k < i {
                                assert(tag_names_upto(*query, i as int).contains(t));
                            }
                        }
                    }
                }
            },
            None => {
                return Err(MalformedExtensionTagError(tag.clone()));
            },
        }
        i += 1;
    }
    Ok(s)
}

// ---------------------------------------------------------------------------
// Protocols
// ---------------------------------------------------------------------------

/// The lowercased forms of the first `n` protocol strings.
pub open spec fn protocols_upto(q: Query, n: int) -> Set<Seq<char>> {
    Set::new(
        |t: Seq<char>|
            exists|j: int| 0 <= j < n && t == lower_of(#[trigger] q.protocols@[j]@),
    )
}

/// Lowercases every supported protocol string; an empty list yields the
/// empty set.
pub fn protocols(query: &Query) -> (r: StringSet)
    ensures
        r.wf(),
        r@ == protocols_upto(*query, query.protocols@.len() as int),
{
    let n = query.protocols.len();
    let mut s = StringSet::new();
    let mut i: usize = 0;
    while i < n
        invariant
            s.wf(),
            n == query.protocols@.len(),
            0 <= i <= n,
            s@ == protocols_upto(*query, i as int),
        decreases n - i,
    {
        s.insert(lowercase(query.protocols[i].as_str()));
        proof {
            assert(s@ =~= protocols_upto(*query, i + 1)) by {
                assert forall|t: Seq<char>| protocols_upto(*query, i + 1).contains(t)
                    implies s@.contains(t) by {
                    let k = choose|k: int|
                        0 <= k < i + 1 && t == lower_of(#[trigger] query.protocols@[k]@);
                    if k < i {
                        assert(protocols_upto(*query, i as int).contains(t));
                    }
                }
            }
        }
        i += 1;
    }
    s
}

// ---------------------------------------------------------------------------
// Magic words
// ---------------------------------------------------------------------------

/// The strings a magic-word record contributes: its aliases, then its
/// canonical name.
pub open spec fn mw_entries(mw: MagicWord) -> Seq<Seq<char>> {
    mw.aliases@.map_values(|a: String| a@).push(mw.name@)
}

/// Whether a string carries the `__name__` double-underscore convention on
/// both ends.
pub open spec fn wrapped(t: Seq<char>) -> bool {
    t.len() >= 4 && t[0] == '_' && t[1] == '_' && t[t.len() - 2] == '_' && t[t.len() - 1] == '_'
}

/// The string with the double-underscore markers removed.
pub open spec fn unwrap_word(t: Seq<char>) -> Seq<char> {
    t.subrange(2, t.len() - 2)
}

/// The double-underscore entries among the first `k` entries of record `mw`.
pub open spec fn mw_entry_set_upto(mw: MagicWord, k: int) -> Set<Seq<char>> {
    Set::new(
        |t: Seq<char>|
            exists|j: int|
                0 <= j < k && wrapped(#[trigger] mw_entries(mw)[j]) && t == lower_of(
                    unwrap_word(mw_entries(mw)[j]),
                ),
    )
}

/// The double-underscore entries of the first `n` magic-word records.
pub open spec fn mw_set_upto(q: Query, n: int) -> Set<Seq<char>> {
    Set::new(
        |t: Seq<char>|
            exists|i: int, j: int|
                0 <= i < n && 0 <= j < mw_entries(q.magicwords@[i]).len() && wrapped(
                    #[trigger] mw_entries(q.magicwords@[i])[j],
                ) && t == lower_of(unwrap_word(mw_entries(q.magicwords@[i])[j])),
    )
}

/// Strips the `__...__` markers and lowercases the word; `None` when either
/// marker is missing.
fn strip_double_underscore(s: &str) -> (r: Option<String>)
    ensures
        (r is Some) <==> wrapped(s@),
        r matches Some(w) ==> w@ == lower_of(unwrap_word(s@)),
{
    let n = s.unicode_len();
    if n >= 4 && s.get_char(0) == '_' && s.get_char(1) == '_' && s.get_char(n - 2) == '_'
        && s.get_char(n - 1) == '_' {
        let inner = s.substring_char(2, n - 2);
        Some(lowercase(inner))
    } else {
        None
    }
}

/// Collects every magic-word alias and canonical name that is wrapped in
/// double underscores on both ends, stripped of the markers and lowercased.
/// Entries without both markers are silently excluded.
pub fn magic_words(query: &Query) -> (r: StringSet)
    ensures
        r.wf(),
        r@ == mw_set_upto(*query, query.magicwords@.len() as int),
{
    let n = query.magicwords.len();
    let mut s = StringSet::new();
    let mut i: usize = 0;
    while i < n
        invariant
            s.wf(),
            n == query.magicwords@.len(),
            0 <= i <= n,
            s@ == mw_set_upto(*query, i as int),
        decreases n - i,
    {
        let mw = &query.magicwords[i];
        let ghost mwg = query.magicwords@[i as int];
        let m = mw.aliases.len();
        let mut j: usize = 0;
        while j < m
            invariant
                s.wf(),
                n == query.magicwords@.len(),
                0 <= i < n,
                mw == &query.magicwords[i as int],
                mwg == query.magicwords@[i as int],
                m == mw.aliases@.len(),
                0 <= j <= m,
                s@ == mw_set_upto(*query, i as int).union(mw_entry_set_upto(mwg, j as int)),
            decreases m - j,
        {
            assert(mw_entries(mwg)[j as int] == mw.aliases@[j as int]@);
            match strip_double_underscore(mw.aliases[j].as_str()) {
                Some(w) => {
                    s.insert(w);
                },
                None => {},
            }
            proof {
                lemma_mw_entry_step(*query, mwg, i as int, j as int, s@);
            }
            j += 1;
        }
        assert(mw_entries(mwg)[m as int] == mwg.name@);
        match strip_double_underscore(mw.name.as_str()) {
            Some(w) => {
                s.insert(w);
            },
            None => {},
        }
        proof {
            lemma_mw_entry_step(*query, mwg, i as int, m as int, s@);
            assert(mw_entries(mwg).len() == m + 1);
            assert(s@ =~= mw_set_upto(*query, i + 1)) by {
                assert forall|t: Seq<char>| mw_set_upto(*query, i + 1).contains(t) implies s@
                    .contains(t) by {
                    let (a, b): (int, int) = choose|a: int, b: int|
                        0 <= a < i + 1 && 0 <= b < mw_entries(query.magicwords@[a]).len()
                            && wrapped(#[trigger] mw_entries(query.magicwords@[a])[b]) && t == lower_of(
                            unwrap_word(mw_entries(query.magicwords@[a])[b]),
                        );
                    if a < i {
                        assert(mw_set_upto(*query, i as int).contains(t));
                    } else {
                        assert(mw_entry_set_upto(mwg, m + 1).contains(t));
                    }
                }
                assert forall|t: Seq<char>| s@.contains(t) implies mw_set_upto(*query, i + 1)
                    .contains(t) by {
                    if mw_set_upto(*query, i as int).contains(t) {
                        let (a, b): (int, int) = choose|a: int, b: int|
                            0 <= a < i && 0 <= b < mw_entries(query.magicwords@[a]).len()
                                && wrapped(#[trigger] mw_entries(query.magicwords@[a])[b]) && t
                                == lower_of(unwrap_word(mw_entries(query.magicwords@[a])[b]));
                        assert(mw_set_upto(*query, i + 1).contains(t));
                    } else {
                        let b = choose|b: int|
                            0 <= b < m + 1 && wrapped(#[trigger] mw_entries(mwg)[b]) && t
                                == lower_of(unwrap_word(mw_entries(mwg)[b]));
                        assert(0 <= i < i + 1 && 0 <= b < mw_entries(query.magicwords@[i as int]).len());
                        assert(mw_set_upto(*query, i + 1).contains(t));
                    }
                }
            }
        }
        i += 1;
    }
    proof {
        assert(s@ =~= mw_set_upto(*query, n as int));
    }
    s
}

/// One entry either joins the accumulating set (when wrapped) or leaves it
/// unchanged; either way the per-record partial set advances by one index.
proof fn lemma_mw_entry_step(q: Query, mw: MagicWord, i: int, j: int, s: Set<Seq<char>>)
    requires
        0 <= j < mw_entries(mw).len(),
        wrapped(mw_entries(mw)[j]) ==> s == mw_set_upto(q, i).union(mw_entry_set_upto(mw, j)).insert(
            lower_of(unwrap_word(mw_entries(mw)[j])),
        ),
        !wrapped(mw_entries(mw)[j]) ==> s == mw_set_upto(q, i).union(mw_entry_set_upto(mw, j)),
    ensures
        s == mw_set_upto(q, i).union(mw_entry_set_upto(mw, j + 1)),
{
    assert(s =~= mw_set_upto(q, i).union(mw_entry_set_upto(mw, j + 1))) by {
        assert forall|t: Seq<char>| mw_entry_set_upto(mw, j + 1).contains(t) implies s.contains(
            t,
        ) by {
            let k = choose|k: int|
                0 <= k < j + 1 && wrapped(#[trigger] mw_entries(mw)[k]) && t == lower_of(
                    unwrap_word(mw_entries(mw)[k]),
                );
            if k < j {
                assert(mw_entry_set_upto(mw, j).contains(t));
            }
        }
        assert forall|t: Seq<char>| s.contains(t) && !mw_set_upto(q, i).contains(t) implies
            mw_entry_set_upto(mw, j + 1).contains(t) by {
            if mw_entry_set_upto(mw, j).contains(t) {
                let k = choose|k: int|
                    0 <= k < j && wrapped(#[trigger] mw_entries(mw)[k]) && t == lower_of(
                        unwrap_word(mw_entries(mw)[k]),
                    );
                assert(mw_entry_set_upto(mw, j + 1).contains(t));
            } else {
                assert(wrapped(mw_entries(mw)[j]) && t == lower_of(unwrap_word(mw_entries(mw)[j])));
                assert(mw_entry_set_upto(mw, j + 1).contains(t));
            }
        }
    }
}

/// The string with a single leading `#` removed, when present.
pub open spec fn hash_stripped(t: Seq<char>) -> Seq<char> {
    if t.len() >= 1 && t[0] == '#' {
        t.subrange(1, t.len() as int)
    } else {
        t
    }
}

/// The lowercased, `#`-stripped aliases among the first `k` aliases of a
/// record.
pub open spec fn redirect_aliases_upto(mw: MagicWord, k: int) -> Set<Seq<char>> {
    Set::new(
        |t: Seq<char>|
            exists|j: int| 0 <= j < k && t == lower_of(hash_stripped(#[trigger] mw.aliases@[j]@)),
    )
}

/// The lowercased, `#`-stripped aliases of every record named `redirect`
/// among the first `n` records.
pub open spec fn redirect_set_upto(q: Query, n: int) -> Set<Seq<char>> {
    Set::new(
        |t: Seq<char>|
            exists|i: int, j: int|
                0 <= i < n && q.magicwords@[i].name@ == "redirect"@ && 0 <= j
                    < q.magicwords@[i].aliases@.len() && t == lower_of(
                    hash_stripped(#[trigger] q.magicwords@[i].aliases@[j]@),
                ),
    )
}

/// Removes a single leading `#` when present, then lowercases.
fn strip_hash_lower(a: &str) -> (r: String)
    ensures
        r@ == lower_of(hash_stripped(a@)),
{
    let n = a.unicode_len();
    if n >= 1 && a.get_char(0) == '#' {
        lowercase(a.substring_char(1, n))
    } else {
        lowercase(a)
    }
}

/// Collects the aliases of every magic word whose canonical name is exactly
/// `redirect`, each stripped of one leading `#` when present, plus the
/// literal name `redirect` itself, all lowercased.
pub fn magic_words_redirect(query: &Query) -> (r: StringSet)
    ensures
        r.wf(),
        r@ == redirect_set_upto(*query, query.magicwords@.len() as int).insert(
            lower_of("redirect"@),
        ),
{
    let n = query.magicwords.len();
    let mut s = StringSet::new();
    let mut i: usize = 0;
    while i < n
        invariant
            s.wf(),
            n == query.magicwords@.len(),
            0 <= i <= n,
            s@ == redirect_set_upto(*query, i as int),
        decreases n - i,
    {
        let mw = &query.magicwords[i];
        let ghost mwg = query.magicwords@[i as int];
        if str_eq(mw.name.as_str(), "redirect") {
            let m = mw.aliases.len();
            let mut j: usize = 0;
            while j < m
                invariant
                    s.wf(),
                    n == query.magicwords@.len(),
                    0 <= i < n,
                    mw == &query.magicwords[i as int],
                    mwg == query.magicwords@[i as int],
                    mwg.name@ == "redirect"@,
                    m == mw.aliases@.len(),
                    0 <= j <= m,
                    s@ == redirect_set_upto(*query, i as int).union(
                        redirect_aliases_upto(mwg, j as int),
                    ),
                decreases m - j,
            {
                s.insert(strip_hash_lower(mw.aliases[j].as_str()));
                proof {
                    assert(s@ =~= redirect_set_upto(*query, i as int).union(
                        redirect_aliases_upto(mwg, j + 1),
                    )) by {
                        assert forall|t: Seq<char>|
                            redirect_aliases_upto(mwg, j + 1).contains(t) implies s@.contains(
                            t,
                        ) by {
                            let k = choose|k: int|
                                0 <= k < j + 1 && t == lower_of(
                                    hash_stripped(#[trigger] mwg.aliases@[k]@),
                                );
                            if k < j {
                                assert(redirect_aliases_upto(mwg, j as int).contains(t));
                            }
                        }
                    }
                }
                j += 1;
            }
            proof {
                assert(s@ =~= redirect_set_upto(*query, i + 1)) by {
                    lemma_redirect_record_step(*query, mwg, i as int, s@);
                }
            }
        } else {
            proof {
                assert(s@ =~= redirect_set_upto(*query, i + 1)) by {
                    assert forall|t: Seq<char>| redirect_set_upto(*query, i + 1).contains(t)
                        implies s@.contains(t) by {
                        let (a, b): (int, int) = choose|a: int, b: int|
                            0 <= a < i + 1 && query.magicwords@[a].name@ == "redirect"@ && 0 <= b
                                < query.magicwords@[a].aliases@.len() && t == lower_of(
                                hash_stripped(#[trigger] query.magicwords@[a].aliases@[b]@),
                            );
                        assert(a < i);
                        assert(redirect_set_upto(*query, i as int).contains(t));
                    }
                }
            }
        }
        i += 1;
    }
    s.insert(lowercase("redirect"));
    proof {
        assert(s@ =~= redirect_set_upto(*query, n as int).insert(lower_of("redirect"@)));
    }
    s
}

/// After a `redirect` record's aliases are all in, the per-record partial
/// union equals the whole-record set one index further on.
proof fn lemma_redirect_record_step(q: Query, mw: MagicWord, i: int, s: Set<Seq<char>>)
    requires
        0 <= i < q.magicwords@.len(),
        mw == q.magicwords@[i],
        mw.name@ == "redirect"@,
        s == redirect_set_upto(q, i).union(redirect_aliases_upto(mw, mw.aliases@.len() as int)),
    ensures
        s == redirect_set_upto(q, i + 1),
{
    assert(s =~= redirect_set_upto(q, i + 1)) by {
        assert forall|t: Seq<char>| redirect_set_upto(q, i + 1).contains(t) implies s.contains(
            t,
        ) by {
            let (a, b): (int, int) = choose|a: int, b: int|
                0 <= a < i + 1 && q.magicwords@[a].name@ == "redirect"@ && 0 <= b
                    < q.magicwords@[a].aliases@.len() && t == lower_of(
                    hash_stripped(#[trigger] q.magicwords@[a].aliases@[b]@),
                );
            if a < i {
                assert(redirect_set_upto(q, i).contains(t));
            } else {
                assert(mw.aliases@[b]@ == q.magicwords@[a].aliases@[b]@);
                assert(redirect_aliases_upto(mw, mw.aliases@.len() as int).contains(t));
            }
        }
        assert forall|t: Seq<char>| s.contains(t) implies redirect_set_upto(q, i + 1).contains(
            t,
        ) by {
            if redirect_set_upto(q, i).contains(t) {
                let (a, b): (int, int) = choose|a: int, b: int|
                    0 <= a < i && q.magicwords@[a].name@ == "redirect"@ && 0 <= b
                        < q.magicwords@[a].aliases@.len() && t == lower_of(
                        hash_stripped(#[trigger] q.magicwords@[a].aliases@[b]@),
                    );
                assert(redirect_set_upto(q, i + 1).contains(t));
            } else {
                let b = choose|b: int|
                    0 <= b < mw.aliases@.len() && t == lower_of(
                        hash_stripped(#[trigger] mw.aliases@[b]@),
                    );
                assert(q.magicwords@[i].aliases@[b]@ == mw.aliases@[b]@);
                assert(redirect_set_upto(q, i + 1).contains(t));
            }
        }
    }
}

// ---------------------------------------------------------------------------
// Link trail
// ---------------------------------------------------------------------------

/// Failure to derive the link-trail character set.
#[derive(Clone, Debug, PartialEq, Eq)]
pub enum LinkTrailError {
    /// The pattern string is not valid regular-expression syntax.
    Pcre { pattern: String },
    /// Capture group `index` is absent from the parsed pattern.
    GroupNotFound { pattern: String, index: u32 },
    /// Capture group `index` exists but its structure cannot be reduced to a
    /// finite character set.
    GroupInvalid { pattern: String, index: u32 },
}

/// What the link-trail derivation returns for a parsed tree `n`: the reduced
/// set of group 1 on success, `GroupNotFound` when the group is absent, and
/// `GroupInvalid` when its shape does not reduce, the errors naming the
/// pattern and the group index.
pub open spec fn link_trail_post(
    n: Node,
    pattern: Seq<char>,
    r: Result<CharSet, LinkTrailError>,
) -> bool {
    &&& (find_group_spec(n, 1) is None ==> (r matches Err(e)
        && (e matches LinkTrailError::GroupNotFound { pattern: p, index } && p@ == pattern
        && index == 1)))
    &&& ((find_group_spec(n, 1) matches Some(g) && group_char_set(g) is None) ==> (
    r matches Err(e) && (e matches LinkTrailError::GroupInvalid { pattern: p, index } && p@
        == pattern && index == 1)))
    &&& (find_group_spec(n, 1) matches Some(g) ==> (group_char_set(g) matches Some(s) ==> (
    r matches Ok(cs) && cs.wf() && cs@ == s)))
}

/// Locates capture group 1 in a parsed tree, classifies its top-level shape
/// (empty, a repetition, or anything else), and reduces the repeated
/// sub-tree to its character set.
pub fn link_trail_parsed(node: &Node, pattern: &str) -> (r: Result<CharSet, LinkTrailError>)
    ensures
        link_trail_post(*node, pattern@, r),
{
    let group = match find_group(node, 1) {
        Some(g) => g,
        None => {
            return Err(
                LinkTrailError::GroupNotFound { pattern: pattern.to_owned(), index: 1 },
            );
        },
    };
    match group {
        Node::Empty => Ok(CharSet::new()),
        Node::Repetition(inner) => {
            let mut characters = CharSet::new();
            match link_trail_characters(inner, &mut characters) {
                Ok(()) => {
                    proof {
                        assert(characters@ =~= group_char_set(*group)->Some_0);
                    }
                    Ok(characters)
                },
                Err(()) => Err(
                    LinkTrailError::GroupInvalid { pattern: pattern.to_owned(), index: 1 },
                ),
            }
        },
        _ => Err(LinkTrailError::GroupInvalid { pattern: pattern.to_owned(), index: 1 }),
    }
}

/// What `link_trail` returns for a query: the `Pcre` error, carrying the
/// pattern, exactly when the pattern does not parse; otherwise the result of
/// the verified derivation on the parsed tree.
pub open spec fn link_trail_ensures(q: Query, r: Result<CharSet, LinkTrailError>) -> bool {
    &&& ((parsed_of(q.general.linktrail@) is None) <==> (r matches Err(e) && (
    e matches LinkTrailError::Pcre { pattern: p } && p@ == q.general.linktrail@)))
    &&& (parsed_of(q.general.linktrail@) matches Some(n) ==> link_trail_post(
        n,
        q.general.linktrail@,
        r,
    ))
}

/// Derives the set of characters the site's link-trail pattern lets trail a
/// link: parses the raw pattern with the external engine, then locates and
/// reduces capture group 1. The `Pcre` error, carrying the pattern, arises
/// if and only if the pattern fails to parse; on any parsed tree the result
/// meets `link_trail_post`.
pub fn link_trail(query: &Query) -> (r: Result<CharSet, LinkTrailError>)
    ensures
        link_trail_ensures(*query, r),
{
    let original = &query.general.linktrail;
    match engine::parse_to_node(original.as_str()) {
        None => Err(LinkTrailError::Pcre { pattern: original.clone() }),
        Some(node) => {
            let r = link_trail_parsed(&node, original.as_str());
            proof {
                assert(parsed_of(query.general.linktrail@) == Some(node));
                assert(link_trail_post(node, query.general.linktrail@, r));
                match find_group_spec(node, 1) {
                    Option::None => {},
                    Option::Some(g) => {
                        match group_char_set(g) {
                            Option::None => {},
                            Option::Some(cs) => {},
                        }
                    },
                }
            }
            r
        },
    }
}

// ---------------------------------------------------------------------------
// Determinism
// ---------------------------------------------------------------------------

/// Re-running a flat extractor on the same payload yields an identical set:
/// each extractor's contract equates its result with a set determined by the
/// payload alone, so two results for one payload coincide.
pub proof fn lemma_flat_extractors_deterministic(
    q: Query,
    canonical: Seq<char>,
    ns1: Set<Seq<char>>,
    ns2: Set<Seq<char>>,
    tags1: Set<Seq<char>>,
    tags2: Set<Seq<char>>,
    prot1: Set<Seq<char>>,
    prot2: Set<Seq<char>>,
    mw1: Set<Seq<char>>,
    mw2: Set<Seq<char>>,
    rd1: Set<Seq<char>>,
    rd2: Set<Seq<char>>,
)
    requires
        find_namespace(q.namespaces@, canonical) matches Some(ns) && ns1 == namespace_set(
            q,
            ns,
            canonical,
        ) && ns2 == namespace_set(q, ns, canonical),
        tags1 == tag_names_upto(q, q.extensiontags@.len() as int),
        tags2 == tag_names_upto(q, q.extensiontags@.len() as int),
        prot1 == protocols_upto(q, q.protocols@.len() as int),
        prot2 == protocols_upto(q, q.protocols@.len() as int),
        mw1 == mw_set_upto(q, q.magicwords@.len() as int),
        mw2 == mw_set_upto(q, q.magicwords@.len() as int),
        rd1 == redirect_set_upto(q, q.magicwords@.len() as int).insert(lower_of("redirect"@)),
        rd2 == redirect_set_upto(q, q.magicwords@.len() as int).insert(lower_of("redirect"@)),
    ensures
        ns1 == ns2,
        tags1 == tags2,
        prot1 == prot2,
        mw1 == mw2,
        rd1 == rd2,
{
}

/// Whether two link-trail errors agree: the same variant, the same pattern
/// by character content, and the same group index.
pub open spec fn same_error(a: LinkTrailError, b: LinkTrailError) -> bool {
    match (a, b) {
        (LinkTrailError::Pcre { pattern: p1 }, LinkTrailError::Pcre { pattern: p2 }) => p1@ == p2@,
        (
            LinkTrailError::GroupNotFound { pattern: p1, index: i1 },
            LinkTrailError::GroupNotFound { pattern: p2, index: i2 },
        ) => p1@ == p2@ && i1 == i2,
        (
            LinkTrailError::GroupInvalid { pattern: p1, index: i1 },
            LinkTrailError::GroupInvalid { pattern: p2, index: i2 },
        ) => p1@ == p2@ && i1 == i2,
        _ => false,
    }
}

/// For one parsed tree and pattern, the link-trail derivation is
/// deterministic: any two results the contract admits agree, with equal
/// character sets on success and matching errors on failure.
pub proof fn lemma_link_trail_deterministic(
    n: Node,
    pattern: Seq<char>,
    r1: Result<CharSet, LinkTrailError>,
    r2: Result<CharSet, LinkTrailError>,
)
    requires
        link_trail_post(n, pattern, r1),
        link_trail_post(n, pattern, r2),
    ensures
        r1 is Ok <==> r2 is Ok,
        r1 matches Ok(a) ==> (r2 matches Ok(b) ==> a@ == b@),
        r1 matches Err(e1) ==> (r2 matches Err(e2) ==> same_error(e1, e2)),
{
    match find_group_spec(n, 1) {
        Option::None => {},
        Option::Some(g) => {
            match group_char_set(g) {
                Option::None => {},
                Option::Some(cs) => {},
            }
        },
    }
}

/// Re-running the link-trail derivation on one payload yields an identical
/// result: the parse is a function of the pattern string alone, and for its
/// tree the rest of the derivation is deterministic.
pub proof fn lemma_link_trail_idempotent(
    q: Query,
    r1: Result<CharSet, LinkTrailError>,
    r2: Result<CharSet, LinkTrailError>,
)
    requires
        link_trail_ensures(q, r1),
        link_trail_ensures(q, r2),
    ensures
        r1 is Ok <==> r2 is Ok,
        r1 matches Ok(a) ==> (r2 matches Ok(b) ==> a@ == b@),
        r1 matches Err(e1) ==> (r2 matches Err(e2) ==> same_error(e1, e2)),
{
    match parsed_of(q.general.linktrail@) {
        Option::None => {},
        Option::Some(n) => {
            lemma_link_trail_deterministic(n, q.general.linktrail@, r1, r2);
        },
    }
}

} // verus!
