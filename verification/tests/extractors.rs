use siteinfo_extract::extract::{
    extension_tags, magic_words, magic_words_redirect, namespaces, protocols,
};
use siteinfo_extract::sets::StringSet;
use siteinfo_extract::siteinfo::{General, MagicWord, Namespace, NamespaceAlias, Query};

fn sample_query() -> Query {
    Query {
        namespaces: vec![
            Namespace { id: 0, canonical: None, name: String::from("Main") },
            Namespace {
                id: 4,
                canonical: Some(String::from("Project")),
                name: String::from("Wikipedia"),
            },
            Namespace {
                id: 10,
                canonical: Some(String::from("Template")),
                name: String::from("Vorlage"),
            },
        ],
        namespacealiases: vec![
            NamespaceAlias { id: 4, alias: String::from("WP") },
            NamespaceAlias { id: 4, alias: String::from("Projekt") },
            NamespaceAlias { id: 10, alias: String::from("Vorlage_Alias") },
        ],
        extensiontags: vec![
            String::from("<Ref>"),
            String::from("<pre>"),
            String::from("<GALLERY>"),
        ],
        protocols: vec![
            String::from("HTTP://"),
            String::from("https://"),
            String::from("http://"),
        ],
        general: General { linktrail: String::from("([a-z]+)") },
        magicwords: vec![
            MagicWord {
                name: String::from("toc"),
                aliases: vec![String::from("__TOC__"), String::from("TOC")],
            },
            MagicWord { name: String::from("__NoTitle__"), aliases: vec![] },
            MagicWord {
                name: String::from("redirect"),
                aliases: vec![String::from("#REDIRECT"), String::from("#redirect2")],
            },
        ],
    }
}

fn set_eq(s: &StringSet, expected: &[&str]) -> bool {
    s.len() == expected.len() && expected.iter().all(|e| s.contains(&String::from(*e)))
}

#[test]
fn namespaces_collects_canonical_localized_and_aliases() {
    let q = sample_query();
    let s = namespaces(&q, "Project").unwrap();
    assert!(set_eq(&s, &["project", "wikipedia", "wp", "projekt"]));
    assert!(!s.contains(&String::from("vorlage_alias")));
    assert!(!s.contains(&String::from("template")));
}

#[test]
fn namespaces_other_descriptor_keeps_its_own_aliases() {
    let q = sample_query();
    let s = namespaces(&q, "Template").unwrap();
    assert!(set_eq(&s, &["template", "vorlage", "vorlage_alias"]));
}

#[test]
fn namespaces_unknown_name_reports_it() {
    let q = sample_query();
    let e = namespaces(&q, "Portal").unwrap_err();
    assert_eq!(e.0, "Portal");
}

#[test]
fn extension_tags_strips_and_lowercases() {
    let q = sample_query();
    let s = extension_tags(&q).unwrap();
    assert!(set_eq(&s, &["ref", "pre", "gallery"]));
}

#[test]
fn extension_tags_fails_fast_on_malformed() {
    let mut q = sample_query();
    q.extensiontags = vec![
        String::from("<ok>"),
        String::from("foo"),
        String::from("<later>"),
    ];
    let e = extension_tags(&q).unwrap_err();
    assert_eq!(e.0, "foo");
}

#[test]
fn extension_tags_need_both_delimiters() {
    let mut q = sample_query();
    q.extensiontags = vec![String::from("<unclosed")];
    assert_eq!(extension_tags(&q).unwrap_err().0, "<unclosed");
    q.extensiontags = vec![String::from("unopened>")];
    assert_eq!(extension_tags(&q).unwrap_err().0, "unopened>");
    q.extensiontags = vec![String::from("<>")];
    let s = extension_tags(&q).unwrap();
    assert!(set_eq(&s, &[""]));
}

#[test]
fn protocols_lowercased_and_deduplicated() {
    let q = sample_query();
    let s = protocols(&q);
    assert!(set_eq(&s, &["http://", "https://"]));
}

#[test]
fn protocols_empty_input_yields_empty_set() {
    let mut q = sample_query();
    q.protocols = vec![];
    assert_eq!(protocols(&q).len(), 0);
}

#[test]
fn magic_words_keeps_double_underscore_entries_only() {
    let q = sample_query();
    let s = magic_words(&q);
    assert!(set_eq(&s, &["toc", "notitle"]));
}

#[test]
fn magic_words_requires_both_markers() {
    let mut q = sample_query();
    q.magicwords = vec![
        MagicWord {
            name: String::from("x"),
            aliases: vec![
                String::from("__onlyleft"),
                String::from("onlyright__"),
                String::from("___"),
                String::from("____"),
            ],
        },
    ];
    let s = magic_words(&q);
    assert!(set_eq(&s, &[""]));
}

#[test]
fn magic_words_redirect_strips_hash_and_lowercases() {
    let q = sample_query();
    let s = magic_words_redirect(&q);
    assert!(set_eq(&s, &["redirect", "redirect2"]));
}

#[test]
fn magic_words_redirect_without_record_still_names_itself() {
    let mut q = sample_query();
    q.magicwords = vec![];
    let s = magic_words_redirect(&q);
    assert!(set_eq(&s, &["redirect"]));
}

#[test]
fn magic_words_redirect_hashless_alias_kept_as_is() {
    let mut q = sample_query();
    q.magicwords = vec![MagicWord {
        name: String::from("redirect"),
        aliases: vec![String::from("WEITERLEITUNG")],
    }];
    let s = magic_words_redirect(&q);
    assert!(set_eq(&s, &["redirect", "weiterleitung"]));
}

#[test]
fn flat_extractors_are_idempotent() {
    let q = sample_query();
    let pairs = [
        (protocols(&q), protocols(&q)),
        (magic_words(&q), magic_words(&q)),
        (magic_words_redirect(&q), magic_words_redirect(&q)),
        (extension_tags(&q).unwrap(), extension_tags(&q).unwrap()),
        (
            namespaces(&q, "Project").unwrap(),
            namespaces(&q, "Project").unwrap(),
        ),
    ];
    for (a, b) in pairs.iter() {
        assert_eq!(a.len(), b.len());
        for e in a.elements() {
            assert!(b.contains(e));
        }
    }
}

#[test]
fn namespaces_first_matching_descriptor_wins() {
    let mut q = sample_query();
    q.namespaces = vec![
        Namespace { id: 7, canonical: Some(String::from("Dup")), name: String::from("Seven") },
        Namespace { id: 8, canonical: Some(String::from("Dup")), name: String::from("Eight") },
    ];
    q.namespacealiases = vec![
        NamespaceAlias { id: 7, alias: String::from("S7") },
        NamespaceAlias { id: 8, alias: String::from("E8") },
    ];
    let s = namespaces(&q, "Dup").unwrap();
    assert!(set_eq(&s, &["dup", "seven", "s7"]));
}

#[test]
fn extension_tags_empty_input_yields_empty_set() {
    let mut q = sample_query();
    q.extensiontags = vec![];
    assert_eq!(extension_tags(&q).unwrap().len(), 0);
}

#[test]
fn magic_words_empty_input_yields_empty_set() {
    let mut q = sample_query();
    q.magicwords = vec![];
    assert_eq!(magic_words(&q).len(), 0);
}
