use durrrrrenv::config::Config;
use durrrrrenv::parser::{Command, LineError};

const ABC_DIGEST: &str = "ba7816bf8f01cfea414140de5dae2223b00361a396177a9cb410ff61f20015ad";

#[test]
fn digest_of_known_text() {
    assert_eq!(Config::hash_content("abc"), ABC_DIGEST);
    assert_eq!(Config::hash_path("abc"), ABC_DIGEST);
    assert_eq!(
        Config::hash_content(""),
        "e3b0c44298fc1c149afbf4c8996fb92427ae41e4649b934ca495991b7852b855"
    );
}

#[test]
fn nothing_authorized_before_approval() {
    let c = Config::new();
    assert!(!c.is_allowed("/home/u/project", "source a"));
    assert!(!c.is_allowed("/home/u/project", ""));
}

#[test]
fn approval_binds_exact_content() {
    let mut c = Config::new();
    c.allow("/home/u/project", "source a\n", 100);
    assert!(c.is_allowed("/home/u/project", "source a\n"));
    assert!(!c.is_allowed("/home/u/project", "source b\n"));
    assert!(!c.is_allowed("/home/u/project", "source a"));
    assert!(!c.is_allowed("/home/u/other", "source a\n"));
}

#[test]
fn revoke_after_approve() {
    let mut c = Config::new();
    c.allow("/p", "x", 1);
    c.deny("/p");
    assert!(!c.is_allowed("/p", "x"));
    c.deny("/p");
    assert!(!c.is_allowed("/p", "x"));
    assert!(c.records().is_empty());
}

#[test]
fn reapproval_replaces_record() {
    let mut c = Config::new();
    c.allow("/p", "old", 1);
    c.allow("/p", "new", 2);
    assert!(c.is_allowed("/p", "new"));
    assert!(!c.is_allowed("/p", "old"));
    let recs = c.records();
    assert_eq!(recs.len(), 1);
    assert_eq!(recs[0].0, Config::hash_path("/p"));
    assert_eq!(recs[0].1.path, "/p");
    assert_eq!(recs[0].1.file_hash, Config::hash_content("new"));
    assert_eq!(recs[0].1.allowed_at, 2);
}

#[test]
fn same_canonical_path_shares_trust() {
    let mut c = Config::new();
    let canonical = String::from("/srv/proj");
    c.allow(&canonical, "x", 5);
    let again = format!("/srv/{}", "proj");
    assert!(c.is_allowed(&again, "x"));
}

#[test]
fn records_and_get_round_trip() {
    let mut c = Config::new();
    c.allow("/a", "1", 1);
    c.allow("/b", "2", 2);
    let mut d = Config::new();
    for (k, v) in c.records() {
        d.insert_record(k, v);
    }
    assert!(d.is_allowed("/a", "1"));
    assert!(d.is_allowed("/b", "2"));
    let got = d.get(&Config::hash_path("/b")).unwrap();
    assert_eq!(got.allowed_at, 2);
    d.remove_record(&Config::hash_path("/a"));
    assert!(!d.is_allowed("/a", "1"));
    assert!(d.get(&Config::hash_path("/a")).is_none());
}

#[test]
fn unapproved_content_yields_no_directives() {
    let mut c = Config::new();
    assert_eq!(c.approved_directives("/p", "source a").unwrap(), None);
    c.allow("/p", "source a", 3);
    assert_eq!(
        c.approved_directives("/p", "source a").unwrap(),
        Some(vec![Command::Source { path: "a".to_string() }])
    );
    assert_eq!(c.approved_directives("/p", "source b").unwrap(), None);
    c.allow("/p", "bogus", 4);
    let e = c.approved_directives("/p", "bogus").unwrap_err();
    assert_eq!(e.kind, LineError::UnrecognizedDirective { line: "bogus".to_string() });
    assert_eq!(Config::default().approved_directives("/p", "bogus").unwrap(), None);
}

#[test]
fn digests_are_lowercase_hex() {
    for h in [Config::hash_content("x"), Config::hash_path("/some/dir")] {
        assert_eq!(h.len(), 64);
        assert!(h.chars().all(|c| c.is_ascii_digit() || ('a'..='f').contains(&c)));
    }
    let mut c = Config::new();
    c.allow("/a", "1", 1);
    c.allow("/b", "2", 2);
    c.allow("/a", "3", 3);
    let recs = c.records();
    assert_eq!(recs.len(), 2);
    assert_ne!(recs[0].0, recs[1].0);
    for (k, v) in recs {
        assert_eq!(k, Config::hash_path(&v.path));
    }
}
