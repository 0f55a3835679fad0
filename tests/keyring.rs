use taxy::keyring::{Cert, Keyring};

fn cert(id: &str, subjects: &[&str], not_before: u64) -> Cert {
    Cert {
        id: id.to_string(),
        subjects: subjects.iter().map(|s| s.to_string()).collect(),
        not_before,
        not_after: not_before + 1000,
    }
}

#[test]
fn insert_is_idempotent_on_id() {
    let mut k = Keyring::new();
    k.insert(cert("a", &["example.com"], 1));
    k.insert(cert("a", &["other.com"], 2));
    assert_eq!(k.get(&"a".to_string()).unwrap().subjects, vec!["example.com".to_string()]);
    assert!(k.get(&"b".to_string()).is_none());
}

#[test]
fn exact_beats_wildcard() {
    let mut k = Keyring::new();
    k.insert(cert("w", &["*.example.com"], 50));
    k.insert(cert("e", &["www.example.com"], 10));
    assert_eq!(k.find_for_sni("www.example.com").unwrap().id, "e");
    assert_eq!(k.find_for_sni("api.example.com").unwrap().id, "w");
    assert!(k.find_for_sni("a.b.example.com").is_none());
    assert!(k.find_for_sni("example.com").is_none());
}

#[test]
fn latest_not_before_then_smallest_id() {
    let mut k = Keyring::new();
    k.insert(cert("c", &["x.org"], 5));
    k.insert(cert("b", &["x.org"], 9));
    k.insert(cert("a", &["x.org"], 9));
    assert_eq!(k.find_for_sni("x.org").unwrap().id, "a");
    assert_eq!(k.find_index_for_sni("x.org"), Some(2));
}

#[test]
fn renewal_window() {
    let c = cert("a", &["x"], 0);
    assert!(c.renewal_due(900, 100));
    assert!(!c.renewal_due(800, 100));
    assert!(c.renewal_due(2000, 0));
}

#[test]
fn renewal_flag_with_lookup() {
    let mut k = Keyring::new();
    k.insert(cert("a", &["x.org"], 0));
    assert_eq!(k.find_for_sni_renewal("x.org", 950, 100), Some((0, true)));
    assert_eq!(k.find_for_sni_renewal("x.org", 100, 100), Some((0, false)));
    assert_eq!(k.find_for_sni_renewal("y.org", 100, 100), None);
}
