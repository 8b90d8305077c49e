use cdn::read_path::{enumerate, fetch};
use cdn::snapshot::Snapshot;

fn pairs(raw: Vec<(&str, &str)>) -> Vec<(String, String)> {
    let mut out = Vec::new();
    for (k, v) in raw {
        out.push((k.to_string(), v.to_string()));
    }
    out
}

#[test]
fn end_to_end_scenario() {
    let snap = Snapshot::from_pairs(pairs(vec![
        ("button:primary", "a"),
        ("button:secondary", "b"),
    ]));
    assert_eq!(fetch(&snap, "button:primary|secondary".to_string()), "ab");
    assert_eq!(enumerate(&snap), "button:primary\nbutton:secondary");
}

#[test]
fn fetch_is_idempotent_on_an_unchanged_snapshot() {
    let snap = Snapshot::from_pairs(pairs(vec![("a", "1"), ("b", "2")]));
    let first = fetch(&snap, "a,b".to_string());
    let second = fetch(&snap, "a,b".to_string());
    assert_eq!(first, second);
    assert_eq!(first, "12");
}

#[test]
fn empty_query_fetches_empty_body() {
    let snap = Snapshot::from_pairs(pairs(vec![("a", "1")]));
    assert_eq!(fetch(&snap, "".to_string()), "");
}

#[test]
fn unknown_key_contributes_nothing() {
    let snap = Snapshot::from_pairs(pairs(vec![("a", "1")]));
    assert_eq!(fetch(&snap, "missing".to_string()), "");
    assert_eq!(fetch(&snap, "a,missing,a".to_string()), "11");
}

#[test]
fn every_enumerated_key_fetches_its_content() {
    let snap = Snapshot::from_pairs(pairs(vec![
        ("button:primary", "a"),
        ("button:secondary", "b"),
        ("reset", "r"),
    ]));
    let expected = vec!["a", "b", "r"];
    let keys = snap.keys();
    assert_eq!(keys.len(), expected.len());
    for (key, want) in keys.iter().zip(expected.iter()) {
        let body = fetch(&snap, key.clone());
        assert_eq!(&body, want);
        assert!(!body.is_empty());
    }
}
